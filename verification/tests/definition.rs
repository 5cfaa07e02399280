use schemaform::address::JsonPointer;
use schemaform::definition::{
    register_authored_id, select_auto_properties, validate_auto_property_order, GridSpans,
    PropertyPosition, PropertySelection, ResourceLimitError, ResourceLimitPhase,
    UiSchemaInputErrorKind,
};

fn names(values: &[&str]) -> Vec<String> {
    values.iter().map(|value| value.to_string()).collect()
}

fn table() -> Vec<(String, usize)> {
    vec![("a".to_string(), 10), ("b".to_string(), 11), ("c".to_string(), 12), ("d".to_string(), 13)]
}

fn selection(shown: &[&str], omitted: &[&str], order: Vec<PropertyPosition>) -> PropertySelection {
    PropertySelection { shown: names(shown), omitted: names(omitted), order }
}

#[test]
fn property_order_rejects_repeats() {
    let repeated = selection(&[], &[], vec![
        PropertyPosition::Property("b".to_string()),
        PropertyPosition::Remaining,
        PropertyPosition::Property("b".to_string()),
    ]);
    let error = validate_auto_property_order(&repeated, "/x").expect_err("repeated property");
    assert_eq!(error.location().as_str(), "/x/properties/order/2/property");
    assert_eq!(error.kind(), UiSchemaInputErrorKind::InvalidPropertySelection);

    let twice = selection(&[], &[], vec![
        PropertyPosition::Remaining,
        PropertyPosition::Property("a".to_string()),
        PropertyPosition::Remaining,
    ]);
    let error = validate_auto_property_order(&twice, "").expect_err("second remaining slot");
    assert_eq!(error.location().as_str(), "/properties/order/2");

    let valid = selection(&[], &[], vec![
        PropertyPosition::Property("c".to_string()),
        PropertyPosition::Remaining,
        PropertyPosition::Property("a".to_string()),
    ]);
    let (ordered, remaining) = validate_auto_property_order(&valid, "").expect("valid order");
    assert_eq!(ordered, names(&["c", "a"]));
    assert!(remaining);
}

#[test]
fn automatic_properties_follow_the_explicit_order() {
    let chosen = selection(&[], &["b"], vec![
        PropertyPosition::Property("c".to_string()),
        PropertyPosition::Remaining,
        PropertyPosition::Property("a".to_string()),
    ]);
    let (explicit, remaining) = validate_auto_property_order(&chosen, "").expect("valid order");
    let ordered = select_auto_properties(&chosen, &table(), "", &explicit, remaining).expect("known names");
    assert_eq!(ordered, vec![12, 13, 10]);

    let trailing = selection(&["d", "a"], &[], vec![PropertyPosition::Property("d".to_string())]);
    let (explicit, remaining) = validate_auto_property_order(&trailing, "").expect("valid order");
    let ordered = select_auto_properties(&trailing, &table(), "", &explicit, remaining).expect("known names");
    assert_eq!(ordered, vec![13, 10]);

    let all = selection(&[], &[], Vec::new());
    let ordered = select_auto_properties(&all, &table(), "", &Vec::new(), false).expect("known names");
    assert_eq!(ordered, vec![10, 11, 12, 13]);
}

#[test]
fn unknown_property_names_are_reported_where_they_appear() {
    let shown = selection(&["a", "z"], &[], Vec::new());
    let error = select_auto_properties(&shown, &table(), "/e", &Vec::new(), false).expect_err("unknown");
    assert_eq!(error.location().as_str(), "/e/properties/include/1");
    assert_eq!(error.kind(), UiSchemaInputErrorKind::UnknownBinding);

    let omitted = selection(&[], &["y"], Vec::new());
    let error = select_auto_properties(&omitted, &table(), "/e", &Vec::new(), false).expect_err("unknown");
    assert_eq!(error.location().as_str(), "/e/properties/exclude/0");

    let ordered = selection(&[], &[], vec![PropertyPosition::Remaining, PropertyPosition::Property("q".to_string())]);
    let error = select_auto_properties(&ordered, &table(), "/e", &names(&["q"]), true).expect_err("unknown");
    assert_eq!(error.location().as_str(), "/e/properties/order/1/property");
}

#[test]
fn authored_ids_must_be_unique() {
    let mut ids = Vec::new();
    assert_eq!(register_authored_id(None, "/a", &mut ids).expect("no id"), None);
    assert_eq!(register_authored_id(Some("main"), "/a", &mut ids).expect("new id"), Some("main".to_string()));
    let error = register_authored_id(Some("main"), "/b/0", &mut ids).expect_err("repeated id");
    assert_eq!(error.location().as_str(), "/b/0/id");
    assert_eq!(error.kind(), UiSchemaInputErrorKind::DuplicateElementId);
    assert_eq!(ids, names(&["main"]));
}

#[test]
fn resource_limit_errors_report_their_parts() {
    let path = JsonPointer::parse("/items/3".to_string()).expect("a pointer");
    let error = ResourceLimitError::new(ResourceLimitPhase::Operation, "repeated_items", 3, 4, path);
    assert_eq!(error.phase(), ResourceLimitPhase::Operation);
    assert_eq!(error.dimension(), "repeated_items");
    assert_eq!(error.maximum(), 3);
    assert_eq!(error.observed(), 4);
    assert_eq!(error.path().as_str(), "/items/3");
}

#[test]
fn grid_spans_report_both_layouts() {
    let spans = GridSpans::new(12, 6);
    assert_eq!(spans.compact(), 12);
    assert_eq!(spans.wide(), 6);
}
