use schemaform::projection::{
    applicable_accepts_null, declared_projected_kinds, infer_kind, insert_projected_kind,
    projected_kind, value_matches_type, value_matches_type_declaration, KindSet, ProjectedKind,
    ProjectionTraversal,
};
use schemaform::value::{JsonNumber, JsonValue};

fn num(text: &str) -> JsonValue {
    JsonValue::Number(JsonNumber::parse(text).expect("a JSON number"))
}

fn text(value: &str) -> JsonValue {
    JsonValue::String(value.to_string())
}

fn typed(declaration: JsonValue) -> JsonValue {
    JsonValue::Object(vec![("type".to_string(), declaration)])
}

#[test]
fn type_names_map_to_kinds() {
    assert_eq!(projected_kind("integer"), Some(ProjectedKind::Integer));
    assert_eq!(projected_kind("object"), Some(ProjectedKind::Object));
    assert_eq!(projected_kind("decimal"), None);
    let mut kinds = KindSet::empty();
    insert_projected_kind(&mut kinds, ProjectedKind::Number);
    assert!(kinds.number && kinds.integer && !kinds.string);
    let declared = declared_projected_kinds(&JsonValue::Array(vec![text("string"), text("null")])).expect("known");
    assert!(declared.string && declared.null && !declared.number);
    assert!(declared_projected_kinds(&JsonValue::Array(vec![text("string"), num("1")])).is_none());
}

#[test]
fn kinds_are_inferred_from_every_declaration() {
    let number_or_null = typed(JsonValue::Array(vec![text("number"), text("null")]));
    assert_eq!(infer_kind(&vec![&number_or_null]), Some(ProjectedKind::Number));
    let integer = typed(text("integer"));
    let integer_or_string = typed(JsonValue::Array(vec![text("integer"), text("string")]));
    assert_eq!(infer_kind(&vec![&integer, &integer_or_string]), Some(ProjectedKind::Integer));
    let nullable_object = typed(JsonValue::Array(vec![text("object"), text("null")]));
    assert_eq!(infer_kind(&vec![&nullable_object]), None);
    let null = typed(text("null"));
    assert_eq!(infer_kind(&vec![&null]), Some(ProjectedKind::Null));
    let untyped = JsonValue::Object(Vec::new());
    assert_eq!(infer_kind(&vec![&untyped]), None);
    let several = typed(JsonValue::Array(vec![text("string"), text("boolean")]));
    assert_eq!(infer_kind(&vec![&untyped, &several]), None);
    assert!(applicable_accepts_null(&vec![&number_or_null, &null]));
    assert!(!applicable_accepts_null(&vec![&number_or_null, &integer]));
    assert!(!applicable_accepts_null(&vec![&untyped]));
}

#[test]
fn values_match_declared_types() {
    assert!(value_matches_type(&num("1.0"), "integer"));
    assert!(!value_matches_type(&num("1.5"), "integer"));
    assert!(value_matches_type(&num("1.5"), "number"));
    assert!(value_matches_type(&JsonValue::Null, "null"));
    assert!(!value_matches_type(&text("x"), "unknown"));
    let declaration = JsonValue::Array(vec![num("3"), text("boolean"), text("string")]);
    assert!(value_matches_type_declaration(&text("x"), &declaration));
    assert!(!value_matches_type_declaration(&num("3"), &declaration));
}

#[test]
fn projection_traversal_is_bounded() {
    let mut traversal = ProjectionTraversal::new(2);
    assert!(traversal.visit().is_ok());
    assert!(traversal.visit().is_ok());
    let error = traversal.visit().expect_err("third visit");
    assert_eq!(error.maximum(), 2);
    assert_eq!(error.observed(), 3);
}
