use schemaform::address::JsonPointer;
use schemaform::annotations::{data_schema_annotations, ControlKind};
use schemaform::compiled::{ArrayDefinition, ArrayItemTemplate, ControlDefinition, NodePresentation};
use schemaform::definition::DefinitionFingerprint;
use schemaform::engine::{ApplyExternalFindingsError, CreateFormError, EditError, ExternalFinding, ParseBlocker};
use schemaform::form::FormDefinition;
use schemaform::value::{JsonNumber, JsonValue};

fn num(text: &str) -> JsonValue {
    JsonValue::Number(JsonNumber::parse(text).unwrap())
}

fn object(members: Vec<(&str, JsonValue)>) -> JsonValue {
    JsonValue::Object(members.into_iter().map(|(k, v)| (k.to_string(), v)).collect())
}

fn presentation() -> NodePresentation {
    NodePresentation { label: "x".to_string(), help: None, annotations: data_schema_annotations(&Vec::new()) }
}

fn control(binding: &str) -> ControlDefinition {
    ControlDefinition {
        binding: JsonPointer::parse(binding.to_string()).unwrap(),
        parent_binding: None,
        kind: ControlKind::Integer,
        choices: Vec::new(),
        accepts_null: false,
        schema_locations: Vec::new(),
        presentation: presentation(),
        creation_seed: None,
        required: true,
    }
}

fn definition() -> FormDefinition {
    FormDefinition {
        controls: vec![control("/quantity")],
        objects: Vec::new(),
        arrays: vec![ArrayDefinition {
            binding: JsonPointer::parse("/items".to_string()).unwrap(),
            parent_binding: None,
            schema_locations: Vec::new(),
            presentation: presentation(),
            required: false,
            creation_seed: JsonValue::Array(Vec::new()),
            min_items: None,
            max_items: None,
            item_template: ArrayItemTemplate {
                controls: vec![control("/items/0")],
                objects: Vec::new(),
                creation_seed: num("0"),
            },
        }],
        fingerprint: DefinitionFingerprint([0; 32]),
    }
}

fn data(quantity: &str, items: usize) -> JsonValue {
    object(vec![("quantity", num(quantity)), ("items", JsonValue::Array((0..items).map(|i| num(&i.to_string())).collect()))])
}

#[test]
fn forms_need_object_data_and_number_array_items() {
    let definition = definition();
    assert!(matches!(definition.create_form(num("1")), Err(CreateFormError::FormDataMustBeObject)));
    let form = definition.create_form(data("1", 2)).unwrap();
    assert_eq!(form.data_revision(), 0);
    assert_eq!(form.state_revision(), 0);
    assert!(!form.submission_attempted());
    assert_eq!(form.array_item_identities("/items"), Some(vec![1, 2]));
    assert_eq!(form.array_item_identities("/missing"), None);
}

#[test]
fn external_findings_apply_only_to_the_current_revision() {
    let mut form = definition().create_form(data("1", 0)).unwrap();
    let finding = || ExternalFinding::blocking("/quantity", "server-rejected".to_string()).unwrap();
    assert_eq!(
        form.apply_external_findings("server".to_string(), 7, vec![finding()]),
        Err(ApplyExternalFindingsError::StaleDataRevision { current: 0, supplied: 7 })
    );
    assert_eq!(form.state_revision(), 0);
    form.apply_external_findings("server".to_string(), 0, vec![finding()]).unwrap();
    assert_eq!(form.state_revision(), 1);
    form.apply_external_findings("server".to_string(), 0, vec![finding(), finding()]).unwrap();
    assert_eq!(form.state_revision(), 1, "reapplying an identical batch is a no-op");
}

#[test]
fn reinitialize_installs_a_new_baseline_and_reset_is_idempotent() {
    let mut form = definition().create_form(data("1", 2)).unwrap();
    assert!(!form.bound_value_is_dirty("/quantity"));
    assert!(matches!(form.reinitialize(num("3")), Err(CreateFormError::FormDataMustBeObject)));
    assert_eq!(form.data_revision(), 0);
    form.reinitialize(data("1e0", 1)).unwrap();
    assert_eq!(form.data_revision(), 1);
    assert_eq!(form.state_revision(), 1);
    assert_eq!(form.array_item_identities("/items"), Some(vec![3]));
    assert!(matches!(form.form_data(), JsonValue::Object(members) if members.len() == 2));
    form.reset();
    assert_eq!(form.data_revision(), 1, "reset of clean data keeps the data revision");
    assert_eq!(form.state_revision(), 1, "resetting a clean form is a no-op");
    assert!(!form.bound_value_is_dirty("/quantity"));
    assert!(!form.bound_value_is_dirty("not a pointer"));
}

fn kind_control(binding: &str, kind: ControlKind) -> ControlDefinition {
    ControlDefinition { kind, ..control(binding) }
}

fn editing_definition() -> FormDefinition {
    FormDefinition {
        controls: vec![
            kind_control("/quantity", ControlKind::Integer),
            kind_control("/price", ControlKind::Number),
            kind_control("/name", ControlKind::String),
            kind_control("/agreed", ControlKind::Boolean),
        ],
        objects: Vec::new(),
        arrays: vec![ArrayDefinition {
            binding: JsonPointer::parse("/items".to_string()).unwrap(),
            parent_binding: None,
            schema_locations: Vec::new(),
            presentation: presentation(),
            required: false,
            creation_seed: JsonValue::Array(Vec::new()),
            min_items: None,
            max_items: None,
            item_template: ArrayItemTemplate {
                controls: vec![kind_control("", ControlKind::Integer)],
                objects: Vec::new(),
                creation_seed: num("0"),
            },
        }],
        fingerprint: DefinitionFingerprint([7; 32]),
    }
}

fn member<'a>(value: &'a JsonValue, key: &str) -> Option<&'a JsonValue> {
    match value {
        JsonValue::Object(members) => members.iter().find(|(k, _)| k == key).map(|(_, v)| v),
        _ => None,
    }
}

fn number_text(value: Option<&JsonValue>) -> Option<String> {
    match value {
        Some(JsonValue::Number(n)) => Some(n.as_str().to_string()),
        _ => None,
    }
}

#[test]
fn equal_number_edits_keep_the_data_and_invalid_text_blocks_submission() {
    let mut form = editing_definition().create_form(data("10", 0)).unwrap();
    form.edit_text("/quantity", "1e1").unwrap();
    assert_eq!(form.data_revision(), 0, "a mathematically equal edit rewrites nothing");
    assert_eq!(form.state_revision(), 1, "the edit text is new state");
    assert_eq!(number_text(member(form.form_data(), "quantity")), Some("10".to_string()));
    form.edit_text("/quantity", "12").unwrap();
    assert_eq!(form.data_revision(), 1);
    assert_eq!(form.state_revision(), 2);
    assert_eq!(number_text(member(form.form_data(), "quantity")), Some("12".to_string()));
    form.edit_text("/quantity", "twelve").unwrap();
    assert_eq!(form.data_revision(), 1, "text that does not parse changes no data");
    assert_eq!(form.state_revision(), 3);
    let blocked = form.prepare_submission().unwrap_err();
    assert!(blocked.has_parse_blocker("/quantity"));
    assert!(!blocked.has_parse_blocker("/price"));
    assert!(form.submission_attempted());
    assert_eq!(form.state_revision(), 4);
    form.edit_text("/quantity", "13").unwrap();
    let snapshot = form.prepare_submission().unwrap();
    assert_eq!(snapshot.data_revision(), 2);
    assert_eq!(snapshot.definition_fingerprint(), DefinitionFingerprint([7; 32]));
    assert_eq!(number_text(member(snapshot.form_data(), "quantity")), Some("13".to_string()));
}

#[test]
fn edits_add_missing_members_and_refuse_what_controls_cannot_take() {
    let mut form = editing_definition().create_form(data("1", 1)).unwrap();
    form.edit_text("/price", "2.50").unwrap();
    assert_eq!(number_text(member(form.form_data(), "price")), Some("2.50".to_string()));
    assert_eq!(form.data_revision(), 1);
    form.edit_text("/name", "Ada").unwrap();
    assert!(matches!(member(form.form_data(), "name"), Some(JsonValue::String(s)) if s == "Ada"));
    assert!(matches!(form.edit_text("/agreed", "yes"), Err(EditError::OperationNotAllowed(b)) if b == "/agreed"));
    assert!(matches!(form.edit_text("/missing", "1"), Err(EditError::UnknownControl(b)) if b == "/missing"));
    assert!(matches!(form.edit_text("/name", "x"), Ok(())));
    assert!(matches!(form.edit_text("/quantity", "1.5"), Ok(())));
    let blocked = form.prepare_submission().unwrap_err();
    assert!(blocked.has_parse_blocker("/quantity"), "a fraction is no integer");
    form.edit_text("/items/0", "5").unwrap();
    let items = member(form.form_data(), "items");
    assert!(matches!(items, Some(JsonValue::Array(values)) if number_text(values.first()) == Some("5".to_string())));
}

#[test]
fn set_value_checks_the_control_and_blur_touches_once() {
    let mut form = editing_definition().create_form(data("1", 0)).unwrap();
    assert!(matches!(form.set_value("/agreed", &num("1")), Err(EditError::OperationNotAllowed(_))));
    assert_eq!(form.data_revision(), 0);
    form.set_value("/agreed", &JsonValue::Bool(true)).unwrap();
    assert_eq!(form.data_revision(), 1);
    assert_eq!(form.state_revision(), 1);
    form.set_value("/agreed", &JsonValue::Bool(true)).unwrap();
    assert_eq!(form.data_revision(), 1, "setting an equal value is a no-op");
    form.set_value("/quantity", &num("1.0")).unwrap();
    assert_eq!(form.data_revision(), 1, "an equal number is no change");
    assert!(matches!(form.blur("/nowhere"), Err(EditError::UnknownControl(_))));
    form.blur("/quantity").unwrap();
    assert_eq!(form.state_revision(), 2);
    form.blur("/quantity").unwrap();
    assert_eq!(form.state_revision(), 2, "blurring a touched control changes nothing");
}

#[test]
fn blocking_findings_block_submission_until_the_data_changes() {
    let mut form = editing_definition().create_form(data("1", 0)).unwrap();
    let finding = ExternalFinding::blocking("/quantity", "server-rejected".to_string()).unwrap();
    let advisory = ExternalFinding::advisory("/name", "looks-odd".to_string()).unwrap();
    form.apply_external_findings("server".to_string(), 0, vec![finding, advisory]).unwrap();
    let blocked = form.prepare_submission().unwrap_err();
    assert!(blocked.has_external_blocker("server", "/quantity", "server-rejected"));
    assert!(!blocked.has_external_blocker("server", "/name", "looks-odd"));
    form.edit_text("/quantity", "2").unwrap();
    assert!(form.prepare_submission().is_ok(), "new data discards host findings");
}

fn item_numbers(form: &schemaform::form::Form) -> Vec<String> {
    match member(form.form_data(), "items") {
        Some(JsonValue::Array(values)) => values.iter().map(|v| number_text(Some(v)).unwrap_or_default()).collect(),
        _ => Vec::new(),
    }
}

#[test]
fn array_items_keep_their_identities_through_inserts_removals_and_moves() {
    let mut form = editing_definition().create_form(data("1", 2)).unwrap();
    assert_eq!(form.array_item_identities("/items"), Some(vec![1, 2]));
    assert!(form.array_can_append("/items"));
    assert!(form.array_can_remove("/items"));
    assert!(form.array_can_move("/items"));
    assert!(!form.array_can_append("/quantity"));
    let appended = form.append_array_item("/items").unwrap();
    assert_eq!(appended, 3);
    assert_eq!(item_numbers(&form), vec!["0", "1", "0"]);
    assert_eq!(form.data_revision(), 1);
    let inserted = form.insert_array_item_before("/items", 2).unwrap();
    assert_eq!(inserted.identity, 4);
    assert_eq!(inserted.shifted, vec![2, 3]);
    assert_eq!(form.array_item_identities("/items"), Some(vec![1, 4, 2, 3]));
    assert!(matches!(form.insert_array_item_before("/items", 99), Err(EditError::UnknownControl(_))));
    let removed = form.remove_array_item("/items", 1).unwrap();
    assert_eq!(removed.shifted, vec![4, 2, 3]);
    assert_eq!(item_numbers(&form), vec!["0", "1", "0"]);
    let moved = form.move_array_item_down("/items", 4).unwrap();
    assert_eq!((moved.displaced, moved.from, moved.to, moved.data_changed), (2, 0, 1, true));
    assert_eq!(item_numbers(&form), vec!["1", "0", "0"]);
    assert_eq!(form.array_item_identities("/items"), Some(vec![2, 4, 3]));
    let revision = form.data_revision();
    let moved = form.move_array_item_up("/items", 3).unwrap();
    assert!(!moved.data_changed, "trading equal values changes no data");
    assert_eq!(form.data_revision(), revision);
    assert!(matches!(form.move_array_item_up("/items", 2), Err(EditError::OperationNotAllowed(_))));
}

#[test]
fn removing_a_value_rebuilds_the_arrays_under_it_and_clears_edit_text() {
    let mut form = editing_definition().create_form(data("1", 2)).unwrap();
    form.edit_text("/quantity", "oops").unwrap();
    assert!(matches!(form.remove_value("quantity"), Err(EditError::UnknownControl(_))));
    assert!(matches!(form.remove_value("/absent"), Err(EditError::UnresolvedControl(_))));
    assert_eq!(form.data_revision(), 0);
    form.remove_value("/quantity").unwrap();
    assert!(member(form.form_data(), "quantity").is_none());
    assert_eq!(form.data_revision(), 1);
    assert!(form.prepare_submission().is_ok(), "the edit text under the removed value is gone");
    form.remove_value("/items").unwrap();
    assert_eq!(form.array_item_identities("/items"), Some(Vec::new()));
    assert!(!form.array_can_append("/items"), "no array to append to");
}

#[test]
fn structures_are_materialized_where_missing_and_replaced_across_shapes() {
    let mut form = editing_definition().create_form(data("1", 2)).unwrap();
    assert!(matches!(form.materialize_structure("/items", &JsonValue::Array(Vec::new())), Err(EditError::OperationNotAllowed(_))));
    assert!(matches!(form.materialize_structure("/extra", &num("1")), Err(EditError::OperationNotAllowed(_))));
    form.materialize_structure("/extra", &JsonValue::Array(Vec::new())).unwrap();
    assert!(matches!(member(form.form_data(), "extra"), Some(JsonValue::Array(v)) if v.is_empty()));
    assert_eq!(form.data_revision(), 1);
    assert!(matches!(form.replace_structure("/items", &JsonValue::Array(Vec::new())), Err(EditError::OperationNotAllowed(_))));
    form.replace_structure("/items", &object(Vec::new())).unwrap();
    assert_eq!(form.array_item_identities("/items"), Some(Vec::new()));
    form.replace_structure("/items", &JsonValue::Array(vec![num("1"), num("2"), num("3")])).unwrap();
    assert_eq!(form.array_item_identities("/items"), Some(vec![3, 4, 5]));
    assert_eq!(form.data_revision(), 3);
}

#[test]
fn item_bindings_and_accepted_values_follow_the_definition() {
    let mut form = editing_definition().create_form(data("1", 2)).unwrap();
    assert_eq!(form.array_item_binding("/items", 2), Some("/items/1".to_string()));
    assert_eq!(form.array_item_binding("/items", 9), None);
    assert_eq!(form.array_item_binding("/nowhere", 1), None);
    assert_eq!(form.control_accepts_value("/quantity", &num("2.0")), Some(true));
    assert_eq!(form.control_accepts_value("/quantity", &num("2.5")), Some(false));
    assert_eq!(form.control_accepts_value("/quantity", &JsonValue::Null), Some(false));
    assert_eq!(form.control_accepts_value("/items/1", &num("3")), Some(true));
    assert_eq!(form.control_accepts_value("/missing", &num("3")), None);
    form.mark_state_changed();
    assert_eq!(form.state_revision(), 1);
}

#[test]
fn a_second_reset_changes_nothing() {
    let mut form = editing_definition().create_form(data("1", 1)).unwrap();
    form.edit_text("/quantity", "5").unwrap();
    form.append_array_item("/items").unwrap();
    form.blur("/quantity").unwrap();
    form.reset();
    let (data_revision, state_revision) = (form.data_revision(), form.state_revision());
    assert_eq!(number_text(member(form.form_data(), "quantity")), Some("1".to_string()));
    assert_eq!(form.array_item_identities("/items"), Some(vec![1]));
    form.reset();
    assert_eq!((form.data_revision(), form.state_revision()), (data_revision, state_revision));
}

#[test]
fn control_views_show_edit_text_blockers_and_touch() {
    let mut form = editing_definition().create_form(data("1", 1)).unwrap();
    assert!(form.control("/missing").is_none());
    form.edit_text("/quantity", "x").unwrap();
    {
        let view = form.control("/quantity").unwrap();
        assert_eq!(view.binding(), "/quantity");
        assert_eq!(view.edit_buffer(), Some("x"));
        assert_eq!(view.parse_blocker(), Some(ParseBlocker::InvalidInteger));
        assert!(!view.is_touched());
    }
    form.blur("/items/0").unwrap();
    let item = form.control("/items/0").unwrap();
    assert_eq!(item.binding(), "");
    assert!(item.is_touched());
    assert_eq!(item.edit_buffer(), None);
}
