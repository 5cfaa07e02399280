use schemaform::address::JsonPointer;
use schemaform::choices::{open_object_warnings, scalar_choices, LocatedSchema};
use schemaform::projection::ProjectedKind;
use schemaform::value::{JsonNumber, JsonValue};

fn num(text: &str) -> JsonValue {
    JsonValue::Number(JsonNumber::parse(text).expect("a JSON number"))
}

fn text(value: &str) -> JsonValue {
    JsonValue::String(value.to_string())
}

fn object(members: Vec<(&str, JsonValue)>) -> JsonValue {
    JsonValue::Object(members.into_iter().map(|(key, value)| (key.to_string(), value)).collect())
}

fn located<'a>(schema: &'a JsonValue, resource: &str, pointer: &str) -> LocatedSchema<'a> {
    LocatedSchema {
        schema,
        resource: resource.to_string(),
        pointer: JsonPointer::parse(pointer.to_string()).expect("pointer"),
        all_of_memberships: Vec::new(),
    }
}

fn describe(value: &JsonValue) -> String {
    match value {
        JsonValue::Null => "null".to_string(),
        JsonValue::Bool(b) => b.to_string(),
        JsonValue::Number(n) => n.as_str().to_string(),
        JsonValue::String(s) => format!("{s:?}"),
        _ => "structured".to_string(),
    }
}

#[test]
fn enum_choices_are_deduplicated_and_ordered() {
    let schema = object(vec![(
        "enum",
        JsonValue::Array(vec![num("3"), text("b"), JsonValue::Null, text("a"), num("1"), num("3.0"), JsonValue::Bool(true), JsonValue::Bool(false)]),
    )]);
    let applicable = vec![located(&schema, "urn:root", "")];
    let choices = scalar_choices(&applicable, None).expect("compilable").expect("choices");
    let listed: Vec<String> = choices.values.iter().map(describe).collect();
    assert_eq!(listed, vec!["null", "false", "true", "1", "3", "\"a\"", "\"b\""]);
    assert!(choices.selectable);
    assert!(!choices.null_only);
}

#[test]
fn later_keywords_narrow_the_first_enum() {
    let first = object(vec![("enum", JsonValue::Array(vec![num("1"), num("2"), text("x")]))]);
    let second = object(vec![("enum", JsonValue::Array(vec![num("2.0"), text("x")])), ("type", text("integer"))]);
    let applicable = vec![located(&first, "urn:root", ""), located(&second, "urn:root", "/allOf/0")];
    let choices = scalar_choices(&applicable, None).expect("compilable").expect("choices");
    let listed: Vec<String> = choices.values.iter().map(describe).collect();
    assert_eq!(listed, vec!["2"]);
}

#[test]
fn schemas_without_choices_have_none() {
    let schema = object(vec![("type", text("string"))]);
    let applicable = vec![located(&schema, "urn:root", "")];
    assert!(scalar_choices(&applicable, Some(ProjectedKind::String)).expect("compilable").is_none());
    let null_type = object(vec![("type", text("null"))]);
    let applicable = vec![located(&null_type, "urn:root", "")];
    let choices = scalar_choices(&applicable, Some(ProjectedKind::Null)).expect("compilable").expect("null");
    assert!(choices.null_only);
    assert!(!choices.selectable);
    assert_eq!(choices.values.len(), 1);
}

#[test]
fn conflicting_and_structured_constants_are_unsupported() {
    let one = object(vec![("const", num("1"))]);
    let two = object(vec![("const", num("2"))]);
    let applicable = vec![located(&one, "urn:root", "/a"), located(&two, "urn:root", "/b")];
    let findings = scalar_choices(&applicable, None).expect_err("conflicting constants");
    assert_eq!(findings.len(), 1);
    assert_eq!(findings[0].code, "validation.const.conflicting");
    assert_eq!(findings[0].keyword_location.as_str(), "/b/const");
    assert_eq!(findings[0].resource, "urn:root");

    let listed = object(vec![("const", JsonValue::Array(Vec::new()))]);
    let applicable = vec![located(&listed, "urn:other", "/c")];
    let findings = scalar_choices(&applicable, None).expect_err("structured constant");
    assert_eq!(findings[0].code, "validation.const.structured");
    assert_eq!(findings[0].keyword_location.as_str(), "/c/const");
}

#[test]
fn incompatible_choices_are_unsupported() {
    let schema = object(vec![("enum", JsonValue::Array(vec![text("a")])), ("type", text("integer"))]);
    let applicable = vec![located(&schema, "urn:root", "/p")];
    let findings = scalar_choices(&applicable, None).expect_err("no value survives");
    assert_eq!(findings[0].code, "validation.enum.incompatible");
    assert_eq!(findings[0].keyword_location.as_str(), "/p/enum");
}

#[test]
fn open_objects_warn_at_the_least_origin() {
    let first = object(vec![("properties", object(Vec::new()))]);
    let second = object(vec![("properties", object(Vec::new())), ("patternProperties", object(Vec::new()))]);
    let applicable = vec![located(&first, "urn:b", "/x"), located(&second, "urn:a", "/y")];
    let binding = JsonPointer::parse("/item".to_string()).expect("pointer");
    let warnings = open_object_warnings(&applicable, binding);
    assert_eq!(warnings.len(), 2);
    assert_eq!(warnings[0].1.code, "applicator.pattern-properties.fixed-projection");
    assert_eq!(warnings[0].1.keyword_location.as_str(), "/y/patternProperties");
    assert_eq!(warnings[1].0.as_str(), "/item");
    assert_eq!(warnings[1].1.code, "applicator.additional-properties.open");
    assert_eq!(warnings[1].1.keyword_location.as_str(), "/y");
    assert_eq!(warnings[1].1.resource, "urn:a");
    match &warnings[1].1.parameters {
        JsonValue::Object(members) => {
            assert_eq!(members[0].0, "implicit");
            assert!(matches!(members[0].1, JsonValue::Bool(true)));
        }
        other => panic!("unexpected parameters {other:?}"),
    }
}

#[test]
fn closed_and_schema_valued_objects_do_not_warn_as_open() {
    let closed = object(vec![("properties", object(Vec::new())), ("additionalProperties", JsonValue::Bool(false))]);
    let applicable = vec![located(&closed, "urn:a", "")];
    assert!(open_object_warnings(&applicable, JsonPointer::root()).is_empty());

    let schema_valued = object(vec![("properties", object(Vec::new())), ("additionalProperties", object(Vec::new()))]);
    let applicable = vec![located(&schema_valued, "urn:a", "/s")];
    let warnings = open_object_warnings(&applicable, JsonPointer::root());
    assert_eq!(warnings.len(), 1);
    assert_eq!(warnings[0].1.code, "applicator.additional-properties.schema-projection");
    assert_eq!(warnings[0].1.keyword_location.as_str(), "/s/additionalProperties");

    let explicit = object(vec![("properties", object(Vec::new())), ("additionalProperties", JsonValue::Bool(true))]);
    let applicable = vec![located(&explicit, "urn:a", "/e")];
    let warnings = open_object_warnings(&applicable, JsonPointer::root());
    assert_eq!(warnings.len(), 1);
    assert_eq!(warnings[0].1.keyword_location.as_str(), "/e/additionalProperties");

    let plain = object(vec![("type", text("object"))]);
    let applicable = vec![located(&plain, "urn:a", "")];
    assert!(open_object_warnings(&applicable, JsonPointer::root()).is_empty());
}
