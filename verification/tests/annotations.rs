use schemaform::address::JsonPointer;
use schemaform::annotations::{
    array_creation_seed, array_item_creation_seed, array_length_bounds, array_may_apply,
    data_schema_annotations, declared_type_names, is_explicitly_closed_object,
    minimal_scalar_seed, nonnegative_integer_as_usize, object_creation_seed, push_unique_value,
    scalar_creation_seed, scalar_value_is_compatible, sort_annotation_values, string_annotations,
    value_annotations, ControlKind, array_applicator_findings, keyword_findings, text_annotation,
};
use schemaform::choices::LocatedSchema;
use schemaform::value::{json_values_equal, JsonNumber, JsonValue};

fn num(text: &str) -> JsonValue {
    JsonValue::Number(JsonNumber::parse(text).expect("a JSON number"))
}

fn text(value: &str) -> JsonValue {
    JsonValue::String(value.to_string())
}

fn object(members: Vec<(&str, JsonValue)>) -> JsonValue {
    JsonValue::Object(members.into_iter().map(|(key, value)| (key.to_string(), value)).collect())
}

fn located<'a>(schema: &'a JsonValue, pointer: &str) -> LocatedSchema<'a> {
    LocatedSchema {
        schema,
        resource: "urn:test".to_string(),
        pointer: JsonPointer::parse(pointer.to_string()).expect("pointer"),
        all_of_memberships: Vec::new(),
    }
}

fn describe(value: &JsonValue) -> String {
    match value {
        JsonValue::Null => "null".to_string(),
        JsonValue::Bool(b) => b.to_string(),
        JsonValue::Number(n) => n.as_str().to_string(),
        JsonValue::String(s) => format!("{s:?}"),
        JsonValue::Array(items) => format!("[{}]", items.iter().map(describe).collect::<Vec<_>>().join(",")),
        JsonValue::Object(members) => format!(
            "{{{}}}",
            members.iter().map(|(k, v)| format!("{k:?}:{}", describe(v))).collect::<Vec<_>>().join(",")
        ),
    }
}

#[test]
fn counts_are_nonnegative_integers_saturated() {
    assert_eq!(nonnegative_integer_as_usize(&num("3")), Some(3));
    assert_eq!(nonnegative_integer_as_usize(&num("3.0")), Some(3));
    assert_eq!(nonnegative_integer_as_usize(&num("1e2")), Some(100));
    assert_eq!(nonnegative_integer_as_usize(&num("0.5e1")), Some(5));
    assert_eq!(nonnegative_integer_as_usize(&num("-0")), Some(0));
    assert_eq!(nonnegative_integer_as_usize(&num("0e99999999999999999999")), Some(0));
    assert_eq!(nonnegative_integer_as_usize(&num("-1")), None);
    assert_eq!(nonnegative_integer_as_usize(&num("1.5")), None);
    assert_eq!(nonnegative_integer_as_usize(&num("1e400")), Some(usize::MAX));
    assert_eq!(nonnegative_integer_as_usize(&num("1e99999999999999999999999")), Some(usize::MAX));
    assert_eq!(
        nonnegative_integer_as_usize(&num("99999999999999999999999999999")),
        Some(usize::MAX)
    );
    assert_eq!(nonnegative_integer_as_usize(&text("3")), None);
    assert_eq!(nonnegative_integer_as_usize(&JsonValue::Null), None);
}

#[test]
fn array_bounds_take_the_tightest_limits() {
    let a = object(vec![("minItems", num("2")), ("maxItems", num("5"))]);
    let b = object(vec![("minItems", num("3"))]);
    let c = object(vec![("maxItems", num("4.0"))]);
    let d = object(vec![("minItems", text("9")), ("maxItems", num("-1"))]);
    let applicable = vec![located(&a, ""), located(&b, ""), located(&c, ""), located(&d, "")];
    assert_eq!(array_length_bounds(&applicable), (Some(3), Some(4)));
    let none = vec![located(&d, "")];
    assert_eq!(array_length_bounds(&none), (None, None));
}

#[test]
fn closed_objects_need_additional_properties_false() {
    let open = object(vec![("additionalProperties", JsonValue::Bool(true))]);
    let closed = object(vec![("additionalProperties", JsonValue::Bool(false))]);
    assert!(!is_explicitly_closed_object(&vec![located(&open, "")]));
    assert!(is_explicitly_closed_object(&vec![located(&open, ""), located(&closed, "")]));
}

#[test]
fn creation_seeds_use_the_one_distinct_default() {
    let one = object(vec![("default", object(vec![("a", num("1"))]))]);
    let same = object(vec![("default", object(vec![("a", num("1.0"))]))]);
    let other = object(vec![("default", object(vec![("b", num("1"))]))]);
    let array = object(vec![("default", JsonValue::Array(vec![num("1")]))]);
    assert_eq!(describe(&object_creation_seed(&vec![located(&one, ""), located(&same, ""), located(&array, "")])), "{\"a\":1}");
    assert_eq!(describe(&object_creation_seed(&vec![located(&one, ""), located(&other, "")])), "{}");
    assert_eq!(describe(&array_creation_seed(&vec![located(&one, ""), located(&array, "")])), "[1]");
    assert_eq!(describe(&array_creation_seed(&vec![located(&one, "")])), "[]");
}

#[test]
fn string_annotations_are_sorted_and_distinct() {
    let a = object(vec![("format", text("uri"))]);
    let b = object(vec![("format", text("email"))]);
    let c = object(vec![("format", text("uri")), ("contentEncoding", text("base64"))]);
    let d = object(vec![("format", num("1"))]);
    let applicable = vec![located(&a, ""), located(&b, ""), located(&c, ""), located(&d, "")];
    assert_eq!(string_annotations(&applicable, "format"), vec!["email".to_string(), "uri".to_string()]);
    assert_eq!(string_annotations(&applicable, "contentEncoding"), vec!["base64".to_string()]);
    assert!(string_annotations(&applicable, "contentMediaType").is_empty());
}

#[test]
fn value_annotations_are_distinct_and_ordered_by_fingerprint() {
    let a = object(vec![("default", text("x"))]);
    let b = object(vec![("default", num("1"))]);
    let c = object(vec![("default", num("1.0"))]);
    let d = object(vec![("default", JsonValue::Bool(true))]);
    let applicable = vec![located(&a, ""), located(&b, ""), located(&c, ""), located(&d, "")];
    let values = value_annotations(&applicable, "default");
    assert_eq!(values.iter().map(describe).collect::<Vec<_>>(), vec!["true", "1", "\"x\""]);
}

#[test]
fn pushing_and_sorting_annotation_values() {
    let mut values = vec![text("x")];
    push_unique_value(&mut values, &num("1"));
    push_unique_value(&mut values, &num("1e0"));
    push_unique_value(&mut values, &JsonValue::Bool(true));
    assert_eq!(values.len(), 3);
    sort_annotation_values(&mut values);
    assert_eq!(values.iter().map(describe).collect::<Vec<_>>(), vec!["true", "1", "\"x\""]);
}

#[test]
fn data_schema_annotations_collect_every_schema() {
    let a = object(vec![
        ("format", text("uri")),
        ("default", text("x")),
        ("deprecated", JsonValue::Bool(true)),
        ("examples", JsonValue::Array(vec![text("x"), num("1")])),
        ("contentMediaType", text("text/plain")),
    ]);
    let b = object(vec![
        ("readOnly", JsonValue::Bool(false)),
        ("writeOnly", JsonValue::Bool(true)),
        ("examples", JsonValue::Array(vec![num("1.0"), JsonValue::Bool(true)])),
        ("contentSchema", object(vec![("type", text("string"))])),
    ]);
    let applicable = vec![located(&a, ""), located(&b, "")];
    let annotations = data_schema_annotations(&applicable);
    assert_eq!(annotations.formats(), &["uri".to_string()]);
    assert_eq!(annotations.defaults().iter().map(describe).collect::<Vec<_>>(), vec!["\"x\""]);
    assert!(annotations.is_deprecated());
    assert!(!annotations.is_read_only());
    assert!(annotations.is_write_only());
    assert_eq!(annotations.examples().iter().map(describe).collect::<Vec<_>>(), vec!["true", "1", "\"x\""]);
    assert!(annotations.content_encodings().is_empty());
    assert_eq!(annotations.content_media_types(), &["text/plain".to_string()]);
    assert_eq!(annotations.content_schemas().len(), 1);
}

#[test]
fn scalar_compatibility_by_kind() {
    let choices = vec![text("a"), num("2")];
    assert!(scalar_value_is_compatible(ControlKind::String, &choices, &text("z")));
    assert!(!scalar_value_is_compatible(ControlKind::String, &choices, &num("1")));
    assert!(scalar_value_is_compatible(ControlKind::Number, &choices, &num("1.5")));
    assert!(scalar_value_is_compatible(ControlKind::Integer, &choices, &num("1.0")));
    assert!(!scalar_value_is_compatible(ControlKind::Integer, &choices, &num("1.5")));
    assert!(scalar_value_is_compatible(ControlKind::Boolean, &choices, &JsonValue::Bool(false)));
    assert!(scalar_value_is_compatible(ControlKind::Choice, &choices, &num("2.0")));
    assert!(!scalar_value_is_compatible(ControlKind::Constant, &choices, &text("b")));
}

#[test]
fn minimal_seeds_by_kind() {
    let choices = vec![JsonValue::Null, text("b"), text("a")];
    assert_eq!(describe(&minimal_scalar_seed(ControlKind::String, &choices).unwrap()), "\"\"");
    assert_eq!(describe(&minimal_scalar_seed(ControlKind::Number, &choices).unwrap()), "0");
    assert_eq!(describe(&minimal_scalar_seed(ControlKind::Integer, &choices).unwrap()), "0");
    assert_eq!(describe(&minimal_scalar_seed(ControlKind::Boolean, &choices).unwrap()), "false");
    assert_eq!(describe(&minimal_scalar_seed(ControlKind::Choice, &choices).unwrap()), "\"b\"");
    assert_eq!(describe(&minimal_scalar_seed(ControlKind::Constant, &vec![JsonValue::Null]).unwrap()), "null");
    assert!(minimal_scalar_seed(ControlKind::Choice, &vec![]).is_none());
    assert_eq!(describe(&minimal_scalar_seed(ControlKind::Null, &vec![]).unwrap()), "null");
}

#[test]
fn creation_seeds_from_defaults() {
    let one_default = object(vec![("default", num("5"))]);
    let two_defaults_a = object(vec![("default", num("5"))]);
    let two_defaults_b = object(vec![("default", num("6"))]);
    let null_default = object(vec![("default", JsonValue::Null)]);

    let single = data_schema_annotations(&vec![located(&one_default, "")]);
    assert_eq!(describe(&scalar_creation_seed(ControlKind::Number, &vec![], &single).unwrap()), "5");
    assert_eq!(describe(&scalar_creation_seed(ControlKind::String, &vec![], &single).unwrap()), "\"\"");

    let double = data_schema_annotations(&vec![located(&two_defaults_a, ""), located(&two_defaults_b, "")]);
    assert_eq!(describe(&scalar_creation_seed(ControlKind::Integer, &vec![], &double).unwrap()), "0");

    let nulls = data_schema_annotations(&vec![located(&null_default, "")]);
    assert!(scalar_creation_seed(ControlKind::Null, &vec![JsonValue::Null], &nulls).is_none());
    assert_eq!(describe(&array_item_creation_seed(ControlKind::Number, &vec![], true, &nulls).unwrap()), "null");
    assert_eq!(describe(&array_item_creation_seed(ControlKind::Number, &vec![], false, &nulls).unwrap()), "0");
    assert_eq!(describe(&array_item_creation_seed(ControlKind::Null, &vec![], false, &single).unwrap()), "null");
}

#[test]
fn arrays_may_apply_unless_a_type_excludes_them() {
    let untyped = object(vec![("title", text("t"))]);
    let array = object(vec![("type", text("array"))]);
    let either = object(vec![("type", JsonValue::Array(vec![text("null"), text("array")]))]);
    let string = object(vec![("type", text("string"))]);
    assert!(array_may_apply(&vec![located(&untyped, "")]));
    assert!(array_may_apply(&vec![located(&array, ""), located(&either, "")]));
    assert!(!array_may_apply(&vec![located(&array, ""), located(&string, "")]));
}

#[test]
fn declared_type_names_are_sorted_and_distinct() {
    let a = object(vec![("type", text("string"))]);
    let b = object(vec![("type", JsonValue::Array(vec![text("null"), num("1"), text("string")]))]);
    let names = declared_type_names(&vec![located(&a, ""), located(&b, "")]);
    assert_eq!(names, vec!["null".to_string(), "string".to_string()]);
    assert!(json_values_equal(&text("a"), &text("a")));
}

fn located_in<'a>(schema: &'a JsonValue, resource: &str, pointer: &str) -> LocatedSchema<'a> {
    LocatedSchema {
        schema,
        resource: resource.to_string(),
        pointer: JsonPointer::parse(pointer.to_string()).expect("pointer"),
        all_of_memberships: Vec::new(),
    }
}

#[test]
fn agreeing_text_annotations_give_the_text() {
    let a = object(vec![("title", text("Name"))]);
    let b = object(vec![("title", text("Name")), ("description", num("1"))]);
    let (value, finding) = text_annotation(&vec![located(&a, "/a"), located(&b, "/b")], "title");
    assert_eq!(value.as_deref(), Some("Name"));
    assert!(finding.is_none());
    let (value, finding) = text_annotation(&vec![located(&a, "/a"), located(&b, "/b")], "description");
    assert!(value.is_none());
    assert!(finding.is_none());
}

#[test]
fn conflicting_text_annotations_give_a_finding_at_the_earliest_origin() {
    let a = object(vec![("title", text("Zed"))]);
    let b = object(vec![("title", text("Alpha"))]);
    let c = object(vec![("title", text("Zed"))]);
    let applicable = vec![
        located_in(&a, "urn:b", "/x"),
        located_in(&b, "urn:a", "/y"),
        located_in(&c, "urn:a", "/w"),
    ];
    let (value, finding) = text_annotation(&applicable, "title");
    assert!(value.is_none());
    let finding = finding.expect("a conflict");
    assert_eq!(finding.code, "annotation.conflict");
    assert_eq!(finding.resource, "urn:a");
    assert_eq!(finding.keyword_location.as_str(), "/w/title");
    assert_eq!(describe(&finding.parameters), "{\"keyword\":\"title\",\"values\":[\"Alpha\",\"Zed\"]}");
}

#[test]
fn keyword_findings_are_one_per_place_in_order() {
    let a = object(vec![("not", object(vec![]))]);
    let b = object(vec![("title", text("t"))]);
    let applicable = vec![
        located_in(&a, "urn:b", "/x"),
        located_in(&a, "urn:a", "/z"),
        located_in(&b, "urn:a", "/q"),
        located_in(&a, "urn:a", "/y"),
        located_in(&a, "urn:a", "/z"),
    ];
    let findings = keyword_findings(&applicable, "not", "core.not");
    let places = findings
        .iter()
        .map(|f| format!("{} {} {}", f.resource, f.keyword_location.as_str(), f.code))
        .collect::<Vec<_>>();
    assert_eq!(places, vec!["urn:a /y/not core.not", "urn:a /z/not core.not", "urn:b /x/not core.not"]);
    assert!(findings.iter().all(|f| describe(&f.parameters) == "{}"));
}

#[test]
fn array_applicator_findings_count_the_items() {
    let prefix = object(vec![("prefixItems", JsonValue::Array(vec![object(vec![]), object(vec![])]))]);
    let any_of = object(vec![("anyOf", JsonValue::Array(vec![object(vec![]), object(vec![]), object(vec![])]))]);
    let not_array = object(vec![("prefixItems", object(vec![]))]);
    let applicable = vec![located(&prefix, "/p"), located(&not_array, "/n"), located(&any_of, "/a")];
    let items = array_applicator_findings(&applicable, "prefixItems", "applicator.prefix-items");
    assert_eq!(items.len(), 1);
    assert_eq!(items[0].keyword_location.as_str(), "/p/prefixItems");
    assert_eq!(items[0].code, "applicator.prefix-items");
    assert_eq!(describe(&items[0].parameters), "{\"itemCount\":2}");
    let branches = array_applicator_findings(&applicable, "anyOf", "applicator.any-of");
    assert_eq!(branches.len(), 1);
    assert_eq!(describe(&branches[0].parameters), "{\"branchCount\":3}");
}
