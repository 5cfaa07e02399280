use schemaform::limits::{
    check_input_source, check_input_value, input_dimension_name, InputDimension, InputLimits,
};
use schemaform::value::{JsonNumber, JsonValue};

fn num(text: &str) -> JsonValue {
    JsonValue::Number(JsonNumber::parse(text).expect("a JSON number"))
}

fn roomy() -> InputLimits {
    InputLimits {
        bytes: 1 << 20,
        tokens: 1 << 20,
        depth: 32,
        nodes: 1 << 20,
        members: 1 << 20,
        collection_length: 1 << 20,
        scalar_bytes: 1 << 20,
    }
}

#[test]
fn values_within_limits_pass() {
    let value = JsonValue::Object(vec![(
        "a".to_string(),
        JsonValue::Array(vec![num("1"), JsonValue::String("xy".to_string())]),
    )]);
    assert!(check_input_value(&value, roomy()).is_ok());
    assert!(check_input_source(br#"{"a":[1,"xy"]}"#, roomy()).is_ok());
}

#[test]
fn depth_violation_reports_the_deep_value() {
    let value = JsonValue::Array(vec![JsonValue::Array(vec![num("1")])]);
    let limits = InputLimits { depth: 1, ..roomy() };
    let error = check_input_value(&value, limits).expect_err("too deep");
    assert_eq!(error.dimension(), InputDimension::Depth);
    assert_eq!(error.maximum(), 1);
    assert_eq!(error.observed(), 2);
    assert_eq!(error.pointer(), "/0/0");
}

#[test]
fn node_violation_reports_the_first_extra_node() {
    let value = JsonValue::Array(vec![num("1"), num("2"), num("3")]);
    let limits = InputLimits { nodes: 3, ..roomy() };
    let error = check_input_value(&value, limits).expect_err("too many nodes");
    assert_eq!(error.dimension(), InputDimension::Nodes);
    assert_eq!(error.observed(), 4);
    assert_eq!(error.pointer(), "/2");
}

#[test]
fn member_and_length_violations_report_the_collection() {
    let value = JsonValue::Object(vec![("a".to_string(), num("1")), ("b".to_string(), num("2"))]);
    let error = check_input_value(&value, InputLimits { members: 1, ..roomy() }).expect_err("members");
    assert_eq!(error.dimension(), InputDimension::Members);
    assert_eq!(error.observed(), 2);
    assert_eq!(error.pointer(), "");
    let error = check_input_value(&value, InputLimits { collection_length: 1, ..roomy() })
        .expect_err("length");
    assert_eq!(error.dimension(), InputDimension::CollectionLength);
    assert_eq!(error.observed(), 2);
}

#[test]
fn scalar_bytes_count_member_names_and_utf8_strings() {
    let value = JsonValue::Object(vec![("a/bcd".to_string(), num("1"))]);
    let error = check_input_value(&value, InputLimits { scalar_bytes: 4, ..roomy() })
        .expect_err("long member name");
    assert_eq!(error.dimension(), InputDimension::ScalarBytes);
    assert_eq!(error.observed(), 5);
    assert_eq!(error.pointer(), "/a~1bcd");

    let value = JsonValue::String("héllo".to_string());
    let error = check_input_value(&value, InputLimits { scalar_bytes: 5, ..roomy() })
        .expect_err("long string");
    assert_eq!(error.observed(), 6);
    assert_eq!(error.pointer(), "");

    assert!(check_input_value(&JsonValue::Bool(false), InputLimits { scalar_bytes: 5, ..roomy() }).is_ok());
    assert!(check_input_value(&JsonValue::Bool(false), InputLimits { scalar_bytes: 4, ..roomy() }).is_err());
}

#[test]
fn source_checks_come_in_order() {
    let error = check_input_source(b"[1,2]", InputLimits { bytes: 4, ..roomy() }).expect_err("bytes");
    assert_eq!(error.dimension(), InputDimension::Bytes);
    assert_eq!(error.observed(), 5);
    let error = check_input_source(b"[1,2]", InputLimits { tokens: 2, ..roomy() }).expect_err("tokens");
    assert_eq!(error.dimension(), InputDimension::Tokens);
    assert_eq!(error.observed(), 3);
    let error = check_input_source(b"[[1]]", InputLimits { depth: 0, ..roomy() }).expect_err("depth");
    assert_eq!(error.dimension(), InputDimension::Depth);
    assert_eq!(error.observed(), 2);
    let error = check_input_source(b"[1,2,3]", InputLimits { collection_length: 2, ..roomy() })
        .expect_err("length");
    assert_eq!(error.dimension(), InputDimension::CollectionLength);
    assert_eq!(error.observed(), 3);
}

#[test]
fn dimension_names_are_stable() {
    assert_eq!(input_dimension_name(InputDimension::CollectionLength), "collection_length");
    assert_eq!(input_dimension_name(InputDimension::ScalarBytes), "scalar_bytes");
    assert_eq!(input_dimension_name(InputDimension::Bytes), "bytes");
}
