use schemaform::value::{
    copy_value, json_values_equal, preserve_semantically_equal_values, JsonNumber, JsonValue,
};

fn num(text: &str) -> JsonValue {
    JsonValue::Number(JsonNumber::parse(text).expect("a JSON number"))
}

fn text(value: &str) -> JsonValue {
    JsonValue::String(value.to_string())
}

fn object(members: Vec<(&str, JsonValue)>) -> JsonValue {
    JsonValue::Object(members.into_iter().map(|(key, value)| (key.to_string(), value)).collect())
}

#[test]
fn objects_compare_by_member_regardless_of_order() {
    let left = object(vec![("a", num("1")), ("b", num("2"))]);
    let right = object(vec![("b", num("2.0")), ("a", num("1e0"))]);
    assert!(json_values_equal(&left, &right));
    let other = object(vec![("a", num("1")), ("c", num("2"))]);
    assert!(!json_values_equal(&left, &other));
}

#[test]
fn arrays_compare_by_position() {
    let left = JsonValue::Array(vec![num("1"), text("x")]);
    let right = JsonValue::Array(vec![text("x"), num("1")]);
    assert!(!json_values_equal(&left, &right));
    assert!(json_values_equal(&left, &copy_value(&left)));
    assert!(!json_values_equal(&JsonValue::Null, &JsonValue::Bool(false)));
}

#[test]
fn preserving_keeps_the_current_spelling_of_equal_parts() {
    let current = object(vec![("a", num("1e3")), ("b", text("x"))]);
    let mut candidate = object(vec![("a", num("1000")), ("b", text("y"))]);
    preserve_semantically_equal_values(&current, &mut candidate);
    match &candidate {
        JsonValue::Object(members) => {
            assert_eq!(members.len(), 2);
            assert_eq!(members[0].0, "a");
            match &members[0].1 {
                JsonValue::Number(n) => assert_eq!(n.as_str(), "1e3"),
                other => panic!("unexpected member {other:?}"),
            }
            match &members[1].1 {
                JsonValue::String(s) => assert_eq!(s, "y"),
                other => panic!("unexpected member {other:?}"),
            }
        }
        other => panic!("unexpected value {other:?}"),
    }
}

#[test]
fn preserving_an_equal_value_returns_the_current_value() {
    let current = JsonValue::Array(vec![num("1.50")]);
    let mut candidate = JsonValue::Array(vec![num("1.5")]);
    preserve_semantically_equal_values(&current, &mut candidate);
    match &candidate {
        JsonValue::Array(items) => match &items[0] {
            JsonValue::Number(n) => assert_eq!(n.as_str(), "1.50"),
            other => panic!("unexpected item {other:?}"),
        },
        other => panic!("unexpected value {other:?}"),
    }
}
