use schemaform::address::JsonPointer;
use schemaform::finding::{
    active_external_finding_batch_bytes, add_external_finding_bytes, add_json_encoded_len,
    add_json_string_encoded_len, incoming_external_finding_batch_bytes, ExternalFinding,
    ExternalFindingBatch,
};
use schemaform::state::DataRevision;
use schemaform::value::{JsonNumber, JsonValue};

fn to_library(value: &serde_json::Value) -> JsonValue {
    match value {
        serde_json::Value::Null => JsonValue::Null,
        serde_json::Value::Bool(b) => JsonValue::Bool(*b),
        serde_json::Value::Number(n) => JsonValue::Number(JsonNumber::parse(n.as_str()).expect("number")),
        serde_json::Value::String(s) => JsonValue::String(s.clone()),
        serde_json::Value::Array(items) => JsonValue::Array(items.iter().map(to_library).collect()),
        serde_json::Value::Object(members) => JsonValue::Object(
            members.iter().map(|(key, value)| (key.clone(), to_library(value))).collect(),
        ),
    }
}

#[test]
fn encoded_length_matches_compact_serialization() {
    let source = r#"{"a":[1,true,null,1.5e3],"b":"q\"\\\n\u0001é","c":{},"d":[]}"#;
    let parsed: serde_json::Value = serde_json::from_str(source).expect("valid JSON");
    let expected = serde_json::to_string(&parsed).expect("serializable").len();
    let mut bytes = 0usize;
    assert_eq!(add_json_encoded_len(&to_library(&parsed), &mut bytes, usize::MAX), Ok(()));
    assert_eq!(bytes, expected);
}

#[test]
fn encoded_length_stops_at_the_maximum() {
    let mut bytes = 0usize;
    assert_eq!(add_json_string_encoded_len("abc", &mut bytes, 4), Err(5));
    let mut bytes = 10usize;
    assert_eq!(add_external_finding_bytes(&mut bytes, 5, 20), Ok(()));
    assert_eq!(bytes, 15);
    assert_eq!(add_external_finding_bytes(&mut bytes, usize::MAX, 20), Err(usize::MAX));
}

#[test]
fn batch_bytes_count_the_source_once() {
    let finding = ExternalFinding::blocking(
        "server-rejected".to_string(),
        JsonPointer::parse("/quantity".to_string()).expect("pointer"),
        JsonValue::Object(Vec::new()),
    );
    assert!(finding.is_blocking());
    let batch = ExternalFindingBatch::new("server".to_string(), DataRevision::new(1, 0), vec![finding]);
    assert_eq!(incoming_external_finding_batch_bytes(&batch, 1000), Ok(6 + 15 + 9 + 2));
    assert_eq!(active_external_finding_batch_bytes(&batch, 1000), Ok(32));
    assert_eq!(incoming_external_finding_batch_bytes(&batch, 20), Err(21));

    let empty = ExternalFindingBatch::new("server".to_string(), DataRevision::new(1, 0), Vec::new());
    assert_eq!(incoming_external_finding_batch_bytes(&empty, 1000), Ok(6));
    assert_eq!(active_external_finding_batch_bytes(&empty, 1000), Ok(0));
    assert_eq!(empty.source(), "server");
    assert_eq!(empty.data_revision(), DataRevision::new(1, 0));
    assert!(!ExternalFinding::advisory("note".to_string(), JsonPointer::root(), JsonValue::Null).is_blocking());
}
