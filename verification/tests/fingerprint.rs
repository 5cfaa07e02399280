use schemaform::fingerprint::{
    bytes_le_exec, hash_fingerprint_bytes, hash_fingerprint_length, hash_json_value,
    hash_optional_fingerprint_bytes, hash_optional_usize, hash_schema_array, hash_schema_map,
    hash_schema_value, hash_unordered_json_values, hash_unordered_strings,
    semantic_json_fingerprint, stable_positions,
};
use schemaform::value::{JsonNumber, JsonValue};

fn num(text: &str) -> JsonValue {
    JsonValue::Number(JsonNumber::parse(text).expect("a JSON number"))
}

fn text(value: &str) -> JsonValue {
    JsonValue::String(value.to_string())
}

fn object(members: Vec<(&str, JsonValue)>) -> JsonValue {
    JsonValue::Object(members.into_iter().map(|(key, value)| (key.to_string(), value)).collect())
}

fn be(n: u64) -> Vec<u8> {
    n.to_be_bytes().to_vec()
}

fn field(s: &str) -> Vec<u8> {
    let mut out = be(s.len() as u64);
    out.extend_from_slice(s.as_bytes());
    out
}

fn number_bytes(negative: bool, digits: &str, scale: &str) -> Vec<u8> {
    let mut out = vec![11, negative as u8];
    out.extend(field(digits));
    out.extend(field(scale));
    out
}

fn json_input(value: &JsonValue) -> Vec<u8> {
    let mut input = Vec::new();
    hash_json_value(&mut input, value);
    input
}

fn schema_input(value: &JsonValue) -> Vec<u8> {
    let mut input = Vec::new();
    hash_schema_value(&mut input, value);
    input
}

fn hex(bytes: &[u8]) -> String {
    bytes.iter().map(|b| format!("{b:02x}")).collect()
}

#[test]
fn scalars_have_tagged_inputs() {
    assert_eq!(json_input(&JsonValue::Null), vec![9]);
    assert_eq!(json_input(&JsonValue::Bool(true)), vec![10, 1]);
    assert_eq!(json_input(&JsonValue::Bool(false)), vec![10, 0]);
    let mut expected = vec![12];
    expected.extend(field("é"));
    assert_eq!(json_input(&text("é")), expected);
}

#[test]
fn numbers_are_taken_by_normal_form() {
    assert_eq!(json_input(&num("1.50")), number_bytes(false, "15", "-1"));
    assert_eq!(json_input(&num("-0.0")), number_bytes(false, "0", "0"));
    assert_eq!(json_input(&num("-12e3")), number_bytes(true, "12", "3"));
    assert_eq!(json_input(&num("1e2")), json_input(&num("100")));
    assert_ne!(json_input(&num("1e2")), json_input(&num("10")));
}

#[test]
fn object_members_are_taken_in_name_order() {
    let left = object(vec![("b", num("1")), ("a", num("2"))]);
    let right = object(vec![("a", num("2.0")), ("b", num("1"))]);
    let mut expected = vec![14];
    expected.extend(be(2));
    expected.extend(field("a"));
    expected.extend(number_bytes(false, "2", "0"));
    expected.extend(field("b"));
    expected.extend(number_bytes(false, "1", "0"));
    assert_eq!(json_input(&left), expected);
    assert_eq!(json_input(&right), expected);
}

#[test]
fn arrays_keep_their_order() {
    let array = JsonValue::Array(vec![JsonValue::Null, JsonValue::Bool(true)]);
    let mut expected = vec![13];
    expected.extend(be(2));
    expected.extend([9, 10, 1]);
    assert_eq!(json_input(&array), expected);
    let reversed = JsonValue::Array(vec![JsonValue::Bool(true), JsonValue::Null]);
    assert_ne!(json_input(&array), json_input(&reversed));
}

#[test]
fn fingerprint_is_the_sha256_of_the_input() {
    assert_eq!(
        hex(&semantic_json_fingerprint(&JsonValue::Null)),
        "2b4c342f5433ebe591a1da77e013d1b72475562d48578dca8b84bac6651c3cb9"
    );
    let value = object(vec![("b", num("1")), ("a", num("2"))]);
    assert_eq!(
        hex(&semantic_json_fingerprint(&value)),
        "e97941aecd3b5d50785f184326a0143c1ae9528c56a508dac1bc8a18f06226e8"
    );
    assert_eq!(
        semantic_json_fingerprint(&value),
        semantic_json_fingerprint(&object(vec![("a", num("20e-1")), ("b", num("1.0"))]))
    );
}

#[test]
fn schema_annotations_are_left_out() {
    let schema = object(vec![
        ("description", text("a name")),
        ("type", text("string")),
        ("default", text("x")),
    ]);
    let mut expected = vec![5];
    expected.extend(be(1));
    expected.extend(field("type"));
    expected.push(12);
    expected.extend(field("string"));
    assert_eq!(schema_input(&schema), expected);
    assert_eq!(schema_input(&JsonValue::Bool(true)), vec![1, 1]);
    assert_eq!(schema_input(&JsonValue::Null), vec![0]);
    assert_eq!(schema_input(&num("1")), json_input(&num("1")));
}

#[test]
fn required_names_are_a_set() {
    let one = object(vec![("required", JsonValue::Array(vec![text("b"), text("a")]))]);
    let other = object(vec![("required", JsonValue::Array(vec![text("a"), text("b")]))]);
    let mut expected = vec![5];
    expected.extend(be(1));
    expected.extend(field("required"));
    expected.push(8);
    expected.extend(be(2));
    expected.extend(field("a"));
    expected.extend(field("b"));
    assert_eq!(schema_input(&one), expected);
    assert_eq!(schema_input(&other), expected);
    let mixed = object(vec![("required", JsonValue::Array(vec![text("a"), num("1")]))]);
    let mut plain = vec![5];
    plain.extend(be(1));
    plain.extend(field("required"));
    plain.extend(json_input(&JsonValue::Array(vec![text("a"), num("1")])));
    assert_eq!(schema_input(&mixed), plain);
}

#[test]
fn enum_values_are_a_set() {
    let one = object(vec![("enum", JsonValue::Array(vec![num("1"), text("x")]))]);
    let other = object(vec![("enum", JsonValue::Array(vec![text("x"), num("1.0")]))]);
    assert_eq!(schema_input(&one), schema_input(&other));
    let mut digests = vec![
        semantic_json_fingerprint(&num("1")).to_vec(),
        semantic_json_fingerprint(&text("x")).to_vec(),
    ];
    digests.sort();
    let mut expected = Vec::new();
    hash_unordered_json_values(&mut expected, &JsonValue::Array(vec![text("x"), num("1")]));
    let mut direct = vec![15];
    direct.extend(be(2));
    direct.extend(digests[0].iter());
    direct.extend(digests[1].iter());
    assert_eq!(expected, direct);
}

#[test]
fn subschemas_are_taken_as_schemas() {
    let inner = object(vec![("type", text("string")), ("title", text("t"))]);
    let annotated = object(vec![("type", text("string")), ("title", text("t")), ("examples", JsonValue::Array(vec![]))]);
    let one = object(vec![("properties", object(vec![("name", inner)]))]);
    let other = object(vec![("properties", object(vec![("name", annotated)]))]);
    assert_eq!(schema_input(&one), schema_input(&other));

    let list = JsonValue::Array(vec![object(vec![("description", text("d"))])]);
    let mut direct = Vec::new();
    hash_schema_array(&mut direct, &list);
    let mut expected = vec![7];
    expected.extend(be(1));
    expected.push(5);
    expected.extend(be(0));
    assert_eq!(direct, expected);

    let mut not_a_map = Vec::new();
    hash_schema_map(&mut not_a_map, &num("3"));
    assert_eq!(not_a_map, json_input(&num("3")));
}

#[test]
fn unordered_strings_sort_by_bytes() {
    let mut input = Vec::new();
    hash_unordered_strings(&mut input, &JsonValue::Array(vec![text("é"), text("z"), text("a")]));
    let mut expected = vec![8];
    expected.extend(be(3));
    expected.extend(field("a"));
    expected.extend(field("z"));
    expected.extend(field("é"));
    assert_eq!(input, expected);
}

#[test]
fn fields_and_optional_fields() {
    let mut input = Vec::new();
    hash_fingerprint_length(&mut input, 258);
    assert_eq!(input, vec![0, 0, 0, 0, 0, 0, 1, 2]);
    let mut input = Vec::new();
    hash_fingerprint_bytes(&mut input, b"ab");
    assert_eq!(input, field("ab"));
    let mut input = Vec::new();
    hash_optional_usize(&mut input, Some(3));
    hash_optional_usize(&mut input, None);
    assert_eq!(input, vec![1, 0, 0, 0, 0, 0, 0, 0, 3, 0]);
    let mut input = Vec::new();
    hash_optional_fingerprint_bytes(&mut input, Some("x"));
    hash_optional_fingerprint_bytes(&mut input, None);
    let mut expected = vec![1];
    expected.extend(field("x"));
    expected.push(0);
    assert_eq!(input, expected);
}

#[test]
fn positions_sort_stably_by_key() {
    let keys = vec![b"b".to_vec(), b"a".to_vec(), b"b".to_vec(), b"".to_vec()];
    assert_eq!(stable_positions(&keys), vec![3, 1, 0, 2]);
    assert!(bytes_le_exec(b"ab", b"b"));
    assert!(bytes_le_exec(b"a", b"ab"));
    assert!(!bytes_le_exec(b"b", b"ab"));
}
