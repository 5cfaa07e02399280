use schemaform::address::JsonPointer;
use schemaform::annotations::{data_schema_annotations, ControlKind};
use schemaform::compiled::{
    control_value_is_compatible, fingerprint_compiled_definition, ArrayDefinition, ArrayItemTemplate, ControlDefinition, NodePresentation,
    ObjectDefinition,
};
use schemaform::fingerprint::{hash_json_value, hash_schema_value};
use schemaform::value::{JsonNumber, JsonValue};
use sha2::{Digest, Sha256};

fn num(text: &str) -> JsonValue {
    JsonValue::Number(JsonNumber::parse(text).expect("a JSON number"))
}

fn pointer(text: &str) -> JsonPointer {
    JsonPointer::parse(text.to_string()).expect("pointer")
}

fn presentation(label: &str, help: Option<&str>) -> NodePresentation {
    NodePresentation {
        label: label.to_string(),
        help: help.map(|h| h.to_string()),
        annotations: data_schema_annotations(&Vec::new()),
    }
}

fn control(binding: &str, kind: ControlKind, seed: Option<JsonValue>) -> ControlDefinition {
    ControlDefinition {
        binding: pointer(binding),
        parent_binding: None,
        kind,
        choices: vec![num("1"), JsonValue::Null],
        accepts_null: true,
        schema_locations: Vec::new(),
        presentation: presentation("Count", Some("how many")),
        creation_seed: seed,
        required: false,
    }
}

fn object_definition(binding: &str) -> ObjectDefinition {
    ObjectDefinition {
        binding: pointer(binding),
        parent_binding: None,
        schema_locations: Vec::new(),
        presentation: presentation("Item", None),
        required: true,
        creation_seed: JsonValue::Object(Vec::new()),
    }
}

fn array_definition(template_seed: Option<JsonValue>) -> ArrayDefinition {
    ArrayDefinition {
        binding: pointer("/list"),
        parent_binding: None,
        schema_locations: Vec::new(),
        presentation: presentation("List", None),
        required: false,
        creation_seed: JsonValue::Array(Vec::new()),
        min_items: Some(1),
        max_items: None,
        item_template: ArrayItemTemplate {
            controls: vec![control("/list/0/n", ControlKind::Integer, template_seed)],
            objects: vec![object_definition("/list/0")],
            creation_seed: JsonValue::Object(Vec::new()),
        },
    }
}

fn be(n: u64) -> Vec<u8> {
    n.to_be_bytes().to_vec()
}

fn field(s: &str) -> Vec<u8> {
    let mut out = be(s.len() as u64);
    out.extend_from_slice(s.as_bytes());
    out
}

fn json(value: &JsonValue) -> Vec<u8> {
    let mut out = Vec::new();
    hash_json_value(&mut out, value);
    out
}

fn control_bytes(kind: u8, seed: Option<&JsonValue>, seeded: bool, binding: &str) -> Vec<u8> {
    let mut out = field(binding);
    out.push(kind);
    out.extend(field("Count"));
    out.push(1);
    out.extend(field("how many"));
    if seeded {
        match seed {
            Some(value) => {
                out.push(1);
                out.extend(json(value));
            },
            None => out.push(0),
        }
    }
    out.extend([0, 1]);
    out.extend(be(2));
    out.extend(json(&num("1")));
    out.extend(json(&JsonValue::Null));
    out
}

fn object_bytes(binding: &str) -> Vec<u8> {
    let mut out = field(binding);
    out.extend(field("Item"));
    out.push(0);
    out.push(1);
    out.extend(json(&JsonValue::Object(Vec::new())));
    out
}

#[test]
fn definition_fingerprint_is_the_digest_of_its_fields() {
    let seed = num("5");
    let controls = vec![control("/count", ControlKind::Number, Some(num("5")))];
    let objects = vec![object_definition("/meta")];
    let arrays = vec![array_definition(None)];
    let document = JsonValue::Object(vec![("type".to_string(), JsonValue::String("object".to_string()))]);
    let resources = vec![("urn:root".to_string(), &document)];
    let fingerprint = fingerprint_compiled_definition(&controls, &objects, &arrays, &resources);

    let mut input = b"schemaform-compiled-definition-v15\0".to_vec();
    input.extend(be(1));
    input.extend(control_bytes(5, Some(&seed), true, "/count"));
    input.extend(be(1));
    input.extend(object_bytes("/meta"));
    input.extend(be(1));
    input.extend(field("/list"));
    input.extend(field("List"));
    input.push(0);
    input.push(0);
    input.push(1);
    input.extend(be(1));
    input.push(0);
    input.extend(json(&JsonValue::Array(Vec::new())));
    input.extend(json(&JsonValue::Object(Vec::new())));
    input.extend(be(1));
    input.extend(object_bytes("/list/0"));
    input.extend(be(1));
    input.extend(control_bytes(1, None, false, "/list/0/n"));
    input.extend(be(1));
    input.extend(field("urn:root"));
    let mut schema = Vec::new();
    hash_schema_value(&mut schema, &document);
    input.extend(schema);
    let expected: [u8; 32] = Sha256::digest(&input).into();
    assert_eq!(fingerprint.0, expected);
}

#[test]
fn template_control_seeds_do_not_count_but_labels_do() {
    let without = fingerprint_compiled_definition(&Vec::new(), &Vec::new(), &vec![array_definition(None)], &Vec::new());
    let with_seed =
        fingerprint_compiled_definition(&Vec::new(), &Vec::new(), &vec![array_definition(Some(num("3")))], &Vec::new());
    assert_eq!(without.0, with_seed.0);
    let mut relabelled = array_definition(None);
    relabelled.presentation.label = "Other".to_string();
    let other = fingerprint_compiled_definition(&Vec::new(), &Vec::new(), &vec![relabelled], &Vec::new());
    assert_ne!(without.0, other.0);
    let seeded = fingerprint_compiled_definition(
        &vec![control("/n", ControlKind::Integer, Some(num("3")))],
        &Vec::new(),
        &Vec::new(),
        &Vec::new(),
    );
    let unseeded = fingerprint_compiled_definition(
        &vec![control("/n", ControlKind::Integer, None)],
        &Vec::new(),
        &Vec::new(),
        &Vec::new(),
    );
    assert_ne!(seeded.0, unseeded.0);
}

#[test]
fn control_values_fit_by_kind_choices_and_null() {
    let mut integer = control("/n", ControlKind::Integer, None);
    assert!(control_value_is_compatible(&integer, &num("3")));
    assert!(control_value_is_compatible(&integer, &num("3.0")));
    assert!(!control_value_is_compatible(&integer, &num("3.5")));
    assert!(control_value_is_compatible(&integer, &JsonValue::Null));
    integer.accepts_null = false;
    assert!(!control_value_is_compatible(&integer, &JsonValue::Null));
    let choice = control("/c", ControlKind::Choice, None);
    assert!(control_value_is_compatible(&choice, &num("1.0")));
    assert!(!control_value_is_compatible(&choice, &num("2")));
    let text = control("/t", ControlKind::String, None);
    assert!(control_value_is_compatible(&text, &JsonValue::String("x".to_string())));
    assert!(!control_value_is_compatible(&text, &JsonValue::Bool(true)));
}
