use schemaform::address::JsonPointer;
use schemaform::choices::{LocatedSchema, UnsupportedFinding};
use schemaform::projection::ProjectedKind;
use schemaform::unsupported::{
    dynamic_object_map_findings, first_keyword_origin, unsupported_control_finding,
    unsupported_root_finding,
};
use schemaform::value::{JsonNumber, JsonValue};

fn num(text: &str) -> JsonValue {
    JsonValue::Number(JsonNumber::parse(text).expect("a JSON number"))
}

fn text(value: &str) -> JsonValue {
    JsonValue::String(value.to_string())
}

fn object(members: Vec<(&str, JsonValue)>) -> JsonValue {
    JsonValue::Object(members.into_iter().map(|(key, value)| (key.to_string(), value)).collect())
}

fn located<'a>(schema: &'a JsonValue, resource: &str, pointer: &str) -> LocatedSchema<'a> {
    LocatedSchema {
        schema,
        resource: resource.to_string(),
        pointer: JsonPointer::parse(pointer.to_string()).expect("pointer"),
        all_of_memberships: Vec::new(),
    }
}

fn place(finding: &UnsupportedFinding) -> String {
    format!("{} {} {}", finding.code, finding.resource, finding.keyword_location.as_str())
}

fn implicit(finding: &UnsupportedFinding) -> Option<bool> {
    match &finding.parameters {
        JsonValue::Object(members) => members.iter().find(|(k, _)| k == "implicit").and_then(|(_, v)| match v {
            JsonValue::Bool(b) => Some(*b),
            _ => None,
        }),
        _ => None,
    }
}

#[test]
fn first_keyword_origin_is_the_least_location() {
    let typed = object(vec![("type", text("string"))]);
    let untyped = object(vec![("title", text("t"))]);
    let applicable = vec![
        located(&typed, "urn:b", "/a"),
        located(&untyped, "urn:a", "/a"),
        located(&typed, "urn:a", "/c"),
        located(&typed, "urn:a", "/b"),
    ];
    let origin = first_keyword_origin(&applicable, "type").expect("an origin");
    assert_eq!((origin.resource.as_str(), origin.pointer.as_str()), ("urn:a", "/b"));
    assert!(first_keyword_origin(&applicable, "enum").is_none());
}

#[test]
fn dynamic_maps_report_openness_and_shapes() {
    let with_properties = object(vec![("properties", object(vec![]))]);
    let plain = object(vec![("type", text("object"))]);
    assert!(dynamic_object_map_findings(&vec![located(&with_properties, "urn:a", ""), located(&plain, "urn:a", "/x")]).is_empty());

    let implicit_map = dynamic_object_map_findings(&vec![located(&plain, "urn:a", "/z"), located(&plain, "urn:a", "/y")]);
    assert_eq!(implicit_map.iter().map(place).collect::<Vec<_>>(), vec!["applicator.additional-properties.dynamic-map urn:a /y"]);
    assert_eq!(implicit(&implicit_map[0]), Some(true));

    let explicit = object(vec![("additionalProperties", object(vec![("type", text("string"))]))]);
    let shaped = object(vec![("patternProperties", object(vec![])), ("unevaluatedProperties", JsonValue::Bool(false))]);
    let findings = dynamic_object_map_findings(&vec![located(&shaped, "urn:a", "/s"), located(&explicit, "urn:a", "/t")]);
    assert_eq!(
        findings.iter().map(place).collect::<Vec<_>>(),
        vec![
            "applicator.additional-properties.dynamic-map urn:a /t/additionalProperties",
            "applicator.pattern-properties.shape urn:a /s/patternProperties",
            "unevaluated.properties.shape urn:a /s/unevaluatedProperties",
        ]
    );
    assert_eq!(implicit(&findings[0]), Some(false));

    let closed = object(vec![("additionalProperties", JsonValue::Bool(false))]);
    assert!(dynamic_object_map_findings(&vec![located(&closed, "urn:a", "")]).is_empty());
}

#[test]
fn unsupported_roots_name_the_reason() {
    let typed_array = object(vec![("type", text("array"))]);
    let typed_string = object(vec![("type", text("string"))]);
    let either = object(vec![("type", JsonValue::Array(vec![text("string"), text("number")]))]);
    let untyped = object(vec![("title", text("t"))]);
    let boolean = JsonValue::Bool(true);

    let f = unsupported_root_finding(&vec![located(&untyped, "urn:a", ""), located(&typed_array, "urn:a", "/d")], Some(ProjectedKind::Array), false);
    assert_eq!(place(&f), "structure.root.array urn:a /d/type");
    let f = unsupported_root_finding(&vec![located(&typed_string, "urn:a", "")], Some(ProjectedKind::String), false);
    assert_eq!(place(&f), "structure.root.scalar urn:a /type");
    let f = unsupported_root_finding(&vec![located(&untyped, "urn:a", "/r")], None, true);
    assert_eq!(place(&f), "structure.root.scalar urn:a /r");
    let f = unsupported_root_finding(&vec![located(&untyped, "urn:a", ""), located(&typed_array, "urn:a", "/x")], None, false);
    assert_eq!(place(&f), "structure.root.array urn:a /x/type");
    let f = unsupported_root_finding(&vec![located(&untyped, "urn:a", "/r"), located(&boolean, "urn:a", "/b")], None, false);
    assert_eq!(place(&f), "core.boolean.unconstrained urn:a /r");
    let f = unsupported_root_finding(&vec![located(&either, "urn:a", "/e")], None, false);
    assert_eq!(place(&f), "validation.type.ambiguous urn:a /e/type");
    let f = unsupported_root_finding(&vec![located(&untyped, "urn:a", "/u")], None, false);
    assert_eq!(place(&f), "validation.type.unconstrained urn:a /u");
    assert!(matches!(f.parameters, JsonValue::Object(ref m) if m.is_empty()));
}

#[test]
fn unsupported_controls_name_the_reason() {
    let either = object(vec![("type", JsonValue::Array(vec![text("string"), num("1")]))]);
    let untyped = object(vec![("title", text("t"))]);
    let control = located(&untyped, "urn:c", "/properties/x");
    let f = unsupported_control_finding(&vec![located(&JsonValue::Bool(false), "urn:a", "/b")], &control);
    assert_eq!(place(&f), "core.boolean.unconstrained urn:c /properties/x");
    let f = unsupported_control_finding(&vec![located(&either, "urn:a", "/e"), located(&untyped, "urn:a", "/u")], &control);
    assert_eq!(place(&f), "validation.type.ambiguous urn:a /e/type");
    let f = unsupported_control_finding(&vec![located(&untyped, "urn:a", "/u")], &control);
    assert_eq!(place(&f), "validation.type.unconstrained urn:c /properties/x");
}
