use schemaform::address::JsonPointer;
use schemaform::choices::LocatedSchema;
use schemaform::locations::schema_locations;
use schemaform::value::JsonValue;

fn located<'a>(schema: &'a JsonValue, resource: &str, pointer: &str) -> LocatedSchema<'a> {
    LocatedSchema {
        schema,
        resource: resource.to_string(),
        pointer: JsonPointer::parse(pointer.to_string()).expect("pointer"),
        all_of_memberships: Vec::new(),
    }
}

#[test]
fn places_are_distinct_and_ordered_by_resource_then_pointer() {
    let schema = JsonValue::Bool(true);
    let applicable = vec![
        located(&schema, "urn:b", "/properties/x"),
        located(&schema, "urn:a", "/allOf/1"),
        located(&schema, "urn:b", ""),
        located(&schema, "urn:a", "/allOf/0"),
        located(&schema, "urn:b", "/properties/x"),
    ];
    let places: Vec<(String, String)> = schema_locations(&applicable)
        .iter()
        .map(|p| (p.resource.clone(), p.pointer.as_str().to_string()))
        .collect();
    assert_eq!(
        places,
        vec![
            ("urn:a".to_string(), "/allOf/0".to_string()),
            ("urn:a".to_string(), "/allOf/1".to_string()),
            ("urn:b".to_string(), "".to_string()),
            ("urn:b".to_string(), "/properties/x".to_string()),
        ]
    );
    assert!(schema_locations(&Vec::new()).is_empty());
}
