use schemaform::address::RetrievalUri;
use schemaform::limits::{CompilationLimitDimension, CompilationLimitPhase};
use schemaform::profile::CompilationProfile;
use schemaform::schema::{
    check_compilation_inputs, check_compilation_outputs, check_parsed_schema,
    check_qualified_graph, graph_metrics, resolve_uri, value_metrics, SchemaResource,
};
use schemaform::value::{JsonNumber, JsonValue};

fn num(text: &str) -> JsonValue {
    JsonValue::Number(JsonNumber::parse(text).expect("a JSON number"))
}

fn text(value: &str) -> JsonValue {
    JsonValue::String(value.to_string())
}

fn object(members: Vec<(&str, JsonValue)>) -> JsonValue {
    JsonValue::Object(members.into_iter().map(|(key, value)| (key.to_string(), value)).collect())
}

#[test]
fn value_metrics_record_each_maximum_where_first_reached() {
    let value = object(vec![("a", JsonValue::Array(vec![num("1"), text("xy")]))]);
    let metrics = value_metrics(&value, 10);
    assert_eq!(metrics.nodes, 4);
    assert_eq!(metrics.tokens, 5);
    assert_eq!(metrics.depth, 2);
    assert_eq!(metrics.depth_pointer, "/a/0");
    assert_eq!(metrics.members, 2);
    assert_eq!(metrics.members_pointer, "/a");
    assert_eq!(metrics.scalar_bytes, 2);
    assert_eq!(metrics.scalar_pointer, "/a/1");
    assert_eq!(metrics.pointer_bytes, 4);
    assert_eq!(metrics.pointer, "/a/0");
}

#[test]
fn value_metrics_stop_below_the_depth_limit() {
    let value = JsonValue::Array(vec![JsonValue::Array(vec![JsonValue::Array(vec![num("1")])]), num("2")]);
    let metrics = value_metrics(&value, 1);
    assert_eq!(metrics.depth, 2);
    assert_eq!(metrics.depth_pointer, "/0/0");
    assert_eq!(metrics.nodes, 3);
}

#[test]
fn parsed_schemas_are_checked_for_structure() {
    let schema = object(vec![("properties", object(vec![("name", object(vec![("type", text("string"))]))]))]);
    let profile = CompilationProfile::standard().max_data_schema_depth(1);
    let error = check_parsed_schema(40, &schema, &profile).expect_err("too deep");
    assert_eq!(error.phase(), CompilationLimitPhase::Structure);
    assert_eq!(error.dimension(), CompilationLimitDimension::Depth);
    assert_eq!(error.observed(), 2);
    assert_eq!(error.pointer().as_str(), "/properties/name");
    assert!(check_parsed_schema(40, &schema, &CompilationProfile::standard()).is_ok());
    let error = check_parsed_schema(40, &schema, &CompilationProfile::standard().max_data_schema_tokens(4))
        .expect_err("too many tokens");
    assert_eq!(error.dimension(), CompilationLimitDimension::Tokens);
    assert_eq!(error.observed(), 7);
}

#[test]
fn references_resolve_against_the_base_uri() {
    assert_eq!(
        resolve_uri("https://example.com/root.json", "other.json"),
        Some("https://example.com/other.json".to_string())
    );
    assert_eq!(resolve_uri("", "urn:example:a"), Some("urn:example:a".to_string()));
    assert_eq!(resolve_uri("", "relative.json"), None);
}

#[test]
fn graph_metrics_count_resources_references_and_uris() {
    let schema = object(vec![
        ("$id", text("https://example.com/root.json")),
        ("properties", object(vec![
            ("x", object(vec![("$ref", text("other.json"))])),
            ("y", object(vec![("$id", text("nested.json")), ("type", text("string"))])),
        ])),
    ]);
    let counts = graph_metrics(&schema, None);
    assert_eq!(counts.resources, 2);
    assert_eq!(counts.references, 1);
    assert_eq!(counts.traversal, 4);
    assert_eq!(counts.max_uri, "https://example.com/nested.json".len());
    assert_eq!(counts.max_uri, 31);
}

#[test]
fn compilation_inputs_are_bounded_together() {
    let root_uri = RetrievalUri::parse("urn:example:root".to_string()).expect("absolute");
    let root = object(vec![("$ref", text("urn:example:other"))]);
    let other = SchemaResource::new(
        RetrievalUri::parse("urn:example:other".to_string()).expect("absolute"),
        object(vec![("type", text("string"))]),
    );
    let resources = vec![other];
    assert!(check_compilation_inputs(&root_uri, &root, &resources, &CompilationProfile::standard()).is_ok());
    let error = check_compilation_inputs(
        &root_uri,
        &root,
        &resources,
        &CompilationProfile::standard().max_data_schema_resources(1),
    )
    .expect_err("two resources");
    assert_eq!(error.phase(), CompilationLimitPhase::Graph);
    assert_eq!(error.dimension(), CompilationLimitDimension::Resources);
    assert_eq!(error.observed(), 2);
    let error = check_compilation_inputs(
        &root_uri,
        &root,
        &resources,
        &CompilationProfile::standard().max_data_schema_nodes(3),
    )
    .expect_err("four nodes");
    assert_eq!(error.dimension(), CompilationLimitDimension::Nodes);
    assert_eq!(error.observed(), 4);
}

#[test]
fn compiled_outputs_and_qualified_graphs_are_bounded() {
    let profile = CompilationProfile::standard().max_controls(2);
    let error = check_compilation_outputs(5, 3, 0, &profile).expect_err("too many controls");
    assert_eq!(error.phase(), CompilationLimitPhase::Definition);
    assert_eq!(error.dimension(), CompilationLimitDimension::Controls);
    assert_eq!(error.observed(), 3);
    let profile = CompilationProfile::standard().max_data_schema_traversal(10);
    let error = check_qualified_graph((1, 4, 7, 10, 10), &profile).expect_err("visits and hops");
    assert_eq!(error.dimension(), CompilationLimitDimension::Traversal);
    assert_eq!(error.observed(), 11);
    assert!(check_qualified_graph((1, 3, 7, 10, 10), &profile).is_ok());
}
