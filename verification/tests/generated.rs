use schemaform::annotations::data_schema_annotations;
use schemaform::definition::{DefinitionNodeKind, SemanticKind};
use schemaform::generated::{
    direct_generated_properties, generated_child_indices, generated_property_name,
    include_generated_subtree, root_auto_roots, ChoiceOption, GeneratedNode,
};
use schemaform::value::JsonValue;

fn node(binding: &str, parent: Option<&str>, owner: Option<&str>, kind: DefinitionNodeKind, semantic: Option<SemanticKind>) -> GeneratedNode {
    GeneratedNode {
        binding: binding.to_string(),
        parent_binding: parent.map(str::to_string),
        kind,
        semantic_kind: semantic,
        label: binding.to_string(),
        help: None,
        data_schema_annotations: data_schema_annotations(&vec![]),
        creation_seed: None,
        required: false,
        accepts_null: false,
        choice_options: vec![ChoiceOption { value: JsonValue::Null, label: "none".to_string() }],
        choice_selectable: false,
        owning_array_binding: owner.map(str::to_string),
        schema_locations: vec![],
    }
}

fn tree() -> Vec<GeneratedNode> {
    vec![
        node("", None, None, DefinitionNodeKind::AutoGeneratedLayout, Some(SemanticKind::FixedObject)),
        node("/b", Some(""), None, DefinitionNodeKind::Control, Some(SemanticKind::String)),
        node("/a", Some(""), None, DefinitionNodeKind::AutoGeneratedLayout, Some(SemanticKind::FixedObject)),
        node("/arr", Some(""), None, DefinitionNodeKind::AutoGeneratedLayout, Some(SemanticKind::HomogeneousArray)),
        node("", None, Some("/arr"), DefinitionNodeKind::Control, Some(SemanticKind::Number)),
        node("/a/x", Some("/a"), None, DefinitionNodeKind::Control, Some(SemanticKind::Boolean)),
    ]
}

#[test]
fn property_names_are_decoded_last_tokens() {
    let n = node("/a~1b/c~0d", None, None, DefinitionNodeKind::Control, None);
    assert_eq!(generated_property_name(&n), "c~d");
    let root = node("", None, None, DefinitionNodeKind::Control, None);
    assert_eq!(generated_property_name(&root), "");
    assert_eq!(n.choice_options[0].label(), "none");
    assert!(matches!(n.choice_options[0].value(), JsonValue::Null));
}

#[test]
fn children_are_ordered_by_name() {
    let nodes = tree();
    assert_eq!(generated_child_indices(0, &nodes), vec![2, 3, 1]);
    assert_eq!(generated_child_indices(3, &nodes), vec![4]);
    assert_eq!(generated_child_indices(2, &nodes), vec![5]);
    assert!(generated_child_indices(5, &nodes).is_empty());
}

#[test]
fn subtrees_are_marked_without_crossing_marked_nodes() {
    let nodes = tree();
    let mut included = vec![false; nodes.len()];
    include_generated_subtree(0, &nodes, &mut included);
    assert_eq!(included, vec![true; 6]);

    let mut included = vec![false, false, true, false, false, false];
    include_generated_subtree(0, &nodes, &mut included);
    assert_eq!(included, vec![true, true, true, true, true, false]);

    let mut included = vec![true, false, false, false, false, false];
    include_generated_subtree(0, &nodes, &mut included);
    assert_eq!(included, vec![true, false, false, false, false, false]);

    let mut included = vec![false; nodes.len()];
    include_generated_subtree(3, &nodes, &mut included);
    assert_eq!(included, vec![false, false, false, true, true, false]);
}

#[test]
fn direct_properties_are_named_and_the_last_wins() {
    let nodes = vec![
        node("/b", None, None, DefinitionNodeKind::Control, None),
        node("/a", None, None, DefinitionNodeKind::Control, None),
        node("/b", None, None, DefinitionNodeKind::Control, None),
        node("/a/x", Some("/a"), None, DefinitionNodeKind::Control, None),
        node("/c", None, Some("/arr"), DefinitionNodeKind::Control, None),
    ];
    assert_eq!(
        direct_generated_properties(&nodes, None, ""),
        vec![("a".to_string(), 1), ("b".to_string(), 2)]
    );
    assert_eq!(direct_generated_properties(&nodes, None, "/a"), vec![("x".to_string(), 3)]);
    assert!(direct_generated_properties(&nodes, Some("/arr"), "").is_empty());
    assert_eq!(direct_generated_properties(&nodes, Some("/arr"), "/z").len(), 0);
}

#[test]
fn the_unsupported_root_comes_first() {
    let nodes = vec![
        node("/a", None, None, DefinitionNodeKind::Control, None),
        node("", None, None, DefinitionNodeKind::Unsupported, None),
    ];
    assert_eq!(root_auto_roots(&nodes, vec![0]), vec![1, 0]);
    let plain = vec![node("/a", None, None, DefinitionNodeKind::Control, None)];
    assert_eq!(root_auto_roots(&plain, vec![0]), vec![0]);
}
