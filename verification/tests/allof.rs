use schemaform::address::JsonPointer;
use schemaform::allof::{
    all_of_kind_conflicts, all_of_unsupported_finding, branch_contributing_origins, leaf_conflict_origins,
    origin_precedes, push_membership, schemas_for_origin, AllOfMembership, AllOfOrigin,
};
use schemaform::choices::LocatedSchema;
use schemaform::value::JsonValue;

fn text(value: &str) -> JsonValue {
    JsonValue::String(value.to_string())
}

fn object(members: Vec<(&str, JsonValue)>) -> JsonValue {
    JsonValue::Object(members.into_iter().map(|(key, value)| (key.to_string(), value)).collect())
}

fn origin(resource: &str, location: &str, branches: usize) -> AllOfOrigin {
    AllOfOrigin {
        resource: resource.to_string(),
        keyword_location: JsonPointer::parse(location.to_string()).expect("pointer"),
        branch_count: branches,
    }
}

fn member(o: &AllOfOrigin, branch: Option<usize>) -> AllOfMembership {
    AllOfMembership { origin: o.duplicate(), branch_index: branch }
}

fn located<'a>(schema: &'a JsonValue, pointer: &str, memberships: Vec<AllOfMembership>) -> LocatedSchema<'a> {
    LocatedSchema {
        schema,
        resource: "urn:root".to_string(),
        pointer: JsonPointer::parse(pointer.to_string()).expect("pointer"),
        all_of_memberships: memberships,
    }
}

fn places(origins: &[AllOfOrigin]) -> Vec<(String, String, usize)> {
    origins
        .iter()
        .map(|o| (o.resource.clone(), o.keyword_location.as_str().to_string(), o.branch_count))
        .collect()
}

#[test]
fn a_membership_is_recorded_once() {
    let outer = origin("urn:root", "/allOf", 2);
    let mut memberships = Vec::new();
    push_membership(&mut memberships, member(&outer, None));
    push_membership(&mut memberships, member(&outer, Some(1)));
    push_membership(&mut memberships, member(&outer, None));
    assert_eq!(memberships.len(), 2);
    assert_eq!(memberships[1].branch_index, Some(1));
}

#[test]
fn an_outer_all_of_precedes_a_nested_one() {
    let outer = origin("urn:root", "/allOf", 2);
    let inner = origin("urn:root", "/allOf/0/allOf", 2);
    let schema = object(vec![]);
    let applicable = vec![located(&schema, "/allOf/0/allOf/1", vec![member(&outer, Some(0)), member(&inner, Some(1))])];
    assert!(origin_precedes(&outer, &inner, &applicable));
    assert!(!origin_precedes(&inner, &outer, &applicable));
    assert!(!origin_precedes(&outer, &outer, &applicable));
    let unrelated = origin("urn:root", "/anyOf", 2);
    assert!(!origin_precedes(&outer, &unrelated, &applicable));
}

#[test]
fn schemas_reached_through_an_origin_are_selected_in_order() {
    let outer = origin("urn:root", "/allOf", 2);
    let root = object(vec![]);
    let first = object(vec![("type", text("string"))]);
    let other = object(vec![("type", text("number"))]);
    let applicable = vec![
        located(&root, "", vec![member(&outer, None)]),
        located(&other, "/properties/x", vec![]),
        located(&first, "/allOf/0", vec![member(&outer, Some(0))]),
    ];
    let selected = schemas_for_origin(&applicable, &outer);
    let pointers: Vec<&str> = selected.iter().map(|l| l.pointer.as_str()).collect();
    assert_eq!(pointers, vec!["", "/allOf/0"]);
    assert_eq!(selected[1].all_of_memberships.len(), 1);
}

#[test]
fn contributing_origins_are_sorted_and_repeats_dropped() {
    let late = origin("urn:root", "/properties/b/allOf", 2);
    let early = origin("urn:root", "/properties/a/allOf", 3);
    let typed = object(vec![("type", text("string"))]);
    let untyped = object(vec![("minLength", text("1"))]);
    let applicable = vec![
        located(&typed, "/properties/b/allOf/0", vec![member(&late, Some(0))]),
        located(&typed, "/properties/b/allOf/1", vec![member(&late, Some(1))]),
        located(&typed, "/properties/a/allOf/2", vec![member(&early, Some(2))]),
        located(&untyped, "/properties/c", vec![member(&early, Some(0))]),
        located(&typed, "/properties/a", vec![member(&early, None)]),
    ];
    let found = branch_contributing_origins(&applicable, "type");
    assert_eq!(
        places(&found),
        vec![
            ("urn:root".to_string(), "/properties/a/allOf".to_string(), 3),
            ("urn:root".to_string(), "/properties/b/allOf".to_string(), 2),
        ]
    );
    assert!(branch_contributing_origins(&applicable, "enum").is_empty());
}

#[test]
fn only_innermost_candidates_remain() {
    let outer = origin("urn:root", "/allOf", 2);
    let inner = origin("urn:root", "/allOf/0/allOf", 2);
    let schema = object(vec![]);
    let applicable = vec![located(&schema, "/allOf/0/allOf/0", vec![member(&outer, Some(0)), member(&inner, Some(0))])];
    let leaves = leaf_conflict_origins(&applicable, vec![outer.duplicate(), inner.duplicate(), inner.duplicate()]);
    assert_eq!(places(&leaves), vec![("urn:root".to_string(), "/allOf/0/allOf".to_string(), 2)]);
}

#[test]
fn incompatible_branch_types_are_reported_at_their_all_of() {
    let outer = origin("urn:root", "/allOf", 2);
    let root = object(vec![]);
    let text_branch = object(vec![("type", text("string"))]);
    let integer_branch = object(vec![("type", text("integer"))]);
    let applicable = vec![
        located(&root, "", vec![member(&outer, None)]),
        located(&text_branch, "/allOf/0", vec![member(&outer, Some(0))]),
        located(&integer_branch, "/allOf/1", vec![member(&outer, Some(1))]),
    ];
    let conflicts = all_of_kind_conflicts(&applicable);
    assert_eq!(places(&conflicts), vec![("urn:root".to_string(), "/allOf".to_string(), 2)]);
    let finding = all_of_unsupported_finding(conflicts.into_iter().next().expect("one"), "incompatible-kind");
    assert_eq!(finding.code, "applicator.all-of.ambiguous");
    assert_eq!(finding.keyword_location.as_str(), "/allOf");
    assert_eq!(finding.resource, "urn:root");
    match &finding.parameters {
        JsonValue::Object(members) => {
            assert_eq!(members.len(), 2);
            assert_eq!(members[0].0, "branchCount");
            assert!(matches!(&members[0].1, JsonValue::Number(n) if n.as_str() == "2"));
            assert_eq!(members[1].0, "reason");
            assert!(matches!(&members[1].1, JsonValue::String(s) if s == "incompatible-kind"));
        },
        _ => panic!("object parameters"),
    }
}

#[test]
fn compatible_branch_types_are_not_reported() {
    let outer = origin("urn:root", "/allOf", 2);
    let root = object(vec![]);
    let number_branch = object(vec![("type", text("number"))]);
    let integer_branch = object(vec![("type", text("integer"))]);
    let applicable = vec![
        located(&root, "", vec![member(&outer, None)]),
        located(&number_branch, "/allOf/0", vec![member(&outer, Some(0))]),
        located(&integer_branch, "/allOf/1", vec![member(&outer, Some(1))]),
    ];
    assert!(all_of_kind_conflicts(&applicable).is_empty());
}
