use schemaform::address::{
    append_index, append_pointer, append_token, rebase_pointer, AddressError, JsonPointer, RetrievalUri,
    SchemaLocation, WidgetSymbol,
};
use schemaform::qualification::{QualificationError, QualificationLocation, QualificationResource};

fn pointer(text: &str) -> JsonPointer {
    JsonPointer::parse(text.to_string()).expect("a JSON Pointer")
}

#[test]
fn json_pointers_are_validated() {
    assert!(JsonPointer::parse("".to_string()).is_ok());
    assert!(JsonPointer::parse("/a~0b/~1".to_string()).is_ok());
    assert_eq!(JsonPointer::parse("a".to_string()).err(), Some(AddressError::InvalidJsonPointer));
    assert_eq!(JsonPointer::parse("/a~2".to_string()).err(), Some(AddressError::InvalidJsonPointer));
    assert_eq!(JsonPointer::parse("/a~".to_string()).err(), Some(AddressError::InvalidJsonPointer));
}

#[test]
fn tokens_are_escaped_when_appended() {
    assert_eq!(append_token("/a", "x/y~"), "/a/x~1y~0");
    assert_eq!(append_token("", ""), "/");
    assert_eq!(append_index("/list", 42), "/list/42");
}

#[test]
fn pointers_compare_by_whole_tokens() {
    let parent = pointer("/a");
    assert!(pointer("/a/b").is_strict_descendant_of(&parent));
    assert!(!pointer("/ab").is_strict_descendant_of(&parent));
    assert!(!parent.is_strict_descendant_of(&parent));
    assert!(parent.intersects(&pointer("/a/b/c")));
    assert!(!parent.intersects(&pointer("/b")));
}

#[test]
fn pointers_rebase_under_a_new_prefix() {
    let moved = rebase_pointer(&pointer("/items/0/name"), &pointer("/items/0"), &pointer("/items/1"))
        .expect("under the old prefix");
    assert_eq!(moved.as_str(), "/items/1/name");
    assert!(rebase_pointer(&pointer("/items/01"), &pointer("/items/0"), &pointer("/x")).is_none());
    let same = rebase_pointer(&pointer("/a"), &pointer("/a"), &pointer("")).expect("equal pointer");
    assert_eq!(same.as_str(), "");
}

#[test]
fn retrieval_uris_are_absolute_without_fragments() {
    assert!(RetrievalUri::parse("https://example.com/schema.json".to_string()).is_ok());
    assert_eq!(
        RetrievalUri::parse("schema.json".to_string()).err(),
        Some(AddressError::UriMustBeAbsolute)
    );
    assert_eq!(
        RetrievalUri::parse("https://example.com/s#x".to_string()).err(),
        Some(AddressError::RetrievalUriHasFragment)
    );
}

#[test]
fn widget_symbols_and_schema_locations() {
    assert!(WidgetSymbol::parse("text".to_string()).is_ok());
    let location = SchemaLocation::new(
        RetrievalUri::parse("urn:example:root".to_string()).expect("absolute"),
        pointer("/properties/a"),
    );
    assert_eq!(location.resource().as_str(), "urn:example:root");
    assert_eq!(location.pointer().as_str(), "/properties/a");
}

#[test]
fn qualification_failures_describe_their_location() {
    let location = QualificationLocation::new(
        QualificationResource::Caller(2),
        RetrievalUri::parse("https://example.com/a.json".to_string()).expect("absolute"),
        pointer("/$defs/x"),
    );
    assert_eq!(location.resource(), QualificationResource::Caller(2));
    let error = QualificationError::UnresolvedReference { location, reference: "#/missing".to_string() };
    assert_eq!(
        error.description(),
        "data-schema reference at https://example.com/a.json#/$defs/x has unresolved target #/missing"
    );
    let first = QualificationLocation::new(
        QualificationResource::Root,
        RetrievalUri::parse("urn:a".to_string()).expect("absolute"),
        pointer(""),
    );
    let second = QualificationLocation::new(
        QualificationResource::BuiltIn,
        RetrievalUri::parse("urn:b".to_string()).expect("absolute"),
        pointer("/x"),
    );
    let error = QualificationError::DuplicateAnchorIdentity {
        resource_uri: "urn:r".to_string(),
        anchor: "top".to_string(),
        first_location: Box::new(first),
        second_location: Box::new(second),
    };
    assert_eq!(
        error.description(),
        "data-schema locations at urn:a# and urn:b#/x repeat anchor top in schema resource urn:r"
    );
}

#[test]
fn pointers_extend_by_escaped_tokens() {
    let parent = JsonPointer::parse("/properties".to_string()).unwrap();
    let extended = append_pointer(Some(&parent), &vec!["a/b", "m~n", "allOf", "0"]);
    assert_eq!(extended.as_str(), "/properties/a~1b/m~0n/allOf/0");
    assert_eq!(append_pointer(None, &vec!["allOf"]).as_str(), "/allOf");
    assert_eq!(append_pointer(None, &Vec::new()).as_str(), "");
    assert_eq!(append_pointer(Some(&parent), &Vec::new()).as_str(), "/properties");
}

#[test]
fn schema_locations_compare_by_resource_then_pointer() {
    let location = |resource: &str, pointer: &str| {
        SchemaLocation::new(
            RetrievalUri::parse(resource.to_string()).unwrap(),
            JsonPointer::parse(pointer.to_string()).unwrap(),
        )
    };
    let a = location("urn:a", "/z");
    let b = location("urn:b", "/a");
    let a2 = location("urn:a", "/z");
    let a3 = location("urn:a", "/y");
    assert!(a.same_location(&a2) && a == a2);
    assert!(!a.same_location(&b) && a != b);
    assert!(a.precedes(&b) && a < b);
    assert!(!b.precedes(&a) && !(b < a));
    assert!(a3.precedes(&a) && a3 < a);
    assert!(!a.precedes(&a2));
    assert_eq!(a.clone(), a2);
}
