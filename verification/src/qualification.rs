use vstd::prelude::*;

use crate::address::{JsonPointer, RetrievalUri};
use crate::text::push_text;

verus! {

/// Identifies which input supplied a resource being schema-qualified.
#[derive(Debug, Clone, Copy, PartialEq, Eq, Structural)]
#[non_exhaustive]
pub enum QualificationResource {
    /// The root data-schema document.
    Root,
    /// A caller-supplied resource, indexed in caller order.
    Caller(usize),
    /// A schema resource bundled with the crate.
    BuiltIn,
}

/// The provenance and in-document location of a qualification failure.
#[derive(Debug, Clone, PartialEq, Eq)]
pub struct QualificationLocation {
    resource: QualificationResource,
    retrieval_uri: RetrievalUri,
    pointer: JsonPointer,
}

impl QualificationLocation {
    pub closed spec fn resource_spec(&self) -> QualificationResource {
        self.resource
    }

    pub closed spec fn uri_spec(&self) -> Seq<char> {
        self.retrieval_uri@
    }

    pub closed spec fn pointer_spec(&self) -> Seq<char> {
        self.pointer@
    }

    /// A location at `pointer` in the resource `retrieval_uri` supplied by `resource`.
    pub fn new(resource: QualificationResource, retrieval_uri: RetrievalUri, pointer: JsonPointer) -> (r: QualificationLocation)
        ensures
            r.resource_spec() == resource,
            r.uri_spec() == retrieval_uri@,
            r.pointer_spec() == pointer@,
    {
        QualificationLocation { resource, retrieval_uri, pointer }
    }

    /// Returns which input supplied the containing resource.
    pub fn resource(&self) -> (r: QualificationResource)
        ensures
            r == self.resource_spec(),
    {
        self.resource
    }

    /// Returns the containing resource's absolute retrieval URI.
    pub fn retrieval_uri(&self) -> (r: &RetrievalUri)
        ensures
            r@ == self.uri_spec(),
    {
        &self.retrieval_uri
    }

    /// Returns the location within the containing resource.
    pub fn pointer(&self) -> (r: &JsonPointer)
        ensures
            r@ == self.pointer_spec(),
    {
        &self.pointer
    }
}

/// A schema-qualification failure with enough location data to diagnose the
/// offending resource or reference.
#[derive(Debug)]
#[non_exhaustive]
pub enum QualificationError {
    InvalidSchema { location: QualificationLocation },
    MissingDialect { location: QualificationLocation },
    UnsupportedDialect { location: QualificationLocation, dialect: String },
    NestedDialectSwitch { location: QualificationLocation, dialect: String },
    UnsupportedRequiredVocabulary { location: QualificationLocation, vocabulary: String },
    InvalidCanonicalIdentity { location: QualificationLocation, identity: String },
    DuplicateRetrievalIdentity {
        identity: String,
        first_location: Box<QualificationLocation>,
        second_location: Box<QualificationLocation>,
    },
    DuplicateCanonicalIdentity {
        identity: String,
        first_location: Box<QualificationLocation>,
        second_location: Box<QualificationLocation>,
    },
    DuplicateAnchorIdentity {
        resource_uri: String,
        anchor: String,
        first_location: Box<QualificationLocation>,
        second_location: Box<QualificationLocation>,
    },
    UnresolvedReference { location: QualificationLocation, reference: String },
}

/// A location written as `uri#pointer`.
pub open spec fn located(l: QualificationLocation) -> Seq<char> {
    l.uri_spec() + "#"@ + l.pointer_spec()
}

/// The human-readable description of a qualification failure.
pub open spec fn spec_description(e: QualificationError) -> Seq<char> {
    match e {
        QualificationError::InvalidSchema { location } =>
            "data schema at "@ + located(location) + " is invalid against the Draft 2020-12 meta-schema"@,
        QualificationError::MissingDialect { location } =>
            "data-schema resource at "@ + located(location) + " has no dialect"@,
        QualificationError::UnsupportedDialect { location, dialect } =>
            "data-schema resource at "@ + located(location) + " declares unsupported dialect "@ + dialect@,
        QualificationError::NestedDialectSwitch { location, dialect } =>
            "data schema at "@ + located(location) + " switches to unsupported nested dialect "@ + dialect@,
        QualificationError::UnsupportedRequiredVocabulary { location, vocabulary } =>
            "data-schema meta-schema at "@ + located(location) + " requires unsupported vocabulary "@ + vocabulary@,
        QualificationError::InvalidCanonicalIdentity { location, identity } =>
            "data-schema resource at "@ + located(location) + " has invalid canonical identity "@ + identity@,
        QualificationError::DuplicateRetrievalIdentity { identity, first_location, second_location } =>
            "data-schema resources at "@ + located(*first_location) + " and "@ + located(*second_location)
                + " repeat retrieval identity "@ + identity@,
        QualificationError::DuplicateCanonicalIdentity { identity, first_location, second_location } =>
            "data-schema resources at "@ + located(*first_location) + " and "@ + located(*second_location)
                + " repeat canonical identity "@ + identity@,
        QualificationError::DuplicateAnchorIdentity { resource_uri, anchor, first_location, second_location } =>
            "data-schema locations at "@ + located(*first_location) + " and "@ + located(*second_location)
                + " repeat anchor "@ + anchor@ + " in schema resource "@ + resource_uri@,
        QualificationError::UnresolvedReference { location, reference } =>
            "data-schema reference at "@ + located(location) + " has unresolved target "@ + reference@,
    }
}

fn push_location(out: &mut String, location: &QualificationLocation)
    ensures
        final(out)@ == old(out)@ + located(*location),
{
    push_text(out, location.retrieval_uri.as_str());
    push_text(out, "#");
    push_text(out, location.pointer.as_str());
    assert(out@ =~= old(out)@ + located(*location));
}

impl QualificationError {
    /// The human-readable description of the failure (see [`spec_description`]).
    pub fn description(&self) -> (r: String)
        ensures
            r@ == spec_description(*self),
    {
        let mut out = String::new();
        match self {
            QualificationError::InvalidSchema { location } => {
                push_text(&mut out, "data schema at ");
                push_location(&mut out, location);
                push_text(&mut out, " is invalid against the Draft 2020-12 meta-schema");
            },
            QualificationError::MissingDialect { location } => {
                push_text(&mut out, "data-schema resource at ");
                push_location(&mut out, location);
                push_text(&mut out, " has no dialect");
            },
            QualificationError::UnsupportedDialect { location, dialect } => {
                push_text(&mut out, "data-schema resource at ");
                push_location(&mut out, location);
                push_text(&mut out, " declares unsupported dialect ");
                push_text(&mut out, dialect.as_str());
            },
            QualificationError::NestedDialectSwitch { location, dialect } => {
                push_text(&mut out, "data schema at ");
                push_location(&mut out, location);
                push_text(&mut out, " switches to unsupported nested dialect ");
                push_text(&mut out, dialect.as_str());
            },
            QualificationError::UnsupportedRequiredVocabulary { location, vocabulary } => {
                push_text(&mut out, "data-schema meta-schema at ");
                push_location(&mut out, location);
                push_text(&mut out, " requires unsupported vocabulary ");
                push_text(&mut out, vocabulary.as_str());
            },
            QualificationError::InvalidCanonicalIdentity { location, identity } => {
                push_text(&mut out, "data-schema resource at ");
                push_location(&mut out, location);
                push_text(&mut out, " has invalid canonical identity ");
                push_text(&mut out, identity.as_str());
            },
            QualificationError::DuplicateRetrievalIdentity { identity, first_location, second_location } => {
                push_text(&mut out, "data-schema resources at ");
                push_location(&mut out, first_location);
                push_text(&mut out, " and ");
                push_location(&mut out, second_location);
                push_text(&mut out, " repeat retrieval identity ");
                push_text(&mut out, identity.as_str());
            },
            QualificationError::DuplicateCanonicalIdentity { identity, first_location, second_location } => {
                push_text(&mut out, "data-schema resources at ");
                push_location(&mut out, first_location);
                push_text(&mut out, " and ");
                push_location(&mut out, second_location);
                push_text(&mut out, " repeat canonical identity ");
                push_text(&mut out, identity.as_str());
            },
            QualificationError::DuplicateAnchorIdentity { resource_uri, anchor, first_location, second_location } => {
                push_text(&mut out, "data-schema locations at ");
                push_location(&mut out, first_location);
                push_text(&mut out, " and ");
                push_location(&mut out, second_location);
                push_text(&mut out, " repeat anchor ");
                push_text(&mut out, anchor.as_str());
                push_text(&mut out, " in schema resource ");
                push_text(&mut out, resource_uri.as_str());
            },
            QualificationError::UnresolvedReference { location, reference } => {
                push_text(&mut out, "data-schema reference at ");
                push_location(&mut out, location);
                push_text(&mut out, " has unresolved target ");
                push_text(&mut out, reference.as_str());
            },
        }
        assert(out@ =~= spec_description(*self));
        out
    }
}

} // verus!
