use vstd::prelude::*;

use crate::limits::{DataSchemaLimits, InputLimits};

verus! {

/// The JSON Schema dialect a data schema is written in.
#[derive(Debug, Clone, Copy, PartialEq, Eq, Structural)]
#[non_exhaustive]
pub enum Dialect {
    Draft202012,
}

/// Resource limits for bounded parsing and compilation of data-schema and
/// UI-schema inputs.
///
/// These limits do not make an untrusted data schema safe for evaluation.
/// Each builder replaces one inclusive maximum; an observed value greater
/// than the maximum fails. A maximum of zero disables any nonempty input in
/// that dimension rather than disabling the check.
#[derive(Debug, Clone, PartialEq, Eq, Structural)]
pub struct CompilationProfile {
    max_data_schema_bytes: usize,
    max_data_schema_tokens: usize,
    max_data_schema_depth: usize,
    max_data_schema_nodes: usize,
    max_data_schema_members: usize,
    max_data_schema_scalar_bytes: usize,
    max_data_schema_resources: usize,
    max_data_schema_references: usize,
    max_data_schema_traversal: usize,
    max_definition_nodes: usize,
    max_controls: usize,
    max_uri_bytes: usize,
    max_pointer_bytes: usize,
    max_capability_findings: usize,
    max_ui_schema_bytes: usize,
    max_ui_schema_tokens: usize,
    max_ui_schema_depth: usize,
    max_ui_schema_nodes: usize,
    max_ui_schema_members: usize,
    max_ui_schema_collection_length: usize,
    max_ui_schema_scalar_bytes: usize,
    max_extension_namespaces: usize,
    max_extension_occurrences: usize,
    max_extension_namespace_bytes: usize,
    max_extension_value_depth: usize,
    max_extension_value_nodes: usize,
    max_extension_value_bytes: usize,
}

/// The inclusive maxima a compilation profile holds, one per dimension.
pub struct ProfileBounds {
    pub max_data_schema_bytes: usize,
    pub max_data_schema_tokens: usize,
    pub max_data_schema_depth: usize,
    pub max_data_schema_nodes: usize,
    pub max_data_schema_members: usize,
    pub max_data_schema_scalar_bytes: usize,
    pub max_data_schema_resources: usize,
    pub max_data_schema_references: usize,
    pub max_data_schema_traversal: usize,
    pub max_definition_nodes: usize,
    pub max_controls: usize,
    pub max_uri_bytes: usize,
    pub max_pointer_bytes: usize,
    pub max_capability_findings: usize,
    pub max_ui_schema_bytes: usize,
    pub max_ui_schema_tokens: usize,
    pub max_ui_schema_depth: usize,
    pub max_ui_schema_nodes: usize,
    pub max_ui_schema_members: usize,
    pub max_ui_schema_collection_length: usize,
    pub max_ui_schema_scalar_bytes: usize,
    pub max_extension_namespaces: usize,
    pub max_extension_occurrences: usize,
    pub max_extension_namespace_bytes: usize,
    pub max_extension_value_depth: usize,
    pub max_extension_value_nodes: usize,
    pub max_extension_value_bytes: usize,
}

impl View for CompilationProfile {
    type V = ProfileBounds;

    closed spec fn view(&self) -> ProfileBounds {
        ProfileBounds {
            max_data_schema_bytes: self.max_data_schema_bytes,
            max_data_schema_tokens: self.max_data_schema_tokens,
            max_data_schema_depth: self.max_data_schema_depth,
            max_data_schema_nodes: self.max_data_schema_nodes,
            max_data_schema_members: self.max_data_schema_members,
            max_data_schema_scalar_bytes: self.max_data_schema_scalar_bytes,
            max_data_schema_resources: self.max_data_schema_resources,
            max_data_schema_references: self.max_data_schema_references,
            max_data_schema_traversal: self.max_data_schema_traversal,
            max_definition_nodes: self.max_definition_nodes,
            max_controls: self.max_controls,
            max_uri_bytes: self.max_uri_bytes,
            max_pointer_bytes: self.max_pointer_bytes,
            max_capability_findings: self.max_capability_findings,
            max_ui_schema_bytes: self.max_ui_schema_bytes,
            max_ui_schema_tokens: self.max_ui_schema_tokens,
            max_ui_schema_depth: self.max_ui_schema_depth,
            max_ui_schema_nodes: self.max_ui_schema_nodes,
            max_ui_schema_members: self.max_ui_schema_members,
            max_ui_schema_collection_length: self.max_ui_schema_collection_length,
            max_ui_schema_scalar_bytes: self.max_ui_schema_scalar_bytes,
            max_extension_namespaces: self.max_extension_namespaces,
            max_extension_occurrences: self.max_extension_occurrences,
            max_extension_namespace_bytes: self.max_extension_namespace_bytes,
            max_extension_value_depth: self.max_extension_value_depth,
            max_extension_value_nodes: self.max_extension_value_nodes,
            max_extension_value_bytes: self.max_extension_value_bytes,
        }
    }
}

/// The bounds of the standard profile.
pub open spec fn standard_bounds() -> ProfileBounds {
    ProfileBounds {
        max_data_schema_bytes: 2_097_152,
        max_data_schema_tokens: 262_144,
        max_data_schema_depth: 128,
        max_data_schema_nodes: 131_072,
        max_data_schema_members: 16_384,
        max_data_schema_scalar_bytes: 1_048_576,
        max_data_schema_resources: 256,
        max_data_schema_references: 16_384,
        max_data_schema_traversal: 131_072,
        max_definition_nodes: 16_384,
        max_controls: 8_192,
        max_uri_bytes: 8_192,
        max_pointer_bytes: 8_192,
        max_capability_findings: 1_024,
        max_ui_schema_bytes: 2_097_152,
        max_ui_schema_tokens: 262_144,
        max_ui_schema_depth: 128,
        max_ui_schema_nodes: 131_072,
        max_ui_schema_members: 65_536,
        max_ui_schema_collection_length: 16_384,
        max_ui_schema_scalar_bytes: 1_048_576,
        max_extension_namespaces: 32,
        max_extension_occurrences: 4_096,
        max_extension_namespace_bytes: 2_048,
        max_extension_value_depth: 32,
        max_extension_value_nodes: 16_384,
        max_extension_value_bytes: 1_048_576,
    }
}

impl CompilationProfile {
    /// Returns the standard bounded profile for this crate version.
    pub fn standard() -> (r: CompilationProfile)
        ensures
            r@ == standard_bounds(),
    {
        CompilationProfile {
            max_data_schema_bytes: 2_097_152,
            max_data_schema_tokens: 262_144,
            max_data_schema_depth: 128,
            max_data_schema_nodes: 131_072,
            max_data_schema_members: 16_384,
            max_data_schema_scalar_bytes: 1_048_576,
            max_data_schema_resources: 256,
            max_data_schema_references: 16_384,
            max_data_schema_traversal: 131_072,
            max_definition_nodes: 16_384,
            max_controls: 8_192,
            max_uri_bytes: 8_192,
            max_pointer_bytes: 8_192,
            max_capability_findings: 1_024,
            max_ui_schema_bytes: 2_097_152,
            max_ui_schema_tokens: 262_144,
            max_ui_schema_depth: 128,
            max_ui_schema_nodes: 131_072,
            max_ui_schema_members: 65_536,
            max_ui_schema_collection_length: 16_384,
            max_ui_schema_scalar_bytes: 1_048_576,
            max_extension_namespaces: 32,
            max_extension_occurrences: 4_096,
            max_extension_namespace_bytes: 2_048,
            max_extension_value_depth: 32,
            max_extension_value_nodes: 16_384,
            max_extension_value_bytes: 1_048_576,
        }
    }

    /// Sets the maximum source bytes accepted when parsing a data schema.
    pub fn max_data_schema_bytes(self, maximum: usize) -> (r: CompilationProfile)
        ensures
            r@ == (ProfileBounds { max_data_schema_bytes: maximum, ..self@ }),
    {
        CompilationProfile { max_data_schema_bytes: maximum, ..self }
    }

    /// Sets the maximum token count accepted when parsing a data schema.
    pub fn max_data_schema_tokens(self, maximum: usize) -> (r: CompilationProfile)
        ensures
            r@ == (ProfileBounds { max_data_schema_tokens: maximum, ..self@ }),
    {
        CompilationProfile { max_data_schema_tokens: maximum, ..self }
    }

    /// Sets the maximum nesting depth of a data-schema input.
    pub fn max_data_schema_depth(self, maximum: usize) -> (r: CompilationProfile)
        ensures
            r@ == (ProfileBounds { max_data_schema_depth: maximum, ..self@ }),
    {
        CompilationProfile { max_data_schema_depth: maximum, ..self }
    }

    /// Sets the maximum aggregate JSON node count across schema resources.
    pub fn max_data_schema_nodes(self, maximum: usize) -> (r: CompilationProfile)
        ensures
            r@ == (ProfileBounds { max_data_schema_nodes: maximum, ..self@ }),
    {
        CompilationProfile { max_data_schema_nodes: maximum, ..self }
    }

    /// Sets the maximum length of one data-schema object or array.
    pub fn max_data_schema_members(self, maximum: usize) -> (r: CompilationProfile)
        ensures
            r@ == (ProfileBounds { max_data_schema_members: maximum, ..self@ }),
    {
        CompilationProfile { max_data_schema_members: maximum, ..self }
    }

    /// Sets the maximum encoded bytes of one data-schema scalar.
    pub fn max_data_schema_scalar_bytes(self, maximum: usize) -> (r: CompilationProfile)
        ensures
            r@ == (ProfileBounds { max_data_schema_scalar_bytes: maximum, ..self@ }),
    {
        CompilationProfile { max_data_schema_scalar_bytes: maximum, ..self }
    }

    /// Sets the maximum number of root, embedded, and supplied resources.
    pub fn max_data_schema_resources(self, maximum: usize) -> (r: CompilationProfile)
        ensures
            r@ == (ProfileBounds { max_data_schema_resources: maximum, ..self@ }),
    {
        CompilationProfile { max_data_schema_resources: maximum, ..self }
    }

    /// Sets the maximum number of references in the qualified schema graph.
    pub fn max_data_schema_references(self, maximum: usize) -> (r: CompilationProfile)
        ensures
            r@ == (ProfileBounds { max_data_schema_references: maximum, ..self@ }),
    {
        CompilationProfile { max_data_schema_references: maximum, ..self }
    }

    /// Sets the maximum visits permitted in each bounded graph or projection traversal.
    pub fn max_data_schema_traversal(self, maximum: usize) -> (r: CompilationProfile)
        ensures
            r@ == (ProfileBounds { max_data_schema_traversal: maximum, ..self@ }),
    {
        CompilationProfile { max_data_schema_traversal: maximum, ..self }
    }

    /// Sets the maximum number of nodes in the compiled definition tree.
    pub fn max_definition_nodes(self, maximum: usize) -> (r: CompilationProfile)
        ensures
            r@ == (ProfileBounds { max_definition_nodes: maximum, ..self@ }),
    {
        CompilationProfile { max_definition_nodes: maximum, ..self }
    }

    /// Sets the maximum number of controls in the compiled definition.
    pub fn max_controls(self, maximum: usize) -> (r: CompilationProfile)
        ensures
            r@ == (ProfileBounds { max_controls: maximum, ..self@ }),
    {
        CompilationProfile { max_controls: maximum, ..self }
    }

    /// Sets the maximum encoded bytes of one schema URI.
    pub fn max_uri_bytes(self, maximum: usize) -> (r: CompilationProfile)
        ensures
            r@ == (ProfileBounds { max_uri_bytes: maximum, ..self@ }),
    {
        CompilationProfile { max_uri_bytes: maximum, ..self }
    }

    /// Sets the maximum encoded bytes of one schema or instance pointer.
    pub fn max_pointer_bytes(self, maximum: usize) -> (r: CompilationProfile)
        ensures
            r@ == (ProfileBounds { max_pointer_bytes: maximum, ..self@ }),
    {
        CompilationProfile { max_pointer_bytes: maximum, ..self }
    }

    /// Sets the maximum number of retained capability findings.
    pub fn max_capability_findings(self, maximum: usize) -> (r: CompilationProfile)
        ensures
            r@ == (ProfileBounds { max_capability_findings: maximum, ..self@ }),
    {
        CompilationProfile { max_capability_findings: maximum, ..self }
    }

    /// Sets the maximum encoded bytes of the authored UI schema.
    pub fn max_ui_schema_bytes(self, maximum: usize) -> (r: CompilationProfile)
        ensures
            r@ == (ProfileBounds { max_ui_schema_bytes: maximum, ..self@ }),
    {
        CompilationProfile { max_ui_schema_bytes: maximum, ..self }
    }

    /// Sets the maximum token count in the authored UI schema.
    pub fn max_ui_schema_tokens(self, maximum: usize) -> (r: CompilationProfile)
        ensures
            r@ == (ProfileBounds { max_ui_schema_tokens: maximum, ..self@ }),
    {
        CompilationProfile { max_ui_schema_tokens: maximum, ..self }
    }

    /// Sets the maximum nesting depth of the authored UI schema.
    pub fn max_ui_schema_depth(self, maximum: usize) -> (r: CompilationProfile)
        ensures
            r@ == (ProfileBounds { max_ui_schema_depth: maximum, ..self@ }),
    {
        CompilationProfile { max_ui_schema_depth: maximum, ..self }
    }

    /// Sets the maximum aggregate JSON node count in the UI schema.
    pub fn max_ui_schema_nodes(self, maximum: usize) -> (r: CompilationProfile)
        ensures
            r@ == (ProfileBounds { max_ui_schema_nodes: maximum, ..self@ }),
    {
        CompilationProfile { max_ui_schema_nodes: maximum, ..self }
    }

    /// Sets the maximum aggregate number of object members in the UI schema.
    pub fn max_ui_schema_members(self, maximum: usize) -> (r: CompilationProfile)
        ensures
            r@ == (ProfileBounds { max_ui_schema_members: maximum, ..self@ }),
    {
        CompilationProfile { max_ui_schema_members: maximum, ..self }
    }

    /// Sets the maximum length of one UI-schema array or object.
    pub fn max_ui_schema_collection_length(self, maximum: usize) -> (r: CompilationProfile)
        ensures
            r@ == (ProfileBounds { max_ui_schema_collection_length: maximum, ..self@ }),
    {
        CompilationProfile { max_ui_schema_collection_length: maximum, ..self }
    }

    /// Sets the maximum encoded bytes of one UI-schema scalar.
    pub fn max_ui_schema_scalar_bytes(self, maximum: usize) -> (r: CompilationProfile)
        ensures
            r@ == (ProfileBounds { max_ui_schema_scalar_bytes: maximum, ..self@ }),
    {
        CompilationProfile { max_ui_schema_scalar_bytes: maximum, ..self }
    }

    /// Sets the maximum number of distinct declared extension namespaces.
    pub fn max_extension_namespaces(self, maximum: usize) -> (r: CompilationProfile)
        ensures
            r@ == (ProfileBounds { max_extension_namespaces: maximum, ..self@ }),
    {
        CompilationProfile { max_extension_namespaces: maximum, ..self }
    }

    /// Sets the maximum number of extension values across the UI schema.
    pub fn max_extension_occurrences(self, maximum: usize) -> (r: CompilationProfile)
        ensures
            r@ == (ProfileBounds { max_extension_occurrences: maximum, ..self@ }),
    {
        CompilationProfile { max_extension_occurrences: maximum, ..self }
    }

    /// Sets the maximum encoded bytes of one extension namespace URI.
    pub fn max_extension_namespace_bytes(self, maximum: usize) -> (r: CompilationProfile)
        ensures
            r@ == (ProfileBounds { max_extension_namespace_bytes: maximum, ..self@ }),
    {
        CompilationProfile { max_extension_namespace_bytes: maximum, ..self }
    }

    /// Sets the maximum nesting depth of one extension value.
    pub fn max_extension_value_depth(self, maximum: usize) -> (r: CompilationProfile)
        ensures
            r@ == (ProfileBounds { max_extension_value_depth: maximum, ..self@ }),
    {
        CompilationProfile { max_extension_value_depth: maximum, ..self }
    }

    /// Sets the maximum number of JSON values in one extension value.
    pub fn max_extension_value_nodes(self, maximum: usize) -> (r: CompilationProfile)
        ensures
            r@ == (ProfileBounds { max_extension_value_nodes: maximum, ..self@ }),
    {
        CompilationProfile { max_extension_value_nodes: maximum, ..self }
    }

    /// Sets the maximum encoded bytes of one extension value.
    pub fn max_extension_value_bytes(self, maximum: usize) -> (r: CompilationProfile)
        ensures
            r@ == (ProfileBounds { max_extension_value_bytes: maximum, ..self@ }),
    {
        CompilationProfile { max_extension_value_bytes: maximum, ..self }
    }

    /// The bounds on UI-schema extension values.
    pub fn extension_limits(&self) -> (r: ExtensionLimits)
        ensures
            r == (ExtensionLimits {
                namespaces: self@.max_extension_namespaces,
                occurrences: self@.max_extension_occurrences,
                namespace_bytes: self@.max_extension_namespace_bytes,
                value_depth: self@.max_extension_value_depth,
                value_nodes: self@.max_extension_value_nodes,
                value_bytes: self@.max_extension_value_bytes,
            }),
    {
        ExtensionLimits {
            namespaces: self.max_extension_namespaces,
            occurrences: self.max_extension_occurrences,
            namespace_bytes: self.max_extension_namespace_bytes,
            value_depth: self.max_extension_value_depth,
            value_nodes: self.max_extension_value_nodes,
            value_bytes: self.max_extension_value_bytes,
        }
    }

    /// The input bounds applied to an authored UI schema.
    pub fn ui_schema_limits(&self) -> (r: InputLimits)
        ensures
            r == (InputLimits {
                bytes: self@.max_ui_schema_bytes,
                tokens: self@.max_ui_schema_tokens,
                depth: self@.max_ui_schema_depth,
                nodes: self@.max_ui_schema_nodes,
                members: self@.max_ui_schema_members,
                collection_length: self@.max_ui_schema_collection_length,
                scalar_bytes: self@.max_ui_schema_scalar_bytes,
            }),
    {
        InputLimits {
            bytes: self.max_ui_schema_bytes,
            tokens: self.max_ui_schema_tokens,
            depth: self.max_ui_schema_depth,
            nodes: self.max_ui_schema_nodes,
            members: self.max_ui_schema_members,
            collection_length: self.max_ui_schema_collection_length,
            scalar_bytes: self.max_ui_schema_scalar_bytes,
        }
    }

    /// The structural and graph bounds applied to data schemas.
    pub open spec fn data_schema_limits_spec(&self) -> DataSchemaLimits {
        DataSchemaLimits {
            bytes: self@.max_data_schema_bytes,
            tokens: self@.max_data_schema_tokens,
            depth: self@.max_data_schema_depth,
            nodes: self@.max_data_schema_nodes,
            members: self@.max_data_schema_members,
            scalar_bytes: self@.max_data_schema_scalar_bytes,
            resources: self@.max_data_schema_resources,
            references: self@.max_data_schema_references,
            traversal: self@.max_data_schema_traversal,
            definition_nodes: self@.max_definition_nodes,
            controls: self@.max_controls,
            uri_bytes: self@.max_uri_bytes,
            pointer_bytes: self@.max_pointer_bytes,
            capability_findings: self@.max_capability_findings,
        }
    }

    /// The structural and graph bounds applied to data schemas.
    pub fn data_schema_limits(&self) -> (r: DataSchemaLimits)
        ensures
            r == self.data_schema_limits_spec(),
            r == (DataSchemaLimits {
                bytes: self@.max_data_schema_bytes,
                tokens: self@.max_data_schema_tokens,
                depth: self@.max_data_schema_depth,
                nodes: self@.max_data_schema_nodes,
                members: self@.max_data_schema_members,
                scalar_bytes: self@.max_data_schema_scalar_bytes,
                resources: self@.max_data_schema_resources,
                references: self@.max_data_schema_references,
                traversal: self@.max_data_schema_traversal,
                definition_nodes: self@.max_definition_nodes,
                controls: self@.max_controls,
                uri_bytes: self@.max_uri_bytes,
                pointer_bytes: self@.max_pointer_bytes,
                capability_findings: self@.max_capability_findings,
            }),
    {
        DataSchemaLimits {
            bytes: self.max_data_schema_bytes,
            tokens: self.max_data_schema_tokens,
            depth: self.max_data_schema_depth,
            nodes: self.max_data_schema_nodes,
            members: self.max_data_schema_members,
            scalar_bytes: self.max_data_schema_scalar_bytes,
            resources: self.max_data_schema_resources,
            references: self.max_data_schema_references,
            traversal: self.max_data_schema_traversal,
            definition_nodes: self.max_definition_nodes,
            controls: self.max_controls,
            uri_bytes: self.max_uri_bytes,
            pointer_bytes: self.max_pointer_bytes,
            capability_findings: self.max_capability_findings,
        }
    }

    /// A copy with the same bounds.
    pub fn duplicate(&self) -> (r: CompilationProfile)
        ensures
            r@ == self@,
    {
        CompilationProfile { ..*self }
    }
}

impl Default for CompilationProfile {
    fn default() -> (r: CompilationProfile)
        ensures
            r@ == standard_bounds(),
    {
        CompilationProfile::standard()
    }
}

/// The bounds on UI-schema extension values.
#[derive(Debug, Clone, Copy, PartialEq, Eq, Structural)]
pub struct ExtensionLimits {
    pub namespaces: usize,
    pub occurrences: usize,
    pub namespace_bytes: usize,
    pub value_depth: usize,
    pub value_nodes: usize,
    pub value_bytes: usize,
}

impl ExtensionLimits {
    /// The limits in declaration order.
    pub fn values(self) -> (r: [usize; 6])
        ensures
            r@ == seq![self.namespaces, self.occurrences, self.namespace_bytes, self.value_depth, self.value_nodes, self.value_bytes],
    {
        let r = [self.namespaces, self.occurrences, self.namespace_bytes, self.value_depth, self.value_nodes, self.value_bytes];
        assert(r@ =~= seq![self.namespaces, self.occurrences, self.namespace_bytes, self.value_depth, self.value_nodes, self.value_bytes]);
        r
    }
}

} // verus!
