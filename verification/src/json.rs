use vstd::prelude::*;

use crate::address::{is_pointer_text, JsonPointer};
use crate::definition::{ResourceLimitError, ResourceLimitFailure, ResourceLimitPhase};
use crate::limits::{
    check_input_source, check_input_value, input_dimension_name, spec_check_input_source,
    spec_check_input_value, spec_input_dimension_name, CompilationLimitError, InputFailure,
    InputLimitError, InputLimits,
};
use crate::text::{chars_of, nat_text, same_chars, string_from_chars, sub_chars};
use crate::address::usize_text;
use crate::value::JsonValue;
use crate::address::{append_index, append_index_spec, append_token, append_token_spec, lemma_append_index_valid, lemma_append_token_valid};
use crate::limits::{check_schema_source_limits, spec_check_schema_source, CompilationLimitFailure};
use crate::profile::CompilationProfile;
use crate::schema::{check_parsed_schema, spec_check_parsed_schema};

verus! {

/// Structural and runtime bounds applied to form data and form state.
///
/// Each builder replaces one inclusive maximum; an observed value greater
/// than the maximum fails.
#[derive(Debug, Clone, Copy, PartialEq, Eq, Structural)]
pub struct FormDataLimits {
    max_bytes: usize,
    max_tokens: usize,
    max_depth: usize,
    max_nodes: usize,
    max_members: usize,
    max_collection_length: usize,
    max_scalar_bytes: usize,
    max_form_tree_nodes: usize,
    max_repeated_items: usize,
    max_active_edit_buffers: usize,
    max_edit_buffer_bytes: usize,
    max_total_edit_buffer_bytes: usize,
    max_host_operations_per_transaction: usize,
    max_retained_validation_findings: usize,
    max_validation_parameter_bytes: usize,
    max_canonical_integer_digits: usize,
}

/// The inclusive maxima form-data limits hold, one per dimension.
pub struct FormDataBounds {
    pub max_bytes: usize,
    pub max_tokens: usize,
    pub max_depth: usize,
    pub max_nodes: usize,
    pub max_members: usize,
    pub max_collection_length: usize,
    pub max_scalar_bytes: usize,
    pub max_form_tree_nodes: usize,
    pub max_repeated_items: usize,
    pub max_active_edit_buffers: usize,
    pub max_edit_buffer_bytes: usize,
    pub max_total_edit_buffer_bytes: usize,
    pub max_host_operations_per_transaction: usize,
    pub max_retained_validation_findings: usize,
    pub max_validation_parameter_bytes: usize,
    pub max_canonical_integer_digits: usize,
}

impl View for FormDataLimits {
    type V = FormDataBounds;

    closed spec fn view(&self) -> FormDataBounds {
        FormDataBounds {
            max_bytes: self.max_bytes,
            max_tokens: self.max_tokens,
            max_depth: self.max_depth,
            max_nodes: self.max_nodes,
            max_members: self.max_members,
            max_collection_length: self.max_collection_length,
            max_scalar_bytes: self.max_scalar_bytes,
            max_form_tree_nodes: self.max_form_tree_nodes,
            max_repeated_items: self.max_repeated_items,
            max_active_edit_buffers: self.max_active_edit_buffers,
            max_edit_buffer_bytes: self.max_edit_buffer_bytes,
            max_total_edit_buffer_bytes: self.max_total_edit_buffer_bytes,
            max_host_operations_per_transaction: self.max_host_operations_per_transaction,
            max_retained_validation_findings: self.max_retained_validation_findings,
            max_validation_parameter_bytes: self.max_validation_parameter_bytes,
            max_canonical_integer_digits: self.max_canonical_integer_digits,
        }
    }
}

/// The default form-data bounds.
pub open spec fn default_form_data_bounds() -> FormDataBounds {
    FormDataBounds {
        max_bytes: 4_194_304,
        max_tokens: 262_144,
        max_depth: 32,
        max_nodes: 65_536,
        max_members: 65_536,
        max_collection_length: 1_024,
        max_scalar_bytes: 262_144,
        max_form_tree_nodes: 65_536,
        max_repeated_items: 16_384,
        max_active_edit_buffers: 1_024,
        max_edit_buffer_bytes: 524_288,
        max_total_edit_buffer_bytes: 4_194_304,
        max_host_operations_per_transaction: 256,
        max_retained_validation_findings: 256,
        max_validation_parameter_bytes: 4_096,
        max_canonical_integer_digits: 4_096,
    }
}

impl Default for FormDataLimits {
    fn default() -> (r: FormDataLimits)
        ensures
            r@ == default_form_data_bounds(),
    {
        FormDataLimits {
            max_bytes: 4 * 1_024 * 1_024,
            max_tokens: 262_144,
            max_depth: 32,
            max_nodes: 65_536,
            max_members: 65_536,
            max_collection_length: 1_024,
            max_scalar_bytes: 256 * 1_024,
            max_form_tree_nodes: 65_536,
            max_repeated_items: 16_384,
            max_active_edit_buffers: 1_024,
            max_edit_buffer_bytes: 512 * 1_024,
            max_total_edit_buffer_bytes: 4 * 1_024 * 1_024,
            max_host_operations_per_transaction: 256,
            max_retained_validation_findings: 256,
            max_validation_parameter_bytes: 4_096,
            max_canonical_integer_digits: 4_096,
        }
    }
}

impl FormDataLimits {
    /// Sets the maximum source bytes of a form-data document.
    pub fn max_bytes(self, maximum: usize) -> (r: FormDataLimits)
        ensures
            r@ == (FormDataBounds { max_bytes: maximum, ..self@ }),
    {
        FormDataLimits { max_bytes: maximum, ..self }
    }

    /// Sets the maximum token count of a form-data document.
    pub fn max_tokens(self, maximum: usize) -> (r: FormDataLimits)
        ensures
            r@ == (FormDataBounds { max_tokens: maximum, ..self@ }),
    {
        FormDataLimits { max_tokens: maximum, ..self }
    }

    /// Sets the maximum nesting depth of form data.
    pub fn max_depth(self, maximum: usize) -> (r: FormDataLimits)
        ensures
            r@ == (FormDataBounds { max_depth: maximum, ..self@ }),
    {
        FormDataLimits { max_depth: maximum, ..self }
    }

    /// Sets the maximum number of JSON values in form data.
    pub fn max_nodes(self, maximum: usize) -> (r: FormDataLimits)
        ensures
            r@ == (FormDataBounds { max_nodes: maximum, ..self@ }),
    {
        FormDataLimits { max_nodes: maximum, ..self }
    }

    /// Sets the maximum aggregate number of object members in form data.
    pub fn max_members(self, maximum: usize) -> (r: FormDataLimits)
        ensures
            r@ == (FormDataBounds { max_members: maximum, ..self@ }),
    {
        FormDataLimits { max_members: maximum, ..self }
    }

    /// Sets the maximum length of one form-data array or object.
    pub fn max_collection_length(self, maximum: usize) -> (r: FormDataLimits)
        ensures
            r@ == (FormDataBounds { max_collection_length: maximum, ..self@ }),
    {
        FormDataLimits { max_collection_length: maximum, ..self }
    }

    /// Sets the maximum bytes of one form-data scalar or member name.
    pub fn max_scalar_bytes(self, maximum: usize) -> (r: FormDataLimits)
        ensures
            r@ == (FormDataBounds { max_scalar_bytes: maximum, ..self@ }),
    {
        FormDataLimits { max_scalar_bytes: maximum, ..self }
    }

    /// Sets the maximum number of nodes in an instantiated form tree.
    pub fn max_form_tree_nodes(self, maximum: usize) -> (r: FormDataLimits)
        ensures
            r@ == (FormDataBounds { max_form_tree_nodes: maximum, ..self@ }),
    {
        FormDataLimits { max_form_tree_nodes: maximum, ..self }
    }

    /// Sets the maximum number of repeated array items in a form.
    pub fn max_repeated_items(self, maximum: usize) -> (r: FormDataLimits)
        ensures
            r@ == (FormDataBounds { max_repeated_items: maximum, ..self@ }),
    {
        FormDataLimits { max_repeated_items: maximum, ..self }
    }

    /// Sets the maximum number of simultaneously active text edit buffers.
    pub fn max_active_edit_buffers(self, maximum: usize) -> (r: FormDataLimits)
        ensures
            r@ == (FormDataBounds { max_active_edit_buffers: maximum, ..self@ }),
    {
        FormDataLimits { max_active_edit_buffers: maximum, ..self }
    }

    /// Sets the maximum bytes of one text edit buffer.
    pub fn max_edit_buffer_bytes(self, maximum: usize) -> (r: FormDataLimits)
        ensures
            r@ == (FormDataBounds { max_edit_buffer_bytes: maximum, ..self@ }),
    {
        FormDataLimits { max_edit_buffer_bytes: maximum, ..self }
    }

    /// Sets the maximum total bytes of all text edit buffers.
    pub fn max_total_edit_buffer_bytes(self, maximum: usize) -> (r: FormDataLimits)
        ensures
            r@ == (FormDataBounds { max_total_edit_buffer_bytes: maximum, ..self@ }),
    {
        FormDataLimits { max_total_edit_buffer_bytes: maximum, ..self }
    }

    /// Sets the maximum number of operations in one host transaction.
    pub fn max_host_operations_per_transaction(self, maximum: usize) -> (r: FormDataLimits)
        ensures
            r@ == (FormDataBounds { max_host_operations_per_transaction: maximum, ..self@ }),
    {
        FormDataLimits { max_host_operations_per_transaction: maximum, ..self }
    }

    /// Sets the maximum number of retained validation findings.
    pub fn max_retained_validation_findings(self, maximum: usize) -> (r: FormDataLimits)
        ensures
            r@ == (FormDataBounds { max_retained_validation_findings: maximum, ..self@ }),
    {
        FormDataLimits { max_retained_validation_findings: maximum, ..self }
    }

    /// Sets the maximum encoded bytes of validation finding parameters.
    pub fn max_validation_parameter_bytes(self, maximum: usize) -> (r: FormDataLimits)
        ensures
            r@ == (FormDataBounds { max_validation_parameter_bytes: maximum, ..self@ }),
    {
        FormDataLimits { max_validation_parameter_bytes: maximum, ..self }
    }

    /// Sets the maximum digits of an integer written in canonical form.
    pub fn max_canonical_integer_digits(self, maximum: usize) -> (r: FormDataLimits)
        ensures
            r@ == (FormDataBounds { max_canonical_integer_digits: maximum, ..self@ }),
    {
        FormDataLimits { max_canonical_integer_digits: maximum, ..self }
    }

    /// The structural bounds applied to a form-data document.
    pub fn input_limits(self) -> (r: InputLimits)
        ensures
            r == input_bounds(self@),
    {
        InputLimits {
            bytes: self.max_bytes,
            tokens: self.max_tokens,
            depth: self.max_depth,
            nodes: self.max_nodes,
            members: self.max_members,
            collection_length: self.max_collection_length,
            scalar_bytes: self.max_scalar_bytes,
        }
    }

    /// The bound set by [`Self::max_form_tree_nodes`].
    pub fn form_tree_nodes(self) -> (r: usize)
        ensures
            r == self@.max_form_tree_nodes,
    {
        self.max_form_tree_nodes
    }

    /// The bound set by [`Self::max_repeated_items`].
    pub fn repeated_items(self) -> (r: usize)
        ensures
            r == self@.max_repeated_items,
    {
        self.max_repeated_items
    }

    /// The bound set by [`Self::max_active_edit_buffers`].
    pub fn active_edit_buffers(self) -> (r: usize)
        ensures
            r == self@.max_active_edit_buffers,
    {
        self.max_active_edit_buffers
    }

    /// The bound set by [`Self::max_edit_buffer_bytes`].
    pub fn edit_buffer_bytes(self) -> (r: usize)
        ensures
            r == self@.max_edit_buffer_bytes,
    {
        self.max_edit_buffer_bytes
    }

    /// The bound set by [`Self::max_total_edit_buffer_bytes`].
    pub fn total_edit_buffer_bytes(self) -> (r: usize)
        ensures
            r == self@.max_total_edit_buffer_bytes,
    {
        self.max_total_edit_buffer_bytes
    }

    /// The bound set by [`Self::max_host_operations_per_transaction`].
    pub fn host_operations_per_transaction(self) -> (r: usize)
        ensures
            r == self@.max_host_operations_per_transaction,
    {
        self.max_host_operations_per_transaction
    }

    /// The bound set by [`Self::max_retained_validation_findings`].
    pub fn retained_validation_findings(self) -> (r: usize)
        ensures
            r == self@.max_retained_validation_findings,
    {
        self.max_retained_validation_findings
    }

    /// The bound set by [`Self::max_validation_parameter_bytes`].
    pub fn validation_parameter_bytes(self) -> (r: usize)
        ensures
            r == self@.max_validation_parameter_bytes,
    {
        self.max_validation_parameter_bytes
    }

    /// The bound set by [`Self::max_canonical_integer_digits`].
    pub fn canonical_integer_digits(self) -> (r: usize)
        ensures
            r == self@.max_canonical_integer_digits,
    {
        self.max_canonical_integer_digits
    }

}

/// The structural bounds in form-data bounds.
pub open spec fn input_bounds(b: FormDataBounds) -> InputLimits {
    InputLimits {
        bytes: b.max_bytes,
        tokens: b.max_tokens,
        depth: b.max_depth,
        nodes: b.max_nodes,
        members: b.max_members,
        collection_length: b.max_collection_length,
        scalar_bytes: b.max_scalar_bytes,
    }
}

/// ` at line L column C`, the location suffix `serde_json` appends to a message.
pub open spec fn location_suffix(line: nat, column: nat) -> Seq<char> {
    " at line "@ + nat_text(line) + " column "@ + nat_text(column)
}

/// `message` without its location suffix, when it ends with one.
pub open spec fn strip_location(message: Seq<char>, line: nat, column: nat) -> Seq<char> {
    let s = location_suffix(line, column);
    if s.len() <= message.len() && message.subrange(message.len() - s.len(), message.len() as int) == s {
        message.subrange(0, message.len() - s.len())
    } else {
        message
    }
}

/// An owned JSON syntax diagnostic. Line and column are one-based positions:
/// those `serde_json` reports, with a position it reports as 0 (as it does
/// for a column at the very end of input after a newline) read as 1.
#[derive(Debug)]
pub struct JsonSyntaxError {
    line: usize,
    column: usize,
    reason: String,
}

/// The content of a syntax diagnostic.
pub struct SyntaxFailure {
    pub line: usize,
    pub column: usize,
    pub reason: Seq<char>,
}

impl View for JsonSyntaxError {
    type V = SyntaxFailure;

    closed spec fn view(&self) -> SyntaxFailure {
        SyntaxFailure { line: self.line, column: self.column, reason: self.reason@ }
    }
}

fn push_all(out: &mut Vec<char>, more: &Vec<char>)
    ensures
        final(out)@ == old(out)@ + more@,
{
    let mut i: usize = 0;
    while i < more.len()
        invariant
            i <= more.len(),
            out@ == old(out)@ + more@.take(i as int),
        decreases more.len() - i,
    {
        out.push(more[i]);
        assert(more@.take(i + 1) =~= more@.take(i as int).push(more@[i as int]));
        i += 1;
    }
    assert(more@.take(more.len() as int) =~= more@);
}

/// A reported position as a one-based one: 0 reads as 1.
pub open spec fn one_based(n: usize) -> usize {
    if n == 0 {
        1
    } else {
        n
    }
}

impl JsonSyntaxError {
    #[verifier::type_invariant]
    spec fn well_formed(self) -> bool {
        self.line >= 1 && self.column >= 1
    }

    /// A diagnostic at the one-based `line` and `column` (a reported 0 reads
    /// as 1) whose reason is `message` without the location suffix the
    /// reporter appended for exactly `line` and `column`.
    pub fn from_parts(line: usize, column: usize, message: String) -> (r: JsonSyntaxError)
        ensures
            r@ == (SyntaxFailure {
                line: one_based(line),
                column: one_based(column),
                reason: strip_location(message@, line as nat, column as nat),
            }),
            r@.line >= 1,
            r@.column >= 1,
    {
        let position_line = if line == 0 { 1 } else { line };
        let position_column = if column == 0 { 1 } else { column };
        let mut suffix = chars_of(" at line ");
        push_all(&mut suffix, &usize_text(line));
        push_all(&mut suffix, &chars_of(" column "));
        push_all(&mut suffix, &usize_text(column));
        assert(suffix@ =~= location_suffix(line as nat, column as nat));
        let text = chars_of(message.as_str());
        if suffix.len() <= text.len() && same_chars(&sub_chars(&text, text.len() - suffix.len(), text.len()), &suffix) {
            let reason = string_from_chars(&sub_chars(&text, 0, text.len() - suffix.len()));
            JsonSyntaxError { line: position_line, column: position_column, reason }
        } else {
            JsonSyntaxError { line: position_line, column: position_column, reason: message }
        }
    }

    /// Returns the one-based line where `serde_json` detected the error.
    pub fn line(&self) -> (r: usize)
        ensures
            r == self@.line,
            r >= 1,
    {
        proof {
            use_type_invariant(self);
        }
        self.line
    }

    /// Returns the one-based column where `serde_json` detected the error.
    pub fn column(&self) -> (r: usize)
        ensures
            r == self@.column,
            r >= 1,
    {
        proof {
            use_type_invariant(self);
        }
        self.column
    }

    /// Returns `serde_json`'s human-readable reason without its location suffix.
    pub fn reason(&self) -> (r: &str)
        ensures
            r@ == self@.reason,
    {
        self.reason.as_str()
    }
}

/// A failure to parse or structurally bound a JSON input.
#[derive(Debug)]
#[non_exhaustive]
pub enum JsonParseError {
    /// The input is not syntactically valid JSON.
    Syntax(JsonSyntaxError),
    /// The input exceeded a deterministic construction resource limit.
    ResourceLimit(ResourceLimitError),
    /// A data schema exceeded a compilation limit.
    CompilationLimit(CompilationLimitError),
    /// A syntactically valid JSON value is not a valid UI schema.
    InvalidUiSchema {
        /// Location of the invalid value in the authored UI schema.
        location: JsonPointer,
        /// Human-readable diagnostic.
        reason: String,
    },
}

/// The construction-phase resource failure reporting an input limit failure.
pub open spec fn resource_failure(f: InputFailure) -> ResourceLimitFailure {
    ResourceLimitFailure {
        phase: ResourceLimitPhase::Construction,
        dimension: spec_input_dimension_name(f.dimension),
        maximum: f.maximum,
        observed: f.observed,
        path: f.pointer,
    }
}

/// Reports an input limit failure as a construction-phase resource failure.
pub fn resource_limit(error: InputLimitError) -> (r: ResourceLimitError)
    ensures
        r@ == resource_failure(error@),
{
    let path = JsonPointer::from_valid(error.pointer().to_owned());
    ResourceLimitError::new(
        ResourceLimitPhase::Construction,
        input_dimension_name(error.dimension()),
        error.maximum(),
        error.observed(),
        path,
    )
}

/// Bounds a form-data source before it is parsed: bytes, tokens, depth,
/// nodes, members, collection length, and scalar bytes, in that order.
pub fn check_form_data_source(bytes: &[u8], limits: &FormDataLimits) -> (r: Result<(), JsonParseError>)
    ensures
        match spec_check_input_source(bytes@, input_bounds(limits@)) {
            None => r is Ok,
            Some(f) => r matches Err(JsonParseError::ResourceLimit(e)) && e@ == resource_failure(f),
        },
{
    match check_input_source(bytes, limits.input_limits()) {
        Ok(()) => Ok(()),
        Err(e) => Err(JsonParseError::ResourceLimit(resource_limit(e))),
    }
}

/// Finishes parsing form data from what the JSON parser produced: a syntax
/// failure is reported as such; a parsed value is bounded (see
/// [`check_input_value`]) and returned when within bounds.
pub fn form_data_from_parsed(parsed: Result<JsonValue, JsonSyntaxError>, limits: &FormDataLimits) -> (r: Result<JsonValue, JsonParseError>)
    ensures
        match parsed {
            Err(s) => r matches Err(JsonParseError::Syntax(t)) && t@ == s@,
            Ok(v) => match spec_check_input_value(v@, input_bounds(limits@)) {
                None => r matches Ok(w) && w@ == v@,
                Some(f) => r matches Err(JsonParseError::ResourceLimit(e)) && e@ == resource_failure(f),
            },
        },
{
    match parsed {
        Err(s) => Err(JsonParseError::Syntax(s)),
        Ok(v) => match check_input_value(&v, limits.input_limits()) {
            Ok(()) => Ok(v),
            Err(e) => Err(JsonParseError::ResourceLimit(resource_limit(e))),
        },
    }
}

/// Bounds a data-schema source before it is parsed: bytes, tokens, then depth.
pub fn check_data_schema_source(bytes: &[u8], profile: &CompilationProfile) -> (r: Result<(), JsonParseError>)
    ensures
        match spec_check_schema_source(bytes@, profile.data_schema_limits_spec()) {
            None => r is Ok,
            Some(f) => r matches Err(JsonParseError::CompilationLimit(e)) && e@ == f,
        },
{
    match check_schema_source_limits(bytes, profile.data_schema_limits()) {
        Ok(()) => Ok(()),
        Err(e) => Err(JsonParseError::CompilationLimit(e)),
    }
}

/// Finishes parsing a data schema of `source_bytes` bytes from what the JSON
/// parser produced: a syntax failure is reported as such; a parsed document
/// is bounded (see [`spec_check_parsed_schema`]) and returned when within
/// bounds.
pub fn data_schema_from_parsed(source_bytes: usize, parsed: Result<JsonValue, JsonSyntaxError>, profile: &CompilationProfile) -> (r: Result<JsonValue, JsonParseError>)
    ensures
        match parsed {
            Err(s) => r matches Err(JsonParseError::Syntax(t)) && t@ == s@,
            Ok(v) => match spec_check_parsed_schema(source_bytes, v@, profile.data_schema_limits_spec()) {
                None => r matches Ok(w) && w@ == v@,
                Some(f) => r matches Err(JsonParseError::CompilationLimit(e)) && e@ == f,
            },
        },
{
    match parsed {
        Err(s) => Err(JsonParseError::Syntax(s)),
        Ok(v) => match check_parsed_schema(source_bytes, &v, profile) {
            Ok(()) => Ok(v),
            Err(e) => Err(JsonParseError::CompilationLimit(e)),
        },
    }
}

/// One step of a deserialization path.
#[derive(Debug)]
pub enum PathSegment {
    /// An array element.
    Element(usize),
    /// An object member.
    Member(String),
    /// An enum variant or a step of unknown kind.
    Other,
}

/// The content of a path step.
pub enum SegmentView {
    Element(nat),
    Member(Seq<char>),
    Other,
}

impl View for PathSegment {
    type V = SegmentView;

    open spec fn view(&self) -> SegmentView {
        match self {
            PathSegment::Element(i) => SegmentView::Element(*i as nat),
            PathSegment::Member(k) => SegmentView::Member(k@),
            PathSegment::Other => SegmentView::Other,
        }
    }
}

/// The JSON Pointer of a deserialization path: one token per array or
/// object step, other steps left out.
pub open spec fn path_pointer(path: Seq<SegmentView>) -> Seq<char>
    decreases path.len(),
{
    if path.len() == 0 {
        Seq::empty()
    } else {
        let head = path_pointer(path.drop_last());
        match path.last() {
            SegmentView::Element(i) => append_index_spec(head, i),
            SegmentView::Member(k) => append_token_spec(head, k),
            SegmentView::Other => head,
        }
    }
}

/// The location in the authored UI schema that a deserialization path names.
pub fn ui_schema_error_location(path: &Vec<PathSegment>) -> (r: JsonPointer)
    ensures
        r@ == path_pointer(path@.map_values(|s: PathSegment| s@)),
{
    let ghost steps = path@.map_values(|s: PathSegment| s@);
    let mut pointer = String::new();
    let mut i: usize = 0;
    while i < path.len()
        invariant
            steps == path@.map_values(|s: PathSegment| s@),
            i <= path.len(),
            pointer@ == path_pointer(steps.take(i as int)),
            is_pointer_text(pointer@),
        decreases path.len() - i,
    {
        assert(steps.take(i + 1).drop_last() =~= steps.take(i as int));
        assert(steps.take(i + 1).last() == path@[i as int]@);
        match &path[i] {
            PathSegment::Element(index) => {
                proof {
                    lemma_append_index_valid(pointer@, *index as nat);
                }
                pointer = append_index(pointer.as_str(), *index);
            },
            PathSegment::Member(key) => {
                proof {
                    lemma_append_token_valid(pointer@, key@);
                }
                pointer = append_token(pointer.as_str(), key.as_str());
            },
            PathSegment::Other => {},
        }
        i += 1;
    }
    assert(steps.take(path.len() as int) =~= steps);
    JsonPointer::from_valid(pointer)
}

} // verus!
