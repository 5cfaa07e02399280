use vstd::prelude::*;

use crate::address::{
    append_index, append_index_spec, append_token, append_token_spec, is_pointer_text,
    lemma_append_index_valid, lemma_append_token_valid, JsonPointer,
};
use crate::value::{JsonData, JsonValue};
use crate::scan::{
    source_metrics, source_value_metrics, spec_source_metrics, spec_source_value_metrics,
};

verus! {

/// Compilation stage at which a data-schema limit was enforced.
#[derive(Debug, Clone, Copy, PartialEq, Eq, Structural)]
#[non_exhaustive]
pub enum CompilationLimitPhase {
    Parse,
    Structure,
    Graph,
    Projection,
    Definition,
}

/// The bounded dimension of a data-schema limit.
#[derive(Debug, Clone, Copy, PartialEq, Eq, Structural)]
#[non_exhaustive]
pub enum CompilationLimitDimension {
    Bytes,
    Tokens,
    Depth,
    Nodes,
    Members,
    ScalarBytes,
    Resources,
    References,
    Traversal,
    DefinitionNodes,
    Controls,
    UriBytes,
    PointerBytes,
    CapabilityFindings,
}

/// A data-schema limit violation: where, which bound, and what was observed.
#[derive(Debug, PartialEq, Eq)]
pub struct CompilationLimitError {
    phase: CompilationLimitPhase,
    dimension: CompilationLimitDimension,
    maximum: usize,
    observed: usize,
    pointer: JsonPointer,
}

/// The content of a data-schema limit violation.
pub struct CompilationLimitFailure {
    pub phase: CompilationLimitPhase,
    pub dimension: CompilationLimitDimension,
    pub maximum: nat,
    pub observed: nat,
    pub pointer: Seq<char>,
}

impl View for CompilationLimitError {
    type V = CompilationLimitFailure;

    closed spec fn view(&self) -> CompilationLimitFailure {
        CompilationLimitFailure {
            phase: self.phase,
            dimension: self.dimension,
            maximum: self.maximum as nat,
            observed: self.observed as nat,
            pointer: self.pointer@,
        }
    }
}

impl Clone for CompilationLimitError {
    /// A violation with the same content.
    fn clone(&self) -> (r: CompilationLimitError)
        ensures
            r@ == self@,
    {
        proof {
            use_type_invariant(self);
        }
        CompilationLimitError {
            phase: self.phase,
            dimension: self.dimension,
            maximum: self.maximum,
            observed: self.observed,
            pointer: self.pointer.duplicate(),
        }
    }
}

impl CompilationLimitError {
    #[verifier::type_invariant]
    spec fn well_formed(self) -> bool {
        self.observed > self.maximum
    }

    /// A violation of bound `maximum` by `observed`, which exceeds it.
    pub fn new(
        phase: CompilationLimitPhase,
        dimension: CompilationLimitDimension,
        maximum: usize,
        observed: usize,
        pointer: String,
    ) -> (r: CompilationLimitError)
        requires
            is_pointer_text(pointer@),
            observed > maximum,
        ensures
            r@ == (CompilationLimitFailure {
                phase,
                dimension,
                maximum: maximum as nat,
                observed: observed as nat,
                pointer: pointer@,
            }),
    {
        CompilationLimitError { phase, dimension, maximum, observed, pointer: JsonPointer::from_valid(pointer) }
    }

    pub fn phase(&self) -> (r: CompilationLimitPhase)
        ensures
            r == self@.phase,
    {
        self.phase
    }

    pub fn dimension(&self) -> (r: CompilationLimitDimension)
        ensures
            r == self@.dimension,
    {
        self.dimension
    }

    pub fn maximum(&self) -> (r: usize)
        ensures
            r as nat == self@.maximum,
    {
        self.maximum
    }

    /// Returns the observed value; it is always greater than the maximum.
    pub fn observed(&self) -> (r: usize)
        ensures
            r as nat == self@.observed,
            self@.observed > self@.maximum,
    {
        proof {
            use_type_invariant(self);
        }
        self.observed
    }

    pub fn pointer(&self) -> (r: &JsonPointer)
        ensures
            r@ == self@.pointer,
    {
        &self.pointer
    }
}

/// The structural and graph bounds applied to data schemas.
#[derive(Clone, Copy)]
pub struct DataSchemaLimits {
    pub bytes: usize,
    pub tokens: usize,
    pub depth: usize,
    pub nodes: usize,
    pub members: usize,
    pub scalar_bytes: usize,
    pub resources: usize,
    pub references: usize,
    pub traversal: usize,
    pub definition_nodes: usize,
    pub controls: usize,
    pub uri_bytes: usize,
    pub pointer_bytes: usize,
    pub capability_findings: usize,
}

impl DataSchemaLimits {
    /// The limits in declaration order.
    pub fn values(self) -> (r: [usize; 14])
        ensures
            r@ == seq![
                self.bytes, self.tokens, self.depth, self.nodes, self.members, self.scalar_bytes,
                self.resources, self.references, self.traversal, self.definition_nodes,
                self.controls, self.uri_bytes, self.pointer_bytes, self.capability_findings,
            ],
    {
        let r = [
            self.bytes,
            self.tokens,
            self.depth,
            self.nodes,
            self.members,
            self.scalar_bytes,
            self.resources,
            self.references,
            self.traversal,
            self.definition_nodes,
            self.controls,
            self.uri_bytes,
            self.pointer_bytes,
            self.capability_findings,
        ];
        assert(r@ =~= seq![
            self.bytes, self.tokens, self.depth, self.nodes, self.members, self.scalar_bytes,
            self.resources, self.references, self.traversal, self.definition_nodes,
            self.controls, self.uri_bytes, self.pointer_bytes, self.capability_findings,
        ]);
        r
    }
}

/// Structural bounds for untrusted JSON input (form data, UI schemas, parameters).
#[derive(Debug, Clone, Copy)]
pub struct InputLimits {
    pub bytes: usize,
    pub tokens: usize,
    pub depth: usize,
    pub nodes: usize,
    pub members: usize,
    pub collection_length: usize,
    pub scalar_bytes: usize,
}

impl InputLimits {
    /// The limits in declaration order.
    pub fn values(self) -> (r: [usize; 7])
        ensures
            r@ == seq![self.bytes, self.tokens, self.depth, self.nodes, self.members, self.collection_length, self.scalar_bytes],
    {
        let r = [
            self.bytes,
            self.tokens,
            self.depth,
            self.nodes,
            self.members,
            self.collection_length,
            self.scalar_bytes,
        ];
        assert(r@ =~= seq![self.bytes, self.tokens, self.depth, self.nodes, self.members, self.collection_length, self.scalar_bytes]);
        r
    }
}

/// The bounded dimension of an input limit.
#[derive(Debug, Clone, Copy, PartialEq, Eq, Structural)]
pub enum InputDimension {
    Bytes,
    Tokens,
    Depth,
    Nodes,
    Members,
    CollectionLength,
    ScalarBytes,
}

/// The stable name of an input dimension.
pub open spec fn spec_input_dimension_name(d: InputDimension) -> Seq<char> {
    match d {
        InputDimension::Bytes => "bytes"@,
        InputDimension::Tokens => "tokens"@,
        InputDimension::Depth => "depth"@,
        InputDimension::Nodes => "nodes"@,
        InputDimension::Members => "members"@,
        InputDimension::CollectionLength => "collection_length"@,
        InputDimension::ScalarBytes => "scalar_bytes"@,
    }
}

/// The stable name of an input dimension.
pub fn input_dimension_name(d: InputDimension) -> (r: &'static str)
    ensures
        r@ == spec_input_dimension_name(d),
{
    match d {
        InputDimension::Bytes => "bytes",
        InputDimension::Tokens => "tokens",
        InputDimension::Depth => "depth",
        InputDimension::Nodes => "nodes",
        InputDimension::Members => "members",
        InputDimension::CollectionLength => "collection_length",
        InputDimension::ScalarBytes => "scalar_bytes",
    }
}

/// An input limit violation: dimension, bound, observation, and nearest
/// location. The observation always exceeds the bound and the location is a
/// JSON Pointer.
#[derive(Debug)]
pub struct InputLimitError {
    dimension: InputDimension,
    maximum: usize,
    observed: usize,
    pointer: String,
}

impl InputLimitError {
    #[verifier::type_invariant]
    spec fn well_formed(self) -> bool {
        self.observed > self.maximum && is_pointer_text(self.pointer@)
    }

    /// The bounded dimension.
    pub fn dimension(&self) -> (r: InputDimension)
        ensures
            r == self@.dimension,
    {
        self.dimension
    }

    /// The inclusive maximum that was exceeded.
    pub fn maximum(&self) -> (r: usize)
        ensures
            r == self@.maximum,
            self@.observed > self@.maximum,
    {
        proof {
            use_type_invariant(self);
        }
        self.maximum
    }

    /// The rejected observation.
    pub fn observed(&self) -> (r: usize)
        ensures
            r == self@.observed,
            self@.observed > self@.maximum,
    {
        proof {
            use_type_invariant(self);
        }
        self.observed
    }

    /// The nearest location of the violation.
    pub fn pointer(&self) -> (r: &str)
        ensures
            r@ == self@.pointer,
            is_pointer_text(self@.pointer),
    {
        proof {
            use_type_invariant(self);
        }
        self.pointer.as_str()
    }
}

/// The content of an input limit violation.
pub struct InputFailure {
    pub dimension: InputDimension,
    pub maximum: nat,
    pub observed: nat,
    pub pointer: Seq<char>,
}

impl View for InputLimitError {
    type V = InputFailure;

    closed spec fn view(&self) -> InputFailure {
        InputFailure {
            dimension: self.dimension,
            maximum: self.maximum as nat,
            observed: self.observed as nat,
            pointer: self.pointer@,
        }
    }
}

pub open spec fn input_failure(d: InputDimension, maximum: nat, observed: nat, pointer: Seq<char>) -> Option<InputFailure> {
    Some(InputFailure { dimension: d, maximum, observed, pointer })
}

/// The first source-level input limit a JSON source exceeds, checked in the
/// order bytes, tokens, depth, nodes, members, collection length, scalar bytes.
pub open spec fn spec_check_input_source(b: Seq<u8>, l: InputLimits) -> Option<InputFailure> {
    let (tokens, depth) = spec_source_metrics(b);
    let m = spec_source_value_metrics(b);
    if b.len() > l.bytes {
        input_failure(InputDimension::Bytes, l.bytes as nat, b.len(), Seq::empty())
    } else if tokens > l.tokens {
        input_failure(InputDimension::Tokens, l.tokens as nat, tokens, Seq::empty())
    } else if depth > l.depth {
        input_failure(InputDimension::Depth, l.depth as nat, depth, Seq::empty())
    } else if m.nodes > l.nodes {
        input_failure(InputDimension::Nodes, l.nodes as nat, m.nodes, Seq::empty())
    } else if m.members > l.members {
        input_failure(InputDimension::Members, l.members as nat, m.members, Seq::empty())
    } else if m.collection_length > l.collection_length {
        input_failure(InputDimension::CollectionLength, l.collection_length as nat, m.collection_length, Seq::empty())
    } else if m.scalar_bytes > l.scalar_bytes {
        input_failure(InputDimension::ScalarBytes, l.scalar_bytes as nat, m.scalar_bytes, Seq::empty())
    } else {
        None
    }
}

/// The outcome of a check as an optional failure.
pub open spec fn input_outcome(r: Result<(), InputLimitError>) -> Option<InputFailure> {
    match r {
        Ok(()) => None,
        Err(e) => Some(e@),
    }
}

fn input_error(dimension: InputDimension, maximum: usize, observed: usize, pointer: String) -> (r: InputLimitError)
    requires
        observed > maximum,
        is_pointer_text(pointer@),
    ensures
        r@ == (InputFailure { dimension, maximum: maximum as nat, observed: observed as nat, pointer: pointer@ }),
{
    InputLimitError { dimension, maximum, observed, pointer }
}

/// Bounds an untrusted JSON source before it is parsed.
pub fn check_input_source(bytes: &[u8], limits: InputLimits) -> (r: Result<(), InputLimitError>)
    ensures
        input_outcome(r) == spec_check_input_source(bytes@, limits),
{
    if bytes.len() > limits.bytes {
        return Err(input_error(InputDimension::Bytes, limits.bytes, bytes.len(), String::new()));
    }
    let (tokens, depth) = source_metrics(bytes);
    if tokens > limits.tokens {
        return Err(input_error(InputDimension::Tokens, limits.tokens, tokens, String::new()));
    }
    if depth > limits.depth {
        return Err(input_error(InputDimension::Depth, limits.depth, depth, String::new()));
    }
    let metrics = source_value_metrics(bytes);
    if metrics.nodes > limits.nodes {
        return Err(input_error(InputDimension::Nodes, limits.nodes, metrics.nodes, String::new()));
    }
    if metrics.members > limits.members {
        return Err(input_error(InputDimension::Members, limits.members, metrics.members, String::new()));
    }
    if metrics.collection_length > limits.collection_length {
        return Err(input_error(InputDimension::CollectionLength, limits.collection_length, metrics.collection_length, String::new()));
    }
    if metrics.scalar_bytes > limits.scalar_bytes {
        return Err(input_error(InputDimension::ScalarBytes, limits.scalar_bytes, metrics.scalar_bytes, String::new()));
    }
    Ok(())
}

/// The first parse-stage limit a data-schema source exceeds: bytes, tokens, then depth.
pub open spec fn spec_check_schema_source(b: Seq<u8>, l: DataSchemaLimits) -> Option<CompilationLimitFailure> {
    let (tokens, depth) = spec_source_metrics(b);
    if b.len() > l.bytes {
        Some(CompilationLimitFailure { phase: CompilationLimitPhase::Parse, dimension: CompilationLimitDimension::Bytes, maximum: l.bytes as nat, observed: b.len(), pointer: Seq::empty() })
    } else if tokens > l.tokens {
        Some(CompilationLimitFailure { phase: CompilationLimitPhase::Parse, dimension: CompilationLimitDimension::Tokens, maximum: l.tokens as nat, observed: tokens, pointer: Seq::empty() })
    } else if depth > l.depth {
        Some(CompilationLimitFailure { phase: CompilationLimitPhase::Structure, dimension: CompilationLimitDimension::Depth, maximum: l.depth as nat, observed: depth, pointer: Seq::empty() })
    } else {
        None
    }
}

pub open spec fn compilation_outcome(r: Result<(), CompilationLimitError>) -> Option<CompilationLimitFailure> {
    match r {
        Ok(()) => None,
        Err(e) => Some(e@),
    }
}

/// Bounds a data-schema source before it is parsed.
pub fn check_schema_source_limits(bytes: &[u8], limits: DataSchemaLimits) -> (r: Result<(), CompilationLimitError>)
    ensures
        compilation_outcome(r) == spec_check_schema_source(bytes@, limits),
{
    if bytes.len() > limits.bytes {
        return Err(CompilationLimitError::new(CompilationLimitPhase::Parse, CompilationLimitDimension::Bytes, limits.bytes, bytes.len(), String::new()));
    }
    let (tokens, depth) = source_metrics(bytes);
    if tokens > limits.tokens {
        return Err(CompilationLimitError::new(CompilationLimitPhase::Parse, CompilationLimitDimension::Tokens, limits.tokens, tokens, String::new()));
    }
    if depth > limits.depth {
        return Err(CompilationLimitError::new(CompilationLimitPhase::Structure, CompilationLimitDimension::Depth, limits.depth, depth, String::new()));
    }
    Ok(())
}

/// The UTF-8 byte length of a text held in memory (what `str::len` reports).
pub open spec fn byte_len(s: Seq<char>) -> usize {
    vstd::utf8::encode_utf8(s).len() as usize
}

fn text_len(s: &str) -> (r: usize)
    ensures
        r == byte_len(s@),
{
    s.len()
}

/// `a + b`, saturating at `usize::MAX`.
pub open spec fn sat_add(a: nat, b: nat) -> nat {
    if a + b > usize::MAX {
        usize::MAX as nat
    } else {
        a + b
    }
}

/// The byte width charged for a scalar value: the literal `null`/`true`/`false`,
/// the number's text, or the string's UTF-8 bytes.
pub open spec fn scalar_width(v: JsonData) -> nat {
    match v {
        JsonData::Null => 4,
        JsonData::Bool(b) => if b { 4 } else { 5 },
        JsonData::Number(t) => byte_len(t) as nat,
        JsonData::String(s) => byte_len(s) as nat,
        _ => 0,
    }
}

/// The pre-order scan of a parsed input value. Each value visited counts one
/// node (saturating) and is checked for depth, then node count; arrays are
/// checked for length; objects add their member count (saturating) and are
/// checked for members, then length; each member name is checked for scalar
/// bytes before its value is visited; scalars are checked for scalar bytes.
/// The result is the node and member counts after the scan, or the first
/// violation.
pub open spec fn input_scan(
    v: JsonData,
    depth: nat,
    pointer: Seq<char>,
    nodes: nat,
    members: nat,
    l: InputLimits,
) -> Result<(nat, nat), InputFailure>
    decreases v, 0int,
{
    let n = sat_add(nodes, 1);
    if depth > l.depth {
        Err(InputFailure { dimension: InputDimension::Depth, maximum: l.depth as nat, observed: depth, pointer })
    } else if n > l.nodes {
        Err(InputFailure { dimension: InputDimension::Nodes, maximum: l.nodes as nat, observed: n, pointer })
    } else {
        match v {
            JsonData::Array(items) => if items.len() > l.collection_length {
                Err(InputFailure { dimension: InputDimension::CollectionLength, maximum: l.collection_length as nat, observed: items.len(), pointer })
            } else {
                input_scan_items(items, 0, depth, pointer, n, members, l)
            },
            JsonData::Object(entries) => {
                let m = sat_add(members, entries.len());
                if m > l.members {
                    Err(InputFailure { dimension: InputDimension::Members, maximum: l.members as nat, observed: m, pointer })
                } else if entries.len() > l.collection_length {
                    Err(InputFailure { dimension: InputDimension::CollectionLength, maximum: l.collection_length as nat, observed: entries.len(), pointer })
                } else {
                    input_scan_entries(entries, 0, depth, pointer, n, m, l)
                }
            },
            _ => if scalar_width(v) > l.scalar_bytes {
                Err(InputFailure { dimension: InputDimension::ScalarBytes, maximum: l.scalar_bytes as nat, observed: scalar_width(v), pointer })
            } else {
                Ok((n, members))
            },
        }
    }
}

/// The scan of array items from position `i` on, under the array at `pointer`.
pub open spec fn input_scan_items(
    items: Seq<JsonData>,
    i: int,
    depth: nat,
    pointer: Seq<char>,
    nodes: nat,
    members: nat,
    l: InputLimits,
) -> Result<(nat, nat), InputFailure>
    decreases items, items.len() - i,
{
    if i < 0 || i >= items.len() {
        Ok((nodes, members))
    } else {
        match input_scan(items[i], sat_add(depth, 1), append_index_spec(pointer, i as nat), nodes, members, l) {
            Err(f) => Err(f),
            Ok((n, m)) => input_scan_items(items, i + 1, depth, pointer, n, m, l),
        }
    }
}

/// The scan of object members from position `i` on, under the object at `pointer`.
pub open spec fn input_scan_entries(
    entries: Seq<(Seq<char>, JsonData)>,
    i: int,
    depth: nat,
    pointer: Seq<char>,
    nodes: nat,
    members: nat,
    l: InputLimits,
) -> Result<(nat, nat), InputFailure>
    decreases entries, entries.len() - i,
{
    if i < 0 || i >= entries.len() {
        Ok((nodes, members))
    } else {
        let key = entries[i].0;
        let at = append_token_spec(pointer, key);
        if byte_len(key) > l.scalar_bytes {
            Err(InputFailure { dimension: InputDimension::ScalarBytes, maximum: l.scalar_bytes as nat, observed: byte_len(key) as nat, pointer: at })
        } else {
            proof {
                assert(decreases_to!(entries => entries[i]));
                assert(decreases_to!(entries[i] => entries[i].1));
            }
            match input_scan(entries[i].1, sat_add(depth, 1), at, nodes, members, l) {
                Err(f) => Err(f),
                Ok((n, m)) => input_scan_entries(entries, i + 1, depth, pointer, n, m, l),
            }
        }
    }
}

/// The first limit a parsed input value exceeds, in pre-order.
pub open spec fn spec_check_input_value(v: JsonData, l: InputLimits) -> Option<InputFailure> {
    match input_scan(v, 0, Seq::empty(), 0, 0, l) {
        Ok(_) => None,
        Err(f) => Some(f),
    }
}

fn scan_input_value(
    v: &JsonValue,
    depth: usize,
    pointer: &str,
    nodes: &mut usize,
    members: &mut usize,
    l: InputLimits,
) -> (r: Result<(), InputLimitError>)
    requires
        is_pointer_text(pointer@),
    ensures
        match input_scan(v@, depth as nat, pointer@, *old(nodes) as nat, *old(members) as nat, l) {
            Ok((n, m)) => r is Ok && *final(nodes) == n && *final(members) == m,
            Err(f) => r matches Err(e) && e@ == f,
        },
    decreases v,
{
    let ghost total = input_scan(v@, depth as nat, pointer@, *nodes as nat, *members as nat, l);
    *nodes = (*nodes).saturating_add(1);
    if depth > l.depth {
        return Err(input_error(InputDimension::Depth, l.depth, depth, pointer.to_owned()));
    }
    if *nodes > l.nodes {
        return Err(input_error(InputDimension::Nodes, l.nodes, *nodes, pointer.to_owned()));
    }
    match v {
        JsonValue::Array(items) => {
            if items.len() > l.collection_length {
                return Err(input_error(InputDimension::CollectionLength, l.collection_length, items.len(), pointer.to_owned()));
            }
            let ghost data = v@->Array_0;
            let mut i: usize = 0;
            while i < items.len()
                invariant
                    *v == JsonValue::Array(*items),
                    data == v@->Array_0,
                    i <= items.len(),
                    depth <= l.depth,
                    is_pointer_text(pointer@),
                    total == input_scan(v@, depth as nat, pointer@, *old(nodes) as nat, *old(members) as nat, l),
                    total == input_scan_items(data, i as int, depth as nat, pointer@, *nodes as nat, *members as nat, l),
                decreases items.len() - i,
            {
                proof {
                    vstd::std_specs::vec::axiom_vec_index_decreases(*items, i as int);
                    assert(decreases_to!(*v => (*v)->Array_0));
                }
                let at = append_index(pointer, i);
                proof {
                    lemma_append_index_valid(pointer@, i as nat);
                }
                match scan_input_value(&items[i], depth.saturating_add(1), at.as_str(), nodes, members, l) {
                    Err(e) => return Err(e),
                    Ok(()) => {},
                }
                i += 1;
            }
            Ok(())
        },
        JsonValue::Object(entries) => {
            *members = (*members).saturating_add(entries.len());
            if *members > l.members {
                return Err(input_error(InputDimension::Members, l.members, *members, pointer.to_owned()));
            }
            if entries.len() > l.collection_length {
                return Err(input_error(InputDimension::CollectionLength, l.collection_length, entries.len(), pointer.to_owned()));
            }
            let ghost data = v@->Object_0;
            let mut i: usize = 0;
            while i < entries.len()
                invariant
                    *v == JsonValue::Object(*entries),
                    data == v@->Object_0,
                    i <= entries.len(),
                    depth <= l.depth,
                    is_pointer_text(pointer@),
                    total == input_scan(v@, depth as nat, pointer@, *old(nodes) as nat, *old(members) as nat, l),
                    total == input_scan_entries(data, i as int, depth as nat, pointer@, *nodes as nat, *members as nat, l),
                decreases entries.len() - i,
            {
                proof {
                    vstd::std_specs::vec::axiom_vec_index_decreases(*entries, i as int);
                    assert(decreases_to!(*v => (*v)->Object_0));
                    assert(decreases_to!(entries@[i as int] => entries@[i as int].1));
                }
                let key = entries[i].0.as_str();
                let at = append_token(pointer, key);
                proof {
                    lemma_append_token_valid(pointer@, key@);
                }
                let key_bytes = text_len(key);
                if key_bytes > l.scalar_bytes {
                    return Err(input_error(InputDimension::ScalarBytes, l.scalar_bytes, key_bytes, at));
                }
                match scan_input_value(&entries[i].1, depth.saturating_add(1), at.as_str(), nodes, members, l) {
                    Err(e) => return Err(e),
                    Ok(()) => {},
                }
                i += 1;
            }
            Ok(())
        },
        _ => {
            let width: usize = match v {
                JsonValue::Null => 4,
                JsonValue::Bool(b) => if *b { 4 } else { 5 },
                JsonValue::Number(n) => text_len(n.as_str()),
                JsonValue::String(s) => text_len(s.as_str()),
                _ => 0,
            };
            if width > l.scalar_bytes {
                return Err(input_error(InputDimension::ScalarBytes, l.scalar_bytes, width, pointer.to_owned()));
            }
            Ok(())
        },
    }
}

/// Bounds a parsed input value: depth, node count, member count, collection
/// length, and scalar bytes, reporting the first violation in pre-order with
/// the pointer of the offending value (or member name).
pub fn check_input_value(value: &JsonValue, limits: InputLimits) -> (r: Result<(), InputLimitError>)
    ensures
        input_outcome(r) == spec_check_input_value(value@, limits),
{
    let mut nodes: usize = 0;
    let mut members: usize = 0;
    let root = String::new();
    scan_input_value(value, 0, root.as_str(), &mut nodes, &mut members, limits)
}

} // verus!
