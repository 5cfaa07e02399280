use vstd::prelude::*;

use crate::address::{
    RetrievalUri, append_index, append_index_spec, append_token, append_token_spec, is_pointer_text,
    lemma_append_index_valid, lemma_append_token_valid,
};
use crate::limits::{
    byte_len, sat_add, CompilationLimitDimension, CompilationLimitError, CompilationLimitFailure,
    CompilationLimitPhase, DataSchemaLimits,
};
use crate::profile::CompilationProfile;
use crate::value::{find_member, member_index, JsonData, JsonValue};

verus! {

/// Structural measurements of a schema document, each maximum with the
/// pointer where it was first reached.
pub struct ValueMetrics {
    pub tokens: usize,
    pub depth: usize,
    pub depth_pointer: String,
    pub nodes: usize,
    pub members: usize,
    pub members_pointer: String,
    pub scalar_bytes: usize,
    pub scalar_pointer: String,
    pub pointer_bytes: usize,
    pub pointer: String,
}

/// The content of value metrics.
pub struct MetricsData {
    pub tokens: nat,
    pub depth: nat,
    pub depth_pointer: Seq<char>,
    pub nodes: nat,
    pub members: nat,
    pub members_pointer: Seq<char>,
    pub scalar_bytes: nat,
    pub scalar_pointer: Seq<char>,
    pub pointer_bytes: nat,
    pub pointer: Seq<char>,
}

impl View for ValueMetrics {
    type V = MetricsData;

    open spec fn view(&self) -> MetricsData {
        MetricsData {
            tokens: self.tokens as nat,
            depth: self.depth as nat,
            depth_pointer: self.depth_pointer@,
            nodes: self.nodes as nat,
            members: self.members as nat,
            members_pointer: self.members_pointer@,
            scalar_bytes: self.scalar_bytes as nat,
            scalar_pointer: self.scalar_pointer@,
            pointer_bytes: self.pointer_bytes as nat,
            pointer: self.pointer@,
        }
    }
}

/// Metrics of nothing yet measured.
pub open spec fn zero_metrics() -> MetricsData {
    MetricsData {
        tokens: 0,
        depth: 0,
        depth_pointer: Seq::empty(),
        nodes: 0,
        members: 0,
        members_pointer: Seq::empty(),
        scalar_bytes: 0,
        scalar_pointer: Seq::empty(),
        pointer_bytes: 0,
        pointer: Seq::empty(),
    }
}

/// Every recorded pointer is a JSON Pointer.
pub open spec fn metrics_pointers_valid(m: MetricsData) -> bool {
    is_pointer_text(m.depth_pointer) && is_pointer_text(m.members_pointer) && is_pointer_text(m.scalar_pointer)
        && is_pointer_text(m.pointer)
}

/// Records a scalar of `bytes` bytes at `pointer` when it is the largest so far.
pub open spec fn record_scalar(m: MetricsData, bytes: nat, pointer: Seq<char>) -> MetricsData {
    if bytes > m.scalar_bytes {
        MetricsData { scalar_bytes: bytes, scalar_pointer: pointer, ..m }
    } else {
        m
    }
}

/// Records a collection of `length` members at `pointer` when it is the largest so far.
pub open spec fn record_members(m: MetricsData, length: nat, pointer: Seq<char>) -> MetricsData {
    if length > m.members {
        MetricsData { members: length, members_pointer: pointer, ..m }
    } else {
        m
    }
}

/// The measurement of one value on entry: a node and a token, a new maximum
/// depth, a new longest pointer. The flag is set when the depth exceeds
/// `depth_limit`, which ends the whole measurement.
pub open spec fn enter_value(m: MetricsData, depth: nat, pointer: Seq<char>, depth_limit: nat) -> (MetricsData, bool) {
    let m1 = MetricsData { nodes: sat_add(m.nodes, 1), tokens: sat_add(m.tokens, 1), ..m };
    if depth > m1.depth && depth > depth_limit {
        (MetricsData { depth, depth_pointer: pointer, ..m1 }, true)
    } else {
        let m2 = if depth > m1.depth {
            MetricsData { depth, depth_pointer: pointer, ..m1 }
        } else {
            m1
        };
        let plen = byte_len(pointer) as nat;
        (if plen > m2.pointer_bytes {
            MetricsData { pointer_bytes: plen, pointer, ..m2 }
        } else {
            m2
        }, false)
    }
}

/// The pre-order measurement of a schema value at `depth` and `pointer`,
/// continuing from `m`; the flag reports that the depth limit stopped it.
pub open spec fn measure(v: JsonData, depth: nat, pointer: Seq<char>, m: MetricsData, depth_limit: nat) -> (MetricsData, bool)
    decreases v, 0int,
{
    let (m1, stop) = enter_value(m, depth, pointer, depth_limit);
    if stop {
        (m1, true)
    } else {
        match v {
            JsonData::Object(entries) => {
                let m2 = record_members(MetricsData { tokens: sat_add(m1.tokens, entries.len()), ..m1 }, entries.len(), pointer);
                measure_entries(entries, 0, depth, pointer, m2, depth_limit)
            },
            JsonData::Array(items) => measure_items(items, 0, depth, pointer, record_members(m1, items.len(), pointer), depth_limit),
            JsonData::Null => (record_scalar(m1, 4, pointer), false),
            JsonData::Bool(b) => (record_scalar(m1, if b { 4 } else { 5 }, pointer), false),
            JsonData::Number(t) => (record_scalar(m1, byte_len(t) as nat, pointer), false),
            JsonData::String(s) => (record_scalar(m1, byte_len(s) as nat, pointer), false),
        }
    }
}

/// The measurement of array items from position `i` on.
pub open spec fn measure_items(items: Seq<JsonData>, i: int, depth: nat, pointer: Seq<char>, m: MetricsData, depth_limit: nat) -> (MetricsData, bool)
    decreases items, items.len() - i,
{
    if i < 0 || i >= items.len() {
        (m, false)
    } else {
        let (m1, stop) = measure(items[i], sat_add(depth, 1), append_index_spec(pointer, i as nat), m, depth_limit);
        if stop {
            (m1, true)
        } else {
            measure_items(items, i + 1, depth, pointer, m1, depth_limit)
        }
    }
}

/// The measurement of object members from position `i` on: the member name
/// as a scalar at the member's pointer, then the member's value.
pub open spec fn measure_entries(entries: Seq<(Seq<char>, JsonData)>, i: int, depth: nat, pointer: Seq<char>, m: MetricsData, depth_limit: nat) -> (MetricsData, bool)
    decreases entries, entries.len() - i,
{
    if i < 0 || i >= entries.len() {
        (m, false)
    } else {
        let at = append_token_spec(pointer, entries[i].0);
        let m1 = record_scalar(m, byte_len(entries[i].0) as nat, at);
        proof {
            assert(decreases_to!(entries => entries[i]));
            assert(decreases_to!(entries[i] => entries[i].1));
        }
        let (m2, stop) = measure(entries[i].1, sat_add(depth, 1), at, m1, depth_limit);
        if stop {
            (m2, true)
        } else {
            measure_entries(entries, i + 1, depth, pointer, m2, depth_limit)
        }
    }
}

/// The metrics of a whole schema document.
pub open spec fn spec_value_metrics(v: JsonData, depth_limit: nat) -> MetricsData {
    measure(v, 0, Seq::empty(), zero_metrics(), depth_limit).0
}

fn record_scalar_metric(m: &mut ValueMetrics, bytes: usize, pointer: &str)
    ensures
        final(m)@ == record_scalar(old(m)@, bytes as nat, pointer@),
{
    if bytes > m.scalar_bytes {
        m.scalar_bytes = bytes;
        m.scalar_pointer = pointer.to_owned();
    }
}

fn record_members_metric(m: &mut ValueMetrics, length: usize, pointer: &str)
    ensures
        final(m)@ == record_members(old(m)@, length as nat, pointer@),
{
    if length > m.members {
        m.members = length;
        m.members_pointer = pointer.to_owned();
    }
}

fn measure_value(v: &JsonValue, depth: usize, pointer: &str, m: &mut ValueMetrics, depth_limit: usize) -> (stop: bool)
    requires
        is_pointer_text(pointer@),
        metrics_pointers_valid(old(m)@),
    ensures
        (final(m)@, stop) == measure(v@, depth as nat, pointer@, old(m)@, depth_limit as nat),
        metrics_pointers_valid(final(m)@),
    decreases v,
{
    let ghost total = measure(v@, depth as nat, pointer@, m@, depth_limit as nat);
    m.nodes = m.nodes.saturating_add(1);
    m.tokens = m.tokens.saturating_add(1);
    if depth > m.depth {
        m.depth = depth;
        m.depth_pointer = pointer.to_owned();
        if depth > depth_limit {
            return true;
        }
    }
    let plen = pointer.len();
    if plen > m.pointer_bytes {
        m.pointer_bytes = plen;
        m.pointer = pointer.to_owned();
    }
    match v {
        JsonValue::Object(entries) => {
            m.tokens = m.tokens.saturating_add(entries.len());
            record_members_metric(m, entries.len(), pointer);
            let ghost data = v@->Object_0;
            let mut i: usize = 0;
            while i < entries.len()
                invariant
                    *v == JsonValue::Object(*entries),
                    data == v@->Object_0,
                    i <= entries.len(),
                    is_pointer_text(pointer@),
                    metrics_pointers_valid(m@),
                    total == measure(v@, depth as nat, pointer@, old(m)@, depth_limit as nat),
                    total == measure_entries(data, i as int, depth as nat, pointer@, m@, depth_limit as nat),
                decreases entries.len() - i,
            {
                proof {
                    vstd::std_specs::vec::axiom_vec_index_decreases(*entries, i as int);
                    assert(decreases_to!(*v => (*v)->Object_0));
                    assert(decreases_to!(entries@[i as int] => entries@[i as int].1));
                }
                let key = entries[i].0.as_str();
                let at = append_token(pointer, key);
                proof {
                    lemma_append_token_valid(pointer@, key@);
                }
                record_scalar_metric(m, key.len(), at.as_str());
                if measure_value(&entries[i].1, depth.saturating_add(1), at.as_str(), m, depth_limit) {
                    return true;
                }
                i += 1;
            }
            false
        },
        JsonValue::Array(items) => {
            record_members_metric(m, items.len(), pointer);
            let ghost data = v@->Array_0;
            let mut i: usize = 0;
            while i < items.len()
                invariant
                    *v == JsonValue::Array(*items),
                    data == v@->Array_0,
                    i <= items.len(),
                    is_pointer_text(pointer@),
                    metrics_pointers_valid(m@),
                    total == measure(v@, depth as nat, pointer@, old(m)@, depth_limit as nat),
                    total == measure_items(data, i as int, depth as nat, pointer@, m@, depth_limit as nat),
                decreases items.len() - i,
            {
                proof {
                    vstd::std_specs::vec::axiom_vec_index_decreases(*items, i as int);
                    assert(decreases_to!(*v => (*v)->Array_0));
                }
                let at = append_index(pointer, i);
                proof {
                    lemma_append_index_valid(pointer@, i as nat);
                }
                if measure_value(&items[i], depth.saturating_add(1), at.as_str(), m, depth_limit) {
                    return true;
                }
                i += 1;
            }
            false
        },
        JsonValue::Null => {
            record_scalar_metric(m, 4, pointer);
            false
        },
        JsonValue::Bool(b) => {
            record_scalar_metric(m, if *b { 4 } else { 5 }, pointer);
            false
        },
        JsonValue::Number(n) => {
            record_scalar_metric(m, n.as_str().len(), pointer);
            false
        },
        JsonValue::String(s) => {
            record_scalar_metric(m, s.as_str().len(), pointer);
            false
        },
    }
}

/// Measures a schema document: tokens and nodes, the deepest value, the
/// largest collection, the largest scalar or member name, and the longest
/// pointer, each maximum with the pointer where it was first reached.
/// Measurement stops at the first value deeper than `depth_limit`.
pub fn value_metrics(value: &JsonValue, depth_limit: usize) -> (r: ValueMetrics)
    ensures
        r@ == spec_value_metrics(value@, depth_limit as nat),
        metrics_pointers_valid(r@),
{
    let mut m = ValueMetrics {
        tokens: 0,
        depth: 0,
        depth_pointer: String::new(),
        nodes: 0,
        members: 0,
        members_pointer: String::new(),
        scalar_bytes: 0,
        scalar_pointer: String::new(),
        pointer_bytes: 0,
        pointer: String::new(),
    };
    let root = String::new();
    let _ = measure_value(value, 0, root.as_str(), &mut m, depth_limit);
    m
}

/// A structure-phase failure of `dimension` at `pointer`.
pub open spec fn structure_failure(dimension: CompilationLimitDimension, maximum: usize, observed: nat, pointer: Seq<char>) -> CompilationLimitFailure {
    CompilationLimitFailure { phase: CompilationLimitPhase::Structure, dimension, maximum: maximum as nat, observed, pointer }
}

/// The first structure limit the metrics exceed, in the order depth, nodes,
/// members, scalar bytes, pointer bytes.
pub open spec fn spec_check_structure(m: MetricsData, l: DataSchemaLimits) -> Option<CompilationLimitFailure> {
    if m.depth > l.depth {
        Some(structure_failure(CompilationLimitDimension::Depth, l.depth, m.depth, m.depth_pointer))
    } else if m.nodes > l.nodes {
        Some(structure_failure(CompilationLimitDimension::Nodes, l.nodes, m.nodes, Seq::empty()))
    } else if m.members > l.members {
        Some(structure_failure(CompilationLimitDimension::Members, l.members, m.members, m.members_pointer))
    } else if m.scalar_bytes > l.scalar_bytes {
        Some(structure_failure(CompilationLimitDimension::ScalarBytes, l.scalar_bytes, m.scalar_bytes, m.scalar_pointer))
    } else if m.pointer_bytes > l.pointer_bytes {
        Some(structure_failure(CompilationLimitDimension::PointerBytes, l.pointer_bytes, m.pointer_bytes, m.pointer))
    } else {
        None
    }
}

/// The outcome of a limit check as an optional failure.
pub open spec fn limit_outcome(r: Result<(), CompilationLimitError>) -> Option<CompilationLimitFailure> {
    match r {
        Ok(()) => None,
        Err(e) => Some(e@),
    }
}

/// Checks measured metrics against the structure limits (see [`spec_check_structure`]).
pub fn check_structure_metrics(metrics: &ValueMetrics, limits: DataSchemaLimits) -> (r: Result<(), CompilationLimitError>)
    requires
        metrics_pointers_valid(metrics@),
    ensures
        limit_outcome(r) == spec_check_structure(metrics@, limits),
{
    if metrics.depth > limits.depth {
        return Err(CompilationLimitError::new(CompilationLimitPhase::Structure, CompilationLimitDimension::Depth, limits.depth, metrics.depth, metrics.depth_pointer.clone()));
    }
    if metrics.nodes > limits.nodes {
        return Err(CompilationLimitError::new(CompilationLimitPhase::Structure, CompilationLimitDimension::Nodes, limits.nodes, metrics.nodes, String::new()));
    }
    if metrics.members > limits.members {
        return Err(CompilationLimitError::new(CompilationLimitPhase::Structure, CompilationLimitDimension::Members, limits.members, metrics.members, metrics.members_pointer.clone()));
    }
    if metrics.scalar_bytes > limits.scalar_bytes {
        return Err(CompilationLimitError::new(CompilationLimitPhase::Structure, CompilationLimitDimension::ScalarBytes, limits.scalar_bytes, metrics.scalar_bytes, metrics.scalar_pointer.clone()));
    }
    if metrics.pointer_bytes > limits.pointer_bytes {
        return Err(CompilationLimitError::new(CompilationLimitPhase::Structure, CompilationLimitDimension::PointerBytes, limits.pointer_bytes, metrics.pointer_bytes, metrics.pointer.clone()));
    }
    Ok(())
}

/// What `referencing` makes of an absolute URI text: `Uri::parse`, then
/// `normalize`, rendered as text; `None` when parsing fails.
pub uninterp spec fn normalized_uri(text: Seq<char>) -> Option<Seq<char>>;

/// What `referencing::uri::resolve_against` makes of `reference` against the
/// base URI `base` (itself read with `Uri::parse`), normalized and rendered as
/// text; `None` when either step fails.
pub uninterp spec fn resolved_reference(base: Seq<char>, reference: Seq<char>) -> Option<Seq<char>>;

/// `referencing::Uri::parse(text)`, then `normalize()` and `to_string()`.
/// The contract names the result and claims nothing else of it.
#[verifier::external_body]
fn normalize_uri(text: &str) -> (r: Option<String>)
    ensures
        r.deep_view() == normalized_uri(text@),
{
    match referencing::Uri::parse(text.to_owned()) {
        Ok(uri) => Some(uri.normalize().to_string()),
        Err(_) => None,
    }
}

/// `referencing::Uri::parse(base)`, then
/// `referencing::uri::resolve_against(&base.borrow(), reference)`, then
/// `normalize()` and `to_string()`. The contract names the result and
/// claims nothing else of it.
#[verifier::external_body]
fn resolve_reference(base: &str, reference: &str) -> (r: Option<String>)
    ensures
        r.deep_view() == resolved_reference(base@, reference@),
{
    let base = match referencing::Uri::parse(base.to_owned()) {
        Ok(base) => base,
        Err(_) => return None,
    };
    match referencing::uri::resolve_against(&base.borrow(), reference) {
        Ok(uri) => Some(uri.normalize().to_string()),
        Err(_) => None,
    }
}

/// A reference resolved against a base URI; an empty base means the
/// reference must itself be an absolute URI.
pub open spec fn resolve_spec(base: Seq<char>, reference: Seq<char>) -> Option<Seq<char>> {
    if base.len() == 0 {
        normalized_uri(reference)
    } else {
        resolved_reference(base, reference)
    }
}

/// Resolves `reference` against `base` (see [`resolve_spec`]).
pub fn resolve_uri(base: &str, reference: &str) -> (r: Option<String>)
    ensures
        r.deep_view() == resolve_spec(base@, reference@),
{
    if base.is_empty() {
        normalize_uri(reference)
    } else {
        resolve_reference(base, reference)
    }
}

/// Counts gathered over a schema graph: resources, references, visits, and
/// the longest URI met.
#[derive(Debug, Clone, Copy, PartialEq, Eq, Structural)]
pub struct GraphCounts {
    pub resources: usize,
    pub references: usize,
    pub traversal: usize,
    pub max_uri: usize,
}

/// `a + b`, saturating at `usize::MAX`.
pub open spec fn sat(a: usize, b: usize) -> usize {
    if a + b > usize::MAX {
        usize::MAX
    } else {
        (a + b) as usize
    }
}

/// The larger of two counts.
pub open spec fn larger(a: usize, b: usize) -> usize {
    if b > a {
        b
    } else {
        a
    }
}

/// The string value of member `key`, when there is one.
pub open spec fn string_member(entries: Seq<(Seq<char>, JsonData)>, key: Seq<char>) -> Option<Seq<char>> {
    let k = member_index(entries, key);
    if k >= 0 && entries[k].1 is String {
        Some(entries[k].1->String_0)
    } else {
        None
    }
}

/// The base URI in force inside a schema object: its `$id` resolved against
/// the inherited base, or the inherited base when there is no `$id` or it
/// does not resolve.
pub open spec fn node_base(entries: Seq<(Seq<char>, JsonData)>, inherited: Seq<char>) -> Seq<char> {
    match string_member(entries, "$id"@) {
        Some(id) => match resolve_spec(inherited, id) {
            Some(r) => r,
            None => inherited,
        },
        None => inherited,
    }
}

/// The longest URI after accounting for keyword `key`: its text, and when
/// `resolves` also its resolution against `base`.
pub open spec fn keyword_uri(entries: Seq<(Seq<char>, JsonData)>, key: Seq<char>, base: Seq<char>, resolves: bool, m: usize) -> usize {
    match string_member(entries, key) {
        None => m,
        Some(text) => {
            let m1 = larger(m, byte_len(text));
            if resolves {
                match resolve_spec(base, text) {
                    Some(r) => larger(m1, byte_len(r)),
                    None => m1,
                }
            } else {
                m1
            }
        },
    }
}

/// The longest member name.
pub open spec fn longest_name(members: Seq<(Seq<char>, JsonData)>) -> usize
    decreases members.len(),
{
    if members.len() == 0 {
        0
    } else {
        larger(longest_name(members.drop_last()), byte_len(members.last().0))
    }
}

/// The longest URI after accounting for the `$vocabulary` URIs.
pub open spec fn vocabulary_uri(entries: Seq<(Seq<char>, JsonData)>, m: usize) -> usize {
    let k = member_index(entries, "$vocabulary"@);
    if k >= 0 && entries[k].1 is Object {
        larger(m, longest_name(entries[k].1->Object_0))
    } else {
        m
    }
}

/// The longest URI after accounting for the anchor keyword `key` (`base#anchor`).
pub open spec fn anchor_uri(entries: Seq<(Seq<char>, JsonData)>, key: Seq<char>, base: Seq<char>, m: usize) -> usize {
    match string_member(entries, key) {
        Some(anchor) => larger(m, sat(sat(byte_len(base), byte_len(anchor)), 1)),
        None => m,
    }
}

/// How many of `$ref` and `$dynamicRef` hold strings.
pub open spec fn reference_count(entries: Seq<(Seq<char>, JsonData)>) -> usize {
    ((if string_member(entries, "$ref"@) is Some { 1int } else { 0 }) + (if string_member(entries, "$dynamicRef"@) is Some { 1int } else { 0 })) as usize
}

/// The counts after a schema object's own keywords: a new resource for a
/// nested `$id`, its references (each also a visit), and the longest URI
/// among its base, `$schema`, `$id`, references and their resolutions,
/// vocabulary URIs and anchors.
pub open spec fn own_counts(entries: Seq<(Seq<char>, JsonData)>, is_root: bool, inherited: Seq<char>, c: GraphCounts) -> GraphCounts {
    let base = node_base(entries, inherited);
    let resources = if !is_root && string_member(entries, "$id"@) is Some { sat(c.resources, 1) } else { c.resources };
    let m0 = larger(c.max_uri, byte_len(base));
    let m1 = keyword_uri(entries, "$schema"@, base, false, m0);
    let m2 = keyword_uri(entries, "$id"@, base, false, m1);
    let m3 = keyword_uri(entries, "$ref"@, base, true, m2);
    let m4 = keyword_uri(entries, "$dynamicRef"@, base, true, m3);
    let m5 = vocabulary_uri(entries, m4);
    let m6 = anchor_uri(entries, "$anchor"@, base, m5);
    let m7 = anchor_uri(entries, "$dynamicAnchor"@, base, m6);
    let refs = reference_count(entries);
    GraphCounts { resources, references: sat(c.references, refs), traversal: sat(c.traversal, refs), max_uri: m7 }
}

/// The keywords whose values hold subschemas: one subschema (positions 0 to
/// 10), an array of them (11 to 14), or an object of them (15 to 19).
pub open spec fn child_keyword(i: int) -> Seq<char> {
    if i == 0 {
        "additionalProperties"@
    } else
    if i == 1 {
        "contains"@
    } else
    if i == 2 {
        "contentSchema"@
    } else
    if i == 3 {
        "else"@
    } else
    if i == 4 {
        "if"@
    } else
    if i == 5 {
        "items"@
    } else
    if i == 6 {
        "not"@
    } else
    if i == 7 {
        "propertyNames"@
    } else
    if i == 8 {
        "then"@
    } else
    if i == 9 {
        "unevaluatedItems"@
    } else
    if i == 10 {
        "unevaluatedProperties"@
    } else
    if i == 11 {
        "allOf"@
    } else
    if i == 12 {
        "anyOf"@
    } else
    if i == 13 {
        "oneOf"@
    } else
    if i == 14 {
        "prefixItems"@
    } else
    if i == 15 {
        "$defs"@
    } else
    if i == 16 {
        "definitions"@
    } else
    if i == 17 {
        "dependentSchemas"@
    } else
    if i == 18 {
        "patternProperties"@
    } else
    if i == 19 {
        "properties"@
    } else {
        Seq::empty()
    }
}

fn child_keyword_text(i: usize) -> (r: &'static str)
    requires
        i < 20,
    ensures
        r@ == child_keyword(i as int),
{
    if i == 0 {
        "additionalProperties"
    } else
    if i == 1 {
        "contains"
    } else
    if i == 2 {
        "contentSchema"
    } else
    if i == 3 {
        "else"
    } else
    if i == 4 {
        "if"
    } else
    if i == 5 {
        "items"
    } else
    if i == 6 {
        "not"
    } else
    if i == 7 {
        "propertyNames"
    } else
    if i == 8 {
        "then"
    } else
    if i == 9 {
        "unevaluatedItems"
    } else
    if i == 10 {
        "unevaluatedProperties"
    } else
    if i == 11 {
        "allOf"
    } else
    if i == 12 {
        "anyOf"
    } else
    if i == 13 {
        "oneOf"
    } else
    if i == 14 {
        "prefixItems"
    } else
    if i == 15 {
        "$defs"
    } else
    if i == 16 {
        "definitions"
    } else
    if i == 17 {
        "dependentSchemas"
    } else
    if i == 18 {
        "patternProperties"
    } else
    if i == 19 {
        "properties"
    } else {
        ""
    }
}

/// The counts after visiting a schema value with the inherited base URI.
pub open spec fn graph_node(v: JsonData, is_root: bool, inherited: Seq<char>, c: GraphCounts) -> GraphCounts
    decreases v, 21int,
{
    let c0 = GraphCounts { traversal: sat(c.traversal, 1), ..c };
    match v {
        JsonData::Object(entries) => graph_children(entries, 0, node_base(entries, inherited), own_counts(entries, is_root, inherited, c0)),
        _ => c0,
    }
}

/// The counts after visiting the subschemas of keywords `i` onward.
pub open spec fn graph_children(entries: Seq<(Seq<char>, JsonData)>, i: int, base: Seq<char>, c: GraphCounts) -> GraphCounts
    decreases entries, 20 - i,
{
    if i < 0 || i >= 20 {
        c
    } else {
        let k = member_index(entries, child_keyword(i));
        let c1 = if k < 0 || k >= entries.len() {
            c
        } else {
            proof {
                assert(decreases_to!(entries => entries[k]));
                assert(decreases_to!(entries[k] => entries[k].1));
            }
            if i < 11 {
                graph_node(entries[k].1, false, base, c)
            } else if i < 15 {
                match entries[k].1 {
                    JsonData::Array(items) => graph_items(items, 0, base, c),
                    _ => c,
                }
            } else {
                match entries[k].1 {
                    JsonData::Object(members) => graph_members(members, 0, base, c),
                    _ => c,
                }
            }
        };
        graph_children(entries, i + 1, base, c1)
    }
}

/// The counts after visiting the subschemas of an array from position `j` on.
pub open spec fn graph_items(items: Seq<JsonData>, j: int, base: Seq<char>, c: GraphCounts) -> GraphCounts
    decreases items, items.len() - j,
{
    if j < 0 || j >= items.len() {
        c
    } else {
        graph_items(items, j + 1, base, graph_node(items[j], false, base, c))
    }
}

/// The counts after visiting the subschemas of an object from position `j` on.
pub open spec fn graph_members(members: Seq<(Seq<char>, JsonData)>, j: int, base: Seq<char>, c: GraphCounts) -> GraphCounts
    decreases members, members.len() - j,
{
    if j < 0 || j >= members.len() {
        c
    } else {
        proof {
            assert(decreases_to!(members => members[j]));
            assert(decreases_to!(members[j] => members[j].1));
        }
        graph_members(members, j + 1, base, graph_node(members[j].1, false, base, c))
    }
}

/// The graph counts of one schema document retrieved from `retrieval_uri`
/// (or of unknown origin): one resource to start, plus nested identities.
pub open spec fn spec_graph_metrics(document: JsonData, retrieval_uri: Option<Seq<char>>) -> GraphCounts {
    let base = match retrieval_uri {
        Some(u) => u,
        None => Seq::empty(),
    };
    let start = GraphCounts {
        resources: 1,
        references: 0,
        traversal: 0,
        max_uri: match retrieval_uri {
            Some(u) => byte_len(u),
            None => 0,
        },
    };
    graph_node(document, true, base, start)
}

fn string_member_of<'a>(entries: &'a Vec<(String, JsonValue)>, key: &str) -> (r: Option<&'a str>)
    ensures
        match string_member(JsonValue::Object(*entries)@->Object_0, key@) {
            Some(t) => r matches Some(x) && x@ == t,
            None => r is None,
        },
{
    let ghost data = JsonValue::Object(*entries)@->Object_0;
    match find_member(entries, key) {
        Some(k) => {
            assert(data[k as int].1 == entries@[k as int].1@);
            match &entries[k].1 {
                JsonValue::String(s) => Some(s.as_str()),
                _ => None,
            }
        },
        None => None,
    }
}

fn larger_of(a: usize, b: usize) -> (r: usize)
    ensures
        r == larger(a, b),
{
    if b > a { b } else { a }
}

fn base_for(entries: &Vec<(String, JsonValue)>, inherited: &str) -> (base: String)
    ensures
        base@ == node_base(JsonValue::Object(*entries)@->Object_0, inherited@),
{
    match string_member_of(entries, "$id") {
        Some(identity) => match resolve_uri(inherited, identity) {
            Some(resolved) => resolved,
            None => inherited.to_owned(),
        },
        None => inherited.to_owned(),
    }
}

fn keyword_uri_of(entries: &Vec<(String, JsonValue)>, key: &str, base: &str, resolves: bool, m: usize) -> (r: usize)
    ensures
        r == keyword_uri(JsonValue::Object(*entries)@->Object_0, key@, base@, resolves, m),
{
    match string_member_of(entries, key) {
        None => m,
        Some(text) => {
            let m1 = larger_of(m, text.len());
            if resolves {
                match resolve_uri(base, text) {
                    Some(resolved) => larger_of(m1, resolved.as_str().len()),
                    None => m1,
                }
            } else {
                m1
            }
        },
    }
}

fn vocabulary_uri_of(entries: &Vec<(String, JsonValue)>, m: usize) -> (r: usize)
    ensures
        r == vocabulary_uri(JsonValue::Object(*entries)@->Object_0, m),
{
    let ghost data = JsonValue::Object(*entries)@->Object_0;
    match find_member(entries, "$vocabulary") {
        Some(k) => {
            assert(data[k as int].1 == entries@[k as int].1@);
            match &entries[k].1 {
                JsonValue::Object(members) => larger_of(m, longest_member_name(members)),
                _ => m,
            }
        },
        None => m,
    }
}

fn anchor_uri_of(entries: &Vec<(String, JsonValue)>, key: &str, base: &str, m: usize) -> (r: usize)
    ensures
        r == anchor_uri(JsonValue::Object(*entries)@->Object_0, key@, base@, m),
{
    match string_member_of(entries, key) {
        Some(anchor) => larger_of(m, base.len().saturating_add(anchor.len()).saturating_add(1)),
        None => m,
    }
}

fn own_keywords(entries: &Vec<(String, JsonValue)>, is_root: bool, inherited: &str, c: &mut GraphCounts) -> (base: String)
    ensures
        base@ == node_base(JsonValue::Object(*entries)@->Object_0, inherited@),
        *final(c) == own_counts(JsonValue::Object(*entries)@->Object_0, is_root, inherited@, *old(c)),
{
    let base = base_for(entries, inherited);
    if !is_root && string_member_of(entries, "$id").is_some() {
        c.resources = c.resources.saturating_add(1);
    }
    let b = base.as_str();
    let m0 = larger_of(c.max_uri, b.len());
    let m1 = keyword_uri_of(entries, "$schema", b, false, m0);
    let m2 = keyword_uri_of(entries, "$id", b, false, m1);
    let m3 = keyword_uri_of(entries, "$ref", b, true, m2);
    let m4 = keyword_uri_of(entries, "$dynamicRef", b, true, m3);
    let m5 = vocabulary_uri_of(entries, m4);
    let m6 = anchor_uri_of(entries, "$anchor", b, m5);
    let m7 = anchor_uri_of(entries, "$dynamicAnchor", b, m6);
    let refs: usize = (if string_member_of(entries, "$ref").is_some() { 1 } else { 0 })
        + (if string_member_of(entries, "$dynamicRef").is_some() { 1 } else { 0 });
    c.max_uri = m7;
    c.references = c.references.saturating_add(refs);
    c.traversal = c.traversal.saturating_add(refs);
    base
}

fn longest_member_name(members: &Vec<(String, JsonValue)>) -> (r: usize)
    ensures
        r == longest_name(JsonValue::Object(*members)@->Object_0),
{
    let ghost data = JsonValue::Object(*members)@->Object_0;
    let mut best: usize = 0;
    let mut i: usize = 0;
    while i < members.len()
        invariant
            data == JsonValue::Object(*members)@->Object_0,
            i <= members.len(),
            best == longest_name(data.take(i as int)),
        decreases members.len() - i,
    {
        assert(data.take(i + 1).drop_last() =~= data.take(i as int));
        assert(data.take(i + 1).last().0 == members@[i as int].0@);
        best = larger_of(best, members[i].0.as_str().len());
        i += 1;
    }
    assert(data.take(members.len() as int) =~= data);
    best
}

fn graph_visit(v: &JsonValue, is_root: bool, inherited: &str, c: &mut GraphCounts)
    ensures
        *final(c) == graph_node(v@, is_root, inherited@, *old(c)),
    decreases v, 21int,
{
    c.traversal = c.traversal.saturating_add(1);
    match v {
        JsonValue::Object(entries) => {
            let base = own_keywords(entries, is_root, inherited, c);
            let ghost data = v@->Object_0;
            let ghost total = graph_node(v@, is_root, inherited@, *old(c));
            let mut i: usize = 0;
            while i < 20
                invariant
                    *v == JsonValue::Object(*entries),
                    data == v@->Object_0,
                    base@ == node_base(data, inherited@),
                    i <= 20,
                    total == graph_node(v@, is_root, inherited@, *old(c)),
                    total == graph_children(data, i as int, base@, *c),
                decreases 20 - i,
            {
                let keyword = child_keyword_text(i);
                match find_member(entries, keyword) {
                    Some(k) => {
                        proof {
                            vstd::std_specs::vec::axiom_vec_index_decreases(*entries, k as int);
                            assert(decreases_to!(*v => (*v)->Object_0));
                            assert(decreases_to!(entries@[k as int] => entries@[k as int].1));
                        }
                        assert(data[k as int].1 == entries@[k as int].1@);
                        let child = &entries[k].1;
                        if i < 11 {
                            graph_visit(child, false, base.as_str(), c);
                        } else if i < 15 {
                            match child {
                                JsonValue::Array(items) => {
                                    proof {
                                        assert(decreases_to!(*child => (*child)->Array_0));
                                    }
                                    graph_visit_items(items, base.as_str(), c);
                                },
                                _ => {},
                            }
                        } else {
                            match child {
                                JsonValue::Object(members) => {
                                    proof {
                                        assert(decreases_to!(*child => (*child)->Object_0));
                                    }
                                    graph_visit_members(members, base.as_str(), c);
                                },
                                _ => {},
                            }
                        }
                    },
                    None => {},
                }
                i += 1;
            }
        },
        _ => {},
    }
}

fn graph_visit_items(items: &Vec<JsonValue>, base: &str, c: &mut GraphCounts)
    ensures
        *final(c) == graph_items(JsonValue::Array(*items)@->Array_0, 0, base@, *old(c)),
    decreases items, 20int,
{
    let ghost data = JsonValue::Array(*items)@->Array_0;
    let ghost total = graph_items(data, 0, base@, *c);
    let mut j: usize = 0;
    while j < items.len()
        invariant
            data == JsonValue::Array(*items)@->Array_0,
            j <= items.len(),
            total == graph_items(data, 0, base@, *old(c)),
            total == graph_items(data, j as int, base@, *c),
        decreases items.len() - j,
    {
        proof {
            vstd::std_specs::vec::axiom_vec_index_decreases(*items, j as int);
        }
        assert(data[j as int] == items@[j as int]@);
        graph_visit(&items[j], false, base, c);
        j += 1;
    }
}

fn graph_visit_members(members: &Vec<(String, JsonValue)>, base: &str, c: &mut GraphCounts)
    ensures
        *final(c) == graph_members(JsonValue::Object(*members)@->Object_0, 0, base@, *old(c)),
    decreases members, 20int,
{
    let ghost data = JsonValue::Object(*members)@->Object_0;
    let ghost total = graph_members(data, 0, base@, *c);
    let mut j: usize = 0;
    while j < members.len()
        invariant
            data == JsonValue::Object(*members)@->Object_0,
            j <= members.len(),
            total == graph_members(data, 0, base@, *old(c)),
            total == graph_members(data, j as int, base@, *c),
        decreases members.len() - j,
    {
        proof {
            vstd::std_specs::vec::axiom_vec_index_decreases(*members, j as int);
            assert(decreases_to!(members@[j as int] => members@[j as int].1));
        }
        assert(data[j as int].1 == members@[j as int].1@);
        graph_visit(&members[j].1, false, base, c);
        j += 1;
    }
}

/// Counts resources, references, visits and the longest URI over one schema
/// document (see [`spec_graph_metrics`]).
pub fn graph_metrics(document: &JsonValue, retrieval_uri: Option<&str>) -> (r: GraphCounts)
    ensures
        r == spec_graph_metrics(document@, match retrieval_uri {
            Some(u) => Some(u@),
            None => None,
        }),
{
    let base = match retrieval_uri {
        Some(u) => u.to_owned(),
        None => String::new(),
    };
    let mut c = GraphCounts {
        resources: 1,
        references: 0,
        traversal: 0,
        max_uri: match retrieval_uri {
            Some(u) => u.len(),
            None => 0,
        },
    };
    graph_visit(document, true, base.as_str(), &mut c);
    c
}

/// A graph-phase failure of `dimension`.
pub open spec fn graph_failure(dimension: CompilationLimitDimension, maximum: usize, observed: usize) -> CompilationLimitFailure {
    CompilationLimitFailure { phase: CompilationLimitPhase::Graph, dimension, maximum: maximum as nat, observed: observed as nat, pointer: Seq::empty() }
}

/// The first graph limit exceeded, in the order resources, references,
/// traversal, URI bytes.
pub open spec fn spec_check_graph(resources: usize, references: usize, traversal: usize, max_uri: usize, l: DataSchemaLimits) -> Option<CompilationLimitFailure> {
    if resources > l.resources {
        Some(graph_failure(CompilationLimitDimension::Resources, l.resources, resources))
    } else if references > l.references {
        Some(graph_failure(CompilationLimitDimension::References, l.references, references))
    } else if traversal > l.traversal {
        Some(graph_failure(CompilationLimitDimension::Traversal, l.traversal, traversal))
    } else if max_uri > l.uri_bytes {
        Some(graph_failure(CompilationLimitDimension::UriBytes, l.uri_bytes, max_uri))
    } else {
        None
    }
}

/// Checks graph counts against the graph limits (see [`spec_check_graph`]).
pub fn check_graph_metrics(resource_count: usize, reference_count: usize, traversal: usize, max_uri: usize, limits: DataSchemaLimits) -> (r: Result<(), CompilationLimitError>)
    ensures
        limit_outcome(r) == spec_check_graph(resource_count, reference_count, traversal, max_uri, limits),
{
    if resource_count > limits.resources {
        return Err(CompilationLimitError::new(CompilationLimitPhase::Graph, CompilationLimitDimension::Resources, limits.resources, resource_count, String::new()));
    }
    if reference_count > limits.references {
        return Err(CompilationLimitError::new(CompilationLimitPhase::Graph, CompilationLimitDimension::References, limits.references, reference_count, String::new()));
    }
    if traversal > limits.traversal {
        return Err(CompilationLimitError::new(CompilationLimitPhase::Graph, CompilationLimitDimension::Traversal, limits.traversal, traversal, String::new()));
    }
    if max_uri > limits.uri_bytes {
        return Err(CompilationLimitError::new(CompilationLimitPhase::Graph, CompilationLimitDimension::UriBytes, limits.uri_bytes, max_uri, String::new()));
    }
    Ok(())
}

/// The first limit a parsed data schema of `bytes` source bytes exceeds:
/// bytes, tokens, the structure limits, then the graph limits of the
/// document alone.
pub open spec fn spec_check_parsed_schema(bytes: usize, v: JsonData, l: DataSchemaLimits) -> Option<CompilationLimitFailure> {
    let m = spec_value_metrics(v, l.depth as nat);
    let g = spec_graph_metrics(v, None);
    if bytes > l.bytes {
        Some(CompilationLimitFailure { phase: CompilationLimitPhase::Parse, dimension: CompilationLimitDimension::Bytes, maximum: l.bytes as nat, observed: bytes as nat, pointer: Seq::empty() })
    } else if m.tokens > l.tokens {
        Some(CompilationLimitFailure { phase: CompilationLimitPhase::Parse, dimension: CompilationLimitDimension::Tokens, maximum: l.tokens as nat, observed: m.tokens, pointer: Seq::empty() })
    } else if spec_check_structure(m, l) is Some {
        spec_check_structure(m, l)
    } else {
        spec_check_graph(g.resources, g.references, g.traversal, g.max_uri, l)
    }
}

/// Bounds a parsed data schema (see [`spec_check_parsed_schema`]).
pub fn check_parsed_schema(bytes: usize, value: &JsonValue, profile: &CompilationProfile) -> (r: Result<(), CompilationLimitError>)
    ensures
        limit_outcome(r) == spec_check_parsed_schema(bytes, value@, profile.data_schema_limits_spec()),
{
    let limits = profile.data_schema_limits();
    if bytes > limits.bytes {
        return Err(CompilationLimitError::new(CompilationLimitPhase::Parse, CompilationLimitDimension::Bytes, limits.bytes, bytes, String::new()));
    }
    let metrics = value_metrics(value, limits.depth);
    if metrics.tokens > limits.tokens {
        return Err(CompilationLimitError::new(CompilationLimitPhase::Parse, CompilationLimitDimension::Tokens, limits.tokens, metrics.tokens, String::new()));
    }
    match check_structure_metrics(&metrics, limits) {
        Err(e) => return Err(e),
        Ok(()) => {},
    }
    let g = graph_metrics(value, None);
    check_graph_metrics(g.resources, g.references, g.traversal, g.max_uri, limits)
}

/// A definition-phase failure of `dimension`.
pub open spec fn definition_failure(dimension: CompilationLimitDimension, maximum: usize, observed: usize) -> CompilationLimitFailure {
    CompilationLimitFailure { phase: CompilationLimitPhase::Definition, dimension, maximum: maximum as nat, observed: observed as nat, pointer: Seq::empty() }
}

/// Bounds a compiled definition: definition nodes, controls, then capability
/// findings.
pub fn check_compilation_outputs(definition_nodes: usize, controls: usize, capability_findings: usize, profile: &CompilationProfile) -> (r: Result<(), CompilationLimitError>)
    ensures
        limit_outcome(r) == ({
            let l = profile.data_schema_limits_spec();
            if definition_nodes > l.definition_nodes {
                Some(definition_failure(CompilationLimitDimension::DefinitionNodes, l.definition_nodes, definition_nodes))
            } else if controls > l.controls {
                Some(definition_failure(CompilationLimitDimension::Controls, l.controls, controls))
            } else if capability_findings > l.capability_findings {
                Some(definition_failure(CompilationLimitDimension::CapabilityFindings, l.capability_findings, capability_findings))
            } else {
                None
            }
        }),
{
    let limits = profile.data_schema_limits();
    if definition_nodes > limits.definition_nodes {
        return Err(CompilationLimitError::new(CompilationLimitPhase::Definition, CompilationLimitDimension::DefinitionNodes, limits.definition_nodes, definition_nodes, String::new()));
    }
    if controls > limits.controls {
        return Err(CompilationLimitError::new(CompilationLimitPhase::Definition, CompilationLimitDimension::Controls, limits.controls, controls, String::new()));
    }
    if capability_findings > limits.capability_findings {
        return Err(CompilationLimitError::new(CompilationLimitPhase::Definition, CompilationLimitDimension::CapabilityFindings, limits.capability_findings, capability_findings, String::new()));
    }
    Ok(())
}

/// Bounds a qualified schema graph given its (resources, references,
/// traversal, URI bytes, pointer bytes): the traversal bound covers visits
/// and reference hops together.
pub fn check_qualified_graph(metrics: (usize, usize, usize, usize, usize), profile: &CompilationProfile) -> (r: Result<(), CompilationLimitError>)
    ensures
        limit_outcome(r) == ({
            let l = profile.data_schema_limits_spec();
            let (resources, references, traversal, uri_bytes, pointer_bytes) = metrics;
            if resources > l.resources {
                Some(graph_failure(CompilationLimitDimension::Resources, l.resources, resources))
            } else if references > l.references {
                Some(graph_failure(CompilationLimitDimension::References, l.references, references))
            } else if sat(traversal, references) > l.traversal {
                Some(graph_failure(CompilationLimitDimension::Traversal, l.traversal, sat(traversal, references)))
            } else if uri_bytes > l.uri_bytes {
                Some(graph_failure(CompilationLimitDimension::UriBytes, l.uri_bytes, uri_bytes))
            } else if pointer_bytes > l.pointer_bytes {
                Some(graph_failure(CompilationLimitDimension::PointerBytes, l.pointer_bytes, pointer_bytes))
            } else {
                None
            }
        }),
{
    let limits = profile.data_schema_limits();
    let (resources, references, traversal, uri_bytes, pointer_bytes) = metrics;
    if resources > limits.resources {
        return Err(CompilationLimitError::new(CompilationLimitPhase::Graph, CompilationLimitDimension::Resources, limits.resources, resources, String::new()));
    }
    if references > limits.references {
        return Err(CompilationLimitError::new(CompilationLimitPhase::Graph, CompilationLimitDimension::References, limits.references, references, String::new()));
    }
    let visits = traversal.saturating_add(references);
    if visits > limits.traversal {
        return Err(CompilationLimitError::new(CompilationLimitPhase::Graph, CompilationLimitDimension::Traversal, limits.traversal, visits, String::new()));
    }
    if uri_bytes > limits.uri_bytes {
        return Err(CompilationLimitError::new(CompilationLimitPhase::Graph, CompilationLimitDimension::UriBytes, limits.uri_bytes, uri_bytes, String::new()));
    }
    if pointer_bytes > limits.pointer_bytes {
        return Err(CompilationLimitError::new(CompilationLimitPhase::Graph, CompilationLimitDimension::PointerBytes, limits.pointer_bytes, pointer_bytes, String::new()));
    }
    Ok(())
}

/// One caller-supplied schema document and its absolute retrieval identity.
#[derive(Debug)]
pub struct SchemaResource {
    uri: RetrievalUri,
    document: JsonValue,
}

impl View for SchemaResource {
    type V = (Seq<char>, JsonData);

    closed spec fn view(&self) -> (Seq<char>, JsonData) {
        (self.uri@, self.document@)
    }
}

impl SchemaResource {
    /// Associates a parsed schema document with its retrieval URI.
    pub fn new(uri: RetrievalUri, document: JsonValue) -> (r: SchemaResource)
        ensures
            r@ == (uri@, document@),
    {
        SchemaResource { uri, document }
    }

    /// Returns the absolute, fragment-free retrieval URI.
    pub fn uri(&self) -> (r: &RetrievalUri)
        ensures
            r@ == self@.0,
    {
        &self.uri
    }

    /// Borrows the parsed JSON schema document.
    pub fn document(&self) -> (r: &JsonValue)
        ensures
            r@ == self@.1,
    {
        &self.document
    }
}

/// The resources as (URI, document) pairs.
pub open spec fn resource_views(resources: Seq<SchemaResource>) -> Seq<(Seq<char>, JsonData)> {
    resources.map_values(|r: SchemaResource| r@)
}

/// Folds one document's metrics into the aggregate: nodes add up
/// (saturating); depth, members, scalar bytes and pointer bytes keep the
/// first strictly largest value and its pointer. Tokens are not aggregated.
pub open spec fn merge_metrics(agg: MetricsData, m: MetricsData) -> MetricsData {
    let a1 = MetricsData { nodes: sat_add(agg.nodes, m.nodes), ..agg };
    let a2 = if m.depth > a1.depth { MetricsData { depth: m.depth, depth_pointer: m.depth_pointer, ..a1 } } else { a1 };
    let a3 = if m.members > a2.members { MetricsData { members: m.members, members_pointer: m.members_pointer, ..a2 } } else { a2 };
    let a4 = if m.scalar_bytes > a3.scalar_bytes { MetricsData { scalar_bytes: m.scalar_bytes, scalar_pointer: m.scalar_pointer, ..a3 } } else { a3 };
    if m.pointer_bytes > a4.pointer_bytes { MetricsData { pointer_bytes: m.pointer_bytes, pointer: m.pointer, ..a4 } } else { a4 }
}

/// The aggregate metrics of several documents, or the metrics of the first
/// document deeper than the depth limit.
pub open spec fn aggregate_metrics(docs: Seq<JsonData>, depth_limit: nat) -> Result<MetricsData, MetricsData>
    decreases docs.len(),
{
    if docs.len() == 0 {
        Ok(zero_metrics())
    } else {
        match aggregate_metrics(docs.drop_last(), depth_limit) {
            Err(m) => Err(m),
            Ok(agg) => {
                let m = spec_value_metrics(docs.last(), depth_limit);
                if m.depth > depth_limit {
                    Err(m)
                } else {
                    Ok(merge_metrics(agg, m))
                }
            },
        }
    }
}

/// Graph totals over (URI, document) pairs: nested resources (each document
/// already counted once), references, visits, and the longest URI.
pub open spec fn graph_totals(pairs: Seq<(Seq<char>, JsonData)>, start: GraphCounts) -> GraphCounts
    decreases pairs.len(),
{
    if pairs.len() == 0 {
        start
    } else {
        let acc = graph_totals(pairs.drop_last(), start);
        let g = spec_graph_metrics(pairs.last().1, Some(pairs.last().0));
        GraphCounts {
            resources: sat(acc.resources, if g.resources > 0 { (g.resources - 1) as usize } else { 0 }),
            references: sat(acc.references, g.references),
            traversal: sat(acc.traversal, g.traversal),
            max_uri: larger(acc.max_uri, g.max_uri),
        }
    }
}

/// The longest retrieval URI.
pub open spec fn longest_uri(pairs: Seq<(Seq<char>, JsonData)>, start: usize) -> usize
    decreases pairs.len(),
{
    if pairs.len() == 0 {
        start
    } else {
        larger(longest_uri(pairs.drop_last(), start), byte_len(pairs.last().0))
    }
}

/// The first limit the compilation inputs exceed: a too-deep document
/// reports its own structure failure; otherwise the aggregate structure is
/// checked, then the graph totals over the root and every resource.
pub open spec fn spec_check_compilation_inputs(
    root_uri: Seq<char>,
    root: JsonData,
    resources: Seq<(Seq<char>, JsonData)>,
    l: DataSchemaLimits,
) -> Option<CompilationLimitFailure> {
    let pairs = seq![(root_uri, root)] + resources;
    match aggregate_metrics(pairs.map_values(|p: (Seq<char>, JsonData)| p.1), l.depth as nat) {
        Err(m) => spec_check_structure(m, l),
        Ok(agg) => if spec_check_structure(agg, l) is Some {
            spec_check_structure(agg, l)
        } else {
            let start = GraphCounts {
                resources: (resources.len() + 1) as usize,
                references: 0,
                traversal: 0,
                max_uri: longest_uri(resources, byte_len(root_uri)),
            };
            let g = graph_totals(pairs, start);
            spec_check_graph(g.resources, g.references, g.traversal, g.max_uri, l)
        },
    }
}

fn merge_into(agg: &mut ValueMetrics, m: ValueMetrics)
    requires
        metrics_pointers_valid(old(agg)@),
        metrics_pointers_valid(m@),
    ensures
        final(agg)@ == merge_metrics(old(agg)@, m@),
        metrics_pointers_valid(final(agg)@),
{
    agg.nodes = agg.nodes.saturating_add(m.nodes);
    if m.depth > agg.depth {
        agg.depth = m.depth;
        agg.depth_pointer = m.depth_pointer;
    }
    if m.members > agg.members {
        agg.members = m.members;
        agg.members_pointer = m.members_pointer;
    }
    if m.scalar_bytes > agg.scalar_bytes {
        agg.scalar_bytes = m.scalar_bytes;
        agg.scalar_pointer = m.scalar_pointer;
    }
    if m.pointer_bytes > agg.pointer_bytes {
        agg.pointer_bytes = m.pointer_bytes;
        agg.pointer = m.pointer;
    }
}

fn add_graph(acc: &mut GraphCounts, g: GraphCounts)
    ensures
        *final(acc) == (GraphCounts {
            resources: sat(old(acc).resources, if g.resources > 0 { (g.resources - 1) as usize } else { 0 }),
            references: sat(old(acc).references, g.references),
            traversal: sat(old(acc).traversal, g.traversal),
            max_uri: larger(old(acc).max_uri, g.max_uri),
        }),
{
    let nested: usize = if g.resources > 0 { g.resources - 1 } else { 0 };
    acc.resources = acc.resources.saturating_add(nested);
    acc.references = acc.references.saturating_add(g.references);
    acc.traversal = acc.traversal.saturating_add(g.traversal);
    acc.max_uri = larger_of(acc.max_uri, g.max_uri);
}

/// Bounds the root data schema and caller-supplied resources before
/// qualification (see [`spec_check_compilation_inputs`]).
pub fn check_compilation_inputs(
    root_uri: &RetrievalUri,
    root: &JsonValue,
    resources: &Vec<SchemaResource>,
    profile: &CompilationProfile,
) -> (r: Result<(), CompilationLimitError>)
    requires
        resources.len() < usize::MAX,
    ensures
        limit_outcome(r) == spec_check_compilation_inputs(root_uri@, root@, resource_views(resources@), profile.data_schema_limits_spec()),
{
    let limits = profile.data_schema_limits();
    let ghost pairs = seq![(root_uri@, root@)] + resource_views(resources@);
    let ghost docs = pairs.map_values(|p: (Seq<char>, JsonData)| p.1);
    let mut aggregate = ValueMetrics {
        tokens: 0,
        depth: 0,
        depth_pointer: String::new(),
        nodes: 0,
        members: 0,
        members_pointer: String::new(),
        scalar_bytes: 0,
        scalar_pointer: String::new(),
        pointer_bytes: 0,
        pointer: String::new(),
    };
    let root_metrics = value_metrics(root, limits.depth);
    assert(pairs[0] == (root_uri@, root@));
    assert(docs[0] == root@);
    assert(docs.take(0) =~= Seq::<JsonData>::empty());
    assert(docs.take(1).drop_last() =~= docs.take(0));
    assert(docs.take(1).last() == root@);
    assert(aggregate_metrics(docs.take(0), limits.depth as nat) == Ok::<MetricsData, MetricsData>(zero_metrics()));
    assert(aggregate@ == zero_metrics());
    if root_metrics.depth > limits.depth {
        proof {
            lemma_aggregate_err(docs, limits.depth as nat, 1);
        }
        return check_structure_metrics(&root_metrics, limits);
    }
    merge_into(&mut aggregate, root_metrics);
    let mut i: usize = 0;
    while i < resources.len()
        invariant
            pairs == seq![(root_uri@, root@)] + resource_views(resources@),
            docs == pairs.map_values(|p: (Seq<char>, JsonData)| p.1),
            limits == profile.data_schema_limits_spec(),
            i <= resources.len(),
            metrics_pointers_valid(aggregate@),
            aggregate_metrics(docs.take(i + 1), limits.depth as nat) == Ok::<MetricsData, MetricsData>(aggregate@),
        decreases resources.len() - i,
    {
        assert(docs.take(i + 2).drop_last() =~= docs.take(i + 1));
        assert(docs.take(i + 2).last() == resources@[i as int]@.1);
        let m = value_metrics(resources[i].document(), limits.depth);
        if m.depth > limits.depth {
            proof {
                lemma_aggregate_err(docs, limits.depth as nat, i + 2);
            }
            return check_structure_metrics(&m, limits);
        }
        merge_into(&mut aggregate, m);
        i += 1;
    }
    assert(docs.take(resources.len() + 1) =~= docs);
    match check_structure_metrics(&aggregate, limits) {
        Err(e) => return Err(e),
        Ok(()) => {},
    }
    let ghost views = resource_views(resources@);
    let mut max_uri = root_uri.as_str().len();
    let mut j: usize = 0;
    while j < resources.len()
        invariant
            views == resource_views(resources@),
            j <= resources.len(),
            max_uri == longest_uri(views.take(j as int), byte_len(root_uri@)),
        decreases resources.len() - j,
    {
        assert(views.take(j + 1).drop_last() =~= views.take(j as int));
        assert(views.take(j + 1).last() == resources@[j as int]@);
        max_uri = larger_of(max_uri, resources[j].uri().as_str().len());
        j += 1;
    }
    assert(views.take(resources.len() as int) =~= views);
    let mut totals = GraphCounts { resources: resources.len() + 1, references: 0, traversal: 0, max_uri };
    let ghost start = totals;
    assert(pairs.take(1).drop_last() =~= pairs.take(0));
    assert(pairs.take(1).last() == (root_uri@, root@));
    assert(graph_totals(pairs.take(0), start) == start);
    add_graph(&mut totals, graph_metrics(root, Some(root_uri.as_str())));
    let mut k: usize = 0;
    while k < resources.len()
        invariant
            pairs == seq![(root_uri@, root@)] + resource_views(resources@),
            k <= resources.len(),
            totals == graph_totals(pairs.take(k + 1), start),
        decreases resources.len() - k,
    {
        assert(pairs.take(k + 2).drop_last() =~= pairs.take(k + 1));
        assert(pairs.take(k + 2).last() == resources@[k as int]@);
        let resource = &resources[k];
        add_graph(&mut totals, graph_metrics(resource.document(), Some(resource.uri().as_str())));
        k += 1;
    }
    assert(pairs.take(resources.len() + 1) =~= pairs);
    check_graph_metrics(totals.resources, totals.references, totals.traversal, totals.max_uri, limits)
}

proof fn lemma_aggregate_err(docs: Seq<JsonData>, depth_limit: nat, n: int)
    requires
        0 <= n <= docs.len(),
        aggregate_metrics(docs.take(n), depth_limit) is Err,
    ensures
        aggregate_metrics(docs, depth_limit) == aggregate_metrics(docs.take(n), depth_limit),
    decreases docs.len() - n,
{
    if n < docs.len() {
        assert(docs.take(n + 1).drop_last() =~= docs.take(n));
        lemma_aggregate_err(docs, depth_limit, n + 1);
    } else {
        assert(docs.take(n) =~= docs);
    }
}

} // verus!
