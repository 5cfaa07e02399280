use vstd::prelude::*;

use crate::address::{is_pointer_text, SchemaLocation};
use crate::annotations::{lemma_text_before_transitive, text_before, DataSchemaAnnotations};
use crate::fingerprint::{bytes_le_exec, lemma_bytes_le_total};
use crate::definition::{DefinitionNodeKind, SemanticKind};
use crate::fingerprint::{
    lemma_position_order_total, position_order, positions_of, sorted_positions, stable_positions,
};
use crate::laws::unescape_token;
use crate::text::str_eq;
use crate::value::JsonValue;

verus! {

/// One compiled scalar choice: the JSON scalar written when it is selected,
/// and its display label.
#[derive(Debug)]
pub struct ChoiceOption {
    pub value: JsonValue,
    pub label: String,
}

impl ChoiceOption {
    /// Returns the exact JSON scalar written when this option is selected.
    pub fn value(&self) -> (r: &JsonValue)
        ensures
            r == &self.value,
    {
        &self.value
    }

    /// Returns the option's display label.
    pub fn label(&self) -> (r: &str)
        ensures
            r@ == self.label@,
    {
        self.label.as_str()
    }
}

/// A node of the definition generated from the data schema, before it is
/// placed in the layout: its binding, the binding of its parent, and the
/// binding of the array whose item template holds it.
#[derive(Debug)]
pub struct GeneratedNode {
    pub binding: String,
    pub parent_binding: Option<String>,
    pub kind: DefinitionNodeKind,
    pub semantic_kind: Option<SemanticKind>,
    pub label: String,
    pub help: Option<String>,
    pub data_schema_annotations: DataSchemaAnnotations,
    pub creation_seed: Option<JsonValue>,
    pub required: bool,
    pub accepts_null: bool,
    pub choice_options: Vec<ChoiceOption>,
    pub choice_selectable: bool,
    pub owning_array_binding: Option<String>,
    pub schema_locations: Vec<SchemaLocation>,
}

/// The text of an optional string.
pub open spec fn text_of(s: Option<String>) -> Option<Seq<char>> {
    match s {
        Some(t) => Some(t@),
        None => None,
    }
}

/// Position of the last `/` of `s`, or -1.
pub open spec fn last_slash(s: Seq<char>) -> int
    decreases s.len(),
{
    if s.len() == 0 {
        -1
    } else if s.last() == '/' {
        s.len() - 1
    } else {
        last_slash(s.drop_last())
    }
}

/// The decoded last reference token of a JSON Pointer; empty for the root.
pub open spec fn last_token(pointer: Seq<char>) -> Seq<char> {
    let k = last_slash(pointer);
    if k < 0 {
        Seq::empty()
    } else {
        unescape_token(pointer.skip(k + 1))
    }
}

/// `jsonptr::Pointer::parse`, then `back()` and `Token::decoded`: the last
/// reference token of a valid pointer with `~1` read as `/` and `~0` as `~`,
/// or the empty text for the root pointer.
#[verifier::external_body]
fn pointer_last_token(pointer: &str) -> (r: String)
    requires
        is_pointer_text(pointer@),
    ensures
        r@ == last_token(pointer@),
{
    match jsonptr::Pointer::parse(pointer) {
        Ok(parsed) => parsed.back().map(|token| token.decoded().into_owned()).unwrap_or_default(),
        Err(_) => String::new(),
    }
}

/// The property name of a generated node: the last token of its binding.
pub fn generated_property_name(node: &GeneratedNode) -> (r: String)
    requires
        is_pointer_text(node.binding@),
    ensures
        r@ == last_token(node.binding@),
{
    pointer_last_token(node.binding.as_str())
}

/// Node `c` sits directly under node `p`: an ordinary child (same owning
/// array, parent binding is `p`'s binding), or the item template of `p`
/// when `p` is a top-level homogeneous array.
pub open spec fn is_child(p: GeneratedNode, c: GeneratedNode) -> bool {
    ||| text_of(c.owning_array_binding) == text_of(p.owning_array_binding) && text_of(c.parent_binding) == Some(p.binding@)
    ||| p.owning_array_binding is None && p.semantic_kind == Some(SemanticKind::HomogeneousArray)
        && text_of(c.owning_array_binding) == Some(p.binding@) && c.parent_binding is None
}

/// The positions below `n` of the children of `p`, in order.
pub open spec fn child_candidates(nodes: Seq<GeneratedNode>, p: GeneratedNode, n: int) -> Seq<int>
    decreases n,
{
    if n <= 0 || n > nodes.len() {
        Seq::empty()
    } else {
        let r = child_candidates(nodes, p, n - 1);
        if is_child(p, nodes[n - 1]) {
            r.push(n - 1)
        } else {
            r
        }
    }
}

/// The UTF-8 bytes of the property names of the nodes at `positions`.
pub open spec fn name_keys(nodes: Seq<GeneratedNode>, positions: Seq<int>) -> Seq<Seq<u8>> {
    positions.map_values(|c: int| vstd::utf8::encode_utf8(last_token(nodes[c].binding@)))
}

/// The children of node `index`, ordered by property name (children of one
/// name keep their order).
pub open spec fn spec_child_indices(nodes: Seq<GeneratedNode>, index: int) -> Seq<int> {
    let candidates = child_candidates(nodes, nodes[index], nodes.len() as int);
    let order = sorted_positions(name_keys(nodes, candidates));
    Seq::new(candidates.len(), |q: int| candidates[order[q]])
}

/// Every node's binding is a JSON Pointer.
pub open spec fn valid_bindings(nodes: Seq<GeneratedNode>) -> bool {
    forall|i: int| 0 <= i < nodes.len() ==> is_pointer_text(#[trigger] nodes[i].binding@)
}

fn same_text(a: &Option<String>, b: &Option<String>) -> (r: bool)
    ensures
        r == (text_of(*a) == text_of(*b)),
{
    match (a, b) {
        (Some(x), Some(y)) => str_eq(x.as_str(), y.as_str()),
        (None, None) => true,
        _ => false,
    }
}

fn is_text(a: &Option<String>, b: &str) -> (r: bool)
    ensures
        r == (text_of(*a) == Some(b@)),
{
    match a {
        Some(x) => str_eq(x.as_str(), b),
        None => false,
    }
}

fn is_child_exec(p: &GeneratedNode, c: &GeneratedNode) -> (r: bool)
    ensures
        r == is_child(*p, *c),
{
    let ordinary = same_text(&c.owning_array_binding, &p.owning_array_binding)
        && is_text(&c.parent_binding, p.binding.as_str());
    let template = p.owning_array_binding.is_none() && p.semantic_kind == Some(SemanticKind::HomogeneousArray)
        && is_text(&c.owning_array_binding, p.binding.as_str()) && c.parent_binding.is_none();
    ordinary || template
}

/// The children of generated node `index` (see [`spec_child_indices`]).
pub fn generated_child_indices(index: usize, nodes: &Vec<GeneratedNode>) -> (r: Vec<usize>)
    requires
        index < nodes.len(),
        valid_bindings(nodes@),
    ensures
        positions_of(r@) == spec_child_indices(nodes@, index as int),
        forall|q: int| 0 <= q < r.len() ==> #[trigger] r@[q] < nodes.len(),
{
    let ghost parent = nodes@[index as int];
    let mut candidates: Vec<usize> = Vec::new();
    let mut keys: Vec<Vec<u8>> = Vec::new();
    let mut i: usize = 0;
    assert(positions_of(candidates@) =~= child_candidates(nodes@, parent, 0));
    while i < nodes.len()
        invariant
            index < nodes.len(),
            parent == nodes@[index as int],
            valid_bindings(nodes@),
            i <= nodes.len(),
            positions_of(candidates@) == child_candidates(nodes@, parent, i as int),
            keys@.map_values(|k: Vec<u8>| k@) == name_keys(nodes@, positions_of(candidates@)),
            forall|q: int| 0 <= q < candidates.len() ==> #[trigger] candidates@[q] < i,
        decreases nodes.len() - i,
    {
        if is_child_exec(&nodes[index], &nodes[i]) {
            let name = generated_property_name(&nodes[i]);
            let ghost before = keys@.map_values(|k: Vec<u8>| k@);
            let ghost old_positions = positions_of(candidates@);
            let key = vstd::slice::slice_to_vec(name.as_str().as_bytes());
            assert(key@ == vstd::utf8::encode_utf8(last_token(nodes@[i as int].binding@)));
            keys.push(key);
            candidates.push(i);
            assert(positions_of(candidates@) =~= old_positions.push(i as int));
            assert(keys@.map_values(|k: Vec<u8>| k@) =~= before.push(key@));
            assert(name_keys(nodes@, old_positions.push(i as int)) =~= name_keys(nodes@, old_positions).push(key@));
        }
        i += 1;
    }
    let ghost cands = positions_of(candidates@);
    let ghost kv = keys@.map_values(|k: Vec<u8>| k@);
    let order = stable_positions(&keys);
    let ghost all = Seq::new(kv.len(), |q: int| q);
    proof {
        lemma_position_order_total(kv);
        all.lemma_sort_by_ensures(position_order(kv));
    }
    let mut out: Vec<usize> = Vec::new();
    let mut q: usize = 0;
    while q < order.len()
        invariant
            cands == positions_of(candidates@),
            cands == child_candidates(nodes@, parent, nodes.len() as int),
            kv == keys@.map_values(|k: Vec<u8>| k@),
            kv == name_keys(nodes@, cands),
            order.len() == keys.len(),
            keys.len() == candidates.len(),
            positions_of(order@) == sorted_positions(kv),
            all == Seq::new(kv.len(), |q: int| q),
            forall|x: int| !all.contains(x) ==> !(#[trigger] sorted_positions(kv).contains(x)),
            forall|k: int| 0 <= k < candidates.len() ==> #[trigger] candidates@[k] < nodes.len(),
            q <= order.len(),
            positions_of(out@) == Seq::new(q as nat, |p: int| cands[sorted_positions(kv)[p]]),
            forall|p: int| 0 <= p < out.len() ==> #[trigger] out@[p] < nodes.len(),
        decreases order.len() - q,
    {
        let k = order[q];
        assert(positions_of(order@)[q as int] == k as int);
        assert(sorted_positions(kv).contains(k as int));
        if k >= candidates.len() {
            assert(!all.contains(k as int));
            assert(false);
        }
        let ghost before = positions_of(out@);
        out.push(candidates[k]);
        assert(cands[k as int] == candidates@[k as int] as int);
        assert(sorted_positions(kv)[q as int] == k as int);
        assert(positions_of(out@) =~= before.push(candidates@[k as int] as int));
        assert(positions_of(out@) =~= Seq::new((q + 1) as nat, |p: int| cands[sorted_positions(kv)[p]]));
        q += 1;
    }
    assert(positions_of(out@) =~= spec_child_indices(nodes@, index as int));
    out
}

/// Whether node `n` is the unsupported root: no owning array, the root
/// binding, and of unsupported kind.
pub open spec fn is_unsupported_root(n: GeneratedNode) -> bool {
    n.owning_array_binding is None && n.binding@.len() == 0 && n.kind == DefinitionNodeKind::Unsupported
}

/// Position of the first unsupported root node, or -1.
pub open spec fn first_unsupported_root(nodes: Seq<GeneratedNode>, n: int) -> int
    decreases n,
{
    if n <= 0 || n > nodes.len() {
        -1
    } else if first_unsupported_root(nodes, n - 1) >= 0 {
        first_unsupported_root(nodes, n - 1)
    } else if is_unsupported_root(nodes[n - 1]) {
        n - 1
    } else {
        -1
    }
}

/// The roots of the automatic root layout: the unsupported root node, if
/// any, before the root's properties.
pub fn root_auto_roots(nodes: &Vec<GeneratedNode>, properties: Vec<usize>) -> (r: Vec<usize>)
    ensures
        ({
            let k = first_unsupported_root(nodes@, nodes.len() as int);
            if k >= 0 {
                positions_of(r@) == seq![k] + positions_of(properties@)
            } else {
                r@ == properties@
            }
        }),
{
    let mut i: usize = 0;
    while i < nodes.len()
        invariant
            i <= nodes.len(),
            first_unsupported_root(nodes@, i as int) == -1,
        decreases nodes.len() - i,
    {
        if nodes[i].owning_array_binding.is_none() && crate::text::chars_of(nodes[i].binding.as_str()).len() == 0
            && nodes[i].kind == DefinitionNodeKind::Unsupported {
            assert(is_unsupported_root(nodes@[i as int]));
            assert(first_unsupported_root(nodes@, i + 1) == i);
            proof {
                lemma_first_unsupported_root_prefix(nodes@, i + 1);
            }
            let mut out = properties;
            out.insert(0, i);
            assert(positions_of(out@) =~= seq![i as int] + positions_of(properties@));
            return out;
        }
        i += 1;
    }
    properties
}

proof fn lemma_first_unsupported_root_prefix(nodes: Seq<GeneratedNode>, n: int)
    requires
        0 <= n <= nodes.len(),
        first_unsupported_root(nodes, n) >= 0,
    ensures
        first_unsupported_root(nodes, nodes.len() as int) == first_unsupported_root(nodes, n),
    decreases nodes.len() - n,
{
    if n < nodes.len() {
        lemma_first_unsupported_root_prefix(nodes, n + 1);
    }
}

/// Node `n` is a direct property of the object at `binding` within the
/// item template of the array at `owning` (or outside any template).
pub open spec fn is_direct(n: GeneratedNode, owning: Option<Seq<char>>, binding: Seq<char>) -> bool {
    &&& text_of(n.owning_array_binding) == owning
    &&& n.binding@ != binding
    &&& if binding.len() == 0 && owning is None {
        n.parent_binding is None
    } else {
        text_of(n.parent_binding) == Some(binding)
    }
}

/// The direct properties among the first `n` nodes, as (name, position), in order.
pub open spec fn direct_entries(nodes: Seq<GeneratedNode>, owning: Option<Seq<char>>, binding: Seq<char>, n: int) -> Seq<(Seq<char>, int)>
    decreases n,
{
    if n <= 0 || n > nodes.len() {
        Seq::empty()
    } else {
        let r = direct_entries(nodes, owning, binding, n - 1);
        if is_direct(nodes[n - 1], owning, binding) {
            r.push((last_token(nodes[n - 1].binding@), n - 1))
        } else {
            r
        }
    }
}

/// `found[k]` is the last entry found under its name.
pub open spec fn last_of_name(found: Seq<(Seq<char>, int)>, k: int) -> bool {
    forall|m: int| k < m < found.len() ==> (#[trigger] found[m]).0 != found[k].0
}

/// `r` holds, in the byte order of names, one entry per name of `found`:
/// the last one found under it (the entries of a map keyed by name).
pub open spec fn entries_by_name(r: Seq<(Seq<char>, int)>, found: Seq<(Seq<char>, int)>) -> bool {
    &&& forall|i: int, j: int| 0 <= i < j < r.len() ==> text_before((#[trigger] r[i]).0, (#[trigger] r[j]).0)
    &&& forall|e: (Seq<char>, int)| r.contains(e) <==> exists|k: int| 0 <= k < found.len() && found[k] == e && last_of_name(found, k)
}

/// The entries of a name table, as texts and integers.
pub open spec fn entry_views(v: Seq<(String, usize)>) -> Seq<(Seq<char>, int)> {
    v.map_values(|e: (String, usize)| (e.0@, e.1 as int))
}

/// Puts an entry into a table kept in name order, replacing the entry of
/// the same name.
fn place_entry(out: &mut Vec<(String, usize)>, name: String, position: usize)
    requires
        forall|i: int, j: int| 0 <= i < j < old(out)@.len() ==> text_before((#[trigger] old(out)@[i]).0@, (#[trigger] old(out)@[j]).0@),
    ensures
        forall|i: int, j: int| 0 <= i < j < final(out)@.len() ==> text_before((#[trigger] final(out)@[i]).0@, (#[trigger] final(out)@[j]).0@),
        forall|e: (Seq<char>, int)|
            #![trigger entry_views(final(out)@).contains(e)]
            #![trigger entry_views(old(out)@).contains(e)]
            entry_views(final(out)@).contains(e) <==> (e == (name@, position as int) || (entry_views(old(out)@).contains(e) && e.0 != name@)),
{
    let ghost before = entry_views(out@);
    let ghost ev = (name@, position as int);
    let mut p: usize = 0;
    while p < out.len()
        invariant_except_break
            p <= out.len(),
            forall|q: int| 0 <= q < p ==> text_before((#[trigger] out@[q]).0@, name@),
        invariant
            before == entry_views(out@),
            ev == (name@, position as int),
            forall|i: int, j: int| 0 <= i < j < out@.len() ==> text_before((#[trigger] out@[i]).0@, (#[trigger] out@[j]).0@),
        ensures
            p <= out.len(),
            forall|q: int| 0 <= q < p ==> text_before((#[trigger] out@[q]).0@, name@),
            p < out.len() ==> !text_before(out@[p as int].0@, name@),
        decreases out.len() - p,
    {
        let smaller = !str_eq(out[p].0.as_str(), name.as_str())
            && bytes_le_exec(out[p].0.as_str().as_bytes(), name.as_str().as_bytes());
        if smaller {
            p += 1;
        } else {
            break;
        }
    }
    let replace = p < out.len() && str_eq(out[p].0.as_str(), name.as_str());
    proof {
        if p < out.len() && !replace {
            lemma_bytes_le_total(vstd::utf8::encode_utf8(out@[p as int].0@), vstd::utf8::encode_utf8(name@));
            assert(text_before(name@, out@[p as int].0@));
        }
        assert forall|q: int| 0 <= q < before.len() && q != p implies (#[trigger] before[q]).0 != name@ by {
            assert(before[q].0 == out@[q].0@);
            if q < p {
                assert(text_before(out@[q].0@, name@));
            } else if p < out.len() {
                assert(text_before(out@[p as int].0@, out@[q].0@));
                if !replace {
                    lemma_text_before_transitive(name@, out@[p as int].0@, out@[q].0@);
                } else {
                    assert(out@[p as int].0@ == name@);
                }
            }
        }
    }
    if replace {
        out.set(p, (name, position));
        proof {
            let after = entry_views(out@);
            assert(after =~= before.update(p as int, ev));
            assert forall|i: int, j: int| 0 <= i < j < out@.len() implies text_before((#[trigger] out@[i]).0@, (#[trigger] out@[j]).0@) by {
                assert(out@[i].0@ == after[i].0 && out@[j].0@ == after[j].0);
                if i == p {
                    assert(before[p as int].0 == ev.0);
                    assert(text_before(before[p as int].0, before[j].0));
                } else if j == p {
                    assert(before[p as int].0 == ev.0);
                    assert(text_before(before[i].0, before[p as int].0));
                } else {
                    assert(text_before(before[i].0, before[j].0));
                }
            }
            assert forall|e: (Seq<char>, int)| after.contains(e) <==> (e == ev || (before.contains(e) && e.0 != ev.0)) by {
                if after.contains(e) {
                    let k = choose|k: int| 0 <= k < after.len() && after[k] == e;
                    if k != p {
                        assert(before[k] == e);
                    }
                }
                if e == ev {
                    assert(after[p as int] == e);
                }
                if before.contains(e) && e.0 != ev.0 {
                    let k = choose|k: int| 0 <= k < before.len() && before[k] == e;
                    assert(k != p);
                    assert(after[k] == e);
                }
            }
        }
    } else {
        out.insert(p, (name, position));
        proof {
            let after = entry_views(out@);
            assert(after =~= before.insert(p as int, ev));
            assert forall|i: int, j: int| 0 <= i < j < out@.len() implies text_before((#[trigger] out@[i]).0@, (#[trigger] out@[j]).0@) by {
                assert(out@[i].0@ == after[i].0 && out@[j].0@ == after[j].0);
                if j < p {
                    assert(after[i] == before[i] && after[j] == before[j]);
                    assert(text_before(out@[i].0@, out@[j].0@)) by {
                        assert(text_before(before[i].0, before[j].0));
                    }
                } else if j == p {
                    assert(after[i] == before[i] && after[j] == ev);
                } else if i == p {
                    assert(after[i] == ev && after[j] == before[j - 1]);
                    if j - 1 > p {
                        assert(text_before(before[p as int].0, before[j - 1].0));
                        lemma_text_before_transitive(ev.0, before[p as int].0, before[j - 1].0);
                    }
                } else if i < p {
                    assert(after[i] == before[i] && after[j] == before[j - 1]);
                    assert(text_before(before[i].0, before[j - 1].0));
                } else {
                    assert(after[i] == before[i - 1] && after[j] == before[j - 1]);
                    assert(text_before(before[i - 1].0, before[j - 1].0));
                }
            }
            assert forall|e: (Seq<char>, int)| after.contains(e) <==> (e == ev || (before.contains(e) && e.0 != ev.0)) by {
                if after.contains(e) {
                    let k = choose|k: int| 0 <= k < after.len() && after[k] == e;
                    if k < p {
                        assert(before[k] == e);
                    } else if k > p {
                        assert(before[k - 1] == e);
                    }
                }
                if e == ev {
                    assert(after[p as int] == e);
                }
                if before.contains(e) && e.0 != ev.0 {
                    let k = choose|k: int| 0 <= k < before.len() && before[k] == e;
                    if k < p {
                        assert(after[k] == e);
                    } else {
                        assert(after[k + 1] == e);
                    }
                }
            }
        }
    }
}

proof fn lemma_entries_by_name_push(r: Seq<(Seq<char>, int)>, found: Seq<(Seq<char>, int)>, e: (Seq<char>, int), after: Seq<(Seq<char>, int)>)
    requires
        forall|g: (Seq<char>, int)| r.contains(g) <==> exists|k: int| 0 <= k < found.len() && found[k] == g && last_of_name(found, k),
        forall|g: (Seq<char>, int)|
            #![trigger after.contains(g)]
            #![trigger r.contains(g)]
            after.contains(g) <==> (g == e || (r.contains(g) && g.0 != e.0)),
    ensures
        forall|g: (Seq<char>, int)| after.contains(g) <==> exists|k: int| 0 <= k < found.push(e).len() && found.push(e)[k] == g && last_of_name(found.push(e), k),
{
    let fp = found.push(e);
    assert forall|g: (Seq<char>, int)| after.contains(g) <==> exists|k: int| 0 <= k < fp.len() && fp[k] == g && last_of_name(fp, k) by {
        if g == e {
            assert(last_of_name(fp, found.len() as int));
            assert(fp[found.len() as int] == g);
        }
        if after.contains(g) && g != e {
            assert(r.contains(g) && g.0 != e.0);
            let k = choose|k: int| 0 <= k < found.len() && found[k] == g && last_of_name(found, k);
            assert(fp[k] == g);
            assert forall|m: int| k < m < fp.len() implies (#[trigger] fp[m]).0 != fp[k].0 by {
                if m < found.len() {
                    assert(fp[m] == found[m]);
                }
            }
        }
        if exists|k: int| 0 <= k < fp.len() && fp[k] == g && last_of_name(fp, k) {
            let k = choose|k: int| 0 <= k < fp.len() && fp[k] == g && last_of_name(fp, k);
            if k < found.len() {
                assert(found[k] == g);
                assert(fp[found.len() as int].0 != fp[k].0);
                assert forall|m: int| k < m < found.len() implies (#[trigger] found[m]).0 != found[k].0 by {
                    assert(fp[m] == found[m]);
                }
                assert(r.contains(g));
            }
        }
    }
}

fn is_direct_exec(n: &GeneratedNode, owning: Option<&str>, binding: &str) -> (r: bool)
    ensures
        r == is_direct(*n, match owning { Some(o) => Some(o@), None => None }, binding@),
{
    let same_owner = match (&n.owning_array_binding, owning) {
        (Some(x), Some(y)) => str_eq(x.as_str(), y),
        (None, None) => true,
        _ => false,
    };
    let root = crate::text::chars_of(binding).len() == 0 && owning.is_none();
    same_owner && !str_eq(n.binding.as_str(), binding) && if root {
        n.parent_binding.is_none()
    } else {
        is_text(&n.parent_binding, binding)
    }
}

/// The direct properties of the object at `binding` (within the item
/// template of the array at `owning_array_binding`, if any): each property
/// name with the position of its node, in name order, the last node of a
/// name winning.
pub fn direct_generated_properties(nodes: &Vec<GeneratedNode>, owning_array_binding: Option<&str>, binding: &str) -> (r: Vec<(String, usize)>)
    requires
        valid_bindings(nodes@),
    ensures
        entries_by_name(
            entry_views(r@),
            direct_entries(nodes@, match owning_array_binding { Some(o) => Some(o@), None => None }, binding@, nodes.len() as int),
        ),
{
    let ghost owning = match owning_array_binding {
        Some(o) => Some(o@),
        None => None,
    };
    let mut out: Vec<(String, usize)> = Vec::new();
    let mut i: usize = 0;
    while i < nodes.len()
        invariant
            valid_bindings(nodes@),
            owning == match owning_array_binding { Some(o) => Some(o@), None => None },
            i <= nodes.len(),
            forall|p: int, q: int| 0 <= p < q < out@.len() ==> text_before((#[trigger] out@[p]).0@, (#[trigger] out@[q]).0@),
            forall|g: (Seq<char>, int)| entry_views(out@).contains(g) <==> exists|k: int|
                0 <= k < direct_entries(nodes@, owning, binding@, i as int).len()
                && direct_entries(nodes@, owning, binding@, i as int)[k] == g
                && last_of_name(direct_entries(nodes@, owning, binding@, i as int), k),
        decreases nodes.len() - i,
    {
        let ghost found = direct_entries(nodes@, owning, binding@, i as int);
        let ghost prior = entry_views(out@);
        if is_direct_exec(&nodes[i], owning_array_binding, binding) {
            let name = generated_property_name(&nodes[i]);
            let ghost e = (name@, i as int);
            place_entry(&mut out, name, i);
            assert(direct_entries(nodes@, owning, binding@, i + 1) == found.push(e));
            proof {
                lemma_entries_by_name_push(prior, found, e, entry_views(out@));
            }
        } else {
            assert(direct_entries(nodes@, owning, binding@, i + 1) == found);
        }
        i += 1;
    }
    proof {
        let r = entry_views(out@);
        assert forall|p: int, q: int| 0 <= p < q < r.len() implies text_before((#[trigger] r[p]).0, (#[trigger] r[q]).0) by {
            assert(r[p].0 == out@[p].0@ && r[q].0 == out@[q].0@);
        }
    }
    out
}

/// A path of children: each node after the first is a child of the one
/// before, and no node on it is marked in `blocked`.
pub open spec fn child_path(nodes: Seq<GeneratedNode>, blocked: Seq<bool>, path: Seq<int>) -> bool {
    &&& path.len() > 0
    &&& forall|t: int| 0 <= t < path.len() ==> 0 <= #[trigger] path[t] < nodes.len() && !blocked[path[t]]
    &&& forall|t: int| 0 <= t < path.len() - 1 ==> spec_child_indices(nodes, #[trigger] path[t]).contains(path[t + 1])
}

/// Node `to` is reached from `from` by a path of children that avoids the
/// nodes marked in `blocked`.
pub open spec fn reaches(nodes: Seq<GeneratedNode>, blocked: Seq<bool>, from: int, to: int) -> bool {
    exists|path: Seq<int>| child_path(nodes, blocked, path) && path[0] == from && path.last() == to
}

/// The number of unmarked entries.
pub open spec fn unmarked(s: Seq<bool>) -> nat
    decreases s.len(),
{
    if s.len() == 0 {
        0
    } else {
        unmarked(s.drop_last()) + if s.last() { 0nat } else { 1nat }
    }
}

/// Marking more entries leaves no more unmarked ones; marking a new one
/// leaves strictly fewer.
proof fn lemma_unmarked_monotonic(a: Seq<bool>, b: Seq<bool>)
    requires
        a.len() == b.len(),
        forall|i: int| 0 <= i < a.len() && #[trigger] a[i] ==> b[i],
    ensures
        unmarked(b) <= unmarked(a),
        (exists|i: int| 0 <= i < a.len() && !a[i] && #[trigger] b[i]) ==> unmarked(b) < unmarked(a),
    decreases a.len(),
{
    if a.len() > 0 {
        let (a0, b0) = (a.drop_last(), b.drop_last());
        assert forall|i: int| 0 <= i < a0.len() && #[trigger] a0[i] implies b0[i] by {
            assert(a[i] == a0[i] && b[i] == b0[i]);
        }
        lemma_unmarked_monotonic(a0, b0);
        if exists|i: int| 0 <= i < a.len() && !a[i] && #[trigger] b[i] {
            let i = choose|i: int| 0 <= i < a.len() && !a[i] && #[trigger] b[i];
            if i < a.len() - 1 {
                assert(!a0[i] && b0[i]);
            }
        }
    }
}

proof fn lemma_path_extends(nodes: Seq<GeneratedNode>, blocked: Seq<bool>, path: Seq<int>, next: int)
    requires
        child_path(nodes, blocked, path),
        0 <= next < nodes.len(),
        !blocked[next],
        spec_child_indices(nodes, path.last()).contains(next),
    ensures
        child_path(nodes, blocked, path.push(next)),
        path.push(next)[0] == path[0],
        path.push(next).last() == next,
{
    let p = path.push(next);
    assert forall|t: int| 0 <= t < p.len() - 1 implies spec_child_indices(nodes, #[trigger] p[t]).contains(p[t + 1]) by {
        if t < path.len() - 1 {
            assert(p[t] == path[t] && p[t + 1] == path[t + 1]);
        } else {
            assert(p[t] == path.last());
        }
    }
    assert forall|t: int| 0 <= t < p.len() implies 0 <= #[trigger] p[t] < nodes.len() && !blocked[p[t]] by {
        if t < path.len() {
            assert(p[t] == path[t]);
        }
    }
}

proof fn lemma_path_prepends(nodes: Seq<GeneratedNode>, blocked: Seq<bool>, first: int, path: Seq<int>)
    requires
        child_path(nodes, blocked, path),
        0 <= first < nodes.len(),
        !blocked[first],
        spec_child_indices(nodes, first).contains(path[0]),
    ensures
        child_path(nodes, blocked, seq![first] + path),
        (seq![first] + path)[0] == first,
        (seq![first] + path).last() == path.last(),
{
    let p = seq![first] + path;
    assert forall|t: int| 0 <= t < p.len() - 1 implies spec_child_indices(nodes, #[trigger] p[t]).contains(p[t + 1]) by {
        if t > 0 {
            assert(p[t] == path[t - 1] && p[t + 1] == path[t]);
        }
    }
    assert forall|t: int| 0 <= t < p.len() implies 0 <= #[trigger] p[t] < nodes.len() && !blocked[p[t]] by {
        if t > 0 {
            assert(p[t] == path[t - 1]);
        }
    }
}

proof fn lemma_path_weakens(nodes: Seq<GeneratedNode>, tight: Seq<bool>, loose: Seq<bool>, path: Seq<int>)
    requires
        child_path(nodes, tight, path),
        loose.len() == tight.len(),
        loose.len() == nodes.len(),
        forall|i: int| 0 <= i < loose.len() && #[trigger] loose[i] ==> tight[i],
    ensures
        child_path(nodes, loose, path),
{
    assert forall|t: int| 0 <= t < path.len() implies 0 <= #[trigger] path[t] < nodes.len() && !loose[path[t]] by {
        assert(0 <= path[t] < nodes.len() && !tight[path[t]]);
        if loose[path[t]] {
            assert(tight[path[t]]);
        }
    }
}

/// A marking that holds `base`, holds `index`, reaches nothing new that
/// `index` does not reach, and holds every child of every newly marked node,
/// holds exactly `base` and what `index` reaches.
proof fn lemma_closed_marking(nodes: Seq<GeneratedNode>, base: Seq<bool>, s: Seq<bool>, index: int)
    requires
        s.len() == base.len(),
        base.len() == nodes.len(),
        0 <= index < nodes.len(),
        s[index],
        forall|j: int| 0 <= j < s.len() && #[trigger] base[j] ==> s[j],
        forall|j: int| 0 <= j < s.len() && #[trigger] s[j] && !base[j] ==> reaches(nodes, base, index, j),
        forall|j: int, c: int| 0 <= j < s.len() && s[j] && !base[j] && #[trigger] spec_child_indices(nodes, j).contains(c) ==> 0 <= c < s.len() && s[c],
    ensures
        forall|j: int| 0 <= j < s.len() ==> #[trigger] s[j] == (base[j] || reaches(nodes, base, index, j)),
{
    assert forall|j: int| 0 <= j < s.len() implies #[trigger] s[j] == (base[j] || reaches(nodes, base, index, j)) by {
        if reaches(nodes, base, index, j) && !s[j] {
            let path = choose|path: Seq<int>| child_path(nodes, base, path) && path[0] == index && path.last() == j;
            lemma_marked_along_path(nodes, base, s, path, path.len() - 1);
        }
    }
}

proof fn lemma_marked_along_path(nodes: Seq<GeneratedNode>, base: Seq<bool>, s: Seq<bool>, path: Seq<int>, t: int)
    requires
        s.len() == base.len(),
        base.len() == nodes.len(),
        child_path(nodes, base, path),
        s[path[0]],
        forall|j: int, c: int| 0 <= j < s.len() && s[j] && !base[j] && #[trigger] spec_child_indices(nodes, j).contains(c) ==> 0 <= c < s.len() && s[c],
        0 <= t < path.len(),
    ensures
        s[path[t]],
    decreases t,
{
    if t > 0 {
        lemma_marked_along_path(nodes, base, s, path, t - 1);
        assert(0 <= path[t - 1] < nodes.len() && !base[path[t - 1]]);
        assert(spec_child_indices(nodes, path[t - 1]).contains(path[t]));
    }
}

/// Marks node `index` and every node it reaches through children that are
/// not marked yet: afterwards a node is marked exactly when it was marked
/// before or `index` reaches it avoiding the nodes marked before.
pub fn include_generated_subtree(index: usize, nodes: &Vec<GeneratedNode>, included: &mut Vec<bool>)
    requires
        index < nodes.len(),
        old(included).len() == nodes.len(),
        valid_bindings(nodes@),
    ensures
        final(included).len() == old(included).len(),
        forall|j: int| 0 <= j < nodes.len() ==> #[trigger] final(included)@[j] == (old(included)@[j] || reaches(nodes@, old(included)@, index as int, j)),
    decreases unmarked(old(included)@),
{
    let ghost base = included@;
    if included[index] {
        assert forall|j: int| 0 <= j < nodes.len() implies !reaches(nodes@, base, index as int, j) by {
            if reaches(nodes@, base, index as int, j) {
                let path = choose|path: Seq<int>| child_path(nodes@, base, path) && path[0] == index as int && path.last() == j;
                assert(!base[path[0]]);
            }
        }
        return;
    }
    included.set(index, true);
    proof {
        assert(included@ == base.update(index as int, true));
        assert forall|i: int| 0 <= i < base.len() && #[trigger] base[i] implies included@[i] by {}
        assert(!base[index as int] && included@[index as int]);
        lemma_unmarked_monotonic(base, included@);
        let one = seq![index as int];
        assert(child_path(nodes@, base, one) && one[0] == index as int && one.last() == index as int);
        assert(reaches(nodes@, base, index as int, index as int));
        assert forall|j: int| 0 <= j < nodes.len() && #[trigger] included@[j] && !base[j] implies reaches(nodes@, base, index as int, j) by {
            if j != index as int {
                assert(included@[j] == base[j]);
            }
        }
    }
    let children = generated_child_indices(index, nodes);
    let mut k: usize = 0;
    while k < children.len()
        invariant
            index < nodes.len(),
            valid_bindings(nodes@),
            base == old(included)@,
            base.len() == nodes.len(),
            included.len() == nodes.len(),
            !base[index as int],
            included@[index as int],
            positions_of(children@) == spec_child_indices(nodes@, index as int),
            forall|q: int| 0 <= q < children.len() ==> #[trigger] children@[q] < nodes.len(),
            k <= children.len(),
            unmarked(included@) < unmarked(base),
            forall|j: int| 0 <= j < nodes.len() && #[trigger] base[j] ==> included@[j],
            forall|j: int| 0 <= j < nodes.len() && #[trigger] included@[j] && !base[j] ==> reaches(nodes@, base, index as int, j),
            forall|j: int, c: int| 0 <= j < nodes.len() && j != index && included@[j] && !base[j]
                && #[trigger] spec_child_indices(nodes@, j).contains(c) ==> 0 <= c < nodes.len() && included@[c],
            forall|q: int| 0 <= q < k ==> #[trigger] included@[children@[q] as int],
        decreases children.len() - k,
    {
        let c = children[k];
        let ghost s = included@;
        proof {
            assert(positions_of(children@)[k as int] == c as int);
            assert(spec_child_indices(nodes@, index as int).contains(c as int));
        }
        include_generated_subtree(c, nodes, included);
        proof {
            let s2 = included@;
            lemma_unmarked_monotonic(s, s2);
            assert forall|j: int| 0 <= j < nodes.len() && #[trigger] s2[j] && !base[j] implies reaches(nodes@, base, index as int, j) by {
                if !s[j] {
                    assert(reaches(nodes@, s, c as int, j));
                    let path = choose|path: Seq<int>| child_path(nodes@, s, path) && path[0] == c as int && path.last() == j;
                    lemma_path_weakens(nodes@, s, base, path);
                    lemma_path_prepends(nodes@, base, index as int, path);
                }
            }
            assert forall|j: int, d: int| 0 <= j < nodes.len() && j != index && s2[j] && !base[j]
                && #[trigger] spec_child_indices(nodes@, j).contains(d) implies 0 <= d < nodes.len() && s2[d] by {
                lemma_child_in_range(nodes@, j, d);
                if !s[j] {
                    assert(reaches(nodes@, s, c as int, j));
                    let path = choose|path: Seq<int>| child_path(nodes@, s, path) && path[0] == c as int && path.last() == j;
                    if !s[d] {
                        lemma_path_extends(nodes@, s, path, d);
                        assert(reaches(nodes@, s, c as int, d));
                    }
                }
            }
            assert(s2[c as int]) by {
                if !s[c as int] {
                    let one = seq![c as int];
                    assert(child_path(nodes@, s, one) && one[0] == c as int && one.last() == c as int);
                    assert(reaches(nodes@, s, c as int, c as int));
                }
            }
        }
        k += 1;
    }
    proof {
        assert forall|j: int, d: int| 0 <= j < nodes.len() && included@[j] && !base[j]
            && #[trigger] spec_child_indices(nodes@, j).contains(d) implies 0 <= d < nodes.len() && included@[d] by {
            lemma_child_in_range(nodes@, j, d);
            if j == index {
                let q = choose|q: int| 0 <= q < children.len() && positions_of(children@)[q] == d;
                assert(included@[children@[q] as int]);
            }
        }
        lemma_closed_marking(nodes@, base, included@, index as int);
    }
}

proof fn lemma_child_in_range(nodes: Seq<GeneratedNode>, j: int, d: int)
    requires
        0 <= j < nodes.len(),
        spec_child_indices(nodes, j).contains(d),
    ensures
        0 <= d < nodes.len(),
{
    let candidates = child_candidates(nodes, nodes[j], nodes.len() as int);
    let keys = name_keys(nodes, candidates);
    let order = sorted_positions(keys);
    let all = Seq::new(keys.len(), |q: int| q);
    lemma_position_order_total(keys);
    all.lemma_sort_by_ensures(position_order(keys));
    let q = choose|q: int| 0 <= q < spec_child_indices(nodes, j).len() && spec_child_indices(nodes, j)[q] == d;
    vstd::seq_lib::to_multiset_len(all);
    vstd::seq_lib::to_multiset_len(order);
    assert(order.len() == candidates.len());
    assert(order.contains(order[q]));
    if !(0 <= order[q] < candidates.len()) {
        assert(!all.contains(order[q]));
    }
    lemma_candidates_in_range(nodes, nodes[j], nodes.len() as int, order[q]);
}

proof fn lemma_candidates_in_range(nodes: Seq<GeneratedNode>, p: GeneratedNode, n: int, q: int)
    requires
        0 <= n <= nodes.len(),
        0 <= q < child_candidates(nodes, p, n).len(),
    ensures
        0 <= child_candidates(nodes, p, n)[q] < n,
    decreases n,
{
    if n > 0 {
        let r = child_candidates(nodes, p, n - 1);
        if q < r.len() {
            lemma_candidates_in_range(nodes, p, n - 1, q);
        }
    }
}

} // verus!
