use vstd::prelude::*;

use crate::address::JsonPointer;
use crate::choices::LocatedSchema;
use crate::text::{lemma_text_le_antisymmetric, lemma_text_le_total, lemma_text_le_transitive, str_eq, text_le, text_le_exec};

verus! {

/// A place a definition node was projected from: a resource and a pointer
/// into it.
#[derive(Debug, Clone)]
pub struct SchemaLocationDefinition {
    pub resource: String,
    pub pointer: JsonPointer,
}

impl View for SchemaLocationDefinition {
    type V = (Seq<char>, Seq<char>);

    open spec fn view(&self) -> (Seq<char>, Seq<char>) {
        (self.resource@, self.pointer@)
    }
}

/// The place of a located subschema.
pub open spec fn place_of(l: LocatedSchema) -> (Seq<char>, Seq<char>) {
    (l.resource@, l.pointer@)
}

/// Places ordered by resource, then pointer, in code point order; `a` comes
/// strictly before `b`.
pub open spec fn place_lt(a: (Seq<char>, Seq<char>), b: (Seq<char>, Seq<char>)) -> bool {
    &&& a != b
    &&& if a.0 == b.0 {
        text_le(a.1, b.1)
    } else {
        text_le(a.0, b.0)
    }
}

/// Places are strictly ordered by resource, then pointer: of two different
/// places one comes first, never both, and the order is transitive.
pub proof fn lemma_place_order(a: (Seq<char>, Seq<char>), b: (Seq<char>, Seq<char>), c: (Seq<char>, Seq<char>))
    ensures
        a != b ==> place_lt(a, b) || place_lt(b, a),
        !(place_lt(a, b) && place_lt(b, a)),
        place_lt(a, b) && place_lt(b, c) ==> place_lt(a, c),
{
    lemma_text_le_total(a.0, b.0);
    lemma_text_le_total(a.1, b.1);
    if place_lt(a, b) && place_lt(b, a) {
        if a.0 == b.0 {
            lemma_text_le_antisymmetric(a.1, b.1);
        } else {
            lemma_text_le_antisymmetric(a.0, b.0);
        }
    }
    if place_lt(a, b) && place_lt(b, c) {
        if a.0 == b.0 && b.0 == c.0 {
            lemma_text_le_transitive(a.1, b.1, c.1);
            if a == c {
                lemma_text_le_antisymmetric(a.1, b.1);
            }
        } else if a.0 == c.0 {
            lemma_text_le_antisymmetric(a.0, b.0);
        } else if a.0 == b.0 || b.0 == c.0 {
        } else {
            lemma_text_le_transitive(a.0, b.0, c.0);
        }
    }
}

/// The contents of a list of places.
pub open spec fn place_datas(v: Seq<SchemaLocationDefinition>) -> Seq<(Seq<char>, Seq<char>)> {
    v.map_values(|p: SchemaLocationDefinition| p@)
}

/// Some subschema among the first `n` is located at `x`.
pub open spec fn located_at(a: Seq<LocatedSchema>, n: int, x: (Seq<char>, Seq<char>)) -> bool {
    exists|k: int| 0 <= k < n && #[trigger] place_of(a[k]) == x
}

/// Whether `a` comes strictly before `b`.
fn place_lt_exec(a: &SchemaLocationDefinition, resource: &str, pointer: &str) -> (r: bool)
    ensures
        r == place_lt(a@, (resource@, pointer@)),
{
    if str_eq(a.resource.as_str(), resource) {
        if str_eq(a.pointer.as_str(), pointer) {
            false
        } else {
            text_le_exec(a.pointer.as_str(), pointer)
        }
    } else {
        text_le_exec(a.resource.as_str(), resource)
    }
}

/// The distinct places of the applicable subschemas, ordered by resource,
/// then pointer.
pub fn schema_locations(applicable: &Vec<LocatedSchema>) -> (r: Vec<SchemaLocationDefinition>)
    ensures
        forall|i: int, j: int| 0 <= i < j < r.len() ==> place_lt(#[trigger] r@[i]@, #[trigger] r@[j]@),
        forall|x: (Seq<char>, Seq<char>)|
            place_datas(r@).contains(x) <==> located_at(applicable@, applicable.len() as int, x),
{
    let mut out: Vec<SchemaLocationDefinition> = Vec::new();
    let mut i: usize = 0;
    while i < applicable.len()
        invariant
            i <= applicable.len(),
            forall|a: int, b: int| 0 <= a < b < out.len() ==> place_lt(#[trigger] out@[a]@, #[trigger] out@[b]@),
            forall|x: (Seq<char>, Seq<char>)| place_datas(out@).contains(x) <==> located_at(applicable@, i as int, x),
        decreases applicable.len() - i,
    {
        let located = &applicable[i];
        let ghost x = place_of(applicable@[i as int]);
        let mut p: usize = 0;
        while p < out.len() && place_lt_exec(&out[p], located.resource.as_str(), located.pointer.as_str())
            invariant
                p <= out.len(),
                x == (located.resource@, located.pointer@),
                forall|q: int| 0 <= q < p ==> place_lt(#[trigger] out@[q]@, x),
            decreases out.len() - p,
        {
            p += 1;
        }
        let ghost before = out@;
        assert(located_at(applicable@, i + 1, x)) by {
            assert(place_of(applicable@[i as int]) == x);
        }
        assert forall|y: (Seq<char>, Seq<char>)| located_at(applicable@, i + 1, y) <==> (located_at(applicable@, i as int, y) || y == x) by {
            if located_at(applicable@, i + 1, y) {
                let k = choose|k: int| 0 <= k < i + 1 && #[trigger] place_of(applicable@[k]) == y;
                if k < i {
                    assert(located_at(applicable@, i as int, y));
                }
            }
            if located_at(applicable@, i as int, y) {
                let k = choose|k: int| 0 <= k < i && #[trigger] place_of(applicable@[k]) == y;
                assert(place_of(applicable@[k]) == y);
            }
        }
        if p < out.len() && str_eq(out[p].resource.as_str(), located.resource.as_str()) && str_eq(
            out[p].pointer.as_str(),
            located.pointer.as_str(),
        ) {
            assert(place_datas(out@)[p as int] == x);
            assert(place_datas(out@).contains(x));
        } else {
            if p < out.len() {
                proof {
                    lemma_place_order(out@[p as int]@, x, x);
                }
                assert(place_lt(x, out@[p as int]@));
            }
            out.insert(p, SchemaLocationDefinition { resource: located.resource.clone(), pointer: located.pointer.duplicate() });
            proof {
                assert(place_datas(out@) =~= place_datas(before).insert(p as int, x));
                assert forall|a: int, b: int| 0 <= a < b < out.len() implies place_lt(#[trigger] out@[a]@, #[trigger] out@[b]@) by {
                    if b < p {
                        assert(out@[a] == before[a] && out@[b] == before[b]);
                    } else if b == p {
                        assert(out@[a] == before[a]);
                    } else if a == p {
                        assert(out@[b] == before[b - 1]);
                        if b - 1 > p {
                            lemma_place_order(x, before[p as int]@, before[b - 1]@);
                        }
                    } else if a < p {
                        assert(out@[a] == before[a] && out@[b] == before[b - 1]);
                    } else {
                        assert(out@[a] == before[a - 1] && out@[b] == before[b - 1]);
                    }
                }
                assert forall|y: (Seq<char>, Seq<char>)| place_datas(out@).contains(y) <==> (place_datas(before).contains(y) || y == x) by {
                    let d = place_datas(out@);
                    let e = place_datas(before);
                    if d.contains(y) {
                        let k = choose|k: int| 0 <= k < d.len() && d[k] == y;
                        if k < p {
                            assert(e[k] == y);
                        } else if k > p {
                            assert(e[k - 1] == y);
                        }
                    }
                    if e.contains(y) {
                        let k = choose|k: int| 0 <= k < e.len() && e[k] == y;
                        if k < p {
                            assert(d[k] == y);
                        } else {
                            assert(d[k + 1] == y);
                        }
                    }
                    if y == x {
                        assert(d[p as int] == x);
                    }
                }
            }
        }
        assert forall|y: (Seq<char>, Seq<char>)| place_datas(out@).contains(y) <==> located_at(applicable@, i + 1, y) by {
            assert(place_datas(before).contains(y) <==> located_at(applicable@, i as int, y));
            assert(located_at(applicable@, i + 1, y) <==> (located_at(applicable@, i as int, y) || y == x));
            assert(place_datas(out@).contains(y) <==> (place_datas(before).contains(y) || y == x));
        }
        i += 1;
    }
    out
}

} // verus!
