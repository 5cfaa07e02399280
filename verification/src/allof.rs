use vstd::prelude::*;
use vstd::relations::{sorted_by, total_ordering};

use crate::address::{usize_text, JsonPointer};
use crate::choices::{located_view, member_exec, member_of, schemas_of, FindingReport, LocatedSchema, UnsupportedFinding};
use crate::fingerprint::positions_of;
use crate::number::lemma_digits_are_number;
use crate::projection::{infer_kind, schema_data, spec_infer_kind};
use crate::text::{
    lemma_nat_text_digits, lemma_text_le_antisymmetric, lemma_text_le_total, lemma_text_le_transitive, nat_text, str_eq,
    string_from_chars, text_le, text_le_exec,
};
use crate::value::{JsonData, JsonNumber, JsonValue};

verus! {

/// An `allOf` keyword that a subschema was reached through: the resource
/// that holds it, its location there, and its number of branches.
#[derive(Debug)]
pub struct AllOfOrigin {
    pub resource: String,
    pub keyword_location: JsonPointer,
    pub branch_count: usize,
}

/// The content of an `allOf` origin.
pub struct OriginData {
    pub resource: Seq<char>,
    pub keyword_location: Seq<char>,
    pub branch_count: nat,
}

impl View for AllOfOrigin {
    type V = OriginData;

    open spec fn view(&self) -> OriginData {
        OriginData {
            resource: self.resource@,
            keyword_location: self.keyword_location@,
            branch_count: self.branch_count as nat,
        }
    }
}

/// A subschema's membership in an `allOf`: the origin, and the branch the
/// subschema was reached through (none for the schema holding the keyword).
#[derive(Debug)]
pub struct AllOfMembership {
    pub origin: AllOfOrigin,
    pub branch_index: Option<usize>,
}

/// The content of a membership.
pub type MembershipData = (OriginData, Option<usize>);

impl View for AllOfMembership {
    type V = MembershipData;

    open spec fn view(&self) -> MembershipData {
        (self.origin@, self.branch_index)
    }
}

impl AllOfOrigin {
    /// Whether two origins name the same keyword with the same branch count.
    pub fn same(&self, other: &AllOfOrigin) -> (r: bool)
        ensures
            r == (self@ == other@),
    {
        str_eq(self.resource.as_str(), other.resource.as_str())
            && str_eq(self.keyword_location.as_str(), other.keyword_location.as_str())
            && self.branch_count == other.branch_count
    }

    /// An origin with the same content.
    pub fn duplicate(&self) -> (r: AllOfOrigin)
        ensures
            r@ == self@,
    {
        AllOfOrigin {
            resource: self.resource.clone(),
            keyword_location: self.keyword_location.duplicate(),
            branch_count: self.branch_count,
        }
    }
}

impl AllOfMembership {
    /// Whether two memberships have the same origin and branch.
    pub fn same(&self, other: &AllOfMembership) -> (r: bool)
        ensures
            r == (self@ == other@),
    {
        let same_branch = match (self.branch_index, other.branch_index) {
            (Some(a), Some(b)) => a == b,
            (None, None) => true,
            _ => false,
        };
        same_branch && self.origin.same(&other.origin)
    }

    /// A membership with the same content.
    pub fn duplicate(&self) -> (r: AllOfMembership)
        ensures
            r@ == self@,
    {
        AllOfMembership { origin: self.origin.duplicate(), branch_index: self.branch_index }
    }
}

/// The contents of a list of memberships.
pub open spec fn membership_datas(ms: Seq<AllOfMembership>) -> Seq<MembershipData> {
    ms.map_values(|m: AllOfMembership| m@)
}

/// The `allOf` memberships of a located subschema.
pub open spec fn memberships_of(l: LocatedSchema) -> Seq<MembershipData> {
    membership_datas(l.all_of_memberships@)
}

/// Adds a membership unless an equal one is already recorded.
pub fn push_membership(memberships: &mut Vec<AllOfMembership>, membership: AllOfMembership)
    ensures
        membership_datas(old(memberships)@).contains(membership@) ==>
            membership_datas(final(memberships)@) == membership_datas(old(memberships)@),
        !membership_datas(old(memberships)@).contains(membership@) ==>
            membership_datas(final(memberships)@) == membership_datas(old(memberships)@).push(membership@),
{
    let ghost before = membership_datas(memberships@);
    let mut i: usize = 0;
    while i < memberships.len()
        invariant
            i <= memberships.len(),
            before == membership_datas(memberships@),
            forall|k: int| 0 <= k < i ==> before[k] != membership@,
        decreases memberships.len() - i,
    {
        if memberships[i].same(&membership) {
            assert(before[i as int] == membership@);
            return;
        }
        i += 1;
    }
    assert(!before.contains(membership@));
    memberships.push(membership);
    assert(membership_datas(memberships@) =~= before.push(membership@));
}

/// Position `i` holds the first membership of origin `o`.
pub open spec fn first_at(ms: Seq<MembershipData>, o: OriginData, i: int) -> bool {
    &&& 0 <= i < ms.len()
    &&& ms[i].0 == o
    &&& forall|k: int| 0 <= k < i ==> ms[k].0 != o
}

/// The position of the first membership of origin `o`, or -1 when there is
/// none.
pub open spec fn first_position(ms: Seq<MembershipData>, o: OriginData) -> int {
    if exists|i: int| first_at(ms, o, i) {
        choose|i: int| first_at(ms, o, i)
    } else {
        -1
    }
}

proof fn lemma_first_at_unique(ms: Seq<MembershipData>, o: OriginData, i: int)
    requires
        first_at(ms, o, i),
    ensures
        first_position(ms, o) == i,
{
    let j = first_position(ms, o);
    assert(first_at(ms, o, j));
    if j < i {
        assert(ms[j].0 != o);
    } else if i < j {
        assert(ms[i].0 != o);
    }
}

proof fn lemma_first_exists(ms: Seq<MembershipData>, o: OriginData, k: int)
    requires
        0 <= k < ms.len(),
        ms[k].0 == o,
    ensures
        first_position(ms, o) >= 0,
    decreases k,
{
    if forall|g: int| 0 <= g < k ==> ms[g].0 != o {
        assert(first_at(ms, o, k));
        lemma_first_at_unique(ms, o, k);
    } else {
        let g = choose|g: int| 0 <= g < k && ms[g].0 == o;
        lemma_first_exists(ms, o, g);
    }
}

/// The position of the first membership of `origin`.
fn find_origin(memberships: &Vec<AllOfMembership>, origin: &AllOfOrigin) -> (r: Option<usize>)
    ensures
        match r {
            Some(i) => first_position(membership_datas(memberships@), origin@) == i as int,
            None => first_position(membership_datas(memberships@), origin@) == -1,
        },
{
    let ghost ms = membership_datas(memberships@);
    let mut i: usize = 0;
    while i < memberships.len()
        invariant
            i <= memberships.len(),
            ms == membership_datas(memberships@),
            forall|k: int| 0 <= k < i ==> ms[k].0 != origin@,
        decreases memberships.len() - i,
    {
        if memberships[i].origin.same(origin) {
            proof {
                assert(first_at(ms, origin@, i as int));
                lemma_first_at_unique(ms, origin@, i as int);
            }
            return Some(i);
        }
        i += 1;
    }
    assert(!exists|k: int| first_at(ms, origin@, k));
    None
}

/// In the memberships `ms`, origin `a` is entered before origin `d`.
pub open spec fn entered_before(ms: Seq<MembershipData>, a: OriginData, d: OriginData) -> bool {
    let i = first_position(ms, a);
    let j = first_position(ms, d);
    0 <= i && 0 <= j && i < j
}

/// Some applicable subschema was reached through `ancestor` before
/// `descendant`: the second `allOf` is nested in a branch of the first.
pub open spec fn precedes(ancestor: OriginData, descendant: OriginData, applicable: Seq<LocatedSchema>) -> bool {
    exists|l: int| 0 <= l < applicable.len() && #[trigger] entered_before(memberships_of(applicable[l]), ancestor, descendant)
}

/// Whether `ancestor` encloses `descendant` in some applicable subschema.
pub fn origin_precedes(ancestor: &AllOfOrigin, descendant: &AllOfOrigin, applicable: &Vec<LocatedSchema>) -> (r: bool)
    ensures
        r == precedes(ancestor@, descendant@, applicable@),
{
    let mut l: usize = 0;
    while l < applicable.len()
        invariant
            l <= applicable.len(),
            forall|k: int| 0 <= k < l ==> !#[trigger] entered_before(memberships_of(applicable@[k]), ancestor@, descendant@),
        decreases applicable.len() - l,
    {
        let memberships = &applicable[l].all_of_memberships;
        let a = find_origin(memberships, ancestor);
        let d = find_origin(memberships, descendant);
        if let (Some(i), Some(j)) = (a, d) {
            if i < j {
                assert(entered_before(memberships_of(applicable@[l as int]), ancestor@, descendant@));
                return true;
            }
        }
        l += 1;
    }
    false
}

/// The located subschema `l` was reached through origin `o`.
pub open spec fn reached_through(l: LocatedSchema, o: OriginData) -> bool {
    exists|k: int| 0 <= k < memberships_of(l).len() && #[trigger] memberships_of(l)[k].0 == o
}

/// The applicable subschemas reached through origin `o`, in order.
pub open spec fn select_for_origin(a: Seq<LocatedSchema>, o: OriginData) -> Seq<LocatedSchema>
    decreases a.len(),
{
    if a.len() == 0 {
        Seq::empty()
    } else {
        let r = select_for_origin(a.drop_last(), o);
        if reached_through(a.last(), o) {
            r.push(a.last())
        } else {
            r
        }
    }
}

/// Everything a located subschema holds.
pub open spec fn located_data(l: LocatedSchema) -> ((JsonData, Seq<char>, Seq<char>), Seq<MembershipData>) {
    (located_view(l), memberships_of(l))
}

/// The contents of a list of located subschemas.
pub open spec fn located_datas(a: Seq<LocatedSchema>) -> Seq<((JsonData, Seq<char>, Seq<char>), Seq<MembershipData>)> {
    a.map_values(|l: LocatedSchema| located_data(l))
}

/// A located subschema with the same content.
pub fn copy_located<'a>(l: &LocatedSchema<'a>) -> (r: LocatedSchema<'a>)
    ensures
        located_data(r) == located_data(*l),
        r.schema == l.schema,
{
    let mut memberships: Vec<AllOfMembership> = Vec::new();
    let mut i: usize = 0;
    while i < l.all_of_memberships.len()
        invariant
            i <= l.all_of_memberships.len(),
            membership_datas(memberships@) == memberships_of(*l).take(i as int),
        decreases l.all_of_memberships.len() - i,
    {
        let ghost before = memberships@;
        memberships.push(l.all_of_memberships[i].duplicate());
        assert(memberships_of(*l)[i as int] == l.all_of_memberships@[i as int]@);
        assert(membership_datas(memberships@) =~= membership_datas(before).push(l.all_of_memberships@[i as int]@));
        assert(memberships_of(*l).take(i + 1) =~= memberships_of(*l).take(i as int).push(memberships_of(*l)[i as int]));
        i += 1;
    }
    assert(memberships_of(*l).take(i as int) =~= memberships_of(*l));
    LocatedSchema {
        schema: l.schema,
        resource: l.resource.clone(),
        pointer: l.pointer.duplicate(),
        all_of_memberships: memberships,
    }
}

/// The applicable subschemas reached through `origin`, in order.
pub fn schemas_for_origin<'a>(applicable: &Vec<LocatedSchema<'a>>, origin: &AllOfOrigin) -> (r: Vec<LocatedSchema<'a>>)
    ensures
        located_datas(r@) == located_datas(select_for_origin(applicable@, origin@)),
        r@.map_values(|l: LocatedSchema<'a>| l.schema) == select_for_origin(applicable@, origin@).map_values(
            |l: LocatedSchema<'a>| l.schema,
        ),
{
    let mut out: Vec<LocatedSchema<'a>> = Vec::new();
    let mut i: usize = 0;
    while i < applicable.len()
        invariant
            i <= applicable.len(),
            located_datas(out@) == located_datas(select_for_origin(applicable@.take(i as int), origin@)),
            out@.map_values(|l: LocatedSchema<'a>| l.schema) == select_for_origin(
                applicable@.take(i as int),
                origin@,
            ).map_values(|l: LocatedSchema<'a>| l.schema),
        decreases applicable.len() - i,
    {
        let ghost prefix = applicable@.take(i + 1);
        assert(prefix.drop_last() =~= applicable@.take(i as int));
        assert(prefix.last() == applicable@[i as int]);
        let ghost ms = memberships_of(applicable@[i as int]);
        let found = find_origin(&applicable[i].all_of_memberships, origin);
        let ghost sel = select_for_origin(applicable@.take(i as int), origin@);
        match found {
            Some(k) => {
                assert(ms[k as int].0 == origin@);
                assert(reached_through(applicable@[i as int], origin@));
                let copy = copy_located(&applicable[i]);
                let ghost old_out = out@;
                out.push(copy);
                assert(select_for_origin(prefix, origin@) == sel.push(applicable@[i as int]));
                assert(located_datas(out@) =~= located_datas(old_out).push(located_data(applicable@[i as int])));
                assert(located_datas(sel.push(applicable@[i as int])) =~= located_datas(sel).push(located_data(applicable@[i as int])));
                assert(out@.map_values(|l: LocatedSchema<'a>| l.schema) =~= old_out.map_values(|l: LocatedSchema<'a>| l.schema).push(applicable@[i as int].schema));
                assert(sel.push(applicable@[i as int]).map_values(|l: LocatedSchema<'a>| l.schema) =~= sel.map_values(|l: LocatedSchema<'a>| l.schema).push(applicable@[i as int].schema));
            },
            None => {
                assert(!reached_through(applicable@[i as int], origin@)) by {
                    if reached_through(applicable@[i as int], origin@) {
                        let k = choose|k: int| 0 <= k < ms.len() && #[trigger] ms[k].0 == origin@;
                        lemma_first_exists(ms, origin@, k);
                    }
                }
                assert(select_for_origin(prefix, origin@) == sel);
            },
        }
        i += 1;
    }
    assert(applicable@.take(i as int) =~= applicable@);
    out
}

/// Two origins name the same keyword: same resource, same location.
pub open spec fn same_keyword(a: OriginData, b: OriginData) -> bool {
    a.resource == b.resource && a.keyword_location == b.keyword_location
}

/// Origins ordered by resource, then by keyword location, in code point
/// order.
pub open spec fn origin_le(a: OriginData, b: OriginData) -> bool {
    if a.resource == b.resource {
        text_le(a.keyword_location, b.keyword_location)
    } else {
        text_le(a.resource, b.resource)
    }
}

proof fn lemma_origin_le(a: OriginData, b: OriginData, c: OriginData)
    ensures
        origin_le(a, b) || origin_le(b, a),
        origin_le(a, b) && origin_le(b, a) ==> same_keyword(a, b),
        origin_le(a, b) && origin_le(b, c) ==> origin_le(a, c),
        same_keyword(a, b) ==> origin_le(a, b),
{
    lemma_text_le_total(a.resource, b.resource);
    lemma_text_le_total(a.keyword_location, b.keyword_location);
    lemma_text_le_total(a.keyword_location, a.keyword_location);
    if origin_le(a, b) && origin_le(b, a) {
        if a.resource == b.resource {
            lemma_text_le_antisymmetric(a.keyword_location, b.keyword_location);
        } else {
            lemma_text_le_antisymmetric(a.resource, b.resource);
        }
    }
    if origin_le(a, b) && origin_le(b, c) {
        if a.resource == b.resource && b.resource == c.resource {
            lemma_text_le_transitive(a.keyword_location, b.keyword_location, c.keyword_location);
        } else if a.resource == c.resource {
            if a.resource != b.resource {
                lemma_text_le_antisymmetric(a.resource, b.resource);
            }
        } else if a.resource == b.resource {
        } else if b.resource == c.resource {
        } else {
            lemma_text_le_transitive(a.resource, b.resource, c.resource);
        }
    }
}

/// The origin at position `i`, or an empty one outside the sequence.
pub open spec fn origin_at(os: Seq<OriginData>, i: int) -> OriginData {
    if 0 <= i < os.len() {
        os[i]
    } else {
        OriginData { resource: Seq::empty(), keyword_location: Seq::empty(), branch_count: 0 }
    }
}

/// Positions ordered by their origins' resource and location; positions
/// naming the same keyword keep their relative order.
pub open spec fn origin_position_order(os: Seq<OriginData>) -> spec_fn(int, int) -> bool {
    |i: int, j: int|
        if same_keyword(origin_at(os, i), origin_at(os, j)) {
            i <= j
        } else {
            origin_le(origin_at(os, i), origin_at(os, j))
        }
}

proof fn lemma_origin_position_order_total(os: Seq<OriginData>)
    ensures
        total_ordering(origin_position_order(os)),
{
    let o = origin_position_order(os);
    assert forall|i: int| #[trigger] o(i, i) by {}
    assert forall|i: int, j: int| #[trigger] o(i, j) && #[trigger] o(j, i) implies i == j by {
        lemma_origin_le(origin_at(os, i), origin_at(os, j), origin_at(os, j));
    }
    assert forall|i: int, j: int, k: int| #[trigger] o(i, j) && #[trigger] o(j, k) implies o(i, k) by {
        let (a, b, c) = (origin_at(os, i), origin_at(os, j), origin_at(os, k));
        lemma_origin_le(a, b, c);
        lemma_origin_le(b, c, a);
        lemma_origin_le(c, a, b);
        lemma_origin_le(a, c, b);
        lemma_origin_le(b, a, c);
        lemma_origin_le(c, b, a);
    }
    assert forall|i: int, j: int| #[trigger] o(i, j) || #[trigger] o(j, i) by {
        lemma_origin_le(origin_at(os, i), origin_at(os, j), origin_at(os, j));
    }
}

/// The contents of a list of origins.
pub open spec fn origin_datas(os: Seq<AllOfOrigin>) -> Seq<OriginData> {
    os.map_values(|o: AllOfOrigin| o@)
}

/// The origins in the order of a stable sort by resource, then keyword
/// location.
pub open spec fn sorted_origins(os: Seq<OriginData>) -> Seq<OriginData> {
    Seq::new(os.len(), |i: int| i).sort_by(origin_position_order(os)).map_values(|p: int| os[p])
}

/// The sequence with each run of equal neighbours reduced to its first.
pub open spec fn dedup_adjacent(s: Seq<OriginData>) -> Seq<OriginData>
    decreases s.len(),
{
    if s.len() <= 1 {
        s
    } else {
        let r = dedup_adjacent(s.drop_last());
        if s.last() == s[s.len() - 2] {
            r
        } else {
            r.push(s.last())
        }
    }
}

proof fn lemma_dedup_last(s: Seq<OriginData>)
    ensures
        dedup_adjacent(s).len() > 0 <==> s.len() > 0,
        s.len() > 0 ==> dedup_adjacent(s).last() == s.last(),
    decreases s.len(),
{
    if s.len() > 1 {
        lemma_dedup_last(s.drop_last());
    }
}

/// Whether origin `a` comes no later than origin `b`.
fn origin_le_exec(a: &AllOfOrigin, b: &AllOfOrigin) -> (r: bool)
    ensures
        r == origin_le(a@, b@),
{
    if str_eq(a.resource.as_str(), b.resource.as_str()) {
        text_le_exec(a.keyword_location.as_str(), b.keyword_location.as_str())
    } else {
        text_le_exec(a.resource.as_str(), b.resource.as_str())
    }
}

/// The positions of `origins` in the order of a stable sort by resource,
/// then keyword location (insertion sort).
fn origin_positions(origins: &Vec<AllOfOrigin>) -> (r: Vec<usize>)
    ensures
        positions_of(r@) == Seq::new(origins.len() as nat, |i: int| i).sort_by(origin_position_order(origin_datas(origins@))),
        r.len() == origins.len(),
        forall|q: int| 0 <= q < r.len() ==> #[trigger] r@[q] < origins.len(),
{
    let ghost os = origin_datas(origins@);
    let ghost o = origin_position_order(os);
    proof {
        lemma_origin_position_order_total(os);
    }
    let mut out: Vec<usize> = Vec::new();
    assert(positions_of(out@) =~= Seq::new(0, |q: int| q));
    let mut i: usize = 0;
    while i < origins.len()
        invariant
            i <= origins.len(),
            os == origin_datas(origins@),
            o == origin_position_order(os),
            total_ordering(o),
            out.len() == i,
            positions_of(out@).to_multiset() == Seq::new(i as nat, |q: int| q).to_multiset(),
            forall|q: int| 0 <= q < out.len() ==> #[trigger] out@[q] < i,
            sorted_by(positions_of(out@), o),
        decreases origins.len() - i,
    {
        let mut p: usize = 0;
        while p < out.len()
            invariant_except_break
                p <= out.len(),
                forall|q: int| 0 <= q < p ==> #[trigger] o(positions_of(out@)[q], i as int),
            invariant
                i < origins.len(),
                out.len() == i,
                forall|q: int| 0 <= q < out.len() ==> #[trigger] out@[q] < i,
                os == origin_datas(origins@),
                o == origin_position_order(os),
            ensures
                p <= out.len(),
                forall|q: int| 0 <= q < p ==> #[trigger] o(positions_of(out@)[q], i as int),
                p < out.len() ==> !o(positions_of(out@)[p as int], i as int),
            decreases out.len() - p,
        {
            let j = out[p];
            assert(os[j as int] == origins@[j as int]@);
            assert(os[i as int] == origins@[i as int]@);
            if origin_le_exec(&origins[j], &origins[i]) {
                assert(o(positions_of(out@)[p as int], i as int)) by {
                    assert(positions_of(out@)[p as int] == j as int);
                }
                p += 1;
            } else {
                assert(!o(positions_of(out@)[p as int], i as int)) by {
                    assert(positions_of(out@)[p as int] == j as int);
                    lemma_origin_le(os[j as int], os[i as int], os[i as int]);
                }
                break;
            }
        }
        let ghost before = positions_of(out@);
        out.insert(p, i);
        proof {
            let after = positions_of(out@);
            assert(after =~= before.insert(p as int, i as int));
            vstd::seq_lib::to_multiset_insert(before, p as int, i as int);
            let upto = Seq::new(i as nat, |q: int| q);
            assert(Seq::new((i + 1) as nat, |q: int| q) =~= upto.push(i as int));
            vstd::seq_lib::to_multiset_build(upto, i as int);
            assert forall|a: int, b: int| 0 <= a < b < after.len() implies #[trigger] o(after[a], after[b]) by {
                if b < p as int {
                    assert(after[a] == before[a] && after[b] == before[b]);
                } else if b == p as int {
                    assert(after[a] == before[a] && after[b] == i as int);
                } else if a == p as int {
                    assert(after[a] == i as int && after[b] == before[b - 1]);
                    assert(!o(before[p as int], i as int));
                    assert(o(i as int, before[p as int]));
                    if b - 1 > p as int {
                        assert(o(before[p as int], before[b - 1]));
                    }
                } else if a < p as int {
                    assert(after[a] == before[a] && after[b] == before[b - 1]);
                } else {
                    assert(after[a] == before[a - 1] && after[b] == before[b - 1]);
                }
            }
        }
        i += 1;
    }
    proof {
        let all = Seq::new(origins.len() as nat, |q: int| q);
        all.lemma_sort_by_ensures(o);
        vstd::seq_lib::lemma_sorted_unique(positions_of(out@), all.sort_by(o), o);
    }
    out
}

/// The origins sorted by resource, then keyword location (stably), with
/// repeated neighbours dropped.
pub fn sort_and_dedup_origins(origins: Vec<AllOfOrigin>) -> (r: Vec<AllOfOrigin>)
    ensures
        origin_datas(r@) == dedup_adjacent(sorted_origins(origin_datas(origins@))),
{
    let ghost os = origin_datas(origins@);
    let positions = origin_positions(&origins);
    let ghost order = Seq::new(origins.len() as nat, |i: int| i).sort_by(origin_position_order(os));
    let ghost sorted = sorted_origins(os);
    proof {
        assert(sorted == order.map_values(|p: int| os[p]));
        assert(order.len() == positions.len());
    }
    let mut out: Vec<AllOfOrigin> = Vec::new();
    let mut k: usize = 0;
    while k < positions.len()
        invariant
            k <= positions.len(),
            positions.len() == origins.len(),
            positions_of(positions@) == order,
            sorted == order.map_values(|p: int| os[p]),
            os == origin_datas(origins@),
            forall|q: int| 0 <= q < positions.len() ==> #[trigger] positions@[q] < origins.len(),
            origin_datas(out@) == dedup_adjacent(sorted.take(k as int)),
        decreases positions.len() - k,
    {
        let p = positions[k];
        let next = origins[p].duplicate();
        assert(sorted[k as int] == next@) by {
            assert(order[k as int] == p as int);
        }
        let ghost prefix = sorted.take(k + 1);
        assert(prefix.drop_last() =~= sorted.take(k as int));
        proof {
            lemma_dedup_last(sorted.take(k as int));
        }
        let n = out.len();
        if n > 0 && out[n - 1].same(&next) {
            assert(prefix.last() == prefix[prefix.len() - 2]);
        } else {
            let ghost before = out@;
            out.push(next);
            assert(origin_datas(out@) =~= origin_datas(before).push(next@));
            if k > 0 {
                assert(prefix.last() != prefix[prefix.len() - 2]);
            } else {
                assert(prefix =~= seq![next@]);
            }
        }
        k += 1;
    }
    assert(sorted.take(k as int) =~= sorted);
    out
}

/// The origins of the memberships that sit in a branch, in order.
pub open spec fn branch_origins(ms: Seq<MembershipData>) -> Seq<OriginData>
    decreases ms.len(),
{
    if ms.len() == 0 {
        Seq::empty()
    } else {
        let r = branch_origins(ms.drop_last());
        if ms.last().1 is Some {
            r.push(ms.last().0)
        } else {
            r
        }
    }
}

/// The branch origins of every applicable subschema that holds the
/// assertion keyword `keyword`, in order.
pub open spec fn contributing_origins(a: Seq<LocatedSchema>, keyword: Seq<char>) -> Seq<OriginData>
    decreases a.len(),
{
    if a.len() == 0 {
        Seq::empty()
    } else {
        let r = contributing_origins(a.drop_last(), keyword);
        if member_of(a.last().schema@, keyword) is Some {
            r + branch_origins(memberships_of(a.last()))
        } else {
            r
        }
    }
}

/// The `allOf` origins whose branches hold the assertion keyword `keyword`
/// somewhere among the applicable subschemas, sorted by resource and
/// keyword location, without repeated neighbours.
pub fn branch_contributing_origins(applicable: &Vec<LocatedSchema>, keyword: &str) -> (r: Vec<AllOfOrigin>)
    ensures
        origin_datas(r@) == dedup_adjacent(sorted_origins(contributing_origins(applicable@, keyword@))),
{
    let mut found: Vec<AllOfOrigin> = Vec::new();
    let mut i: usize = 0;
    while i < applicable.len()
        invariant
            i <= applicable.len(),
            origin_datas(found@) == contributing_origins(applicable@.take(i as int), keyword@),
        decreases applicable.len() - i,
    {
        let ghost prefix = applicable@.take(i + 1);
        assert(prefix.drop_last() =~= applicable@.take(i as int));
        assert(prefix.last() == applicable@[i as int]);
        let located = &applicable[i];
        if member_exec(located.schema, keyword).is_some() {
            let ghost base = origin_datas(found@);
            let ghost ms = memberships_of(*located);
            let mut m: usize = 0;
            while m < located.all_of_memberships.len()
                invariant
                    m <= located.all_of_memberships.len(),
                    ms == memberships_of(*located),
                    origin_datas(found@) == base + branch_origins(ms.take(m as int)),
                decreases located.all_of_memberships.len() - m,
            {
                let membership = &located.all_of_memberships[m];
                assert(ms[m as int] == membership@);
                assert(ms.take(m + 1).drop_last() =~= ms.take(m as int));
                if membership.branch_index.is_some() {
                    let ghost before = found@;
                    found.push(membership.origin.duplicate());
                    assert(origin_datas(found@) =~= origin_datas(before).push(membership.origin@));
                    assert(base + branch_origins(ms.take(m + 1)) =~= (base + branch_origins(ms.take(m as int))).push(
                        membership.origin@,
                    ));
                }
                m += 1;
            }
            assert(ms.take(m as int) =~= ms);
        }
        i += 1;
    }
    assert(applicable@.take(i as int) =~= applicable@);
    sort_and_dedup_origins(found)
}

/// No other candidate is nested inside `c` in the applicable subschemas.
pub open spec fn is_leaf(c: OriginData, candidates: Seq<OriginData>, applicable: Seq<LocatedSchema>) -> bool {
    forall|k: int| 0 <= k < candidates.len() && #[trigger] candidates[k] != c ==> !precedes(c, candidates[k], applicable)
}

/// The entries of `s` that are leaves among `candidates`, in order.
pub open spec fn leaves(s: Seq<OriginData>, candidates: Seq<OriginData>, applicable: Seq<LocatedSchema>) -> Seq<OriginData>
    decreases s.len(),
{
    if s.len() == 0 {
        Seq::empty()
    } else {
        let r = leaves(s.drop_last(), candidates, applicable);
        if is_leaf(s.last(), candidates, applicable) {
            r.push(s.last())
        } else {
            r
        }
    }
}

/// The candidates that enclose no other candidate, sorted by resource and
/// keyword location, without repeated neighbours.
pub fn leaf_conflict_origins(applicable: &Vec<LocatedSchema>, candidates: Vec<AllOfOrigin>) -> (r: Vec<AllOfOrigin>)
    ensures
        origin_datas(r@) == dedup_adjacent(
            sorted_origins(leaves(origin_datas(candidates@), origin_datas(candidates@), applicable@)),
        ),
{
    let ghost cands = origin_datas(candidates@);
    let mut kept: Vec<AllOfOrigin> = Vec::new();
    let mut i: usize = 0;
    while i < candidates.len()
        invariant
            i <= candidates.len(),
            cands == origin_datas(candidates@),
            origin_datas(kept@) == leaves(cands.take(i as int), cands, applicable@),
        decreases candidates.len() - i,
    {
        let ghost c = candidates@[i as int]@;
        let mut leaf = true;
        let mut k: usize = 0;
        while k < candidates.len()
            invariant
                k <= candidates.len(),
                i < candidates.len(),
                cands == origin_datas(candidates@),
                c == candidates@[i as int]@,
                leaf == forall|q: int| 0 <= q < k && #[trigger] cands[q] != c ==> !precedes(c, cands[q], applicable@),
            decreases candidates.len() - k,
        {
            assert(cands[k as int] == candidates@[k as int]@);
            if !candidates[k].same(&candidates[i]) && origin_precedes(&candidates[i], &candidates[k], applicable) {
                leaf = false;
            }
            k += 1;
        }
        let ghost prefix = cands.take(i + 1);
        assert(prefix.drop_last() =~= cands.take(i as int));
        assert(prefix.last() == c);
        if leaf {
            let ghost before = kept@;
            kept.push(candidates[i].duplicate());
            assert(origin_datas(kept@) =~= origin_datas(before).push(c));
        }
        i += 1;
    }
    assert(cands.take(i as int) =~= cands);
    sort_and_dedup_origins(kept)
}

/// The entries of `s` whose subschemas together project no single kind.
pub open spec fn kind_conflicting(s: Seq<OriginData>, applicable: Seq<LocatedSchema>) -> Seq<OriginData>
    decreases s.len(),
{
    if s.len() == 0 {
        Seq::empty()
    } else {
        let r = kind_conflicting(s.drop_last(), applicable);
        if spec_infer_kind(schemas_of(select_for_origin(applicable, s.last()))) is None {
            r.push(s.last())
        } else {
            r
        }
    }
}

/// The `allOf` origins, among those whose branches declare `type`, whose
/// subschemas project no single kind and that enclose no other such origin,
/// sorted by resource and keyword location.
pub open spec fn kind_conflict_origins(applicable: Seq<LocatedSchema>) -> Seq<OriginData> {
    let candidates = kind_conflicting(
        dedup_adjacent(sorted_origins(contributing_origins(applicable, "type"@))),
        applicable,
    );
    dedup_adjacent(sorted_origins(leaves(candidates, candidates, applicable)))
}

/// The innermost `allOf` keywords whose branches declare types that no
/// single projected kind satisfies.
pub fn all_of_kind_conflicts(applicable: &Vec<LocatedSchema>) -> (r: Vec<AllOfOrigin>)
    ensures
        origin_datas(r@) == kind_conflict_origins(applicable@),
{
    let contributing = branch_contributing_origins(applicable, "type");
    let ghost all = origin_datas(contributing@);
    let mut conflicting: Vec<AllOfOrigin> = Vec::new();
    let mut i: usize = 0;
    while i < contributing.len()
        invariant
            i <= contributing.len(),
            all == origin_datas(contributing@),
            origin_datas(conflicting@) == kind_conflicting(all.take(i as int), applicable@),
        decreases contributing.len() - i,
    {
        let origin = &contributing[i];
        let selected = schemas_for_origin(applicable, origin);
        let mut schemas: Vec<&JsonValue> = Vec::new();
        let mut k: usize = 0;
        while k < selected.len()
            invariant
                k <= selected.len(),
                schemas@ == selected@.take(k as int).map_values(|l: LocatedSchema| l.schema),
            decreases selected.len() - k,
        {
            schemas.push(selected[k].schema);
            assert(selected@.take(k + 1).map_values(|l: LocatedSchema| l.schema) =~= selected@.take(k as int).map_values(
                |l: LocatedSchema| l.schema,
            ).push(selected@[k as int].schema));
            k += 1;
        }
        assert(selected@.take(k as int) =~= selected@);
        let ghost sel = select_for_origin(applicable@, origin@);
        assert(schema_data(schemas@) =~= schemas_of(sel)) by {
            assert(schemas@ == sel.map_values(|l: LocatedSchema| l.schema));
            assert forall|q: int| 0 <= q < sel.len() implies #[trigger] schema_data(schemas@)[q] == schemas_of(sel)[q] by {
                assert(schemas@[q] == sel[q].schema);
            }
        }
        let ghost prefix = all.take(i + 1);
        assert(prefix.drop_last() =~= all.take(i as int));
        assert(prefix.last() == origin@);
        if infer_kind(&schemas).is_none() {
            let ghost before = conflicting@;
            conflicting.push(origin.duplicate());
            assert(origin_datas(conflicting@) =~= origin_datas(before).push(origin@));
        }
        i += 1;
    }
    assert(all.take(i as int) =~= all);
    leaf_conflict_origins(applicable, conflicting)
}

/// The parameters of an ambiguous `allOf`: its branch count and the reason.
pub open spec fn ambiguity_parameters(branch_count: nat, reason: Seq<char>) -> JsonData {
    JsonData::Object(
        seq![("branchCount"@, JsonData::Number(nat_text(branch_count))), ("reason"@, JsonData::String(reason))],
    )
}

/// The finding that the `allOf` at `origin` cannot be projected, for
/// `reason`.
pub open spec fn ambiguity_finding(origin: OriginData, reason: Seq<char>) -> FindingReport {
    FindingReport {
        code: "applicator.all-of.ambiguous"@,
        keyword_location: origin.keyword_location,
        resource: origin.resource,
        parameters: ambiguity_parameters(origin.branch_count, reason),
    }
}

/// The unsupported-semantics finding for an ambiguous `allOf`.
pub fn all_of_unsupported_finding(origin: AllOfOrigin, reason: &str) -> (r: UnsupportedFinding)
    ensures
        r@ == ambiguity_finding(origin@, reason@),
{
    proof {
        lemma_nat_text_digits(origin.branch_count as nat);
        lemma_digits_are_number(nat_text(origin.branch_count as nat));
    }
    let digits = string_from_chars(&usize_text(origin.branch_count));
    let count = match JsonNumber::parse(digits.as_str()) {
        Some(number) => number,
        None => {
            proof {
                assert(false);
            }
            JsonNumber::parse("0").unwrap()
        },
    };
    let count_value = JsonValue::Number(count);
    let reason_value = JsonValue::String(reason.to_string());
    let count_name = "branchCount".to_string();
    let reason_name = "reason".to_string();
    let ghost first = (count_name@, count_value@);
    let ghost second = (reason_name@, reason_value@);
    let mut members: Vec<(String, JsonValue)> = Vec::new();
    members.push((count_name, count_value));
    members.push((reason_name, reason_value));
    let parameters = JsonValue::Object(members);
    assert(parameters@ == ambiguity_parameters(origin@.branch_count, reason@)) by {
        let m = parameters@->Object_0;
        assert(m.len() == 2);
        assert(m[0] == first);
        assert(m[1] == second);
        assert(m =~= ambiguity_parameters(origin@.branch_count, reason@)->Object_0);
    }
    UnsupportedFinding {
        code: "applicator.all-of.ambiguous".to_string(),
        keyword_location: origin.keyword_location,
        resource: origin.resource,
        parameters,
    }
}

} // verus!
