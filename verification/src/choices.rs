use vstd::prelude::*;
use vstd::relations::sorted_by;

use crate::address::{append_token, append_token_spec, lemma_append_token_valid, JsonPointer};
use crate::allof::AllOfMembership;
use crate::projection::{matches_declaration, value_matches_type_declaration, ProjectedKind};
use crate::text::{lemma_text_le_antisymmetric, lemma_text_le_total, lemma_text_le_transitive, str_eq, text_le, text_le_exec};
use crate::value::{copy_value, find_member, json_values_equal, member_index, spec_json_equal, JsonData, JsonValue};

verus! {

/// One applicable subschema with the resource and pointer it was found at,
/// and the `allOf` keywords it was reached through.
pub struct LocatedSchema<'a> {
    pub schema: &'a JsonValue,
    pub resource: String,
    pub pointer: JsonPointer,
    pub all_of_memberships: Vec<AllOfMembership>,
}

/// The content of a located subschema: schema, resource, pointer.
pub open spec fn located_view(l: LocatedSchema) -> (JsonData, Seq<char>, Seq<char>) {
    (l.schema@, l.resource@, l.pointer@)
}

/// The schemas of a list of located subschemas.
pub open spec fn schemas_of(a: Seq<LocatedSchema>) -> Seq<JsonData> {
    a.map_values(|l: LocatedSchema| l.schema@)
}

/// Semantics of a data schema that the form projection cannot represent.
#[derive(Debug)]
pub struct UnsupportedFinding {
    pub code: String,
    pub keyword_location: JsonPointer,
    pub resource: String,
    pub parameters: JsonValue,
}

/// The content of an unsupported-semantics finding.
pub struct FindingReport {
    pub code: Seq<char>,
    pub keyword_location: Seq<char>,
    pub resource: Seq<char>,
    pub parameters: JsonData,
}

impl View for UnsupportedFinding {
    type V = FindingReport;

    open spec fn view(&self) -> FindingReport {
        FindingReport {
            code: self.code@,
            keyword_location: self.keyword_location@,
            resource: self.resource@,
            parameters: self.parameters@,
        }
    }
}

/// The finding `code` against keyword `keyword` of a located subschema, with
/// empty parameters.
pub open spec fn keyword_finding(l: LocatedSchema, keyword: Seq<char>, code: Seq<char>) -> FindingReport {
    FindingReport {
        code,
        keyword_location: append_token_spec(l.pointer@, keyword),
        resource: l.resource@,
        parameters: JsonData::Object(Seq::empty()),
    }
}

pub(crate) fn finding_at(l: &LocatedSchema, keyword: &str, code: &str) -> (r: UnsupportedFinding)
    ensures
        r@ == keyword_finding(*l, keyword@, code@),
{
    let at = append_token(l.pointer.as_str(), keyword);
    proof {
        lemma_append_token_valid(l.pointer@, keyword@);
    }
    let parameters = JsonValue::Object(Vec::new());
    assert(parameters@ == JsonData::Object(Seq::empty())) by {
        assert(parameters@->Object_0 =~= Seq::<(Seq<char>, JsonData)>::empty());
    }
    UnsupportedFinding {
        code: code.to_owned(),
        keyword_location: JsonPointer::from_valid(at),
        resource: l.resource.clone(),
        parameters,
    }
}

/// The value of member `key` of a schema object.
pub open spec fn member_of(s: JsonData, key: Seq<char>) -> Option<JsonData> {
    match s {
        JsonData::Object(entries) => {
            let k = member_index(entries, key);
            if 0 <= k < entries.len() {
                Some(entries[k].1)
            } else {
                None
            }
        },
        _ => None,
    }
}

pub(crate) fn member_exec<'a>(schema: &'a JsonValue, key: &str) -> (r: Option<&'a JsonValue>)
    ensures
        match member_of(schema@, key@) {
            Some(d) => r matches Some(v) && v@ == d,
            None => r is None,
        },
{
    match schema {
        JsonValue::Object(entries) => match find_member(entries, key) {
            Some(k) => {
                assert(schema@->Object_0[k as int].1 == entries@[k as int].1@);
                Some(&entries[k].1)
            },
            None => None,
        },
        _ => None,
    }
}

/// The positions of the subschemas with an `enum` array.
pub open spec fn enum_positions(a: Seq<JsonData>) -> Seq<int>
    decreases a.len(),
{
    if a.len() == 0 {
        Seq::empty()
    } else {
        let r = enum_positions(a.drop_last());
        if member_of(a.last(), "enum"@) matches Some(JsonData::Array(_)) {
            r.push(a.len() - 1)
        } else {
            r
        }
    }
}

/// The positions of the subschemas with a `const`.
pub open spec fn const_positions(a: Seq<JsonData>) -> Seq<int>
    decreases a.len(),
{
    if a.len() == 0 {
        Seq::empty()
    } else {
        let r = const_positions(a.drop_last());
        if member_of(a.last(), "const"@) is Some {
            r.push(a.len() - 1)
        } else {
            r
        }
    }
}

/// The `enum` choices of subschema `i`.
pub open spec fn enum_values(a: Seq<JsonData>, i: int) -> Seq<JsonData> {
    member_of(a[i], "enum"@)->Some_0->Array_0
}

/// The `const` value of subschema `i`.
pub open spec fn const_value(a: Seq<JsonData>, i: int) -> JsonData {
    member_of(a[i], "const"@)->Some_0
}

/// An array or object.
pub open spec fn structured(v: JsonData) -> bool {
    v is Array || v is Object
}

/// Some value is an array or object.
pub open spec fn has_structured(vals: Seq<JsonData>) -> bool {
    exists|k: int| 0 <= k < vals.len() && structured(#[trigger] vals[k])
}

/// The first position in `c` whose constant is structured, or -1.
pub open spec fn first_structured_const(a: Seq<JsonData>, c: Seq<int>) -> int
    decreases c.len(),
{
    if c.len() == 0 {
        -1
    } else if first_structured_const(a, c.drop_last()) >= 0 {
        first_structured_const(a, c.drop_last())
    } else if structured(const_value(a, c.last())) {
        c.len() - 1
    } else {
        -1
    }
}

/// The first position in `c` whose constant differs from the first one, or -1.
pub open spec fn first_conflicting_const(a: Seq<JsonData>, c: Seq<int>, n: int) -> int
    decreases n,
{
    if n <= 0 || n > c.len() {
        -1
    } else if first_conflicting_const(a, c, n - 1) >= 0 {
        first_conflicting_const(a, c, n - 1)
    } else if !spec_json_equal(const_value(a, c[0]), const_value(a, c[n - 1])) {
        n - 1
    } else {
        -1
    }
}

/// `v` equals one of `choices`.
pub open spec fn equals_one_of(v: JsonData, choices: Seq<JsonData>) -> bool {
    exists|k: int| 0 <= k < choices.len() && spec_json_equal(v, #[trigger] choices[k])
}

/// `v` satisfies subschema `i` as far as choices go: the schema is not
/// `false` and its `type`, if any, admits `v`.
pub open spec fn schema_admits(s: JsonData, v: JsonData) -> bool {
    s != JsonData::Bool(false) && match member_of(s, "type"@) {
        Some(d) => matches_declaration(v, d),
        None => true,
    }
}

/// A candidate choice survives: it is among every later `enum`, equals every
/// `const`, and every applicable schema admits it.
pub open spec fn survives(v: JsonData, a: Seq<JsonData>, e: Seq<int>, c: Seq<int>) -> bool {
    &&& forall|j: int| 1 <= j < e.len() ==> equals_one_of(v, #[trigger] enum_values(a, e[j]))
    &&& forall|j: int| 0 <= j < c.len() ==> spec_json_equal(v, #[trigger] const_value(a, c[j]))
    &&& forall|i: int| 0 <= i < a.len() ==> schema_admits(#[trigger] a[i], v)
}

/// The candidates that survive, in order.
pub open spec fn surviving(vals: Seq<JsonData>, a: Seq<JsonData>, e: Seq<int>, c: Seq<int>) -> Seq<JsonData>
    decreases vals.len(),
{
    if vals.len() == 0 {
        Seq::empty()
    } else {
        let r = surviving(vals.drop_last(), a, e, c);
        if survives(vals.last(), a, e, c) {
            r.push(vals.last())
        } else {
            r
        }
    }
}

/// The values with each later repeat (by semantic equality) dropped.
pub open spec fn dedup(vals: Seq<JsonData>) -> Seq<JsonData>
    decreases vals.len(),
{
    if vals.len() == 0 {
        Seq::empty()
    } else {
        let r = dedup(vals.drop_last());
        if equals_one_of(vals.last(), r) {
            r
        } else {
            r.push(vals.last())
        }
    }
}

/// The rank of a scalar in the order of choices: null, booleans, numbers, strings.
pub open spec fn choice_rank(v: JsonData) -> int {
    match v {
        JsonData::Null => 0,
        JsonData::Bool(_) => 1,
        JsonData::Number(_) => 2,
        JsonData::String(_) => 3,
        _ => 4,
    }
}

/// The text a scalar is ordered by within its rank.
pub open spec fn choice_text(v: JsonData) -> Seq<char> {
    match v {
        JsonData::Bool(b) => if b { "true"@ } else { "false"@ },
        JsonData::Number(t) => t,
        JsonData::String(s) => s,
        _ => Seq::empty(),
    }
}

/// The order of choices: by rank, then by text.
pub open spec fn choice_le(x: JsonData, y: JsonData) -> bool {
    choice_rank(x) < choice_rank(y) || (choice_rank(x) == choice_rank(y) && text_le(choice_text(x), choice_text(y)))
}

/// When the only choice is the null of a null-only type, every applicable
/// schema admits null.
pub open spec fn null_choice_admitted(a: Seq<LocatedSchema>, kind: Option<ProjectedKind>) -> bool {
    let s = schemas_of(a);
    let e = enum_positions(s);
    let c = const_positions(s);
    e.len() == 0 && c.len() == 0 && kind == Some(ProjectedKind::Null) ==> survives(JsonData::Null, s, e, c)
}

/// The compiled scalar choices of a control.
#[derive(Debug)]
pub struct ScalarChoices {
    pub values: Vec<JsonValue>,
    pub selectable: bool,
    pub null_only: bool,
}

/// The views of a vector of values.
pub open spec fn datas(v: Seq<JsonValue>) -> Seq<JsonData> {
    v.map_values(|x: JsonValue| x@)
}

/// The outcome of compiling scalar choices, before ordering: `Ok(None)` when
/// there are no choices; the blocking finding when they cannot be compiled;
/// otherwise the surviving distinct values (in first-seen order), whether an
/// `enum` without `const` makes them selectable, and whether they come from
/// a null-only type alone.
pub open spec fn spec_scalar_choices(a: Seq<LocatedSchema>, kind: Option<ProjectedKind>) -> Result<Option<(Seq<JsonData>, bool, bool)>, FindingReport> {
    let s = schemas_of(a);
    let e = enum_positions(s);
    let c = const_positions(s);
    let null_only = e.len() == 0 && c.len() == 0 && kind == Some(ProjectedKind::Null);
    let values0 = if e.len() > 0 {
        enum_values(s, e[0])
    } else if c.len() > 0 {
        seq![const_value(s, c[0])]
    } else {
        seq![JsonData::Null]
    };
    let values = surviving(values0, s, e, c);
    let unique = dedup(values);
    if e.len() == 0 && c.len() == 0 && !null_only {
        Ok(None)
    } else if first_structured_const(s, c) >= 0 {
        Err(keyword_finding(a[c[first_structured_const(s, c)]], "const"@, "validation.const.structured"@))
    } else if c.len() > 0 && first_conflicting_const(s, c, c.len() as int) >= 0 {
        Err(keyword_finding(a[c[first_conflicting_const(s, c, c.len() as int)]], "const"@, "validation.const.conflicting"@))
    } else if has_structured(values) {
        if e.len() > 0 {
            Err(keyword_finding(a[e[0]], "enum"@, "validation.enum.structured"@))
        } else {
            Err(keyword_finding(a[c[0]], "const"@, "validation.const.structured"@))
        }
    } else if unique.len() == 0 {
        if e.len() > 0 {
            Err(keyword_finding(a[e[0]], "enum"@, "validation.enum.incompatible"@))
        } else {
            Err(keyword_finding(a[c[0]], "const"@, "validation.const.incompatible"@))
        }
    } else {
        Ok(Some((unique, e.len() > 0 && c.len() == 0, null_only)))
    }
}

/// The positions of a list of indices.
pub open spec fn as_ints(v: Seq<usize>) -> Seq<int> {
    v.map_values(|x: usize| x as int)
}

fn keyword_positions(applicable: &Vec<LocatedSchema>) -> (r: (Vec<usize>, Vec<usize>))
    ensures
        as_ints(r.0@) == enum_positions(schemas_of(applicable@)),
        as_ints(r.1@) == const_positions(schemas_of(applicable@)),
        forall|j: int| 0 <= j < r.0.len() ==> #[trigger] r.0@[j] < applicable.len(),
        forall|j: int| 0 <= j < r.1.len() ==> #[trigger] r.1@[j] < applicable.len(),
{
    let ghost s = schemas_of(applicable@);
    let mut enums: Vec<usize> = Vec::new();
    let mut consts: Vec<usize> = Vec::new();
    let mut i: usize = 0;
    while i < applicable.len()
        invariant
            s == schemas_of(applicable@),
            i <= applicable.len(),
            as_ints(enums@) == enum_positions(s.take(i as int)),
            as_ints(consts@) == const_positions(s.take(i as int)),
            forall|j: int| 0 <= j < enums.len() ==> #[trigger] enums@[j] < i,
            forall|j: int| 0 <= j < consts.len() ==> #[trigger] consts@[j] < i,
        decreases applicable.len() - i,
    {
        assert(s.take(i + 1).drop_last() =~= s.take(i as int));
        assert(s.take(i + 1).last() == applicable@[i as int].schema@);
        let ghost e0 = enums@;
        let ghost c0 = consts@;
        match member_exec(applicable[i].schema, "enum") {
            Some(JsonValue::Array(_)) => {
                enums.push(i);
                assert(as_ints(enums@) =~= as_ints(e0).push(i as int));
            },
            _ => {},
        }
        match member_exec(applicable[i].schema, "const") {
            Some(_) => {
                consts.push(i);
                assert(as_ints(consts@) =~= as_ints(c0).push(i as int));
            },
            None => {},
        }
        i += 1;
    }
    assert(s.take(applicable.len() as int) =~= s);
    (enums, consts)
}

proof fn lemma_enum_positions(s: Seq<JsonData>, j: int)
    requires
        0 <= j < enum_positions(s).len(),
    ensures
        0 <= enum_positions(s)[j] < s.len(),
        member_of(s[enum_positions(s)[j]], "enum"@) matches Some(JsonData::Array(_)),
    decreases s.len(),
{
    let r = enum_positions(s.drop_last());
    if j < r.len() {
        lemma_enum_positions(s.drop_last(), j);
        assert(s.drop_last()[r[j]] == s[r[j]]);
    }
}

proof fn lemma_const_positions(s: Seq<JsonData>, j: int)
    requires
        0 <= j < const_positions(s).len(),
    ensures
        0 <= const_positions(s)[j] < s.len(),
        member_of(s[const_positions(s)[j]], "const"@) is Some,
    decreases s.len(),
{
    let r = const_positions(s.drop_last());
    if j < r.len() {
        lemma_const_positions(s.drop_last(), j);
        assert(s.drop_last()[r[j]] == s[r[j]]);
    }
}

fn const_of<'a>(l: &'a LocatedSchema) -> (r: Option<&'a JsonValue>)
    ensures
        match member_of(l.schema@, "const"@) {
            Some(d) => r matches Some(v) && v@ == d,
            None => r is None,
        },
{
    member_exec(l.schema, "const")
}

fn enum_of<'a>(l: &'a LocatedSchema) -> (r: Option<&'a Vec<JsonValue>>)
    ensures
        match member_of(l.schema@, "enum"@) {
            Some(JsonData::Array(items)) => r matches Some(v) && datas(v@) == items,
            _ => r is None,
        },
{
    match member_exec(l.schema, "enum") {
        Some(JsonValue::Array(items)) => {
            let ghost d = member_of(l.schema@, "enum"@)->Some_0;
            assert(datas(items@) =~= d->Array_0);
            Some(items)
        },
        _ => None,
    }
}

/// Whether `v` equals one of `choices`.
pub(crate) fn equals_one_of_exec(v: &JsonValue, choices: &Vec<JsonValue>) -> (r: bool)
    ensures
        r == equals_one_of(v@, datas(choices@)),
{
    let ghost d = datas(choices@);
    let mut k: usize = 0;
    while k < choices.len()
        invariant
            d == datas(choices@),
            k <= choices.len(),
            forall|m: int| 0 <= m < k ==> !spec_json_equal(v@, #[trigger] d[m]),
        decreases choices.len() - k,
    {
        if json_values_equal(v, &choices[k]) {
            assert(spec_json_equal(v@, d[k as int]));
            return true;
        }
        k += 1;
    }
    false
}

fn survives_exec(v: &JsonValue, applicable: &Vec<LocatedSchema>, enums: &Vec<usize>, consts: &Vec<usize>) -> (r: bool)
    requires
        as_ints(enums@) == enum_positions(schemas_of(applicable@)),
        as_ints(consts@) == const_positions(schemas_of(applicable@)),
        forall|j: int| 0 <= j < enums.len() ==> #[trigger] enums@[j] < applicable.len(),
        forall|j: int| 0 <= j < consts.len() ==> #[trigger] consts@[j] < applicable.len(),
    ensures
        r == survives(v@, schemas_of(applicable@), enum_positions(schemas_of(applicable@)), const_positions(schemas_of(applicable@))),
{
    let ghost s = schemas_of(applicable@);
    let ghost e = enum_positions(s);
    let ghost c = const_positions(s);
    let mut j: usize = 1;
    while j < enums.len()
        invariant
            s == schemas_of(applicable@),
            e == enum_positions(s),
            as_ints(enums@) == e,
            forall|q: int| 0 <= q < enums.len() ==> #[trigger] enums@[q] < applicable.len(),
            1 <= j <= enums.len() || enums.len() == 0,
            forall|q: int| 1 <= q < j && q < e.len() ==> equals_one_of(v@, #[trigger] enum_values(s, e[q])),
        decreases enums.len() - j,
    {
        let at = enums[j];
        assert(e[j as int] == at as int);
        proof {
            lemma_enum_positions(s, j as int);
        }
        assert(s[at as int] == applicable@[at as int].schema@);
        match enum_of(&applicable[at]) {
            Some(choices) => {
                assert(datas(choices@) == enum_values(s, e[j as int]));
                if !equals_one_of_exec(v, choices) {
                    assert(!equals_one_of(v@, enum_values(s, e[j as int])));
                    return false;
                }
            },
            None => {},
        }
        j += 1;
    }
    let mut k: usize = 0;
    while k < consts.len()
        invariant
            s == schemas_of(applicable@),
            c == const_positions(s),
            e == enum_positions(s),
            as_ints(consts@) == c,
            forall|q: int| 0 <= q < consts.len() ==> #[trigger] consts@[q] < applicable.len(),
            forall|q: int| 1 <= q < e.len() ==> equals_one_of(v@, #[trigger] enum_values(s, e[q])),
            k <= consts.len(),
            forall|q: int| 0 <= q < k ==> spec_json_equal(v@, #[trigger] const_value(s, c[q])),
        decreases consts.len() - k,
    {
        let at = consts[k];
        assert(c[k as int] == at as int);
        proof {
            lemma_const_positions(s, k as int);
        }
        assert(s[at as int] == applicable@[at as int].schema@);
        match const_of(&applicable[at]) {
            Some(constant) => {
                assert(constant@ == const_value(s, c[k as int]));
                if !json_values_equal(v, constant) {
                    return false;
                }
            },
            None => {},
        }
        k += 1;
    }
    let mut i: usize = 0;
    while i < applicable.len()
        invariant
            s == schemas_of(applicable@),
            c == const_positions(s),
            e == enum_positions(s),
            forall|q: int| 1 <= q < e.len() ==> equals_one_of(v@, #[trigger] enum_values(s, e[q])),
            forall|q: int| 0 <= q < c.len() ==> spec_json_equal(v@, #[trigger] const_value(s, c[q])),
            i <= applicable.len(),
            forall|q: int| 0 <= q < i ==> schema_admits(#[trigger] s[q], v@),
        decreases applicable.len() - i,
    {
        let schema = applicable[i].schema;
        assert(s[i as int] == schema@);
        let admitted = match schema {
            JsonValue::Bool(b) => *b,
            _ => true,
        };
        if !admitted {
            assert(s[i as int] == JsonData::Bool(false));
            return false;
        }
        match member_exec(schema, "type") {
            Some(declared) => {
                if !value_matches_type_declaration(v, declared) {
                    assert(!schema_admits(s[i as int], v@));
                    return false;
                }
            },
            None => {},
        }
        i += 1;
    }
    true
}

/// Whether `x` comes no later than `y` among choices.
fn choice_le_exec(x: &JsonValue, y: &JsonValue) -> (r: bool)
    ensures
        r == choice_le(x@, y@),
{
    let rx = choice_rank_exec(x);
    let ry = choice_rank_exec(y);
    if rx != ry {
        return rx < ry;
    }
    let tx = choice_text_exec(x);
    let ty = choice_text_exec(y);
    text_le_exec(tx, ty)
}

fn choice_rank_exec(v: &JsonValue) -> (r: u8)
    ensures
        r as int == choice_rank(v@),
{
    match v {
        JsonValue::Null => 0,
        JsonValue::Bool(_) => 1,
        JsonValue::Number(_) => 2,
        JsonValue::String(_) => 3,
        _ => 4,
    }
}

fn choice_text_exec(v: &JsonValue) -> (r: &str)
    ensures
        r@ == choice_text(v@),
{
    match v {
        JsonValue::Bool(b) => if *b { "true" } else { "false" },
        JsonValue::Number(n) => n.as_str(),
        JsonValue::String(s) => s.as_str(),
        _ => {
            proof {
                reveal_strlit("");
            }
            ""
        },
    }
}

proof fn lemma_choice_order()
    ensures
        forall|x: JsonData, y: JsonData| #[trigger] choice_le(x, y) || choice_le(y, x),
        forall|x: JsonData, y: JsonData, z: JsonData| #[trigger] choice_le(x, y) && #[trigger] choice_le(y, z) ==> choice_le(x, z),
{
    assert forall|x: JsonData, y: JsonData| #[trigger] choice_le(x, y) || choice_le(y, x) by {
        lemma_text_le_total(choice_text(x), choice_text(y));
    }
    assert forall|x: JsonData, y: JsonData, z: JsonData| #[trigger] choice_le(x, y) && #[trigger] choice_le(y, z) implies choice_le(x, z) by {
        if choice_rank(x) == choice_rank(y) && choice_rank(y) == choice_rank(z) {
            lemma_text_le_transitive(choice_text(x), choice_text(y), choice_text(z));
        }
    }
}

/// `vals` in choice order (an insertion sort).
fn sort_choices(vals: &Vec<JsonValue>) -> (r: Vec<JsonValue>)
    ensures
        datas(r@).to_multiset() == datas(vals@).to_multiset(),
        sorted_by(datas(r@), |x: JsonData, y: JsonData| choice_le(x, y)),
{
    proof {
        lemma_choice_order();
    }
    let ghost input = datas(vals@);
    let mut out: Vec<JsonValue> = Vec::new();
    assert(datas(out@) =~= input.take(0));
    let mut i: usize = 0;
    while i < vals.len()
        invariant
            input == datas(vals@),
            i <= vals.len(),
            datas(out@).to_multiset() == input.take(i as int).to_multiset(),
            forall|p: int, q: int| 0 <= p < q < out.len() ==> choice_le(#[trigger] datas(out@)[p], #[trigger] datas(out@)[q]),
            forall|x: JsonData, y: JsonData| #[trigger] choice_le(x, y) || choice_le(y, x),
            forall|x: JsonData, y: JsonData, z: JsonData| #[trigger] choice_le(x, y) && #[trigger] choice_le(y, z) ==> choice_le(x, z),
        decreases vals.len() - i,
    {
        let v = copy_value(&vals[i]);
        let mut p: usize = 0;
        while p < out.len()
            invariant_except_break
                p <= out.len(),
                forall|q: int| 0 <= q < p ==> choice_le(#[trigger] datas(out@)[q], v@),
            ensures
                p <= out.len(),
                forall|q: int| 0 <= q < p ==> choice_le(#[trigger] datas(out@)[q], v@),
                p < out.len() ==> !choice_le(datas(out@)[p as int], v@),
            decreases out.len() - p,
        {
            if choice_le_exec(&out[p], &v) {
                p += 1;
            } else {
                break;
            }
        }
        let ghost before = datas(out@);
        let ghost vv = v@;
        out.insert(p, v);
        proof {
            assert(datas(out@) =~= before.insert(p as int, vv));
            vstd::seq_lib::to_multiset_insert(before, p as int, vv);
            assert(input.take(i + 1) =~= input.take(i as int).push(vv));
            vstd::seq_lib::to_multiset_build(input.take(i as int), vv);
            assert(datas(out@).to_multiset() =~= input.take(i + 1).to_multiset());
            assert forall|a: int, b: int| 0 <= a < b < out.len() implies choice_le(#[trigger] datas(out@)[a], #[trigger] datas(out@)[b]) by {
                let d = datas(out@);
                if b < p as int {
                    assert(d[a] == before[a] && d[b] == before[b]);
                } else if b == p as int {
                    assert(d[a] == before[a] && d[b] == vv);
                } else if a == p as int {
                    assert(d[a] == vv && d[b] == before[b - 1]);
                    assert(choice_le(before[p as int], vv) || choice_le(vv, before[p as int]));
                    if b - 1 > p as int {
                        assert(choice_le(before[p as int], before[b - 1]));
                    }
                } else if a < p as int {
                    assert(d[a] == before[a] && d[b] == before[b - 1]);
                } else {
                    assert(d[a] == before[a - 1] && d[b] == before[b - 1]);
                }
            }
        }
        i += 1;
    }
    assert(input.take(vals.len() as int) =~= input);
    out
}

fn first_structured_const_exec(applicable: &Vec<LocatedSchema>, consts: &Vec<usize>) -> (r: Option<usize>)
    requires
        as_ints(consts@) == const_positions(schemas_of(applicable@)),
        forall|j: int| 0 <= j < consts.len() ==> #[trigger] consts@[j] < applicable.len(),
    ensures
        match r {
            Some(j) => first_structured_const(schemas_of(applicable@), as_ints(consts@)) == j && j < consts.len(),
            None => first_structured_const(schemas_of(applicable@), as_ints(consts@)) == -1,
        },
{
    let ghost s = schemas_of(applicable@);
    let ghost c = as_ints(consts@);
    let mut k: usize = 0;
    while k < consts.len()
        invariant
            s == schemas_of(applicable@),
            c == as_ints(consts@),
            c == const_positions(s),
            forall|j: int| 0 <= j < consts.len() ==> #[trigger] consts@[j] < applicable.len(),
            k <= consts.len(),
            first_structured_const(s, c.take(k as int)) == -1,
        decreases consts.len() - k,
    {
        assert(c.take(k + 1).drop_last() =~= c.take(k as int));
        let at = consts[k];
        assert(c.take(k + 1).last() == at as int);
        assert(s[at as int] == applicable@[at as int].schema@);
        match const_of(&applicable[at]) {
            Some(constant) => {
                let is_structured = match constant {
                    JsonValue::Array(_) => true,
                    JsonValue::Object(_) => true,
                    _ => false,
                };
                if is_structured {
                    proof {
                        lemma_first_structured_prefix(s, c, k as int + 1);
                    }
                    return Some(k);
                }
            },
            None => {
                proof {
                    lemma_const_positions(s, k as int);
                }
            },
        }
        k += 1;
    }
    assert(c.take(consts.len() as int) =~= c);
    None
}

proof fn lemma_first_structured_prefix(s: Seq<JsonData>, c: Seq<int>, n: int)
    requires
        0 <= n <= c.len(),
        first_structured_const(s, c.take(n)) >= 0,
    ensures
        first_structured_const(s, c) == first_structured_const(s, c.take(n)),
    decreases c.len() - n,
{
    if n < c.len() {
        assert(c.take(n + 1).drop_last() =~= c.take(n));
        lemma_first_structured_prefix(s, c, n + 1);
    } else {
        assert(c.take(n) =~= c);
    }
}

fn first_conflicting_exec(applicable: &Vec<LocatedSchema>, consts: &Vec<usize>) -> (r: Option<usize>)
    requires
        consts.len() > 0,
        as_ints(consts@) == const_positions(schemas_of(applicable@)),
        forall|j: int| 0 <= j < consts.len() ==> #[trigger] consts@[j] < applicable.len(),
    ensures
        match r {
            Some(j) => first_conflicting_const(schemas_of(applicable@), as_ints(consts@), consts.len() as int) == j && j < consts.len(),
            None => first_conflicting_const(schemas_of(applicable@), as_ints(consts@), consts.len() as int) == -1,
        },
{
    let ghost s = schemas_of(applicable@);
    let ghost c = as_ints(consts@);
    proof {
        lemma_const_positions(s, 0);
    }
    assert(s[consts@[0] as int] == applicable@[consts@[0] as int].schema@);
    let first = match const_of(&applicable[consts[0]]) {
        Some(v) => v,
        None => return None,
    };
    let mut k: usize = 0;
    while k < consts.len()
        invariant
            s == schemas_of(applicable@),
            c == as_ints(consts@),
            c == const_positions(s),
            forall|j: int| 0 <= j < consts.len() ==> #[trigger] consts@[j] < applicable.len(),
            first@ == const_value(s, c[0]),
            k <= consts.len(),
            first_conflicting_const(s, c, k as int) == -1,
        decreases consts.len() - k,
    {
        let at = consts[k];
        assert(c[k as int] == at as int);
        assert(s[at as int] == applicable@[at as int].schema@);
        match const_of(&applicable[at]) {
            Some(constant) => {
                assert(constant@ == const_value(s, c[k as int]));
                if !json_values_equal(first, constant) {
                    proof {
                        lemma_first_conflicting_prefix(s, c, k as int + 1, consts.len() as int);
                    }
                    return Some(k);
                }
            },
            None => {
                proof {
                    lemma_const_positions(s, k as int);
                }
            },
        }
        k += 1;
    }
    proof {
        lemma_first_conflicting_extends(s, c, consts.len() as int);
    }
    None
}

proof fn lemma_first_conflicting_extends(s: Seq<JsonData>, c: Seq<int>, n: int)
    requires
        first_conflicting_const(s, c, n) == -1,
    ensures
        first_conflicting_const(s, c, n) == -1,
{
}

proof fn lemma_first_conflicting_prefix(s: Seq<JsonData>, c: Seq<int>, m: int, n: int)
    requires
        0 < m <= n <= c.len(),
        first_conflicting_const(s, c, m) >= 0,
    ensures
        first_conflicting_const(s, c, n) == first_conflicting_const(s, c, m),
    decreases n - m,
{
    if m < n {
        lemma_first_conflicting_prefix(s, c, m, n - 1);
    }
}

proof fn lemma_surviving_scalars(vals: Seq<JsonData>, a: Seq<JsonData>, e: Seq<int>, c: Seq<int>)
    requires
        forall|j: int| 0 <= j < vals.len() ==> !structured(#[trigger] vals[j]),
    ensures
        forall|k: int| 0 <= k < surviving(vals, a, e, c).len() ==> !structured(#[trigger] surviving(vals, a, e, c)[k]),
    decreases vals.len(),
{
    if vals.len() > 0 {
        assert forall|j: int| 0 <= j < vals.drop_last().len() implies !structured(#[trigger] vals.drop_last()[j]) by {
            assert(vals.drop_last()[j] == vals[j]);
        }
        lemma_surviving_scalars(vals.drop_last(), a, e, c);
        let r = surviving(vals.drop_last(), a, e, c);
        let t = surviving(vals, a, e, c);
        assert forall|k: int| 0 <= k < t.len() implies !structured(#[trigger] t[k]) by {
            if k < r.len() {
                assert(t[k] == r[k]);
            } else {
                assert(t[k] == vals[vals.len() - 1]);
            }
        }
    }
}

fn candidate_values(applicable: &Vec<LocatedSchema>, enums: &Vec<usize>, consts: &Vec<usize>) -> (r: Vec<JsonValue>)
    requires
        as_ints(enums@) == enum_positions(schemas_of(applicable@)),
        as_ints(consts@) == const_positions(schemas_of(applicable@)),
        forall|j: int| 0 <= j < enums.len() ==> #[trigger] enums@[j] < applicable.len(),
        forall|j: int| 0 <= j < consts.len() ==> #[trigger] consts@[j] < applicable.len(),
    ensures
        datas(r@) == ({
            let s = schemas_of(applicable@);
            let e = enum_positions(s);
            let c = const_positions(s);
            if e.len() > 0 {
                enum_values(s, e[0])
            } else if c.len() > 0 {
                seq![const_value(s, c[0])]
            } else {
                seq![JsonData::Null]
            }
        }),
{
    let ghost s = schemas_of(applicable@);
    if enums.len() > 0 {
        proof {
            lemma_enum_positions(s, 0);
        }
        assert(s[enums@[0] as int] == applicable@[enums@[0] as int].schema@);
        match enum_of(&applicable[enums[0]]) {
            Some(choices) => {
                let mut out: Vec<JsonValue> = Vec::new();
                let mut i: usize = 0;
                while i < choices.len()
                    invariant
                        i <= choices.len(),
                        datas(out@) =~= datas(choices@).take(i as int),
                    decreases choices.len() - i,
                {
                    let ghost before = datas(out@);
                    out.push(copy_value(&choices[i]));
                    assert(datas(out@) =~= before.push(choices@[i as int]@));
                    assert(datas(choices@).take(i + 1) =~= datas(choices@).take(i as int).push(choices@[i as int]@));
                    i += 1;
                }
                assert(datas(choices@).take(choices.len() as int) =~= datas(choices@));
                out
            },
            None => Vec::new(),
        }
    } else if consts.len() > 0 {
        proof {
            lemma_const_positions(s, 0);
        }
        assert(s[consts@[0] as int] == applicable@[consts@[0] as int].schema@);
        match const_of(&applicable[consts[0]]) {
            Some(constant) => {
                let out = vec![copy_value(constant)];
                assert(datas(out@) =~= seq![constant@]);
                out
            },
            None => Vec::new(),
        }
    } else {
        let out = vec![JsonValue::Null];
        assert(datas(out@) =~= seq![JsonData::Null]);
        out
    }
}

fn surviving_exec(vals: &Vec<JsonValue>, applicable: &Vec<LocatedSchema>, enums: &Vec<usize>, consts: &Vec<usize>) -> (r: Vec<JsonValue>)
    requires
        as_ints(enums@) == enum_positions(schemas_of(applicable@)),
        as_ints(consts@) == const_positions(schemas_of(applicable@)),
        forall|j: int| 0 <= j < enums.len() ==> #[trigger] enums@[j] < applicable.len(),
        forall|j: int| 0 <= j < consts.len() ==> #[trigger] consts@[j] < applicable.len(),
    ensures
        datas(r@) == surviving(datas(vals@), schemas_of(applicable@), enum_positions(schemas_of(applicable@)), const_positions(schemas_of(applicable@))),
{
    let ghost s = schemas_of(applicable@);
    let ghost d = datas(vals@);
    let mut out: Vec<JsonValue> = Vec::new();
    let mut i: usize = 0;
    while i < vals.len()
        invariant
            s == schemas_of(applicable@),
            d == datas(vals@),
            as_ints(enums@) == enum_positions(s),
            as_ints(consts@) == const_positions(s),
            forall|j: int| 0 <= j < enums.len() ==> #[trigger] enums@[j] < applicable.len(),
            forall|j: int| 0 <= j < consts.len() ==> #[trigger] consts@[j] < applicable.len(),
            i <= vals.len(),
            datas(out@) == surviving(d.take(i as int), s, enum_positions(s), const_positions(s)),
        decreases vals.len() - i,
    {
        assert(d.take(i + 1).drop_last() =~= d.take(i as int));
        assert(d.take(i + 1).last() == vals@[i as int]@);
        if survives_exec(&vals[i], applicable, enums, consts) {
            let ghost before = datas(out@);
            out.push(copy_value(&vals[i]));
            assert(datas(out@) =~= before.push(vals@[i as int]@));
        }
        i += 1;
    }
    assert(d.take(vals.len() as int) =~= d);
    out
}

pub(crate) fn dedup_exec(vals: &Vec<JsonValue>) -> (r: Vec<JsonValue>)
    ensures
        datas(r@) == dedup(datas(vals@)),
{
    let ghost d = datas(vals@);
    let mut out: Vec<JsonValue> = Vec::new();
    let mut i: usize = 0;
    while i < vals.len()
        invariant
            d == datas(vals@),
            i <= vals.len(),
            datas(out@) == dedup(d.take(i as int)),
        decreases vals.len() - i,
    {
        assert(d.take(i + 1).drop_last() =~= d.take(i as int));
        assert(d.take(i + 1).last() == vals@[i as int]@);
        if !equals_one_of_exec(&vals[i], &out) {
            let ghost before = datas(out@);
            out.push(copy_value(&vals[i]));
            assert(datas(out@) =~= before.push(vals@[i as int]@));
        }
        i += 1;
    }
    assert(d.take(vals.len() as int) =~= d);
    out
}

fn any_structured(vals: &Vec<JsonValue>) -> (r: bool)
    ensures
        r == has_structured(datas(vals@)),
{
    let mut k: usize = 0;
    while k < vals.len()
        invariant
            k <= vals.len(),
            forall|m: int| 0 <= m < k ==> !structured(#[trigger] datas(vals@)[m]),
        decreases vals.len() - k,
    {
        match &vals[k] {
            JsonValue::Array(_) => {
                assert(structured(datas(vals@)[k as int]));
                return true;
            },
            JsonValue::Object(_) => {
                assert(structured(datas(vals@)[k as int]));
                return true;
            },
            _ => {},
        }
        k += 1;
    }
    false
}

/// Compiles the finite scalar choices of the applicable subschemas (see
/// [`spec_scalar_choices`]); the choices come out in choice order: null,
/// then booleans, numbers and strings, each by text.
pub fn scalar_choices(applicable: &Vec<LocatedSchema>, independent_kind: Option<ProjectedKind>) -> (r: Result<Option<ScalarChoices>, Vec<UnsupportedFinding>>)
    requires
        null_choice_admitted(applicable@, independent_kind),
    ensures
        match spec_scalar_choices(applicable@, independent_kind) {
            Ok(None) => r matches Ok(None),
            Ok(Some((unique, selectable, null_only))) => r matches Ok(Some(ch))
                && datas(ch.values@).to_multiset() == unique.to_multiset()
                && sorted_by(datas(ch.values@), |x: JsonData, y: JsonData| choice_le(x, y))
                && ch.selectable == selectable && ch.null_only == null_only,
            Err(f) => r matches Err(v) && v.len() == 1 && v[0]@ == f,
        },
{
    let ghost s = schemas_of(applicable@);
    let (enums, consts) = keyword_positions(applicable);
    let null_only = enums.len() == 0 && consts.len() == 0 && independent_kind == Some(ProjectedKind::Null);
    if enums.len() == 0 && consts.len() == 0 && !null_only {
        return Ok(None);
    }
    match first_structured_const_exec(applicable, &consts) {
        Some(j) => {
            let f = finding_at(&applicable[consts[j]], "const", "validation.const.structured");
            return Err(vec![f]);
        },
        None => {},
    }
    if consts.len() > 0 {
        match first_conflicting_exec(applicable, &consts) {
            Some(j) => {
                let f = finding_at(&applicable[consts[j]], "const", "validation.const.conflicting");
                return Err(vec![f]);
            },
            None => {},
        }
    }
    let candidates = candidate_values(applicable, &enums, &consts);
    let values = surviving_exec(&candidates, applicable, &enums, &consts);
    if any_structured(&values) {
        if enums.len() > 0 {
            let f = finding_at(&applicable[enums[0]], "enum", "validation.enum.structured");
            return Err(vec![f]);
        } else if consts.len() > 0 {
            let f = finding_at(&applicable[consts[0]], "const", "validation.const.structured");
            return Err(vec![f]);
        } else {
            proof {
                let e = enum_positions(s);
                let c = const_positions(s);
                lemma_surviving_scalars(seq![JsonData::Null], s, e, c);
            }
            assert(false);
        }
    }
    let unique = dedup_exec(&values);
    if unique.len() == 0 {
        if enums.len() > 0 {
            let f = finding_at(&applicable[enums[0]], "enum", "validation.enum.incompatible");
            return Err(vec![f]);
        } else if consts.len() > 0 {
            let f = finding_at(&applicable[consts[0]], "const", "validation.const.incompatible");
            return Err(vec![f]);
        } else {
            proof {
                let e = enum_positions(s);
                let c = const_positions(s);
                let single = seq![JsonData::Null];
                assert(single.drop_last() =~= Seq::<JsonData>::empty());
                assert(surviving(single, s, e, c) =~= single);
                assert(dedup(single) =~= single);
            }
            assert(false);
        }
    }
    let sorted = sort_choices(&unique);
    Ok(Some(ScalarChoices {
        values: sorted,
        selectable: enums.len() > 0 && consts.len() == 0,
        null_only,
    }))
}

/// How a schema's member `key` is probed (by `mode`, 0 to 5): present at
/// all, an object, `false`, `true`, a string, or an object or `true`.
pub open spec fn probe(s: JsonData, key: Seq<char>, mode: u8) -> bool {
    match member_of(s, key) {
        None => false,
        Some(v) => if mode == 0 {
            true
        } else if mode == 1 {
            v is Object
        } else if mode == 2 {
            v == JsonData::Bool(false)
        } else if mode == 3 {
            v == JsonData::Bool(true)
        } else if mode == 4 {
            v is String
        } else {
            v is Object || v == JsonData::Bool(true)
        },
    }
}

fn probe_exec(schema: &JsonValue, key: &str, mode: u8) -> (r: bool)
    ensures
        r == probe(schema@, key@, mode),
{
    match member_exec(schema, key) {
        None => false,
        Some(v) => if mode == 0 {
            true
        } else if mode == 1 {
            matches!(v, JsonValue::Object(_))
        } else if mode == 2 {
            match v {
                JsonValue::Bool(b) => !*b,
                _ => false,
            }
        } else if mode == 3 {
            match v {
                JsonValue::Bool(b) => *b,
                _ => false,
            }
        } else if mode == 4 {
            matches!(v, JsonValue::String(_))
        } else {
            match v {
                JsonValue::Object(_) => true,
                JsonValue::Bool(b) => *b,
                _ => false,
            }
        },
    }
}

/// Text `a` comes strictly before text `b`.
pub open spec fn text_lt(a: Seq<char>, b: Seq<char>) -> bool {
    text_le(a, b) && a != b
}

/// Located subschema `x` comes strictly before `y`: by resource, then by pointer.
pub open spec fn located_lt(x: LocatedSchema, y: LocatedSchema) -> bool {
    text_lt(x.resource@, y.resource@) || (x.resource@ == y.resource@ && text_lt(x.pointer@, y.pointer@))
}

/// The position of the first least (by resource, then pointer) located
/// subschema among the first `n` whose member `key` passes the probe, or -1.
pub open spec fn earliest(a: Seq<LocatedSchema>, key: Seq<char>, mode: u8, n: int) -> int
    decreases n,
{
    if n <= 0 || n > a.len() {
        -1
    } else {
        let best = earliest(a, key, mode, n - 1);
        if probe(a[n - 1].schema@, key, mode) && (best < 0 || located_lt(a[n - 1], a[best])) {
            n - 1
        } else {
            best
        }
    }
}

pub(crate) proof fn lemma_earliest_bounds(a: Seq<LocatedSchema>, key: Seq<char>, mode: u8, n: int)
    requires
        0 <= n <= a.len(),
    ensures
        -1 <= earliest(a, key, mode, n) < n,
        earliest(a, key, mode, n) >= 0 ==> probe(a[earliest(a, key, mode, n)].schema@, key, mode),
        earliest(a, key, mode, n) < 0 ==> forall|i: int| 0 <= i < n ==> !probe(#[trigger] a[i].schema@, key, mode),
    decreases n,
{
    if n > 0 {
        lemma_earliest_bounds(a, key, mode, n - 1);
    }
}

fn text_lt_exec(a: &str, b: &str) -> (r: bool)
    ensures
        r == text_lt(a@, b@),
{
    text_le_exec(a, b) && !str_eq(a, b)
}

pub(crate) fn located_lt_exec(x: &LocatedSchema, y: &LocatedSchema) -> (r: bool)
    ensures
        r == located_lt(*x, *y),
{
    text_lt_exec(x.resource.as_str(), y.resource.as_str())
        || (str_eq(x.resource.as_str(), y.resource.as_str()) && text_lt_exec(x.pointer.as_str(), y.pointer.as_str()))
}

pub(crate) fn earliest_exec(applicable: &Vec<LocatedSchema>, key: &str, mode: u8) -> (r: Option<usize>)
    ensures
        match r {
            Some(i) => earliest(applicable@, key@, mode, applicable.len() as int) == i && i < applicable.len(),
            None => earliest(applicable@, key@, mode, applicable.len() as int) == -1,
        },
{
    let mut best: Option<usize> = None;
    let mut n: usize = 0;
    while n < applicable.len()
        invariant
            n <= applicable.len(),
            match best {
                Some(i) => earliest(applicable@, key@, mode, n as int) == i && i < n,
                None => earliest(applicable@, key@, mode, n as int) == -1,
            },
        decreases applicable.len() - n,
    {
        if probe_exec(applicable[n].schema, key, mode) {
            match best {
                None => best = Some(n),
                Some(i) => {
                    if located_lt_exec(&applicable[n], &applicable[i]) {
                        best = Some(n);
                    }
                },
            }
        }
        n += 1;
    }
    best
}

/// Some located subschema's member `key` passes the probe.
pub open spec fn any_probe(a: Seq<LocatedSchema>, key: Seq<char>, mode: u8) -> bool {
    exists|i: int| 0 <= i < a.len() && probe(#[trigger] a[i].schema@, key, mode)
}

pub(crate) fn any_probe_exec(applicable: &Vec<LocatedSchema>, key: &str, mode: u8) -> (r: bool)
    ensures
        r == any_probe(applicable@, key@, mode),
{
    let mut i: usize = 0;
    while i < applicable.len()
        invariant
            i <= applicable.len(),
            forall|j: int| 0 <= j < i ==> !probe(#[trigger] applicable@[j].schema@, key@, mode),
        decreases applicable.len() - i,
    {
        if probe_exec(applicable[i].schema, key, mode) {
            return true;
        }
        i += 1;
    }
    false
}

/// `{"implicit": implicit}`.
pub open spec fn implicit_parameters(implicit: bool) -> JsonData {
    JsonData::Object(seq![("implicit"@, JsonData::Bool(implicit))])
}

/// The open-object finding at `keyword_location` of the located subschema `l`.
pub open spec fn open_finding(l: LocatedSchema, keyword_location: Seq<char>, implicit: bool) -> FindingReport {
    FindingReport {
        code: "applicator.additional-properties.open"@,
        keyword_location,
        resource: l.resource@,
        parameters: implicit_parameters(implicit),
    }
}

/// The warnings an object projection raises for properties its fixed
/// controls cannot represent, each at `binding`: a schema-valued
/// `additionalProperties` (unless the object is closed), `patternProperties`,
/// and, for an object neither closed nor given a schema for additional
/// properties, the openness itself (explicit `true`, or implicit at the
/// first `properties`). Each warning names the least located subschema (by
/// resource, then pointer) that carries the keyword.
pub open spec fn spec_open_object_warnings(a: Seq<LocatedSchema>, binding: Seq<char>) -> Seq<(Seq<char>, FindingReport)> {
    if !any_probe(a, "properties"@, 0) {
        Seq::empty()
    } else {
        let closed = any_probe(a, "additionalProperties"@, 2);
        let schema_origin = earliest(a, "additionalProperties"@, 1, a.len() as int);
        let w1: Seq<(Seq<char>, FindingReport)> = if !closed && schema_origin >= 0 {
            seq![(binding, keyword_finding(a[schema_origin], "additionalProperties"@, "applicator.additional-properties.schema-projection"@))]
        } else {
            Seq::empty()
        };
        let pattern_origin = earliest(a, "patternProperties"@, 0, a.len() as int);
        let w2 = if pattern_origin >= 0 {
            w1.push((binding, keyword_finding(a[pattern_origin], "patternProperties"@, "applicator.pattern-properties.fixed-projection"@)))
        } else {
            w1
        };
        if closed || any_probe(a, "additionalProperties"@, 1) {
            w2
        } else {
            let explicit = earliest(a, "additionalProperties"@, 3, a.len() as int);
            if explicit >= 0 {
                w2.push((binding, open_finding(a[explicit], append_token_spec(a[explicit].pointer@, "additionalProperties"@), false)))
            } else {
                let origin = earliest(a, "properties"@, 0, a.len() as int);
                w2.push((binding, open_finding(a[origin], a[origin].pointer@, true)))
            }
        }
    }
}

/// The views of a list of warnings.
pub open spec fn warning_views(v: Seq<(JsonPointer, UnsupportedFinding)>) -> Seq<(Seq<char>, FindingReport)> {
    v.map_values(|w: (JsonPointer, UnsupportedFinding)| (w.0@, w.1@))
}

/// The warnings an object projection raises (see [`spec_open_object_warnings`]).
pub fn open_object_warnings(applicable: &Vec<LocatedSchema>, binding: JsonPointer) -> (r: Vec<(JsonPointer, UnsupportedFinding)>)
    ensures
        warning_views(r@) == spec_open_object_warnings(applicable@, binding@),
{
    let ghost a = applicable@;
    let ghost b = binding@;
    if !any_probe_exec(applicable, "properties", 0) {
        let r: Vec<(JsonPointer, UnsupportedFinding)> = Vec::new();
        assert(warning_views(r@) =~= Seq::<(Seq<char>, FindingReport)>::empty());
        return r;
    }
    let closed = any_probe_exec(applicable, "additionalProperties", 2);
    let mut warnings: Vec<(JsonPointer, UnsupportedFinding)> = Vec::new();
    assert(warning_views(warnings@) =~= Seq::<(Seq<char>, FindingReport)>::empty());
    if !closed {
        match earliest_exec(applicable, "additionalProperties", 1) {
            Some(i) => {
                let f = finding_at(&applicable[i], "additionalProperties", "applicator.additional-properties.schema-projection");
                warnings.push((binding.duplicate(), f));
                assert(warning_views(warnings@) =~= seq![(b, f@)]);
            },
            None => {},
        }
    }
    let ghost w1 = warning_views(warnings@);
    match earliest_exec(applicable, "patternProperties", 0) {
        Some(i) => {
            let f = finding_at(&applicable[i], "patternProperties", "applicator.pattern-properties.fixed-projection");
            warnings.push((binding.duplicate(), f));
            assert(warning_views(warnings@) =~= w1.push((b, f@)));
        },
        None => {},
    }
    if closed || any_probe_exec(applicable, "additionalProperties", 1) {
        return warnings;
    }
    let ghost w2 = warning_views(warnings@);
    let (origin, implicit) = match earliest_exec(applicable, "additionalProperties", 3) {
        Some(i) => (i, false),
        None => {
            match earliest_exec(applicable, "properties", 0) {
                Some(i) => (i, true),
                None => {
                    proof {
                        lemma_earliest_bounds(a, "properties"@, 0, a.len() as int);
                    }
                    assert(false);
                    (0, true)
                },
            }
        },
    };
    let location = if implicit {
        applicable[origin].pointer.duplicate()
    } else {
        let base = applicable[origin].pointer.as_str();
        proof {
            lemma_append_token_valid(applicable@[origin as int].pointer@, "additionalProperties"@);
        }
        JsonPointer::from_valid(append_token(base, "additionalProperties"))
    };
    let key = "implicit".to_owned();
    let mut entries: Vec<(String, JsonValue)> = Vec::new();
    entries.push((key, JsonValue::Bool(implicit)));
    assert(entries@.len() == 1 && entries@[0].0@ == "implicit"@ && entries@[0].1@ == JsonData::Bool(implicit));
    let parameters = JsonValue::Object(entries);
    assert(parameters@ == implicit_parameters(implicit)) by {
        assert(parameters@->Object_0 =~= seq![("implicit"@, JsonData::Bool(implicit))]);
    }
    let f = UnsupportedFinding {
        code: "applicator.additional-properties.open".to_owned(),
        keyword_location: location,
        resource: applicable[origin].resource.clone(),
        parameters,
    };
    warnings.push((binding, f));
    assert(warning_views(warnings@) =~= w2.push((b, f@)));
    warnings
}

} // verus!
