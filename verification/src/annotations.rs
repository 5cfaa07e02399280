use vstd::prelude::*;

use crate::bigint::{big_int_is_negative, big_int_to_usize, big_int_value};
use crate::address::{append_token, append_token_spec, lemma_append_token_valid, usize_text, JsonPointer};
use crate::choices::{
    datas, dedup, dedup_exec, earliest, earliest_exec, equals_one_of, equals_one_of_exec,
    finding_at, keyword_finding, lemma_earliest_bounds, member_exec, member_of, probe, schemas_of,
    FindingReport, LocatedSchema, UnsupportedFinding,
};
use crate::number::{
    exponent_index, dot_index, is_json_number, lemma_digits_are_number, lemma_normal_form_digits, number_is_integer,
    number_normal_form, spec_normal_form, spec_number_is_integer,
};
use crate::text::{
    all_digits, digit_value, digits_value, is_digit, lemma_digits_value_push, lemma_nat_text_digits,
    nat_text, pow10, string_from_chars,
};
use crate::fingerprint::{
    bytes_le, bytes_le_exec, json_encoding, lemma_bytes_le_antisymmetric, lemma_bytes_le_total,
    lemma_bytes_le_transitive, lemma_position_order_total, position_order, positions_of,
    semantic_json_fingerprint, sha256, sorted_positions, stable_positions,
};
use crate::value::{copy_value, JsonData, JsonNumber, JsonValue};

verus! {

/// `v` capped at `usize::MAX`.
pub open spec fn saturate(v: nat) -> usize {
    if v > usize::MAX {
        usize::MAX
    } else {
        v as usize
    }
}

/// The count a JSON value gives: a number whose value is a non-negative
/// integer, capped at `usize::MAX`; nothing for anything else.
pub open spec fn spec_nonnegative_integer(d: JsonData) -> Option<usize> {
    match d {
        JsonData::Number(t) => if is_json_number(t) {
            let (negative, digits, scale) = spec_normal_form(t);
            if negative || scale < 0 {
                None
            } else {
                Some(saturate(digits_value(digits) * pow10(scale as nat)))
            }
        } else {
            None
        },
        _ => None,
    }
}

pub proof fn lemma_pow10_bounds(n: nat)
    ensures
        pow10(n) >= 1,
        pow10(n) > n,
    decreases n,
{
    if n > 0 {
        lemma_pow10_bounds((n - 1) as nat);
    }
}

pub proof fn lemma_pow10_monotonic(a: nat, b: nat)
    requires
        a <= b,
    ensures
        pow10(a) <= pow10(b),
    decreases b,
{
    if a < b {
        lemma_pow10_monotonic(a, (b - 1) as nat);
        lemma_pow10_bounds((b - 1) as nat);
    }
}

proof fn lemma_digits_prefix(d: Seq<char>, i: int)
    requires
        0 <= i <= d.len(),
    ensures
        digits_value(d.take(i)) <= digits_value(d),
    decreases d.len() - i,
{
    if i < d.len() {
        lemma_digits_prefix(d, i + 1);
        assert(d.take(i + 1).drop_last() =~= d.take(i));
    } else {
        assert(d.take(i) =~= d);
    }
}

/// The count a JSON value gives (see [`spec_nonnegative_integer`]), without
/// expanding large exponents.
pub fn nonnegative_integer_as_usize(value: &JsonValue) -> (r: Option<usize>)
    ensures
        r == spec_nonnegative_integer(value@),
{
    let number = match value {
        JsonValue::Number(n) => n,
        _ => {
            return None;
        },
    };
    let text = number.as_str();
    let (negative, digits, scale) = number_normal_form(text);
    proof {
        lemma_normal_form_digits(text@);
    }
    if negative || big_int_is_negative(&scale) {
        return None;
    }
    let ghost dv = digits_value(digits@);
    let ghost sv = big_int_value(scale) as nat;
    let ghost total = dv * pow10(sv);
    proof {
        lemma_pow10_bounds(sv);
        assert(total >= dv) by (nonlinear_arith)
            requires
                total == dv * pow10(sv),
                pow10(sv) >= 1,
        ;
    }
    assert(value@ == JsonData::Number(text@));
    assert(spec_nonnegative_integer(value@) == Some(saturate(total)));
    let mut acc: usize = 0;
    let mut i: usize = 0;
    assert(digits@.take(0) =~= Seq::<char>::empty());
    while i < digits.len()
        invariant
            spec_nonnegative_integer(value@) == Some(saturate(total)),
            i <= digits.len(),
            all_digits(digits@),
            dv == digits_value(digits@),
            total >= dv,
            acc == digits_value(digits@.take(i as int)),
        decreases digits.len() - i,
    {
        assert(is_digit(digits@[i as int]));
        let d: u32 = (digits[i] as u32) - ('0' as u32);
        assert(d == digit_value(digits@[i as int]));
        proof {
            assert(digits@.take(i + 1) =~= digits@.take(i as int).push(digits@[i as int]));
            lemma_digits_value_push(digits@.take(i as int), digits@[i as int]);
            lemma_digits_prefix(digits@, i + 1);
        }
        let next: u128 = (acc as u128) * 10 + (d as u128);
        if next > usize::MAX as u128 {
            return Some(usize::MAX);
        }
        acc = next as usize;
        i += 1;
    }
    assert(digits@.take(digits.len() as int) =~= digits@);
    let s = match big_int_to_usize(&scale) {
        Some(s) => s,
        None => {
            proof {
                if digits@ == seq!['0'] {
                    assert(false);
                }
                lemma_pow10_bounds(sv);
                assert(total >= pow10(sv)) by (nonlinear_arith)
                    requires
                        total == dv * pow10(sv),
                        dv >= 1,
                ;
            }
            return Some(usize::MAX);
        },
    };
    let mut k: usize = 0;
    assert(pow10(0) == 1);
    assert(acc == dv * pow10(0));
    while k < s
        invariant
            spec_nonnegative_integer(value@) == Some(saturate(total)),
            k <= s,
            s == sv,
            total == dv * pow10(sv),
            acc == dv * pow10(k as nat),
        decreases s - k,
    {
        if acc > usize::MAX / 10 {
            proof {
                lemma_pow10_monotonic((k + 1) as nat, sv);
                assert(pow10((k + 1) as nat) == 10 * pow10(k as nat));
                assert(total >= dv * pow10((k + 1) as nat)) by (nonlinear_arith)
                    requires
                        total == dv * pow10(sv),
                        pow10((k + 1) as nat) <= pow10(sv),
                ;
                assert(dv * pow10((k + 1) as nat) == acc * 10) by (nonlinear_arith)
                    requires
                        acc == dv * pow10(k as nat),
                        pow10((k + 1) as nat) == 10 * pow10(k as nat),
                ;
            }
            return Some(usize::MAX);
        }
        proof {
            assert(pow10((k + 1) as nat) == 10 * pow10(k as nat));
            assert(dv * pow10((k + 1) as nat) == acc * 10) by (nonlinear_arith)
                requires
                    acc == dv * pow10(k as nat),
                    pow10((k + 1) as nat) == 10 * pow10(k as nat),
            ;
        }
        acc = acc * 10;
        k += 1;
    }
    Some(acc)
}

/// The count that keyword `key` of a schema gives.
pub open spec fn count_of(s: JsonData, key: Seq<char>) -> Option<usize> {
    match member_of(s, key) {
        Some(v) => spec_nonnegative_integer(v),
        None => None,
    }
}

/// The greatest count that keyword `key` gives among the schemas.
pub open spec fn greatest_count(a: Seq<JsonData>, key: Seq<char>) -> Option<usize>
    decreases a.len(),
{
    if a.len() == 0 {
        None
    } else {
        match (greatest_count(a.drop_last(), key), count_of(a.last(), key)) {
            (Some(x), Some(y)) => Some(if x >= y { x } else { y }),
            (Some(x), None) => Some(x),
            (None, y) => y,
        }
    }
}

/// The least count that keyword `key` gives among the schemas.
pub open spec fn least_count(a: Seq<JsonData>, key: Seq<char>) -> Option<usize>
    decreases a.len(),
{
    if a.len() == 0 {
        None
    } else {
        match (least_count(a.drop_last(), key), count_of(a.last(), key)) {
            (Some(x), Some(y)) => Some(if x <= y { x } else { y }),
            (Some(x), None) => Some(x),
            (None, y) => y,
        }
    }
}

fn count_of_exec(l: &LocatedSchema, key: &str) -> (r: Option<usize>)
    ensures
        r == count_of(l.schema@, key@),
{
    match member_exec(l.schema, key) {
        Some(v) => nonnegative_integer_as_usize(v),
        None => None,
    }
}

/// The array length bounds of the applicable schemas: the greatest
/// `minItems` and the least `maxItems` among them.
pub fn array_length_bounds(applicable: &Vec<LocatedSchema>) -> (r: (Option<usize>, Option<usize>))
    ensures
        r.0 == greatest_count(schemas_of(applicable@), "minItems"@),
        r.1 == least_count(schemas_of(applicable@), "maxItems"@),
{
    let ghost a = schemas_of(applicable@);
    let mut min_items: Option<usize> = None;
    let mut max_items: Option<usize> = None;
    let mut i: usize = 0;
    while i < applicable.len()
        invariant
            a == schemas_of(applicable@),
            i <= applicable.len(),
            min_items == greatest_count(a.take(i as int), "minItems"@),
            max_items == least_count(a.take(i as int), "maxItems"@),
        decreases applicable.len() - i,
    {
        assert(a.take(i + 1).drop_last() =~= a.take(i as int));
        assert(a.take(i + 1).last() == applicable@[i as int].schema@);
        let low = count_of_exec(&applicable[i], "minItems");
        min_items = match (min_items, low) {
            (Some(x), Some(y)) => Some(if x >= y { x } else { y }),
            (Some(x), None) => Some(x),
            (None, y) => y,
        };
        let high = count_of_exec(&applicable[i], "maxItems");
        max_items = match (max_items, high) {
            (Some(x), Some(y)) => Some(if x <= y { x } else { y }),
            (Some(x), None) => Some(x),
            (None, y) => y,
        };
        i += 1;
    }
    assert(a.take(applicable.len() as int) =~= a);
    (min_items, max_items)
}

/// Some schema closes the object with `additionalProperties: false`.
pub open spec fn closed_object(a: Seq<JsonData>) -> bool {
    exists|i: int| 0 <= i < a.len() && member_of(#[trigger] a[i], "additionalProperties"@) == Some(JsonData::Bool(false))
}

/// Whether an applicable schema closes the object with
/// `additionalProperties: false`.
pub fn is_explicitly_closed_object(applicable: &Vec<LocatedSchema>) -> (r: bool)
    ensures
        r == closed_object(schemas_of(applicable@)),
{
    let ghost a = schemas_of(applicable@);
    let mut i: usize = 0;
    while i < applicable.len()
        invariant
            a == schemas_of(applicable@),
            i <= applicable.len(),
            forall|j: int| 0 <= j < i ==> member_of(#[trigger] a[j], "additionalProperties"@) != Some(JsonData::Bool(false)),
        decreases applicable.len() - i,
    {
        assert(a[i as int] == applicable@[i as int].schema@);
        match member_exec(applicable[i].schema, "additionalProperties") {
            Some(JsonValue::Bool(false)) => {
                return true;
            },
            _ => {},
        }
        i += 1;
    }
    false
}

/// The `default` values of the schemas that are objects (when `object`) or
/// arrays (otherwise), in order.
pub open spec fn structured_defaults(a: Seq<JsonData>, object: bool) -> Seq<JsonData>
    decreases a.len(),
{
    if a.len() == 0 {
        Seq::empty()
    } else {
        let r = structured_defaults(a.drop_last(), object);
        match member_of(a.last(), "default"@) {
            Some(v) => if (object && v is Object) || (!object && v is Array) {
                r.push(v)
            } else {
                r
            },
            None => r,
        }
    }
}

fn structured_defaults_exec(applicable: &Vec<LocatedSchema>, object: bool) -> (r: Vec<JsonValue>)
    ensures
        datas(r@) == structured_defaults(schemas_of(applicable@), object),
{
    let ghost a = schemas_of(applicable@);
    let mut out: Vec<JsonValue> = Vec::new();
    let mut i: usize = 0;
    assert(datas(out@) =~= structured_defaults(a.take(0), object));
    while i < applicable.len()
        invariant
            a == schemas_of(applicable@),
            i <= applicable.len(),
            datas(out@) == structured_defaults(a.take(i as int), object),
        decreases applicable.len() - i,
    {
        assert(a.take(i + 1).drop_last() =~= a.take(i as int));
        assert(a.take(i + 1).last() == applicable@[i as int].schema@);
        match member_exec(applicable[i].schema, "default") {
            Some(v) => {
                let wanted = match v {
                    JsonValue::Object(_) => object,
                    JsonValue::Array(_) => !object,
                    _ => false,
                };
                if wanted {
                    let ghost before = datas(out@);
                    out.push(copy_value(v));
                    assert(datas(out@) =~= before.push(v@));
                }
            },
            None => {},
        }
        i += 1;
    }
    assert(a.take(applicable.len() as int) =~= a);
    out
}

/// The seed of a new object: the one distinct object `default`, or an empty
/// object when there is none or more than one.
pub open spec fn spec_object_creation_seed(a: Seq<JsonData>) -> JsonData {
    let eligible = dedup(structured_defaults(a, true));
    if eligible.len() == 1 {
        eligible[0]
    } else {
        JsonData::Object(Seq::empty())
    }
}

/// The seed of a new array: the one distinct array `default`, or an empty
/// array when there is none or more than one.
pub open spec fn spec_array_creation_seed(a: Seq<JsonData>) -> JsonData {
    let eligible = dedup(structured_defaults(a, false));
    if eligible.len() == 1 {
        eligible[0]
    } else {
        JsonData::Array(Seq::empty())
    }
}

/// The value a new object starts from (see [`spec_object_creation_seed`]).
pub fn object_creation_seed(applicable: &Vec<LocatedSchema>) -> (r: JsonValue)
    ensures
        r@ == spec_object_creation_seed(schemas_of(applicable@)),
{
    let eligible = dedup_exec(&structured_defaults_exec(applicable, true));
    if eligible.len() == 1 {
        copy_value(&eligible[0])
    } else {
        let r = JsonValue::Object(Vec::new());
        assert(r@->Object_0 =~= Seq::<(Seq<char>, JsonData)>::empty());
        r
    }
}

/// The value a new array starts from (see [`spec_array_creation_seed`]).
pub fn array_creation_seed(applicable: &Vec<LocatedSchema>) -> (r: JsonValue)
    ensures
        r@ == spec_array_creation_seed(schemas_of(applicable@)),
{
    let eligible = dedup_exec(&structured_defaults_exec(applicable, false));
    if eligible.len() == 1 {
        copy_value(&eligible[0])
    } else {
        let r = JsonValue::Array(Vec::new());
        assert(r@->Array_0 =~= Seq::<JsonData>::empty());
        r
    }
}

/// The values of keyword `key` among the schemas, in order.
pub open spec fn keyword_values(a: Seq<JsonData>, key: Seq<char>) -> Seq<JsonData>
    decreases a.len(),
{
    if a.len() == 0 {
        Seq::empty()
    } else {
        let r = keyword_values(a.drop_last(), key);
        match member_of(a.last(), key) {
            Some(v) => r.push(v),
            None => r,
        }
    }
}

/// The items of every `examples` array among the schemas, in order.
pub open spec fn example_items(a: Seq<JsonData>) -> Seq<JsonData>
    decreases a.len(),
{
    if a.len() == 0 {
        Seq::empty()
    } else {
        example_items(a.drop_last()) + match member_of(a.last(), "examples"@) {
            Some(JsonData::Array(items)) => items,
            _ => Seq::empty(),
        }
    }
}

/// The fingerprints of values.
pub open spec fn fingerprints_of(u: Seq<JsonData>) -> Seq<Seq<u8>> {
    u.map_values(|v: JsonData| sha256(json_encoding(v)))
}

/// Values in the order of their fingerprints' bytes; values with equal
/// fingerprints keep their order.
pub open spec fn by_fingerprint(u: Seq<JsonData>) -> Seq<JsonData> {
    let order = sorted_positions(fingerprints_of(u));
    Seq::new(
        u.len(),
        |q: int|
            if 0 <= order[q] < u.len() {
                u[order[q]]
            } else {
                JsonData::Null
            },
    )
}

/// Appends `value` unless a semantically equal value is already there.
pub fn push_unique_value(values: &mut Vec<JsonValue>, value: &JsonValue)
    ensures
        datas(final(values)@) == if equals_one_of(value@, datas(old(values)@)) {
            datas(old(values)@)
        } else {
            datas(old(values)@).push(value@)
        },
{
    if !equals_one_of_exec(value, values) {
        let ghost before = datas(values@);
        values.push(copy_value(value));
        assert(datas(values@) =~= before.push(value@));
    }
}

/// Sorts values by their fingerprints, stably (see [`by_fingerprint`]).
pub fn sort_annotation_values(values: &mut Vec<JsonValue>)
    ensures
        datas(final(values)@) == by_fingerprint(datas(old(values)@)),
{
    let ghost u = datas(values@);
    let ghost fingerprints = fingerprints_of(u);
    let mut keys: Vec<Vec<u8>> = Vec::new();
    let mut i: usize = 0;
    while i < values.len()
        invariant
            u == datas(values@),
            fingerprints == fingerprints_of(u),
            i <= values.len(),
            keys.len() == i,
            forall|j: int| 0 <= j < i ==> #[trigger] keys@[j]@ == fingerprints[j],
        decreases values.len() - i,
    {
        let digest = semantic_json_fingerprint(&values[i]);
        keys.push(vstd::slice::slice_to_vec(digest.as_slice()));
        i += 1;
    }
    assert(keys@.map_values(|k: Vec<u8>| k@) =~= fingerprints);
    let order = stable_positions(&keys);
    let ghost all = Seq::new(u.len(), |q: int| q);
    proof {
        lemma_position_order_total(fingerprints);
        all.lemma_sort_by_ensures(position_order(fingerprints));
    }
    let ghost target = by_fingerprint(u);
    let mut sorted: Vec<JsonValue> = Vec::new();
    let mut q: usize = 0;
    while q < order.len()
        invariant
            u == datas(values@),
            order.len() == values.len(),
            positions_of(order@) == sorted_positions(fingerprints),
            fingerprints == fingerprints_of(u),
            all == Seq::new(u.len(), |q: int| q),
            forall|x: int| !all.contains(x) ==> !(#[trigger] sorted_positions(fingerprints).contains(x)),
            target == by_fingerprint(u),
            q <= order.len(),
            datas(sorted@) == target.take(q as int),
        decreases order.len() - q,
    {
        let i = order[q];
        assert(positions_of(order@)[q as int] == i as int);
        assert(sorted_positions(fingerprints).contains(i as int));
        if i >= values.len() {
            assert(!all.contains(i as int));
            assert(false);
        }
        let ghost before = datas(sorted@);
        let item = copy_value(&values[i]);
        assert(item@ == u[i as int]);
        sorted.push(item);
        assert(target[q as int] == u[i as int]);
        assert(datas(sorted@) =~= before.push(u[i as int]));
        assert(target.take(q + 1) =~= target.take(q as int).push(target[q as int]));
        q += 1;
    }
    assert(target.take(order.len() as int) =~= target);
    *values = sorted;
}

fn keyword_values_exec(applicable: &Vec<LocatedSchema>, key: &str) -> (r: Vec<JsonValue>)
    ensures
        datas(r@) == keyword_values(schemas_of(applicable@), key@),
{
    let ghost a = schemas_of(applicable@);
    let mut out: Vec<JsonValue> = Vec::new();
    let mut i: usize = 0;
    assert(datas(out@) =~= keyword_values(a.take(0), key@));
    while i < applicable.len()
        invariant
            a == schemas_of(applicable@),
            i <= applicable.len(),
            datas(out@) == keyword_values(a.take(i as int), key@),
        decreases applicable.len() - i,
    {
        assert(a.take(i + 1).drop_last() =~= a.take(i as int));
        assert(a.take(i + 1).last() == applicable@[i as int].schema@);
        match member_exec(applicable[i].schema, key) {
            Some(v) => {
                let ghost before = datas(out@);
                out.push(copy_value(v));
                assert(datas(out@) =~= before.push(v@));
            },
            None => {},
        }
        i += 1;
    }
    assert(a.take(applicable.len() as int) =~= a);
    out
}

fn example_items_exec(applicable: &Vec<LocatedSchema>) -> (r: Vec<JsonValue>)
    ensures
        datas(r@) == example_items(schemas_of(applicable@)),
{
    let ghost a = schemas_of(applicable@);
    let mut out: Vec<JsonValue> = Vec::new();
    let mut i: usize = 0;
    assert(datas(out@) =~= example_items(a.take(0)));
    while i < applicable.len()
        invariant
            a == schemas_of(applicable@),
            i <= applicable.len(),
            datas(out@) == example_items(a.take(i as int)),
        decreases applicable.len() - i,
    {
        assert(a.take(i + 1).drop_last() =~= a.take(i as int));
        assert(a.take(i + 1).last() == applicable@[i as int].schema@);
        match member_exec(applicable[i].schema, "examples") {
            Some(JsonValue::Array(items)) => {
                let ghost before = datas(out@);
                let ghost d = JsonValue::Array(*items)@->Array_0;
                let mut k: usize = 0;
                while k < items.len()
                    invariant
                        d == JsonValue::Array(*items)@->Array_0,
                        d.len() == items.len(),
                        k <= items.len(),
                        datas(out@) == before + d.take(k as int),
                    decreases items.len() - k,
                {
                    let ghost prior = datas(out@);
                    let item = copy_value(&items[k]);
                    assert(d[k as int] == items@[k as int]@);
                    assert(item@ == d[k as int]);
                    out.push(item);
                    assert(datas(out@) =~= prior.push(d[k as int]));
                    assert(d.take(k + 1) =~= d.take(k as int).push(d[k as int]));
                    assert(datas(out@) =~= before + d.take(k + 1));
                    k += 1;
                }
                assert(d.take(items.len() as int) =~= d);
            },
            _ => {
                assert(datas(out@) =~= datas(out@) + Seq::<JsonData>::empty());
            },
        }
        i += 1;
    }
    assert(a.take(applicable.len() as int) =~= a);
    out
}

/// The distinct values of keyword `key` among the schemas, ordered by
/// fingerprint.
pub fn value_annotations(applicable: &Vec<LocatedSchema>, keyword: &str) -> (r: Vec<JsonValue>)
    ensures
        datas(r@) == by_fingerprint(dedup(keyword_values(schemas_of(applicable@), keyword@))),
{
    let found = keyword_values_exec(applicable, keyword);
    let mut values = unique_values(&found);
    sort_annotation_values(&mut values);
    values
}

/// `found` with each later repeat (by semantic equality) dropped.
fn unique_values(found: &Vec<JsonValue>) -> (r: Vec<JsonValue>)
    ensures
        datas(r@) == dedup(datas(found@)),
{
    let ghost d = datas(found@);
    let mut values: Vec<JsonValue> = Vec::new();
    let mut i: usize = 0;
    assert(datas(values@) =~= dedup(d.take(0)));
    while i < found.len()
        invariant
            d == datas(found@),
            i <= found.len(),
            datas(values@) == dedup(d.take(i as int)),
        decreases found.len() - i,
    {
        assert(d.take(i + 1).drop_last() =~= d.take(i as int));
        assert(d.take(i + 1).last() == found@[i as int]@);
        push_unique_value(&mut values, &found[i]);
        i += 1;
    }
    assert(d.take(found.len() as int) =~= d);
    values
}

/// The strings among the values of keyword `key`, in order.
pub open spec fn keyword_strings(a: Seq<JsonData>, key: Seq<char>) -> Seq<Seq<char>>
    decreases a.len(),
{
    if a.len() == 0 {
        Seq::empty()
    } else {
        let r = keyword_strings(a.drop_last(), key);
        match member_of(a.last(), key) {
            Some(JsonData::String(s)) => r.push(s),
            _ => r,
        }
    }
}

/// `x` comes strictly before `y` in the byte order of their UTF-8 encodings.
pub open spec fn text_before(x: Seq<char>, y: Seq<char>) -> bool {
    x != y && bytes_le(vstd::utf8::encode_utf8(x), vstd::utf8::encode_utf8(y))
}

/// `r` holds exactly the texts of `found`, each once, in byte order (the
/// order of a `BTreeSet<String>`).
pub open spec fn sorted_text_set(r: Seq<Seq<char>>, found: Seq<Seq<char>>) -> bool {
    &&& forall|i: int, j: int| 0 <= i < j < r.len() ==> text_before(#[trigger] r[i], #[trigger] r[j])
    &&& forall|x: Seq<char>| r.contains(x) <==> found.contains(x)
}

/// The texts of a vector of strings.
pub open spec fn texts(v: Seq<String>) -> Seq<Seq<char>> {
    v.map_values(|s: String| s@)
}

pub proof fn lemma_text_before_transitive(x: Seq<char>, y: Seq<char>, z: Seq<char>)
    requires
        text_before(x, y),
        text_before(y, z),
    ensures
        text_before(x, z),
{
    let (ex, ey, ez) = (vstd::utf8::encode_utf8(x), vstd::utf8::encode_utf8(y), vstd::utf8::encode_utf8(z));
    lemma_bytes_le_transitive(ex, ey, ez);
    if x == z {
        lemma_bytes_le_antisymmetric(ex, ey);
        vstd::utf8::encode_utf8_decode_utf8(x);
        vstd::utf8::encode_utf8_decode_utf8(y);
    }
}

/// Inserts `s` into a strictly sorted list of texts, unless it is there.
fn insert_text(out: &mut Vec<String>, s: &str)
    requires
        forall|i: int, j: int| 0 <= i < j < old(out)@.len() ==> text_before(#[trigger] old(out)@[i]@, #[trigger] old(out)@[j]@),
    ensures
        forall|i: int, j: int| 0 <= i < j < final(out)@.len() ==> text_before(#[trigger] final(out)@[i]@, #[trigger] final(out)@[j]@),
        forall|x: Seq<char>| texts(final(out)@).contains(x) <==> (texts(old(out)@).contains(x) || x == s@),
{
    let ghost before = texts(out@);
    let mut p: usize = 0;
    while p < out.len()
        invariant_except_break
            p <= out.len(),
            forall|q: int| 0 <= q < p ==> text_before(#[trigger] out@[q]@, s@),
        invariant
            before == texts(out@),
            forall|i: int, j: int| 0 <= i < j < out@.len() ==> text_before(#[trigger] out@[i]@, #[trigger] out@[j]@),
        ensures
            p <= out.len(),
            forall|q: int| 0 <= q < p ==> text_before(#[trigger] out@[q]@, s@),
            p < out.len() ==> !text_before(out@[p as int]@, s@),
        decreases out.len() - p,
    {
        let smaller = !crate::text::str_eq(out[p].as_str(), s)
            && bytes_le_exec(out[p].as_str().as_bytes(), s.as_bytes());
        if smaller {
            p += 1;
        } else {
            break;
        }
    }
    if p < out.len() && crate::text::str_eq(out[p].as_str(), s) {
        assert(before[p as int] == s@);
        return;
    }
    proof {
        if p < out.len() {
            lemma_bytes_le_total(vstd::utf8::encode_utf8(out@[p as int]@), vstd::utf8::encode_utf8(s@));
            assert(text_before(s@, out@[p as int]@));
        }
    }
    out.insert(p, s.to_string());
    proof {
        let after = texts(out@);
        assert(after =~= before.insert(p as int, s@));
        assert forall|i: int, j: int| 0 <= i < j < out@.len() implies text_before(#[trigger] out@[i]@, #[trigger] out@[j]@) by {
            assert(out@[i]@ == after[i] && out@[j]@ == after[j]);
            if j < p {
                assert(after[i] == before[i] && after[j] == before[j]);
            } else if j == p {
                assert(after[i] == before[i] && after[j] == s@);
            } else if i == p {
                assert(after[i] == s@ && after[j] == before[j - 1]);
                if j - 1 > p {
                    lemma_text_before_transitive(s@, before[p as int], before[j - 1]);
                }
            } else if i < p {
                assert(after[i] == before[i] && after[j] == before[j - 1]);
            } else {
                assert(after[i] == before[i - 1] && after[j] == before[j - 1]);
            }
        }
        assert forall|x: Seq<char>| after.contains(x) <==> (before.contains(x) || x == s@) by {
            if after.contains(x) {
                let k = choose|k: int| 0 <= k < after.len() && after[k] == x;
                if k < p {
                    assert(before[k] == x);
                } else if k > p {
                    assert(before[k - 1] == x);
                }
            }
            if before.contains(x) {
                let k = choose|k: int| 0 <= k < before.len() && before[k] == x;
                if k < p {
                    assert(after[k] == x);
                } else {
                    assert(after[k + 1] == x);
                }
            }
            if x == s@ {
                assert(after[p as int] == x);
            }
        }
    }
}

/// The distinct string values of keyword `key` among the schemas, in byte
/// order.
pub fn string_annotations(applicable: &Vec<LocatedSchema>, keyword: &str) -> (r: Vec<String>)
    ensures
        sorted_text_set(texts(r@), keyword_strings(schemas_of(applicable@), keyword@)),
{
    let ghost a = schemas_of(applicable@);
    let mut out: Vec<String> = Vec::new();
    let mut i: usize = 0;
    while i < applicable.len()
        invariant
            a == schemas_of(applicable@),
            i <= applicable.len(),
            forall|p: int, q: int| 0 <= p < q < out@.len() ==> text_before(#[trigger] out@[p]@, #[trigger] out@[q]@),
            forall|x: Seq<char>| texts(out@).contains(x) <==> keyword_strings(a.take(i as int), keyword@).contains(x),
        decreases applicable.len() - i,
    {
        assert(a.take(i + 1).drop_last() =~= a.take(i as int));
        assert(a.take(i + 1).last() == applicable@[i as int].schema@);
        let ghost found = keyword_strings(a.take(i as int), keyword@);
        match member_exec(applicable[i].schema, keyword) {
            Some(JsonValue::String(text)) => {
                assert(keyword_strings(a.take(i + 1), keyword@) == found.push(text@));
                insert_text(&mut out, text.as_str());
                assert forall|x: Seq<char>| found.push(text@).contains(x) <==> (found.contains(x) || x == text@) by {
                    if found.push(text@).contains(x) {
                        let k = choose|k: int| 0 <= k < found.len() + 1 && found.push(text@)[k] == x;
                        if k < found.len() {
                            assert(found[k] == x);
                        }
                    }
                    if found.contains(x) {
                        let k = choose|k: int| 0 <= k < found.len() && found[k] == x;
                        assert(found.push(text@)[k] == x);
                    }
                    if x == text@ {
                        assert(found.push(text@)[found.len() as int] == x);
                    }
                }
            },
            _ => {
                assert(keyword_strings(a.take(i + 1), keyword@) == found);
            },
        }
        i += 1;
    }
    assert(a.take(applicable.len() as int) =~= a);
    proof {
        let r = texts(out@);
        assert forall|p: int, q: int| 0 <= p < q < r.len() implies text_before(#[trigger] r[p], #[trigger] r[q]) by {
            assert(r[p] == out@[p]@ && r[q] == out@[q]@);
        }
    }
    out
}

/// Some schema sets keyword `key` to `true`.
pub open spec fn flagged(a: Seq<JsonData>, key: Seq<char>) -> bool {
    exists|i: int| 0 <= i < a.len() && member_of(#[trigger] a[i], key) == Some(JsonData::Bool(true))
}

fn flagged_exec(applicable: &Vec<LocatedSchema>, key: &str) -> (r: bool)
    ensures
        r == flagged(schemas_of(applicable@), key@),
{
    let ghost a = schemas_of(applicable@);
    let mut i: usize = 0;
    while i < applicable.len()
        invariant
            a == schemas_of(applicable@),
            i <= applicable.len(),
            forall|j: int| 0 <= j < i ==> member_of(#[trigger] a[j], key@) != Some(JsonData::Bool(true)),
        decreases applicable.len() - i,
    {
        assert(a[i as int] == applicable@[i as int].schema@);
        match member_exec(applicable[i].schema, key) {
            Some(JsonValue::Bool(true)) => {
                return true;
            },
            _ => {},
        }
        i += 1;
    }
    false
}

/// The annotations that the applicable data schemas give a node.
#[derive(Debug, Clone)]
pub struct DataSchemaAnnotations {
    formats: Vec<String>,
    defaults: Vec<JsonValue>,
    deprecated: bool,
    read_only: bool,
    write_only: bool,
    examples: Vec<JsonValue>,
    content_encodings: Vec<String>,
    content_media_types: Vec<String>,
    content_schemas: Vec<JsonValue>,
}

/// The content of a node's data schema annotations.
pub struct AnnotationData {
    pub formats: Seq<Seq<char>>,
    pub defaults: Seq<JsonData>,
    pub deprecated: bool,
    pub read_only: bool,
    pub write_only: bool,
    pub examples: Seq<JsonData>,
    pub content_encodings: Seq<Seq<char>>,
    pub content_media_types: Seq<Seq<char>>,
    pub content_schemas: Seq<JsonData>,
}

impl View for DataSchemaAnnotations {
    type V = AnnotationData;

    closed spec fn view(&self) -> AnnotationData {
        AnnotationData {
            formats: texts(self.formats@),
            defaults: datas(self.defaults@),
            deprecated: self.deprecated,
            read_only: self.read_only,
            write_only: self.write_only,
            examples: datas(self.examples@),
            content_encodings: texts(self.content_encodings@),
            content_media_types: texts(self.content_media_types@),
            content_schemas: datas(self.content_schemas@),
        }
    }
}

/// What the applicable schemas say of a node: the distinct `format`,
/// `contentEncoding` and `contentMediaType` strings in byte order; the
/// distinct `default`, `examples` items and `contentSchema` values by
/// fingerprint; and whether any schema sets `deprecated`, `readOnly` or
/// `writeOnly` to `true`.
pub open spec fn describes_annotations(r: AnnotationData, a: Seq<JsonData>) -> bool {
    &&& sorted_text_set(r.formats, keyword_strings(a, "format"@))
    &&& r.defaults == by_fingerprint(dedup(keyword_values(a, "default"@)))
    &&& r.deprecated == flagged(a, "deprecated"@)
    &&& r.read_only == flagged(a, "readOnly"@)
    &&& r.write_only == flagged(a, "writeOnly"@)
    &&& r.examples == by_fingerprint(dedup(example_items(a)))
    &&& sorted_text_set(r.content_encodings, keyword_strings(a, "contentEncoding"@))
    &&& sorted_text_set(r.content_media_types, keyword_strings(a, "contentMediaType"@))
    &&& r.content_schemas == by_fingerprint(dedup(keyword_values(a, "contentSchema"@)))
}

/// The annotations of a node's applicable data schemas (see
/// [`describes_annotations`]).
pub fn data_schema_annotations(applicable: &Vec<LocatedSchema>) -> (r: DataSchemaAnnotations)
    ensures
        describes_annotations(r@, schemas_of(applicable@)),
{
    let found = example_items_exec(applicable);
    let mut examples = unique_values(&found);
    sort_annotation_values(&mut examples);
    DataSchemaAnnotations {
        formats: string_annotations(applicable, "format"),
        defaults: value_annotations(applicable, "default"),
        deprecated: flagged_exec(applicable, "deprecated"),
        read_only: flagged_exec(applicable, "readOnly"),
        write_only: flagged_exec(applicable, "writeOnly"),
        examples,
        content_encodings: string_annotations(applicable, "contentEncoding"),
        content_media_types: string_annotations(applicable, "contentMediaType"),
        content_schemas: value_annotations(applicable, "contentSchema"),
    }
}

impl DataSchemaAnnotations {
    /// The distinct `format` strings, in byte order.
    pub fn formats(&self) -> (r: &[String])
        ensures
            texts(r@) == self@.formats,
    {
        self.formats.as_slice()
    }

    /// The distinct `default` values, by fingerprint.
    pub fn defaults(&self) -> (r: &[JsonValue])
        ensures
            datas(r@) == self@.defaults,
    {
        self.defaults.as_slice()
    }

    /// Whether a schema marks the node deprecated.
    pub fn is_deprecated(&self) -> (r: bool)
        ensures
            r == self@.deprecated,
    {
        self.deprecated
    }

    /// Whether a schema marks the node read-only.
    pub fn is_read_only(&self) -> (r: bool)
        ensures
            r == self@.read_only,
    {
        self.read_only
    }

    /// Whether a schema marks the node write-only.
    pub fn is_write_only(&self) -> (r: bool)
        ensures
            r == self@.write_only,
    {
        self.write_only
    }

    /// The distinct `examples` items, by fingerprint.
    pub fn examples(&self) -> (r: &[JsonValue])
        ensures
            datas(r@) == self@.examples,
    {
        self.examples.as_slice()
    }

    /// The distinct `contentEncoding` strings, in byte order.
    pub fn content_encodings(&self) -> (r: &[String])
        ensures
            texts(r@) == self@.content_encodings,
    {
        self.content_encodings.as_slice()
    }

    /// The distinct `contentMediaType` strings, in byte order.
    pub fn content_media_types(&self) -> (r: &[String])
        ensures
            texts(r@) == self@.content_media_types,
    {
        self.content_media_types.as_slice()
    }

    /// The distinct `contentSchema` values, by fingerprint.
    pub fn content_schemas(&self) -> (r: &[JsonValue])
        ensures
            datas(r@) == self@.content_schemas,
    {
        self.content_schemas.as_slice()
    }
}

/// The kind of a scalar control.
#[derive(Debug, Clone, Copy, PartialEq, Eq, Structural)]
pub enum ControlKind {
    String,
    Number,
    Integer,
    Boolean,
    Choice,
    Constant,
    Null,
}

/// A value fits a scalar control of `kind` with `choices`: by JSON type for
/// text, number, integer and boolean controls; by equality with a choice
/// otherwise.
pub open spec fn compatible(kind: ControlKind, choices: Seq<JsonData>, v: JsonData) -> bool {
    match kind {
        ControlKind::String => v is String,
        ControlKind::Number => v is Number,
        ControlKind::Integer => v matches JsonData::Number(t) && is_json_number(t) && spec_number_is_integer(t),
        ControlKind::Boolean => v is Bool,
        _ => equals_one_of(v, choices),
    }
}

/// Whether `value` fits a scalar control (see [`compatible`]).
pub fn scalar_value_is_compatible(kind: ControlKind, choices: &Vec<JsonValue>, value: &JsonValue) -> (r: bool)
    ensures
        r == compatible(kind, datas(choices@), value@),
{
    match kind {
        ControlKind::String => matches!(value, JsonValue::String(_)),
        ControlKind::Number => matches!(value, JsonValue::Number(_)),
        ControlKind::Integer => match value {
            JsonValue::Number(n) => number_is_integer(n.as_str()),
            _ => false,
        },
        ControlKind::Boolean => matches!(value, JsonValue::Bool(_)),
        _ => equals_one_of_exec(value, choices),
    }
}

/// Position of the first choice that is not null, or -1.
pub open spec fn first_non_null(c: Seq<JsonData>) -> int
    decreases c.len(),
{
    if c.len() == 0 {
        -1
    } else if first_non_null(c.drop_last()) >= 0 {
        first_non_null(c.drop_last())
    } else if !(c.last() is Null) {
        c.len() - 1
    } else {
        -1
    }
}

/// The simplest value of a scalar control: the empty string, zero, `false`,
/// the first non-null choice (else the first choice), or null.
pub open spec fn spec_minimal_seed(kind: ControlKind, choices: Seq<JsonData>) -> Option<JsonData> {
    match kind {
        ControlKind::String => Some(JsonData::String(Seq::empty())),
        ControlKind::Number | ControlKind::Integer => Some(JsonData::Number(seq!['0'])),
        ControlKind::Boolean => Some(JsonData::Bool(false)),
        ControlKind::Null => Some(JsonData::Null),
        _ => if first_non_null(choices) >= 0 {
            Some(choices[first_non_null(choices)])
        } else if choices.len() > 0 {
            Some(choices[0])
        } else {
            None
        },
    }
}

/// The content of an optional value.
pub open spec fn optional_data(r: Option<JsonValue>) -> Option<JsonData> {
    match r {
        Some(v) => Some(v@),
        None => None,
    }
}

proof fn lemma_zero_is_number()
    ensures
        is_json_number(seq!['0']),
{
    let z = seq!['0'];
    assert(z.drop_last() =~= Seq::<char>::empty());
    assert(exponent_index(Seq::<char>::empty()) == -1);
    assert(exponent_index(z) == -1);
    assert(dot_index(Seq::<char>::empty()) == -1);
    assert(dot_index(z) == -1);
}

/// The simplest value of a scalar control (see [`spec_minimal_seed`]).
pub fn minimal_scalar_seed(kind: ControlKind, choices: &Vec<JsonValue>) -> (r: Option<JsonValue>)
    ensures
        optional_data(r) == spec_minimal_seed(kind, datas(choices@)),
{
    match kind {
        ControlKind::String => {
            let r = JsonValue::String(String::new());
            Some(r)
        },
        ControlKind::Number | ControlKind::Integer => {
            proof {
                reveal_strlit("0");
                lemma_zero_is_number();
                assert("0"@ =~= seq!['0']);
            }
            match JsonNumber::parse("0") {
                Some(n) => Some(JsonValue::Number(n)),
                None => None,
            }
        },
        ControlKind::Boolean => Some(JsonValue::Bool(false)),
        ControlKind::Null => Some(JsonValue::Null),
        _ => {
            let ghost c = datas(choices@);
            let mut i: usize = 0;
            while i < choices.len()
                invariant
                    c == datas(choices@),
                    spec_minimal_seed(kind, c) == if first_non_null(c) >= 0 {
                        Some(c[first_non_null(c)])
                    } else if c.len() > 0 {
                        Some(c[0])
                    } else {
                        None
                    },
                    i <= choices.len(),
                    first_non_null(c.take(i as int)) == -1,
                decreases choices.len() - i,
            {
                assert(c.take(i + 1).drop_last() =~= c.take(i as int));
                assert(c.take(i + 1).last() == choices@[i as int]@);
                match &choices[i] {
                    JsonValue::Null => {},
                    _ => {
                        proof {
                            assert(first_non_null(c.take(i + 1)) == i);
                            lemma_first_non_null_prefix(c, i + 1);
                        }
                        return Some(copy_value(&choices[i]));
                    },
                }
                i += 1;
            }
            assert(c.take(choices.len() as int) =~= c);
            if choices.len() > 0 {
                Some(copy_value(&choices[0]))
            } else {
                None
            }
        },
    }
}

proof fn lemma_first_non_null_prefix(c: Seq<JsonData>, n: int)
    requires
        0 <= n <= c.len(),
        first_non_null(c.take(n)) >= 0,
    ensures
        first_non_null(c) == first_non_null(c.take(n)),
    decreases c.len() - n,
{
    if n < c.len() {
        assert(c.take(n + 1).drop_last() =~= c.take(n));
        lemma_first_non_null_prefix(c, n + 1);
    } else {
        assert(c.take(n) =~= c);
    }
}

/// The defaults eligible to seed a new value: for an array item (`item`),
/// null when the item accepts null and any compatible value; otherwise any
/// compatible value that is not null.
pub open spec fn seed_candidates(
    defaults: Seq<JsonData>,
    kind: ControlKind,
    choices: Seq<JsonData>,
    accepts_null: bool,
    item: bool,
) -> Seq<JsonData>
    decreases defaults.len(),
{
    if defaults.len() == 0 {
        Seq::empty()
    } else {
        let r = seed_candidates(defaults.drop_last(), kind, choices, accepts_null, item);
        let v = defaults.last();
        let eligible = if item {
            (v is Null && accepts_null) || compatible(kind, choices, v)
        } else {
            !(v is Null) && compatible(kind, choices, v)
        };
        if eligible {
            r.push(v)
        } else {
            r
        }
    }
}

fn seed_candidates_exec(
    defaults: &[JsonValue],
    kind: ControlKind,
    choices: &Vec<JsonValue>,
    accepts_null: bool,
    item: bool,
) -> (r: Vec<JsonValue>)
    ensures
        datas(r@) == seed_candidates(datas(defaults@), kind, datas(choices@), accepts_null, item),
{
    let ghost d = datas(defaults@);
    let ghost c = datas(choices@);
    let mut out: Vec<JsonValue> = Vec::new();
    let mut i: usize = 0;
    assert(datas(out@) =~= seed_candidates(d.take(0), kind, c, accepts_null, item));
    while i < defaults.len()
        invariant
            d == datas(defaults@),
            c == datas(choices@),
            i <= defaults.len(),
            datas(out@) == seed_candidates(d.take(i as int), kind, c, accepts_null, item),
        decreases defaults.len() - i,
    {
        assert(d.take(i + 1).drop_last() =~= d.take(i as int));
        assert(d.take(i + 1).last() == defaults@[i as int]@);
        let is_null = matches!(&defaults[i], JsonValue::Null);
        let fits = scalar_value_is_compatible(kind, choices, &defaults[i]);
        let eligible = if item {
            (is_null && accepts_null) || fits
        } else {
            !is_null && fits
        };
        if eligible {
            let ghost before = datas(out@);
            out.push(copy_value(&defaults[i]));
            assert(datas(out@) =~= before.push(defaults@[i as int]@));
        }
        i += 1;
    }
    assert(d.take(defaults.len() as int) =~= d);
    out
}

/// The value a new scalar starts from: the one eligible default, else (but
/// for a null control) the simplest value.
pub open spec fn spec_scalar_creation_seed(kind: ControlKind, choices: Seq<JsonData>, defaults: Seq<JsonData>) -> Option<JsonData> {
    let eligible = seed_candidates(defaults, kind, choices, false, false);
    if eligible.len() == 1 {
        Some(eligible[0])
    } else if kind != ControlKind::Null {
        spec_minimal_seed(kind, choices)
    } else {
        None
    }
}

/// The value a new scalar control starts from (see
/// [`spec_scalar_creation_seed`]).
pub fn scalar_creation_seed(kind: ControlKind, choices: &Vec<JsonValue>, annotations: &DataSchemaAnnotations) -> (r: Option<JsonValue>)
    ensures
        optional_data(r) == spec_scalar_creation_seed(kind, datas(choices@), annotations@.defaults),
{
    let eligible = seed_candidates_exec(annotations.defaults(), kind, choices, false, false);
    if eligible.len() == 1 {
        return Some(copy_value(&eligible[0]));
    }
    if kind != ControlKind::Null {
        minimal_scalar_seed(kind, choices)
    } else {
        None
    }
}

/// The value a new array item starts from: the one eligible default, else
/// null for a null control, else the simplest value.
pub open spec fn spec_array_item_creation_seed(
    kind: ControlKind,
    choices: Seq<JsonData>,
    accepts_null: bool,
    defaults: Seq<JsonData>,
) -> Option<JsonData> {
    let eligible = seed_candidates(defaults, kind, choices, accepts_null, true);
    if eligible.len() == 1 {
        Some(eligible[0])
    } else if kind == ControlKind::Null {
        Some(JsonData::Null)
    } else {
        spec_minimal_seed(kind, choices)
    }
}

/// The value a new array item starts from (see
/// [`spec_array_item_creation_seed`]).
pub fn array_item_creation_seed(
    kind: ControlKind,
    choices: &Vec<JsonValue>,
    accepts_null: bool,
    annotations: &DataSchemaAnnotations,
) -> (r: Option<JsonValue>)
    ensures
        optional_data(r) == spec_array_item_creation_seed(kind, datas(choices@), accepts_null, annotations@.defaults),
{
    let eligible = seed_candidates_exec(annotations.defaults(), kind, choices, accepts_null, true);
    if eligible.len() == 1 {
        return Some(copy_value(&eligible[0]));
    }
    if kind == ControlKind::Null {
        return Some(JsonValue::Null);
    }
    minimal_scalar_seed(kind, choices)
}

/// A `type` declaration that admits arrays: `"array"`, or a list naming it.
pub open spec fn declares_array(d: JsonData) -> bool {
    ||| d == JsonData::String("array"@)
    ||| d matches JsonData::Array(items) && exists|k: int| 0 <= k < items.len() && #[trigger] items[k] == JsonData::String("array"@)
}

/// An array may apply: no schema declares a `type`, or every declaration
/// admits arrays.
pub open spec fn spec_array_may_apply(a: Seq<JsonData>) -> bool {
    let declarations = keyword_values(a, "type"@);
    declarations.len() == 0 || forall|i: int| 0 <= i < declarations.len() ==> declares_array(#[trigger] declarations[i])
}

fn declares_array_exec(d: &JsonValue) -> (r: bool)
    ensures
        r == declares_array(d@),
{
    match d {
        JsonValue::String(s) => crate::text::str_eq(s.as_str(), "array"),
        JsonValue::Array(items) => {
            let ghost v = d@->Array_0;
            let mut k: usize = 0;
            while k < items.len()
                invariant
                    d@ == JsonValue::Array(*items)@,
                    v == JsonValue::Array(*items)@->Array_0,
                    v.len() == items.len(),
                    k <= items.len(),
                    forall|j: int| 0 <= j < k ==> #[trigger] v[j] != JsonData::String("array"@),
                decreases items.len() - k,
            {
                assert(v[k as int] == items@[k as int]@);
                match &items[k] {
                    JsonValue::String(s) => {
                        if crate::text::str_eq(s.as_str(), "array") {
                            assert(v[k as int] == JsonData::String("array"@));
                            return true;
                        }
                    },
                    _ => {},
                }
                k += 1;
            }
            false
        },
        _ => false,
    }
}

/// Whether an array may apply (see [`spec_array_may_apply`]).
pub fn array_may_apply(applicable: &Vec<LocatedSchema>) -> (r: bool)
    ensures
        r == spec_array_may_apply(schemas_of(applicable@)),
{
    let declarations = keyword_values_exec(applicable, "type");
    let ghost d = datas(declarations@);
    let mut i: usize = 0;
    while i < declarations.len()
        invariant
            d == datas(declarations@),
            d == keyword_values(schemas_of(applicable@), "type"@),
            i <= declarations.len(),
            forall|j: int| 0 <= j < i ==> declares_array(#[trigger] d[j]),
        decreases declarations.len() - i,
    {
        if !declares_array_exec(&declarations[i]) {
            assert(!declares_array(d[i as int]));
            return false;
        }
        i += 1;
    }
    true
}

/// The type names a `type` declaration gives: the string, or the strings of
/// the list.
pub open spec fn declared_names(d: JsonData) -> Seq<Seq<char>> {
    match d {
        JsonData::String(s) => seq![s],
        JsonData::Array(items) => items.filter(|x: JsonData| x is String).map_values(|x: JsonData| x->String_0),
        _ => Seq::empty(),
    }
}

/// All type names that the schemas declare.
pub open spec fn all_declared_names(decls: Seq<JsonData>) -> Seq<Seq<char>>
    decreases decls.len(),
{
    if decls.len() == 0 {
        Seq::empty()
    } else {
        all_declared_names(decls.drop_last()) + declared_names(decls.last())
    }
}

/// The distinct type names that the schemas declare, in byte order.
pub fn declared_type_names(applicable: &Vec<LocatedSchema>) -> (r: Vec<String>)
    ensures
        sorted_text_set(texts(r@), all_declared_names(keyword_values(schemas_of(applicable@), "type"@))),
{
    let declarations = keyword_values_exec(applicable, "type");
    let ghost d = datas(declarations@);
    let mut out: Vec<String> = Vec::new();
    let mut i: usize = 0;
    while i < declarations.len()
        invariant
            d == datas(declarations@),
            i <= declarations.len(),
            forall|p: int, q: int| 0 <= p < q < out@.len() ==> text_before(#[trigger] out@[p]@, #[trigger] out@[q]@),
            forall|x: Seq<char>| texts(out@).contains(x) <==> all_declared_names(d.take(i as int)).contains(x),
        decreases declarations.len() - i,
    {
        assert(d.take(i + 1).drop_last() =~= d.take(i as int));
        assert(d.take(i + 1).last() == declarations@[i as int]@);
        let ghost prior = all_declared_names(d.take(i as int));
        let ghost names = declared_names(d[i as int]);
        assert(all_declared_names(d.take(i + 1)) == prior + names);
        match &declarations[i] {
            JsonValue::String(s) => {
                insert_text(&mut out, s.as_str());
                assert(names =~= seq![s@]);
                assert forall|x: Seq<char>| (prior + names).contains(x) <==> (prior.contains(x) || x == s@) by {
                    lemma_contains_concat(prior, names, x);
                    if x == s@ {
                        assert(names[0] == x);
                    }
                }
            },
            JsonValue::Array(items) => {
                let ghost v = JsonValue::Array(*items)@->Array_0;
                let ghost keep = |x: JsonData| x is String;
                let ghost pick = |x: JsonData| x->String_0;
                let mut k: usize = 0;
                proof {
                    reveal(Seq::filter);
                }
                assert(v.take(0).filter(keep).map_values(pick) =~= Seq::<Seq<char>>::empty());
                assert(prior + Seq::<Seq<char>>::empty() =~= prior);
                while k < items.len()
                    invariant
                        v == JsonValue::Array(*items)@->Array_0,
                        v.len() == items.len(),
                        k <= items.len(),
                        keep == (|x: JsonData| x is String),
                        pick == (|x: JsonData| x->String_0),
                        forall|p: int, q: int| 0 <= p < q < out@.len() ==> text_before(#[trigger] out@[p]@, #[trigger] out@[q]@),
                        forall|x: Seq<char>| texts(out@).contains(x) <==> (prior + v.take(k as int).filter(keep).map_values(pick)).contains(x),
                    decreases items.len() - k,
                {
                    proof {
                        reveal(Seq::filter);
                    }
                    let ghost got = v.take(k as int).filter(keep).map_values(pick);
                    assert(v.take(k + 1).drop_last() =~= v.take(k as int));
                    assert(v[k as int] == items@[k as int]@);
                    match &items[k] {
                        JsonValue::String(s) => {
                            assert(v.take(k + 1).filter(keep) == v.take(k as int).filter(keep).push(v[k as int]));
                            assert(v.take(k + 1).filter(keep).map_values(pick) =~= got.push(s@));
                            insert_text(&mut out, s.as_str());
                            assert forall|x: Seq<char>| (prior + got.push(s@)).contains(x) <==> ((prior + got).contains(x) || x == s@) by {
                                assert(prior + got.push(s@) =~= (prior + got).push(s@));
                                lemma_contains_concat(prior + got, seq![s@], x);
                                assert((prior + got).push(s@) =~= (prior + got) + seq![s@]);
                                if x == s@ {
                                    assert(seq![s@][0] == x);
                                }
                            }
                        },
                        _ => {
                            assert(v.take(k + 1).filter(keep) == v.take(k as int).filter(keep));
                        },
                    }
                    k += 1;
                }
                assert(v.take(items.len() as int) =~= v);
                assert(names == v.filter(keep).map_values(pick));
            },
            _ => {
                assert(names =~= Seq::<Seq<char>>::empty());
                assert(prior + names =~= prior);
            },
        }
        i += 1;
    }
    assert(d.take(declarations.len() as int) =~= d);
    proof {
        let r = texts(out@);
        assert forall|p: int, q: int| 0 <= p < q < r.len() implies text_before(#[trigger] r[p], #[trigger] r[q]) by {
            assert(r[p] == out@[p]@ && r[q] == out@[q]@);
        }
    }
    out
}

proof fn lemma_contains_concat(a: Seq<Seq<char>>, b: Seq<Seq<char>>, x: Seq<char>)
    ensures
        (a + b).contains(x) <==> (a.contains(x) || b.contains(x)),
{
    if (a + b).contains(x) {
        let k = choose|k: int| 0 <= k < (a + b).len() && (a + b)[k] == x;
        if k < a.len() {
            assert(a[k] == x);
        } else {
            assert(b[k - a.len()] == x);
        }
    }
    if a.contains(x) {
        let k = choose|k: int| 0 <= k < a.len() && a[k] == x;
        assert((a + b)[k] == x);
    }
    if b.contains(x) {
        let k = choose|k: int| 0 <= k < b.len() && b[k] == x;
        assert((a + b)[k + a.len()] == x);
    }
}

/// The parameters of an annotation conflict: the keyword and the texts.
pub open spec fn conflict_parameters(keyword: Seq<char>, values: Seq<Seq<char>>) -> JsonData {
    JsonData::Object(seq![("keyword"@, JsonData::String(keyword)), ("values"@, JsonData::Array(string_data(values)))])
}

/// Texts as JSON strings.
pub open spec fn string_data(values: Seq<Seq<char>>) -> Seq<JsonData> {
    values.map_values(|v: Seq<char>| JsonData::String(v))
}

/// The finding that located subschema `l` starts a conflict of keyword
/// `keyword` between the texts `values`.
pub open spec fn conflict_finding(l: LocatedSchema, keyword: Seq<char>, values: Seq<Seq<char>>) -> FindingReport {
    FindingReport {
        code: "annotation.conflict"@,
        keyword_location: append_token_spec(l.pointer@, keyword),
        resource: l.resource@,
        parameters: conflict_parameters(keyword, values),
    }
}

/// Every text of `found` is the same.
pub open spec fn all_same(found: Seq<Seq<char>>) -> bool {
    forall|i: int, j: int| 0 <= i < found.len() && 0 <= j < found.len() ==> #[trigger] found[i] == #[trigger] found[j]
}

proof fn lemma_sorted_set_size(r: Seq<Seq<char>>, found: Seq<Seq<char>>)
    requires
        sorted_text_set(r, found),
    ensures
        r.len() <= 1 <==> all_same(found),
        r.len() == 0 <==> found.len() == 0,
        r.len() == 1 ==> found.len() > 0 && r[0] == found[0],
{
    if r.len() >= 2 {
        assert(text_before(r[0], r[1]));
        assert(r.contains(r[0]) && r.contains(r[1]));
        let i = choose|i: int| 0 <= i < found.len() && found[i] == r[0];
        let j = choose|j: int| 0 <= j < found.len() && found[j] == r[1];
        assert(found[i] != found[j]);
    } else {
        assert forall|i: int, j: int| 0 <= i < found.len() && 0 <= j < found.len() implies #[trigger] found[i] == #[trigger] found[j] by {
            assert(found.contains(found[i]) && found.contains(found[j]));
            assert(r.contains(found[i]));
        }
    }
    if found.len() > 0 {
        assert(found.contains(found[0]));
        assert(r.contains(found[0]));
    }
    if r.len() > 0 {
        assert(r.contains(r[0]));
    }
}

/// A text annotation of the applicable schemas: the one text when they
/// agree (nothing when none gives one), or the conflict finding at the
/// earliest (by resource, then pointer) schema that gives a text.
pub fn text_annotation(applicable: &Vec<LocatedSchema>, keyword: &str) -> (r: (Option<String>, Option<UnsupportedFinding>))
    ensures
        ({
            let found = keyword_strings(schemas_of(applicable@), keyword@);
            if all_same(found) {
                &&& r.1 is None
                &&& match r.0 {
                    Some(t) => found.len() > 0 && t@ == found[0],
                    None => found.len() == 0,
                }
            } else {
                &&& r.0 is None
                &&& r.1 matches Some(f) && {
                    let origin = earliest(applicable@, keyword@, 4, applicable.len() as int);
                    &&& 0 <= origin < applicable.len()
                    &&& exists|values: Seq<Seq<char>>|
                        sorted_text_set(values, found) && f@ == conflict_finding(applicable@[origin], keyword@, values)
                }
            }
        }),
{
    let ghost found = keyword_strings(schemas_of(applicable@), keyword@);
    let values = string_annotations(applicable, keyword);
    proof {
        lemma_sorted_set_size(texts(values@), found);
    }
    if values.len() <= 1 {
        if values.len() == 0 {
            return (None, None);
        }
        return (Some(values[0].clone()), None);
    }
    let origin = match earliest_exec(applicable, keyword, 4) {
        Some(i) => i,
        None => {
            proof {
                lemma_earliest_bounds(applicable@, keyword@, 4, applicable.len() as int);
                lemma_found_has_origin(schemas_of(applicable@), applicable@, keyword@);
            }
            return (None, None);
        },
    };
    let at = append_token(applicable[origin].pointer.as_str(), keyword);
    proof {
        lemma_append_token_valid(applicable@[origin as int].pointer@, keyword@);
    }
    let mut items: Vec<JsonValue> = Vec::new();
    let mut k: usize = 0;
    while k < values.len()
        invariant
            k <= values.len(),
            datas(items@) == string_data(texts(values@).take(k as int)),
        decreases values.len() - k,
    {
        let ghost before = datas(items@);
        let item = JsonValue::String(values[k].as_str().to_string());
        assert(item@ == JsonData::String(texts(values@)[k as int]));
        items.push(item);
        assert(texts(values@).take(k + 1) =~= texts(values@).take(k as int).push(texts(values@)[k as int]));
        assert(datas(items@) =~= before.push(item@));
        assert(string_data(texts(values@).take(k + 1)) =~= string_data(texts(values@).take(k as int)).push(item@));
        k += 1;
    }
    assert(texts(values@).take(values.len() as int) =~= texts(values@));
    let list = JsonValue::Array(items);
    assert(list@ == JsonData::Array(string_data(texts(values@)))) by {
        assert(list@->Array_0 =~= datas(items@));
    }
    let ghost list_data = list@;
    let mut members: Vec<(String, JsonValue)> = Vec::new();
    let name = "keyword".to_string();
    let named = JsonValue::String(keyword.to_string());
    assert(name@ == "keyword"@);
    assert(named@ == JsonData::String(keyword@));
    members.push((name, named));
    members.push(("values".to_string(), list));
    assert(members@[0].0@ == "keyword"@);
    assert(members@[0].1@ == JsonData::String(keyword@));
    let parameters = JsonValue::Object(members);
    assert(parameters@ == conflict_parameters(keyword@, texts(values@))) by {
        let m = parameters@->Object_0;
        assert(m.len() == 2);
        assert(m[0] == ("keyword"@, JsonData::String(keyword@)));
        assert(m[1] == ("values"@, list_data));
        assert(m =~= conflict_parameters(keyword@, texts(values@))->Object_0);
    }
    let finding = UnsupportedFinding {
        code: "annotation.conflict".to_string(),
        keyword_location: JsonPointer::from_valid(at),
        resource: applicable[origin].resource.clone(),
        parameters,
    };
    assert(finding@ == conflict_finding(applicable@[origin as int], keyword@, texts(values@)));
    (None, Some(finding))
}

proof fn lemma_found_has_origin(a: Seq<JsonData>, l: Seq<LocatedSchema>, key: Seq<char>)
    requires
        a == schemas_of(l),
        keyword_strings(a, key).len() > 0,
    ensures
        exists|i: int| 0 <= i < l.len() && probe(#[trigger] l[i].schema@, key, 4),
    decreases a.len(),
{
    if a.len() > 0 {
        assert(a.last() == l[a.len() - 1].schema@);
        match member_of(a.last(), key) {
            Some(JsonData::String(_)) => {
                assert(probe(l[a.len() - 1].schema@, key, 4));
            },
            _ => {
                assert(keyword_strings(a.drop_last(), key).len() > 0);
                assert(schemas_of(l.drop_last()) =~= a.drop_last());
                lemma_found_has_origin(a.drop_last(), l.drop_last(), key);
                let i = choose|i: int| 0 <= i < l.drop_last().len() && probe(#[trigger] l.drop_last()[i].schema@, key, 4);
                assert(l[i] == l.drop_last()[i]);
                assert(probe(l[i].schema@, key, 4));
            },
        }
    }
}

/// Two findings concern the same place: the same resource and keyword location.
pub open spec fn same_place(x: FindingReport, y: FindingReport) -> bool {
    x.resource == y.resource && x.keyword_location == y.keyword_location
}

/// Finding `x` comes strictly before `y`: by resource, then by keyword
/// location, each in byte order.
pub open spec fn finding_before(x: FindingReport, y: FindingReport) -> bool {
    text_before(x.resource, y.resource) || (x.resource == y.resource && text_before(x.keyword_location, y.keyword_location))
}

/// `found[k]` is the last finding found at its place.
pub open spec fn last_at_place(found: Seq<FindingReport>, k: int) -> bool {
    forall|m: int| k < m < found.len() ==> !same_place(#[trigger] found[m], found[k])
}

/// `r` holds, in place order, one finding per place of `found`: the last one
/// found there (the values of a map keyed by resource and keyword location).
pub open spec fn findings_by_place(r: Seq<FindingReport>, found: Seq<FindingReport>) -> bool {
    &&& forall|i: int, j: int| 0 <= i < j < r.len() ==> finding_before(#[trigger] r[i], #[trigger] r[j])
    &&& forall|f: FindingReport| r.contains(f) <==> exists|k: int| 0 <= k < found.len() && found[k] == f && last_at_place(found, k)
}

/// The findings of the located subschemas that have keyword `keyword`.
pub open spec fn keyword_finding_reports(a: Seq<LocatedSchema>, keyword: Seq<char>, code: Seq<char>) -> Seq<FindingReport>
    decreases a.len(),
{
    if a.len() == 0 {
        Seq::empty()
    } else {
        let r = keyword_finding_reports(a.drop_last(), keyword, code);
        if member_of(a.last().schema@, keyword) is Some {
            r.push(keyword_finding(a.last(), keyword, code))
        } else {
            r
        }
    }
}

proof fn lemma_finding_before_transitive(x: FindingReport, y: FindingReport, z: FindingReport)
    requires
        finding_before(x, y),
        finding_before(y, z),
    ensures
        finding_before(x, z),
{
    if text_before(x.resource, y.resource) && text_before(y.resource, z.resource) {
        lemma_text_before_transitive(x.resource, y.resource, z.resource);
    } else if x.resource == y.resource && y.resource == z.resource {
        lemma_text_before_transitive(x.keyword_location, y.keyword_location, z.keyword_location);
    }
}

fn text_before_exec(x: &str, y: &str) -> (r: bool)
    ensures
        r == text_before(x@, y@),
{
    !crate::text::str_eq(x, y) && bytes_le_exec(x.as_bytes(), y.as_bytes())
}

fn finding_before_exec(x: &UnsupportedFinding, y: &UnsupportedFinding) -> (r: bool)
    ensures
        r == finding_before(x@, y@),
{
    text_before_exec(x.resource.as_str(), y.resource.as_str())
        || (crate::text::str_eq(x.resource.as_str(), y.resource.as_str())
            && text_before_exec(x.keyword_location.as_str(), y.keyword_location.as_str()))
}

/// The reports of a vector of findings.
pub open spec fn reports(v: Seq<UnsupportedFinding>) -> Seq<FindingReport> {
    v.map_values(|f: UnsupportedFinding| f@)
}

/// Adds a finding to a list kept in place order, replacing the finding at
/// the same place.
fn place_finding(out: &mut Vec<UnsupportedFinding>, f: UnsupportedFinding)
    requires
        forall|i: int, j: int| 0 <= i < j < old(out)@.len() ==> finding_before(#[trigger] old(out)@[i]@, #[trigger] old(out)@[j]@),
    ensures
        forall|i: int, j: int| 0 <= i < j < final(out)@.len() ==> finding_before(#[trigger] final(out)@[i]@, #[trigger] final(out)@[j]@),
        forall|g: FindingReport|
            #![trigger reports(final(out)@).contains(g)]
            #![trigger reports(old(out)@).contains(g)]
            reports(final(out)@).contains(g) <==> (g == f@ || (reports(old(out)@).contains(g) && !same_place(g, f@))),
{
    let ghost before = reports(out@);
    let ghost fv = f@;
    let mut p: usize = 0;
    while p < out.len()
        invariant_except_break
            p <= out.len(),
            forall|q: int| 0 <= q < p ==> finding_before(#[trigger] out@[q]@, fv),
        invariant
            before == reports(out@),
            fv == f@,
            forall|i: int, j: int| 0 <= i < j < out@.len() ==> finding_before(#[trigger] out@[i]@, #[trigger] out@[j]@),
        ensures
            p <= out.len(),
            forall|q: int| 0 <= q < p ==> finding_before(#[trigger] out@[q]@, fv),
            p < out.len() ==> !finding_before(out@[p as int]@, fv),
        decreases out.len() - p,
    {
        if finding_before_exec(&out[p], &f) {
            p += 1;
        } else {
            break;
        }
    }
    let replace = p < out.len() && crate::text::str_eq(out[p].resource.as_str(), f.resource.as_str())
        && crate::text::str_eq(out[p].keyword_location.as_str(), f.keyword_location.as_str());
    proof {
        if p < out.len() && !replace {
            let (ep, ef) = (out@[p as int]@, fv);
            lemma_bytes_le_total(vstd::utf8::encode_utf8(ep.resource), vstd::utf8::encode_utf8(ef.resource));
            lemma_bytes_le_total(vstd::utf8::encode_utf8(ep.keyword_location), vstd::utf8::encode_utf8(ef.keyword_location));
            assert(finding_before(fv, ep));
        }
        assert forall|q: int| 0 <= q < before.len() && before[q] != before[p as int] implies !same_place(#[trigger] before[q], fv) || q == p by {
            if q < p {
                assert(finding_before(before[q], fv));
                assert(before[q].resource != fv.resource || before[q].keyword_location != fv.keyword_location);
            } else if q > p && p < out.len() {
                assert(finding_before(before[p as int], before[q]));
                if replace {
                    assert(same_place(before[p as int], fv));
                } else {
                    assert(finding_before(fv, before[p as int]));
                    lemma_finding_before_transitive(fv, before[p as int], before[q]);
                }
                if same_place(before[q], fv) {
                    assert(!text_before(fv.resource, fv.resource));
                    assert(!text_before(fv.keyword_location, fv.keyword_location));
                }
            }
        }
    }
    if replace {
        out.set(p, f);
        proof {
            let after = reports(out@);
            assert(after =~= before.update(p as int, fv));
            assert forall|i: int, j: int| 0 <= i < j < out@.len() implies finding_before(#[trigger] out@[i]@, #[trigger] out@[j]@) by {
                assert(out@[i]@ == after[i] && out@[j]@ == after[j]);
                if i == p {
                    assert(same_place(before[p as int], fv));
                    assert(finding_before(before[p as int], before[j]));
                } else if j == p {
                    assert(finding_before(before[i], fv));
                }
            }
            assert forall|g: FindingReport| after.contains(g) <==> (g == fv || (before.contains(g) && !same_place(g, fv))) by {
                if after.contains(g) {
                    let k = choose|k: int| 0 <= k < after.len() && after[k] == g;
                    if k != p {
                        assert(before[k] == g);
                        if same_place(g, fv) {
                            if k < p {
                                assert(finding_before(before[k], fv));
                            } else {
                                assert(finding_before(before[p as int], before[k]));
                                assert(same_place(before[p as int], fv));
                            }
                        }
                    }
                }
                if g == fv {
                    assert(after[p as int] == g);
                }
                if before.contains(g) && !same_place(g, fv) {
                    let k = choose|k: int| 0 <= k < before.len() && before[k] == g;
                    assert(k != p);
                    assert(after[k] == g);
                }
            }
        }
    } else {
        out.insert(p, f);
        proof {
            let after = reports(out@);
            assert(after =~= before.insert(p as int, fv));
            assert forall|i: int, j: int| 0 <= i < j < out@.len() implies finding_before(#[trigger] out@[i]@, #[trigger] out@[j]@) by {
                assert(out@[i]@ == after[i] && out@[j]@ == after[j]);
                if j < p {
                    assert(after[i] == before[i] && after[j] == before[j]);
                } else if j == p {
                    assert(after[i] == before[i] && after[j] == fv);
                } else if i == p {
                    assert(after[i] == fv && after[j] == before[j - 1]);
                    assert(finding_before(fv, before[p as int]));
                    if j - 1 > p {
                        lemma_finding_before_transitive(fv, before[p as int], before[j - 1]);
                    }
                } else if i < p {
                    assert(after[i] == before[i] && after[j] == before[j - 1]);
                } else {
                    assert(after[i] == before[i - 1] && after[j] == before[j - 1]);
                }
            }
            assert forall|g: FindingReport| after.contains(g) <==> (g == fv || (before.contains(g) && !same_place(g, fv))) by {
                if after.contains(g) {
                    let k = choose|k: int| 0 <= k < after.len() && after[k] == g;
                    if k < p {
                        assert(before[k] == g);
                        assert(finding_before(before[k], fv));
                    } else if k > p {
                        assert(before[k - 1] == g);
                        assert(finding_before(fv, before[p as int]));
                        if k - 1 > p {
                            lemma_finding_before_transitive(fv, before[p as int], before[k - 1]);
                        }
                        assert(finding_before(fv, g));
                    }
                }
                if g == fv {
                    assert(after[p as int] == g);
                }
                if before.contains(g) && !same_place(g, fv) {
                    let k = choose|k: int| 0 <= k < before.len() && before[k] == g;
                    if k < p {
                        assert(after[k] == g);
                    } else {
                        assert(after[k + 1] == g);
                    }
                }
            }
        }
    }
}

proof fn lemma_findings_by_place_push(r: Seq<FindingReport>, found: Seq<FindingReport>, f: FindingReport, after: Seq<FindingReport>)
    requires
        forall|g: FindingReport| r.contains(g) <==> exists|k: int| 0 <= k < found.len() && found[k] == g && last_at_place(found, k),
        forall|g: FindingReport|
            #![trigger after.contains(g)]
            #![trigger r.contains(g)]
            after.contains(g) <==> (g == f || (r.contains(g) && !same_place(g, f))),
    ensures
        forall|g: FindingReport| after.contains(g) <==> exists|k: int| 0 <= k < found.push(f).len() && found.push(f)[k] == g && last_at_place(found.push(f), k),
{
    let fp = found.push(f);
    assert forall|g: FindingReport| after.contains(g) <==> exists|k: int| 0 <= k < fp.len() && fp[k] == g && last_at_place(fp, k) by {
        if g == f {
            assert(last_at_place(fp, found.len() as int));
            assert(fp[found.len() as int] == g);
        }
        if after.contains(g) && g != f {
            assert(r.contains(g) && !same_place(g, f));
            let k = choose|k: int| 0 <= k < found.len() && found[k] == g && last_at_place(found, k);
            assert(fp[k] == g);
            assert forall|m: int| k < m < fp.len() implies !same_place(#[trigger] fp[m], fp[k]) by {
                if m < found.len() {
                    assert(fp[m] == found[m]);
                }
            }
        }
        if exists|k: int| 0 <= k < fp.len() && fp[k] == g && last_at_place(fp, k) {
            let k = choose|k: int| 0 <= k < fp.len() && fp[k] == g && last_at_place(fp, k);
            if k < found.len() {
                assert(found[k] == g);
                assert(!same_place(fp[found.len() as int], fp[k]));
                assert forall|m: int| k < m < found.len() implies !same_place(#[trigger] found[m], found[k]) by {
                    assert(fp[m] == found[m]);
                }
                assert(r.contains(g));
            }
        }
    }
}

/// The findings `code` of the located subschemas that have keyword
/// `keyword`, one per place, in place order.
pub fn keyword_findings(applicable: &Vec<LocatedSchema>, keyword: &str, code: &str) -> (r: Vec<UnsupportedFinding>)
    ensures
        findings_by_place(reports(r@), keyword_finding_reports(applicable@, keyword@, code@)),
{
    let mut out: Vec<UnsupportedFinding> = Vec::new();
    let mut i: usize = 0;
    while i < applicable.len()
        invariant
            i <= applicable.len(),
            forall|p: int, q: int| 0 <= p < q < out@.len() ==> finding_before(#[trigger] out@[p]@, #[trigger] out@[q]@),
            forall|g: FindingReport| reports(out@).contains(g) <==> exists|k: int|
                0 <= k < keyword_finding_reports(applicable@.take(i as int), keyword@, code@).len()
                && keyword_finding_reports(applicable@.take(i as int), keyword@, code@)[k] == g
                && last_at_place(keyword_finding_reports(applicable@.take(i as int), keyword@, code@), k),
        decreases applicable.len() - i,
    {
        let ghost found = keyword_finding_reports(applicable@.take(i as int), keyword@, code@);
        let ghost prior = reports(out@);
        assert(applicable@.take(i + 1).drop_last() =~= applicable@.take(i as int));
        assert(applicable@.take(i + 1).last() == applicable@[i as int]);
        if member_exec(applicable[i].schema, keyword).is_some() {
            let f = finding_at(&applicable[i], keyword, code);
            let ghost fv = f@;
            assert(prior == reports(out@));
            place_finding(&mut out, f);
            assert(keyword_finding_reports(applicable@.take(i + 1), keyword@, code@) == found.push(fv));
            proof {
                lemma_findings_by_place_push(prior, found, fv, reports(out@));
            }
        } else {
            assert(keyword_finding_reports(applicable@.take(i + 1), keyword@, code@) == found);
        }
        i += 1;
    }
    assert(applicable@.take(applicable.len() as int) =~= applicable@);
    proof {
        let r = reports(out@);
        assert forall|p: int, q: int| 0 <= p < q < r.len() implies finding_before(#[trigger] r[p], #[trigger] r[q]) by {
            assert(r[p] == out@[p]@ && r[q] == out@[q]@);
        }
    }
    out
}

/// `{"itemCount": n}` for `prefixItems`, `{"branchCount": n}` otherwise.
pub open spec fn count_parameters(keyword: Seq<char>, n: nat) -> JsonData {
    JsonData::Object(
        seq![(if keyword == "prefixItems"@ { "itemCount"@ } else { "branchCount"@ }, JsonData::Number(nat_text(n)))],
    )
}

/// The finding `code` against array keyword `keyword` of a located
/// subschema, with the number of items `n` as its parameter.
pub open spec fn applicator_finding(l: LocatedSchema, keyword: Seq<char>, code: Seq<char>, n: nat) -> FindingReport {
    FindingReport {
        code,
        keyword_location: append_token_spec(l.pointer@, keyword),
        resource: l.resource@,
        parameters: count_parameters(keyword, n),
    }
}

/// The findings of the located subschemas whose keyword `keyword` is an array.
pub open spec fn applicator_finding_reports(a: Seq<LocatedSchema>, keyword: Seq<char>, code: Seq<char>) -> Seq<FindingReport>
    decreases a.len(),
{
    if a.len() == 0 {
        Seq::empty()
    } else {
        let r = applicator_finding_reports(a.drop_last(), keyword, code);
        match member_of(a.last().schema@, keyword) {
            Some(JsonData::Array(values)) => r.push(applicator_finding(a.last(), keyword, code, values.len())),
            _ => r,
        }
    }
}

fn applicator_finding_at(l: &LocatedSchema, keyword: &str, code: &str, n: usize) -> (r: UnsupportedFinding)
    ensures
        r@ == applicator_finding(*l, keyword@, code@, n as nat),
{
    let at = append_token(l.pointer.as_str(), keyword);
    proof {
        lemma_append_token_valid(l.pointer@, keyword@);
        lemma_nat_text_digits(n as nat);
        lemma_digits_are_number(nat_text(n as nat));
    }
    let digits = string_from_chars(&usize_text(n));
    let count = match JsonNumber::parse(digits.as_str()) {
        Some(number) => number,
        None => {
            proof {
                assert(false);
            }
            return finding_at(l, keyword, code);
        },
    };
    let name = if crate::text::str_eq(keyword, "prefixItems") {
        "itemCount".to_string()
    } else {
        "branchCount".to_string()
    };
    let ghost name_text = name@;
    let value = JsonValue::Number(count);
    let ghost value_data = value@;
    let mut members: Vec<(String, JsonValue)> = Vec::new();
    members.push((name, value));
    let parameters = JsonValue::Object(members);
    assert(parameters@ == count_parameters(keyword@, n as nat)) by {
        let m = parameters@->Object_0;
        assert(m.len() == 1);
        assert(m[0] == (name_text, value_data));
        assert(m =~= count_parameters(keyword@, n as nat)->Object_0);
    }
    UnsupportedFinding {
        code: code.to_owned(),
        keyword_location: JsonPointer::from_valid(at),
        resource: l.resource.clone(),
        parameters,
    }
}

/// The findings `code` of the located subschemas whose keyword `keyword` is
/// an array, with its length, one per place, in place order.
pub fn array_applicator_findings(applicable: &Vec<LocatedSchema>, keyword: &str, code: &str) -> (r: Vec<UnsupportedFinding>)
    ensures
        findings_by_place(reports(r@), applicator_finding_reports(applicable@, keyword@, code@)),
{
    let mut out: Vec<UnsupportedFinding> = Vec::new();
    let mut i: usize = 0;
    while i < applicable.len()
        invariant
            i <= applicable.len(),
            forall|p: int, q: int| 0 <= p < q < out@.len() ==> finding_before(#[trigger] out@[p]@, #[trigger] out@[q]@),
            forall|g: FindingReport| reports(out@).contains(g) <==> exists|k: int|
                0 <= k < applicator_finding_reports(applicable@.take(i as int), keyword@, code@).len()
                && applicator_finding_reports(applicable@.take(i as int), keyword@, code@)[k] == g
                && last_at_place(applicator_finding_reports(applicable@.take(i as int), keyword@, code@), k),
        decreases applicable.len() - i,
    {
        let ghost found = applicator_finding_reports(applicable@.take(i as int), keyword@, code@);
        let ghost prior = reports(out@);
        assert(applicable@.take(i + 1).drop_last() =~= applicable@.take(i as int));
        assert(applicable@.take(i + 1).last() == applicable@[i as int]);
        match member_exec(applicable[i].schema, keyword) {
            Some(JsonValue::Array(values)) => {
                let f = applicator_finding_at(&applicable[i], keyword, code, values.len());
                let ghost fv = f@;
                place_finding(&mut out, f);
                assert(applicator_finding_reports(applicable@.take(i + 1), keyword@, code@) == found.push(fv));
                proof {
                    lemma_findings_by_place_push(prior, found, fv, reports(out@));
                }
            },
            _ => {
                assert(applicator_finding_reports(applicable@.take(i + 1), keyword@, code@) == found);
            },
        }
        i += 1;
    }
    assert(applicable@.take(applicable.len() as int) =~= applicable@);
    proof {
        let r = reports(out@);
        assert forall|p: int, q: int| 0 <= p < q < r.len() implies finding_before(#[trigger] r[p], #[trigger] r[q]) by {
            assert(r[p] == out@[p]@ && r[q] == out@[q]@);
        }
    }
    out
}

} // verus!
