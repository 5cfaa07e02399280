use vstd::prelude::*;
use vstd::relations::{sorted_by, total_ordering};

use sha2::{Digest, Sha256};

use crate::bigint::big_int_text;
use crate::number::{is_json_number, number_normal_form, spec_normal_form};
use crate::text::{int_text, str_eq};
use crate::value::{JsonData, JsonValue};

verus! {

/// The SHA-256 digest of a byte sequence.
pub uninterp spec fn sha256(data: Seq<u8>) -> Seq<u8>;

/// `Sha256::digest`: the SHA-256 digest of `data`, as 32 bytes.
#[verifier::external_body]
pub(crate) fn sha256_digest(data: &[u8]) -> (r: [u8; 32])
    ensures
        r@ == sha256(data@),
{
    Sha256::digest(data).into()
}

/// Lexicographic order of byte strings (the order of `[u8]` and, on UTF-8
/// text, of `str`).
pub open spec fn bytes_le(a: Seq<u8>, b: Seq<u8>) -> bool
    decreases a.len(),
{
    if a.len() == 0 {
        true
    } else if b.len() == 0 {
        false
    } else if a[0] != b[0] {
        a[0] < b[0]
    } else {
        bytes_le(a.drop_first(), b.drop_first())
    }
}

pub proof fn lemma_bytes_le_total(a: Seq<u8>, b: Seq<u8>)
    ensures
        bytes_le(a, b) || bytes_le(b, a),
    decreases a.len(),
{
    if a.len() > 0 && b.len() > 0 && a[0] == b[0] {
        lemma_bytes_le_total(a.drop_first(), b.drop_first());
    }
}

pub proof fn lemma_bytes_le_antisymmetric(a: Seq<u8>, b: Seq<u8>)
    requires
        bytes_le(a, b),
        bytes_le(b, a),
    ensures
        a == b,
    decreases a.len(),
{
    if a.len() > 0 && b.len() > 0 {
        lemma_bytes_le_antisymmetric(a.drop_first(), b.drop_first());
        assert(a =~= seq![a[0]] + a.drop_first());
        assert(b =~= seq![b[0]] + b.drop_first());
    }
}

pub proof fn lemma_bytes_le_transitive(a: Seq<u8>, b: Seq<u8>, c: Seq<u8>)
    requires
        bytes_le(a, b),
        bytes_le(b, c),
    ensures
        bytes_le(a, c),
    decreases a.len(),
{
    if a.len() > 0 && b.len() > 0 && c.len() > 0 && a[0] == b[0] && b[0] == c[0] {
        lemma_bytes_le_transitive(a.drop_first(), b.drop_first(), c.drop_first());
    }
}

/// The byte order is a total order.
pub proof fn lemma_bytes_order()
    ensures
        total_ordering(|a: Seq<u8>, b: Seq<u8>| bytes_le(a, b)),
{
    assert forall|a: Seq<u8>| #[trigger] bytes_le(a, a) by {
        lemma_bytes_le_total(a, a);
    }
    assert forall|a: Seq<u8>, b: Seq<u8>| #[trigger] bytes_le(a, b) && #[trigger] bytes_le(b, a) implies a == b by {
        lemma_bytes_le_antisymmetric(a, b);
    }
    assert forall|a: Seq<u8>, b: Seq<u8>, c: Seq<u8>| #[trigger] bytes_le(a, b) && #[trigger] bytes_le(b, c) implies bytes_le(a, c) by {
        lemma_bytes_le_transitive(a, b, c);
    }
    assert forall|a: Seq<u8>, b: Seq<u8>| #[trigger] bytes_le(a, b) || #[trigger] bytes_le(b, a) by {
        lemma_bytes_le_total(a, b);
    }
}

/// Whether `a` comes no later than `b` in byte order.
pub fn bytes_le_exec(a: &[u8], b: &[u8]) -> (r: bool)
    ensures
        r == bytes_le(a@, b@),
{
    assert(a@.skip(0) =~= a@);
    assert(b@.skip(0) =~= b@);
    let mut i: usize = 0;
    while i < a.len() && i < b.len() && a[i] == b[i]
        invariant
            i <= a.len(),
            i <= b.len(),
            bytes_le(a@, b@) == bytes_le(a@.skip(i as int), b@.skip(i as int)),
        decreases a.len() - i,
    {
        assert(a@.skip(i as int).drop_first() =~= a@.skip(i + 1));
        assert(b@.skip(i as int).drop_first() =~= b@.skip(i + 1));
        i += 1;
    }
    if i == a.len() {
        true
    } else if i == b.len() {
        false
    } else {
        assert(a@.skip(i as int)[0] == a@[i as int]);
        assert(b@.skip(i as int)[0] == b@[i as int]);
        a[i] < b[i]
    }
}

/// The key at position `i`, or the empty key outside the sequence.
pub open spec fn key_at(keys: Seq<Seq<u8>>, i: int) -> Seq<u8> {
    if 0 <= i < keys.len() {
        keys[i]
    } else {
        Seq::empty()
    }
}

/// Positions ordered by their keys in byte order; positions with equal keys
/// keep their relative order.
pub open spec fn position_order(keys: Seq<Seq<u8>>) -> spec_fn(int, int) -> bool {
    |i: int, j: int|
        if key_at(keys, i) == key_at(keys, j) {
            i <= j
        } else {
            bytes_le(key_at(keys, i), key_at(keys, j))
        }
}

/// The positions of `keys`, in the order of a stable sort by key.
pub open spec fn sorted_positions(keys: Seq<Seq<u8>>) -> Seq<int> {
    Seq::new(keys.len(), |i: int| i).sort_by(position_order(keys))
}

pub proof fn lemma_position_order_total(keys: Seq<Seq<u8>>)
    ensures
        total_ordering(position_order(keys)),
{
    let o = position_order(keys);
    assert forall|i: int, j: int| #[trigger] o(i, j) && #[trigger] o(j, i) implies i == j by {
        if key_at(keys, i) != key_at(keys, j) {
            lemma_bytes_le_antisymmetric(key_at(keys, i), key_at(keys, j));
        }
    }
    assert forall|i: int, j: int, k: int| #[trigger] o(i, j) && #[trigger] o(j, k) implies o(i, k) by {
        let (a, b, c) = (key_at(keys, i), key_at(keys, j), key_at(keys, k));
        if a == b && b == c {
        } else if a == c {
            if a != b {
                lemma_bytes_le_antisymmetric(a, b);
            }
        } else {
            lemma_bytes_le_total(a, a);
            lemma_bytes_le_total(b, b);
            lemma_bytes_le_total(c, c);
            lemma_bytes_le_transitive(a, b, c);
        }
    }
    assert forall|i: int, j: int| #[trigger] o(i, j) || #[trigger] o(j, i) by {
        lemma_bytes_le_total(key_at(keys, i), key_at(keys, j));
    }
}

/// The `usize` positions as integers.
pub open spec fn positions_of(v: Seq<usize>) -> Seq<int> {
    v.map_values(|x: usize| x as int)
}

/// The positions of `keys` in the order of a stable sort by key (insertion
/// sort: each position goes after every earlier one whose key is not greater).
pub fn stable_positions(keys: &Vec<Vec<u8>>) -> (r: Vec<usize>)
    ensures
        positions_of(r@) == sorted_positions(keys@.map_values(|k: Vec<u8>| k@)),
        r.len() == keys.len(),
{
    let ghost ks = keys@.map_values(|k: Vec<u8>| k@);
    let ghost o = position_order(ks);
    proof {
        lemma_position_order_total(ks);
    }
    let mut out: Vec<usize> = Vec::new();
    assert(positions_of(out@) =~= Seq::new(0, |q: int| q));
    let mut i: usize = 0;
    while i < keys.len()
        invariant
            i <= keys.len(),
            ks == keys@.map_values(|k: Vec<u8>| k@),
            o == position_order(ks),
            total_ordering(o),
            out.len() == i,
            positions_of(out@).to_multiset() == Seq::new(i as nat, |q: int| q).to_multiset(),
            forall|q: int| 0 <= q < out.len() ==> #[trigger] out@[q] < i,
            sorted_by(positions_of(out@), o),
        decreases keys.len() - i,
    {
        let mut p: usize = 0;
        while p < out.len()
            invariant_except_break
                p <= out.len(),
                forall|q: int| 0 <= q < p ==> #[trigger] o(positions_of(out@)[q], i as int),
            invariant
                i < keys.len(),
                out.len() == i,
                forall|q: int| 0 <= q < out.len() ==> #[trigger] out@[q] < i,
                ks == keys@.map_values(|k: Vec<u8>| k@),
                o == position_order(ks),
            ensures
                p <= out.len(),
                forall|q: int| 0 <= q < p ==> #[trigger] o(positions_of(out@)[q], i as int),
                p < out.len() ==> !o(positions_of(out@)[p as int], i as int),
            decreases out.len() - p,
        {
            let j = out[p];
            assert(ks[j as int] == keys@[j as int]@);
            assert(ks[i as int] == keys@[i as int]@);
            if bytes_le_exec(keys[j].as_slice(), keys[i].as_slice()) {
                assert(o(positions_of(out@)[p as int], i as int)) by {
                    assert(positions_of(out@)[p as int] == j as int);
                    if key_at(ks, j as int) == key_at(ks, i as int) {
                    }
                }
                p += 1;
            } else {
                assert(!o(positions_of(out@)[p as int], i as int)) by {
                    assert(positions_of(out@)[p as int] == j as int);
                    lemma_bytes_le_total(key_at(ks, j as int), key_at(ks, j as int));
                }
                break;
            }
        }
        let ghost before = positions_of(out@);
        out.insert(p, i);
        proof {
            let after = positions_of(out@);
            assert(after =~= before.insert(p as int, i as int));
            vstd::seq_lib::to_multiset_insert(before, p as int, i as int);
            let upto = Seq::new(i as nat, |q: int| q);
            assert(Seq::new((i + 1) as nat, |q: int| q) =~= upto.push(i as int));
            vstd::seq_lib::to_multiset_build(upto, i as int);
            assert forall|a: int, b: int| 0 <= a < b < after.len() implies #[trigger] o(after[a], after[b]) by {
                if b < p as int {
                    assert(after[a] == before[a] && after[b] == before[b]);
                } else if b == p as int {
                    assert(after[a] == before[a] && after[b] == i as int);
                } else if a == p as int {
                    assert(after[a] == i as int && after[b] == before[b - 1]);
                    assert(!o(before[p as int], i as int));
                    assert(o(i as int, before[p as int]));
                    if b - 1 > p as int {
                        assert(o(before[p as int], before[b - 1]));
                    }
                } else if a < p as int {
                    assert(after[a] == before[a] && after[b] == before[b - 1]);
                } else {
                    assert(after[a] == before[a - 1] && after[b] == before[b - 1]);
                }
            }
        }
        i += 1;
    }
    proof {
        let all = Seq::new(keys.len() as nat, |q: int| q);
        all.lemma_sort_by_ensures(o);
        vstd::seq_lib::lemma_sorted_unique(positions_of(out@), all.sort_by(o), o);
    }
    out
}

/// Eight bytes, most significant first, of a length below 2^64.
pub open spec fn be_u64(n: nat) -> Seq<u8> {
    seq![
        (n / 0x100000000000000 % 0x100) as u8,
        (n / 0x1000000000000 % 0x100) as u8,
        (n / 0x10000000000 % 0x100) as u8,
        (n / 0x100000000 % 0x100) as u8,
        (n / 0x1000000 % 0x100) as u8,
        (n / 0x10000 % 0x100) as u8,
        (n / 0x100 % 0x100) as u8,
        (n % 0x100) as u8,
    ]
}

/// A byte string preceded by its length.
pub open spec fn bytes_field(b: Seq<u8>) -> Seq<u8> {
    be_u64(b.len()) + b
}

/// A text's UTF-8 bytes preceded by their length.
pub open spec fn text_field(s: Seq<char>) -> Seq<u8> {
    bytes_field(vstd::utf8::encode_utf8(s))
}

/// The byte strings of `parts`, one after another.
pub open spec fn concat(parts: Seq<Seq<u8>>) -> Seq<u8>
    decreases parts.len(),
{
    if parts.len() == 0 {
        Seq::empty()
    } else {
        concat(parts.drop_last()) + parts.last()
    }
}

/// A number by its normal form (sign, significant digits, decimal scale), so
/// that spellings of one value agree; a text that is no JSON number by itself.
pub open spec fn number_encoding(t: Seq<char>) -> Seq<u8> {
    if is_json_number(t) {
        let (negative, digits, scale) = spec_normal_form(t);
        seq![if negative { 1u8 } else { 0u8 }] + text_field(digits) + text_field(int_text(scale))
    } else {
        text_field(t)
    }
}

/// The UTF-8 bytes of the member names, by which members are ordered.
pub open spec fn member_keys(entries: Seq<(Seq<char>, JsonData)>) -> Seq<Seq<u8>> {
    entries.map_values(|e: (Seq<char>, JsonData)| vstd::utf8::encode_utf8(e.0))
}

/// The fingerprint input of a JSON value: a tag byte per kind, lengths as
/// eight big-endian bytes, numbers by normal form, and object members in the
/// byte order of their names (members of equal name, which a parsed object
/// never has, keep their order). Semantically equal values other than
/// reordered objects give equal inputs.
pub open spec fn json_encoding(d: JsonData) -> Seq<u8>
    decreases d,
{
    match d {
        JsonData::Null => seq![9u8],
        JsonData::Bool(b) => seq![10u8, if b { 1u8 } else { 0u8 }],
        JsonData::Number(t) => seq![11u8] + number_encoding(t),
        JsonData::String(s) => seq![12u8] + text_field(s),
        JsonData::Array(items) => seq![13u8] + be_u64(items.len()) + concat(item_parts(items)),
        JsonData::Object(entries) => seq![14u8] + be_u64(entries.len()) + concat(member_parts(entries)),
    }
}

/// The encodings of array items, in order.
pub open spec fn item_parts(d: Seq<JsonData>) -> Seq<Seq<u8>>
    decreases d,
{
    Seq::new(
        d.len(),
        |i: int|
            if 0 <= i < d.len() {
                json_encoding(d[i])
            } else {
                Seq::empty()
            },
    )
}

/// The encodings of object members (name, then value), in the byte order of
/// their names.
pub open spec fn member_parts(d: Seq<(Seq<char>, JsonData)>) -> Seq<Seq<u8>>
    decreases d,
{
    Seq::new(
        d.len(),
        |q: int|
            {
                let i = sorted_positions(member_keys(d))[q];
                if 0 <= i < d.len() {
                    text_field(d[i].0) + json_encoding(d[i].1)
                } else {
                    Seq::empty()
                }
            },
    )
}

/// Appends `n` as eight big-endian bytes.
fn push_u64(out: &mut Vec<u8>, n: u64)
    ensures
        final(out)@ == old(out)@ + be_u64(n as nat),
{
    out.push((n / 0x100000000000000 % 0x100) as u8);
    out.push((n / 0x1000000000000 % 0x100) as u8);
    out.push((n / 0x10000000000 % 0x100) as u8);
    out.push((n / 0x100000000 % 0x100) as u8);
    out.push((n / 0x1000000 % 0x100) as u8);
    out.push((n / 0x10000 % 0x100) as u8);
    out.push((n / 0x100 % 0x100) as u8);
    out.push((n % 0x100) as u8);
    assert(final(out)@ =~= old(out)@ + be_u64(n as nat));
}

/// Appends the bytes of `b`.
pub(crate) fn push_bytes(out: &mut Vec<u8>, b: &[u8])
    ensures
        final(out)@ == old(out)@ + b@,
{
    let ghost start = out@;
    let mut i: usize = 0;
    while i < b.len()
        invariant
            i <= b.len(),
            out@ == start + b@.take(i as int),
        decreases b.len() - i,
    {
        out.push(b[i]);
        assert(b@.take(i + 1) =~= b@.take(i as int).push(b@[i as int]));
        i += 1;
    }
    assert(b@.take(b.len() as int) =~= b@);
}

/// Appends the length of `length` items: eight big-endian bytes.
pub fn hash_fingerprint_length(input: &mut Vec<u8>, length: usize)
    ensures
        final(input)@ == old(input)@ + be_u64(length as nat),
{
    push_u64(input, length as u64);
}

/// Appends a byte string preceded by its length.
pub fn hash_fingerprint_bytes(input: &mut Vec<u8>, bytes: &[u8])
    ensures
        final(input)@ == old(input)@ + bytes_field(bytes@),
{
    hash_fingerprint_length(input, bytes.len());
    push_bytes(input, bytes);
    assert(final(input)@ =~= old(input)@ + bytes_field(bytes@));
}

/// An optional length: `1` and its eight bytes, or `0` when absent.
pub open spec fn optional_length_field(value: Option<usize>) -> Seq<u8> {
    match value {
        Some(n) => seq![1u8] + be_u64(n as nat),
        None => seq![0u8],
    }
}

/// Appends an optional length (see [`optional_length_field`]).
pub fn hash_optional_usize(input: &mut Vec<u8>, value: Option<usize>)
    ensures
        final(input)@ == old(input)@ + optional_length_field(value),
{
    match value {
        Some(n) => {
            input.push(1);
            push_u64(input, n as u64);
        },
        None => {
            input.push(0);
        },
    }
    assert(input@ =~= old(input)@ + optional_length_field(value));
}

/// An optional text: `1` and the text's field, or `0` when absent.
pub open spec fn optional_text_field(value: Option<Seq<char>>) -> Seq<u8> {
    match value {
        Some(s) => seq![1u8] + text_field(s),
        None => seq![0u8],
    }
}

/// Appends an optional text (see [`optional_text_field`]).
pub fn hash_optional_fingerprint_bytes(input: &mut Vec<u8>, value: Option<&str>)
    ensures
        final(input)@ == old(input)@ + optional_text_field(
            match value {
                Some(s) => Some(s@),
                None => None,
            },
        ),
{
    match value {
        Some(s) => {
            input.push(1);
            push_text(input, s);
        },
        None => {
            input.push(0);
        },
    }
    assert(input@ =~= old(input)@ + optional_text_field(
        match value {
            Some(s) => Some(s@),
            None => None,
        },
    ));
}

/// Appends a text's UTF-8 bytes preceded by their length.
pub(crate) fn push_text(input: &mut Vec<u8>, s: &str)
    ensures
        final(input)@ == old(input)@ + text_field(s@),
{
    hash_fingerprint_bytes(input, s.as_bytes());
}

/// Appends a number by its normal form.
fn push_number(input: &mut Vec<u8>, text: &str)
    requires
        is_json_number(text@),
    ensures
        final(input)@ == old(input)@ + number_encoding(text@),
{
    let (negative, digits, scale) = number_normal_form(text);
    input.push(if negative { 1 } else { 0 });
    let mut digit_text = String::new();
    let mut i: usize = 0;
    while i < digits.len()
        invariant
            i <= digits.len(),
            digit_text@ == digits@.take(i as int),
        decreases digits.len() - i,
    {
        crate::text::string_push(&mut digit_text, digits[i]);
        assert(digits@.take(i + 1) =~= digits@.take(i as int).push(digits@[i as int]));
        i += 1;
    }
    assert(digits@.take(digits.len() as int) =~= digits@);
    push_text(input, digit_text.as_str());
    let scale_text = big_int_text(&scale);
    push_text(input, scale_text.as_str());
    assert(final(input)@ =~= old(input)@ + number_encoding(text@));
}

/// The member names' UTF-8 bytes.
fn member_key_bytes(entries: &Vec<(String, JsonValue)>) -> (r: Vec<Vec<u8>>)
    ensures
        r@.map_values(|b: Vec<u8>| b@) == member_keys(JsonValue::Object(*entries)@->Object_0),
{
    let ghost d = JsonValue::Object(*entries)@->Object_0;
    let mut keys: Vec<Vec<u8>> = Vec::new();
    let mut k: usize = 0;
    while k < entries.len()
        invariant
            d == JsonValue::Object(*entries)@->Object_0,
            d.len() == entries.len(),
            k <= entries.len(),
            keys.len() == k,
            forall|j: int| 0 <= j < k ==> #[trigger] keys@[j]@ == member_keys(d)[j],
        decreases entries.len() - k,
    {
        keys.push(vstd::slice::slice_to_vec(entries[k].0.as_str().as_bytes()));
        assert(d[k as int].0 == entries@[k as int].0@);
        k += 1;
    }
    assert(keys@.map_values(|b: Vec<u8>| b@) =~= member_keys(d));
    keys
}

fn hash_json_items(input: &mut Vec<u8>, items: &Vec<JsonValue>)
    ensures
        final(input)@ == old(input)@ + concat(item_parts(JsonValue::Array(*items)@->Array_0)),
    decreases items,
{
    let ghost d = JsonValue::Array(*items)@->Array_0;
    let ghost parts = item_parts(d);
    let ghost start = input@;
    assert(parts.take(0) =~= Seq::<Seq<u8>>::empty());
    let mut i: usize = 0;
    while i < items.len()
        invariant
            d == JsonValue::Array(*items)@->Array_0,
            d.len() == items.len(),
            parts == item_parts(d),
            i <= items.len(),
            input@ == start + concat(parts.take(i as int)),
        decreases items.len() - i,
    {
        proof {
            vstd::std_specs::vec::axiom_vec_index_decreases(*items, i as int);
        }
        hash_json_value(input, &items[i]);
        assert(parts.take(i + 1).drop_last() =~= parts.take(i as int));
        assert(d[i as int] == items@[i as int]@);
        i += 1;
    }
    assert(parts.take(items.len() as int) =~= parts);
}

fn hash_json_members(input: &mut Vec<u8>, entries: &Vec<(String, JsonValue)>)
    ensures
        final(input)@ == old(input)@ + concat(member_parts(JsonValue::Object(*entries)@->Object_0)),
    decreases entries,
{
    let ghost d = JsonValue::Object(*entries)@->Object_0;
    let keys = member_key_bytes(entries);
    let order = stable_positions(&keys);
    let ghost parts = member_parts(d);
    let ghost all = Seq::new(d.len(), |q: int| q);
    proof {
        lemma_position_order_total(member_keys(d));
        all.lemma_sort_by_ensures(position_order(member_keys(d)));
    }
    let ghost start = input@;
    assert(parts.take(0) =~= Seq::<Seq<u8>>::empty());
    let mut q: usize = 0;
    while q < order.len()
        invariant
            d == JsonValue::Object(*entries)@->Object_0,
            d.len() == entries.len(),
            order.len() == entries.len(),
            positions_of(order@) == sorted_positions(member_keys(d)),
            all == Seq::new(d.len(), |q: int| q),
            forall|x: int| !all.contains(x) ==> !(#[trigger] sorted_positions(member_keys(d)).contains(x)),
            parts == member_parts(d),
            q <= order.len(),
            input@ == start + concat(parts.take(q as int)),
        decreases order.len() - q,
    {
        let i = order[q];
        assert(positions_of(order@)[q as int] == i as int);
        assert(sorted_positions(member_keys(d)).contains(i as int));
        if i >= entries.len() {
            assert(!all.contains(i as int));
            assert(false);
        }
        proof {
            vstd::std_specs::vec::axiom_vec_index_decreases(*entries, i as int);
            assert(decreases_to!(entries@[i as int] => entries@[i as int].1));
        }
        push_text(input, entries[i].0.as_str());
        hash_json_value(input, &entries[i].1);
        assert(d[i as int].0 == entries@[i as int].0@);
        assert(d[i as int].1 == entries@[i as int].1@);
        assert(parts.take(q + 1).drop_last() =~= parts.take(q as int));
        assert(input@ =~= start + concat(parts.take(q + 1)));
        q += 1;
    }
    assert(parts.take(order.len() as int) =~= parts);
}

/// Appends the fingerprint input of a JSON value (see [`json_encoding`]).
pub fn hash_json_value(input: &mut Vec<u8>, value: &JsonValue)
    ensures
        final(input)@ == old(input)@ + json_encoding(value@),
    decreases value,
{
    match value {
        JsonValue::Null => {
            input.push(9);
        },
        JsonValue::Bool(b) => {
            input.push(10);
            input.push(if *b { 1 } else { 0 });
        },
        JsonValue::Number(n) => {
            input.push(11);
            push_number(input, n.as_str());
        },
        JsonValue::String(s) => {
            input.push(12);
            push_text(input, s.as_str());
        },
        JsonValue::Array(items) => {
            input.push(13);
            hash_fingerprint_length(input, items.len());
            hash_json_items(input, items);
        },
        JsonValue::Object(entries) => {
            input.push(14);
            hash_fingerprint_length(input, entries.len());
            hash_json_members(input, entries);
        },
    }
    assert(final(input)@ =~= old(input)@ + json_encoding(value@));
}

/// Keys kept in stable byte order.
pub open spec fn sorted_keys(keys: Seq<Seq<u8>>) -> Seq<Seq<u8>> {
    Seq::new(keys.len(), |q: int| key_at(keys, sorted_positions(keys)[q]))
}

/// Keywords whose value is an annotation, left out of a schema's fingerprint.
pub open spec fn annotation_keyword(k: Seq<char>) -> bool {
    ||| k == "$schema"@
    ||| k == "$comment"@
    ||| k == "default"@
    ||| k == "deprecated"@
    ||| k == "description"@
    ||| k == "examples"@
    ||| k == "readOnly"@
    ||| k == "writeOnly"@
}

/// Keywords whose value maps names to subschemas.
pub open spec fn schema_map_keyword(k: Seq<char>) -> bool {
    ||| k == "$defs"@
    ||| k == "definitions"@
    ||| k == "dependentSchemas"@
    ||| k == "patternProperties"@
    ||| k == "properties"@
}

/// Keywords whose value is one subschema.
pub open spec fn subschema_keyword(k: Seq<char>) -> bool {
    ||| k == "additionalItems"@
    ||| k == "additionalProperties"@
    ||| k == "contains"@
    ||| k == "contentSchema"@
    ||| k == "else"@
    ||| k == "if"@
    ||| k == "items"@
    ||| k == "not"@
    ||| k == "propertyNames"@
    ||| k == "then"@
    ||| k == "unevaluatedItems"@
    ||| k == "unevaluatedProperties"@
}

/// Keywords whose value is a list of subschemas.
pub open spec fn schema_list_keyword(k: Seq<char>) -> bool {
    ||| k == "allOf"@
    ||| k == "anyOf"@
    ||| k == "oneOf"@
    ||| k == "prefixItems"@
}

/// An array of strings only.
pub open spec fn string_array(v: JsonData) -> bool {
    v matches JsonData::Array(items) && forall|i: int| 0 <= i < items.len() ==> #[trigger] items[i] is String
}

/// The UTF-8 bytes of the strings of an array.
pub open spec fn string_keys(items: Seq<JsonData>) -> Seq<Seq<u8>> {
    items.map_values(|x: JsonData| vstd::utf8::encode_utf8(x->String_0))
}

/// The digests of the fingerprint inputs of an array's items.
pub open spec fn item_digests(items: Seq<JsonData>) -> Seq<Seq<u8>> {
    items.map_values(|x: JsonData| sha256(json_encoding(x)))
}

/// A list of strings as a set: the strings in byte order, each with its length.
pub open spec fn unordered_strings_encoding(items: Seq<JsonData>) -> Seq<u8> {
    let sorted = sorted_keys(string_keys(items));
    seq![8u8] + be_u64(items.len()) + concat(sorted.map_values(|b: Seq<u8>| bytes_field(b)))
}

/// A list of JSON values as a set: the digests of the items, in byte order.
pub open spec fn unordered_values_encoding(items: Seq<JsonData>) -> Seq<u8> {
    seq![15u8] + be_u64(items.len()) + concat(sorted_keys(item_digests(items)))
}

/// The positions of the members that are not annotations, in the byte order
/// of their names.
pub open spec fn keyword_order(entries: Seq<(Seq<char>, JsonData)>) -> Seq<int> {
    sorted_positions(member_keys(entries)).filter(|i: int| !annotation_keyword(entries[i].0))
}

/// The fingerprint input of a schema: the fingerprint input of its JSON,
/// except that annotations are left out, subschemas are taken as schemas, and
/// `required` names and `enum` values are taken as sets.
pub open spec fn schema_encoding(d: JsonData) -> Seq<u8>
    decreases d, 0int,
{
    match d {
        JsonData::Null => seq![0u8],
        JsonData::Bool(b) => seq![1u8, if b { 1u8 } else { 0u8 }],
        JsonData::Object(entries) => seq![5u8] + be_u64(keyword_order(entries).len()) + concat(keyword_parts(entries)),
        _ => json_encoding(d),
    }
}

/// The encodings of a schema's keywords (name, then value), in the order of
/// [`keyword_order`].
pub open spec fn keyword_parts(entries: Seq<(Seq<char>, JsonData)>) -> Seq<Seq<u8>>
    decreases entries, 0int,
{
    let order = keyword_order(entries);
    Seq::new(
        order.len(),
        |q: int|
            {
                let i = order[q];
                if 0 <= i < entries.len() {
                    text_field(entries[i].0) + keyword_value_encoding(entries[i].0, entries[i].1)
                } else {
                    Seq::empty()
                }
            },
    )
}

/// The encoding of a keyword's value, by keyword.
pub open spec fn keyword_value_encoding(k: Seq<char>, v: JsonData) -> Seq<u8>
    decreases v, 1int,
{
    if schema_map_keyword(k) {
        schema_map_encoding(v)
    } else if subschema_keyword(k) {
        schema_encoding(v)
    } else if schema_list_keyword(k) {
        schema_list_encoding(v)
    } else if k == "required"@ && string_array(v) {
        unordered_strings_encoding(v->Array_0)
    } else if k == "enum"@ && v is Array {
        unordered_values_encoding(v->Array_0)
    } else {
        json_encoding(v)
    }
}

/// A map of names to subschemas: members in the byte order of their names,
/// each value as a schema. Anything else by its JSON.
pub open spec fn schema_map_encoding(d: JsonData) -> Seq<u8>
    decreases d, 0int,
{
    match d {
        JsonData::Object(entries) => seq![6u8] + be_u64(entries.len()) + concat(schema_member_parts(entries)),
        _ => json_encoding(d),
    }
}

/// The members of a map of subschemas (name, then schema), in the byte order
/// of their names.
pub open spec fn schema_member_parts(entries: Seq<(Seq<char>, JsonData)>) -> Seq<Seq<u8>>
    decreases entries, 0int,
{
    Seq::new(
        entries.len(),
        |q: int|
            {
                let i = sorted_positions(member_keys(entries))[q];
                if 0 <= i < entries.len() {
                    text_field(entries[i].0) + schema_encoding(entries[i].1)
                } else {
                    Seq::empty()
                }
            },
    )
}

/// A list of subschemas, each as a schema. Anything else by its JSON.
pub open spec fn schema_list_encoding(d: JsonData) -> Seq<u8>
    decreases d, 0int,
{
    match d {
        JsonData::Array(items) => seq![7u8] + be_u64(items.len()) + concat(schema_item_parts(items)),
        _ => json_encoding(d),
    }
}

/// The encodings of a list of subschemas, in order.
pub open spec fn schema_item_parts(items: Seq<JsonData>) -> Seq<Seq<u8>>
    decreases items, 0int,
{
    Seq::new(
        items.len(),
        |i: int|
            if 0 <= i < items.len() {
                schema_encoding(items[i])
            } else {
                Seq::empty()
            },
    )
}

fn is_annotation_keyword(k: &str) -> (r: bool)
    ensures
        r == annotation_keyword(k@),
{
    str_eq(k, "$schema") || str_eq(k, "$comment") || str_eq(k, "default") || str_eq(k, "deprecated")
        || str_eq(k, "description") || str_eq(k, "examples") || str_eq(k, "readOnly") || str_eq(k, "writeOnly")
}

fn is_schema_map_keyword(k: &str) -> (r: bool)
    ensures
        r == schema_map_keyword(k@),
{
    str_eq(k, "$defs") || str_eq(k, "definitions") || str_eq(k, "dependentSchemas")
        || str_eq(k, "patternProperties") || str_eq(k, "properties")
}

fn is_subschema_keyword(k: &str) -> (r: bool)
    ensures
        r == subschema_keyword(k@),
{
    str_eq(k, "additionalItems") || str_eq(k, "additionalProperties") || str_eq(k, "contains")
        || str_eq(k, "contentSchema") || str_eq(k, "else") || str_eq(k, "if") || str_eq(k, "items")
        || str_eq(k, "not") || str_eq(k, "propertyNames") || str_eq(k, "then")
        || str_eq(k, "unevaluatedItems") || str_eq(k, "unevaluatedProperties")
}

fn is_schema_list_keyword(k: &str) -> (r: bool)
    ensures
        r == schema_list_keyword(k@),
{
    str_eq(k, "allOf") || str_eq(k, "anyOf") || str_eq(k, "oneOf") || str_eq(k, "prefixItems")
}

fn is_string_array(v: &JsonValue) -> (r: bool)
    ensures
        r == string_array(v@),
{
    match v {
        JsonValue::Array(items) => {
            let ghost d = v@->Array_0;
            let mut i: usize = 0;
            while i < items.len()
                invariant
                    *v == JsonValue::Array(*items),
                    d == v@->Array_0,
                    d.len() == items.len(),
                    i <= items.len(),
                    forall|j: int| 0 <= j < i ==> #[trigger] d[j] is String,
                decreases items.len() - i,
            {
                assert(d[i as int] == items@[i as int]@);
                match &items[i] {
                    JsonValue::String(_) => {},
                    _ => {
                        return false;
                    },
                }
                i += 1;
            }
            true
        },
        _ => false,
    }
}

/// Each key preceded by its length when `with_length` holds, or the keys as they are.
pub open spec fn key_fields(keys: Seq<Seq<u8>>, with_length: bool) -> Seq<Seq<u8>> {
    if with_length {
        keys.map_values(|b: Seq<u8>| bytes_field(b))
    } else {
        keys
    }
}

/// Appends `keys` in stable byte order, each preceded by its length when
/// `with_length` holds.
fn push_in_key_order(input: &mut Vec<u8>, keys: &Vec<Vec<u8>>, with_length: bool)
    ensures
        final(input)@ == old(input)@ + concat(key_fields(sorted_keys(keys@.map_values(|k: Vec<u8>| k@)), with_length)),
{
    let ghost kv = keys@.map_values(|k: Vec<u8>| k@);
    let ghost parts = key_fields(sorted_keys(kv), with_length);
    let order = stable_positions(keys);
    let ghost all = Seq::new(kv.len(), |q: int| q);
    proof {
        lemma_position_order_total(kv);
        all.lemma_sort_by_ensures(position_order(kv));
    }
    let ghost start = input@;
    assert(parts.take(0) =~= Seq::<Seq<u8>>::empty());
    let mut q: usize = 0;
    while q < order.len()
        invariant
            kv == keys@.map_values(|k: Vec<u8>| k@),
            order.len() == keys.len(),
            positions_of(order@) == sorted_positions(kv),
            all == Seq::new(kv.len(), |q: int| q),
            forall|x: int| !all.contains(x) ==> !(#[trigger] sorted_positions(kv).contains(x)),
            parts == key_fields(sorted_keys(kv), with_length),
            q <= order.len(),
            input@ == start + concat(parts.take(q as int)),
        decreases order.len() - q,
    {
        let i = order[q];
        assert(positions_of(order@)[q as int] == i as int);
        assert(sorted_positions(kv).contains(i as int));
        if i >= keys.len() {
            assert(!all.contains(i as int));
            assert(false);
        }
        assert(sorted_keys(kv)[q as int] == keys@[i as int]@);
        if with_length {
            hash_fingerprint_bytes(input, keys[i].as_slice());
        } else {
            push_bytes(input, keys[i].as_slice());
        }
        assert(parts.take(q + 1).drop_last() =~= parts.take(q as int));
        q += 1;
    }
    assert(parts.take(order.len() as int) =~= parts);
}

/// The strings' UTF-8 bytes.
fn string_key_bytes(items: &Vec<JsonValue>) -> (r: Vec<Vec<u8>>)
    requires
        string_array(JsonValue::Array(*items)@),
    ensures
        r@.map_values(|k: Vec<u8>| k@) == string_keys(JsonValue::Array(*items)@->Array_0),
{
    let ghost d = JsonValue::Array(*items)@->Array_0;
    let mut keys: Vec<Vec<u8>> = Vec::new();
    let mut i: usize = 0;
    while i < items.len()
        invariant
            d == JsonValue::Array(*items)@->Array_0,
            string_array(JsonValue::Array(*items)@),
            d.len() == items.len(),
            i <= items.len(),
            keys.len() == i,
            forall|j: int| 0 <= j < i ==> #[trigger] keys@[j]@ == string_keys(d)[j],
        decreases items.len() - i,
    {
        assert(d[i as int] == items@[i as int]@);
        assert(d[i as int] is String);
        match &items[i] {
            JsonValue::String(text) => {
                keys.push(vstd::slice::slice_to_vec(text.as_str().as_bytes()));
            },
            _ => {
                assert(false);
            },
        }
        i += 1;
    }
    assert(keys@.map_values(|k: Vec<u8>| k@) =~= string_keys(d));
    keys
}

/// Appends the strings of a string array as a set (see
/// [`unordered_strings_encoding`]).
pub fn hash_unordered_strings(input: &mut Vec<u8>, value: &JsonValue)
    requires
        string_array(value@),
    ensures
        final(input)@ == old(input)@ + unordered_strings_encoding(value@->Array_0),
{
    match value {
        JsonValue::Array(items) => {
            let ghost d = value@->Array_0;
            let keys = string_key_bytes(items);
            let ghost start = input@;
            input.push(8);
            hash_fingerprint_length(input, items.len());
            let ghost mid = input@;
            push_in_key_order(input, &keys, true);
            let ghost sorted = sorted_keys(string_keys(d));
            assert(key_fields(sorted, true) =~= sorted.map_values(|b: Seq<u8>| bytes_field(b)));
            assert(mid =~= start + seq![8u8] + be_u64(d.len()));
            assert(input@ =~= start + unordered_strings_encoding(d));
        },
        _ => {
            assert(false);
        },
    }
}

/// The fingerprints of the items, as byte strings.
fn item_digest_keys(items: &Vec<JsonValue>) -> (r: Vec<Vec<u8>>)
    ensures
        r@.map_values(|k: Vec<u8>| k@) == item_digests(JsonValue::Array(*items)@->Array_0),
{
    let ghost d = JsonValue::Array(*items)@->Array_0;
    let mut keys: Vec<Vec<u8>> = Vec::new();
    let mut i: usize = 0;
    while i < items.len()
        invariant
            d == JsonValue::Array(*items)@->Array_0,
            d.len() == items.len(),
            i <= items.len(),
            keys.len() == i,
            forall|j: int| 0 <= j < i ==> #[trigger] keys@[j]@ == item_digests(d)[j],
        decreases items.len() - i,
    {
        assert(d[i as int] == items@[i as int]@);
        let digest = semantic_json_fingerprint(&items[i]);
        keys.push(vstd::slice::slice_to_vec(digest.as_slice()));
        i += 1;
    }
    assert(keys@.map_values(|k: Vec<u8>| k@) =~= item_digests(d));
    keys
}

/// Appends the items of an array as a set (see [`unordered_values_encoding`]).
pub fn hash_unordered_json_values(input: &mut Vec<u8>, value: &JsonValue)
    requires
        value@ is Array,
    ensures
        final(input)@ == old(input)@ + unordered_values_encoding(value@->Array_0),
{
    match value {
        JsonValue::Array(items) => {
            let ghost d = value@->Array_0;
            let keys = item_digest_keys(items);
            let ghost start = input@;
            input.push(15);
            hash_fingerprint_length(input, items.len());
            let ghost mid = input@;
            push_in_key_order(input, &keys, false);
            let ghost sorted = sorted_keys(item_digests(d));
            assert(key_fields(sorted, false) == sorted);
            assert(mid =~= start + seq![15u8] + be_u64(d.len()));
            assert(input@ =~= start + unordered_values_encoding(d));
        },
        _ => {
            assert(false);
        },
    }
}

/// The positions of the non-annotation keywords, in stable byte order of
/// their names.
fn keyword_positions(entries: &Vec<(String, JsonValue)>) -> (r: Vec<usize>)
    ensures
        positions_of(r@) == keyword_order(JsonValue::Object(*entries)@->Object_0),
        forall|q: int| 0 <= q < r.len() ==> #[trigger] r@[q] < entries.len(),
{
    let ghost d = JsonValue::Object(*entries)@->Object_0;
    let keys = member_key_bytes(entries);
    let order = stable_positions(&keys);
    let ghost all = Seq::new(d.len(), |q: int| q);
    proof {
        lemma_position_order_total(member_keys(d));
        all.lemma_sort_by_ensures(position_order(member_keys(d)));
    }
    let ghost sorted = sorted_positions(member_keys(d));
    let ghost keep = |i: int| !annotation_keyword(d[i].0);
    let mut kept: Vec<usize> = Vec::new();
    assert(sorted.take(0).filter(keep) =~= Seq::<int>::empty());
    assert(positions_of(kept@) =~= Seq::<int>::empty());
    let mut q: usize = 0;
    while q < order.len()
        invariant
            d == JsonValue::Object(*entries)@->Object_0,
            d.len() == entries.len(),
            order.len() == entries.len(),
            sorted == sorted_positions(member_keys(d)),
            positions_of(order@) == sorted,
            all == Seq::new(d.len(), |q: int| q),
            forall|x: int| !all.contains(x) ==> !(#[trigger] sorted.contains(x)),
            q <= order.len(),
            keep == (|i: int| !annotation_keyword(d[i].0)),
            positions_of(kept@) == sorted.take(q as int).filter(keep),
            forall|j: int| 0 <= j < kept.len() ==> #[trigger] kept@[j] < entries.len(),
        decreases order.len() - q,
    {
        let i = order[q];
        assert(positions_of(order@)[q as int] == i as int);
        assert(sorted.contains(i as int));
        if i >= entries.len() {
            assert(!all.contains(i as int));
            assert(false);
        }
        assert(sorted.take(q + 1).drop_last() =~= sorted.take(q as int));
        assert(sorted.take(q + 1).last() == i as int);
        assert(d[i as int].0 == entries@[i as int].0@);
        let ghost before = positions_of(kept@);
        if !is_annotation_keyword(entries[i].0.as_str()) {
            kept.push(i);
            assert(keep(i as int));
            assert(positions_of(kept@) =~= before.push(i as int));
        } else {
            assert(!keep(i as int));
        }
        proof {
            reveal(Seq::filter);
        }
        assert(sorted.take(q + 1).filter(keep) == if keep(i as int) {
            sorted.take(q as int).filter(keep).push(i as int)
        } else {
            sorted.take(q as int).filter(keep)
        });
        q += 1;
    }
    assert(sorted.take(order.len() as int) =~= sorted);
    assert(sorted.filter(keep) == keyword_order(d));
    kept
}

/// Appends a schema object's keywords (see [`schema_encoding`]).
fn hash_schema_keywords(input: &mut Vec<u8>, entries: &Vec<(String, JsonValue)>)
    ensures
        final(input)@ == old(input)@ + schema_encoding(JsonValue::Object(*entries)@),
    decreases entries, 0int,
{
    let ghost d = JsonValue::Object(*entries)@->Object_0;
    let kept = keyword_positions(entries);
    let ghost order = keyword_order(d);
    let ghost parts = keyword_parts(d);
    let ghost start = input@;
    input.push(5);
    hash_fingerprint_length(input, kept.len());
    let ghost mid = input@;
    assert(parts.take(0) =~= Seq::<Seq<u8>>::empty());
    let mut q: usize = 0;
    while q < kept.len()
        invariant
            d == JsonValue::Object(*entries)@->Object_0,
            d.len() == entries.len(),
            order == keyword_order(d),
            positions_of(kept@) == order,
            forall|j: int| 0 <= j < kept.len() ==> #[trigger] kept@[j] < entries.len(),
            parts == keyword_parts(d),
            parts.len() == order.len(),
            q <= kept.len(),
            input@ == mid + concat(parts.take(q as int)),
        decreases kept.len() - q,
    {
        let i = kept[q];
        assert(order[q as int] == i as int);
        proof {
            vstd::std_specs::vec::axiom_vec_index_decreases(*entries, i as int);
            assert(decreases_to!(entries@[i as int] => entries@[i as int].1));
        }
        push_text(input, entries[i].0.as_str());
        hash_keyword_value(input, entries[i].0.as_str(), &entries[i].1);
        assert(d[i as int].0 == entries@[i as int].0@);
        assert(d[i as int].1 == entries@[i as int].1@);
        assert(parts.take(q + 1).drop_last() =~= parts.take(q as int));
        assert(input@ =~= mid + concat(parts.take(q + 1)));
        q += 1;
    }
    assert(parts.take(kept.len() as int) =~= parts);
    assert(input@ =~= start + schema_encoding(JsonValue::Object(*entries)@));
}

/// Appends a keyword's value by keyword (see [`keyword_value_encoding`]).
fn hash_keyword_value(input: &mut Vec<u8>, key: &str, value: &JsonValue)
    ensures
        final(input)@ == old(input)@ + keyword_value_encoding(key@, value@),
    decreases value, 1int,
{
    if is_schema_map_keyword(key) {
        hash_schema_map(input, value);
    } else if is_subschema_keyword(key) {
        hash_schema_value(input, value);
    } else if is_schema_list_keyword(key) {
        hash_schema_array(input, value);
    } else if str_eq(key, "required") && is_string_array(value) {
        hash_unordered_strings(input, value);
    } else if str_eq(key, "enum") && matches!(value, JsonValue::Array(_)) {
        hash_unordered_json_values(input, value);
    } else {
        hash_json_value(input, value);
    }
}

/// Appends the fingerprint input of a schema (see [`schema_encoding`]).
pub fn hash_schema_value(input: &mut Vec<u8>, value: &JsonValue)
    ensures
        final(input)@ == old(input)@ + schema_encoding(value@),
    decreases value, 0int,
{
    match value {
        JsonValue::Null => {
            input.push(0);
            assert(input@ =~= old(input)@ + schema_encoding(value@));
        },
        JsonValue::Bool(b) => {
            input.push(1);
            input.push(if *b { 1 } else { 0 });
            assert(input@ =~= old(input)@ + schema_encoding(value@));
        },
        JsonValue::Object(entries) => {
            hash_schema_keywords(input, entries);
        },
        _ => {
            hash_json_value(input, value);
        },
    }
}

/// Appends a map of names to subschemas (see [`schema_map_encoding`]).
pub fn hash_schema_map(input: &mut Vec<u8>, value: &JsonValue)
    ensures
        final(input)@ == old(input)@ + schema_map_encoding(value@),
    decreases value, 0int,
{
    match value {
        JsonValue::Object(entries) => {
            let ghost start = input@;
            input.push(6);
            hash_fingerprint_length(input, entries.len());
            hash_schema_members(input, entries);
            assert(input@ =~= start + schema_map_encoding(value@));
        },
        _ => {
            hash_json_value(input, value);
        },
    }
}

fn hash_schema_members(input: &mut Vec<u8>, entries: &Vec<(String, JsonValue)>)
    ensures
        final(input)@ == old(input)@ + concat(schema_member_parts(JsonValue::Object(*entries)@->Object_0)),
    decreases entries, 0int,
{
    let ghost d = JsonValue::Object(*entries)@->Object_0;
    let keys = member_key_bytes(entries);
    let order = stable_positions(&keys);
    let ghost parts = schema_member_parts(d);
    let ghost all = Seq::new(d.len(), |q: int| q);
    proof {
        lemma_position_order_total(member_keys(d));
        all.lemma_sort_by_ensures(position_order(member_keys(d)));
    }
    let ghost start = input@;
    assert(parts.take(0) =~= Seq::<Seq<u8>>::empty());
    let mut q: usize = 0;
    while q < order.len()
        invariant
            d == JsonValue::Object(*entries)@->Object_0,
            d.len() == entries.len(),
            order.len() == entries.len(),
            positions_of(order@) == sorted_positions(member_keys(d)),
            all == Seq::new(d.len(), |q: int| q),
            forall|x: int| !all.contains(x) ==> !(#[trigger] sorted_positions(member_keys(d)).contains(x)),
            parts == schema_member_parts(d),
            q <= order.len(),
            input@ == start + concat(parts.take(q as int)),
        decreases order.len() - q,
    {
        let i = order[q];
        assert(positions_of(order@)[q as int] == i as int);
        assert(sorted_positions(member_keys(d)).contains(i as int));
        if i >= entries.len() {
            assert(!all.contains(i as int));
            assert(false);
        }
        proof {
            vstd::std_specs::vec::axiom_vec_index_decreases(*entries, i as int);
            assert(decreases_to!(entries@[i as int] => entries@[i as int].1));
        }
        push_text(input, entries[i].0.as_str());
        hash_schema_value(input, &entries[i].1);
        assert(d[i as int].0 == entries@[i as int].0@);
        assert(d[i as int].1 == entries@[i as int].1@);
        assert(parts.take(q + 1).drop_last() =~= parts.take(q as int));
        assert(input@ =~= start + concat(parts.take(q + 1)));
        q += 1;
    }
    assert(parts.take(order.len() as int) =~= parts);
}

/// Appends a list of subschemas (see [`schema_list_encoding`]).
pub fn hash_schema_array(input: &mut Vec<u8>, value: &JsonValue)
    ensures
        final(input)@ == old(input)@ + schema_list_encoding(value@),
    decreases value, 0int,
{
    match value {
        JsonValue::Array(items) => {
            let ghost start = input@;
            input.push(7);
            hash_fingerprint_length(input, items.len());
            hash_schema_items(input, items);
            assert(input@ =~= start + schema_list_encoding(value@));
        },
        _ => {
            hash_json_value(input, value);
        },
    }
}

fn hash_schema_items(input: &mut Vec<u8>, items: &Vec<JsonValue>)
    ensures
        final(input)@ == old(input)@ + concat(schema_item_parts(JsonValue::Array(*items)@->Array_0)),
    decreases items, 0int,
{
    let ghost d = JsonValue::Array(*items)@->Array_0;
    let ghost parts = schema_item_parts(d);
    let ghost start = input@;
    assert(parts.take(0) =~= Seq::<Seq<u8>>::empty());
    let mut i: usize = 0;
    while i < items.len()
        invariant
            d == JsonValue::Array(*items)@->Array_0,
            d.len() == items.len(),
            parts == schema_item_parts(d),
            i <= items.len(),
            input@ == start + concat(parts.take(i as int)),
        decreases items.len() - i,
    {
        proof {
            vstd::std_specs::vec::axiom_vec_index_decreases(*items, i as int);
        }
        hash_schema_value(input, &items[i]);
        assert(parts.take(i + 1).drop_last() =~= parts.take(i as int));
        assert(d[i as int] == items@[i as int]@);
        i += 1;
    }
    assert(parts.take(items.len() as int) =~= parts);
}

/// The semantic fingerprint of a JSON value: the SHA-256 digest of its
/// fingerprint input.
pub fn semantic_json_fingerprint(value: &JsonValue) -> (r: [u8; 32])
    ensures
        r@ == sha256(json_encoding(value@)),
{
    let mut input: Vec<u8> = Vec::new();
    hash_json_value(&mut input, value);
    assert(input@ =~= json_encoding(value@));
    sha256_digest(input.as_slice())
}

} // verus!
