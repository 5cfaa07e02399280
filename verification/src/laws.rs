use vstd::prelude::*;

use crate::address::{escape_char, escape_token, lemma_escape_token, pointer_starts_with, rebased};
use crate::json::{location_suffix, strip_location};
use crate::number::{is_json_number, spec_canonical_integer, spec_numbers_equal, split_exponent, split_fraction, split_sign, ParseBlockerKind};
use crate::text::{all_digits, all_zero, lemma_trim_leading_zeros, trim_leading_zeros, zeros};
use crate::value::{lemma_member_index_bounds, member_index, spec_json_equal, spec_preserve, JsonData};
use crate::fingerprint::{
    bytes_le, item_parts, json_encoding, key_at, lemma_bytes_order, lemma_position_order_total,
    member_keys, member_parts, number_encoding, position_order, sha256, sorted_positions,
};
use crate::annotations::spec_nonnegative_integer;
use crate::form::{
    arrays_pending, clear_item, cleared, controls_pending, identities, items_pending, reset_arrays, reset_form, topology_changed,
    accepts, edit_text_outcome, same_edit_value, set_value_outcome, stored_choice, text_value, ControlLocation, ControlStateData, FormData, ItemData,
};
use crate::compiled::ControlDefinition;
use crate::choices::datas;
use crate::pointer::resolve_pointer;
use crate::address::is_pointer_text;
use crate::engine::{batches_after, finding_lt, lemma_finding_order, normalized_findings, BatchData, FindingKey};

verus! {

/// Semantic number equality is an equivalence: every number equals itself,
/// equality is symmetric, and it is transitive.
pub proof fn lemma_numbers_equal_is_equivalence(a: Seq<char>, b: Seq<char>, c: Seq<char>)
    ensures
        spec_numbers_equal(a, a),
        spec_numbers_equal(a, b) ==> spec_numbers_equal(b, a),
        spec_numbers_equal(a, b) && spec_numbers_equal(b, c) ==> spec_numbers_equal(a, c),
{
}

/// Every object in the value, at any depth, names each member once (as a
/// parsed JSON document does).
pub open spec fn unique_keys(v: JsonData) -> bool
    decreases v,
{
    match v {
        JsonData::Array(items) => forall|i: int| 0 <= i < items.len() ==> unique_keys(#[trigger] items[i]),
        JsonData::Object(entries) => (forall|i: int, j: int| 0 <= i < j < entries.len() ==> #[trigger] entries[i].0 != #[trigger] entries[j].0)
            && forall|i: int| 0 <= i < entries.len() ==> unique_keys(#[trigger] entries[i].1),
        _ => true,
    }
}

proof fn lemma_member_index_of_unique(entries: Seq<(Seq<char>, JsonData)>, i: int)
    requires
        0 <= i < entries.len(),
        forall|p: int, q: int| 0 <= p < q < entries.len() ==> #[trigger] entries[p].0 != #[trigger] entries[q].0,
    ensures
        member_index(entries, entries[i].0) == i,
{
    lemma_member_index_bounds(entries, entries[i].0);
    let k = member_index(entries, entries[i].0);
    if k == -1 {
        assert(entries[i].0 != entries[i].0);
    }
    if k < i {
        assert(entries[k].0 != entries[i].0);
    }
    if k > i {
        assert(entries[i].0 != entries[i].0);
    }
}

/// Semantic JSON equality is reflexive on values whose objects name each
/// member once: such a value equals itself.
pub proof fn lemma_json_equal_reflexive(v: JsonData)
    requires
        unique_keys(v),
    ensures
        spec_json_equal(v, v),
    decreases v,
{
    match v {
        JsonData::Array(items) => {
            assert forall|i: int| 0 <= i < items.len() implies spec_json_equal(#[trigger] items[i], items[i]) by {
                lemma_json_equal_reflexive(items[i]);
            }
        },
        JsonData::Object(entries) => {
            assert forall|i: int| 0 <= i < entries.len() implies {
                let k = member_index(entries, (#[trigger] entries[i]).0);
                k >= 0 && spec_json_equal(entries[i].1, entries[k].1)
            } by {
                lemma_member_index_of_unique(entries, i);
                assert(decreases_to!(entries => entries[i]));
                lemma_json_equal_reflexive(entries[i].1);
            }
        },
        _ => {},
    }
}

/// Rebasing a pointer from a prefix onto that same prefix gives it back.
pub proof fn lemma_rebase_onto_itself(location: Seq<char>, from: Seq<char>)
    requires
        pointer_starts_with(location, from),
    ensures
        rebased(location, from, from) == Some(location),
{
    assert(from + location.skip(from.len() as int) =~= location) by {
        assert(location.take(from.len() as int) == from);
    }
}

/// The reference token a JSON Pointer token text stands for: `~0` is `~`
/// and `~1` is `/`.
pub open spec fn unescape_token(s: Seq<char>) -> Seq<char>
    decreases s.len(),
{
    if s.len() >= 2 && s[s.len() - 2] == '~' && s.last() == '0' {
        unescape_token(s.take(s.len() - 2)).push('~')
    } else if s.len() >= 2 && s[s.len() - 2] == '~' && s.last() == '1' {
        unescape_token(s.take(s.len() - 2)).push('/')
    } else if s.len() == 0 {
        Seq::empty()
    } else {
        unescape_token(s.drop_last()).push(s.last())
    }
}

/// Escaping a reference token for a JSON Pointer loses nothing: unescaping
/// the escaped text gives the token back.
pub proof fn lemma_escape_round_trip(t: Seq<char>)
    ensures
        unescape_token(escape_token(t)) == t,
    decreases t.len(),
{
    if t.len() > 0 {
        lemma_escape_round_trip(t.drop_last());
        lemma_escape_token(t.drop_last());
        let a = escape_token(t.drop_last());
        let c = t.last();
        let x = a + escape_char(c);
        assert(escape_token(t) == x);
        if c == '~' || c == '/' {
            assert(x.take(x.len() - 2) =~= a);
        } else {
            assert(x.drop_last() =~= a);
            if x.len() >= 2 {
                assert(x[x.len() - 2] == a.last());
            }
        }
        assert(t.drop_last().push(c) =~= t);
    }
}

/// A diagnostic message that carries the location suffix is its reason
/// followed by that suffix.
pub proof fn lemma_syntax_reason_round_trip(message: Seq<char>, line: nat, column: nat)
    requires
        location_suffix(line, column).len() <= message.len(),
        message.subrange(message.len() - location_suffix(line, column).len(), message.len() as int) == location_suffix(line, column),
    ensures
        strip_location(message, line, column) + location_suffix(line, column) == message,
{
    let s = location_suffix(line, column);
    assert(message.subrange(0, message.len() - s.len()) + s =~= message);
}

/// Preserving spellings never changes the shape of the candidate: an array
/// stays an array of the same length, an object keeps its member names in
/// order, and a candidate semantically equal to the current value becomes
/// the current value.
pub proof fn lemma_preserve_shape(current: JsonData, candidate: JsonData)
    ensures
        spec_json_equal(current, candidate) ==> spec_preserve(current, candidate) == current,
        !spec_json_equal(current, candidate) && candidate is Array ==> spec_preserve(current, candidate) is Array
            && spec_preserve(current, candidate)->Array_0.len() == candidate->Array_0.len(),
        !spec_json_equal(current, candidate) && candidate is Object ==> spec_preserve(current, candidate) is Object
            && spec_preserve(current, candidate)->Object_0.len() == candidate->Object_0.len()
            && forall|j: int| 0 <= j < candidate->Object_0.len() ==>
                (#[trigger] spec_preserve(current, candidate)->Object_0[j]).0 == candidate->Object_0[j].0,
        !spec_json_equal(current, candidate) && !(candidate is Array) && !(candidate is Object) ==> spec_preserve(current, candidate) == candidate,
{
}

/// A canonical integer text: `0`, or decimal digits without a leading zero,
/// after an optional minus sign.
pub open spec fn is_canonical_integer(t: Seq<char>) -> bool {
    t == seq!['0'] || {
        let u = if t.len() > 0 && t[0] == '-' { t.drop_first() } else { t };
        u.len() > 0 && all_digits(u) && u[0] != '0'
    }
}

/// Whatever JSON number an integer is spelled as, its canonical spelling is
/// canonical: `0`, or digits without a leading zero after an optional sign.
pub proof fn lemma_canonical_integer_is_canonical(s: Seq<char>, maximum: nat)
    requires
        is_json_number(s),
        spec_canonical_integer(s, maximum) is Ok,
    ensures
        is_canonical_integer(spec_canonical_integer(s, maximum)->Ok_0),
{
    let (negative, u) = split_sign(s);
    let (sig, exp) = split_exponent(u);
    let (whole, frac) = split_fraction(sig);
    let digits = whole + frac;
    if !all_zero(digits) {
        lemma_trim_leading_zeros(digits);
        let d = trim_leading_zeros(digits);
        assert(all_digits(digits));
        assert(all_digits(d)) by {
            assert forall|i: int| 0 <= i < d.len() implies #[trigger] crate::text::is_digit(d[i]) by {
                assert(d[i] == digits[digits.len() - d.len() + i]);
            }
        }
        if d.len() == 0 {
            assert(all_zero(digits)) by {
                assert(digits.take(digits.len() - 0) =~= digits);
            }
        }
        let t = spec_canonical_integer(s, maximum)->Ok_0;
        let kept = if negative { t.drop_first() } else { t };
        assert(kept.len() > 0 && kept[0] == d[0] && all_digits(kept)) by {
            assert forall|i: int| 0 <= i < kept.len() implies #[trigger] crate::text::is_digit(kept[i]) by {
                if i < d.len() {
                    assert(kept[i] == d[i]);
                } else {
                    assert(kept[i] == '0');
                }
            }
        }
        assert(crate::text::is_digit(d[0]));
        assert(d[0] != '0');
        if negative {
            assert(t[0] == '-');
            assert(t.drop_first() =~= kept);
        } else {
            assert(t == kept);
            assert(t[0] != '-');
        }
    }
}

/// A value as a parser gives it: every number is a JSON number and every
/// object, at any depth, names each member once.
pub open spec fn parsed_json(v: JsonData) -> bool
    decreases v,
{
    match v {
        JsonData::Number(t) => is_json_number(t),
        JsonData::Array(items) => forall|i: int| 0 <= i < items.len() ==> parsed_json(#[trigger] items[i]),
        JsonData::Object(entries) => (forall|i: int, j: int| 0 <= i < j < entries.len() ==> #[trigger] entries[i].0 != #[trigger] entries[j].0)
            && forall|i: int| 0 <= i < entries.len() ==> parsed_json(#[trigger] entries[i].1),
        _ => true,
    }
}

/// The member names of an object, in byte order.
pub open spec fn sorted_member_keys(entries: Seq<(Seq<char>, JsonData)>) -> Seq<Seq<u8>> {
    let keys = member_keys(entries);
    let order = sorted_positions(keys);
    Seq::new(keys.len(), |q: int| key_at(keys, order[q]))
}

proof fn lemma_encoding_injective(x: Seq<char>, y: Seq<char>)
    requires
        vstd::utf8::encode_utf8(x) == vstd::utf8::encode_utf8(y),
    ensures
        x == y,
{
    vstd::utf8::encode_utf8_decode_utf8(x);
    vstd::utf8::encode_utf8_decode_utf8(y);
}

/// Facts about the byte order of an object's members: every position comes
/// once, and the keys in that order are sorted, distinct when the names
/// are, and the same keys.
proof fn lemma_member_order(entries: Seq<(Seq<char>, JsonData)>)
    requires
        forall|i: int, j: int| 0 <= i < j < entries.len() ==> #[trigger] entries[i].0 != #[trigger] entries[j].0,
    ensures
        sorted_positions(member_keys(entries)).len() == entries.len(),
        forall|q: int| 0 <= q < entries.len() ==> 0 <= #[trigger] sorted_positions(member_keys(entries))[q] < entries.len(),
        forall|i: int| 0 <= i < entries.len() ==> #[trigger] sorted_positions(member_keys(entries)).contains(i),
        sorted_member_keys(entries).no_duplicates(),
        vstd::relations::sorted_by(sorted_member_keys(entries), |a: Seq<u8>, b: Seq<u8>| bytes_le(a, b)),
        sorted_member_keys(entries).to_set() == member_keys(entries).to_set(),
{
    let keys = member_keys(entries);
    let n = keys.len();
    let all = Seq::new(n, |q: int| q);
    let o = position_order(keys);
    lemma_position_order_total(keys);
    all.lemma_sort_by_ensures(o);
    let order = sorted_positions(keys);
    let sk = sorted_member_keys(entries);
    broadcast use vstd::seq_lib::group_to_multiset_ensures;
    assert(order.len() == n) by {
        vstd::seq_lib::to_multiset_len(all);
        vstd::seq_lib::to_multiset_len(order);
    }
    assert forall|q: int| 0 <= q < n implies 0 <= #[trigger] order[q] < n by {
        assert(order.contains(order[q]));
        if !(0 <= order[q] < n) {
            assert(!all.contains(order[q]));
        }
    }
    assert forall|i: int| 0 <= i < n implies #[trigger] order.contains(i) by {
        assert(all[i] == i);
        assert(all.to_multiset().count(i) > 0);
    }
    assert(all.no_duplicates());
    all.lemma_multiset_has_no_duplicates();
    assert forall|x: int| order.to_multiset().contains(x) implies order.to_multiset().count(x) == 1 by {}
    order.lemma_multiset_has_no_duplicates_conv();
    assert forall|p: int, q: int| 0 <= p < n && 0 <= q < n && p != q implies sk[p] != sk[q] by {
        let (i, j) = (order[p], order[q]);
        assert(i != j);
        if sk[p] == sk[q] {
            assert(keys[i] == keys[j]);
            lemma_encoding_injective(entries[i].0, entries[j].0);
            if i < j {
                assert(entries[i].0 != entries[j].0);
            } else {
                assert(entries[j].0 != entries[i].0);
            }
        }
    }
    lemma_bytes_order();
    assert forall|p: int, q: int| 0 <= p < q < sk.len() implies bytes_le(#[trigger] sk[p], #[trigger] sk[q]) by {
        assert(o(order[p], order[q]));
        crate::fingerprint::lemma_bytes_le_total(sk[p], sk[p]);
    }
    assert forall|x: Seq<u8>| sk.to_set().contains(x) <==> keys.to_set().contains(x) by {
        if sk.contains(x) {
            let q = choose|q: int| 0 <= q < sk.len() && sk[q] == x;
            assert(keys[order[q]] == x);
        }
        if keys.contains(x) {
            let i = choose|i: int| 0 <= i < keys.len() && keys[i] == x;
            assert(order.contains(i));
            let q = choose|q: int| 0 <= q < order.len() && order[q] == i;
            assert(sk[q] == x);
        }
    }
    assert(sk.to_set() =~= keys.to_set());
}

/// Two objects that are semantically equal and name each member once have
/// the same member names.
proof fn lemma_equal_objects_share_keys(a: Seq<(Seq<char>, JsonData)>, b: Seq<(Seq<char>, JsonData)>)
    requires
        forall|i: int, j: int| 0 <= i < j < a.len() ==> #[trigger] a[i].0 != #[trigger] a[j].0,
        forall|i: int, j: int| 0 <= i < j < b.len() ==> #[trigger] b[i].0 != #[trigger] b[j].0,
        spec_json_equal(JsonData::Object(a), JsonData::Object(b)),
    ensures
        member_keys(a).to_set() == member_keys(b).to_set(),
{
    let ka = member_keys(a);
    let kb = member_keys(b);
    assert(ka.no_duplicates()) by {
        assert forall|i: int, j: int| 0 <= i < ka.len() && 0 <= j < ka.len() && i != j implies ka[i] != ka[j] by {
            if ka[i] == ka[j] {
                lemma_encoding_injective(a[i].0, a[j].0);
                if i < j {
                    assert(a[i].0 != a[j].0);
                } else {
                    assert(a[j].0 != a[i].0);
                }
            }
        }
    }
    assert(kb.no_duplicates()) by {
        assert forall|i: int, j: int| 0 <= i < kb.len() && 0 <= j < kb.len() && i != j implies kb[i] != kb[j] by {
            if kb[i] == kb[j] {
                lemma_encoding_injective(b[i].0, b[j].0);
                if i < j {
                    assert(b[i].0 != b[j].0);
                } else {
                    assert(b[j].0 != b[i].0);
                }
            }
        }
    }
    assert forall|x: Seq<u8>| ka.to_set().contains(x) implies kb.to_set().contains(x) by {
        assert(ka.contains(x));
        let i = choose|i: int| 0 <= i < ka.len() && ka[i] == x;
        let k = member_index(b, (a[i]).0);
        lemma_member_index_bounds(b, a[i].0);
        assert(k >= 0);
        assert(kb[k] == x);
    }
    ka.unique_seq_to_set();
    kb.unique_seq_to_set();
    vstd::set_lib::lemma_subset_equality(ka.to_set(), kb.to_set());
}

/// Two duplicate-free sequences sorted in byte order with the same elements
/// are the same sequence.
proof fn lemma_sorted_keys_unique(x: Seq<Seq<u8>>, y: Seq<Seq<u8>>)
    requires
        x.no_duplicates(),
        y.no_duplicates(),
        vstd::relations::sorted_by(x, |a: Seq<u8>, b: Seq<u8>| bytes_le(a, b)),
        vstd::relations::sorted_by(y, |a: Seq<u8>, b: Seq<u8>| bytes_le(a, b)),
        x.to_set() == y.to_set(),
    ensures
        x == y,
{
    broadcast use vstd::seq_lib::group_to_multiset_ensures;
    x.lemma_multiset_has_no_duplicates();
    y.lemma_multiset_has_no_duplicates();
    assert forall|e: Seq<u8>| x.to_multiset().count(e) == y.to_multiset().count(e) by {
        assert(x.to_set().contains(e) == x.contains(e));
        assert(y.to_set().contains(e) == y.contains(e));
    }
    assert(x.to_multiset() =~= y.to_multiset());
    lemma_bytes_order();
    vstd::seq_lib::lemma_sorted_unique(x, y, |a: Seq<u8>, b: Seq<u8>| bytes_le(a, b));
}

/// Semantically equal JSON values, as parsed (numbers that are JSON numbers,
/// objects that name each member once), have the same fingerprint input, so
/// the same fingerprint: spellings of a number and orders of members do not
/// matter.
pub proof fn lemma_equal_values_share_fingerprint_input(x: JsonData, y: JsonData)
    requires
        parsed_json(x),
        parsed_json(y),
        spec_json_equal(x, y),
    ensures
        json_encoding(x) == json_encoding(y),
        sha256(json_encoding(x)) == sha256(json_encoding(y)),
    decreases x,
{
    match x {
        JsonData::Number(a) => {
            let b = y->Number_0;
            assert(number_encoding(a) == number_encoding(b));
        },
        JsonData::Array(ia) => {
            let ib = y->Array_0;
            assert forall|i: int| 0 <= i < ia.len() implies #[trigger] item_parts(ia)[i] == item_parts(ib)[i] by {
                assert(decreases_to!(ia => ia[i]));
                lemma_equal_values_share_fingerprint_input(ia[i], ib[i]);
            }
            assert(item_parts(ia) =~= item_parts(ib));
        },
        JsonData::Object(a) => {
            let b = y->Object_0;
            lemma_member_order(a);
            lemma_member_order(b);
            lemma_equal_objects_share_keys(a, b);
            lemma_sorted_keys_unique(sorted_member_keys(a), sorted_member_keys(b));
            let pa = sorted_positions(member_keys(a));
            let pb = sorted_positions(member_keys(b));
            assert forall|q: int| 0 <= q < a.len() implies #[trigger] member_parts(a)[q] == member_parts(b)[q] by {
                let i = pa[q];
                let j = pb[q];
                assert(sorted_member_keys(a)[q] == sorted_member_keys(b)[q]);
                assert(member_keys(a)[i] == member_keys(b)[j]);
                lemma_encoding_injective(a[i].0, b[j].0);
                let k = member_index(b, a[i].0);
                lemma_member_index_bounds(b, a[i].0);
                assert(k >= 0 && spec_json_equal(a[i].1, b[k].1));
                if k != j {
                    if k < j {
                        assert(b[k].0 != b[j].0);
                    } else {
                        assert(b[j].0 != b[k].0);
                    }
                }
                assert(decreases_to!(a => a[i]));
                assert(decreases_to!(a[i] => a[i].1));
                lemma_equal_values_share_fingerprint_input(a[i].1, b[j].1);
            }
            assert(member_parts(a) =~= member_parts(b));
        },
        _ => {},
    }
}

/// A count does not depend on how its number is spelled: numbers with the
/// same value give the same count (`100`, `1e2` and `100.0` all give 100).
pub proof fn lemma_counts_respect_number_equality(a: Seq<char>, b: Seq<char>)
    requires
        is_json_number(a),
        is_json_number(b),
        spec_numbers_equal(a, b),
    ensures
        spec_nonnegative_integer(JsonData::Number(a)) == spec_nonnegative_integer(JsonData::Number(b)),
{
}

proof fn lemma_normalized_unique(a: Seq<FindingKey>, b: Seq<FindingKey>)
    requires
        forall|i: int, j: int| 0 <= i < j < a.len() ==> finding_lt(#[trigger] a[i], #[trigger] a[j]),
        forall|i: int, j: int| 0 <= i < j < b.len() ==> finding_lt(#[trigger] b[i], #[trigger] b[j]),
        forall|k: FindingKey| a.contains(k) <==> b.contains(k),
    ensures
        a == b,
    decreases a.len(),
{
    if a.len() == 0 {
        if b.len() > 0 {
            assert(b.contains(b[0]));
        }
        assert(a =~= b);
        return;
    }
    assert(a.contains(a[0]));
    let j = choose|j: int| 0 <= j < b.len() && b[j] == a[0];
    assert(b.contains(b[0]));
    let k = choose|k: int| 0 <= k < a.len() && a[k] == b[0];
    lemma_finding_order(a[0], b[0], a[0]);
    lemma_finding_order(b[0], a[0], b[0]);
    if j > 0 {
        if k > 0 {
            assert(finding_lt(b[0], b[j]));
            assert(finding_lt(a[0], a[k]));
        } else {
            assert(finding_lt(b[0], b[j]));
        }
    }
    assert(a[0] == b[0]);
    let a1 = a.drop_first();
    let b1 = b.drop_first();
    assert forall|x: FindingKey| a1.contains(x) <==> b1.contains(x) by {
        if a1.contains(x) {
            let p = choose|p: int| 0 <= p < a1.len() && a1[p] == x;
            assert(a[p + 1] == x);
            assert(finding_lt(a[0], a[p + 1]));
            lemma_finding_order(x, x, x);
            assert(a.contains(x));
            let q = choose|q: int| 0 <= q < b.len() && b[q] == x;
            assert(q != 0);
            assert(b1[q - 1] == x);
        }
        if b1.contains(x) {
            let p = choose|p: int| 0 <= p < b1.len() && b1[p] == x;
            assert(b[p + 1] == x);
            assert(finding_lt(b[0], b[p + 1]));
            lemma_finding_order(x, x, x);
            assert(b.contains(x));
            let q = choose|q: int| 0 <= q < a.len() && a[q] == x;
            assert(q != 0);
            assert(a1[q - 1] == x);
        }
    }
    assert forall|i: int, j: int| 0 <= i < j < a1.len() implies finding_lt(#[trigger] a1[i], #[trigger] a1[j]) by {
        assert(a1[i] == a[i + 1] && a1[j] == a[j + 1]);
    }
    assert forall|i: int, j: int| 0 <= i < j < b1.len() implies finding_lt(#[trigger] b1[i], #[trigger] b1[j]) by {
        assert(b1[i] == b[i + 1] && b1[j] == b[j + 1]);
    }
    lemma_normalized_unique(a1, b1);
    assert(a =~= seq![a[0]] + a1);
    assert(b =~= seq![b[0]] + b1);
}

/// Reapplying a batch is a no-op: when a source's stored batch holds, for the
/// same revision, the normalized form of the findings it reports again, the
/// batches after the report are the batches before it (and so the state
/// revision stays where it was).
pub proof fn lemma_reapplied_batch_changes_nothing(
    old: Seq<BatchData>,
    new: Seq<BatchData>,
    i: int,
    given: Seq<FindingKey>,
    fs: Seq<FindingKey>,
)
    requires
        0 <= i < old.len(),
        normalized_findings(old[i].2, given),
        old[i].2.len() > 0,
        normalized_findings(fs, given),
        batches_after(old, new, old[i].0, old[i].1, fs),
    ensures
        new == old,
{
    lemma_normalized_unique(old[i].2, fs);
    assert(fs.len() > 0);
    assert(old.update(i, (old[i].0, old[i].1, fs)) =~= old);
}

/// Edits never rewrite mathematically equal data: edit text that parses to
/// the value already bound (the same string, or an equal number) is
/// accepted and leaves the form data, its revision and the host findings as
/// they were.
pub proof fn lemma_equal_edit_keeps_data(
    f: FormData,
    definition: ControlDefinition,
    binding: Seq<char>,
    l: ControlLocation,
    input: Seq<char>,
)
    requires
        is_pointer_text(binding),
        text_value(definition.kind, input) matches Some(Ok(v)) && resolve_pointer(f.form_data, binding) matches Some(
            c,
        ) && same_edit_value(c, v) && accepts(definition, c),
    ensures
        edit_text_outcome(f, definition, binding, l, input) matches Ok(g) && g.form_data == f.form_data
            && g.data_revision == f.data_revision && g.batches == f.batches,
{
}

/// Setting a value equal to the bound one changes nothing at all.
pub proof fn lemma_equal_value_is_no_op(
    f: FormData,
    definition: ControlDefinition,
    binding: Seq<char>,
    l: ControlLocation,
    value: JsonData,
)
    requires
        is_pointer_text(binding),
        accepts(definition, value),
        resolve_pointer(f.form_data, binding) matches Some(c) && spec_json_equal(
            c,
            stored_choice(datas(definition.choices@), value),
        ),
    ensures
        set_value_outcome(f, definition, binding, l, value) == Ok::<FormData, (int, Seq<char>)>(f),
{
}

/// Reset is idempotent: resetting a form that was just reset changes
/// nothing, revisions included (for baseline data whose objects name each
/// member once, as parsed JSON does).
pub proof fn lemma_reset_idempotent(f: FormData)
    requires
        f.arrays.len() == f.baseline_array_identities.len(),
        unique_keys(f.baseline),
    ensures
        reset_form(reset_form(f)) == reset_form(f),
{
    let g = reset_form(f);
    lemma_json_equal_reflexive(f.baseline);
    assert(spec_json_equal(g.form_data, g.baseline));
    assert forall|a: int| 0 <= a < g.arrays.len() implies #[trigger] identities(g.arrays[a].2)
        == g.baseline_array_identities[a] by {
        if topology_changed(f) {
            assert(identities(g.arrays[a].2) =~= f.baseline_array_identities[a]);
        } else {
            assert(identities(f.arrays[a].2) == f.baseline_array_identities[a]);
            assert(identities(g.arrays[a].2) =~= identities(f.arrays[a].2));
        }
    }
    assert(!topology_changed(g));
    assert(!controls_pending(g.controls));
    assert forall|a: int| 0 <= a < g.arrays.len() implies !#[trigger] items_pending(g.arrays[a].2) by {
        assert forall|j: int| 0 <= j < g.arrays[a].2.len() implies !#[trigger] controls_pending(g.arrays[a].2[j].1) by {
            let cs = g.arrays[a].2[j].1;
            assert forall|i: int| 0 <= i < cs.len() implies !#[trigger] crate::form::has_lifecycle_state(cs[i]) by {}
        }
    }
    assert(!arrays_pending(g.arrays));
    let h = reset_form(g);
    assert(h.controls =~= g.controls);
    assert forall|a: int| 0 <= a < g.arrays.len() implies h.arrays[a] == g.arrays[a] by {
        assert(g.arrays[a].2.map_values(|i: ItemData| clear_item(i)) =~= g.arrays[a].2) by {
            assert forall|j: int| 0 <= j < g.arrays[a].2.len() implies clear_item(g.arrays[a].2[j]) == g.arrays[a].2[j] by {
                assert(clear_item(g.arrays[a].2[j]).1 =~= g.arrays[a].2[j].1);
            }
        }
    }
    assert(h.arrays =~= g.arrays);
}

} // verus!
