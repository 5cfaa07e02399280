use vstd::prelude::*;

use crate::address::{is_pointer_text, JsonPointer};
use crate::generated::last_slash;
use crate::laws::unescape_token;
use crate::text::{all_digits, digit_value, digits_value, is_digit};
use crate::value::{find_member, lemma_member_index_bounds, member_index, JsonData, JsonValue};

verus! {

/// The decoded reference tokens of a JSON Pointer, first to last: the text
/// after each `/`, with `~1` read as `/` and `~0` as `~`.
pub open spec fn pointer_tokens(p: Seq<char>) -> Seq<Seq<char>>
    decreases p.len(),
{
    if p.len() == 0 {
        Seq::empty()
    } else {
        let k = last_slash(p);
        if k < 0 {
            Seq::empty()
        } else {
            proof {
                lemma_last_slash_bounds(p);
            }
            pointer_tokens(p.take(k)).push(unescape_token(p.skip(k + 1)))
        }
    }
}

/// The last slash lies within the text, or is -1.
pub proof fn lemma_last_slash_bounds(p: Seq<char>)
    ensures
        -1 <= last_slash(p) < p.len(),
    decreases p.len(),
{
    if p.len() > 0 && p.last() != '/' {
        lemma_last_slash_bounds(p.drop_last());
    }
}

/// `jsonptr`'s `Pointer::tokens` with `Token::decoded`: the decoded
/// reference tokens of a valid pointer, first to last.
#[verifier::external_body]
fn decoded_tokens(pointer: &JsonPointer) -> (r: Vec<String>)
    ensures
        r@.map_values(|t: String| t@) == pointer_tokens(pointer@),
{
    match jsonptr::Pointer::parse(pointer.as_str()) {
        Ok(parsed) => parsed.tokens().map(|token| token.decoded().into_owned()).collect(),
        Err(_) => Vec::new(),
    }
}

/// The array index a reference token names: `0`, or decimal digits without
/// a leading zero, within `usize`.
pub open spec fn token_index(t: Seq<char>) -> Option<nat> {
    if t.len() > 0 && all_digits(t) && (t[0] == '0' ==> t.len() == 1) && digits_value(t) <= usize::MAX {
        Some(digits_value(t))
    } else {
        None
    }
}

/// One step of resolution: an object's member named by the token, or an
/// array's item at the index the token names; nothing for a scalar.
pub open spec fn resolve_step(d: JsonData, t: Seq<char>) -> Option<JsonData> {
    match d {
        JsonData::Object(entries) => {
            let k = member_index(entries, t);
            if 0 <= k < entries.len() {
                Some(entries[k].1)
            } else {
                None
            }
        },
        JsonData::Array(items) => match token_index(t) {
            Some(n) => if n < items.len() {
                Some(items[n as int])
            } else {
                None
            },
            None => None,
        },
        _ => None,
    }
}

/// The value the tokens lead to from `d`, one step per token.
pub open spec fn resolve_tokens(d: JsonData, ts: Seq<Seq<char>>) -> Option<JsonData>
    decreases ts.len(),
{
    if ts.len() == 0 {
        Some(d)
    } else {
        match resolve_tokens(d, ts.drop_last()) {
            Some(x) => resolve_step(x, ts.last()),
            None => None,
        }
    }
}

/// The value a JSON Pointer designates in `d`, if any.
pub open spec fn resolve_pointer(d: JsonData, p: Seq<char>) -> Option<JsonData> {
    resolve_tokens(d, pointer_tokens(p))
}

fn parse_index(t: &str) -> (r: Option<usize>)
    ensures
        match token_index(t@) {
            Some(n) => r == Some(n as usize),
            None => r is None,
        },
{
    let chars = crate::text::chars_of(t);
    if chars.len() == 0 {
        return None;
    }
    if chars[0] == '0' && chars.len() != 1 {
        return None;
    }
    let limit: u128 = usize::MAX as u128 + 1;
    let mut value: u128 = 0;
    let mut i: usize = 0;
    while i < chars.len()
        invariant
            i <= chars.len(),
            chars@ == t@,
            limit == usize::MAX as u128 + 1,
            all_digits(chars@.take(i as int)),
            value == if digits_value(chars@.take(i as int)) >= limit {
                limit as nat
            } else {
                digits_value(chars@.take(i as int))
            },
        decreases chars.len() - i,
    {
        let c = chars[i];
        if !('0' <= c && c <= '9') {
            assert(!is_digit(chars@[i as int]));
            assert(!all_digits(chars@));
            return None;
        }
        proof {
            crate::text::lemma_digits_value_push(chars@.take(i as int), c);
            assert(chars@.take(i + 1) =~= chars@.take(i as int).push(c));
        }
        let d = (c as u32 - '0' as u32) as u128;
        assert(d == digit_value(c));
        let next = value * 10 + d;
        value = if next >= limit { limit } else { next };
        i += 1;
    }
    assert(chars@.take(i as int) =~= chars@);
    if value >= limit {
        None
    } else {
        Some(value as usize)
    }
}

fn step<'a>(value: &'a JsonValue, token: &str) -> (r: Option<&'a JsonValue>)
    ensures
        match resolve_step(value@, token@) {
            Some(d) => r matches Some(v) && v@ == d,
            None => r is None,
        },
{
    match value {
        JsonValue::Object(entries) => match find_member(entries, token) {
            Some(k) => {
                assert(value@->Object_0[k as int].1 == entries@[k as int].1@);
                Some(&entries[k].1)
            },
            None => None,
        },
        JsonValue::Array(items) => match parse_index(token) {
            Some(n) => if n < items.len() {
                assert(value@->Array_0[n as int] == items@[n as int]@);
                Some(&items[n])
            } else {
                None
            },
            None => None,
        },
        _ => None,
    }
}

/// The value `pointer` designates in `value`, if any.
pub fn resolve<'a>(pointer: &JsonPointer, value: &'a JsonValue) -> (r: Option<&'a JsonValue>)
    ensures
        match resolve_pointer(value@, pointer@) {
            Some(d) => r matches Some(v) && v@ == d,
            None => r is None,
        },
{
    let tokens = decoded_tokens(pointer);
    let ghost ts = tokens@.map_values(|t: String| t@);
    let mut current: Option<&'a JsonValue> = Some(value);
    let mut i: usize = 0;
    while i < tokens.len()
        invariant
            i <= tokens.len(),
            ts == tokens@.map_values(|t: String| t@),
            ts == pointer_tokens(pointer@),
            match resolve_tokens(value@, ts.take(i as int)) {
                Some(d) => current matches Some(v) && v@ == d,
                None => current is None,
            },
        decreases tokens.len() - i,
    {
        assert(ts.take(i + 1).drop_last() =~= ts.take(i as int));
        assert(ts.take(i + 1).last() == tokens@[i as int]@);
        current = match current {
            Some(v) => step(v, tokens[i].as_str()),
            None => None,
        };
        i += 1;
    }
    assert(ts.take(i as int) =~= ts);
    current
}


/// What writing `v` at the place the tokens lead to makes of `d`: a place
/// that exists is replaced; a missing last step into an object adds the
/// member after the others; any other missing step fails.
pub open spec fn write_tokens(d: JsonData, ts: Seq<Seq<char>>, v: JsonData) -> Option<JsonData>
    decreases ts.len(),
{
    if ts.len() == 0 {
        Some(v)
    } else {
        let rest = ts.drop_first();
        match d {
            JsonData::Object(entries) => {
                let k = member_index(entries, ts[0]);
                if 0 <= k < entries.len() {
                    match write_tokens(entries[k].1, rest, v) {
                        Some(c) => Some(JsonData::Object(entries.update(k, (entries[k].0, c)))),
                        None => None,
                    }
                } else if ts.len() == 1 {
                    Some(JsonData::Object(entries.push((ts[0], v))))
                } else {
                    None
                }
            },
            JsonData::Array(items) => match token_index(ts[0]) {
                Some(n) => if n < items.len() {
                    match write_tokens(items[n as int], rest, v) {
                        Some(c) => Some(JsonData::Array(items.update(n as int, c))),
                        None => None,
                    }
                } else {
                    None
                },
                None => None,
            },
            _ => None,
        }
    }
}

/// What writing `v` at the place the JSON Pointer `p` designates makes of
/// `d` (see [`write_tokens`]).
pub open spec fn write_pointer(d: JsonData, p: Seq<char>, v: JsonData) -> Option<JsonData> {
    write_tokens(d, pointer_tokens(p), v)
}

fn write_at(value: &mut JsonValue, tokens: &Vec<String>, i: usize, v: JsonValue) -> (r: bool)
    requires
        i <= tokens.len(),
    ensures
        match write_tokens(old(value)@, tokens@.map_values(|t: String| t@).skip(i as int), v@) {
            Some(d) => r && final(value)@ == d,
            None => !r && final(value)@ == old(value)@,
        },
    decreases tokens.len() - i,
{
    let ghost ts = tokens@.map_values(|t: String| t@).skip(i as int);
    if i == tokens.len() {
        assert(ts.len() == 0);
        *value = v;
        return true;
    }
    assert(ts[0] == tokens@[i as int]@);
    assert(ts.drop_first() =~= tokens@.map_values(|t: String| t@).skip(i + 1));
    let ghost before = value@;
    match value {
        JsonValue::Object(entries) => {
            let ghost old_entries = *entries;
            match find_member(entries, tokens[i].as_str()) {
                Some(k) => {
                    assert(before->Object_0[k as int].1 == entries@[k as int].1@);
                    let ok = write_at(&mut entries[k].1, tokens, i + 1, v);
                    proof {
                        if ok {
                            assert(JsonValue::Object(*entries)@->Object_0 =~= before->Object_0.update(
                                k as int,
                                (before->Object_0[k as int].0, entries@[k as int].1@),
                            ));
                        } else {
                            assert(JsonValue::Object(*entries)@->Object_0 =~= before->Object_0);
                        }
                    }
                    ok
                },
                None => {
                    if i + 1 == tokens.len() {
                        let key = crate::text::string_from_chars(&crate::text::chars_of(tokens[i].as_str()));
                        let ghost vd = v@;
                        entries.push((key, v));
                        assert(JsonValue::Object(*entries)@->Object_0 =~= before->Object_0.push((ts[0], vd)));
                        true
                    } else {
                        false
                    }
                },
            }
        },
        JsonValue::Array(items) => match parse_index(tokens[i].as_str()) {
            Some(n) => if n < items.len() {
                assert(before->Array_0[n as int] == items@[n as int]@);
                let ok = write_at(&mut items[n], tokens, i + 1, v);
                proof {
                    if ok {
                        assert(JsonValue::Array(*items)@->Array_0 =~= before->Array_0.update(n as int, items@[n as int]@));
                    } else {
                        assert(JsonValue::Array(*items)@->Array_0 =~= before->Array_0);
                    }
                }
                ok
            } else {
                false
            },
            None => false,
        },
        _ => false,
    }
}

/// Writes `v` at the place `pointer` designates in `value` (see
/// [`write_pointer`]); reports whether it could, and leaves `value` as it
/// was when it could not.
pub fn write_value(pointer: &JsonPointer, value: &mut JsonValue, v: JsonValue) -> (r: bool)
    ensures
        match write_pointer(old(value)@, pointer@, v@) {
            Some(d) => r && final(value)@ == d,
            None => !r && final(value)@ == old(value)@,
        },
{
    let tokens = decoded_tokens(pointer);
    assert(tokens@.map_values(|t: String| t@).skip(0) =~= tokens@.map_values(|t: String| t@));
    write_at(value, &tokens, 0, v)
}


/// The place `p` designates has a parent (`p` is not the root) and that
/// parent is an object in `d`.
pub open spec fn parent_is_object(d: JsonData, p: Seq<char>) -> bool {
    let ts = pointer_tokens(p);
    ts.len() > 0 && resolve_tokens(d, ts.drop_last()) matches Some(JsonData::Object(_))
}

/// Whether the parent of the place `pointer` designates is an object of
/// `value` (see [`parent_is_object`]).
pub fn parent_is_object_in(pointer: &JsonPointer, value: &JsonValue) -> (r: bool)
    ensures
        r == parent_is_object(value@, pointer@),
{
    let tokens = decoded_tokens(pointer);
    let ghost ts = tokens@.map_values(|t: String| t@);
    if tokens.len() == 0 {
        return false;
    }
    let last = tokens.len() - 1;
    let mut current: Option<&JsonValue> = Some(value);
    let mut i: usize = 0;
    while i < last
        invariant
            i <= last,
            last == tokens.len() - 1,
            ts == tokens@.map_values(|t: String| t@),
            ts == pointer_tokens(pointer@),
            match resolve_tokens(value@, ts.take(i as int)) {
                Some(d) => current matches Some(v) && v@ == d,
                None => current is None,
            },
        decreases last - i,
    {
        assert(ts.take(i + 1).drop_last() =~= ts.take(i as int));
        assert(ts.take(i + 1).last() == tokens@[i as int]@);
        current = match current {
            Some(v) => step(v, tokens[i].as_str()),
            None => None,
        };
        i += 1;
    }
    assert(ts.take(i as int) =~= ts.drop_last());
    match current {
        Some(JsonValue::Object(_)) => true,
        _ => false,
    }
}


/// What removing the member the JSON Pointer `p` designates makes of `d`:
/// the place's parent must be an object holding that member, which goes;
/// nothing otherwise.
pub open spec fn remove_pointer(d: JsonData, p: Seq<char>) -> Option<JsonData> {
    let ts = pointer_tokens(p);
    if ts.len() > 0 {
        match resolve_tokens(d, ts.drop_last()) {
            Some(JsonData::Object(es)) => {
                let k = member_index(es, ts.last());
                if k >= 0 {
                    write_tokens(d, ts.drop_last(), JsonData::Object(es.remove(k)))
                } else {
                    None
                }
            },
            _ => None,
        }
    } else {
        None
    }
}

fn entries_without(entries: &Vec<(String, JsonValue)>, k: usize) -> (r: Vec<(String, JsonValue)>)
    requires
        k < entries.len(),
    ensures
        JsonValue::Object(r)@ == JsonData::Object(JsonValue::Object(*entries)@->Object_0.remove(k as int)),
{
    let ghost es = JsonValue::Object(*entries)@->Object_0;
    let ghost target = es.remove(k as int);
    let mut out: Vec<(String, JsonValue)> = Vec::new();
    let mut i: usize = 0;
    while i < entries.len()
        invariant
            i <= entries.len(),
            k < entries.len(),
            es == JsonValue::Object(*entries)@->Object_0,
            target == es.remove(k as int),
            JsonValue::Object(out)@->Object_0 == if i <= k {
                es.take(i as int)
            } else {
                target.take(i - 1)
            },
        decreases entries.len() - i,
    {
        if i != k {
            let ghost prev = JsonValue::Object(out)@->Object_0;
            let key = crate::text::string_from_chars(&crate::text::chars_of(entries[i].0.as_str()));
            let v = crate::value::copy_value(&entries[i].1);
            assert(es[i as int] == (entries@[i as int].0@, entries@[i as int].1@));
            out.push((key, v));
            assert(JsonValue::Object(out)@->Object_0 =~= prev.push(es[i as int]));
            if i < k {
                assert(es.take(i + 1) =~= es.take(i as int).push(es[i as int]));
            } else {
                assert(target.take(i as int) =~= target.take(i - 1).push(es[i as int]));
            }
        } else {
            assert(target.take(i as int) =~= es.take(i as int));
        }
        i += 1;
    }
    assert(target.take(i - 1) =~= target);
    out
}

/// Removes the member `pointer` designates from `value` (see
/// [`remove_pointer`]); reports whether it could, and leaves `value` as it
/// was when it could not.
pub fn remove_member(pointer: &JsonPointer, value: &mut JsonValue) -> (r: bool)
    ensures
        match remove_pointer(old(value)@, pointer@) {
            Some(d) => r && final(value)@ == d,
            None => !r && final(value)@ == old(value)@,
        },
{
    let mut tokens = decoded_tokens(pointer);
    let ghost ts = tokens@.map_values(|t: String| t@);
    if tokens.len() == 0 {
        return false;
    }
    let last = tokens.pop().unwrap();
    assert(tokens@.map_values(|t: String| t@) =~= ts.drop_last());
    let ghost prefix = ts.drop_last();
    let mut current: Option<&JsonValue> = Some(&*value);
    let mut i: usize = 0;
    while i < tokens.len()
        invariant
            i <= tokens.len(),
            prefix == tokens@.map_values(|t: String| t@),
            match resolve_tokens(old(value)@, prefix.take(i as int)) {
                Some(d) => current matches Some(v) && v@ == d,
                None => current is None,
            },
        decreases tokens.len() - i,
    {
        assert(prefix.take(i + 1).drop_last() =~= prefix.take(i as int));
        assert(prefix.take(i + 1).last() == tokens@[i as int]@);
        current = match current {
            Some(v) => step(v, tokens[i].as_str()),
            None => None,
        };
        i += 1;
    }
    assert(prefix.take(i as int) =~= prefix);
    let parent = match current {
        Some(JsonValue::Object(entries)) => match find_member(entries, last.as_str()) {
            Some(k) => JsonValue::Object(entries_without(entries, k)),
            None => return false,
        },
        _ => return false,
    };
    assert(tokens@.map_values(|t: String| t@).skip(0) =~= prefix);
    write_at(value, &tokens, 0, parent)
}


/// The value the tokens lead to from `d`, read first token first.
pub open spec fn resolve_forward(d: JsonData, ts: Seq<Seq<char>>) -> Option<JsonData>
    decreases ts.len(),
{
    if ts.len() == 0 {
        Some(d)
    } else {
        match resolve_step(d, ts[0]) {
            Some(c) => resolve_forward(c, ts.drop_first()),
            None => None,
        }
    }
}

proof fn lemma_resolve_forward_push(d: JsonData, ts: Seq<Seq<char>>, t: Seq<char>)
    ensures
        resolve_forward(d, ts.push(t)) == match resolve_forward(d, ts) {
            Some(x) => resolve_step(x, t),
            None => None,
        },
    decreases ts.len(),
{
    if ts.len() == 0 {
        assert(ts.push(t).drop_first() =~= Seq::<Seq<char>>::empty());
        assert(ts.push(t)[0] == t);
        match resolve_step(d, t) {
            Some(c) => {
                assert(resolve_forward(c, ts.push(t).drop_first()) == Some(c));
            },
            None => {},
        }
    } else {
        assert(ts.push(t)[0] == ts[0]);
        assert(ts.push(t).drop_first() =~= ts.drop_first().push(t));
        match resolve_step(d, ts[0]) {
            Some(c) => lemma_resolve_forward_push(c, ts.drop_first(), t),
            None => {},
        }
    }
}

proof fn lemma_resolve_directions(d: JsonData, ts: Seq<Seq<char>>)
    ensures
        resolve_tokens(d, ts) == resolve_forward(d, ts),
    decreases ts.len(),
{
    if ts.len() > 0 {
        lemma_resolve_directions(d, ts.drop_last());
        lemma_resolve_forward_push(d, ts.drop_last(), ts.last());
        assert(ts.drop_last().push(ts.last()) =~= ts);
    }
}

proof fn lemma_member_index_same_keys(a: Seq<(Seq<char>, JsonData)>, b: Seq<(Seq<char>, JsonData)>, key: Seq<char>)
    requires
        a.len() == b.len(),
        forall|i: int| 0 <= i < a.len() ==> #[trigger] a[i].0 == b[i].0,
    ensures
        member_index(a, key) == member_index(b, key),
    decreases a.len(),
{
    if a.len() > 0 {
        assert forall|i: int| 0 <= i < a.drop_last().len() implies #[trigger] a.drop_last()[i].0 == b.drop_last()[i].0 by {
            assert(a.drop_last()[i] == a[i] && b.drop_last()[i] == b[i]);
        }
        lemma_member_index_same_keys(a.drop_last(), b.drop_last(), key);
    }
}

proof fn lemma_write_then_resolve_tokens(d: JsonData, ts: Seq<Seq<char>>, v: JsonData)
    requires
        write_tokens(d, ts, v) is Some,
    ensures
        resolve_forward(write_tokens(d, ts, v)->Some_0, ts) == Some(v),
    decreases ts.len(),
{
    if ts.len() > 0 {
        let rest = ts.drop_first();
        let d2 = write_tokens(d, ts, v)->Some_0;
        match d {
            JsonData::Object(es) => {
                let k = member_index(es, ts[0]);
                lemma_member_index_bounds(es, ts[0]);
                if 0 <= k < es.len() {
                    let c = write_tokens(es[k].1, rest, v)->Some_0;
                    let es2 = es.update(k, (es[k].0, c));
                    lemma_member_index_same_keys(es, es2, ts[0]);
                    lemma_write_then_resolve_tokens(es[k].1, rest, v);
                    assert(resolve_step(d2, ts[0]) == Some(c));
                } else {
                    let es2 = es.push((ts[0], v));
                    assert(es2.drop_last() =~= es);
                    assert(member_index(es2, ts[0]) == es.len());
                    assert(resolve_step(d2, ts[0]) == Some(v));
                    assert(rest.len() == 0);
                }
            },
            JsonData::Array(items) => {
                let n = token_index(ts[0])->Some_0;
                let c = write_tokens(items[n as int], rest, v)->Some_0;
                lemma_write_then_resolve_tokens(items[n as int], rest, v);
                assert(resolve_step(d2, ts[0]) == Some(c));
            },
            _ => {},
        }
    }
}

/// A read gives back what a write wrote: after writing `v` at the place
/// `p` designates, `p` designates `v`.
pub proof fn lemma_write_then_resolve(d: JsonData, p: Seq<char>, v: JsonData)
    requires
        write_pointer(d, p, v) is Some,
    ensures
        resolve_pointer(write_pointer(d, p, v)->Some_0, p) == Some(v),
{
    lemma_write_then_resolve_tokens(d, pointer_tokens(p), v);
    lemma_resolve_directions(write_pointer(d, p, v)->Some_0, pointer_tokens(p));
}

} // verus!
