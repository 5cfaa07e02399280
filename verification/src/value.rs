use vstd::prelude::*;

use crate::text::str_eq;
use crate::number::{is_json_number, is_json_number_text, number_texts_equal, spec_numbers_equal};

verus! {

/// A JSON number kept in its exact textual form, as written in the source.
#[derive(Debug)]
pub struct JsonNumber {
    text: String,
}

impl View for JsonNumber {
    type V = Seq<char>;

    closed spec fn view(&self) -> Seq<char> {
        self.text@
    }
}

impl JsonNumber {
    #[verifier::type_invariant]
    spec fn well_formed(self) -> bool {
        is_json_number(self.text@)
    }

    /// Accepts `text` when it is a JSON number.
    pub fn parse(text: &str) -> (r: Option<JsonNumber>)
        ensures
            r is Some <==> is_json_number(text@),
            r matches Some(n) ==> n@ == text@,
    {
        if is_json_number_text(text) {
            Some(JsonNumber { text: text.to_owned() })
        } else {
            None
        }
    }

    /// The number's text.
    pub fn as_str(&self) -> (r: &str)
        ensures
            r@ == self@,
            is_json_number(self@),
    {
        proof {
            use_type_invariant(self);
        }
        self.text.as_str()
    }

    /// A copy with the same text.
    pub fn duplicate(&self) -> (r: JsonNumber)
        ensures
            r@ == self@,
    {
        proof {
            use_type_invariant(self);
        }
        JsonNumber { text: self.text.clone() }
    }
}

impl Clone for JsonNumber {
    /// A number with the same text.
    fn clone(&self) -> (r: JsonNumber)
        ensures
            r@ == self@,
    {
        self.duplicate()
    }
}

/// A JSON value. Numbers keep their text; object members keep their order.
#[derive(Debug)]
pub enum JsonValue {
    Null,
    Bool(bool),
    Number(JsonNumber),
    String(String),
    Array(Vec<JsonValue>),
    Object(Vec<(String, JsonValue)>),
}

/// The mathematical content of a JSON value.
pub enum JsonData {
    Null,
    Bool(bool),
    Number(Seq<char>),
    String(Seq<char>),
    Array(Seq<JsonData>),
    Object(Seq<(Seq<char>, JsonData)>),
}

/// The content of a JSON value, with strings and numbers as character sequences.
pub open spec fn value_data(v: JsonValue) -> JsonData
    decreases v,
{
    match v {
        JsonValue::Null => JsonData::Null,
        JsonValue::Bool(b) => JsonData::Bool(b),
        JsonValue::Number(n) => JsonData::Number(n@),
        JsonValue::String(s) => JsonData::String(s@),
        JsonValue::Array(items) => JsonData::Array(
            Seq::new(
                items.len() as nat,
                |i: int|
                    if 0 <= i < items.len() {
                        value_data(items@[i])
                    } else {
                        JsonData::Null
                    },
            ),
        ),
        JsonValue::Object(entries) => JsonData::Object(
            Seq::new(
                entries.len() as nat,
                |i: int|
                    if 0 <= i < entries.len() {
                        (entries@[i].0@, value_data(entries@[i].1))
                    } else {
                        (Seq::empty(), JsonData::Null)
                    },
            ),
        ),
    }
}

impl View for JsonValue {
    type V = JsonData;

    open spec fn view(&self) -> JsonData {
        value_data(*self)
    }
}

/// Position of the first member named `key`, or -1.
pub open spec fn member_index(entries: Seq<(Seq<char>, JsonData)>, key: Seq<char>) -> int
    decreases entries.len(),
{
    if entries.len() == 0 {
        -1
    } else if member_index(entries.drop_last(), key) >= 0 {
        member_index(entries.drop_last(), key)
    } else if entries.last().0 == key {
        entries.len() - 1
    } else {
        -1
    }
}

pub proof fn lemma_member_index_bounds(entries: Seq<(Seq<char>, JsonData)>, key: Seq<char>)
    ensures
        -1 <= member_index(entries, key) < entries.len(),
        member_index(entries, key) >= 0 ==> entries[member_index(entries, key)].0 == key,
        member_index(entries, key) == -1 ==> forall|i: int|
            0 <= i < entries.len() ==> #[trigger] entries[i].0 != key,
        member_index(entries, key) >= 0 ==> forall|i: int|
            0 <= i < member_index(entries, key) ==> #[trigger] entries[i].0 != key,
    decreases entries.len(),
{
    if entries.len() > 0 {
        lemma_member_index_bounds(entries.drop_last(), key);
        assert forall|i: int| 0 <= i < entries.len() - 1 implies #[trigger] entries[i]
            == entries.drop_last()[i] by {}
    }
}

/// Semantic JSON equality: numbers compare by mathematical value, objects by
/// member name regardless of order, everything else structurally.
pub open spec fn spec_json_equal(left: JsonData, right: JsonData) -> bool
    decreases left,
{
    match left {
        JsonData::Null => right is Null,
        JsonData::Bool(a) => right matches JsonData::Bool(b) && a == b,
        JsonData::Number(a) => right matches JsonData::Number(b) && spec_numbers_equal(a, b),
        JsonData::String(a) => right matches JsonData::String(b) && a == b,
        JsonData::Array(a) => match right {
            JsonData::Array(b) => a.len() == b.len() && forall|i: int|
                0 <= i < a.len() ==> spec_json_equal(#[trigger] a[i], b[i]),
            _ => false,
        },
        JsonData::Object(a) => match right {
            JsonData::Object(b) => a.len() == b.len() && forall|i: int|
                0 <= i < a.len() ==> {
                    let k = member_index(b, (#[trigger] a[i]).0);
                    k >= 0 && spec_json_equal(a[i].1, b[k].1)
                },
            _ => false,
        },
    }
}

/// Position of the first member named `key`.
pub fn find_member(entries: &Vec<(String, JsonValue)>, key: &str) -> (r: Option<usize>)
    ensures
        match r {
            Some(k) => member_index(JsonValue::Object(*entries)@->Object_0, key@) == k as int && k < entries.len(),
            None => member_index(JsonValue::Object(*entries)@->Object_0, key@) == -1,
        },
{
    let ghost data = JsonValue::Object(*entries)@->Object_0;
    let mut i: usize = 0;
    while i < entries.len()
        invariant
            i <= entries.len(),
            data == JsonValue::Object(*entries)@->Object_0,
            member_index(data.take(i as int), key@) == -1,
        decreases entries.len() - i,
    {
        assert(data.take(i + 1).drop_last() =~= data.take(i as int));
        if str_eq(entries[i].0.as_str(), key) {
            proof {
                lemma_member_index_prefix(data, key@, i + 1);
            }
            return Some(i);
        }
        i += 1;
    }
    assert(data.take(entries.len() as int) =~= data);
    None
}

proof fn lemma_member_index_prefix(entries: Seq<(Seq<char>, JsonData)>, key: Seq<char>, n: int)
    requires
        0 <= n <= entries.len(),
        member_index(entries.take(n), key) >= 0,
    ensures
        member_index(entries, key) == member_index(entries.take(n), key),
    decreases entries.len() - n,
{
    if n < entries.len() {
        assert(entries.take(n + 1).drop_last() =~= entries.take(n));
        lemma_member_index_prefix(entries, key, n + 1);
    } else {
        assert(entries.take(n) =~= entries);
    }
}

/// Semantic JSON equality (see [`spec_json_equal`]).
pub fn json_values_equal(left: &JsonValue, right: &JsonValue) -> (r: bool)
    ensures
        r == spec_json_equal(left@, right@),
    decreases left,
{
    match (left, right) {
        (JsonValue::Null, JsonValue::Null) => true,
        (JsonValue::Bool(a), JsonValue::Bool(b)) => *a == *b,
        (JsonValue::Number(a), JsonValue::Number(b)) => number_texts_equal(a.as_str(), b.as_str()),
        (JsonValue::String(a), JsonValue::String(b)) => *a == *b,
        (JsonValue::Array(a), JsonValue::Array(b)) => {
            if a.len() != b.len() {
                return false;
            }
            let ghost la = left@->Array_0;
            let ghost lb = right@->Array_0;
            let mut i: usize = 0;
            while i < a.len()
                invariant
                    *left == JsonValue::Array(*a),
                    *right == JsonValue::Array(*b),
                    la == left@->Array_0,
                    lb == right@->Array_0,
                    i <= a.len() == b.len(),
                    forall|j: int| 0 <= j < i ==> spec_json_equal(#[trigger] la[j], lb[j]),
                decreases a.len() - i,
            {
                proof {
                    vstd::std_specs::vec::axiom_vec_index_decreases(*a, i as int);
                    assert(decreases_to!(*left => (*left)->Array_0));
                }
                if !json_values_equal(&a[i], &b[i]) {
                    assert(!spec_json_equal(la[i as int], lb[i as int]));
                    return false;
                }
                i += 1;
            }
            true
        },
        (JsonValue::Object(a), JsonValue::Object(b)) => {
            if a.len() != b.len() {
                return false;
            }
            let ghost la = left@->Object_0;
            let ghost lb = right@->Object_0;
            let mut i: usize = 0;
            while i < a.len()
                invariant
                    *left == JsonValue::Object(*a),
                    *right == JsonValue::Object(*b),
                    la == left@->Object_0,
                    lb == right@->Object_0,
                    i <= a.len() == b.len(),
                    forall|j: int| 0 <= j < i ==> {
                        let k = member_index(lb, (#[trigger] la[j]).0);
                        k >= 0 && spec_json_equal(la[j].1, lb[k].1)
                    },
                decreases a.len() - i,
            {
                let k = match find_member(b, a[i].0.as_str()) {
                    Some(k) => k,
                    None => {
                        assert(la[i as int].0 == a@[i as int].0@);
                        return false;
                    },
                };
                proof {
                    vstd::std_specs::vec::axiom_vec_index_decreases(*a, i as int);
                    assert(decreases_to!(*left => (*left)->Object_0));
                    assert(decreases_to!(a@[i as int] => a@[i as int].1));
                }
                if !json_values_equal(&a[i].1, &b[k].1) {
                    assert(la[i as int].0 == a@[i as int].0@);
                    return false;
                }
                i += 1;
            }
            true
        },
        _ => false,
    }
}

/// Whether two JSON numbers denote the same mathematical value, without
/// expanding exponents.
pub fn numbers_equal(left: &JsonNumber, right: &JsonNumber) -> (r: bool)
    ensures
        r == spec_numbers_equal(left@, right@),
{
    number_texts_equal(left.as_str(), right.as_str())
}

impl Clone for JsonValue {
    /// A value with the same content.
    fn clone(&self) -> (r: JsonValue)
        ensures
            r@ == self@,
    {
        copy_value(self)
    }
}


/// An independent copy of `value` with the same content.
pub fn copy_value(value: &JsonValue) -> (r: JsonValue)
    ensures
        r@ == value@,
    decreases value,
{
    match value {
        JsonValue::Null => JsonValue::Null,
        JsonValue::Bool(b) => JsonValue::Bool(*b),
        JsonValue::Number(n) => JsonValue::Number(n.duplicate()),
        JsonValue::String(s) => JsonValue::String(s.clone()),
        JsonValue::Array(items) => {
            let mut out: Vec<JsonValue> = Vec::new();
            let mut i: usize = 0;
            while i < items.len()
                invariant
                    *value == JsonValue::Array(*items),
                    i <= items.len(),
                    out.len() == i,
                    forall|j: int| 0 <= j < i ==> (#[trigger] out@[j])@ == items@[j]@,
                decreases items.len() - i,
            {
                proof {
                    vstd::std_specs::vec::axiom_vec_index_decreases(*items, i as int);
                    assert(decreases_to!(*value => (*value)->Array_0));
                }
                out.push(copy_value(&items[i]));
                i += 1;
            }
            let r = JsonValue::Array(out);
            assert(r@->Array_0 =~= value@->Array_0);
            r
        },
        JsonValue::Object(entries) => {
            let mut out: Vec<(String, JsonValue)> = Vec::new();
            let mut i: usize = 0;
            while i < entries.len()
                invariant
                    *value == JsonValue::Object(*entries),
                    i <= entries.len(),
                    out.len() == i,
                    forall|j: int| 0 <= j < i ==> (#[trigger] out@[j]).0@ == entries@[j].0@ && out@[j].1@ == entries@[j].1@,
                decreases entries.len() - i,
            {
                proof {
                    vstd::std_specs::vec::axiom_vec_index_decreases(*entries, i as int);
                    assert(decreases_to!(*value => (*value)->Object_0));
                    assert(decreases_to!(entries@[i as int] => entries@[i as int].1));
                }
                let member = copy_value(&entries[i].1);
                out.push((entries[i].0.clone(), member));
                i += 1;
            }
            let r = JsonValue::Object(out);
            assert(r@->Object_0 =~= value@->Object_0);
            r
        },
    }
}

/// `candidate` with every part that is semantically equal to the corresponding
/// part of `current` replaced by `current`'s spelling of it. Array items pair by
/// position; object members pair by name (the first member of `current` with
/// that name).
pub open spec fn spec_preserve(current: JsonData, candidate: JsonData) -> JsonData
    decreases current,
{
    if spec_json_equal(current, candidate) {
        current
    } else {
        match current {
            JsonData::Array(cs) => match candidate {
                JsonData::Array(ks) => JsonData::Array(
                    Seq::new(
                        ks.len(),
                        |i: int|
                            if 0 <= i < cs.len() && i < ks.len() {
                                spec_preserve(cs[i], ks[i])
                            } else {
                                ks[i]
                            },
                    ),
                ),
                _ => candidate,
            },
            JsonData::Object(cs) => match candidate {
                JsonData::Object(ks) => JsonData::Object(
                    Seq::new(
                        ks.len(),
                        |j: int|
                            {
                                let m = member_index(cs, ks[j].0);
                                if 0 <= m < cs.len() {
                                    (ks[j].0, spec_preserve(cs[m].1, ks[j].1))
                                } else {
                                    ks[j]
                                }
                            },
                    ),
                ),
                _ => candidate,
            },
            _ => candidate,
        }
    }
}

/// Rewrites `candidate` so that parts semantically equal to `current` keep
/// `current`'s exact spelling (see [`spec_preserve`]).
pub fn preserve_semantically_equal_values(current: &JsonValue, candidate: &mut JsonValue)
    ensures
        final(candidate)@ == spec_preserve(current@, old(candidate)@),
{
    let r = preserved(current, candidate);
    *candidate = r;
}

fn preserved(current: &JsonValue, candidate: &JsonValue) -> (r: JsonValue)
    ensures
        r@ == spec_preserve(current@, candidate@),
    decreases current,
{
    if json_values_equal(current, candidate) {
        return copy_value(current);
    }
    match (current, candidate) {
        (JsonValue::Array(cs), JsonValue::Array(ks)) => {
            let ghost target = spec_preserve(current@, candidate@)->Array_0;
            let mut out: Vec<JsonValue> = Vec::new();
            let mut i: usize = 0;
            while i < ks.len()
                invariant
                    *current == JsonValue::Array(*cs),
                    *candidate == JsonValue::Array(*ks),
                    !spec_json_equal(current@, candidate@),
                    target == spec_preserve(current@, candidate@)->Array_0,
                    i <= ks.len(),
                    out.len() == i,
                    forall|j: int| 0 <= j < i ==> (#[trigger] out@[j])@ == target[j],
                decreases ks.len() - i,
            {
                if i < cs.len() {
                    proof {
                        vstd::std_specs::vec::axiom_vec_index_decreases(*cs, i as int);
                        assert(decreases_to!(*current => (*current)->Array_0));
                    }
                    out.push(preserved(&cs[i], &ks[i]));
                } else {
                    out.push(copy_value(&ks[i]));
                }
                i += 1;
            }
            let r = JsonValue::Array(out);
            assert(r@->Array_0 =~= target);
            r
        },
        (JsonValue::Object(cs), JsonValue::Object(ks)) => {
            let ghost target = spec_preserve(current@, candidate@)->Object_0;
            let ghost cdata = current@->Object_0;
            let mut out: Vec<(String, JsonValue)> = Vec::new();
            let mut i: usize = 0;
            while i < ks.len()
                invariant
                    *current == JsonValue::Object(*cs),
                    *candidate == JsonValue::Object(*ks),
                    !spec_json_equal(current@, candidate@),
                    target == spec_preserve(current@, candidate@)->Object_0,
                    cdata == current@->Object_0,
                    i <= ks.len(),
                    out.len() == i,
                    forall|j: int| 0 <= j < i ==> (#[trigger] out@[j]).0@ == target[j].0 && out@[j].1@ == target[j].1,
                decreases ks.len() - i,
            {
                let member = match find_member(cs, ks[i].0.as_str()) {
                    Some(m) => {
                        proof {
                            vstd::std_specs::vec::axiom_vec_index_decreases(*cs, m as int);
                            assert(decreases_to!(*current => (*current)->Object_0));
                            assert(decreases_to!(cs@[m as int] => cs@[m as int].1));
                        }
                        preserved(&cs[m].1, &ks[i].1)
                    },
                    None => copy_value(&ks[i].1),
                };
                out.push((ks[i].0.clone(), member));
                i += 1;
            }
            let r = JsonValue::Object(out);
            assert(r@->Object_0 =~= target);
            r
        },
        _ => copy_value(candidate),
    }
}

} // verus!
