use vstd::prelude::*;

use num_bigint::BigInt;

use crate::bigint::{
    big_int_add, big_int_eq, big_int_from_usize, big_int_is_negative, big_int_parse, big_int_sub,
    big_int_value,
};
use crate::text::{
    same_chars,
    chars_of, string_from_chars, sub_chars,
    all_digits, all_zero, digit_value, digits_value, is_digit, lemma_digits_value_push,
    lemma_trim_leading_zeros, trim_leading_zeros, zeros,
};

verus! {

/// Why an edit buffer cannot currently be converted to canonical JSON data.
#[derive(Debug, Clone, Copy, PartialEq, Eq, Structural)]
#[non_exhaustive]
pub enum ParseBlockerKind {
    InvalidNumber,
    InvalidInteger,
    ResourceLimitExceeded,
}

/// Whether `c` introduces a JSON exponent.
pub open spec fn is_exponent_marker(c: char) -> bool {
    c == 'e' || c == 'E'
}

/// Position of the first exponent marker of `s`, or -1.
pub open spec fn exponent_index(s: Seq<char>) -> int
    decreases s.len(),
{
    if s.len() == 0 {
        -1
    } else if exponent_index(s.drop_last()) >= 0 {
        exponent_index(s.drop_last())
    } else if is_exponent_marker(s.last()) {
        s.len() - 1
    } else {
        -1
    }
}

/// Position of the first `.` of `s`, or -1.
pub open spec fn dot_index(s: Seq<char>) -> int
    decreases s.len(),
{
    if s.len() == 0 {
        -1
    } else if dot_index(s.drop_last()) >= 0 {
        dot_index(s.drop_last())
    } else if s.last() == '.' {
        s.len() - 1
    } else {
        -1
    }
}

/// Splits a leading minus sign off a number text.
pub open spec fn split_sign(s: Seq<char>) -> (bool, Seq<char>) {
    if s.len() > 0 && s[0] == '-' {
        (true, s.drop_first())
    } else {
        (false, s)
    }
}

/// Splits an unsigned number text into its significand and exponent text ("0" when absent).
pub open spec fn split_exponent(u: Seq<char>) -> (Seq<char>, Seq<char>) {
    let k = exponent_index(u);
    if k >= 0 {
        (u.take(k), u.skip(k + 1))
    } else {
        (u, seq!['0'])
    }
}

/// Splits a significand into whole and fraction digits (empty fraction when absent).
pub open spec fn split_fraction(sig: Seq<char>) -> (Seq<char>, Seq<char>) {
    let k = dot_index(sig);
    if k >= 0 {
        (sig.take(k), sig.skip(k + 1))
    } else {
        (sig, Seq::empty())
    }
}

/// The digits of a signed decimal integer text after an optional `+` or `-`.
pub open spec fn unsigned_body(t: Seq<char>) -> Seq<char> {
    if t.len() > 0 && (t[0] == '+' || t[0] == '-') {
        t.drop_first()
    } else {
        t
    }
}

/// A JSON exponent text: an optional sign followed by at least one digit.
pub open spec fn is_exponent_text(t: Seq<char>) -> bool {
    unsigned_body(t).len() > 0 && all_digits(unsigned_body(t))
}

/// The integer denoted by a signed decimal text, ignoring machine ranges.
pub open spec fn signed_text_value(t: Seq<char>) -> int {
    if t.len() > 0 && t[0] == '-' {
        -(digits_value(unsigned_body(t)) as int)
    } else {
        digits_value(unsigned_body(t)) as int
    }
}

/// Text that is a JSON number (RFC 8259 grammar).
pub open spec fn is_json_number(s: Seq<char>) -> bool {
    let (negative, u) = split_sign(s);
    let (sig, exp) = split_exponent(u);
    let (whole, frac) = split_fraction(sig);
    &&& whole.len() > 0
    &&& all_digits(whole)
    &&& (whole[0] == '0' ==> whole.len() == 1)
    &&& all_digits(frac)
    &&& (dot_index(sig) >= 0 ==> frac.len() > 0)
    &&& (exponent_index(u) >= 0 ==> is_exponent_text(exp))
}

/// The value of a signed decimal text when it fits a 64-bit signed integer.
pub open spec fn spec_parse_i64(t: Seq<char>) -> Option<int> {
    if is_exponent_text(t) && i64::MIN <= signed_text_value(t) <= i64::MAX {
        Some(signed_text_value(t))
    } else {
        None
    }
}

/// The canonical decimal integer spelling of a JSON number whose value is an
/// integer, or why it has none within a budget of `maximum` digits.
pub open spec fn spec_canonical_integer(s: Seq<char>, maximum: nat) -> Result<Seq<char>, ParseBlockerKind> {
    let (negative, u) = split_sign(s);
    let (sig, exp) = split_exponent(u);
    let (whole, frac) = split_fraction(sig);
    let digits = whole + frac;
    if all_zero(digits) {
        if maximum == 0 {
            Err(ParseBlockerKind::ResourceLimitExceeded)
        } else {
            Ok(seq!['0'])
        }
    } else {
        let d = trim_leading_zeros(digits);
        match spec_parse_i64(exp) {
            None => if exp.len() > 0 && exp[0] == '-' {
                Err(ParseBlockerKind::InvalidInteger)
            } else {
                Err(ParseBlockerKind::ResourceLimitExceeded)
            },
            Some(e) => if frac.len() > i64::MAX {
                Err(ParseBlockerKind::ResourceLimitExceeded)
            } else if e - frac.len() < i64::MIN {
                if e < 0 {
                    Err(ParseBlockerKind::InvalidInteger)
                } else {
                    Err(ParseBlockerKind::ResourceLimitExceeded)
                }
            } else {
                match spec_shifted_digits(d, e - frac.len(), maximum) {
                    Ok(kept) => if negative {
                        Ok(seq!['-'] + kept)
                    } else {
                        Ok(kept)
                    },
                    Err(x) => Err(x),
                }
            },
        }
    }
}

/// Significant digits `d` (no leading zero) scaled by ten to the power `shift`,
/// when the result is an integer of at most `maximum` digits.
pub open spec fn spec_shifted_digits(d: Seq<char>, shift: int, maximum: nat) -> Result<Seq<char>, ParseBlockerKind> {
    if shift >= 0 {
        if d.len() + shift > maximum {
            Err(ParseBlockerKind::ResourceLimitExceeded)
        } else {
            Ok(d + zeros(shift as nat))
        }
    } else if -shift >= d.len() {
        Err(ParseBlockerKind::InvalidInteger)
    } else if !all_zero(d.skip(d.len() + shift)) {
        Err(ParseBlockerKind::InvalidInteger)
    } else if d.len() + shift > maximum {
        Err(ParseBlockerKind::ResourceLimitExceeded)
    } else {
        Ok(d.take(d.len() + shift))
    }
}

#[verifier::loop_isolation(false)]
fn shifted_digits(d: &Vec<char>, shift: i128, maximum_digits: usize) -> (r: Result<Vec<char>, ParseBlockerKind>)
    requires
        -9223372036854775808 <= shift <= 9223372036854775807,
    ensures
        match r {
            Ok(kept) => spec_shifted_digits(d@, shift as int, maximum_digits as nat) == Ok::<Seq<char>, ParseBlockerKind>(kept@),
            Err(e) => spec_shifted_digits(d@, shift as int, maximum_digits as nat) == Err::<Seq<char>, ParseBlockerKind>(e),
        },
{
    if shift >= 0 {
        if d.len() as i128 + shift > maximum_digits as i128 {
            return Err(ParseBlockerKind::ResourceLimitExceeded);
        }
        let added: usize = shift as usize;
        let mut kept = sub_chars(d, 0, d.len());
        let mut z: usize = 0;
        while z < added
            invariant
                z <= added,
                kept@ =~= d@ + zeros(z as nat),
            decreases added - z,
        {
            kept.push('0');
            assert(zeros((z + 1) as nat) =~= zeros(z as nat).push('0'));
            z += 1;
        }
        Ok(kept)
    } else {
        let removed: i128 = -shift;
        if removed >= d.len() as i128 {
            return Err(ParseBlockerKind::InvalidInteger);
        }
        let split: usize = (d.len() as i128 - removed) as usize;
        assert(d@.len() + shift == split);
        let mut k: usize = split;
        while k < d.len()
            invariant
                split <= k <= d.len(),
                all_zero(d@.subrange(split as int, k as int)),
            decreases d.len() - k,
        {
            if d[k] != '0' {
                assert(d@.skip(split as int)[k - split] == d@[k as int]);
                return Err(ParseBlockerKind::InvalidInteger);
            }
            assert(d@.subrange(split as int, k + 1) =~= d@.subrange(split as int, k as int).push('0'));
            k += 1;
        }
        assert(d@.subrange(split as int, d.len() as int) =~= d@.skip(split as int));
        if split > maximum_digits {
            return Err(ParseBlockerKind::ResourceLimitExceeded);
        }
        Ok(sub_chars(d, 0, split))
    }
}

/// Position of the first exponent marker.
fn find_exponent(v: &Vec<char>) -> (r: Option<usize>)
    ensures
        match r {
            Some(k) => exponent_index(v@) == k as int && k < v.len(),
            None => exponent_index(v@) == -1,
        },
{
    let mut i: usize = 0;
    while i < v.len()
        invariant
            i <= v.len(),
            exponent_index(v@.take(i as int)) == -1,
        decreases v.len() - i,
    {
        assert(v@.take(i + 1).drop_last() =~= v@.take(i as int));
        if v[i] == 'e' || v[i] == 'E' {
            assert(exponent_index(v@.take(i + 1)) == i);
            proof { lemma_exponent_index_prefix(v@, i as int + 1); }
            return Some(i);
        }
        i += 1;
    }
    assert(v@.take(v.len() as int) =~= v@);
    None
}

proof fn lemma_exponent_index_prefix(s: Seq<char>, n: int)
    requires
        0 <= n <= s.len(),
        exponent_index(s.take(n)) >= 0,
    ensures
        exponent_index(s) == exponent_index(s.take(n)),
    decreases s.len() - n,
{
    if n < s.len() {
        assert(s.take(n + 1).drop_last() =~= s.take(n));
        lemma_exponent_index_prefix(s, n + 1);
    } else {
        assert(s.take(n) =~= s);
    }
}

proof fn lemma_dot_index_prefix(s: Seq<char>, n: int)
    requires
        0 <= n <= s.len(),
        dot_index(s.take(n)) >= 0,
    ensures
        dot_index(s) == dot_index(s.take(n)),
    decreases s.len() - n,
{
    if n < s.len() {
        assert(s.take(n + 1).drop_last() =~= s.take(n));
        lemma_dot_index_prefix(s, n + 1);
    } else {
        assert(s.take(n) =~= s);
    }
}

/// Position of the first `.`.
fn find_dot(v: &Vec<char>) -> (r: Option<usize>)
    ensures
        match r {
            Some(k) => dot_index(v@) == k as int && k < v.len(),
            None => dot_index(v@) == -1,
        },
{
    let mut i: usize = 0;
    while i < v.len()
        invariant
            i <= v.len(),
            dot_index(v@.take(i as int)) == -1,
        decreases v.len() - i,
    {
        assert(v@.take(i + 1).drop_last() =~= v@.take(i as int));
        if v[i] == '.' {
            assert(dot_index(v@.take(i + 1)) == i);
            proof { lemma_dot_index_prefix(v@, i as int + 1); }
            return Some(i);
        }
        i += 1;
    }
    assert(v@.take(v.len() as int) =~= v@);
    None
}

/// Parses a signed decimal text as a 64-bit signed integer.
pub fn parse_i64_text(t: &Vec<char>) -> (r: Option<i64>)
    ensures
        match r {
            Some(x) => spec_parse_i64(t@) == Some(x as int),
            None => spec_parse_i64(t@) is None,
        },
{
    let negative = t.len() > 0 && t[0] == '-';
    let start: usize = if t.len() > 0 && (t[0] == '+' || t[0] == '-') { 1 } else { 0 };
    let ghost body = unsigned_body(t@);
    assert(body =~= t@.skip(start as int));
    if start >= t.len() {
        return None;
    }
    let limit: u128 = if negative { 9223372036854775808 } else { 9223372036854775807 };
    let mut acc: u128 = 0;
    let mut i: usize = start;
    while i < t.len()
        invariant
            start <= i <= t.len(),
            body == unsigned_body(t@),
            body =~= t@.skip(start as int),
            negative == (t@.len() > 0 && t@[0] == '-'),
            acc as nat == digits_value(body.take(i - start)),
            acc <= limit,
            all_digits(body.take(i - start)),
            limit == (if negative { 9223372036854775808u128 } else { 9223372036854775807u128 }),
        decreases t.len() - i,
    {
        let c = t[i];
        if !('0' <= c && c <= '9') {
            assert(!is_digit(body[i - start]));
            return None;
        }
        proof {
            let k = (i - start) as int;
            assert(body.take(k + 1) =~= body.take(k).push(c));
            lemma_digits_value_push(body.take(k), c);
        }
        let d: u128 = (c as u32 - '0' as u32) as u128;
        acc = acc * 10 + d;
        i += 1;
        if acc > limit {
            proof {
                lemma_digits_value_prefix_monotone(body, (i - start) as int);
            }
            return None;
        }
    }
    assert(body.take(i - start) =~= body);
    if negative {
        if acc == 9223372036854775808 {
            Some(i64::MIN)
        } else {
            Some(-(acc as i64))
        }
    } else {
        Some(acc as i64)
    }
}

/// Extending a digit prefix never lowers its value.
proof fn lemma_digits_value_prefix_monotone(s: Seq<char>, n: int)
    requires
        0 <= n <= s.len(),
    ensures
        digits_value(s.take(n)) <= digits_value(s),
    decreases s.len() - n,
{
    if n < s.len() {
        lemma_digits_value_prefix_monotone(s, n + 1);
        assert(s.take(n + 1).drop_last() =~= s.take(n));
    } else {
        assert(s.take(n) =~= s);
    }
}


proof fn lemma_trim_at_first_nonzero(s: Seq<char>, k: int)
    requires
        0 <= k < s.len(),
        all_zero(s.take(k)),
        s[k] != '0',
    ensures
        trim_leading_zeros(s) == s.skip(k),
    decreases k,
{
    if k == 0 {
        assert(s.skip(0) =~= s);
    } else {
        assert(s.take(k)[0] == '0');
        let t = s.drop_first();
        assert forall|i: int| 0 <= i < k - 1 implies #[trigger] t.take(k - 1)[i] == '0' by {
            assert(t.take(k - 1)[i] == s.take(k)[i + 1]);
        }
        lemma_trim_at_first_nonzero(t, k - 1);
        assert(t.skip(k - 1) =~= s.skip(k));
    }
}

/// The sign, whole digits, fraction digits and exponent text of a number text.
fn number_parts(input: &str) -> (r: (bool, Vec<char>, Vec<char>, Vec<char>, bool, bool))
    ensures
        r.0 == split_sign(input@).0,
        r.4 == (dot_index(split_exponent(split_sign(input@).1).0) >= 0),
        r.5 == (exponent_index(split_sign(input@).1) >= 0),
        r.1@ == split_fraction(split_exponent(split_sign(input@).1).0).0,
        r.2@ == split_fraction(split_exponent(split_sign(input@).1).0).1,
        r.3@ == split_exponent(split_sign(input@).1).1,
{
    let s = chars_of(input);
    let negative = s.len() > 0 && s[0] == '-';
    let start: usize = if negative { 1 } else { 0 };
    let u = sub_chars(&s, start, s.len());
    assert(u@ =~= split_sign(s@).1);
    let found_exp = find_exponent(&u);
    let has_exp = found_exp.is_some();
    let (sig, exp) = match found_exp {
        Some(k) => (sub_chars(&u, 0, k), sub_chars(&u, k + 1, u.len())),
        None => (sub_chars(&u, 0, u.len()), vec!['0']),
    };
    assert(sig@ =~= split_exponent(u@).0);
    assert(exp@ =~= split_exponent(u@).1);
    let found_dot = find_dot(&sig);
    let has_dot = found_dot.is_some();
    let (whole, frac) = match found_dot {
        Some(k) => (sub_chars(&sig, 0, k), sub_chars(&sig, k + 1, sig.len())),
        None => (sub_chars(&sig, 0, sig.len()), Vec::new()),
    };
    assert(whole@ =~= split_fraction(sig@).0);
    assert(frac@ =~= split_fraction(sig@).1);

    (negative, whole, frac, exp, has_dot, has_exp)
}

fn all_digit_chars(v: &Vec<char>) -> (r: bool)
    ensures
        r == all_digits(v@),
{
    let mut i: usize = 0;
    while i < v.len()
        invariant
            i <= v.len(),
            all_digits(v@.take(i as int)),
        decreases v.len() - i,
    {
        if !('0' <= v[i] && v[i] <= '9') {
            assert(!is_digit(v@[i as int]));
            return false;
        }
        assert(v@.take(i + 1) =~= v@.take(i as int).push(v@[i as int]));
        i += 1;
    }
    assert(v@.take(v.len() as int) =~= v@);
    true
}

/// Whether `text` is a JSON number.
pub fn is_json_number_text(text: &str) -> (r: bool)
    ensures
        r == is_json_number(text@),
{
    let (_negative, whole, frac, exp, has_dot, has_exp) = number_parts(text);
    if whole.len() == 0 || !all_digit_chars(&whole) {
        return false;
    }
    if whole[0] == '0' && whole.len() != 1 {
        return false;
    }
    if !all_digit_chars(&frac) || (has_dot && frac.len() == 0) {
        return false;
    }
    if has_exp {
        let start: usize = if exp.len() > 0 && (exp[0] == '+' || exp[0] == '-') { 1 } else { 0 };
        let body = sub_chars(&exp, start, exp.len());
        assert(body@ =~= unsigned_body(exp@));
        if body.len() == 0 || !all_digit_chars(&body) {
            return false;
        }
    }
    true
}

/// Canonical decimal spelling of a JSON number text whose value is an integer.
///
/// The exponent is applied textually, so the work is bounded by
/// `maximum_digits` rather than by the magnitude of the exponent.
pub fn canonical_integer_with_limit(input: &str, maximum_digits: usize) -> (r: Result<String, ParseBlockerKind>)
    ensures
        match r {
            Ok(text) => spec_canonical_integer(input@, maximum_digits as nat) == Ok::<Seq<char>, ParseBlockerKind>(text@),
            Err(e) => spec_canonical_integer(input@, maximum_digits as nat) == Err::<Seq<char>, ParseBlockerKind>(e),
        },
{
    let (negative, whole, frac, exp, _has_dot, _has_exp) = number_parts(input);
    let mut digits: Vec<char> = Vec::new();
    let mut i: usize = 0;
    while i < whole.len()
        invariant
            i <= whole.len(),
            digits@ =~= whole@.take(i as int),
        decreases whole.len() - i,
    {
        digits.push(whole[i]);
        assert(whole@.take(i + 1) =~= whole@.take(i as int).push(whole@[i as int]));
        i += 1;
    }
    let mut j: usize = 0;
    while j < frac.len()
        invariant
            j <= frac.len(),
            i == whole.len(),
            digits@ =~= whole@ + frac@.take(j as int),
        decreases frac.len() - j,
    {
        digits.push(frac[j]);
        assert(frac@.take(j + 1) =~= frac@.take(j as int).push(frac@[j as int]));
        j += 1;
    }
    assert(digits@ =~= whole@ + frac@);

    let mut first_nonzero: usize = 0;
    while first_nonzero < digits.len() && digits[first_nonzero] == '0'
        invariant
            first_nonzero <= digits.len(),
            all_zero(digits@.take(first_nonzero as int)),
        decreases digits.len() - first_nonzero,
    {
        assert(digits@.take(first_nonzero + 1) =~= digits@.take(first_nonzero as int).push('0'));
        first_nonzero += 1;
    }
    if first_nonzero == digits.len() {
        assert(digits@.take(digits.len() as int) =~= digits@);
        if maximum_digits == 0 {
            return Err(ParseBlockerKind::ResourceLimitExceeded);
        }
        let zero = vec!['0'];
        assert(zero@ =~= seq!['0']);
        return Ok(string_from_chars(&zero));
    }
    assert(!all_zero(digits@)) by {
        assert(digits@[first_nonzero as int] != '0');
    }
    proof {
        lemma_trim_at_first_nonzero(digits@, first_nonzero as int);
    }
    let d = sub_chars(&digits, first_nonzero, digits.len());
    assert(d@ =~= trim_leading_zeros(digits@));

    let e = match parse_i64_text(&exp) {
        Some(e) => e,
        None => {
            if exp.len() > 0 && exp[0] == '-' {
                return Err(ParseBlockerKind::InvalidInteger);
            }
            return Err(ParseBlockerKind::ResourceLimitExceeded);
        },
    };
    if frac.len() as u128 > 9223372036854775807u128 {
        return Err(ParseBlockerKind::ResourceLimitExceeded);
    }
    let shift: i128 = e as i128 - frac.len() as i128;
    if shift < -9223372036854775808i128 {
        if e < 0 {
            return Err(ParseBlockerKind::InvalidInteger);
        }
        return Err(ParseBlockerKind::ResourceLimitExceeded);
    }
    let kept = match shifted_digits(&d, shift, maximum_digits) {
        Ok(kept) => kept,
        Err(x) => return Err(x),
    };
    if negative {
        let mut out: Vec<char> = vec!['-'];
        let mut m: usize = 0;
        while m < kept.len()
            invariant
                m <= kept.len(),
                out@ =~= seq!['-'] + kept@.take(m as int),
            decreases kept.len() - m,
        {
            out.push(kept[m]);
            assert(kept@.take(m + 1) =~= kept@.take(m as int).push(kept@[m as int]));
            m += 1;
        }
        assert(kept@.take(kept.len() as int) =~= kept@);
        Ok(string_from_chars(&out))
    } else {
        Ok(string_from_chars(&kept))
    }
}


/// Number of trailing zero digits of `d`.
pub open spec fn trailing_zeros(d: Seq<char>) -> nat
    decreases d.len(),
{
    if d.len() > 0 && d.last() == '0' {
        1 + trailing_zeros(d.drop_last())
    } else {
        0
    }
}

/// The normal form of a JSON number: sign, significant digits without leading
/// or trailing zeros, and the power of ten that scales them. Zero has the
/// single normal form (false, "0", 0), whatever its spelling or sign.
pub open spec fn spec_normal_form(s: Seq<char>) -> (bool, Seq<char>, int) {
    let (negative, u) = split_sign(s);
    let (sig, exp) = split_exponent(u);
    let (whole, frac) = split_fraction(sig);
    let digits = whole + frac;
    if all_zero(digits) {
        (false, seq!['0'], 0)
    } else {
        let d = trim_leading_zeros(digits);
        let t = trailing_zeros(d);
        (negative, d.take(d.len() - t), signed_text_value(exp) - frac.len() + t)
    }
}

/// Two JSON number texts denote the same mathematical number.
pub open spec fn spec_numbers_equal(a: Seq<char>, b: Seq<char>) -> bool {
    spec_normal_form(a) == spec_normal_form(b)
}

proof fn lemma_trailing_zeros_bound(d: Seq<char>)
    ensures
        trailing_zeros(d) <= d.len(),
        all_zero(d.skip(d.len() - trailing_zeros(d))),
        trailing_zeros(d) < d.len() ==> d[d.len() - trailing_zeros(d) - 1] != '0',
    decreases d.len(),
{
    if d.len() > 0 && d.last() == '0' {
        lemma_trailing_zeros_bound(d.drop_last());
        let t = trailing_zeros(d.drop_last());
        assert forall|i: int| 0 <= i < t + 1 implies #[trigger] d.skip(d.len() - (t + 1))[i] == '0' by {
            if i < t {
                assert(d.skip(d.len() - (t + 1))[i] == d.drop_last().skip(d.drop_last().len() - t)[i]);
            }
        }
    }
}

proof fn lemma_digits_have_no_marks(s: Seq<char>)
    requires
        all_digits(s),
    ensures
        exponent_index(s) == -1,
        dot_index(s) == -1,
    decreases s.len(),
{
    if s.len() > 0 {
        assert(all_digits(s.drop_last())) by {
            assert forall|i: int| 0 <= i < s.drop_last().len() implies #[trigger] is_digit(s.drop_last()[i]) by {
                assert(s.drop_last()[i] == s[i]);
            }
        }
        lemma_digits_have_no_marks(s.drop_last());
        assert(is_digit(s[s.len() - 1]));
    }
}

/// Decimal digits without a redundant leading zero are a JSON number.
pub proof fn lemma_digits_are_number(s: Seq<char>)
    requires
        s.len() > 0,
        all_digits(s),
        s[0] == '0' ==> s.len() == 1,
    ensures
        is_json_number(s),
{
    lemma_digits_have_no_marks(s);
    assert(is_digit(s[0]));
}

/// The significant digits of a number's normal form are decimal digits, and
/// are "0" or denote a positive number.
pub proof fn lemma_normal_form_digits(s: Seq<char>)
    requires
        is_json_number(s),
    ensures
        all_digits(spec_normal_form(s).1),
        spec_normal_form(s).1.len() > 0,
        spec_normal_form(s).1 != seq!['0'] ==> digits_value(spec_normal_form(s).1) >= 1,
        spec_normal_form(s).1 == seq!['0'] ==> spec_normal_form(s).2 == 0 && !spec_normal_form(s).0,
{
    let (negative, u) = split_sign(s);
    let (sig, exp) = split_exponent(u);
    let (whole, frac) = split_fraction(sig);
    let digits = whole + frac;
    assert(all_digits(digits)) by {
        assert forall|i: int| 0 <= i < digits.len() implies #[trigger] is_digit(digits[i]) by {
            if i < whole.len() {
                assert(digits[i] == whole[i]);
            } else {
                assert(digits[i] == frac[i - whole.len()]);
            }
        }
    }
    if !all_zero(digits) {
        let d = trim_leading_zeros(digits);
        lemma_trim_leading_zeros(digits);
        if d.len() == 0 {
            assert(digits.take(digits.len() as int) =~= digits);
            assert(false);
        }
        assert(all_digits(d)) by {
            assert forall|i: int| 0 <= i < d.len() implies #[trigger] is_digit(d[i]) by {
                assert(d[i] == digits[digits.len() - d.len() + i]);
            }
        }
        let t = trailing_zeros(d);
        lemma_trailing_zeros_bound(d);
        if t == d.len() {
            assert(d.skip(0)[0] == '0');
            assert(false);
        }
        let r = d.take(d.len() - t);
        assert(r.last() == d[d.len() - t - 1]);
        assert(digits_value(r) == digits_value(r.drop_last()) * 10 + digit_value(r.last()));
        assert(is_digit(r.last()));
        assert(seq!['0'].drop_last() =~= Seq::<char>::empty());
        assert(digits_value(Seq::<char>::empty()) == 0);
        assert(digits_value(seq!['0']) == digits_value(seq!['0'].drop_last()) * 10 + digit_value('0'));
        assert(digits_value(seq!['0']) == 0);
    }
}

/// The sign, significant digits and scale of a JSON number text.
#[verifier::rlimit(40)]
pub(crate) fn number_normal_form(text: &str) -> (r: (bool, Vec<char>, BigInt))
    requires
        is_json_number(text@),
    ensures
        r.0 == spec_normal_form(text@).0,
        r.1@ == spec_normal_form(text@).1,
        big_int_value(r.2) == spec_normal_form(text@).2,
{
    let (negative, whole, frac, exp, _has_dot, _has_exp) = number_parts(text);
    let exp_text = string_from_chars(&exp);
    assert(is_exponent_text(exp@)) by {
        if exponent_index(split_sign(text@).1) < 0 {
            assert(unsigned_body(exp@) =~= seq!['0']);
        }
    }
    let exponent = match big_int_parse(exp_text.as_str()) {
        Some(value) => value,
        None => big_int_from_usize(0),
    };
    let mut digits: Vec<char> = Vec::new();
    let mut i: usize = 0;
    while i < whole.len()
        invariant
            i <= whole.len(),
            digits@ =~= whole@.take(i as int),
        decreases whole.len() - i,
    {
        digits.push(whole[i]);
        assert(whole@.take(i + 1) =~= whole@.take(i as int).push(whole@[i as int]));
        i += 1;
    }
    let mut j: usize = 0;
    while j < frac.len()
        invariant
            j <= frac.len(),
            digits@ =~= whole@ + frac@.take(j as int),
        decreases frac.len() - j,
    {
        digits.push(frac[j]);
        assert(frac@.take(j + 1) =~= frac@.take(j as int).push(frac@[j as int]));
        j += 1;
    }
    assert(digits@ =~= whole@ + frac@);
    let mut first_nonzero: usize = 0;
    while first_nonzero < digits.len() && digits[first_nonzero] == '0'
        invariant
            first_nonzero <= digits.len(),
            all_zero(digits@.take(first_nonzero as int)),
        decreases digits.len() - first_nonzero,
    {
        assert(digits@.take(first_nonzero + 1) =~= digits@.take(first_nonzero as int).push('0'));
        first_nonzero += 1;
    }
    if first_nonzero == digits.len() {
        assert(digits@.take(digits.len() as int) =~= digits@);
        let zero = vec!['0'];
        assert(zero@ =~= seq!['0']);
        return (false, zero, big_int_from_usize(0));
    }
    assert(!all_zero(digits@)) by {
        assert(digits@[first_nonzero as int] != '0');
    }
    proof {
        lemma_trim_at_first_nonzero(digits@, first_nonzero as int);
    }
    let d = sub_chars(&digits, first_nonzero, digits.len());
    let mut end: usize = d.len();
    assert(d@.take(d.len() as int) =~= d@);
    while end > 0 && d[end - 1] == '0'
        invariant
            end <= d.len(),
            trailing_zeros(d@) == (d.len() - end) + trailing_zeros(d@.take(end as int)),
        decreases end,
    {
        assert(d@.take(end as int).drop_last() =~= d@.take(end - 1));
        end -= 1;
    }
    assert(trailing_zeros(d@.take(end as int)) == 0);
    let significant = sub_chars(&d, 0, end);
    let fraction_len = big_int_from_usize(frac.len());
    let trailing = big_int_from_usize(d.len() - end);
    let scale = big_int_add(big_int_sub(exponent, fraction_len), trailing);
    (negative, significant, scale)
}

/// Whether two JSON number texts denote the same mathematical number, without
/// expanding exponents.
pub fn number_texts_equal(left: &str, right: &str) -> (r: bool)
    requires
        is_json_number(left@),
        is_json_number(right@),
    ensures
        r == spec_numbers_equal(left@, right@),
{
    let (left_negative, left_digits, left_scale) = number_normal_form(left);
    let (right_negative, right_digits, right_scale) = number_normal_form(right);
    left_negative == right_negative && same_chars(&left_digits, &right_digits)
        && big_int_eq(&left_scale, &right_scale)
}

/// A JSON number text denotes an integer: its normal form has no negative power of ten.
pub open spec fn spec_number_is_integer(s: Seq<char>) -> bool {
    spec_normal_form(s).2 >= 0
}

/// Whether a JSON number text denotes a mathematical integer (`1.0`, `1e3`
/// and `-0.0` do; `1.5` and `1e-1` do not).
pub fn number_is_integer(text: &str) -> (r: bool)
    requires
        is_json_number(text@),
    ensures
        r == spec_number_is_integer(text@),
{
    let (_negative, _digits, scale) = number_normal_form(text);
    !big_int_is_negative(&scale)
}


proof fn lemma_trailing_zeros_padded(w: Seq<char>, n: nat)
    ensures
        trailing_zeros(w + zeros(n)) == trailing_zeros(w) + n,
        (w + zeros(n)).take((w + zeros(n)).len() - trailing_zeros(w + zeros(n))) =~= w.take(
            w.len() - trailing_zeros(w),
        ),
    decreases n,
{
    lemma_trailing_zeros_bound(w);
    if n == 0 {
        assert(w + zeros(0) =~= w);
    } else {
        let x = w + zeros((n - 1) as nat);
        lemma_trailing_zeros_padded(w, (n - 1) as nat);
        assert(w + zeros(n) =~= x.push('0'));
        assert(x.push('0').drop_last() =~= x);
        lemma_trailing_zeros_bound(x);
    }
}

/// The normal form of a digit string without a leading zero, with or
/// without a minus sign in front.
proof fn lemma_digit_string_normal_form(w: Seq<char>, negative: bool)
    requires
        w.len() > 0,
        all_digits(w),
        w[0] != '0',
    ensures
        spec_normal_form(if negative { seq!['-'] + w } else { w }) == (
            negative,
            w.take(w.len() - trailing_zeros(w)),
            trailing_zeros(w) as int,
        ),
{
    let t = if negative { seq!['-'] + w } else { w };
    assert(is_digit(w[0]));
    if negative {
        assert(t.drop_first() =~= w);
    }
    assert(split_sign(t) == (negative, w));
    lemma_digits_have_no_marks(w);
    assert(split_exponent(w) == (w, seq!['0']));
    assert(split_fraction(w) == (w, Seq::<char>::empty()));
    assert(w + Seq::<char>::empty() =~= w);
    assert(!all_zero(w));
    assert(trim_leading_zeros(w) == w);
    assert(unsigned_body(seq!['0']) =~= seq!['0']);
    assert(seq!['0'].drop_last() =~= Seq::<char>::empty());
    assert(digits_value(Seq::<char>::empty()) == 0);
    assert(digit_value('0') == 0);
    assert(digits_value(seq!['0']) == digits_value(seq!['0'].drop_last()) * 10 + digit_value('0'));
    assert(digits_value(seq!['0']) == 0);
    assert(signed_text_value(seq!['0']) == 0);
}

/// Canonical integers keep the value: when a JSON number has a canonical
/// integer spelling, that spelling denotes the same number, and the number
/// is an integer (its normal form has no negative power of ten). A number
/// with a nonzero digit after the point, at any scale, has none.
pub proof fn lemma_canonical_integer_keeps_value(s: Seq<char>, maximum: nat)
    requires
        is_json_number(s),
        spec_canonical_integer(s, maximum) is Ok,
    ensures
        spec_numbers_equal(s, spec_canonical_integer(s, maximum)->Ok_0),
        spec_normal_form(s).2 >= 0,
{
    let (negative, u) = split_sign(s);
    let (sig, exp) = split_exponent(u);
    let (whole, frac) = split_fraction(sig);
    let digits = whole + frac;
    let t = spec_canonical_integer(s, maximum)->Ok_0;
    if all_zero(digits) {
        assert(t == seq!['0']);
        let z = seq!['0'];
        assert(split_sign(z) == (false, z));
        assert(all_digits(z)) by {
            assert(is_digit(z[0]));
        }
        lemma_digits_have_no_marks(z);
        assert(split_exponent(z) == (z, seq!['0']));
        assert(split_fraction(z) == (z, Seq::<char>::empty()));
        assert(z + Seq::<char>::empty() =~= z);
        assert(all_zero(z));
    } else {
        lemma_trim_leading_zeros(digits);
        let d = trim_leading_zeros(digits);
        assert(all_digits(digits)) by {
            assert forall|i: int| 0 <= i < digits.len() implies #[trigger] is_digit(digits[i]) by {
                if i < whole.len() {
                    assert(digits[i] == whole[i]);
                } else {
                    assert(digits[i] == frac[i - whole.len()]);
                }
            }
        }
        assert(all_digits(d)) by {
            assert forall|i: int| 0 <= i < d.len() implies #[trigger] is_digit(d[i]) by {
                assert(d[i] == digits[digits.len() - d.len() + i]);
            }
        }
        if d.len() == 0 {
            assert(digits.take(digits.len() - 0) =~= digits);
        }
        let e = spec_parse_i64(exp)->Some_0;
        assert(e == signed_text_value(exp));
        let shift = e - frac.len();
        lemma_trailing_zeros_bound(d);
        if shift >= 0 {
            let kept = d + zeros(shift as nat);
            assert(t == if negative { seq!['-'] + kept } else { kept });
            assert(all_digits(kept)) by {
                assert forall|i: int| 0 <= i < kept.len() implies #[trigger] is_digit(kept[i]) by {
                    if i < d.len() {
                        assert(kept[i] == d[i]);
                    } else {
                        assert(kept[i] == '0');
                    }
                }
            }
            assert(kept[0] == d[0]);
            lemma_digit_string_normal_form(kept, negative);
            lemma_trailing_zeros_padded(d, shift as nat);
        } else {
            let m = (-shift) as nat;
            let kept = d.take(d.len() + shift);
            assert(t == if negative { seq!['-'] + kept } else { kept });
            assert(d =~= kept + zeros(m)) by {
                assert(all_zero(d.skip(d.len() + shift)));
                assert forall|i: int| 0 <= i < d.len() implies d[i] == (kept + zeros(m))[i] by {
                    if i >= d.len() + shift {
                        assert(d.skip(d.len() + shift)[i - (d.len() + shift)] == d[i]);
                    }
                }
            }
            assert(all_digits(kept)) by {
                assert forall|i: int| 0 <= i < kept.len() implies #[trigger] is_digit(kept[i]) by {
                    assert(kept[i] == d[i]);
                }
            }
            assert(kept[0] == d[0]);
            lemma_digit_string_normal_form(kept, negative);
            lemma_trailing_zeros_padded(kept, m);
        }
    }
}

} // verus!
