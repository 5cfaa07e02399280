use vstd::prelude::*;

use num_bigint::{BigInt, Sign};

use crate::number::{is_exponent_text, signed_text_value};
use crate::text::int_text;

verus! {

#[verifier::external_type_specification]
#[verifier::external_body]
pub struct ExBigInt(BigInt);

/// The mathematical integer held by an arbitrary-precision integer.
pub uninterp spec fn big_int_value(value: BigInt) -> int;

/// `BigInt`'s decimal `FromStr` parse: an optional sign followed by decimal
/// digits denotes that signed integer, with no range limit.
#[verifier::external_body]
pub(crate) fn big_int_parse(text: &str) -> (r: Option<BigInt>)
    requires
        is_exponent_text(text@),
    ensures
        r is Some,
        big_int_value(r->0) == signed_text_value(text@),
{
    text.parse::<BigInt>().ok()
}

/// `BigInt::from(usize)`: the same integer.
#[verifier::external_body]
pub(crate) fn big_int_from_usize(n: usize) -> (r: BigInt)
    ensures
        big_int_value(r) == n as int,
{
    BigInt::from(n)
}

/// `BigInt - BigInt`: exact subtraction.
#[verifier::external_body]
pub(crate) fn big_int_sub(left: BigInt, right: BigInt) -> (r: BigInt)
    ensures
        big_int_value(r) == big_int_value(left) - big_int_value(right),
{
    left - right
}

/// `BigInt + BigInt`: exact addition.
#[verifier::external_body]
pub(crate) fn big_int_add(left: BigInt, right: BigInt) -> (r: BigInt)
    ensures
        big_int_value(r) == big_int_value(left) + big_int_value(right),
{
    left + right
}

/// `BigInt == BigInt`: equality of the integers.
#[verifier::external_body]
pub(crate) fn big_int_eq(left: &BigInt, right: &BigInt) -> (r: bool)
    ensures
        r == (big_int_value(*left) == big_int_value(*right)),
{
    left == right
}

/// `BigInt::sign() == Sign::Minus`: whether the integer is below zero.
#[verifier::external_body]
pub(crate) fn big_int_is_negative(value: &BigInt) -> (r: bool)
    ensures
        r == (big_int_value(*value) < 0),
{
    value.sign() == Sign::Minus
}

/// `BigInt`'s `Display`: the decimal spelling of the integer, with `-` before
/// a negative one and no leading zeros.
#[verifier::external_body]
pub(crate) fn big_int_text(value: &BigInt) -> (r: String)
    ensures
        r@ == int_text(big_int_value(*value)),
{
    value.to_string()
}

/// `usize::try_from(&BigInt)`: the integer when it lies in `usize`'s range.
#[verifier::external_body]
pub(crate) fn big_int_to_usize(value: &BigInt) -> (r: Option<usize>)
    ensures
        match r {
            Some(n) => big_int_value(*value) == n as int,
            None => !(0 <= big_int_value(*value) <= usize::MAX),
        },
{
    usize::try_from(value).ok()
}

} // verus!
