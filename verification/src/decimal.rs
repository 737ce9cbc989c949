//! Decimal arithmetic, done by the `rust_decimal` crate.
//!
//! Each function here hands its operands to that crate and brings back what
//! it computed. How the crate rounds, and when it runs out of range, is not
//! restated: each result has a name, and the contracts of the evaluator are
//! written over those names. Nothing here is proved; what is claimed of the
//! crate stands in the comment of each function.
//!
//! A `Number` is always within the range that the crate accepts, so turning
//! one into a `Decimal` cannot fail, and every `Decimal` has a mantissa and
//! a scale within the range of `Number`. A `Decimal` can be a negative
//! zero; as a `Number` it is zero.

use vstd::prelude::*;
use rust_decimal::Decimal;
use rust_decimal::MathematicalOps;
use std::str::FromStr;
use crate::number::Number;

verus! {

/// The number that `Decimal::from_str_exact` reads from `text`, or `None`
/// where it reports an error.
pub uninterp spec fn decimal_literal(text: Seq<char>) -> Option<Number>;

/// The number that `Decimal::from_str` reads from `text`, or `None` where it
/// reports an error.
pub uninterp spec fn decimal_parsed(text: Seq<char>) -> Option<Number>;

/// The text that `Decimal`'s `Display` writes for `n`.
pub uninterp spec fn decimal_text(n: Number) -> Seq<char>;

/// What `Decimal::checked_add` gives for `x + y`.
pub uninterp spec fn decimal_sum(x: Number, y: Number) -> Option<Number>;

/// What `Decimal::checked_sub` gives for `x - y`.
pub uninterp spec fn decimal_difference(x: Number, y: Number) -> Option<Number>;

/// What `Decimal::checked_mul` gives for `x * y`.
pub uninterp spec fn decimal_product(x: Number, y: Number) -> Option<Number>;

/// What `Decimal::checked_div` gives for `x / y`.
pub uninterp spec fn decimal_quotient(x: Number, y: Number) -> Option<Number>;

/// What `Decimal::checked_rem` gives for `x % y`.
pub uninterp spec fn decimal_remainder(x: Number, y: Number) -> Option<Number>;

/// What `MathematicalOps::checked_powd` gives for `x` raised to `y`.
pub uninterp spec fn decimal_power(x: Number, y: Number) -> Option<Number>;

/// `Decimal::from_str_exact`: reads a decimal literal, and fails rather
/// than round where the text holds more digits than a number can.
#[verifier::external_body]
pub(crate) fn parse_exact(text: &str) -> (result: Option<Number>)
    ensures
        result == decimal_literal(text@),
{
    match Decimal::from_str_exact(text) {
        Ok(d) => Some(Number { mantissa: d.mantissa(), scale: d.scale() }),
        Err(_) => None,
    }
}

/// `Decimal::from_str`: reads a decimal, also one in scientific notation,
/// and rounds away digits that do not fit.
#[verifier::external_body]
pub(crate) fn parse_rounded(text: &str) -> (result: Option<Number>)
    ensures
        result == decimal_parsed(text@),
{
    match Decimal::from_str(text) {
        Ok(d) => Some(Number { mantissa: d.mantissa(), scale: d.scale() }),
        Err(_) => None,
    }
}

/// `Decimal`'s `Display`: the digits of `n` with its sign and decimal point.
#[verifier::external_body]
pub(crate) fn to_text(n: Number) -> (text: String)
    ensures
        text@ == decimal_text(n),
{
    Decimal::from_i128_with_scale(n.mantissa, n.scale).to_string()
}

/// `Decimal`'s `==`: true exactly when both have the same value; the
/// scales are brought together before the digits are compared.
#[verifier::external_body]
pub(crate) fn equal(x: Number, y: Number) -> (b: bool)
    ensures
        b == x.same_value(y),
{
    let a = Decimal::from_i128_with_scale(x.mantissa, x.scale);
    let b = Decimal::from_i128_with_scale(y.mantissa, y.scale);
    a == b
}

/// `Decimal::checked_add`: `None` where the sum is out of range.
#[verifier::external_body]
pub(crate) fn checked_add(x: Number, y: Number) -> (result: Option<Number>)
    ensures
        result == decimal_sum(x, y),
{
    let a = Decimal::from_i128_with_scale(x.mantissa, x.scale);
    let b = Decimal::from_i128_with_scale(y.mantissa, y.scale);
    match a.checked_add(b) {
        Some(d) => Some(Number { mantissa: d.mantissa(), scale: d.scale() }),
        None => None,
    }
}

/// `Decimal::checked_sub`: `None` where the difference is out of range.
#[verifier::external_body]
pub(crate) fn checked_sub(x: Number, y: Number) -> (result: Option<Number>)
    ensures
        result == decimal_difference(x, y),
{
    let a = Decimal::from_i128_with_scale(x.mantissa, x.scale);
    let b = Decimal::from_i128_with_scale(y.mantissa, y.scale);
    match a.checked_sub(b) {
        Some(d) => Some(Number { mantissa: d.mantissa(), scale: d.scale() }),
        None => None,
    }
}

/// `Decimal::checked_mul`: `None` where the product is out of range.
#[verifier::external_body]
pub(crate) fn checked_mul(x: Number, y: Number) -> (result: Option<Number>)
    ensures
        result == decimal_product(x, y),
{
    let a = Decimal::from_i128_with_scale(x.mantissa, x.scale);
    let b = Decimal::from_i128_with_scale(y.mantissa, y.scale);
    match a.checked_mul(b) {
        Some(d) => Some(Number { mantissa: d.mantissa(), scale: d.scale() }),
        None => None,
    }
}

/// `Decimal::checked_div`: `None` where `y` is zero or the quotient is out
/// of range.
#[verifier::external_body]
pub(crate) fn checked_div(x: Number, y: Number) -> (result: Option<Number>)
    ensures
        result == decimal_quotient(x, y),
{
    let a = Decimal::from_i128_with_scale(x.mantissa, x.scale);
    let b = Decimal::from_i128_with_scale(y.mantissa, y.scale);
    match a.checked_div(b) {
        Some(d) => Some(Number { mantissa: d.mantissa(), scale: d.scale() }),
        None => None,
    }
}

/// `Decimal::checked_rem`: `None` where `y` is zero or the computation
/// overflows.
#[verifier::external_body]
pub(crate) fn checked_rem(x: Number, y: Number) -> (result: Option<Number>)
    ensures
        result == decimal_remainder(x, y),
{
    let a = Decimal::from_i128_with_scale(x.mantissa, x.scale);
    let b = Decimal::from_i128_with_scale(y.mantissa, y.scale);
    match a.checked_rem(b) {
        Some(d) => Some(Number { mantissa: d.mantissa(), scale: d.scale() }),
        None => None,
    }
}

/// `MathematicalOps::checked_powd`: `None` where the power is out of range.
#[verifier::external_body]
pub(crate) fn checked_pow(x: Number, y: Number) -> (result: Option<Number>)
    ensures
        result == decimal_power(x, y),
{
    let a = Decimal::from_i128_with_scale(x.mantissa, x.scale);
    let b = Decimal::from_i128_with_scale(y.mantissa, y.scale);
    match a.checked_powd(b) {
        Some(d) => Some(Number { mantissa: d.mantissa(), scale: d.scale() }),
        None => None,
    }
}

} // verus!
