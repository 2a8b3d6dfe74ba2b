//! What the library knows of `rust_decimal::Decimal`.
//!
//! A decimal is read as the pair of its signed mantissa and its scale: it
//! denotes `mantissa / 10^scale`. The calls into `rust_decimal` stand here,
//! each behind a function whose contract is believed, not proved: it
//! restates what the crate's source shows of the call.

use vstd::prelude::*;
use rust_decimal::Decimal;

verus! {

/// `rust_decimal::Decimal`, carried through as an opaque value.
#[verifier::external_type_specification]
#[verifier::external_body]
pub struct ExDecimal(rust_decimal::Decimal);

/// What `Decimal::mantissa` returns: the signed integer whose digits the
/// decimal holds.
pub uninterp spec fn decimal_mantissa(d: Decimal) -> int;

/// What `Decimal::scale` returns: how many of the mantissa's digits stand
/// behind the decimal point.
pub uninterp spec fn decimal_scale(d: Decimal) -> nat;

/// What `Decimal::from_str` makes of a text: the mantissa and scale of the
/// decimal it parses to, or `None` where it reports an error.
pub uninterp spec fn parsed_decimal(text: Seq<char>) -> Option<(int, nat)>;

/// Ten to the power `e`.
pub open spec fn pow10(e: nat) -> int
    decreases e,
{
    if e == 0 {
        1
    } else {
        10 * pow10((e - 1) as nat)
    }
}

/// The number denoted by mantissa `m1` at scale `s1` is strictly below the
/// one denoted by `m2` at scale `s2`.
pub open spec fn value_lt(m1: int, s1: nat, m2: int, s2: nat) -> bool {
    m1 * pow10(s2) < m2 * pow10(s1)
}

/// Decimal `a` denotes a strictly greater number than decimal `b`.
pub open spec fn decimal_gt(a: Decimal, b: Decimal) -> bool {
    value_lt(decimal_mantissa(b), decimal_scale(b), decimal_mantissa(a), decimal_scale(a))
}

/// The mantissa and scale of a decimal, as one value.
pub open spec fn decimal_parts(d: Decimal) -> (int, nat) {
    (decimal_mantissa(d), decimal_scale(d))
}

/// Calls `Decimal::mantissa`. Trusted: the result is the decimal's mantissa.
#[verifier::external_body]
pub(crate) fn mantissa_of(d: &Decimal) -> (m: i128)
    ensures
        m == decimal_mantissa(*d),
{
    d.mantissa()
}

/// Calls `Decimal::scale`. Trusted: the result is the decimal's scale.
#[verifier::external_body]
pub(crate) fn scale_of(d: &Decimal) -> (s: u32)
    ensures
        s == decimal_scale(*d),
{
    d.scale()
}

/// Calls `Decimal::is_zero`. Trusted: a decimal is zero exactly when its
/// mantissa is, whatever its scale and sign.
#[verifier::external_body]
pub(crate) fn is_zero(d: &Decimal) -> (z: bool)
    ensures
        z == (decimal_mantissa(*d) == 0),
{
    d.is_zero()
}

/// Calls `>` of `Decimal`'s `PartialOrd`. Trusted: decimals are ordered as
/// the numbers they denote, across different scales.
#[verifier::external_body]
pub(crate) fn exceeds(a: &Decimal, b: &Decimal) -> (g: bool)
    ensures
        g == decimal_gt(*a, *b),
{
    a > b
}

/// Calls `Decimal::from_u32` of `FromPrimitive`. Trusted: every `u32` has a
/// decimal, with the integer as mantissa at scale 0.
#[verifier::external_body]
pub(crate) fn decimal_from_u32(n: u32) -> (r: Option<Decimal>)
    ensures
        r is Some,
        decimal_parts(r->Some_0) == (n as int, 0nat),
{
    rust_decimal::prelude::FromPrimitive::from_u32(n)
}

/// Calls `Decimal::from_u64` of `FromPrimitive`. Trusted: every `u64` has a
/// decimal, with the integer as mantissa at scale 0.
#[verifier::external_body]
pub(crate) fn decimal_from_u64(n: u64) -> (r: Option<Decimal>)
    ensures
        r is Some,
        decimal_parts(r->Some_0) == (n as int, 0nat),
{
    rust_decimal::prelude::FromPrimitive::from_u64(n)
}

/// Calls `Decimal::from_i32` of `FromPrimitive`. Trusted: every `i32` has a
/// decimal, with the integer as mantissa at scale 0.
#[verifier::external_body]
pub(crate) fn decimal_from_i32(n: i32) -> (r: Option<Decimal>)
    ensures
        r is Some,
        decimal_parts(r->Some_0) == (n as int, 0nat),
{
    rust_decimal::prelude::FromPrimitive::from_i32(n)
}

/// Calls `Decimal::from` on an `i64`. Trusted: the result has the integer as
/// mantissa at scale 0.
#[verifier::external_body]
pub(crate) fn decimal_from_i64(n: i64) -> (d: Decimal)
    ensures
        decimal_parts(d) == (n as int, 0nat),
{
    Decimal::from(n)
}

/// Calls `Decimal::from_str`. Trusted: only that the outcome is a function of
/// the text, named `parsed_decimal`.
#[verifier::external_body]
pub(crate) fn decimal_from_text(text: &str) -> (r: Option<Decimal>)
    ensures
        match r {
            Some(d) => parsed_decimal(text@) == Some(decimal_parts(d)),
            None => parsed_decimal(text@) is None,
        },
{
    match <Decimal as std::str::FromStr>::from_str(text) {
        Ok(d) => Some(d),
        Err(_) => None,
    }
}

} // verus!
