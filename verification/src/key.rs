//! Price keys: decimal prices quantized to integers at a fixed number of
//! fractional digits.

use vstd::prelude::*;
use vstd::arithmetic::div_mod::{lemma_fundamental_div_mod, lemma_fundamental_div_mod_converse};
use rust_decimal::Decimal;
use crate::decimal::{decimal_mantissa, decimal_scale, mantissa_of, scale_of, pow10, value_lt};

verus! {

/// The integer a price is ordered and found by.
#[derive(Debug, Clone, Copy, Default, PartialEq, Eq, PartialOrd, Ord)]
pub struct PriceKey(pub i64);

/// A price that, scaled to the configured digits, has no key in `i64`.
#[derive(Debug, Clone, Copy, PartialEq, Eq)]
pub struct QuantizationError;

impl QuantizationError {
    /// The text that describes the failure.
    pub fn message(&self) -> (text: &'static str)
        ensures
            text@ == "Conversion to i64 failed"@,
    {
        "Conversion to i64 failed"
    }
}

/// The price `mantissa / 10^scale` scaled by `10^digits` and rounded towards
/// negative infinity.
pub open spec fn quantized(mantissa: int, scale: nat, digits: nat) -> int {
    (mantissa * pow10(digits)) / pow10(scale)
}

/// The key of a decimal price at `digits` fractional digits, where it fits
/// in an `i64`.
pub open spec fn quantize_spec(price: Decimal, digits: u32) -> Option<i64> {
    let q = quantized(decimal_mantissa(price), decimal_scale(price), digits as nat);
    if i64::MIN <= q <= i64::MAX {
        Some(q as i64)
    } else {
        None
    }
}

/// Powers of ten are positive.
pub proof fn lemma_pow10_positive(e: nat)
    ensures
        pow10(e) >= 1,
    decreases e,
{
    if e > 0 {
        lemma_pow10_positive((e - 1) as nat);
    }
}

/// Powers of ten multiply as their exponents add.
pub proof fn lemma_pow10_add(a: nat, b: nat)
    ensures
        pow10(a + b) == pow10(a) * pow10(b),
    decreases a,
{
    if a == 0 {
        assert(pow10(0) == 1);
    } else {
        lemma_pow10_add((a - 1) as nat, b);
        assert(pow10(a + b) == 10 * pow10((a + b - 1) as nat));
        assert(pow10(a) == 10 * pow10((a - 1) as nat));
        assert(10 * (pow10((a - 1) as nat) * pow10(b)) == (10 * pow10((a - 1) as nat)) * pow10(b))
            by (nonlinear_arith);
    }
}

/// Powers of ten grow with the exponent.
pub proof fn lemma_pow10_monotonic(a: nat, b: nat)
    requires
        a <= b,
    ensures
        pow10(a) <= pow10(b),
{
    lemma_pow10_add(a, (b - a) as nat);
    lemma_pow10_positive(a);
    lemma_pow10_positive((b - a) as nat);
    assert(pow10(a) * 1 <= pow10(a) * pow10((b - a) as nat)) by (nonlinear_arith)
        requires
            pow10(a) >= 1,
            pow10((b - a) as nat) >= 1,
    ;
}

proof fn lemma_pow10_values()
    ensures
        pow10(19) == 10000000000000000000,
        pow10(38) == 100000000000000000000000000000000000000,
{
    reveal_with_fuel(pow10, 20);
    assert(pow10(19) == 10000000000000000000);
    lemma_pow10_add(19, 19);
    assert(10000000000000000000int * 10000000000000000000int
        == 100000000000000000000000000000000000000int) by (nonlinear_arith);
}

/// With at least as many digits as the scale, quantizing multiplies the
/// mantissa by the power of ten between them.
pub proof fn lemma_quantized_scale_up(mantissa: int, scale: nat, digits: nat)
    requires
        scale <= digits,
    ensures
        quantized(mantissa, scale, digits) == mantissa * pow10((digits - scale) as nat),
{
    let up = pow10((digits - scale) as nat);
    let d = pow10(scale);
    lemma_pow10_add(scale, (digits - scale) as nat);
    lemma_pow10_positive(scale);
    assert(mantissa * (d * up) == (mantissa * up) * d + 0) by (nonlinear_arith);
    lemma_fundamental_div_mod_converse(mantissa * pow10(digits), d, mantissa * up, 0);
}

/// With fewer digits than the scale, quantizing divides the mantissa by the
/// power of ten between them, rounding down.
pub proof fn lemma_quantized_scale_down(mantissa: int, scale: nat, digits: nat)
    requires
        digits < scale,
    ensures
        quantized(mantissa, scale, digits) == mantissa / pow10((scale - digits) as nat),
{
    let down = pow10((scale - digits) as nat);
    let c = pow10(digits);
    lemma_pow10_add(digits, (scale - digits) as nat);
    lemma_pow10_positive(digits);
    lemma_pow10_positive((scale - digits) as nat);
    let q = mantissa / down;
    let r = mantissa % down;
    lemma_fundamental_div_mod(mantissa, down);
    assert(0 <= r < down);
    assert(mantissa * c == q * (c * down) + r * c && 0 <= r * c < c * down) by (nonlinear_arith)
        requires
            mantissa == down * q + r,
            0 <= r < down,
            c >= 1,
    ;
    lemma_fundamental_div_mod_converse(mantissa * c, c * down, q, r * c);
}

/// A key at `digits` fractional digits denotes its price exactly when the
/// price has no more fractional digits than that: the key over `10^digits`
/// is the same number as the mantissa over `10^scale`.
pub proof fn lemma_quantize_round_trip(mantissa: int, scale: nat, digits: nat)
    requires
        scale <= digits,
    ensures
        quantized(mantissa, scale, digits) * pow10(scale) == mantissa * pow10(digits),
{
    lemma_quantized_scale_up(mantissa, scale, digits);
    lemma_pow10_add(scale, (digits - scale) as nat);
    let up = pow10((digits - scale) as nat);
    let d = pow10(scale);
    assert((mantissa * up) * d == mantissa * (d * up)) by (nonlinear_arith);
}

/// Keys order prices: of two prices quantized at the same digits, the one
/// with the smaller key is the smaller number.
pub proof fn lemma_key_order_is_price_order(m1: int, s1: nat, m2: int, s2: nat, digits: nat)
    requires
        quantized(m1, s1, digits) < quantized(m2, s2, digits),
    ensures
        value_lt(m1, s1, m2, s2),
{
    let c = pow10(digits);
    let d1 = pow10(s1);
    let d2 = pow10(s2);
    lemma_pow10_positive(digits);
    lemma_pow10_positive(s1);
    lemma_pow10_positive(s2);
    let k1 = (m1 * c) / d1;
    let k2 = (m2 * c) / d2;
    lemma_fundamental_div_mod(m1 * c, d1);
    lemma_fundamental_div_mod(m2 * c, d2);
    let r1 = (m1 * c) % d1;
    let r2 = (m2 * c) % d2;
    assert(0 <= r1 < d1 && 0 <= r2 < d2);
    assert((m1 * c) * d2 < (m2 * c) * d1) by (nonlinear_arith)
        requires
            m1 * c == d1 * k1 + r1,
            m2 * c == d2 * k2 + r2,
            0 <= r1 < d1,
            0 <= r2 < d2,
            k1 + 1 <= k2,
    ;
    assert(m1 * d2 < m2 * d1) by (nonlinear_arith)
        requires
            (m1 * c) * d2 < (m2 * c) * d1,
            c >= 1,
    ;
}

/// Ten to the power `e`, for the exponents whose power fits.
fn power_of_ten(e: u32) -> (p: i128)
    requires
        e <= 38,
    ensures
        p == pow10(e as nat),
{
    let mut p: i128 = 1;
    let mut i: u32 = 0;
    while i < e
        invariant
            i <= e <= 38,
            p == pow10(i as nat),
        decreases e - i,
    {
        proof {
            lemma_pow10_monotonic((i + 1) as nat, 38);
            lemma_pow10_values();
            assert(pow10((i + 1) as nat) == 10 * pow10(i as nat));
            assert(p * 10 <= 100000000000000000000000000000000000000);
            assert(p * 10 >= 0) by {
                lemma_pow10_positive(i as nat);
            }
        }
        p = p * 10;
        i = i + 1;
    }
    p
}

/// The key for an integer that was computed as the quantized price.
fn key_in_range(q: i128) -> (r: Result<PriceKey, QuantizationError>)
    ensures
        i64::MIN <= q <= i64::MAX ==> r == Ok::<PriceKey, QuantizationError>(PriceKey(q as i64)),
        !(i64::MIN <= q <= i64::MAX) ==> r is Err,
{
    if q < -9223372036854775808 || q > 9223372036854775807 {
        Err(QuantizationError)
    } else {
        Ok(PriceKey(q as i64))
    }
}

/// Quantizes a decimal price: scales it by `10^digits`, rounds towards
/// negative infinity, and fails where the result has no place in an `i64`.
pub fn quantize(price: Decimal, digits: u32) -> (r: Result<PriceKey, QuantizationError>)
    ensures
        match quantize_spec(price, digits) {
            Some(k) => r == Ok::<PriceKey, QuantizationError>(PriceKey(k)),
            None => r is Err,
        },
{
    let m: i128 = mantissa_of(&price);
    let s: u32 = scale_of(&price);
    if m == 0 {
        proof {
            lemma_pow10_positive(s as nat);
            assert(0 * pow10(digits as nat) == 0);
            lemma_fundamental_div_mod_converse(0, pow10(s as nat), 0, 0);
        }
        return Ok(PriceKey(0));
    }
    if digits >= s {
        let e: u32 = digits - s;
        proof {
            lemma_quantized_scale_up(m as int, s as nat, digits as nat);
            lemma_pow10_positive(e as nat);
            lemma_pow10_values();
        }
        if m < -9223372036854775808 || m > 9223372036854775807 {
            proof {
                let p = pow10(e as nat);
                assert(m > 9223372036854775807 ==> m * p > 9223372036854775807) by (nonlinear_arith)
                    requires p >= 1;
                assert(m < -9223372036854775808 ==> m * p < -9223372036854775808) by (nonlinear_arith)
                    requires p >= 1;
            }
            return Err(QuantizationError);
        }
        if e > 18 {
            proof {
                let p = pow10(e as nat);
                lemma_pow10_monotonic(19, e as nat);
                assert(m >= 1 ==> m * p > 9223372036854775807) by (nonlinear_arith)
                    requires p >= 10000000000000000000;
                assert(m <= -1 ==> m * p < -9223372036854775808) by (nonlinear_arith)
                    requires p >= 10000000000000000000;
            }
            return Err(QuantizationError);
        }
        let p: i128 = power_of_ten(e);
        proof {
            lemma_pow10_monotonic(e as nat, 19);
            assert(-92233720368547758080000000000000000000 <= m * p
                <= 92233720368547758080000000000000000000) by (nonlinear_arith)
                requires
                    -9223372036854775808 <= m <= 9223372036854775807,
                    1 <= p <= 10000000000000000000,
            ;
        }
        key_in_range(m * p)
    } else {
        let e: u32 = s - digits;
        proof {
            lemma_quantized_scale_down(m as int, s as nat, digits as nat);
            lemma_pow10_positive(e as nat);
            lemma_pow10_values();
        }
        if e > 38 {
            proof {
                let p = pow10(e as nat);
                lemma_pow10_monotonic(39, e as nat);
                assert(pow10(39) == 10 * pow10(38));
                if m > 0 {
                    lemma_fundamental_div_mod_converse(m as int, p, 0, m as int);
                } else {
                    lemma_fundamental_div_mod_converse(m as int, p, -1, m + p);
                }
            }
            return if m > 0 { Ok(PriceKey(0)) } else { Ok(PriceKey(-1)) };
        }
        let p: i128 = power_of_ten(e);
        if m > 0 {
            let q: i128 = ((m as u128) / (p as u128)) as i128;
            key_in_range(q)
        } else {
            let n: i128 = -(m + 1);
            let t: i128 = ((n as u128) / (p as u128)) as i128;
            proof {
                let tq = n as int / p as int;
                let tr = n as int % p as int;
                lemma_fundamental_div_mod(n as int, p as int);
                assert(m == (-tq - 1) * p + (p - tr - 1)) by (nonlinear_arith)
                    requires n == p * tq + tr, n == -(m + 1);
                lemma_fundamental_div_mod_converse(m as int, p as int, -tq - 1, p - tr - 1);
            }
            key_in_range(-1 - t)
        }
    }
}

} // verus!
