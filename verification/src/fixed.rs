//! Fixed-point numbers with nine decimal digits of fraction.
//!
//! Aggregate metrics (identities, average qualities, percentages) are
//! carried as exact integer counts of billionths, so that every arithmetic
//! step has a precise contract. A dedicated flag stands for an undefined
//! result (a zero-by-zero division), which propagates through arithmetic.

use vstd::arithmetic::div_mod::{
    lemma_div_nonincreasing, lemma_div_pos_is_pos, lemma_fundamental_div_mod, lemma_remainder,
};
use vstd::prelude::*;

verus! {

/// Number of fixed-point units per whole unit: nine fractional digits.
pub const SCALE: i128 = 1_000_000_000;

/// A fixed-point number: `units / SCALE`, or the undefined value when
/// `is_nan` is set (in which case `units` is zero).
#[derive(Clone, Copy, Debug, PartialEq, Eq, Structural)]
pub struct Fixed {
    pub units: i128,
    pub is_nan: bool,
}

/// Absolute value of a mathematical integer.
pub open spec fn abs(n: int) -> int {
    if n >= 0 {
        n
    } else {
        -n
    }
}

/// Division truncating toward zero, as floating-point-to-integer
/// truncation does.
pub open spec fn trunc_div(n: int, d: int) -> int
    recommends
        d > 0,
{
    if n >= 0 {
        n / d
    } else {
        -((-n) / d)
    }
}

/// The exact quotient of two integers as a fixed-point value: undefined
/// when the denominator is zero, otherwise `num / den` truncated to nine
/// fractional digits.
pub open spec fn ratio_spec(num: int, den: int) -> Fixed
    recommends
        den >= 0,
{
    if den == 0 {
        Fixed { units: 0, is_nan: true }
    } else {
        Fixed { units: trunc_div(num * SCALE, den) as i128, is_nan: false }
    }
}

/// Fixed-point addition: undefined operands make the sum undefined.
pub open spec fn fixed_add_spec(a: Fixed, b: Fixed) -> Fixed {
    if a.is_nan || b.is_nan {
        Fixed { units: 0, is_nan: true }
    } else {
        Fixed { units: (a.units + b.units) as i128, is_nan: false }
    }
}

/// Powers of ten.
pub open spec fn pow10(e: nat) -> int
    decreases e,
{
    if e == 0 {
        1
    } else {
        10 * pow10((e - 1) as nat)
    }
}

/// Truncation of a fixed-point value to `digits` fractional decimal
/// digits: the digits beyond `digits` are discarded (toward zero), never
/// rounded up. Beyond the nine carried digits the value is unchanged, and
/// the undefined value stays undefined.
pub open spec fn round_spec(v: Fixed, digits: nat) -> Fixed {
    if v.is_nan || digits >= 9 {
        v
    } else {
        Fixed {
            units: (trunc_div(v.units as int, pow10((9 - digits) as nat)) * pow10(
                (9 - digits) as nat,
            )) as i128,
            is_nan: false,
        }
    }
}

/// Truncating division stays within the magnitude of the numerator, and
/// multiplying the quotient back by the divisor stays within it as well.
pub proof fn lemma_trunc_div_bounds(n: int, d: int)
    requires
        d >= 1,
    ensures
        abs(trunc_div(n, d)) <= abs(n),
        abs(trunc_div(n, d) * d) <= abs(n),
        n >= 0 ==> trunc_div(n, d) >= 0,
        n < 0 ==> trunc_div(n, d) <= 0,
{
    let m = if n >= 0 {
        n
    } else {
        -n
    };
    lemma_div_nonincreasing(m, d);
    lemma_div_pos_is_pos(m, d);
    lemma_fundamental_div_mod(m, d);
    lemma_remainder(m, d);
    assert(m / d * d == m - m % d);
    assert(m % d <= m);
    assert((-(m / d)) * d == -(m / d * d)) by (nonlinear_arith);
}

impl Fixed {
    /// Well-formed: the undefined value carries no payload.
    pub open spec fn inv(self) -> bool {
        self.is_nan ==> self.units == 0
    }

    /// The undefined result of a zero-by-zero division.
    pub fn nan() -> (r: Fixed)
        ensures
            r == (Fixed { units: 0, is_nan: true }),
    {
        Fixed { units: 0, is_nan: true }
    }

    /// The fixed-point representation of a small integer.
    pub fn from_int(v: i64) -> (r: Fixed)
        ensures
            r.units == v as int * SCALE as int,
            !r.is_nan,
            r.inv(),
    {
        Fixed { units: (v as i128) * SCALE, is_nan: false }
    }
}

/// Division of `n` by `d`, truncating toward zero.
pub fn trunc_div_i128(n: i128, d: i128) -> (q: i128)
    requires
        d >= 1,
        n > i128::MIN,
    ensures
        q as int == trunc_div(n as int, d as int),
        abs(q as int) <= abs(n as int),
{
    proof {
        lemma_trunc_div_bounds(n as int, d as int);
    }
    if n >= 0 {
        ((n as u128) / (d as u128)) as i128
    } else {
        -((((-n) as u128) / (d as u128)) as i128)
    }
}

/// The exact quotient `num / den` as a fixed-point value; the undefined
/// value when `den` is zero.
pub fn ratio(num: i128, den: i128) -> (r: Fixed)
    requires
        den >= 0,
        -0x1000_0000_0000_0000_0000_0000 <= num <= 0x1000_0000_0000_0000_0000_0000,
    ensures
        r == ratio_spec(num as int, den as int),
        abs(r.units as int) <= abs(num as int) * SCALE as int,
        r.units > i128::MIN,
        r.inv(),
{
    if den == 0 {
        Fixed { units: 0, is_nan: true }
    } else {
        proof {
            lemma_trunc_div_bounds(num as int * SCALE as int, den as int);
            vstd::arithmetic::mul::lemma_mul_inequality(
                abs(num as int),
                0x1000_0000_0000_0000_0000_0000,
                SCALE as int,
            );
            assert(abs(num as int * SCALE as int) == abs(num as int) * SCALE as int)
                by (nonlinear_arith);
        }
        Fixed { units: trunc_div_i128(num * SCALE, den), is_nan: false }
    }
}

/// Fixed-point addition; an undefined operand makes the sum undefined.
pub fn fixed_add(a: Fixed, b: Fixed) -> (r: Fixed)
    requires
        i128::MIN <= a.units + b.units <= i128::MAX,
    ensures
        r == fixed_add_spec(a, b),
        r.inv(),
{
    if a.is_nan || b.is_nan {
        Fixed { units: 0, is_nan: true }
    } else {
        Fixed { units: a.units + b.units, is_nan: false }
    }
}

/// Truncate a fixed-point value to `digits` fractional decimal digits,
/// discarding the digits beyond (truncation toward zero, not rounding to
/// nearest).
pub fn round_to_digit(v: Fixed, digits: u32) -> (r: Fixed)
    requires
        v.units > i128::MIN,
    ensures
        r == round_spec(v, digits as nat),
{
    if v.is_nan || digits >= 9 {
        v
    } else {
        let e: u32 = 9 - digits;
        let d: i128 = pow10_i128(e);
        let q = trunc_div_i128(v.units, d);
        proof {
            lemma_trunc_div_bounds(v.units as int, d as int);
            assert(abs(trunc_div(v.units as int, d as int) * d as int) <= abs(v.units as int));
        }
        Fixed { units: q * d, is_nan: false }
    }
}

/// The first few powers of ten as a machine integer.
pub fn pow10_i128(e: u32) -> (r: i128)
    requires
        e <= 9,
    ensures
        r as int == pow10(e as nat),
        1 <= r <= 1_000_000_000,
{
    proof {
        reveal_with_fuel(pow10, 10);
    }
    if e == 0 {
        1
    } else if e == 1 {
        10
    } else if e == 2 {
        100
    } else if e == 3 {
        1_000
    } else if e == 4 {
        10_000
    } else if e == 5 {
        100_000
    } else if e == 6 {
        1_000_000
    } else if e == 7 {
        10_000_000
    } else if e == 8 {
        100_000_000
    } else {
        1_000_000_000
    }
}

} // verus!
