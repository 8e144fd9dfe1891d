//! Fixed-point numbers.
//!
//! A numeric value of a record is an `i64` that counts millionths: the
//! number 2.5 is held as `2_500_000`. Sums, differences and comparisons of
//! such values are exact. Wherever a quotient has to be brought back to a whole
//! count, it is rounded to the nearest one, a tie going away from zero.
//!
//! Every value is a number. There is no infinity and no not-a-number, so any
//! two values can be compared; what does not fit is reported as an overflow.

use vstd::prelude::*;
use vstd::arithmetic::div_mod::lemma_fundamental_div_mod_converse;

verus! {

/// How many units of a fixed-point value make one.
pub const SCALE: i64 = 1_000_000;

/// Magnitude of an integer.
pub open spec fn magnitude(a: int) -> int {
    if a < 0 {
        -a
    } else {
        a
    }
}

/// `a / b` for a positive `b`, rounded to the nearest integer, a tie going
/// away from zero.
pub open spec fn round_div(a: int, b: int) -> int {
    if a < 0 {
        -((2 * (-a) + b) / (2 * b))
    } else {
        (2 * a + b) / (2 * b)
    }
}

/// The rounded quotient of a non-negative `a` is the quotient, plus one where
/// the remainder is at least half the divisor.
pub proof fn lemma_round_div_by_remainder(a: int, b: int)
    requires
        0 <= a,
        0 < b,
    ensures
        round_div(a, b) == a / b + if 2 * (a % b) >= b { 1int } else { 0int },
{
    let q = a / b;
    let r = a % b;
    assert(a == b * q + r && 0 <= r < b) by {
        vstd::arithmetic::div_mod::lemma_fundamental_div_mod(a, b);
        vstd::arithmetic::div_mod::lemma_mod_bound(a, b);
    }
    if 2 * r >= b {
        assert(2 * a + b == (q + 1) * (2 * b) + (2 * r - b)) by (nonlinear_arith)
            requires
                a == b * q + r,
        ;
        lemma_fundamental_div_mod_converse(2 * a + b, 2 * b, q + 1, 2 * r - b);
    } else {
        assert(2 * a + b == q * (2 * b) + (2 * r + b)) by (nonlinear_arith)
            requires
                a == b * q + r,
        ;
        lemma_fundamental_div_mod_converse(2 * a + b, 2 * b, q, 2 * r + b);
    }
}

/// The rounded quotient is a nearest integer to the exact one: it differs
/// from `a / b` by at most one half. It has the sign of `a`, and negating `a`
/// negates it.
pub proof fn lemma_round_div_is_nearest(a: int, b: int)
    requires
        0 < b,
    ensures
        2 * magnitude(a - round_div(a, b) * b) <= b,
        a >= 0 ==> round_div(a, b) >= 0,
        a <= 0 ==> round_div(a, b) <= 0,
        round_div(-a, b) == -round_div(a, b),
{
    let m = magnitude(a);
    lemma_round_div_by_remainder(m, b);
    let q = m / b;
    let r = m % b;
    assert(m == b * q + r && 0 <= r < b) by {
        vstd::arithmetic::div_mod::lemma_fundamental_div_mod(m, b);
        vstd::arithmetic::div_mod::lemma_mod_bound(m, b);
    }
    assert(q >= 0) by (nonlinear_arith)
        requires
            m == b * q + r,
            0 <= r < b,
            m >= 0,
            b > 0,
    ;
    let p = round_div(m, b);
    assert(2 * magnitude(m - p * b) <= b) by (nonlinear_arith)
        requires
            m == b * q + r,
            0 <= r < b,
            p == q + if 2 * r >= b { 1int } else { 0int },
    ;
    if a < 0 {
        assert(round_div(a, b) == -p);
        assert(a - (-p) * b == -(m - p * b)) by (nonlinear_arith)
            requires
                a == -m,
        ;
    } else if a == 0 {
        assert(round_div(-a, b) == -round_div(a, b));
    } else {
        assert(round_div(-a, b) == -p);
    }
}

/// A rounded quotient lies between any two integers that the exact quotient
/// lies between.
pub proof fn lemma_round_div_bounds(a: int, b: int, lo: int, hi: int)
    requires
        0 < b,
        lo * b <= a <= hi * b,
    ensures
        lo <= round_div(a, b) <= hi,
{
    lemma_round_div_is_nearest(a, b);
    let q = round_div(a, b);
    assert(lo <= q) by (nonlinear_arith)
        requires
            0 < b,
            lo * b <= a,
            2 * magnitude(a - q * b) <= b,
    {
        if q < lo {
            assert((lo - q) * b >= b);
        }
    }
    assert(q <= hi) by (nonlinear_arith)
        requires
            0 < b,
            a <= hi * b,
            2 * magnitude(a - q * b) <= b,
    {
        if q > hi {
            assert((q - hi) * b >= b);
        }
    }
}

/// Computes `round_div(a, b)`.
pub fn round_div_wide(a: i128, b: u128) -> (q: i128)
    requires
        0 < b,
    ensures
        q == round_div(a as int, b as int),
{
    let negative = a < 0;
    let m: u128 = if a == i128::MIN {
        170141183460469231731687303715884105728u128
    } else if negative {
        (-a) as u128
    } else {
        a as u128
    };
    let whole: u128 = m / b;
    let rest: u128 = m % b;
    proof {
        lemma_round_div_by_remainder(m as int, b as int);
        assert(m == b * whole + rest && 0 <= rest < b) by {
            vstd::arithmetic::div_mod::lemma_fundamental_div_mod(m as int, b as int);
            vstd::arithmetic::div_mod::lemma_mod_bound(m as int, b as int);
        }
        assert(rest > 0 ==> 2 * whole <= m) by (nonlinear_arith)
            requires
                m == b * whole + rest,
                0 <= rest < b,
        ;
        assert(whole <= m) by (nonlinear_arith)
            requires
                m == b * whole + rest,
                0 <= rest,
                0 < b,
        ;
    }
    let up = rest >= b - rest;
    let rounded: u128 = if up {
        whole + 1
    } else {
        whole
    };
    if negative {
        if rounded == 170141183460469231731687303715884105728u128 {
            i128::MIN
        } else {
            -(rounded as i128)
        }
    } else {
        rounded as i128
    }
}

/// The whole number nearest to a fixed-point value, a tie going away from
/// zero: 100501.7 gives 100502, and -2.5 gives -3.
pub fn round_to_integer(x: i64) -> (n: i64)
    ensures
        n == round_div(x as int, SCALE as int),
{
    proof {
        lemma_round_div_bounds(x as int, SCALE as int, i64::MIN as int, i64::MAX as int);
    }
    round_div_wide(x as i128, 1_000_000u128) as i64
}

} // verus!
