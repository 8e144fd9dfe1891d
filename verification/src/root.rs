//! Integer square roots.

use vstd::prelude::*;

verus! {

/// `s` is the square root of `x`, rounded down.
pub open spec fn is_floor_sqrt(s: int, x: int) -> bool {
    0 <= s && s * s <= x < (s + 1) * (s + 1)
}

/// The square root of a non-negative `x`, rounded down.
pub open spec fn floor_sqrt(x: int) -> int {
    choose|s: int| is_floor_sqrt(s, x)
}

/// A number has at most one rounded-down square root.
pub proof fn lemma_floor_sqrt_unique(s: int, t: int, x: int)
    requires
        is_floor_sqrt(s, x),
        is_floor_sqrt(t, x),
    ensures
        s == t,
{
    if s < t {
        assert((s + 1) * (s + 1) <= t * t) by (nonlinear_arith)
            requires
                0 <= s + 1 <= t,
        ;
    } else if t < s {
        assert((t + 1) * (t + 1) <= s * s) by (nonlinear_arith)
            requires
                0 <= t + 1 <= s,
        ;
    }
}

/// Every non-negative number has a rounded-down square root, and
/// `floor_sqrt` is it.
pub proof fn lemma_floor_sqrt(x: int)
    requires
        0 <= x,
    ensures
        is_floor_sqrt(floor_sqrt(x), x),
    decreases x,
{
    if x == 0 {
        assert(is_floor_sqrt(0, 0));
    } else {
        lemma_floor_sqrt(x - 1);
        let s = floor_sqrt(x - 1);
        if (s + 1) * (s + 1) <= x {
            assert((s + 1) * (s + 1) == x) by (nonlinear_arith)
                requires
                    (s + 1) * (s + 1) <= x,
                    x - 1 < (s + 1) * (s + 1),
            ;
            assert(x < (s + 2) * (s + 2)) by (nonlinear_arith)
                requires
                    (s + 1) * (s + 1) == x,
                    0 <= s,
            ;
            assert(is_floor_sqrt(s + 1, x));
        } else {
            assert(is_floor_sqrt(s, x));
        }
    }
}

/// Whatever passes for the rounded-down square root of `x` is `floor_sqrt(x)`.
pub proof fn lemma_floor_sqrt_is(s: int, x: int)
    requires
        is_floor_sqrt(s, x),
    ensures
        s == floor_sqrt(x),
{
    assert(0 <= x) by (nonlinear_arith)
        requires
            s * s <= x,
    ;
    lemma_floor_sqrt(x);
    lemma_floor_sqrt_unique(s, floor_sqrt(x), x);
}

/// The square root of `x`, rounded down.
pub fn isqrt(x: u128) -> (s: u64)
    ensures
        s == floor_sqrt(x as int),
{
    // The root lies in `low..high`: bisect until one candidate is left.
    let mut low: u128 = 0;
    let mut high: u128 = 0x1_0000_0000_0000_0000u128;
    assert(x < high * high) by (nonlinear_arith)
        requires
            high == 0x1_0000_0000_0000_0000u128,
            x <= u128::MAX,
    ;
    while high - low > 1
        invariant
            low < high <= 0x1_0000_0000_0000_0000u128,
            low * low <= x < high * high,
        decreases high - low,
    {
        let mid: u128 = low + (high - low) / 2;
        assert(mid * mid <= u128::MAX) by (nonlinear_arith)
            requires
                0 <= mid < 0x1_0000_0000_0000_0000u128,
        ;
        if mid * mid <= x {
            low = mid;
        } else {
            high = mid;
        }
    }
    proof {
        lemma_floor_sqrt_is(low as int, x as int);
    }
    low as u64
}

} // verus!
