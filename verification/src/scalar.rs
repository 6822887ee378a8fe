//! Verified helpers for the `i64` scalar base case: absolute value, truncated
//! division, floor square root, binary exponential and logarithm, and the
//! quarter-turn trigonometric tables.
use vstd::prelude::*;

use crate::model::{
    abs_i, in_i64, lemma_pow2i_bound, lemma_pow2i_pos, lemma_sqrt_floor_unique, log2_floor,
    pow2i, s_acos, s_cos, s_exp, s_sin, sqrt_floor, tdiv,
};

verus! {

/// Absolute value of a scalar, widened so that the minimum value is covered.
pub fn abs_u64(a: i64) -> (r: u64)
    ensures
        r as int == abs_i(a as int),
{
    if a >= 0 {
        a as u64
    } else {
        ((-(a + 1)) as u64) + 1
    }
}

/// Division truncated toward zero, as the original scalar divides.
pub fn tdiv64(a: i64, b: i64) -> (r: i64)
    requires
        b != 0,
        in_i64(tdiv(a as int, b as int)),
    ensures
        r as int == tdiv(a as int, b as int),
{
    let au: u64 = abs_u64(a);
    let bu: u64 = abs_u64(b);
    let q: u64 = au / bu;
    if (a < 0) != (b < 0) {
        if q == 9223372036854775808u64 {
            i64::MIN
        } else {
            -(q as i64)
        }
    } else {
        q as i64
    }
}

/// Floor of the square root of a nonnegative scalar, by bisection.
pub fn isqrt(x: i64) -> (r: i64)
    requires
        x >= 0,
    ensures
        r as int == sqrt_floor(x as nat),
        r >= 0,
{
    let mut low: i64 = 0;
    let mut high: i64 = 3037000500;
    proof {
        assert((3037000500int) * 3037000500 > i64::MAX as int) by (nonlinear_arith);
    }
    while low + 1 < high
        invariant
            0 <= low < high <= 3037000500,
            (low as int) * (low as int) <= x as int,
            (high as int) * (high as int) > x as int,
        decreases high - low,
    {
        let mid = low + (high - low) / 2;
        proof {
            assert((mid as int) * (mid as int) <= (3037000499int) * 3037000499) by (
            nonlinear_arith)
                requires
                    0 <= mid as int <= 3037000499,
            ;
            assert((3037000499int) * 3037000499 <= i64::MAX as int) by (nonlinear_arith);
        }
        if mid * mid <= x {
            low = mid;
        } else {
            high = mid;
        }
    }
    proof {
        lemma_sqrt_floor_unique(x as nat, low as int);
    }
    low
}

/// The base-two power of a small nonnegative scalar; negative arguments give
/// zero by truncation.
pub fn exp2i(x: i64) -> (r: i64)
    requires
        x <= 62,
    ensures
        r as int == s_exp(x as int),
{
    if x < 0 {
        return 0;
    }
    let mut r: i64 = 1;
    let mut k: i64 = 0;
    while k < x
        invariant
            0 <= k <= x <= 62,
            r as int == pow2i(k as int),
        decreases x - k,
    {
        proof {
            lemma_pow2i_pos(k as int);
            assert(2 * pow2i(k as int) == pow2i(k as int + 1));
            lemma_pow2i_bound(k as int + 1);
        }
        r = 2 * r;
        k = k + 1;
    }
    r
}

/// Floor of the base-two logarithm of a positive scalar.
pub fn log2i(x: i64) -> (r: i64)
    requires
        x >= 1,
    ensures
        r as int == log2_floor(x as int),
{
    let mut v: i64 = x;
    let mut r: i64 = 0;
    while v >= 2
        invariant
            1 <= v <= x,
            0 <= r,
            pow2i(r as int) * (v as int) <= x as int,
            log2_floor(x as int) == r as int + log2_floor(v as int),
        decreases v,
    {
        proof {
            lemma_pow2i_pos(r as int);
            assert(tdiv(v as int, 2) == v as int / 2);
            assert(pow2i(r as int + 1) * (v as int / 2) <= pow2i(r as int) * (v as int)) by (
            nonlinear_arith)
                requires
                    pow2i(r as int + 1) == 2 * pow2i(r as int),
                    pow2i(r as int) >= 1,
                    v as int >= 2,
            ;
            assert(r as int <= 62) by {
                if r as int > 62 {
                    lemma_pow2i_bound(62);
                    crate::model::lemma_pow2i_mono(63, r as int);
                    assert(pow2i(63) == 2 * pow2i(62));
                    assert(pow2i(r as int) * (v as int) >= pow2i(r as int) * 1) by (
                    nonlinear_arith)
                        requires
                            pow2i(r as int) >= 1,
                            v as int >= 1,
                    ;
                }
            }
        }
        v = tdiv64(v, 2);
        r = r + 1;
    }
    r
}

/// The quarter-turn cosine of a nonnegative scalar.
pub fn cos4(x: i64) -> (r: i64)
    requires
        x >= 0,
    ensures
        r as int == s_cos(x as int),
{
    let m = (x as u64) % 4;
    proof {
        assert(m as int == (x as int) % 4);
    }
    if m == 0 {
        1
    } else if m == 2 {
        -1
    } else {
        0
    }
}

/// The quarter-turn sine of a nonnegative scalar.
pub fn sin4(x: i64) -> (r: i64)
    requires
        x >= 0,
    ensures
        r as int == s_sin(x as int),
{
    let m = (x as u64) % 4;
    proof {
        assert(m as int == (x as int) % 4);
    }
    if m == 1 {
        1
    } else if m == 3 {
        -1
    } else {
        0
    }
}

/// The quarter-turn arc cosine: zero turns at one, two at minus one, and one
/// quarter turn for everything in between.
pub fn acos3(x: i64) -> (r: i64)
    ensures
        r as int == s_acos(x as int),
{
    if x == 1 {
        0
    } else if x == -1 {
        2
    } else {
        1
    }
}

} // verus!
