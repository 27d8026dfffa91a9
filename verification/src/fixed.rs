//! Exact fixed-point scalars.
//!
//! A coordinate is an `i64` raw value standing for the rational
//! `raw / UNIT`. All geometry in this crate is computed exactly on raw
//! values; the floor and ceiling divisions below are the only rounding
//! steps, and each caller states in its contract which one it uses.

use vstd::prelude::*;
use vstd::arithmetic::div_mod::lemma_fundamental_div_mod;
use vstd::arithmetic::div_mod::lemma_fundamental_div_mod_converse;

verus! {

/// One unit of normalized or display space, as a raw fixed-point value.
pub const UNIT: i64 = 1_000_000;

/// Largest magnitude a stored coordinate may have, as a raw value
/// (4 million units). Keeps every product and sum in this crate inside
/// `i64` / `i128` range.
pub const COORD_LIMIT: i64 = 4_000_000_000_000;

/// Largest image dimension, in pixels, that the mapper accepts.
pub const MAX_DIM: usize = 1_000_000;

/// A raw value small enough to be stored as a coordinate.
pub open spec fn coord_ok(r: int) -> bool {
    -(COORD_LIMIT as int) <= r <= COORD_LIMIT as int
}

/// An image dimension the mapper accepts.
pub open spec fn dim_ok(d: int) -> bool {
    1 <= d <= MAX_DIM as int
}

/// Mathematical floor of `a / d` (Euclidean division for positive `d`).
pub open spec fn floor_div_spec(a: int, d: int) -> int {
    a / d
}

/// Mathematical ceiling of `a / d` for positive `d`.
pub open spec fn ceil_div_spec(a: int, d: int) -> int {
    -((-a) / d)
}

/// Floor division of a possibly negative dividend by a positive divisor.
pub fn floor_div(a: i64, d: i64) -> (r: i64)
    requires
        0 < d,
        -0x4000_0000_0000_0000 < a < 0x4000_0000_0000_0000,
    ensures
        r == floor_div_spec(a as int, d as int),
        -0x4000_0000_0000_0000 <= r < 0x4000_0000_0000_0000,
{
    if a >= 0 {
        let q: u64 = (a as u64) / (d as u64);
        proof {
            lemma_fundamental_div_mod(a as int, d as int);
            assert(q as int <= a as int) by (nonlinear_arith)
                requires
                    q == a as int / d as int,
                    a >= 0,
                    d >= 1,
            ;
        }
        q as i64
    } else {
        let m: u64 = (-a) as u64;
        let q: u64 = m / (d as u64);
        let rem: u64 = m % (d as u64);
        proof {
            lemma_fundamental_div_mod(m as int, d as int);
            assert(q as int <= m as int) by (nonlinear_arith)
                requires
                    q == m as int / d as int,
                    m >= 0,
                    d >= 1,
            ;
        }
        if rem == 0 {
            proof {
                assert(a as int == (-(q as int)) * (d as int) + 0) by (nonlinear_arith)
                    requires
                        m as int == (d as int) * (q as int) + rem as int,
                        rem == 0,
                        a as int == -(m as int),
                ;
                lemma_fundamental_div_mod_converse(a as int, d as int, -(q as int), 0);
            }
            -(q as i64)
        } else {
            proof {
                assert(a as int == (-(q as int) - 1) * (d as int) + (d as int - rem as int))
                    by (nonlinear_arith)
                    requires
                        m as int == (d as int) * (q as int) + rem as int,
                        a as int == -(m as int),
                ;
                lemma_fundamental_div_mod_converse(
                    a as int,
                    d as int,
                    -(q as int) - 1,
                    d - rem,
                );
            }
            -(q as i64) - 1
        }
    }
}

/// Ceiling division of a possibly negative dividend by a positive divisor.
pub fn ceil_div(a: i64, d: i64) -> (r: i64)
    requires
        0 < d,
        -0x4000_0000_0000_0000 < a < 0x4000_0000_0000_0000,
    ensures
        r == ceil_div_spec(a as int, d as int),
{
    let neg = floor_div(-a, d);
    -neg
}

/// Floor division maps `[lo * d, hi * d]` into `[lo, hi]`.
pub proof fn lemma_floor_div_range(a: int, d: int, lo: int, hi: int)
    requires
        0 < d,
        lo * d <= a,
        a <= hi * d,
    ensures
        lo <= floor_div_spec(a, d) <= hi,
{
    lemma_fundamental_div_mod(a, d);
    assert(lo <= a / d <= hi) by (nonlinear_arith)
        requires
            0 < d,
            lo * d <= a,
            a <= hi * d,
            a == d * (a / d) + a % d,
            0 <= a % d < d,
    ;
}

/// Ceiling division maps `[lo * d, hi * d]` into `[lo, hi]`.
pub proof fn lemma_ceil_div_range(a: int, d: int, lo: int, hi: int)
    requires
        0 < d,
        lo * d <= a,
        a <= hi * d,
    ensures
        lo <= ceil_div_spec(a, d) <= hi,
{
    assert((-hi) * d <= -a <= (-lo) * d) by (nonlinear_arith)
        requires
            lo * d <= a <= hi * d,
    ;
    lemma_floor_div_range(-a, d, -hi, -lo);
}

/// Clamp a raw value into `[lo, hi]`.
pub open spec fn clamp_spec(r: int, lo: int, hi: int) -> int {
    if r < lo {
        lo
    } else if r > hi {
        hi
    } else {
        r
    }
}

/// Clamp a raw value into `[lo, hi]`.
pub fn clamp(r: i64, lo: i64, hi: i64) -> (c: i64)
    requires
        lo <= hi,
    ensures
        c == clamp_spec(r as int, lo as int, hi as int),
{
    if r < lo {
        lo
    } else if r > hi {
        hi
    } else {
        r
    }
}

} // verus!
