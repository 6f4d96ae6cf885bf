//! The wide arithmetic primitive and the exact floor integer square root.
//!
//! `mul_div` computes floor(a * b / d) over 64-bit values by widening the
//! product to 128 bits, dividing there, and narrowing back with an explicit
//! check that nothing above the working width is lost.

use vstd::prelude::*;

use crate::PoolError;

verus! {

/// floor(a * b / d) over the mathematical integers.
pub open spec fn mul_div_spec(a: int, b: int, d: int) -> int {
    (a * b) / d
}

/// Narrows a wide intermediate back to the working width, treating a value
/// with non-zero high bits as an unrecoverable overflow.
fn narrow_wide(q: u128) -> (r: Result<u64, PoolError>)
    ensures
        q <= u64::MAX ==> r == Ok::<u64, PoolError>(q as u64),
        q > u64::MAX ==> r == Err::<u64, PoolError>(PoolError::Overflow),
{
    if q > u64::MAX as u128 {
        Err(PoolError::Overflow)
    } else {
        Ok(q as u64)
    }
}

/// Computes floor(a * b / d) exactly, even when a * b exceeds the working
/// width. Fails with `DivisionByZero` when d is zero and with `Overflow`
/// when the true quotient does not fit 64 bits.
pub fn mul_div(a: u64, b: u64, d: u64) -> (r: Result<u64, PoolError>)
    ensures
        d == 0 ==> r == Err::<u64, PoolError>(PoolError::DivisionByZero),
        d != 0 && mul_div_spec(a as int, b as int, d as int) <= u64::MAX ==> (r matches Ok(v)
            && v == mul_div_spec(a as int, b as int, d as int)),
        d != 0 && mul_div_spec(a as int, b as int, d as int) > u64::MAX ==> r == Err::<
            u64,
            PoolError,
        >(PoolError::Overflow),
{
    if d == 0 {
        return Err(PoolError::DivisionByZero);
    }
    proof {
        assert((a as int) * (b as int) <= u128::MAX) by (nonlinear_arith)
            requires
                a <= u64::MAX,
                b <= u64::MAX,
        ;
    }
    let q: u128 = (a as u128) * (b as u128) / (d as u128);
    narrow_wide(q)
}

/// The floor of the square root of k: the unique s >= 0 with
/// s * s <= k < (s + 1) * (s + 1).
pub open spec fn sqrt_floor(k: int) -> int
    decreases k,
{
    if k < 1 {
        0
    } else {
        let r = 2 * sqrt_floor(k / 4);
        if (r + 1) * (r + 1) <= k {
            r + 1
        } else {
            r
        }
    }
}

/// `sqrt_floor(k)` really is the floor of the square root of k.
pub proof fn lemma_sqrt_floor_bounds(k: int)
    requires
        k >= 0,
    ensures
        sqrt_floor(k) >= 0,
        sqrt_floor(k) * sqrt_floor(k) <= k,
        (sqrt_floor(k) + 1) * (sqrt_floor(k) + 1) > k,
    decreases k,
{
    if k >= 1 {
        let q = k / 4;
        let m = k % 4;
        vstd::arithmetic::div_mod::lemma_fundamental_div_mod(k, 4);
        vstd::arithmetic::div_mod::lemma_div_pos_is_pos(k, 4);
        lemma_sqrt_floor_bounds(q);
        let r0 = sqrt_floor(q);
        assert((2 * r0) * (2 * r0) <= k) by (nonlinear_arith)
            requires
                r0 * r0 <= q,
                k == 4 * q + m,
                m >= 0,
        ;
        assert((2 * r0 + 2) * (2 * r0 + 2) > k) by (nonlinear_arith)
            requires
                (r0 + 1) * (r0 + 1) > q,
                k == 4 * q + m,
                m < 4,
        ;
    }
}

/// The floor square root is unique: any s in the right bracket is it.
pub proof fn lemma_sqrt_floor_unique(k: int, s: int)
    requires
        k >= 0,
        s >= 0,
        s * s <= k,
        (s + 1) * (s + 1) > k,
    ensures
        s == sqrt_floor(k),
{
    lemma_sqrt_floor_bounds(k);
    let t = sqrt_floor(k);
    if s < t {
        assert((s + 1) * (s + 1) <= t * t) by (nonlinear_arith)
            requires
                0 <= s,
                s + 1 <= t,
        ;
    }
    if t < s {
        assert((t + 1) * (t + 1) <= s * s) by (nonlinear_arith)
            requires
                0 <= t,
                t + 1 <= s,
        ;
    }
}

/// A larger radicand never has a smaller floor square root.
pub proof fn lemma_sqrt_floor_monotone(k1: int, k2: int)
    requires
        0 <= k1 <= k2,
    ensures
        sqrt_floor(k1) <= sqrt_floor(k2),
{
    lemma_sqrt_floor_bounds(k1);
    lemma_sqrt_floor_bounds(k2);
    let s1 = sqrt_floor(k1);
    let s2 = sqrt_floor(k2);
    if s2 < s1 {
        assert((s2 + 1) * (s2 + 1) <= s1 * s1) by (nonlinear_arith)
            requires
                0 <= s2,
                s2 + 1 <= s1,
        ;
    }
}

/// Exact floor integer square root, by binary search on the root.
pub fn isqrt(k: u64) -> (s: u64)
    ensures
        s == sqrt_floor(k as int),
{
    let mut lo: u64 = 0;
    let mut hi: u64 = 4294967296;
    while lo + 1 < hi
        invariant
            lo < hi,
            hi <= 4294967296,
            (lo as int) * (lo as int) <= k as int,
            (hi as int) * (hi as int) > k as int,
        decreases hi - lo,
    {
        let mid = lo + (hi - lo) / 2;
        proof {
            assert((mid as int) * (mid as int) <= u64::MAX) by (nonlinear_arith)
                requires
                    mid <= 4294967295,
            ;
        }
        if mid * mid <= k {
            lo = mid;
        } else {
            hi = mid;
        }
    }
    proof {
        lemma_sqrt_floor_unique(k as int, lo as int);
    }
    lo
}

} // verus!
