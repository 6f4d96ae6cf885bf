//! The marginal fill function: how much input a price-taking allocator
//! would add to a single constant-product pool so that the pool's marginal
//! exchange rate (ignoring fees) drops to a given threshold.
//!
//! From the constant-product invariant, the input level x' at which the
//! marginal rate equals lambda is floor(sqrt(y * PRICE_SCALE * x / lambda)),
//! and the fill is whatever of that lies above the current reserve.

use vstd::prelude::*;

use crate::PoolError;
use crate::arith::mul_div;
use crate::arith::isqrt;
use crate::arith::sqrt_floor;
use crate::arith::lemma_sqrt_floor_bounds;
use crate::arith::lemma_sqrt_floor_monotone;

verus! {

/// The fixed scale of the price threshold: the largest half-width value,
/// chosen so that the intermediate product stays within the wide domain.
pub const PRICE_SCALE: u64 = 4294967295;

/// The input amount a pool with reserves (x, y) absorbs at threshold
/// lambda. At lambda zero no finite fill reaches the rate, so the fill is
/// defined as zero.
pub open spec fn fill_spec(x: int, y: int, lambda: int) -> int {
    if lambda <= 0 {
        0
    } else {
        let s = sqrt_floor(y * PRICE_SCALE * x / lambda);
        if s <= x {
            0
        } else {
            s - x
        }
    }
}

/// Whether the fill at threshold lambda can be computed within the working
/// width: the scaled output reserve and the quotient under the root must
/// both fit 64 bits.
pub open spec fn fill_ok(x: int, y: int, lambda: int) -> bool {
    lambda <= 0 || (y * PRICE_SCALE <= u64::MAX && y * PRICE_SCALE * x / lambda <= u64::MAX)
}

/// A pool small enough that its fill can be computed at every positive
/// threshold.
pub open spec fn pool_small(x: int, y: int) -> bool {
    y * PRICE_SCALE <= u64::MAX && y * PRICE_SCALE * x <= u64::MAX
}

/// For a small pool the fill computation succeeds at every threshold.
pub proof fn lemma_pool_small_fill_ok(x: int, y: int, lambda: int)
    requires
        0 <= x,
        0 <= y,
        0 <= lambda,
        pool_small(x, y),
    ensures
        fill_ok(x, y, lambda),
{
    if lambda >= 1 {
        vstd::arithmetic::div_mod::lemma_div_nonincreasing(y * PRICE_SCALE * x, lambda);
        assert(y * PRICE_SCALE * x >= 0) by (nonlinear_arith)
            requires
                x >= 0,
                y >= 0,
        ;
    }
}

/// The marginal fill of one pool at threshold lambda, or `Overflow` where
/// an intermediate value leaves the working width.
pub fn marginal_fill(x: u64, y: u64, lambda: u64) -> (r: Result<u64, PoolError>)
    ensures
        fill_ok(x as int, y as int, lambda as int) ==> (r matches Ok(v) && v == fill_spec(
            x as int,
            y as int,
            lambda as int,
        )),
        !fill_ok(x as int, y as int, lambda as int) ==> r == Err::<u64, PoolError>(
            PoolError::Overflow,
        ),
{
    if lambda == 0 {
        return Ok(0u64);
    }
    proof {
        assert((y as int) * (PRICE_SCALE as int) <= u128::MAX) by (nonlinear_arith)
            requires
                y <= u64::MAX,
                PRICE_SCALE == 4294967295,
        ;
    }
    let ys_wide: u128 = (y as u128) * (PRICE_SCALE as u128);
    if ys_wide > u64::MAX as u128 {
        return Err(PoolError::Overflow);
    }
    let ys: u64 = ys_wide as u64;
    match mul_div(ys, x, lambda) {
        Err(e) => Err(e),
        Ok(k) => {
            proof {
                assert(k == y * PRICE_SCALE * x / (lambda as int));
            }
            let s = isqrt(k);
            if s <= x {
                Ok(0u64)
            } else {
                Ok(s - x)
            }
        },
    }
}

/// A small pool's fill fits the working width at every threshold.
pub proof fn lemma_fill_spec_in_range(x: int, y: int, lambda: int)
    requires
        0 <= x,
        0 <= y,
        pool_small(x, y),
    ensures
        0 <= fill_spec(x, y, lambda) <= u64::MAX,
{
    if lambda >= 1 {
        let p = y * PRICE_SCALE * x;
        assert(y * PRICE_SCALE * x >= 0) by (nonlinear_arith)
            requires
                x >= 0,
                y >= 0,
                PRICE_SCALE >= 0,
        ;
        vstd::arithmetic::div_mod::lemma_div_pos_is_pos(p, lambda);
        vstd::arithmetic::div_mod::lemma_div_nonincreasing(p, lambda);
        let k = p / lambda;
        lemma_sqrt_floor_bounds(k);
        let s = sqrt_floor(k);
        if s >= 1 {
            assert(s <= s * s) by (nonlinear_arith)
                requires
                    s >= 1,
            ;
        }
    }
}

/// The equal-marginal-price character of the fill. The scaled marginal
/// rate of a pool after a fill f is y * PRICE_SCALE * x over the square of
/// the post-trade reserve x + f. At a positive fill that rate reaches the
/// threshold lambda within the quantization of one input unit: lambda lies
/// between the rates one unit above and at the fill. At a zero fill the
/// pool's rate already sits at or below lambda within the same one-unit
/// tolerance. Since every pool is filled against one common lambda, the
/// active pools' marginal rates agree to that tolerance.
pub proof fn lemma_fill_at_threshold(x: int, y: int, lambda: int)
    requires
        1 <= lambda,
        0 <= x,
        0 <= y,
    ensures
        ({
            let f = fill_spec(x, y, lambda);
            let p = y * PRICE_SCALE * x;
            &&& (f > 0 ==> lambda * ((x + f) * (x + f)) <= p && p < lambda * ((x + f + 1) * (x + f
                + 1)))
            &&& (f == 0 ==> p < lambda * ((x + 1) * (x + 1)))
        }),
{
    let p = y * PRICE_SCALE * x;
    let k = p / lambda;
    assert(y * PRICE_SCALE * x >= 0) by (nonlinear_arith)
        requires
            x >= 0,
            y >= 0,
            PRICE_SCALE >= 0,
    ;
    vstd::arithmetic::div_mod::lemma_div_pos_is_pos(p, lambda);
    vstd::arithmetic::div_mod::lemma_fundamental_div_mod(p, lambda);
    vstd::arithmetic::div_mod::lemma_mod_bound(p, lambda);
    lemma_sqrt_floor_bounds(k);
    let s = sqrt_floor(k);
    // lambda * k <= p < lambda * (k + 1)
    assert(lambda * k <= p && p < lambda * (k + 1)) by (nonlinear_arith)
        requires
            p == lambda * k + p % lambda,
            0 <= p % lambda < lambda,
    ;
    if s <= x {
        assert((s + 1) * (s + 1) <= (x + 1) * (x + 1)) by (nonlinear_arith)
            requires
                0 <= s + 1 <= x + 1,
        ;
        assert(lambda * (k + 1) <= lambda * ((x + 1) * (x + 1))) by (nonlinear_arith)
            requires
                lambda >= 1,
                k + 1 <= (x + 1) * (x + 1),
        ;
    } else {
        let f = s - x;
        assert(lambda * ((x + f) * (x + f)) <= lambda * k) by (nonlinear_arith)
            requires
                lambda >= 1,
                (x + f) * (x + f) <= k,
        ;
        assert(lambda * (k + 1) <= lambda * ((x + f + 1) * (x + f + 1))) by (nonlinear_arith)
            requires
                lambda >= 1,
                k + 1 <= (x + f + 1) * (x + f + 1),
        ;
    }
}

/// The monotonicity invariant the binary search rests on: for positive
/// thresholds, a higher price threshold never yields a larger fill.
pub proof fn lemma_fill_antitone(x: int, y: int, l1: int, l2: int)
    requires
        0 <= x,
        0 <= y,
        1 <= l1 <= l2,
    ensures
        fill_spec(x, y, l2) <= fill_spec(x, y, l1),
{
    let p = y * PRICE_SCALE * x;
    assert(y * PRICE_SCALE * x >= 0) by (nonlinear_arith)
        requires
            x >= 0,
            y >= 0,
            PRICE_SCALE >= 0,
    ;
    vstd::arithmetic::div_mod::lemma_div_is_ordered_by_denominator(p, l1, l2);
    vstd::arithmetic::div_mod::lemma_div_pos_is_pos(p, l2);
    lemma_sqrt_floor_monotone(p / l2, p / l1);
}

} // verus!
