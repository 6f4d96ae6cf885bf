//! The valuation formula of a constant-product market maker: what a
//! finalized split realizes as output, under a proportional fee expressed
//! in parts per million, and the sum of that over a whole split.

use vstd::prelude::*;

use crate::PoolError;
use crate::arith::mul_div;
use crate::sums::sum64;
use crate::split::optimal_split;
use crate::split::optimal_split_spec;
use crate::split::pools_small;

verus! {

/// The fee denominator: fees are parts per million.
pub const SCALE: u64 = 1000000;

/// The realized output of one pool with reserves (x, y) for input a under
/// fee `fee` ppm: the fee is taken off the input, and the remainder is
/// swapped at the constant-product rate, rounding down. Degenerate input
/// (a zero amount or a zero reserve) yields zero, not an error.
pub open spec fn amount_out_spec(a: int, x: int, y: int, fee: int) -> int {
    if a <= 0 || x <= 0 || y <= 0 {
        0
    } else {
        let e = a * (SCALE - fee) / (SCALE as int);
        (e * y) / (x + e)
    }
}

/// The output never exceeds the output reserve.
pub proof fn lemma_amount_out_le_reserve(a: int, x: int, y: int, fee: int)
    requires
        0 <= a,
        0 <= x,
        0 <= y,
        0 <= fee < SCALE,
    ensures
        0 <= amount_out_spec(a, x, y, fee) <= y,
{
    if a > 0 && x > 0 && y > 0 {
        let e = a * (SCALE - fee) / (SCALE as int);
        assert(a * (SCALE - fee) >= 0) by (nonlinear_arith)
            requires
                a >= 0,
                SCALE - fee >= 0,
        ;
        vstd::arithmetic::div_mod::lemma_div_pos_is_pos(a * (SCALE - fee), SCALE as int);
        assert(e * y >= 0) by (nonlinear_arith)
            requires
                e >= 0,
                y >= 0,
        ;
        vstd::arithmetic::div_mod::lemma_div_pos_is_pos(e * y, x + e);
        assert(e * y <= (x + e) * y) by (nonlinear_arith)
            requires
                e >= 0,
                x >= 0,
                y >= 0,
        ;
        vstd::arithmetic::div_mod::lemma_multiply_divide_le(e * y, x + e, y);
    }
}

/// Ordering of fractions under floor division: a/b <= c/d whenever the
/// cross products are ordered.
proof fn lemma_div_frac_ordered(a: int, b: int, c: int, d: int)
    requires
        0 <= a,
        0 < b,
        0 < d,
        a * d <= c * b,
    ensures
        a / b <= c / d,
{
    let q = a / b;
    vstd::arithmetic::div_mod::lemma_fundamental_div_mod(a, b);
    vstd::arithmetic::div_mod::lemma_mod_bound(a, b);
    assert(q * d <= c) by (nonlinear_arith)
        requires
            b * q + a % b == a,
            a % b >= 0,
            a * d <= c * b,
            b > 0,
            d > 0,
    ;
    vstd::arithmetic::div_mod::lemma_div_multiples_vanish(q, d);
    vstd::arithmetic::div_mod::lemma_div_is_ordered(d * q, c, d);
}

/// The realized output is non-decreasing in the input amount.
pub proof fn lemma_amount_out_monotone(a1: int, a2: int, x: int, y: int, fee: int)
    requires
        0 <= a1 <= a2,
        0 <= x,
        0 <= y,
        0 <= fee < SCALE,
    ensures
        amount_out_spec(a1, x, y, fee) <= amount_out_spec(a2, x, y, fee),
{
    lemma_amount_out_le_reserve(a2, x, y, fee);
    if a1 > 0 && x > 0 && y > 0 {
        let r = SCALE - fee;
        let e1 = a1 * r / (SCALE as int);
        let e2 = a2 * r / (SCALE as int);
        assert(a1 * r <= a2 * r) by (nonlinear_arith)
            requires
                a1 <= a2,
                r >= 0,
        ;
        vstd::arithmetic::div_mod::lemma_div_is_ordered(a1 * r, a2 * r, SCALE as int);
        assert(a1 * r >= 0) by (nonlinear_arith)
            requires
                a1 >= 0,
                r >= 0,
        ;
        vstd::arithmetic::div_mod::lemma_div_pos_is_pos(a1 * r, SCALE as int);
        assert((e1 * y) * (x + e2) <= (e2 * y) * (x + e1)) by (nonlinear_arith)
            requires
                0 <= e1 <= e2,
                0 <= x,
                0 <= y,
        ;
        assert(e1 * y >= 0) by (nonlinear_arith)
            requires
                e1 >= 0,
                y >= 0,
        ;
        lemma_div_frac_ordered(e1 * y, x + e1, e2 * y, x + e2);
    }
}

/// The realized output of one pool, or `ContractViolation` when the fee is
/// a whole unit or more.
pub fn amount_out(amount_in: u64, reserve_in: u64, reserve_out: u64, fee_ppm: u32) -> (r: Result<
    u64,
    PoolError,
>)
    ensures
        fee_ppm >= SCALE ==> r == Err::<u64, PoolError>(PoolError::ContractViolation),
        fee_ppm < SCALE ==> (r matches Ok(v) && v == amount_out_spec(
            amount_in as int,
            reserve_in as int,
            reserve_out as int,
            fee_ppm as int,
        )),
{
    if fee_ppm >= 1000000 {
        return Err(PoolError::ContractViolation);
    }
    if amount_in == 0 || reserve_in == 0 || reserve_out == 0 {
        return Ok(0u64);
    }
    let r_num: u64 = SCALE - (fee_ppm as u64);
    proof {
        assert((amount_in as int) * (r_num as int) <= (SCALE as int) * (amount_in as int))
            by (nonlinear_arith)
            requires
                0 <= amount_in,
                0 <= r_num <= SCALE,
        ;
        vstd::arithmetic::div_mod::lemma_multiply_divide_le(
            (amount_in as int) * (r_num as int),
            SCALE as int,
            amount_in as int,
        );
    }
    let e: u64 = match mul_div(amount_in, r_num, SCALE) {
        Ok(v) => v,
        Err(_) => {
            proof {
                assert(false);
            }
            return Err(PoolError::Overflow);
        },
    };
    if e == 0 {
        return Ok(0u64);
    }
    proof {
        assert((e as int) * (reserve_out as int) <= u128::MAX) by (nonlinear_arith)
            requires
                e <= u64::MAX,
                reserve_out <= u64::MAX,
        ;
    }
    let num_wide: u128 = (e as u128) * (reserve_out as u128);
    let den_wide: u128 = (reserve_in as u128) + (e as u128);
    let q: u128 = num_wide / den_wide;
    proof {
        assert((e as int) * (reserve_out as int) <= ((reserve_in + e) as int) * (
        reserve_out as int)) by (nonlinear_arith)
            requires
                0 <= e,
                0 <= reserve_in,
                0 <= reserve_out,
        ;
        vstd::arithmetic::div_mod::lemma_multiply_divide_le(
            (e as int) * (reserve_out as int),
            (reserve_in + e) as int,
            reserve_out as int,
        );
    }
    Ok(q as u64)
}

/// The sum of `amount_out_spec` over the first i index-aligned pairs.
pub open spec fn total_out_prefix(pools: Seq<(u64, u64)>, split: Seq<u64>, fee: int, i: int) -> int
    decreases i,
{
    if i <= 0 {
        0
    } else {
        total_out_prefix(pools, split, fee, i - 1) + amount_out_spec(
            split[i - 1] as int,
            pools[i - 1].0 as int,
            pools[i - 1].1 as int,
            fee,
        )
    }
}

/// The total realized output of a whole split, summed pairwise by index.
pub open spec fn total_out_spec(pools: Seq<(u64, u64)>, split: Seq<u64>, fee: int) -> int {
    total_out_prefix(pools, split, fee, pools.len() as int)
}

/// An all-zero split realizes no output at all: together with the
/// optimizer's conservation guarantee, a zero trade budget yields a zero
/// split and a zero total output.
pub proof fn lemma_total_out_zero_split(pools: Seq<(u64, u64)>, split: Seq<u64>, fee: int, i: int)
    requires
        0 <= i <= pools.len(),
        i <= split.len(),
        forall|j: int| 0 <= j < split.len() ==> split[j] == 0,
    ensures
        total_out_prefix(pools, split, fee, i) == 0,
    decreases i,
{
    if i > 0 {
        lemma_total_out_zero_split(pools, split, fee, i - 1);
    }
}

/// Values a finalized split: the sum of `amount_out` applied pairwise by
/// index. A split whose length differs from the pool sequence is a caller
/// error; so is a fee of a whole unit or more, as soon as any pair is
/// valued. A sum beyond the working width is an overflow.
pub fn total_output(pools: &Vec<(u64, u64)>, split: &Vec<u64>, fee_ppm: u32) -> (r: Result<
    u64,
    PoolError,
>)
    ensures
        pools@.len() != split@.len() ==> r == Err::<u64, PoolError>(PoolError::ContractViolation),
        pools@.len() == split@.len() && pools@.len() > 0 && fee_ppm >= SCALE ==> r == Err::<
            u64,
            PoolError,
        >(PoolError::ContractViolation),
        pools@.len() == split@.len() && (pools@.len() == 0 || fee_ppm < SCALE) ==> {
            let t = total_out_spec(pools@, split@, fee_ppm as int);
            &&& t <= u64::MAX ==> (r matches Ok(v) && v == t)
            &&& t > u64::MAX ==> r == Err::<u64, PoolError>(PoolError::Overflow)
        },
{
    let n = pools.len();
    if split.len() != n {
        return Err(PoolError::ContractViolation);
    }
    let mut total: u128 = 0;
    let mut i: usize = 0;
    while i < n
        invariant
            n == pools@.len(),
            n == split@.len(),
            0 <= i <= n,
            i > 0 ==> fee_ppm < SCALE,
            total == total_out_prefix(pools@, split@, fee_ppm as int, i as int),
            total <= (i as int) * (u64::MAX as int),
        decreases n - i,
    {
        let (x, y) = pools[i];
        match amount_out(split[i], x, y, fee_ppm) {
            Err(e) => {
                return Err(e);
            },
            Ok(v) => {
                proof {
                    assert(total + v <= ((i + 1) as int) * (u64::MAX as int)) by (nonlinear_arith)
                        requires
                            total <= (i as int) * (u64::MAX as int),
                            v <= u64::MAX,
                    ;
                    assert(((i + 1) as int) * (u64::MAX as int) <= u128::MAX) by (nonlinear_arith)
                        requires
                            0 <= i,
                            i + 1 <= u64::MAX,
                    ;
                }
                total = total + (v as u128);
            },
        }
        i = i + 1;
    }
    if total > u64::MAX as u128 {
        Err(PoolError::Overflow)
    } else {
        Ok(total as u64)
    }
}

/// Orients raw reserve pairs so that the first entry of each pair is the
/// reserve of the asset being sold: pairs are kept as supplied when the
/// input asset is the pair's first asset, and swapped otherwise.
pub open spec fn orient_spec(reserves: Seq<(u64, u64)>, input_first: bool) -> Seq<(u64, u64)> {
    if input_first {
        reserves
    } else {
        reserves.map_values(|p: (u64, u64)| (p.1, p.0))
    }
}

/// The fee, in parts per million, applied at final valuation.
pub const VALUATION_FEE_PPM: u32 = 3000;

/// Orients the supplied reserve pairs, splits the budget optimally across
/// them, and values the split under the standard fee. The caller resolves
/// which asset of each pair is being sold and passes the answer as
/// `input_first`. The only failure is `Overflow`; an `Ok` value is the
/// valuation of a split that conserves the budget exactly, and success is
/// guaranteed whenever every oriented pool is small enough for its fills
/// and the valuation fits the working width.
pub fn calculate_output(reserves: &Vec<(u64, u64)>, input_first: bool, input_amount: u64) -> (r:
    Result<u64, PoolError>)
    requires
        input_amount > 0 ==> reserves@.len() > 0,
    ensures
        pools_small(orient_spec(reserves@, input_first)) && total_out_spec(
            orient_spec(reserves@, input_first),
            optimal_split_spec(orient_spec(reserves@, input_first), input_amount as int),
            VALUATION_FEE_PPM as int,
        ) <= u64::MAX ==> r is Ok,
        r matches Ok(v) ==> ({
            let oriented = orient_spec(reserves@, input_first);
            let split = optimal_split_spec(oriented, input_amount as int);
            &&& split.len() == reserves@.len()
            &&& sum64(split) == input_amount
            &&& v == total_out_spec(oriented, split, VALUATION_FEE_PPM as int)
        }),
        r is Err ==> r == Err::<u64, PoolError>(PoolError::Overflow),
{
    let n = reserves.len();
    let mut oriented: Vec<(u64, u64)> = Vec::new();
    let mut i: usize = 0;
    while i < n
        invariant
            n == reserves@.len(),
            0 <= i <= n,
            oriented@.len() == i,
            forall|j: int| 0 <= j < i ==> oriented@[j] == orient_spec(reserves@, input_first)[j],
        decreases n - i,
    {
        let (r0, r1) = reserves[i];
        if input_first {
            oriented.push((r0, r1));
        } else {
            oriented.push((r1, r0));
        }
        i = i + 1;
    }
    proof {
        assert(oriented@ =~= orient_spec(reserves@, input_first));
    }
    let split = match optimal_split(&oriented, input_amount) {
        Ok(s) => s,
        Err(e) => {
            return Err(e);
        },
    };
    match total_output(&oriented, &split, VALUATION_FEE_PPM) {
        Ok(v) => {
            proof {
                assert(split@.len() == orient_spec(reserves@, input_first).len() && sum64(split@)
                    == input_amount && v == total_out_spec(
                    orient_spec(reserves@, input_first),
                    split@,
                    VALUATION_FEE_PPM as int,
                ));
            }
            Ok(v)
        },
        Err(e) => {
            proof {
                assert(e == PoolError::Overflow);
            }
            Err(e)
        },
    }
}

} // verus!
