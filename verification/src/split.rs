//! The water-filling optimizer: a binary search over the price threshold
//! for a split whose aggregate absorption matches the trade budget, plus an
//! exact reconciliation of the remainder, so that the returned split always
//! sums to the budget precisely.

use vstd::prelude::*;

use crate::PoolError;
use crate::fill::fill_ok;
use crate::fill::fill_spec;
use crate::fill::pool_small;
use crate::fill::marginal_fill;
use crate::fill::lemma_pool_small_fill_ok;
use crate::fill::lemma_fill_spec_in_range;
use crate::fill::lemma_fill_at_threshold;
use crate::fill::PRICE_SCALE;
use crate::sums::sum64;
use crate::sums::lemma_sum64_take_succ;
use crate::sums::lemma_sum64_take_all;
use crate::sums::lemma_sum64_update;
use crate::sums::lemma_sum64_elem;
use crate::sums::lemma_sum64_first;

verus! {

/// Every pool's fill can be computed at threshold lambda.
pub open spec fn pools_ok(pools: Seq<(u64, u64)>, lambda: int) -> bool {
    forall|i: int|
        0 <= i < pools.len() ==> #[trigger] fill_ok(pools[i].0 as int, pools[i].1 as int, lambda)
}

/// Every pool is small enough that its fill can be computed at every
/// threshold; on such inputs the optimizer cannot fail.
pub open spec fn pools_small(pools: Seq<(u64, u64)>) -> bool {
    forall|i: int|
        0 <= i < pools.len() ==> #[trigger] pool_small(pools[i].0 as int, pools[i].1 as int)
}

/// The aggregate fill over all pools at threshold lambda.
pub open spec fn total_fill_spec(pools: Seq<(u64, u64)>, lambda: int) -> int
    decreases pools.len(),
{
    if pools.len() == 0 {
        0
    } else {
        total_fill_spec(pools.drop_last(), lambda) + fill_spec(
            pools.last().0 as int,
            pools.last().1 as int,
            lambda,
        )
    }
}

/// What makes the binary search valid: the aggregate fill is non-increasing
/// in the threshold, so raising the floor when demand exceeds the budget
/// and lowering the ceiling otherwise brackets the budget-matching
/// threshold.
pub proof fn lemma_total_fill_antitone(pools: Seq<(u64, u64)>, l1: int, l2: int)
    requires
        1 <= l1 <= l2,
    ensures
        total_fill_spec(pools, l2) <= total_fill_spec(pools, l1),
    decreases pools.len(),
{
    if pools.len() > 0 {
        lemma_total_fill_antitone(pools.drop_last(), l1, l2);
        crate::fill::lemma_fill_antitone(pools.last().0 as int, pools.last().1 as int, l1, l2);
    }
}

/// One step of the threshold search: when the aggregate fill at the
/// midpoint exceeds the budget the floor rises, otherwise the ceiling
/// drops.
pub open spec fn search_step_spec(pools: Seq<(u64, u64)>, amount: int, lo: int, hi: int) -> (
    int,
    int,
) {
    let mid = (lo + hi) / 2;
    if total_fill_spec(pools, mid) > amount {
        (mid, hi)
    } else {
        (lo, mid)
    }
}

/// The bounds after n search steps.
pub open spec fn search_spec(pools: Seq<(u64, u64)>, amount: int, lo: int, hi: int, n: nat) -> (
    int,
    int,
)
    decreases n,
{
    if n == 0 {
        (lo, hi)
    } else {
        let st = search_step_spec(pools, amount, lo, hi);
        search_spec(pools, amount, st.0, st.1, (n - 1) as nat)
    }
}

/// The threshold the optimizer settles on: the ceiling after 256 search
/// steps over [0, half the maximum representable value].
pub open spec fn lambda_spec(pools: Seq<(u64, u64)>, amount: int) -> int {
    search_spec(pools, amount, 0, u64::MAX as int / 2, 256).1
}

/// The fills of all pools at the settled threshold, before the remainder
/// is reconciled.
pub open spec fn raw_split_spec(pools: Seq<(u64, u64)>, amount: int) -> Seq<u64> {
    Seq::new(
        pools.len(),
        |i: int| fill_spec(pools[i].0 as int, pools[i].1 as int, lambda_spec(pools, amount)) as u64,
    )
}

/// The split the optimizer returns on success: the raw fills at the
/// settled threshold, reconciled exactly: a shortfall lands whole on the
/// first largest fill, a surplus is drained one unit at a time in cycling
/// index order.
pub open spec fn optimal_split_spec(pools: Seq<(u64, u64)>, amount: int) -> Seq<u64> {
    let raw = raw_split_spec(pools, amount);
    if sum64(raw) < amount {
        raw.update(first_max_index(raw), (raw[first_max_index(raw)] + amount - sum64(raw)) as u64)
    } else if sum64(raw) > amount {
        drain_spec(raw, sum64(raw) - amount)
    } else {
        raw
    }
}

/// The KKT / equal-marginal-price law of the returned split, stated of
/// the inputs on which the search lands exactly, so that no remainder
/// correction is applied, and the threshold settles positive. There the
/// split is the raw fills, and for every pool the scaled marginal rate
/// y * PRICE_SCALE * x over the square of the post-trade input reserve
/// meets the one common threshold within the rounding of a single input
/// unit: an active pool's rate brackets the threshold between its
/// allocation and one unit more, and an idle pool's rate at zero
/// allocation already sits at or below it within the same unit. The
/// remainder corrections deliberately distort marginal prices (a whole
/// shortfall lands on one pool), so the law does not cover those inputs;
/// at a zero threshold every fill is zero by definition and no rate claim
/// is made.
pub proof fn lemma_optimal_split_kkt(pools: Seq<(u64, u64)>, amount: int, i: int)
    requires
        0 <= i < pools.len(),
        pools_small(pools),
        lambda_spec(pools, amount) >= 1,
        sum64(raw_split_spec(pools, amount)) == amount,
    ensures
        ({
            let split = optimal_split_spec(pools, amount);
            let lam = lambda_spec(pools, amount);
            let x = pools[i].0 as int;
            let y = pools[i].1 as int;
            let f = split[i] as int;
            let rate_num = y * PRICE_SCALE * x;
            &&& split[i] == fill_spec(x, y, lam)
            &&& (f > 0 ==> lam * ((x + f) * (x + f)) <= rate_num && rate_num < lam * ((x + f + 1)
                * (x + f + 1)))
            &&& (f == 0 ==> rate_num < lam * ((x + 1) * (x + 1)))
        }),
{
    let lam = lambda_spec(pools, amount);
    let x = pools[i].0 as int;
    let y = pools[i].1 as int;
    lemma_fill_spec_in_range(x, y, lam);
    lemma_fill_at_threshold(x, y, lam);
}

/// The first index holding the maximum of s (0 for an empty sequence).
pub open spec fn first_max_index(s: Seq<u64>) -> int
    decreases s.len(),
{
    if s.len() <= 1 {
        0
    } else {
        let p = first_max_index(s.drop_last());
        if s.last() > s[p] {
            s.len() - 1
        } else {
            p
        }
    }
}

/// One cycling pass of the surplus removal: left to right, every entry
/// still holding units gives one up while surplus remains.
pub open spec fn drain_pass_spec(s: Seq<u64>, rem: int) -> (Seq<u64>, int)
    decreases s.len(),
{
    if s.len() == 0 {
        (s, rem)
    } else if rem > 0 && s[0] > 0 {
        let rec = drain_pass_spec(s.drop_first(), rem - 1);
        (seq![(s[0] - 1) as u64] + rec.0, rec.1)
    } else {
        let rec = drain_pass_spec(s.drop_first(), rem);
        (seq![s[0]] + rec.0, rec.1)
    }
}

/// A pass keeps the length, never removes more than the surplus, removes
/// exactly what the surplus loses, and makes progress whenever there is
/// surplus and anything left to remove it from.
proof fn lemma_drain_pass_props(s: Seq<u64>, rem: int)
    requires
        rem >= 0,
    ensures
        ({
            let p = drain_pass_spec(s, rem);
            &&& p.0.len() == s.len()
            &&& 0 <= p.1 <= rem
            &&& sum64(p.0) == sum64(s) - (rem - p.1)
            &&& (rem > 0 && sum64(s) > 0 ==> p.1 < rem)
        }),
    decreases s.len(),
{
    if s.len() > 0 {
        lemma_sum64_first(s);
        let p = drain_pass_spec(s, rem);
        if rem > 0 && s[0] > 0 {
            lemma_drain_pass_props(s.drop_first(), rem - 1);
            let rec = drain_pass_spec(s.drop_first(), rem - 1);
            lemma_sum64_first(p.0);
            assert(p.0.drop_first() =~= rec.0);
        } else {
            lemma_drain_pass_props(s.drop_first(), rem);
            let rec = drain_pass_spec(s.drop_first(), rem);
            lemma_sum64_first(p.0);
            assert(p.0.drop_first() =~= rec.0);
        }
    }
}

/// The whole surplus removal: passes repeat until the surplus is gone.
/// Meaningful whenever the entries can absorb the surplus, which the
/// optimizer guarantees, since the surplus is the excess of their sum.
pub open spec fn drain_spec(s: Seq<u64>, rem: int) -> Seq<u64>
    decreases rem,
    when rem <= 0 || sum64(s) >= rem
    via drain_spec_decreases
{
    if rem <= 0 {
        s
    } else {
        let p = drain_pass_spec(s, rem);
        drain_spec(p.0, p.1)
    }
}

#[via_fn]
proof fn drain_spec_decreases(s: Seq<u64>, rem: int) {
    if rem > 0 {
        lemma_drain_pass_props(s, rem);
    }
}

proof fn lemma_first_max_index_in_range(s: Seq<u64>)
    requires
        s.len() > 0,
    ensures
        0 <= first_max_index(s) < s.len(),
    decreases s.len(),
{
    if s.len() > 1 {
        lemma_first_max_index_in_range(s.drop_last());
    }
}

proof fn lemma_total_fill_take_succ(pools: Seq<(u64, u64)>, lambda: int, i: int)
    requires
        0 <= i < pools.len(),
    ensures
        total_fill_spec(pools.take(i + 1), lambda) == total_fill_spec(pools.take(i), lambda)
            + fill_spec(pools[i].0 as int, pools[i].1 as int, lambda),
{
    assert(pools.take(i + 1).drop_last() =~= pools.take(i));
    assert(pools.take(i + 1).last() == pools[i]);
}

/// Sums the fills of all pools at one threshold, or reports the first
/// overflow.
fn total_fill(pools: &Vec<(u64, u64)>, lambda: u64) -> (r: Result<u128, PoolError>)
    ensures
        pools_ok(pools@, lambda as int) ==> (r matches Ok(t) && t == total_fill_spec(
            pools@,
            lambda as int,
        )),
        !pools_ok(pools@, lambda as int) ==> r == Err::<u128, PoolError>(PoolError::Overflow),
{
    let n = pools.len();
    let mut total: u128 = 0;
    let mut i: usize = 0;
    while i < n
        invariant
            n == pools@.len(),
            0 <= i <= n,
            total == total_fill_spec(pools@.take(i as int), lambda as int),
            total <= (i as int) * (u64::MAX as int),
            forall|j: int|
                0 <= j < i ==> #[trigger] fill_ok(
                    pools@[j].0 as int,
                    pools@[j].1 as int,
                    lambda as int,
                ),
        decreases n - i,
    {
        let (x, y) = pools[i];
        match marginal_fill(x, y, lambda) {
            Err(e) => {
                return Err(e);
            },
            Ok(v) => {
                proof {
                    lemma_total_fill_take_succ(pools@, lambda as int, i as int);
                    assert(total + v <= ((i + 1) as int) * (u64::MAX as int)) by (nonlinear_arith)
                        requires
                            total <= (i as int) * (u64::MAX as int),
                            v <= u64::MAX,
                    ;
                    assert(((i + 1) as int) * (u64::MAX as int) <= u128::MAX) by (nonlinear_arith)
                        requires
                            0 <= i,
                            i + 1 <= u64::MAX,
                    ;
                }
                total = total + (v as u128);
            },
        }
        i = i + 1;
    }
    proof {
        assert(pools@.take(n as int) =~= pools@);
    }
    Ok(total)
}

/// Divides the trade budget across the pools so that the total output is
/// maximized: a fixed 256-step binary search on the price threshold,
/// followed by an exact reconciliation of the remainder.
///
/// On return the split has one entry per pool and sums to the budget
/// exactly. The entries are the per-pool fills at the settled threshold,
/// corrected for the approximation of the search: a shortfall goes whole
/// to the first pool holding the largest fill, and a surplus leaves one
/// unit at a time, cycling through the pools in index order past exhausted
/// ones. On inputs whose fills stay within the working width the call
/// always succeeds, and the only failure it can report is `Overflow`.
pub fn optimal_split(pools: &Vec<(u64, u64)>, amount_in: u64) -> (r: Result<Vec<u64>, PoolError>)
    requires
        amount_in > 0 ==> pools@.len() > 0,
    ensures
        pools_small(pools@) ==> r is Ok,
        r matches Ok(split) ==> split@.len() == pools@.len() && sum64(split@) == amount_in,
        r matches Ok(split) ==> split@ == optimal_split_spec(pools@, amount_in as int),
        r is Err ==> r == Err::<Vec<u64>, PoolError>(PoolError::Overflow),
{
    let ghost gpools = pools@;
    let ghost gamount = amount_in as int;
    let n = pools.len();
    let mut lo: u64 = 0;
    let mut hi: u64 = u64::MAX / 2;
    let mut iter: usize = 0;
    while iter < 256
        invariant
            gpools == pools@,
            gamount == amount_in as int,
            0 <= iter <= 256,
            lo <= u64::MAX / 2,
            hi <= u64::MAX / 2,
            search_spec(gpools, gamount, lo as int, hi as int, (256 - iter) as nat) == search_spec(
                gpools,
                gamount,
                0,
                u64::MAX as int / 2,
                256,
            ),
        decreases 256 - iter,
    {
        let mid = (lo + hi) / 2;
        match total_fill(pools, mid) {
            Err(e) => {
                proof {
                    if pools_small(pools@) {
                        assert forall|j: int| 0 <= j < pools@.len() implies #[trigger] fill_ok(
                            pools@[j].0 as int,
                            pools@[j].1 as int,
                            mid as int,
                        ) by {
                            lemma_pool_small_fill_ok(
                                pools@[j].0 as int,
                                pools@[j].1 as int,
                                mid as int,
                            );
                        }
                        assert(false);
                    }
                }
                return Err(e);
            },
            Ok(total) => {
                proof {
                    assert(search_spec(
                        gpools,
                        gamount,
                        lo as int,
                        hi as int,
                        (256 - iter) as nat,
                    ) == search_spec(
                        gpools,
                        gamount,
                        search_step_spec(gpools, gamount, lo as int, hi as int).0,
                        search_step_spec(gpools, gamount, lo as int, hi as int).1,
                        (256 - (iter + 1)) as nat,
                    ));
                }
                if total > amount_in as u128 {
                    lo = mid;
                } else {
                    hi = mid;
                }
            },
        }
        iter = iter + 1;
    }
    let lambda = hi;
    proof {
        assert(lambda as int == lambda_spec(gpools, gamount));
    }

    let ghost raw = raw_split_spec(gpools, gamount);
    let mut split: Vec<u64> = Vec::new();
    let mut i: usize = 0;
    while i < n
        invariant
            gpools == pools@,
            gamount == amount_in as int,
            raw == raw_split_spec(gpools, gamount),
            lambda as int == lambda_spec(gpools, gamount),
            n == pools@.len(),
            0 <= i <= n,
            split@.len() == i,
            forall|j: int| 0 <= j < i ==> split@[j] == raw[j],
        decreases n - i,
    {
        let (x, y) = pools[i];
        match marginal_fill(x, y, lambda) {
            Err(e) => {
                proof {
                    if pools_small(pools@) {
                        lemma_pool_small_fill_ok(
                            pools@[i as int].0 as int,
                            pools@[i as int].1 as int,
                            lambda as int,
                        );
                        assert(false);
                    }
                }
                return Err(e);
            },
            Ok(v) => {
                split.push(v);
            },
        }
        i = i + 1;
    }
    proof {
        assert(split@ =~= raw);
    }

    let mut allocated: u128 = 0;
    let mut i: usize = 0;
    while i < n
        invariant
            n == split@.len(),
            0 <= i <= n,
            allocated == sum64(split@.take(i as int)),
            allocated <= (i as int) * (u64::MAX as int),
        decreases n - i,
    {
        proof {
            lemma_sum64_take_succ(split@, i as int);
            assert(allocated + split@[i as int] <= ((i + 1) as int) * (u64::MAX as int))
                by (nonlinear_arith)
                requires
                    allocated <= (i as int) * (u64::MAX as int),
                    split@[i as int] <= u64::MAX,
            ;
            assert(((i + 1) as int) * (u64::MAX as int) <= u128::MAX) by (nonlinear_arith)
                requires
                    0 <= i,
                    i + 1 <= u64::MAX,
            ;
        }
        allocated = allocated + (split[i] as u128);
        i = i + 1;
    }
    proof {
        lemma_sum64_take_all(split@);
    }

    if allocated < amount_in as u128 {
        // The search undershot: the whole shortfall goes to the pool that
        // already holds the largest allocation, the first such on ties.
        let rem: u64 = amount_in - (allocated as u64);
        let mut best: usize = 0;
        let mut j: usize = 1;
        while j < n
            invariant
                n == split@.len(),
                n > 0,
                1 <= j <= n,
                0 <= best < j,
                best == first_max_index(split@.take(j as int)),
            decreases n - j,
        {
            proof {
                assert(split@.take(j + 1).drop_last() =~= split@.take(j as int));
                assert(split@.take(j + 1).last() == split@[j as int]);
                lemma_first_max_index_in_range(split@.take(j as int));
            }
            if split[j] > split[best] {
                best = j;
            }
            j = j + 1;
        }
        proof {
            assert(split@.take(n as int) =~= split@);
            lemma_sum64_elem(split@, best as int);
            lemma_sum64_update(split@, best as int, (split@[best as int] + rem) as u64);
        }
        let grown = split[best] + rem;
        split[best] = grown;
        Ok(split)
    } else if allocated > amount_in as u128 {
        // The search overshot: the surplus leaves one unit at a time,
        // cycling through the pools in index order and skipping any pool
        // whose allocation is already exhausted.
        let ghost dtarget = drain_spec(raw, sum64(raw) - gamount);
        let mut rem: u128 = allocated - (amount_in as u128);
        while rem > 0
            invariant
                n == split@.len(),
                gamount == amount_in as int,
                sum64(split@) == gamount + rem,
                drain_spec(split@, rem as int) == dtarget,
            decreases rem,
        {
            let ghost rem0 = rem as int;
            let ghost split0 = split@;
            let ghost pass = drain_pass_spec(split0, rem0);
            let mut j: usize = 0;
            proof {
                assert(split0.skip(0) =~= split0);
                assert(split@.take(0) + drain_pass_spec(split0, rem0).0 =~= drain_pass_spec(
                    split0,
                    rem0,
                ).0);
            }
            while j < n
                invariant
                    n == split@.len(),
                    n == split0.len(),
                    0 <= j <= n,
                    0 <= rem,
                    rem0 > 0,
                    gamount == amount_in as int,
                    sum64(split@) == gamount + rem,
                    split@.skip(j as int) == split0.skip(j as int),
                    split@.take(j as int) + drain_pass_spec(split0.skip(j as int), rem as int).0
                        == pass.0,
                    drain_pass_spec(split0.skip(j as int), rem as int).1 == pass.1,
                decreases n - j,
            {
                let ghost suf = split0.skip(j as int);
                let ghost pre = split@;
                let ghost rem_pre = rem as int;
                proof {
                    assert(suf[0] == split@[j as int]);
                    assert(suf.drop_first() =~= split0.skip(j as int + 1));
                }
                if rem > 0 && split[j] > 0 {
                    proof {
                        lemma_sum64_update(split@, j as int, (split@[j as int] - 1) as u64);
                    }
                    let shrunk = split[j] - 1;
                    split[j] = shrunk;
                    rem = rem - 1;
                    proof {
                        let rec = drain_pass_spec(split0.skip(j as int + 1), rem as int);
                        assert(drain_pass_spec(suf, rem_pre) == (
                            seq![(suf[0] - 1) as u64] + rec.0,
                            rec.1,
                        ));
                        assert(split@.take(j as int + 1) =~= pre.take(j as int) + seq![
                            (suf[0] - 1) as u64,
                        ]);
                        assert((pre.take(j as int) + seq![(suf[0] - 1) as u64]) + rec.0
                            =~= pre.take(j as int) + (seq![(suf[0] - 1) as u64] + rec.0));
                        assert(split@.skip(j as int + 1) =~= pre.skip(j as int + 1));
                        assert(pre.skip(j as int + 1) =~= split0.skip(j as int + 1));
                    }
                } else {
                    proof {
                        let rec = drain_pass_spec(split0.skip(j as int + 1), rem as int);
                        assert(drain_pass_spec(suf, rem_pre) == (seq![suf[0]] + rec.0, rec.1));
                        assert(split@.take(j as int + 1) =~= pre.take(j as int) + seq![suf[0]]);
                        assert((pre.take(j as int) + seq![suf[0]]) + rec.0 =~= pre.take(j as int) + (
                        seq![suf[0]] + rec.0));
                        assert(split@.skip(j as int + 1) =~= split0.skip(j as int + 1));
                    }
                }
                j = j + 1;
            }
            proof {
                assert(split0.skip(n as int) =~= Seq::<u64>::empty());
                assert(split@.take(n as int) =~= split@);
                assert(split@.take(n as int) + drain_pass_spec(Seq::<u64>::empty(), rem as int).0
                    =~= split@);
                assert(pass == (split@, rem as int));
                lemma_drain_pass_props(split0, rem0);
                assert(drain_spec(split0, rem0) == drain_spec(split@, rem as int));
            }
        }
        proof {
            assert(drain_spec(split@, 0) == split@);
        }
        Ok(split)
    } else {
        Ok(split)
    }
}

} // verus!
