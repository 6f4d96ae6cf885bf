use pool_algorithms::PoolError;
use pool_algorithms::split::optimal_split;
use pool_algorithms::amm::total_output;

#[test]
fn two_pool_split_scenario() {
    let pools = vec![(1_000_000u64, 1_000_000u64), (2_000_000u64, 2_000_000u64)];
    let amount = 100_000u64;
    let split = optimal_split(&pools, amount).unwrap();
    assert_eq!(split.len(), 2);
    assert!(split[0] > 0, "the shallower pool takes part of the trade");
    assert!(split[1] > 0, "the deeper pool takes part of the trade");
    assert_eq!(split[0] + split[1], amount, "conservation is exact");
    assert!(split[1] > split[0], "the deeper pool absorbs more");
    // Equal marginal price: the threshold implied by each allocation
    // agrees across the active pools within the granularity that a single
    // unit of allocation moves it.
    let implied = |x: u64, y: u64, a: u64| -> u128 {
        let scale = 4294967295u128;
        let filled = x as u128 + a as u128;
        (y as u128) * scale * (x as u128) / (filled * filled)
    };
    let l0 = implied(pools[0].0, pools[0].1, split[0]);
    let l1 = implied(pools[1].0, pools[1].1, split[1]);
    let diff = if l0 > l1 { l0 - l1 } else { l1 - l0 };
    assert!(diff <= 100_000, "implied thresholds {l0} and {l1} diverge");
}

#[test]
fn one_unit_transfer_does_not_improve() {
    let pools = vec![(1_000_000u64, 1_000_000u64), (2_000_000u64, 2_000_000u64)];
    let amount = 100_000u64;
    let split = optimal_split(&pools, amount).unwrap();
    let base = total_output(&pools, &split, 3000).unwrap();
    for delta in 1u64..=5 {
        if split[0] >= delta {
            let moved = vec![split[0] - delta, split[1] + delta];
            let out = total_output(&pools, &moved, 3000).unwrap();
            assert!(out <= base + 2, "moving {delta} units to the deep pool improved output");
        }
        if split[1] >= delta {
            let moved = vec![split[0] + delta, split[1] - delta];
            let out = total_output(&pools, &moved, 3000).unwrap();
            assert!(out <= base + 2, "moving {delta} units to the shallow pool improved output");
        }
    }
}

#[test]
fn oversized_trade_single_pool() {
    // The budget far exceeds the pool's depth; it still lands whole on the
    // only pool, so conservation and shape hold.
    let pools = vec![(500u64, 500u64)];
    let split = optimal_split(&pools, 1_000_000).unwrap();
    assert_eq!(split, vec![1_000_000u64]);
}

#[test]
fn zero_amount_gives_zero_split_and_output() {
    let pools = vec![(1_000u64, 2_000u64), (3_000u64, 4_000u64), (5u64, 7u64)];
    let split = optimal_split(&pools, 0).unwrap();
    assert_eq!(split, vec![0u64, 0u64, 0u64]);
    assert_eq!(total_output(&pools, &split, 3000), Ok(0));
    let none: Vec<(u64, u64)> = Vec::new();
    let empty_split = optimal_split(&none, 0).unwrap();
    assert!(empty_split.is_empty());
    assert_eq!(total_output(&none, &empty_split, 3000), Ok(0));
}

#[test]
fn conservation_across_inputs() {
    let pools = vec![(1_000_000u64, 500_000u64), (750_000u64, 2_000_000u64), (10u64, 10u64)];
    for amount in [1u64, 2, 999, 100_000, 1_000_000, 123_456_789] {
        let split = optimal_split(&pools, amount).unwrap();
        assert_eq!(split.len(), pools.len());
        for &entry in &split {
            assert!(entry <= amount);
        }
        let total: u128 = split.iter().map(|&v| v as u128).sum();
        assert_eq!(total, amount as u128, "split must sum to {amount}");
    }
}

#[test]
fn oversized_reserves_overflow() {
    // A pool whose scaled reserve leaves the working width makes the
    // search's very first probe fail.
    let pools = vec![(u64::MAX, u64::MAX)];
    assert_eq!(optimal_split(&pools, 10), Err(PoolError::Overflow));
}
