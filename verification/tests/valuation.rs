use pool_algorithms::PoolError;
use pool_algorithms::split::optimal_split;
use pool_algorithms::amm::amount_out;
use pool_algorithms::amm::total_output;
use pool_algorithms::amm::calculate_output;

#[test]
fn fee_of_whole_unit_rejected() {
    assert_eq!(
        amount_out(1_000, 1_000, 1_000, 1_000_000),
        Err(PoolError::ContractViolation)
    );
    assert_eq!(
        amount_out(1_000, 1_000, 1_000, 2_000_000),
        Err(PoolError::ContractViolation)
    );
}

#[test]
fn fee_just_below_whole_unit_accepted() {
    // at 999,999 ppm one millionth of the input survives the fee
    assert_eq!(amount_out(10_000_000, 1_000, 1_000, 999_999), Ok(9));
}

#[test]
fn amount_out_matches_formula() {
    let a = 100_000u64;
    let x = 1_000_000u64;
    let y = 1_000_000u64;
    let fee = 3_000u32;
    let e = (a as u128) * (1_000_000u128 - fee as u128) / 1_000_000u128;
    let expected = (e * y as u128) / (x as u128 + e);
    assert_eq!(amount_out(a, x, y, fee), Ok(expected as u64));
}

#[test]
fn amount_out_zero_cases() {
    assert_eq!(amount_out(0, 5, 5, 0), Ok(0));
    assert_eq!(amount_out(5, 0, 5, 0), Ok(0));
    assert_eq!(amount_out(5, 5, 0, 0), Ok(0));
}

#[test]
fn amount_out_monotone_and_bounded() {
    let mut prev = 0u64;
    for a in [0u64, 1, 10, 1_000, 100_000, 10_000_000, u64::MAX / 2, u64::MAX] {
        let out = amount_out(a, 1_000_000, 2_000_000, 3_000).unwrap();
        assert!(out >= prev, "output fell when the input grew to {a}");
        assert!(out <= 2_000_000, "output exceeded the output reserve");
        prev = out;
    }
}

#[test]
fn mismatched_split_is_contract_violation() {
    let pools = vec![(1_000u64, 1_000u64), (2_000u64, 2_000u64)];
    let split = vec![10u64];
    assert_eq!(total_output(&pools, &split, 3_000), Err(PoolError::ContractViolation));
    let long_split = vec![10u64, 20u64, 30u64];
    assert_eq!(total_output(&pools, &long_split, 3_000), Err(PoolError::ContractViolation));
}

#[test]
fn total_output_sums_pairwise() {
    let pools = vec![(1_000_000u64, 1_000_000u64), (2_000_000u64, 2_000_000u64)];
    let split = vec![40_000u64, 60_000u64];
    let a = amount_out(split[0], pools[0].0, pools[0].1, 3_000).unwrap();
    let b = amount_out(split[1], pools[1].0, pools[1].1, 3_000).unwrap();
    assert_eq!(total_output(&pools, &split, 3_000), Ok(a + b));
}

#[test]
fn total_output_sum_overflow() {
    let pools = vec![(1u64, u64::MAX), (1u64, u64::MAX)];
    let split = vec![u64::MAX, u64::MAX];
    assert_eq!(total_output(&pools, &split, 0), Err(PoolError::Overflow));
}

#[test]
fn oriented_pipeline_output() {
    // Raw pairs hold (first asset, second asset) reserves. When the asset
    // being sold is the second one, each pair is swapped before splitting.
    let raw = vec![(1_000_000u64, 2_000_000u64)];
    let out_swapped = calculate_output(&raw, false, 100_000).unwrap();
    let oriented = vec![(2_000_000u64, 1_000_000u64)];
    let split = optimal_split(&oriented, 100_000).unwrap();
    assert_eq!(out_swapped, total_output(&oriented, &split, 3_000).unwrap());

    let out_kept = calculate_output(&raw, true, 100_000).unwrap();
    let split_kept = optimal_split(&raw, 100_000).unwrap();
    assert_eq!(out_kept, total_output(&raw, &split_kept, 3_000).unwrap());
    assert!(out_kept != out_swapped, "orientation must matter for uneven reserves");
}
