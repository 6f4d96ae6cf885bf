use pool_algorithms::PoolError;
use pool_algorithms::arith::mul_div;

#[test]
fn mul_div_matches_wide_reference() {
    let cases: Vec<(u64, u64, u64)> = vec![
        (0, 0, 1),
        (1, 1, 1),
        (6, 7, 2),
        (7, 3, 2),
        (u64::MAX, 1, 1),
        (u64::MAX, u64::MAX, u64::MAX),
        (12345678901234567, 987654321, 1000000),
        (u64::MAX, 2, 3),
        (u64::MAX, 3, 2),
    ];
    for (a, b, d) in cases {
        let wide = (a as u128) * (b as u128) / (d as u128);
        let got = mul_div(a, b, d);
        if wide <= u64::MAX as u128 {
            assert_eq!(got, Ok(wide as u64), "mul_div({a}, {b}, {d})");
        } else {
            assert_eq!(got, Err(PoolError::Overflow), "mul_div({a}, {b}, {d})");
        }
    }
}

#[test]
fn mul_div_rejects_zero_divisor() {
    assert_eq!(mul_div(1, 1, 0), Err(PoolError::DivisionByZero));
    assert_eq!(mul_div(0, 0, 0), Err(PoolError::DivisionByZero));
}

#[test]
fn mul_div_overflow_at_max_squared() {
    assert_eq!(mul_div(u64::MAX, u64::MAX, 1), Err(PoolError::Overflow));
}

#[test]
fn mul_div_exact_at_width_boundary() {
    // the largest quotient that still fits the working width
    assert_eq!(mul_div(u64::MAX, 1, 1), Ok(u64::MAX));
    // one step beyond: the quotient gains a bit and must be refused
    assert_eq!(mul_div(u64::MAX, 2, 1), Err(PoolError::Overflow));
}
