use rope_sim::fixed::{
    fx_add, fx_div_int, fx_mul, fx_sub, isqrt, saturate, wide_mul, LIMIT, SCALE,
};

#[test]
fn sums_and_differences_are_exact_inside_the_range() {
    assert_eq!(fx_add(2, 3), 5);
    assert_eq!(fx_add(-SCALE, SCALE), 0);
    assert_eq!(fx_sub(2, 3), -1);
    assert_eq!(fx_sub(LIMIT, LIMIT), 0);
}

#[test]
fn sums_and_differences_saturate_at_the_limit() {
    assert_eq!(fx_add(LIMIT, 1), LIMIT);
    assert_eq!(fx_add(-LIMIT, -1), -LIMIT);
    assert_eq!(fx_add(i64::MAX, i64::MAX), LIMIT);
    assert_eq!(fx_add(i64::MIN, i64::MIN), -LIMIT);
    assert_eq!(fx_sub(-LIMIT, 1), -LIMIT);
    assert_eq!(fx_sub(i64::MAX, i64::MIN), LIMIT);
    assert_eq!(fx_sub(i64::MIN, i64::MAX), -LIMIT);
}

#[test]
fn products_are_scaled_and_rounded_toward_zero() {
    // 1.5 * 2.0 == 3.0
    assert_eq!(fx_mul(98304, 131072), 196608);
    assert_eq!(fx_mul(SCALE, SCALE), SCALE);
    assert_eq!(fx_mul(3, 32768), 1);
    assert_eq!(fx_mul(-3, 32768), -1);
    assert_eq!(fx_mul(1, 32768), 0);
    assert_eq!(fx_mul(-1, 32768), 0);
    assert_eq!(fx_mul(0, i64::MAX), 0);
}

#[test]
fn products_saturate_at_the_limit() {
    assert_eq!(fx_mul(i64::MIN, i64::MIN), LIMIT);
    assert_eq!(fx_mul(i64::MIN, i64::MAX), -LIMIT);
    assert_eq!(fx_mul(LIMIT, 2 * SCALE), LIMIT);
    assert_eq!(fx_mul(LIMIT, SCALE), LIMIT);
}

#[test]
fn wide_products_are_exact() {
    assert_eq!(wide_mul(i64::MIN, i64::MIN), 1i128 << 126);
    assert_eq!(wide_mul(i64::MIN, i64::MAX), -(1i128 << 126) + (1i128 << 63));
    assert_eq!(wide_mul(-7, 6), -42);
}

#[test]
fn quotients_by_a_count_round_toward_zero() {
    assert_eq!(fx_div_int(7, 2), 3);
    assert_eq!(fx_div_int(-7, 2), -3);
    assert_eq!(fx_div_int(2621440, 3), 873813);
    assert_eq!(fx_div_int(5, 10), 0);
    assert_eq!(fx_div_int(-5, 10), 0);
    assert_eq!(fx_div_int(i64::MAX, 1), LIMIT);
    assert_eq!(fx_div_int(i64::MIN, u64::MAX), 0);
}

#[test]
fn saturate_clamps_wide_values() {
    assert_eq!(saturate(0), 0);
    assert_eq!(saturate(LIMIT as i128), LIMIT);
    assert_eq!(saturate(LIMIT as i128 + 1), LIMIT);
    assert_eq!(saturate(-(LIMIT as i128) - 1), -LIMIT);
    assert_eq!(saturate(i128::MAX), LIMIT);
    assert_eq!(saturate(i128::MIN), -LIMIT);
    assert_eq!(saturate(-12345), -12345);
}

#[test]
fn integer_square_roots_round_down() {
    assert_eq!(isqrt(0), 0);
    assert_eq!(isqrt(1), 1);
    assert_eq!(isqrt(2), 1);
    assert_eq!(isqrt(3), 1);
    assert_eq!(isqrt(4), 2);
    assert_eq!(isqrt(15), 3);
    assert_eq!(isqrt(16), 4);
    assert_eq!(isqrt(17), 4);
    assert_eq!(isqrt(327680u128 * 327680u128), 327680);
    assert_eq!(isqrt(327680u128 * 327680u128 - 1), 327679);
}

#[test]
fn integer_square_roots_of_the_largest_arguments() {
    assert_eq!(isqrt(u128::MAX), u64::MAX);
    assert_eq!(isqrt(1u128 << 126), 1u64 << 63);
    assert_eq!(isqrt((1u128 << 126) - 1), (1u64 << 63) - 1);
    assert_eq!(isqrt(1u128 << 127), 13043817825332782212);
}

#[test]
fn integer_square_root_brackets_its_argument() {
    let mut n: u128 = 1;
    let mut i = 0;
    while i < 120 {
        let r = isqrt(n) as u128;
        assert!(r * r <= n);
        assert!((r + 1) * (r + 1) > n);
        n = n * 2 + (i % 3) as u128;
        i += 1;
    }
}
