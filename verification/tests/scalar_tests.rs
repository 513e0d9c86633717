use ray_tracing::scalar::floor_div;
use ray_tracing::scalar::isqrt_u128;
use ray_tracing::scalar::Scalar;
use ray_tracing::scalar::LIMIT;
use ray_tracing::scalar::ONE;

#[test]
fn raw_values_round_trip() {
    assert_eq!(Scalar::from_raw(0).raw(), 0);
    assert_eq!(Scalar::from_raw(12345).raw(), 12345);
    assert_eq!(Scalar::from_raw(-12345).raw(), -12345);
    assert_eq!(Scalar::from_raw(LIMIT).raw(), LIMIT);
    assert_eq!(Scalar::from_raw(-LIMIT).raw(), -LIMIT);
}

#[test]
fn raw_values_saturate() {
    assert_eq!(Scalar::from_raw(LIMIT + 1).raw(), LIMIT);
    assert_eq!(Scalar::from_raw(i64::MAX).raw(), LIMIT);
    assert_eq!(Scalar::from_raw(-LIMIT - 1).raw(), -LIMIT);
    assert_eq!(Scalar::from_raw(i64::MIN).raw(), -LIMIT);
    assert_eq!(Scalar::saturate(i128::MAX).raw(), LIMIT);
    assert_eq!(Scalar::saturate(i128::MIN).raw(), -LIMIT);
    assert_eq!(Scalar::saturate(-7).raw(), -7);
}

#[test]
fn integers_scale_by_one() {
    assert_eq!(Scalar::from_int(0), Scalar::zero());
    assert_eq!(Scalar::from_int(1), Scalar::one());
    assert_eq!(Scalar::one().raw(), ONE);
    assert_eq!(Scalar::from_int(-3).raw(), -3 * ONE);
    assert_eq!(Scalar::from_int(1000).raw(), 1000 * ONE);
    // 2^12 is the largest power of two in range.
    assert_eq!(Scalar::from_int(1 << 12).raw(), LIMIT);
    assert_eq!(Scalar::from_int(4095).raw(), 4095 * ONE);
    assert_eq!(Scalar::from_int(i32::MAX).raw(), LIMIT);
    assert_eq!(Scalar::from_int(i32::MIN).raw(), -LIMIT);
}

#[test]
fn sums_and_differences_are_exact_within_range() {
    let a = Scalar::from_raw(7 * ONE / 2);
    let b = Scalar::from_raw(5 * ONE / 4);
    assert_eq!(a.add(b).raw(), 19 * ONE / 4);
    assert_eq!(a.sub(b).raw(), 9 * ONE / 4);
    assert_eq!(b.sub(a).raw(), -9 * ONE / 4);
}

#[test]
fn sums_and_differences_saturate() {
    let top = Scalar::from_raw(LIMIT);
    let bottom = Scalar::from_raw(-LIMIT);
    assert_eq!(top.add(Scalar::from_raw(1)).raw(), LIMIT);
    assert_eq!(top.add(top).raw(), LIMIT);
    assert_eq!(bottom.sub(Scalar::from_raw(1)).raw(), -LIMIT);
    assert_eq!(bottom.add(bottom).raw(), -LIMIT);
    assert_eq!(top.sub(bottom).raw(), LIMIT);
    assert_eq!(top.add(bottom).raw(), 0);
}

#[test]
fn negation_and_magnitude() {
    assert_eq!(Scalar::from_int(5).neg(), Scalar::from_int(-5));
    assert_eq!(Scalar::from_raw(LIMIT).neg().raw(), -LIMIT);
    assert_eq!(Scalar::from_raw(-LIMIT).neg().raw(), LIMIT);
    assert_eq!(Scalar::from_int(-5).abs(), Scalar::from_int(5));
    assert_eq!(Scalar::from_int(5).abs(), Scalar::from_int(5));
    assert_eq!(Scalar::zero().abs(), Scalar::zero());
}

#[test]
fn products_round_down() {
    let a = Scalar::from_raw(3 * ONE / 2);
    let b = Scalar::from_raw(5 * ONE / 2);
    // 1.5 * 2.5 = 3.75
    assert_eq!(a.mul(b).raw(), 15 * ONE / 4);
    assert_eq!(a.mul(b.neg()).raw(), -15 * ONE / 4);
    // The smallest steps: 2^-50 * 2^-50 rounds down to zero, its negative to -2^-50.
    assert_eq!(Scalar::from_raw(1).mul(Scalar::from_raw(1)).raw(), 0);
    assert_eq!(Scalar::from_raw(-1).mul(Scalar::from_raw(1)).raw(), -1);
    // -3 * 2^-50 * 0.5 = -1.5 * 2^-50, rounded down.
    assert_eq!(Scalar::from_raw(-3).mul(Scalar::from_raw(ONE / 2)).raw(), -2);
    assert_eq!(Scalar::from_raw(3).mul(Scalar::from_raw(ONE / 2)).raw(), 1);
}

#[test]
fn products_saturate() {
    let big = Scalar::from_int(1 << 10);
    assert_eq!(big.mul(big).raw(), LIMIT);
    assert_eq!(big.mul(big.neg()).raw(), -LIMIT);
    assert_eq!(Scalar::from_raw(LIMIT).mul(Scalar::from_raw(LIMIT)).raw(), LIMIT);
    assert_eq!(Scalar::from_raw(LIMIT).mul(Scalar::from_raw(-LIMIT)).raw(), -LIMIT);
}

#[test]
fn multiplying_by_one_changes_nothing() {
    let x = Scalar::from_raw(-987654321987);
    assert_eq!(x.mul(Scalar::one()), x);
    assert_eq!(Scalar::one().mul(x), x);
    assert_eq!(x.mul(Scalar::zero()), Scalar::zero());
}

#[test]
fn quotients_round_toward_zero() {
    let one = Scalar::one();
    let three = Scalar::from_int(3);
    // floor(2^50 / 3)
    assert_eq!(one.div(three).raw(), 375299968947541);
    assert_eq!(one.neg().div(three).raw(), -375299968947541);
    assert_eq!(one.div(three.neg()).raw(), -375299968947541);
    assert_eq!(one.neg().div(three.neg()).raw(), 375299968947541);
    assert_eq!(Scalar::from_int(7).div(Scalar::from_int(2)).raw(), 7 * ONE / 2);
    assert_eq!(Scalar::from_int(1).div(Scalar::from_int(1000)).raw(), 1125899906842);
}

#[test]
fn division_by_zero_saturates_by_sign() {
    let zero = Scalar::zero();
    assert_eq!(Scalar::one().div(zero).raw(), LIMIT);
    assert_eq!(Scalar::from_raw(1).div(zero).raw(), LIMIT);
    assert_eq!(Scalar::one().neg().div(zero).raw(), -LIMIT);
    assert!(zero.div(zero).is_nan());
}

#[test]
fn quotients_saturate() {
    let tiny = Scalar::from_raw(1);
    assert_eq!(Scalar::from_int(1 << 11).div(tiny).raw(), LIMIT);
    assert_eq!(Scalar::from_int(-(1 << 11)).div(tiny).raw(), -LIMIT);
    assert_eq!(Scalar::from_raw(1 << 12).div(tiny).raw(), LIMIT);
    assert_eq!(Scalar::from_raw(1 << 11).div(tiny).raw(), 1 << 61);
}

#[test]
fn square_roots_round_down() {
    assert_eq!(Scalar::from_int(4).sqrt(), Scalar::from_int(2));
    assert_eq!(Scalar::from_int(0).sqrt(), Scalar::zero());
    assert_eq!(Scalar::from_int(1).sqrt(), Scalar::one());
    assert_eq!(Scalar::from_raw(ONE / 4).sqrt().raw(), ONE / 2);
    // floor(sqrt(2) * 2^50)
    assert_eq!(Scalar::from_int(2).sqrt().raw(), 1592262918131443);
    // sqrt(2^12) = 2^6
    assert_eq!(Scalar::from_raw(LIMIT).sqrt().raw(), 64 * ONE);
}

#[test]
fn square_root_of_a_negative_number_is_no_number() {
    assert!(Scalar::from_int(-4).sqrt().is_nan());
    assert!(Scalar::from_raw(-1).sqrt().is_nan());
    assert!(Scalar::sqrt_wide(-1).is_nan());
    assert_eq!(Scalar::sqrt_wide(0), Scalar::zero());
}

#[test]
fn square_root_at_double_scale() {
    let one = ONE as i128;
    assert_eq!(Scalar::sqrt_wide(9 * one * one), Scalar::from_int(3));
    assert_eq!(Scalar::sqrt_wide(1).raw(), 1);
    assert_eq!(Scalar::sqrt_wide(3).raw(), 1);
    assert_eq!(Scalar::sqrt_wide(4).raw(), 2);
    assert_eq!(Scalar::sqrt_wide(i128::MAX).raw(), LIMIT);
}

#[test]
fn integer_square_root() {
    assert_eq!(isqrt_u128(0), 0);
    assert_eq!(isqrt_u128(1), 1);
    assert_eq!(isqrt_u128(2), 1);
    assert_eq!(isqrt_u128(3), 1);
    assert_eq!(isqrt_u128(4), 2);
    assert_eq!(isqrt_u128(99), 9);
    assert_eq!(isqrt_u128(100), 10);
    assert_eq!(isqrt_u128(u128::MAX), u64::MAX as u128);
    let r = (u64::MAX as u128) - 12345;
    assert_eq!(isqrt_u128(r * r), r);
    assert_eq!(isqrt_u128(r * r - 1), r - 1);
    assert_eq!(isqrt_u128(r * r + 2 * r), r);
}

#[test]
fn floor_division() {
    assert_eq!(floor_div(7, 2), 3);
    assert_eq!(floor_div(-7, 2), -4);
    assert_eq!(floor_div(-8, 2), -4);
    assert_eq!(floor_div(0, 5), 0);
    assert_eq!(floor_div(-1, 1 << 40), -1);
    assert_eq!(floor_div(i128::MAX, 1), i128::MAX);
    assert_eq!(floor_div(i128::MIN + 1, 1), i128::MIN + 1);
}

#[test]
fn powers_by_repeated_squaring() {
    let two = Scalar::from_int(2);
    assert_eq!(two.pow(0), Scalar::one());
    assert_eq!(two.pow(1), two);
    assert_eq!(two.pow(10), Scalar::from_int(1024));
    assert_eq!(Scalar::from_int(3).pow(4), Scalar::from_int(81));
    assert_eq!(Scalar::from_int(-2).pow(3), Scalar::from_int(-8));
    assert_eq!(Scalar::from_raw(ONE / 2).pow(3).raw(), ONE / 8);
    assert_eq!(Scalar::zero().pow(0), Scalar::one());
    assert_eq!(Scalar::zero().pow(7), Scalar::zero());
    assert_eq!(Scalar::one().pow(u32::MAX), Scalar::one());
}

#[test]
fn powers_saturate() {
    let two = Scalar::from_int(2);
    assert_eq!(two.pow(11).raw(), LIMIT / 2);
    assert_eq!(two.pow(12).raw(), LIMIT);
    assert_eq!(two.pow(40).raw(), LIMIT);
}

#[test]
fn power_of_a_fraction_stays_close() {
    // 0.9^10 = 0.3486784401; each of the five products rounds down.
    let base = Scalar::from_int(9).div(Scalar::from_int(10));
    let p = base.pow(10).raw() as f64 / ONE as f64;
    assert!((p - 0.3486784401).abs() < 1e-8);
}

#[test]
fn comparisons_follow_the_raw_values() {
    let a = Scalar::from_raw(-5);
    let b = Scalar::from_raw(3);
    assert!(a.lt(b));
    assert!(!b.lt(a));
    assert!(!a.lt(a));
    assert!(b.gt(a));
    assert!(!a.gt(b));
    assert!(!b.gt(b));
}
