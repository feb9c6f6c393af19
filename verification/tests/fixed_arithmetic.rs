use automatic_review_analyzer::fixed::{round_div_wide, saturate, SCALE};
use automatic_review_analyzer::Fixed;

#[test]
fn scale_is_one_billion() {
    assert_eq!(SCALE, 1_000_000_000);
    assert_eq!(Fixed::one().raw(), 1_000_000_000);
    assert_eq!(Fixed::zero().raw(), 0);
}

#[test]
fn from_int_counts_whole_units() {
    assert_eq!(Fixed::from_int(3).raw(), 3_000_000_000);
    assert_eq!(Fixed::from_int(-7).raw(), -7_000_000_000);
    assert_eq!(Fixed::from_int(i32::MAX).raw(), 2_147_483_647_000_000_000);
    assert_eq!(Fixed::from_int(i32::MIN).raw(), -2_147_483_648_000_000_000);
}

#[test]
fn from_raw_and_raw_are_inverse() {
    for raw in [i64::MIN, -1, 0, 1, 123_456_789, i64::MAX] {
        assert_eq!(Fixed::from_raw(raw).raw(), raw);
        assert_eq!(Fixed::from_raw(raw), Fixed { raw });
    }
}

#[test]
fn plus_adds_and_saturates() {
    let a = Fixed::from_raw(1_500_000_000);
    let b = Fixed::from_raw(-2_250_000_000);
    assert_eq!(a.plus(b).raw(), -750_000_000);
    assert_eq!(Fixed::from_raw(i64::MAX).plus(Fixed::from_raw(1)).raw(), i64::MAX);
    assert_eq!(Fixed::from_raw(i64::MIN).plus(Fixed::from_raw(-1)).raw(), i64::MIN);
    assert_eq!(Fixed::from_raw(i64::MAX).plus(Fixed::from_raw(i64::MIN)).raw(), -1);
}

#[test]
fn minus_subtracts_and_saturates() {
    let a = Fixed::from_raw(1_500_000_000);
    let b = Fixed::from_raw(-2_250_000_000);
    assert_eq!(a.minus(b).raw(), 3_750_000_000);
    assert_eq!(Fixed::from_raw(i64::MIN).minus(Fixed::from_raw(1)).raw(), i64::MIN);
    assert_eq!(Fixed::from_raw(i64::MAX).minus(Fixed::from_raw(-1)).raw(), i64::MAX);
    assert_eq!(Fixed::from_raw(0).minus(Fixed::from_raw(i64::MIN)).raw(), i64::MAX);
}

#[test]
fn times_rounds_to_nearest_billionth() {
    let a = Fixed::from_raw(123_456_789);
    let b = Fixed::from_raw(987_654_321);
    assert_eq!(a.times(b).raw(), 121_932_631);
    assert_eq!(b.times(a).raw(), 121_932_631);
    assert_eq!(Fixed::from_int(-3).times(Fixed::from_raw(250_000_000)).raw(), -750_000_000);
}

#[test]
fn times_rounds_halves_away_from_zero() {
    let half = Fixed::from_raw(500_000_000);
    assert_eq!(Fixed::from_raw(1).times(half).raw(), 1);
    assert_eq!(Fixed::from_raw(-1).times(half).raw(), -1);
    assert_eq!(Fixed::from_raw(3).times(half).raw(), 2);
    assert_eq!(Fixed::from_raw(-3).times(half).raw(), -2);
    assert_eq!(Fixed::from_raw(1).times(Fixed::from_raw(499_999_999)).raw(), 0);
    assert_eq!(Fixed::from_raw(-1).times(Fixed::from_raw(499_999_999)).raw(), 0);
}

#[test]
fn times_saturates() {
    let two = Fixed::from_int(2);
    assert_eq!(Fixed::from_raw(i64::MAX).times(two).raw(), i64::MAX);
    assert_eq!(Fixed::from_raw(i64::MIN).times(two).raw(), i64::MIN);
    assert_eq!(Fixed::from_raw(i64::MIN).times(Fixed::from_int(-1)).raw(), i64::MAX);
    assert_eq!(Fixed::from_raw(i64::MIN).times(Fixed::from_raw(i64::MIN)).raw(), i64::MAX);
}

#[test]
fn one_is_the_unit_of_times() {
    for raw in [i64::MIN, -987_654_321, -1, 0, 1, 42, i64::MAX] {
        assert_eq!(Fixed::one().times(Fixed::from_raw(raw)).raw(), raw);
        assert_eq!(Fixed::from_raw(raw).times(Fixed::one()).raw(), raw);
    }
}

#[test]
fn saturate_clamps_to_the_i64_range() {
    assert_eq!(saturate(0), 0);
    assert_eq!(saturate(i64::MAX as i128), i64::MAX);
    assert_eq!(saturate(i64::MAX as i128 + 1), i64::MAX);
    assert_eq!(saturate(i64::MIN as i128 - 1), i64::MIN);
    assert_eq!(saturate(i128::MAX), i64::MAX);
    assert_eq!(saturate(i128::MIN), i64::MIN);
}

#[test]
fn round_div_wide_rounds_to_nearest() {
    assert_eq!(round_div_wide(7, 2), 4);
    assert_eq!(round_div_wide(-7, 2), -4);
    assert_eq!(round_div_wide(5, 3), 2);
    assert_eq!(round_div_wide(4, 3), 1);
    assert_eq!(round_div_wide(-5, 3), -2);
    assert_eq!(round_div_wide(-4, 3), -1);
    assert_eq!(round_div_wide(0, 9), 0);
    assert_eq!(round_div_wide(i128::MAX, 1), i128::MAX);
    assert_eq!(round_div_wide(i128::MIN + 1, 1), i128::MIN + 1);
    assert_eq!(round_div_wide(i128::MIN, 1), i128::MIN);
    assert_eq!(round_div_wide(i128::MIN, 2), i128::MIN / 2);
    assert_eq!(round_div_wide(i128::MIN, u64::MAX), -9_223_372_036_854_775_809);
    assert_eq!(round_div_wide(i128::MAX, u64::MAX), 9_223_372_036_854_775_808);
}
