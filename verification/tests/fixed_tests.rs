use raytracer::fixed::{Fixed, LIMIT_RAW, ONE_RAW};
use std::ops::Neg;

fn num(x: f64) -> Fixed {
    Fixed::from_raw((x * 16777216.0).round() as i64)
}

#[test]
fn one_is_two_to_the_twenty_four() {
    assert_eq!(ONE_RAW, 16_777_216);
    assert_eq!(Fixed::one().raw, 16_777_216);
    assert_eq!(Fixed::zero().raw, 0);
    assert_eq!(Fixed::max_value().raw, i64::MAX);
    assert_eq!(LIMIT_RAW, i64::MAX);
}

#[test]
fn from_int_scales_and_saturates() {
    assert_eq!(Fixed::from_int(3).raw, 3 * 16_777_216);
    assert_eq!(Fixed::from_int(-7).raw, -7 * 16_777_216);
    assert_eq!(Fixed::from_int(i64::MAX).raw, i64::MAX);
    assert_eq!(Fixed::from_int(i64::MIN).raw, -i64::MAX);
}

#[test]
fn from_ratio_rounds_towards_zero() {
    assert_eq!(Fixed::from_ratio(1, 1000).raw, 16_777);
    assert_eq!(Fixed::from_ratio(-1, 1000).raw, -16_777);
    assert_eq!(Fixed::from_ratio(1, -1000).raw, -16_777);
    assert_eq!(Fixed::from_ratio(-1, -1000).raw, 16_777);
    assert_eq!(Fixed::from_ratio(1, 2).raw, 8_388_608);
    assert_eq!(Fixed::from_ratio(7, 10).raw, 11_744_051);
    assert_eq!(Fixed::from_ratio(999, 1000).raw, 16_760_438);
}

#[test]
fn from_ratio_with_zero_denominator_is_zero() {
    assert_eq!(Fixed::from_ratio(5, 0).raw, 0);
    assert_eq!(Fixed::from_ratio(-5, 0).raw, 0);
}

#[test]
fn sum_and_difference_are_exact_within_range() {
    assert_eq!(num(1.5) + num(2.25), num(3.75));
    assert_eq!(num(1.5) - num(2.25), num(-0.75));
    assert_eq!(Fixed::from_raw(7) + Fixed::from_raw(-10), Fixed::from_raw(-3));
}

#[test]
fn sum_saturates_symmetrically() {
    let big = Fixed::from_raw(i64::MAX);
    assert_eq!((big + big).raw, i64::MAX);
    assert_eq!((big.neg() - big).raw, -i64::MAX);
    assert_eq!((Fixed { raw: i64::MIN } + Fixed::from_raw(-1)).raw, -i64::MAX);
}

#[test]
fn negation_clamps_the_lowest_raw_value() {
    assert_eq!(num(2.5).neg(), num(-2.5));
    assert_eq!(Fixed { raw: i64::MIN }.neg().raw, i64::MAX);
    assert_eq!(Fixed::from_raw(i64::MAX).neg().raw, -i64::MAX);
}

#[test]
fn product_rounds_towards_zero() {
    assert_eq!(num(1.5) * num(-2.0), num(-3.0));
    // 3 raw units times one half is 1.5 raw units
    assert_eq!((Fixed::from_raw(3) * num(0.5)).raw, 1);
    assert_eq!((Fixed::from_raw(-3) * num(0.5)).raw, -1);
    assert_eq!((Fixed::from_raw(1) * Fixed::from_raw(1)).raw, 0);
}

#[test]
fn product_saturates() {
    let big = Fixed::from_int(1 << 30);
    assert_eq!((big * big).raw, i64::MAX);
    assert_eq!((big * big.neg()).raw, -i64::MAX);
}

#[test]
fn quotient_rounds_towards_zero() {
    assert_eq!(num(3.0) / num(2.0), num(1.5));
    assert_eq!((num(1.0) / num(3.0)).raw, 5_592_405);
    assert_eq!((num(-1.0) / num(3.0)).raw, -5_592_405);
    assert_eq!((num(1.0) / num(-3.0)).raw, -5_592_405);
    assert_eq!((num(-1.0) / num(-3.0)).raw, 5_592_405);
}

#[test]
fn quotient_by_zero_is_zero() {
    assert_eq!((num(3.0) / Fixed::zero()).raw, 0);
    assert_eq!((num(-3.0) / Fixed::zero()).raw, 0);
    assert_eq!((Fixed::zero() / Fixed::zero()).raw, 0);
}

#[test]
fn quotient_saturates() {
    let tiny = Fixed::from_raw(1);
    assert_eq!((Fixed::from_int(1 << 38) / tiny).raw, i64::MAX);
    assert_eq!((Fixed::from_int(-(1 << 38)) / tiny).raw, -i64::MAX);
}

#[test]
fn square_root_rounds_down() {
    assert_eq!(num(4.0).sqrt(), num(2.0));
    assert_eq!(num(0.25).sqrt(), num(0.5));
    assert_eq!(num(2.0).sqrt().raw, 23_726_566);
    assert_eq!(Fixed::from_raw(1).sqrt().raw, 4096);
    assert_eq!(Fixed::from_raw(i64::MAX).sqrt().raw, 12_439_554_047_901);
}

#[test]
fn square_root_of_nothing_positive_is_zero() {
    assert_eq!(Fixed::zero().sqrt().raw, 0);
    assert_eq!(num(-4.0).sqrt().raw, 0);
    assert_eq!(Fixed { raw: i64::MIN }.sqrt().raw, 0);
}

#[test]
fn square_root_squared_brackets_the_argument() {
    for raw in [1i64, 2, 3, 1000, 16_777_215, 16_777_217, 123_456_789_012, i64::MAX] {
        let r = Fixed::from_raw(raw).sqrt().raw as i128;
        let n = raw as i128 * 16_777_216;
        assert!(r * r <= n && n < (r + 1) * (r + 1));
    }
}

#[test]
fn min_max_and_clamp_pick_by_order() {
    assert_eq!(num(1.0).min(num(2.0)), num(1.0));
    assert_eq!(num(1.0).max(num(2.0)), num(2.0));
    assert_eq!(num(-3.0).min(num(-4.0)), num(-4.0));
    assert_eq!(num(5.0).clamp(num(0.0), num(0.999)), num(0.999));
    assert_eq!(num(-5.0).clamp(num(0.0), num(0.999)), num(0.0));
    assert_eq!(num(0.5).clamp(num(0.0), num(0.999)), num(0.5));
}

#[test]
fn whole_drops_the_fraction() {
    assert_eq!(num(2.5).whole(), 2);
    assert_eq!(num(-2.5).whole(), -2);
    assert_eq!(num(255.74).whole(), 255);
    assert_eq!(num(0.99).whole(), 0);
    assert_eq!(num(-0.99).whole(), 0);
    assert_eq!(num(7.0).whole(), 7);
    assert_eq!(Fixed::from_raw(i64::MAX).whole(), 549_755_813_887);
}

#[test]
fn from_raw_keeps_to_the_symmetric_range() {
    assert_eq!(Fixed::from_raw(12345).raw, 12345);
    assert_eq!(Fixed::from_raw(-12345).raw, -12345);
    assert_eq!(Fixed::from_raw(i64::MAX).raw, i64::MAX);
    assert_eq!(Fixed::from_raw(i64::MIN).raw, -i64::MAX);
    assert_eq!(Fixed::from_raw(i64::MIN + 1).raw, -i64::MAX);
}
