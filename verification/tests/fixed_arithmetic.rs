use wormhole_field::fixed::{Fixed, LIMIT, SCALE};

fn fx(v: f64) -> Fixed {
    Fixed::from_raw((v * SCALE as f64).round() as i64)
}

#[test]
fn one_is_scale_raw_units() {
    assert_eq!(Fixed::one().raw(), SCALE);
    assert_eq!(Fixed::from_int(1).raw(), SCALE);
    assert_eq!(Fixed::zero().raw(), 0);
    assert_eq!(SCALE, 1i64 << 30);
    assert_eq!(LIMIT, 1i64 << 62);
}

#[test]
fn from_raw_saturates_at_the_limits() {
    assert_eq!(Fixed::from_raw(LIMIT + 1).raw(), LIMIT);
    assert_eq!(Fixed::from_raw(-LIMIT - 1).raw(), -LIMIT);
    assert_eq!(Fixed::from_raw(i64::MAX).raw(), LIMIT);
    assert_eq!(Fixed::from_raw(i64::MIN).raw(), -LIMIT);
    assert_eq!(Fixed::from_raw(12345).raw(), 12345);
    assert_eq!(Fixed::from_int(20000).raw(), 20000 * SCALE);
    assert_eq!(Fixed::from_int(-20000).raw(), -20000 * SCALE);
    assert_eq!(Fixed::from_int(i32::MAX).raw(), i32::MAX as i64 * SCALE);
    assert_eq!(Fixed::from_int(i32::MIN).raw(), i32::MIN as i64 * SCALE);
    assert_eq!(fx(4294967296.0).raw(), LIMIT);
    assert_eq!(fx(5000000000.0).raw(), LIMIT);
}

#[test]
fn saturation_can_be_detected() {
    assert!(fx(5000000000.0).is_saturated());
    assert!(!Fixed::from_int(20000).is_saturated());
    assert!(Fixed::from_raw(-LIMIT).is_saturated());
    assert!(!Fixed::from_raw(LIMIT - 1).is_saturated());
    assert!(!Fixed::zero().is_saturated());
}

#[test]
fn sums_and_differences_are_exact_in_range() {
    assert_eq!(fx(1.5).add(fx(2.25)), fx(3.75));
    assert_eq!(fx(1.5).sub(fx(2.25)), fx(-0.75));
    assert_eq!(Fixed::from_raw(7).add(Fixed::from_raw(-9)).raw(), -2);
}

#[test]
fn sums_and_differences_saturate() {
    assert_eq!(fx(4000000000.0).add(fx(1000000000.0)).raw(), LIMIT);
    assert_eq!(fx(-4000000000.0).sub(fx(1000000000.0)).raw(), -LIMIT);
    assert_eq!(fx(16000.0).add(fx(1000.0)), fx(17000.0));
    assert_eq!(Fixed::from_raw(LIMIT).add(Fixed::from_raw(LIMIT)).raw(), LIMIT);
}

#[test]
fn negation_and_absolute_value() {
    assert_eq!(fx(2.5).neg(), fx(-2.5));
    assert_eq!(fx(-2.5).neg(), fx(2.5));
    assert_eq!(Fixed::from_raw(-LIMIT).neg().raw(), LIMIT);
    assert_eq!(fx(-2.5).abs(), fx(2.5));
    assert_eq!(fx(2.5).abs(), fx(2.5));
    assert_eq!(Fixed::zero().abs(), Fixed::zero());
}

#[test]
fn products_have_exact_values() {
    assert_eq!(fx(1.5).mul(fx(2.5)).raw(), 4026531840);
    assert_eq!(fx(1.5).mul(fx(2.5)), fx(3.75));
    assert_eq!(fx(-1.5).mul(fx(2.5)), fx(-3.75));
    assert_eq!(fx(-1.5).mul(fx(-2.5)), fx(3.75));
    assert_eq!(fx(3.0).mul(Fixed::zero()), Fixed::zero());
}

#[test]
fn products_round_toward_zero() {
    let half = fx(0.5);
    assert_eq!(Fixed::from_raw(1).mul(half).raw(), 0);
    assert_eq!(Fixed::from_raw(-1).mul(half).raw(), 0);
    assert_eq!(Fixed::from_raw(3).mul(half).raw(), 1);
    assert_eq!(Fixed::from_raw(-3).mul(half).raw(), -1);
}

#[test]
fn products_saturate() {
    assert_eq!(fx(70000.0).mul(fx(70000.0)).raw(), LIMIT);
    assert_eq!(fx(-70000.0).mul(fx(70000.0)).raw(), -LIMIT);
    assert_eq!(fx(65536.0).mul(fx(65536.0)).raw(), LIMIT);
    assert_eq!(fx(65535.0).mul(fx(65536.0)), fx(4294901760.0));
    assert_eq!(fx(200.0).mul(fx(200.0)), fx(40000.0));
}

#[test]
fn quotients_have_exact_values() {
    assert_eq!(Fixed::one().div(fx(3.0)).raw(), 357913941);
    assert_eq!(Fixed::one().neg().div(fx(3.0)).raw(), -357913941);
    assert_eq!(Fixed::one().div(fx(-3.0)).raw(), -357913941);
    assert_eq!(fx(-1.0).div(fx(-3.0)).raw(), 357913941);
    assert_eq!(fx(3.75).div(fx(2.5)), fx(1.5));
    assert_eq!(Fixed::zero().div(fx(2.5)), Fixed::zero());
}

#[test]
fn quotients_saturate() {
    assert_eq!(fx(100.0).div(Fixed::from_raw(1)).raw(), LIMIT);
    assert_eq!(fx(-100.0).div(Fixed::from_raw(1)).raw(), -LIMIT);
}

#[test]
fn division_by_a_whole_number_rounds_toward_zero() {
    assert_eq!(Fixed::one().div_int(4).raw(), 1 << 28);
    assert_eq!(Fixed::from_raw(7).div_int(2).raw(), 3);
    assert_eq!(Fixed::from_raw(-7).div_int(2).raw(), -3);
    assert_eq!(Fixed::from_raw(1).div_int(2).raw(), 0);
    assert_eq!(Fixed::from_raw(-1).div_int(2).raw(), 0);
    assert_eq!(fx(9.0).div_int(1), fx(9.0));
}

#[test]
fn even_shares_add_up_to_the_whole() {
    let whole = Fixed::one();
    let share = whole.div_int(256);
    let mut sum = Fixed::zero();
    for _ in 0..256 {
        sum = sum.add(share);
    }
    assert_eq!(sum, whole);
}

#[test]
fn uneven_shares_lose_less_than_one_unit_each() {
    let whole = Fixed::from_raw(10);
    let share = whole.div_int(3);
    assert_eq!(share.raw(), 3);
    assert_eq!(share.add(share).add(share).raw(), 9);
}
