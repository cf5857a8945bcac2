use wormhole_field::fixed::{Fixed, LIMIT, SCALE};
use wormhole_field::point::Point;

fn fx(v: f64) -> Fixed {
    Fixed::from_raw((v * SCALE as f64).round() as i64)
}

fn pt(x: f64, y: f64) -> Point {
    Point { x: fx(x), y: fx(y) }
}

#[test]
fn points_on_the_axes() {
    assert_eq!(Point::by_x(fx(2.5)), pt(2.5, 0.0));
    assert_eq!(Point::by_y(fx(-2.5)), pt(0.0, -2.5));
    assert_eq!(Point::default(), pt(0.0, 0.0));
}

#[test]
fn sum_and_difference_of_points() {
    assert_eq!(pt(1.0, 2.0) + pt(3.0, -4.5), pt(4.0, -2.5));
    assert_eq!(pt(1.0, 2.0) - pt(3.0, -4.5), pt(-2.0, 6.5));
}

#[test]
fn sum_and_difference_with_a_pair() {
    assert_eq!(pt(1.0, 2.0) + (fx(3.0), fx(-4.5)), pt(4.0, -2.5));
    assert_eq!(pt(1.0, 2.0) - (fx(3.0), fx(-4.5)), pt(-2.0, 6.5));
}

#[test]
fn sums_saturate_by_coordinate() {
    let r = pt(4000000000.0, 1.0) + pt(1000000000.0, 1.0);
    assert_eq!(r.x.raw(), LIMIT);
    assert_eq!(r.y, fx(2.0));
}

#[test]
fn scaling_by_a_scalar() {
    assert_eq!(pt(1.0, -2.0) * fx(1.5), pt(1.5, -3.0));
    assert_eq!(pt(1.5, -3.0) / fx(1.5), pt(1.0, -2.0));
    assert_eq!(pt(1.0, 2.0) / fx(3.0), Point { x: Fixed::from_raw(357913941), y: Fixed::from_raw(715827882) });
}

#[test]
fn complex_product() {
    assert_eq!(pt(1.0, 2.0) * pt(3.0, 4.0), pt(-5.0, 10.0));
    assert_eq!((pt(1.0, 2.0) * pt(3.0, 4.0)).x.raw(), -5368709120);
    assert_eq!((pt(1.0, 2.0) * pt(3.0, 4.0)).y.raw(), 10737418240);
}

#[test]
fn multiplying_by_i_turns_a_quarter() {
    let i = pt(0.0, 1.0);
    assert_eq!(pt(1.0, 0.0) * i, pt(0.0, 1.0));
    assert_eq!(pt(0.0, 1.0) * i, pt(-1.0, 0.0));
    assert_eq!(pt(2.0, 3.0) * i, pt(-3.0, 2.0));
}

#[test]
fn complex_quotient() {
    assert_eq!(pt(-5.0, 10.0) / pt(3.0, 4.0), pt(1.0, 2.0));
    assert_eq!(pt(2.0, 0.0) / pt(0.0, 4.0), pt(0.0, -0.5));
    assert_eq!(pt(3.0, 4.0) / pt(3.0, 4.0), pt(1.0, 0.0));
    assert_eq!(pt(0.0, 0.0) / pt(3.0, 4.0), pt(0.0, 0.0));
}

#[test]
fn quotients_of_long_vectors() {
    let r = pt(1000000000.0, 2000000000.0) / pt(3000000000.0, -1000000000.0);
    assert_eq!((r.x.raw(), r.y.raw()), (107374182, 751619276));
    let odd = Point { x: Fixed::from_raw(123456789012345678), y: Fixed::from_raw(-987654321098765432) }
        / Point { x: Fixed::from_raw(-3333333333333333333), y: Fixed::from_raw(2222222222222222221) };
    assert_eq!((odd.x.raw(), odd.y.raw()), (-174368330, 201900172));
}

#[test]
fn quotients_saturate_by_coordinate() {
    let tiny = Point { x: Fixed::from_raw(1), y: Fixed::zero() };
    let r = pt(4000000000.0, 0.0) / tiny;
    assert_eq!((r.x.raw(), r.y.raw()), (LIMIT, 0));
    let s = Point { x: fx(-4000000000.0), y: Fixed::from_raw(1) } / tiny;
    assert_eq!((s.x.raw(), s.y.raw()), (-LIMIT, SCALE));
}

#[test]
fn quotient_of_a_vector_by_itself_is_one_exactly() {
    let awkward = Point { x: Fixed::from_raw(3), y: Fixed::from_raw(-7) };
    assert_eq!(awkward / awkward, pt(1.0, 0.0));
    let long = pt(4000000000.0, -3000000000.0);
    assert_eq!(long / long, pt(1.0, 0.0));
    let longest = Point { x: Fixed::from_raw(LIMIT), y: Fixed::from_raw(-LIMIT) };
    assert_eq!(longest / longest, pt(1.0, 0.0));
}

#[test]
fn magnitude_and_its_square() {
    assert_eq!(pt(3.0, 4.0).magnitude(), fx(5.0));
    assert_eq!(pt(3.0, 4.0).magnitude().raw(), 5368709120);
    assert_eq!(pt(3.0, 4.0).magnitude_2(), fx(25.0));
    assert_eq!(pt(-3.0, -4.0).magnitude(), fx(5.0));
    assert_eq!(pt(0.0, 0.0).magnitude(), Fixed::zero());
    assert_eq!(pt(0.0, 0.0).magnitude_2(), Fixed::zero());
}

#[test]
fn magnitude_rounds_down() {
    // The square root of 2 in 30 fractional bits.
    assert_eq!(pt(1.0, 1.0).magnitude().raw(), 1518500249);
    let tiny = Point { x: Fixed::from_raw(1), y: Fixed::from_raw(1) };
    assert_eq!(tiny.magnitude().raw(), 1);
    assert_eq!(tiny.magnitude_2().raw(), 0);
}

#[test]
fn magnitude_saturates() {
    assert_eq!(pt(4000000000.0, 4000000000.0).magnitude().raw(), LIMIT);
    assert_eq!(pt(70000.0, 0.0).magnitude_2().raw(), LIMIT);
    assert_eq!(pt(3000000000.0, 0.0).magnitude(), fx(3000000000.0));
}

#[test]
fn direction_has_unit_length() {
    let d = pt(3.0, 4.0).direction();
    assert_eq!(d.x.raw(), 644245094);
    assert_eq!(d.y.raw(), 858993459);
    assert_eq!(pt(0.0, -7.0).direction(), pt(0.0, -1.0));
    assert_eq!(pt(2.0, 0.0).direction(), pt(1.0, 0.0));
}

#[test]
fn complex_inverse() {
    assert_eq!(pt(0.0, 2.0).inv(), pt(0.0, -0.5));
    assert_eq!(pt(4.0, 0.0).inv(), pt(0.25, 0.0));
    assert_eq!(pt(1.0, 1.0).inv(), pt(0.5, -0.5));
    assert_eq!(pt(3.0, 4.0) * pt(1.0, 1.0).inv(), pt(3.5, 0.5));
}

#[test]
fn operations_in_place() {
    let mut p = pt(1.0, 2.0);
    p.add_assign(pt(0.5, 0.5));
    assert_eq!(p, pt(1.5, 2.5));
    p.sub_assign(pt(1.0, 3.0));
    assert_eq!(p, pt(0.5, -0.5));
    p.mul_assign(fx(4.0));
    assert_eq!(p, pt(2.0, -2.0));
    p.div_assign(fx(8.0));
    assert_eq!(p, pt(0.25, -0.25));
}
