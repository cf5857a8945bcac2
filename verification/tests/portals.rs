use wormhole_field::config::ConfigError;
use wormhole_field::fixed::{Fixed, SCALE};
use wormhole_field::point::Point;
use wormhole_field::portal::{Portal, PortalSet};

fn fx(v: f64) -> Fixed {
    Fixed::from_raw((v * SCALE as f64).round() as i64)
}

fn pt(x: f64, y: f64) -> Point {
    Point { x: fx(x), y: fx(y) }
}

fn portal(ax: f64, ay: f64, bx: f64, by: f64) -> Portal {
    Portal::new(pt(ax, ay), pt(bx, by)).unwrap()
}

/// Two upright portals of length 4, six units apart.
fn twins() -> PortalSet {
    PortalSet::new(portal(2.0, 2.0, 2.0, 6.0), portal(8.0, 2.0, 8.0, 6.0))
}

/// An upright portal of length 4 and a level one of length 2.
fn unequal() -> PortalSet {
    PortalSet::new(portal(2.0, 2.0, 2.0, 6.0), portal(8.0, 3.0, 10.0, 3.0))
}

#[test]
fn a_portal_needs_two_distinct_endpoints() {
    assert_eq!(Portal::new(pt(1.0, 2.0), pt(1.0, 2.0)), Err(ConfigError::DegeneratePortal));
    assert_eq!(Portal::new(pt(0.0, 0.0), pt(0.0, 0.0)), Err(ConfigError::DegeneratePortal));
    assert!(Portal::new(pt(1.0, 2.0), Point { x: fx(1.0), y: Fixed::from_raw(fx(2.0).raw() + 1) }).is_ok());
}

#[test]
fn a_portal_keeps_its_endpoints() {
    let p = portal(2.0, 2.0, 2.0, 6.0);
    assert_eq!(p.point_a(), pt(2.0, 2.0));
    assert_eq!(p.point_b(), pt(2.0, 6.0));
}

#[test]
fn size_is_the_distance_between_the_endpoints() {
    assert_eq!(portal(2.0, 2.0, 2.0, 6.0).size(), fx(4.0));
    assert_eq!(portal(0.0, 0.0, 3.0, 4.0).size(), fx(5.0));
    assert_eq!(portal(3.0, 4.0, 0.0, 0.0).size(), fx(5.0));
}

#[test]
fn endpoints_in_the_portal_frame() {
    for p in [
        portal(2.0, 2.0, 2.0, 6.0),
        portal(0.0, 0.0, 3.0, 4.0),
        portal(-7.25, 3.5, 1.125, -9.0),
        Portal::new(Point { x: Fixed::from_raw(1), y: Fixed::from_raw(2) }, Point { x: Fixed::from_raw(4), y: Fixed::from_raw(-5) }).unwrap(),
    ] {
        assert_eq!(p.relative_position(p.point_a()), pt(0.0, 0.0));
        assert_eq!(p.relative_position(p.point_b()), pt(1.0, 0.0));
    }
}

#[test]
fn positions_in_the_portal_frame() {
    let p = portal(2.0, 2.0, 2.0, 6.0);
    assert_eq!(p.relative_position(pt(2.0, 4.0)), pt(0.5, 0.0));
    assert_eq!(p.relative_position(pt(3.0, 4.0)), pt(0.5, -0.25));
    assert_eq!(p.relative_position(pt(1.0, 4.0)), pt(0.5, 0.25));
    assert_eq!(p.relative_position(pt(2.0, 10.0)), pt(2.0, 0.0));
}

#[test]
fn frame_coordinates_back_in_the_world() {
    let p = portal(2.0, 2.0, 2.0, 6.0);
    assert_eq!(p.reverted_relative_position(pt(0.0, 0.0)), pt(2.0, 2.0));
    assert_eq!(p.reverted_relative_position(pt(1.0, 0.0)), pt(2.0, 6.0));
    assert_eq!(p.reverted_relative_position(pt(0.5, 0.25)), pt(1.0, 4.0));
    assert_eq!(p.reverted_relative_position(p.relative_position(pt(7.0, -3.0))), pt(7.0, -3.0));
}

#[test]
fn signed_distance_tells_the_side() {
    let p = portal(2.0, 2.0, 2.0, 6.0);
    assert_eq!(p.signed_distance(pt(3.0, 4.0)), fx(-0.25));
    assert_eq!(p.signed_distance(pt(1.0, 4.0)), fx(0.25));
    assert_eq!(p.signed_distance(pt(2.0, 100.0)), Fixed::zero());
}

#[test]
fn a_pair_reports_both_portals() {
    let set = unequal();
    assert_eq!(set.a, portal(2.0, 2.0, 2.0, 6.0));
    assert_eq!(set.b, portal(8.0, 3.0, 10.0, 3.0));
    assert_eq!(set.sizes(), [fx(4.0), fx(2.0)]);
    assert_eq!(set.relative_positions(pt(3.0, 4.0)), [pt(0.5, -0.25), pt(-2.5, 0.5)]);
    assert_eq!(set.signed_distances(pt(3.0, 4.0)), [fx(-0.25), fx(0.5)]);
}

#[test]
fn a_move_that_reaches_no_portal_does_not_cross() {
    let set = twins();
    assert_eq!(set.cross(pt(3.0, 4.0), pt(-0.5, 0.0), pt(-0.5, 0.0)), None);
    assert_eq!(set.cross(pt(5.0, 4.0), pt(0.0, 3.0), pt(0.0, 3.0)), None);
}

#[test]
fn a_move_of_no_length_does_not_cross() {
    let set = twins();
    assert_eq!(set.cross(pt(3.0, 4.0), pt(-2.0, 0.0), pt(0.0, 0.0)), None);
    assert_eq!(set.cross(pt(2.0, 4.0), pt(0.0, 0.0), pt(0.0, 0.0)), None);
}

#[test]
fn a_move_that_ends_on_the_line_does_not_cross() {
    let set = twins();
    assert_eq!(set.cross(pt(3.0, 4.0), pt(-1.0, 0.0), pt(-1.0, 0.0)), None);
}

#[test]
fn a_move_that_passes_beside_the_segment_does_not_cross() {
    let set = twins();
    assert_eq!(set.cross(pt(3.0, 7.0), pt(-2.0, 0.0), pt(-2.0, 0.0)), None);
    assert_eq!(set.cross(pt(3.0, 1.0), pt(-2.0, 0.0), pt(-2.0, 0.0)), None);
}

#[test]
fn a_move_through_the_very_end_of_the_segment_crosses() {
    let set = twins();
    assert_eq!(
        set.cross(pt(3.0, 6.0), pt(-2.0, 0.0), pt(-2.0, 0.0)),
        Some((pt(8.0, 6.0), pt(-2.0, 0.0), pt(-1.0, 0.0)))
    );
    assert_eq!(
        set.cross(pt(3.0, 2.0), pt(-2.0, 0.0), pt(-2.0, 0.0)),
        Some((pt(8.0, 2.0), pt(-2.0, 0.0), pt(-1.0, 0.0)))
    );
}

#[test]
fn crossing_between_twin_portals_keeps_the_velocity() {
    let set = twins();
    assert_eq!(
        set.cross(pt(3.0, 4.0), pt(-2.0, 0.0), pt(-2.0, 0.0)),
        Some((pt(8.0, 4.0), pt(-2.0, 0.0), pt(-1.0, 0.0)))
    );
    assert_eq!(
        set.cross(pt(7.0, 4.0), pt(2.0, 0.0), pt(2.0, 0.0)),
        Some((pt(2.0, 4.0), pt(2.0, 0.0), pt(1.0, 0.0)))
    );
}

#[test]
fn crossing_into_a_portal_of_half_the_length_halves_the_speed() {
    let set = unequal();
    let (position, speed, rest) = set.cross(pt(3.0, 4.0), pt(-2.0, 0.0), pt(-2.0, 0.0)).unwrap();
    // The exit portal is half as long and a quarter turn behind the entry
    // portal: the speed halves and the heading turns from west to north.
    assert_eq!(speed, pt(0.0, 1.0));
    assert_eq!(speed.magnitude(), pt(-2.0, 0.0).magnitude().div_int(2));
    assert_eq!(position, pt(9.0, 3.0));
    assert_eq!(rest, pt(0.0, 0.5));
}

#[test]
fn crossing_into_a_portal_of_twice_the_length_doubles_the_speed() {
    let set = unequal();
    assert_eq!(
        set.cross(pt(9.0, 4.0), pt(0.0, -2.0), pt(0.0, -2.0)),
        Some((pt(2.0, 4.0), pt(4.0, 0.0), pt(2.0, 0.0)))
    );
}

#[test]
fn a_crossing_lands_where_the_move_was_aimed_in_the_frame_of_the_exit() {
    let set = unequal();
    let start = pt(3.0, 4.0);
    let movement = pt(-2.0, 0.0);
    let (position, _, rest) = set.cross(start, movement, movement).unwrap();
    let aimed = set.a.relative_position(start + movement);
    assert_eq!(aimed, pt(0.5, 0.25));
    assert_eq!(set.b.relative_position(position), pt(0.5, 0.0));
    assert_eq!(set.b.relative_position(position + rest), aimed);
}

#[test]
fn the_nearer_portal_is_entered_when_both_lines_are_crossed() {
    let set = PortalSet::new(portal(2.0, 0.0, 2.0, 10.0), portal(4.0, 0.0, 4.0, 10.0));
    let (from_right, _, _) = set.cross(pt(5.0, 5.0), pt(-4.0, 0.0), pt(-4.0, 0.0)).unwrap();
    assert_eq!(from_right, pt(2.0, 5.0));
    let (from_left, _, _) = set.cross(pt(1.0, 5.0), pt(4.0, 0.0), pt(4.0, 0.0)).unwrap();
    assert_eq!(from_left, pt(4.0, 5.0));
}

#[test]
fn the_velocity_is_turned_even_when_it_is_not_the_movement() {
    let set = unequal();
    let (_, speed, rest) = set.cross(pt(3.0, 4.0), pt(-8.0, 4.0), pt(-2.0, 0.0)).unwrap();
    assert_eq!(speed, pt(2.0, 4.0));
    assert_eq!(rest, pt(0.0, 0.5));
}
