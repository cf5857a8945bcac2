use wormhole_field::config::ConfigError;
use wormhole_field::fixed::{Fixed, SCALE};
use wormhole_field::point::Point;
use wormhole_field::portal::{Portal, PortalSet};
use wormhole_field::universe::{Element, Property, Region, Universe, MAX_CROSSINGS};

fn fx(v: f64) -> Fixed {
    Fixed::from_raw((v * SCALE as f64).round() as i64)
}

fn pt(x: f64, y: f64) -> Point {
    Point { x: fx(x), y: fx(y) }
}

fn portal(ax: f64, ay: f64, bx: f64, by: f64) -> Portal {
    Portal::new(pt(ax, ay), pt(bx, by)).unwrap()
}

fn cell(mass: f64, field_x: f64, field_y: f64) -> Element {
    Element { mass: Property { value: fx(mass), field: pt(field_x, field_y) } }
}

/// A grid whose cell in column `x` of row `y` has mass `10 y + x`.
fn numbered(width: u32, height: u32) -> Universe {
    let mut u = Universe::new(width, height).unwrap();
    for y in 0..height {
        for x in 0..width {
            *u.index_mut(x, y).unwrap() = Region::Element(cell((10 * y + x) as f64, 0.0, 0.0));
        }
    }
    u
}

#[test]
fn a_grid_needs_columns_and_rows() {
    assert_eq!(Universe::new(0, 5).err(), Some(ConfigError::EmptyGrid));
    assert_eq!(Universe::new(5, 0).err(), Some(ConfigError::EmptyGrid));
    assert_eq!(Universe::new(0, 0).err(), Some(ConfigError::EmptyGrid));
    assert_eq!(Universe::new(0, u32::MAX).err(), Some(ConfigError::EmptyGrid));
    assert!(Universe::new(1, 1).is_ok());
}

#[test]
fn a_grid_may_be_as_wide_as_the_machine_can_hold() {
    let wide = Universe::new(20000, 1).unwrap();
    assert_eq!(wide.width(), 20000);
    assert_eq!(wide.height(), 1);
    assert!(pt(19999.5, 0.5).is_inside(&wide));
    assert!(!pt(20000.0, 0.5).is_inside(&wide));
    assert_eq!(wide.get_from_point(pt(19999.5, 0.5)), Some(cell(0.0, 0.0, 0.0)));
    let high = Universe::new(2, 300000).unwrap();
    assert_eq!(high.index(1, 299999).unwrap().element(), Some(cell(0.0, 0.0, 0.0)));
    assert!(pt(1.5, 299999.5).is_inside(&high));
    assert_eq!(high.move_in_universe(pt(1.5, 299999.5), pt(0.0, -299999.0)), (pt(1.5, 0.5), pt(0.0, -299999.0)));
}

#[test]
fn a_new_grid_is_blank() {
    let u = Universe::new(3, 2).unwrap();
    assert_eq!(u.width(), 3);
    assert_eq!(u.height(), 2);
    assert!(u.portals().is_empty());
    for y in 0..2 {
        for x in 0..3 {
            assert_eq!(u.index(x, y), Some(&Region::default()));
            assert_eq!(u.index(x, y).unwrap().element(), Some(cell(0.0, 0.0, 0.0)));
        }
    }
}

#[test]
fn blank_cells_by_default() {
    assert_eq!(Property::default(), Property { value: Fixed::zero(), field: pt(0.0, 0.0) });
    assert_eq!(Element::default(), cell(0.0, 0.0, 0.0));
    assert_eq!(Region::default(), Region::Element(cell(0.0, 0.0, 0.0)));
}

#[test]
fn a_region_gives_its_cell() {
    let mut region = Region::Element(cell(2.0, 1.0, -1.0));
    assert_eq!(region.element(), Some(cell(2.0, 1.0, -1.0)));
    region.element_mut().unwrap().mass.value = fx(3.0);
    assert_eq!(region, Region::Element(cell(3.0, 1.0, -1.0)));
}

#[test]
fn cells_outside_the_grid_are_absent() {
    let mut u = Universe::new(3, 2).unwrap();
    assert_eq!(u.index(3, 0), None);
    assert_eq!(u.index(0, 2), None);
    assert_eq!(u.index(u32::MAX, u32::MAX), None);
    assert!(u.index_mut(3, 1).is_none());
    assert!(u.index_mut(2, 1).is_some());
}

#[test]
fn a_cell_is_written_through_its_column_and_row() {
    let u = numbered(3, 2);
    for y in 0..2 {
        for x in 0..3 {
            assert_eq!(u.index(x, y).unwrap().element(), Some(cell((10 * y + x) as f64, 0.0, 0.0)));
        }
    }
}

#[test]
fn a_point_is_inside_from_the_low_edge_up_to_the_high_edge() {
    let u = Universe::new(3, 2).unwrap();
    assert!(pt(0.0, 0.0).is_inside(&u));
    assert!(pt(2.5, 1.5).is_inside(&u));
    assert!(Point { x: Fixed::from_raw(fx(3.0).raw() - 1), y: Fixed::from_raw(fx(2.0).raw() - 1) }.is_inside(&u));
    assert!(!pt(3.0, 1.0).is_inside(&u));
    assert!(!pt(1.0, 2.0).is_inside(&u));
    assert!(!Point { x: Fixed::from_raw(-1), y: fx(1.0) }.is_inside(&u));
    assert!(!Point { x: fx(1.0), y: Fixed::from_raw(-1) }.is_inside(&u));
}

#[test]
fn a_position_belongs_to_the_cell_of_its_whole_parts() {
    let u = numbered(3, 2);
    assert_eq!(u.get_from_point(pt(0.0, 0.0)), Some(cell(0.0, 0.0, 0.0)));
    assert_eq!(u.get_from_point(pt(2.99, 0.5)), Some(cell(2.0, 0.0, 0.0)));
    assert_eq!(u.get_from_point(pt(1.0, 1.0)), Some(cell(11.0, 0.0, 0.0)));
    assert_eq!(u.get_from_point(pt(1.75, 1.25)), Some(cell(11.0, 0.0, 0.0)));
}

#[test]
fn a_position_outside_the_grid_has_no_cell() {
    let mut u = numbered(3, 2);
    assert_eq!(u.get_from_point(pt(3.0, 0.5)), None);
    assert_eq!(u.get_from_point(pt(-0.25, 0.5)), None);
    assert_eq!(u.get_from_point(pt(1.0, 2.0)), None);
    assert_eq!(u.get_from_point(pt(1.0, -0.25)), None);
    assert!(u.get_from_point_mut(pt(3.0, 0.5)).is_none());
    assert!(u.get_from_point_mut(pt(1.0, -0.25)).is_none());
}

#[test]
fn a_cell_is_written_through_a_position() {
    let mut u = numbered(3, 2);
    u.get_from_point_mut(pt(1.5, 1.5)).unwrap().mass.field = pt(0.5, -0.5);
    assert_eq!(u.get_from_point(pt(1.0, 1.0)), Some(cell(11.0, 0.5, -0.5)));
    assert_eq!(u.index(1, 1).unwrap().element(), Some(cell(11.0, 0.5, -0.5)));
    assert_eq!(u.index(0, 1).unwrap().element(), Some(cell(10.0, 0.0, 0.0)));
    assert_eq!(u.index(1, 0).unwrap().element(), Some(cell(1.0, 0.0, 0.0)));
}

#[test]
fn a_copy_is_independent() {
    let mut u = numbered(3, 2);
    u.add_portal_set(PortalSet::new(portal(0.0, 0.0, 0.0, 2.0), portal(3.0, 0.0, 3.0, 2.0)));
    let copy = u.clone();
    u.get_from_point_mut(pt(1.5, 1.5)).unwrap().mass.field = pt(0.5, -0.5);
    assert_eq!(copy.width(), 3);
    assert_eq!(copy.height(), 2);
    assert_eq!(copy.portals(), u.portals());
    assert_eq!(copy.get_from_point(pt(1.5, 1.5)), Some(cell(11.0, 0.0, 0.0)));
}

#[test]
fn a_section_copies_a_rectangle() {
    let mut u = numbered(4, 3);
    u.add_portal_set(PortalSet::new(portal(0.0, 0.0, 0.0, 3.0), portal(4.0, 0.0, 4.0, 3.0)));
    let s = u.section(1, 1, 2, 2).unwrap();
    assert_eq!(s.width(), 2);
    assert_eq!(s.height(), 2);
    assert!(s.portals().is_empty());
    assert_eq!(s.index(0, 0).unwrap().element(), Some(cell(11.0, 0.0, 0.0)));
    assert_eq!(s.index(1, 0).unwrap().element(), Some(cell(12.0, 0.0, 0.0)));
    assert_eq!(s.index(0, 1).unwrap().element(), Some(cell(21.0, 0.0, 0.0)));
    assert_eq!(s.index(1, 1).unwrap().element(), Some(cell(22.0, 0.0, 0.0)));
    let whole = u.section(0, 0, 4, 3).unwrap();
    for y in 0..3 {
        for x in 0..4 {
            assert_eq!(whole.index(x, y), u.index(x, y));
        }
    }
}

#[test]
fn a_section_must_lie_within_the_grid() {
    let u = numbered(4, 3);
    assert!(u.section(1, 1, 4, 2).is_none());
    assert!(u.section(1, 1, 2, 3).is_none());
    assert!(u.section(4, 0, 1, 1).is_none());
    assert!(u.section(0, 0, 0, 1).is_none());
    assert!(u.section(0, 0, 1, 0).is_none());
    assert!(u.section(u32::MAX, 0, 2, 1).is_none());
    assert!(u.section(3, 2, 1, 1).is_some());
}

#[test]
fn portals_are_kept_in_the_order_they_were_attached() {
    let mut u = Universe::new(10, 10).unwrap();
    let first = PortalSet::new(portal(2.0, 2.0, 2.0, 6.0), portal(8.0, 2.0, 8.0, 6.0));
    let second = PortalSet::new(portal(1.0, 1.0, 5.0, 1.0), portal(1.0, 9.0, 5.0, 9.0));
    u.add_portal_set(first);
    u.add_portal_set(second);
    assert_eq!(u.portals(), &vec![first, second]);
}

#[test]
fn without_portals_a_step_is_a_plain_sum() {
    let u = Universe::new(10, 10).unwrap();
    assert_eq!(u.move_in_universe(pt(3.0, 4.0), pt(-2.0, 0.5)), (pt(1.0, 4.5), pt(-2.0, 0.5)));
    assert_eq!(u.move_in_universe(pt(9.0, 9.0), pt(2.0, 2.0)), (pt(11.0, 11.0), pt(2.0, 2.0)));
}

#[test]
fn a_step_of_no_length_changes_nothing() {
    let mut u = Universe::new(10, 10).unwrap();
    let still = pt(0.0, 0.0);
    for p in [pt(3.0, 4.0), pt(2.0, 4.0), pt(0.0, 0.0), pt(9.99, 9.99), pt(8.0, 2.0)] {
        assert_eq!(u.move_in_universe(p, still), (p, still));
    }
    u.add_portal_set(PortalSet::new(portal(2.0, 2.0, 2.0, 6.0), portal(8.0, 2.0, 8.0, 6.0)));
    for p in [pt(3.0, 4.0), pt(2.0, 4.0), pt(0.0, 0.0), pt(9.99, 9.99), pt(8.0, 2.0)] {
        assert_eq!(u.move_in_universe(p, still), (p, still));
    }
}

#[test]
fn a_step_that_meets_no_portal_is_a_plain_sum() {
    let mut u = Universe::new(10, 10).unwrap();
    u.add_portal_set(PortalSet::new(portal(2.0, 2.0, 2.0, 6.0), portal(8.0, 2.0, 8.0, 6.0)));
    assert_eq!(u.move_in_universe(pt(5.0, 4.0), pt(1.0, 1.0)), (pt(6.0, 5.0), pt(1.0, 1.0)));
    assert_eq!(u.move_in_universe(pt(3.0, 7.0), pt(-2.0, 0.0)), (pt(1.0, 7.0), pt(-2.0, 0.0)));
}

#[test]
fn a_step_through_a_portal_goes_on_behind_its_twin() {
    let mut u = Universe::new(10, 10).unwrap();
    u.add_portal_set(PortalSet::new(portal(2.0, 2.0, 2.0, 6.0), portal(8.0, 2.0, 8.0, 6.0)));
    assert_eq!(u.move_in_universe(pt(3.0, 4.0), pt(-2.0, 0.0)), (pt(7.0, 4.0), pt(-2.0, 0.0)));
    assert_eq!(u.move_in_universe(pt(3.0, 4.0), pt(-2.0, 0.5)), (pt(7.0, 4.5), pt(-2.0, 0.5)));
}

#[test]
fn there_and_back_through_twin_portals() {
    let mut u = Universe::new(10, 10).unwrap();
    u.add_portal_set(PortalSet::new(portal(2.0, 2.0, 2.0, 6.0), portal(8.0, 2.0, 8.0, 6.0)));
    let start = pt(3.0, 4.0);
    let speed = pt(-2.0, 0.5);
    let (there, arrived) = u.move_in_universe(start, speed);
    assert_eq!(arrived, speed);
    let reversed = Point { x: arrived.x.neg(), y: arrived.y.neg() };
    let (back, returned) = u.move_in_universe(there, reversed);
    assert_eq!(back, start);
    assert_eq!(returned, reversed);
}

#[test]
fn there_and_back_with_awkward_numbers_comes_close() {
    let raw = |x: i64, y: i64| Point { x: Fixed::from_raw(x), y: Fixed::from_raw(y) };
    let mut u = Universe::new(12, 12).unwrap();
    // Two portals with the vector (0.8, 4.4), the second (6.3, 0.4) from the first.
    let first = Portal::new(raw(2254857830, 2469606195), raw(3113851289, 7194070221)).unwrap();
    let second = Portal::new(raw(9019431321, 2899102925), raw(9878424780, 7623566951)).unwrap();
    u.add_portal_set(PortalSet::new(first, second));
    let start = raw(3972844749, 5261334938);
    let speed = raw(-2469606195, 751619277);
    let (there, arrived) = u.move_in_universe(start, speed);
    assert_eq!(arrived, speed);
    assert_eq!(there, raw(8267812046, 6442450942));
    let reversed = Point { x: arrived.x.neg(), y: arrived.y.neg() };
    let (back, returned) = u.move_in_universe(there, reversed);
    assert_eq!(returned, reversed);
    assert_eq!(back, raw(3972844745, 5261334933));
    // The vector of the portals spans 5.2 units, which allows for 6 raw
    // units of rounding and 2 more on each way.
    let allowed = 2 * (5 + 1 + 2);
    assert!((back.x.raw() - start.x.raw()).abs() <= allowed);
    assert!((back.y.raw() - start.y.raw()).abs() <= allowed);
}

#[test]
fn only_the_first_portal_pair_acts() {
    let mut u = Universe::new(10, 10).unwrap();
    u.add_portal_set(PortalSet::new(portal(2.0, 2.0, 2.0, 6.0), portal(8.0, 2.0, 8.0, 6.0)));
    u.add_portal_set(PortalSet::new(portal(5.0, 0.0, 5.0, 10.0), portal(6.0, 0.0, 6.0, 10.0)));
    assert_eq!(u.move_in_universe(pt(4.5, 4.0), pt(1.0, 0.0)), (pt(5.5, 4.0), pt(1.0, 0.0)));
}

#[test]
fn what_is_left_of_a_long_step_is_stretched_as_the_exit_portal_is() {
    let mut u = Universe::new(10, 10).unwrap();
    // Crossing the short portal stretches what is left of the step by four,
    // and turns it back toward the long portal.
    u.add_portal_set(PortalSet::new(portal(4.0, 4.0, 4.0, 5.0), portal(6.0, 6.0, 6.0, 2.0)));
    let (position, speed) = u.move_in_universe(pt(4.5, 4.5), pt(-1.0, 0.0));
    assert_eq!((position, speed), (pt(8.0, 4.0), pt(4.0, 0.0)));
}

#[test]
fn a_long_step_crosses_twice() {
    let mut u = Universe::new(10, 10).unwrap();
    u.add_portal_set(PortalSet::new(portal(4.0, 1.0, 4.0, 9.0), portal(6.0, 1.0, 6.0, 9.0)));
    // One unit to the first portal, two from its twin back to it, and the
    // last half unit from the twin again.
    assert_eq!(u.move_in_universe(pt(5.0, 5.0), pt(-3.5, 0.0)), (pt(5.5, 5.0), pt(-3.5, 0.0)));
    // What is left after the first crossing ends on the line of the entry
    // portal, which is no crossing.
    assert_eq!(u.move_in_universe(pt(5.0, 5.0), pt(-3.0, 0.0)), (pt(4.0, 5.0), pt(-3.0, 0.0)));
    assert_eq!(u.move_in_universe(pt(5.0, 5.0), pt(-5.75, 0.0)), (pt(5.25, 5.0), pt(-5.75, 0.0)));
}

#[test]
fn a_step_that_never_settles_is_cut_off_at_the_exit() {
    let mut u = Universe::new(10, 10).unwrap();
    // The exit portal is four times as long as the entry portal and faces
    // it, so that what is left of the step grows with every crossing.
    u.add_portal_set(PortalSet::new(portal(4.0, 4.0, 4.0, 5.0), portal(6.0, 2.0, 6.0, 6.0)));
    let start = Point { x: fx(4.5), y: Fixed::from_raw(5010795179) };
    let (position, speed) = u.move_in_universe(start, pt(-1.5, 0.0));
    assert_eq!(MAX_CROSSINGS, 8);
    // Nine crossings, each of which stretched the velocity by four.
    assert_eq!(position, Point { x: fx(6.0), y: Fixed::from_raw(5010882560) });
    assert_eq!(speed, pt(-393216.0, 0.0));
}
