//! Portals: oriented segments that come in linked pairs, and the test that
//! decides whether a move passes through one of them.

use crate::config::ConfigError;
use crate::fixed::{
    fixed_mul, in_range, lemma_trunc_div_between, lemma_trunc_div_odd, lemma_trunc_div_remainder,
    lemma_trunc_div_sum, narrow, saturate, trunc_div, wide_div, wide_mul, Fixed, LIMIT, SCALE,
};
use crate::point::{lemma_norm2_positive, lemma_over_then_times, Point, Vec2};
use vstd::prelude::*;

verus! {

/// What a `Portal` stands for: an oriented segment from `a` to `b`.
pub struct Segment {
    pub a: Vec2,
    pub b: Vec2,
}

impl Segment {
    /// Both endpoints are representable and they differ.
    pub open spec fn wf(self) -> bool {
        self.a.wf() && self.b.wf() && self.a != self.b
    }

    /// The vector from start to end.
    pub open spec fn delta(self) -> Vec2 {
        self.b.minus(self.a)
    }

    /// The length of the segment.
    pub open spec fn size(self) -> int {
        self.delta().magnitude()
    }

    /// `p` in the frame where the start is the origin and the end is `(1, 0)`.
    pub open spec fn relative(self, p: Vec2) -> Vec2 {
        p.minus(self.a).over(self.delta())
    }

    /// The world position of the frame coordinates `p`.
    pub open spec fn reverted(self, p: Vec2) -> Vec2 {
        p.times(self.delta()).plus(self.a)
    }

    /// The offset of `p` from the segment's line, in units of its length.
    pub open spec fn signed_distance(self, p: Vec2) -> int {
        self.relative(p).y
    }

    /// Whether `start` and `target` lie strictly on opposite sides of the line.
    pub open spec fn separates(self, start: Vec2, target: Vec2) -> bool {
        let before = self.signed_distance(start);
        let after = self.signed_distance(target);
        (before < 0 && after > 0) || (before > 0 && after < 0)
    }

    /// How far `start` is from the line, in world units, without sign.
    pub open spec fn reach(self, start: Vec2) -> int {
        let d = fixed_mul(self.signed_distance(start), self.size());
        if d < 0 {
            -d
        } else {
            d
        }
    }

    /// Where along the segment the straight line from `start` to `target`
    /// meets the segment's line, as a raw fraction of its length.
    pub open spec fn meeting(self, start: Vec2, target: Vec2) -> int
        recommends
            self.separates(start, target),
    {
        let before = self.relative(start);
        let after = self.relative(target);
        trunc_div(before.x * after.y - before.y * after.x, after.y - before.y)
    }
}

/// In its own frame a portal starts at the origin and ends at `(1, 0)`,
/// exactly.
pub proof fn lemma_frame_of_endpoints(s: Segment)
    requires
        s.wf(),
    ensures
        s.relative(s.a) == Vec2::zero(),
        s.relative(s.b) == (Vec2 { x: SCALE as int, y: 0 }),
{
    let d = s.delta();
    let n = d.norm2();
    lemma_norm2_positive(d);
    lemma_over_itself(d);
    assert(s.a.minus(s.a) == Vec2::zero());
    assert(0 * d.x + 0 * d.y == 0 && 0 * d.x - 0 * d.y == 0);
    assert(0 * SCALE == 0);
    assert(0int / n == 0) by (nonlinear_arith)
        requires
            n > 0,
    ;
}

/// The part `e` of a coordinate `d` of a segment that the fraction `x` of its
/// length covers: it lies between zero and `d`, and what rounding it left
/// over, `r`, lies on the side of `d` and below one raw unit of the fraction.
proof fn lemma_part_of_coordinate(x: int, d: int)
    requires
        0 <= x <= SCALE,
    ensures
        ({
            let e = trunc_div(x * d, SCALE as int);
            let r = x * d - SCALE * e;
            &&& d >= 0 ==> 0 <= e <= d && 0 <= r < SCALE
            &&& d <= 0 ==> d <= e <= 0 && -SCALE < r <= 0
        }),
{
    let e = trunc_div(x * d, SCALE as int);
    lemma_trunc_div_remainder(x * d, SCALE as int);
    if d >= 0 {
        assert(0 <= x * d <= SCALE * d) by (nonlinear_arith)
            requires
                0 <= x <= SCALE,
                d >= 0,
        ;
        assert(e <= d) by (nonlinear_arith)
            requires
                x * d - SCALE * e >= 0,
                x * d <= SCALE * d,
                SCALE > 0,
        ;
    } else {
        assert(SCALE * d <= x * d <= 0) by (nonlinear_arith)
            requires
                0 <= x <= SCALE,
                d <= 0,
        ;
        assert(d <= e) by (nonlinear_arith)
            requires
                x * d - SCALE * e <= 0,
                SCALE * d <= x * d,
                SCALE > 0,
        ;
    }
}

/// A rounded part `e` of `x * d`, times another coordinate `c` and brought
/// back to scale, is `x * d * c` less what the rounding left over times `c`.
proof fn lemma_scaled_part(e: int, r: int, x: int, d: int, c: int, unit: int)
    requires
        r == x * d - unit * e,
    ensures
        (e * c) * unit == x * (d * c) - r * c,
{
    assert((e * c) * unit == (unit * e) * c) by (nonlinear_arith);
    assert((x * d - r) * c == x * (d * c) - r * c) by (nonlinear_arith);
}

/// The end of a segment, counted from its start, is representable.
proof fn lemma_delta_stays_in_range(s: Segment)
    requires
        s.wf(),
    ensures
        in_range(s.a.x + s.delta().x),
        in_range(s.a.y + s.delta().y),
        s.delta().x >= 0 ==> s.a.x + s.delta().x <= s.b.x,
        s.delta().x <= 0 ==> s.a.x + s.delta().x >= s.b.x,
        s.delta().y >= 0 ==> s.a.y + s.delta().y <= s.b.y,
        s.delta().y <= 0 ==> s.a.y + s.delta().y >= s.b.y,
{
}

/// Where a move meets the line of a portal lies, along the portal, between
/// where the move starts and where it is aimed.
pub proof fn lemma_meeting_lies_between(s: Segment, start: Vec2, target: Vec2)
    requires
        s.separates(start, target),
    ensures
        least(s.relative(start).x, s.relative(target).x) <= s.meeting(start, target) <= greatest(
            s.relative(start).x,
            s.relative(target).x,
        ),
{
    let b = s.relative(start);
    let a = s.relative(target);
    let num = b.x * a.y - b.y * a.x;
    let den = a.y - b.y;
    let lo = least(b.x, a.x);
    let hi = greatest(b.x, a.x);
    if den > 0 {
        assert(lo * den <= num <= hi * den) by (nonlinear_arith)
            requires
                num == b.x * a.y - b.y * a.x,
                den == a.y - b.y,
                b.y < 0 < a.y,
                lo <= b.x <= hi,
                lo <= a.x <= hi,
        {
            assert(num - b.x * den == (-b.y) * (a.x - b.x));
            assert(num - a.x * den == a.y * (b.x - a.x));
        }
        lemma_trunc_div_between(num, den, lo, hi);
    } else {
        assert(lo * (-den) <= -num <= hi * (-den)) by (nonlinear_arith)
            requires
                num == b.x * a.y - b.y * a.x,
                den == a.y - b.y,
                a.y < 0 < b.y,
                lo <= b.x <= hi,
                lo <= a.x <= hi,
        {
            assert(-num - b.x * (-den) == b.y * (a.x - b.x));
            assert(-num - a.x * (-den) == (-a.y) * (b.x - a.x));
        }
        lemma_trunc_div_between(-num, -den, lo, hi);
        lemma_trunc_div_odd(num, den);
        assert(trunc_div(-num, -den) == trunc_div(num, den));
    }
}

/// The world position of a fraction of a portal's length is the start of the
/// portal plus that fraction of each coordinate of its vector, and nothing
/// saturates on the way.
proof fn lemma_place_of_fraction(s: Segment, x: int)
    requires
        s.wf(),
        0 <= x <= SCALE,
    ensures
        s.reverted(Vec2 { x: x, y: 0 }) == (Vec2 {
            x: s.a.x + trunc_div(x * s.delta().x, SCALE as int),
            y: s.a.y + trunc_div(x * s.delta().y, SCALE as int),
        }),
{
    let d = s.delta();
    lemma_part_of_coordinate(x, d.x);
    lemma_part_of_coordinate(x, d.y);
    lemma_delta_stays_in_range(s);
    assert(x * d.x - 0 * d.y == x * d.x && x * d.y + 0 * d.x == x * d.y);
}

/// The least of two numbers.
pub open spec fn least(a: int, b: int) -> int {
    if a <= b {
        a
    } else {
        b
    }
}

/// The greatest of two numbers.
pub open spec fn greatest(a: int, b: int) -> int {
    if a <= b {
        b
    } else {
        a
    }
}

/// The world position of a fraction of a portal's length lies between the
/// endpoints of the portal.
pub proof fn lemma_fraction_lies_on_segment(s: Segment, x: int)
    requires
        s.wf(),
        0 <= x <= SCALE,
    ensures
        ({
            let world = s.reverted(Vec2 { x: x, y: 0 });
            &&& least(s.a.x, s.b.x) <= world.x <= greatest(s.a.x, s.b.x)
            &&& least(s.a.y, s.b.y) <= world.y <= greatest(s.a.y, s.b.y)
        }),
{
    let d = s.delta();
    lemma_part_of_coordinate(x, d.x);
    lemma_part_of_coordinate(x, d.y);
    lemma_delta_stays_in_range(s);
    assert(x * d.x - 0 * d.y == x * d.x && x * d.y + 0 * d.x == x * d.y);
}

/// A place on a portal that is at least one unit long, given as a fraction
/// of its length, is found again in the frame of the portal: the world
/// position of the fraction `x` has, in the frame, a first coordinate of at
/// most `x` and less than two raw units below it, and a second coordinate of
/// at most one raw unit either way.
pub proof fn lemma_frame_round_trip(s: Segment, x: int)
    requires
        s.wf(),
        0 <= x <= SCALE,
        s.delta().norm2() >= SCALE * SCALE,
    ensures
        ({
            let back = s.relative(s.reverted(Vec2 { x: x, y: 0 }));
            &&& x - 2 <= back.x <= x
            &&& 0 <= back.x
            &&& -1 <= back.y <= 1
        }),
{
    let unit = SCALE as int;
    let d = s.delta();
    let n = d.norm2();
    let met = Vec2 { x: x, y: 0 };
    let ex = trunc_div(x * d.x, unit);
    let ey = trunc_div(x * d.y, unit);
    let rx = x * d.x - unit * ex;
    let ry = x * d.y - unit * ey;
    lemma_part_of_coordinate(x, d.x);
    lemma_part_of_coordinate(x, d.y);
    lemma_delta_stays_in_range(s);
    // The world position is the start plus the two parts.
    assert(x * d.x - 0 * d.y == x * d.x && x * d.y + 0 * d.x == x * d.y);
    assert(met.times(d) == Vec2 { x: ex, y: ey });
    let world = s.reverted(met);
    assert(world == Vec2 { x: s.a.x + ex, y: s.a.y + ey });
    assert(world.minus(s.a) == Vec2 { x: ex, y: ey });
    // What the frame sees of it.
    let along = (ex * d.x + ey * d.y) * unit;
    let across = (ey * d.x - ex * d.y) * unit;
    let back = s.relative(world);
    assert(back.x == saturate(trunc_div(along, n)));
    assert(back.y == saturate(trunc_div(across, n)));
    let lost = rx * d.x + ry * d.y;
    lemma_scaled_part(ex, rx, x, d.x, d.x, unit);
    lemma_scaled_part(ey, ry, x, d.y, d.y, unit);
    lemma_scaled_part(ey, ry, x, d.y, d.x, unit);
    lemma_scaled_part(ex, rx, x, d.x, d.y, unit);
    assert(along == (ex * d.x) * unit + (ey * d.y) * unit) by (nonlinear_arith)
        requires
            along == (ex * d.x + ey * d.y) * unit,
    ;
    assert(across == (ey * d.x) * unit - (ex * d.y) * unit) by (nonlinear_arith)
        requires
            across == (ey * d.x - ex * d.y) * unit,
    ;
    assert(x * n == x * (d.x * d.x) + x * (d.y * d.y)) by (nonlinear_arith)
        requires
            n == d.x * d.x + d.y * d.y,
    ;
    assert(x * (d.y * d.x) == x * (d.x * d.y)) by (nonlinear_arith);
    assert(along == x * n - lost);
    assert(across == rx * d.y - ry * d.x);
    // Both losses stay below twice the squared length.
    let wx = if d.x >= 0 { d.x } else { -d.x };
    let wy = if d.y >= 0 { d.y } else { -d.y };
    let reach = unit * (wx + wy);
    assert(n == wx * wx + wy * wy) by (nonlinear_arith)
        requires
            n == d.x * d.x + d.y * d.y,
            wx == d.x || wx == -d.x,
            wy == d.y || wy == -d.y,
    ;
    assert(reach * reach <= 2 * n * n) by (nonlinear_arith)
        requires
            reach == unit * (wx + wy),
            n >= unit * unit,
            n == wx * wx + wy * wy,
            wx >= 0,
            wy >= 0,
            unit > 0,
    {
        assert((wx + wy) * (wx + wy) <= 2 * n);
        assert(unit * unit * ((wx + wy) * (wx + wy)) <= n * (2 * n));
    }
    assert(reach < 2 * n) by (nonlinear_arith)
        requires
            reach * reach <= 2 * n * n,
            n > 0,
            reach >= 0,
    ;
    assert(0 <= rx * d.x <= unit * wx && 0 <= ry * d.y <= unit * wy) by (nonlinear_arith)
        requires
            d.x >= 0 ==> 0 <= rx < unit && wx == d.x,
            d.x <= 0 ==> -unit < rx <= 0 && wx == -d.x,
            d.y >= 0 ==> 0 <= ry < unit && wy == d.y,
            d.y <= 0 ==> -unit < ry <= 0 && wy == -d.y,
    ;
    assert(-unit * wy <= rx * d.y <= unit * wy && -unit * wx <= ry * d.x <= unit * wx)
        by (nonlinear_arith)
        requires
            -unit < rx < unit,
            -unit < ry < unit,
            wx == d.x || wx == -d.x,
            wy == d.y || wy == -d.y,
            wx >= 0,
            wy >= 0,
    ;
    assert(unit * wx + unit * wy == reach) by (nonlinear_arith)
        requires
            reach == unit * (wx + wy),
    ;
    assert(0 <= lost < 2 * n);
    assert(-2 * n < across < 2 * n);
    assert(ex * d.x >= 0 && ey * d.y >= 0) by (nonlinear_arith)
        requires
            d.x >= 0 ==> ex >= 0,
            d.x <= 0 ==> ex <= 0,
            d.y >= 0 ==> ey >= 0,
            d.y <= 0 ==> ey <= 0,
    ;
    assert(along >= 0) by (nonlinear_arith)
        requires
            along == (ex * d.x + ey * d.y) * unit,
            ex * d.x >= 0,
            ey * d.y >= 0,
            unit > 0,
    ;
    assert(x - 2 <= along / n <= x && 0 <= along / n) by (nonlinear_arith)
        requires
            along == x * n - lost,
            0 <= lost < 2 * n,
            along >= 0,
            n > 0,
    ;
    if across >= 0 {
        assert(0 <= across / n <= 1) by (nonlinear_arith)
            requires
                0 <= across < 2 * n,
                n > 0,
        ;
    } else {
        assert(0 <= (-across) / n <= 1) by (nonlinear_arith)
            requires
                0 <= -across < 2 * n,
                n > 0,
        ;
    }
}

/// An oriented segment with distinct endpoints.
#[derive(Clone, Copy, Debug, PartialEq, Eq, Structural)]
pub struct Portal {
    point_a: Point,
    point_b: Point,
}

impl View for Portal {
    type V = Segment;

    closed spec fn view(&self) -> Segment {
        Segment { a: self.point_a@, b: self.point_b@ }
    }
}

impl Portal {
    /// The endpoints of a portal never coincide.
    #[verifier::type_invariant]
    pub closed spec fn wf(self) -> bool {
        self.point_a@ != self.point_b@
    }

    /// The portal from `a` to `b`; refused when the two coincide.
    pub fn new(a: Point, b: Point) -> (r: Result<Portal, ConfigError>)
        ensures
            match r {
                Ok(p) => a@ != b@ && p@ == (Segment { a: a@, b: b@ }),
                Err(e) => a@ == b@ && e == ConfigError::DegeneratePortal,
            },
    {
        if a.x.raw() == b.x.raw() && a.y.raw() == b.y.raw() {
            Err(ConfigError::DegeneratePortal)
        } else {
            Ok(Portal { point_a: a, point_b: b })
        }
    }

    /// The start of the segment.
    pub fn point_a(&self) -> (r: Point)
        ensures
            r@ == self@.a,
    {
        self.point_a
    }

    /// The end of the segment.
    pub fn point_b(&self) -> (r: Point)
        ensures
            r@ == self@.b,
    {
        self.point_b
    }

    /// The vector from start to end, which is never zero.
    fn delta(&self) -> (r: Point)
        ensures
            r@ == self@.delta(),
            r@ != Vec2::zero(),
            self@.a != self@.b,
    {
        proof {
            use_type_invariant(self);
        }
        self.point_b - self.point_a
    }

    /// The length of the segment.
    pub fn size(&self) -> (r: Fixed)
        ensures
            r@ == self@.size(),
    {
        self.delta().magnitude()
    }

    /// `point` in the portal's own frame.
    pub fn relative_position(&self, point: Point) -> (r: Point)
        ensures
            r@ == self@.relative(point@),
    {
        (point - self.point_a) / self.delta()
    }

    /// The world position of the frame coordinates `point`.
    pub fn reverted_relative_position(&self, point: Point) -> (r: Point)
        ensures
            r@ == self@.reverted(point@),
    {
        point * self.delta() + self.point_a
    }

    /// The offset of `point` from the portal's line, in units of its length.
    pub fn signed_distance(&self, point: Point) -> (r: Fixed)
        ensures
            r@ == self@.signed_distance(point@),
    {
        self.relative_position(point).y
    }
}

/// What a `PortalSet` stands for: two linked segments.
pub struct SegmentPair {
    pub a: Segment,
    pub b: Segment,
}

impl SegmentPair {
    /// Both segments are well formed.
    pub open spec fn wf(self) -> bool {
        self.a.wf() && self.b.wf()
    }

    /// The portal that a move from `start` to `target` enters, followed by the
    /// one it leaves through: the one whose line the move crosses, and the
    /// nearer to `start` when it crosses both lines.
    pub open spec fn passage(self, start: Vec2, target: Vec2) -> Option<(Segment, Segment)> {
        let through_a = self.a.separates(start, target);
        let through_b = self.b.separates(start, target);
        if through_a && (!through_b || self.a.reach(start) < self.b.reach(start)) {
            Some((self.a, self.b))
        } else if through_b {
            Some((self.b, self.a))
        } else {
            None
        }
    }

    /// The outcome of trying to move by `movement` from `point` at velocity
    /// `speed`: nothing when no portal is crossed within its two endpoints,
    /// otherwise the place on the exit portal that matches the place where the
    /// entry portal was met, the velocity turned and stretched as the exit
    /// portal is against the entry portal, and what is left of the movement,
    /// turned and stretched into the exit portal's frame.
    #[verifier::opaque]
    pub open spec fn cross(self, point: Vec2, speed: Vec2, movement: Vec2) -> Option<
        (Vec2, Vec2, Vec2),
    > {
        let target = point.plus(movement);
        match self.passage(point, target) {
            None => None,
            Some((entry, exit)) => {
                let x = entry.meeting(point, target);
                if x < 0 || x > SCALE {
                    None
                } else {
                    let met = Vec2 { x: x, y: 0 };
                    let rest = entry.relative(target).minus(met);
                    Some(
                        (
                            exit.reverted(met),
                            speed.times(exit.delta().over(entry.delta())),
                            rest.times(exit.delta()),
                        ),
                    )
                }
            },
        }
    }
}

/// A move of no length crosses nothing.
pub proof fn lemma_no_move_no_crossing(pair: SegmentPair, point: Vec2, speed: Vec2)
    requires
        point.wf(),
    ensures
        pair.cross(point, speed, Vec2::zero()) is None,
{
    reveal(SegmentPair::cross);
    assert(point.plus(Vec2::zero()) == point);
}

/// A particle that crosses comes out on the exit portal at the fraction of
/// its length at which it met the entry portal, and that fraction lies
/// between 0 and 1.
pub proof fn lemma_crossing_lands_on_exit(
    pair: SegmentPair,
    point: Vec2,
    speed: Vec2,
    movement: Vec2,
)
    requires
        pair.cross(point, speed, movement) is Some,
    ensures
        pair.passage(point, point.plus(movement)) matches Some((entry, exit)) && pair.cross(
            point,
            speed,
            movement,
        ) matches Some((landing, _, _)) && ({
            let x = entry.meeting(point, point.plus(movement));
            &&& 0 <= x <= SCALE
            &&& landing == exit.reverted(Vec2 { x: x, y: 0 })
        }),
{
    reveal(SegmentPair::cross);
}

/// A particle that crosses comes out between the two endpoints of the exit
/// portal.
pub proof fn lemma_crossing_lands_between_endpoints(
    pair: SegmentPair,
    point: Vec2,
    speed: Vec2,
    movement: Vec2,
)
    requires
        pair.wf(),
        pair.cross(point, speed, movement) is Some,
    ensures
        pair.passage(point, point.plus(movement)) matches Some((_, exit)) && pair.cross(
            point,
            speed,
            movement,
        ) matches Some((landing, _, _)) && ({
            &&& least(exit.a.x, exit.b.x) <= landing.x <= greatest(exit.a.x, exit.b.x)
            &&& least(exit.a.y, exit.b.y) <= landing.y <= greatest(exit.a.y, exit.b.y)
        }),
{
    reveal(SegmentPair::cross);
    let target = point.plus(movement);
    let (entry, exit) = pair.passage(point, target)->0;
    lemma_fraction_lies_on_segment(exit, entry.meeting(point, target));
}

/// Where a crossing leads, seen from the exit portal: a particle that crosses
/// between portals at least one unit long comes out on the exit portal, at
/// most one raw unit off its line, and at the fraction of its length at which
/// it met the entry portal, less than two raw units short of it. What is left
/// of the movement keeps the offset from the line that its target had in the
/// frame of the entry portal.
pub proof fn lemma_crossing_keeps_place(
    pair: SegmentPair,
    point: Vec2,
    speed: Vec2,
    movement: Vec2,
)
    requires
        pair.wf(),
        pair.a.delta().norm2() >= SCALE * SCALE,
        pair.b.delta().norm2() >= SCALE * SCALE,
        pair.cross(point, speed, movement) is Some,
    ensures
        pair.passage(point, point.plus(movement)) matches Some((entry, exit)) && pair.cross(
            point,
            speed,
            movement,
        ) matches Some((landing, _, rest)) && ({
            let x = entry.meeting(point, point.plus(movement));
            let aimed = entry.relative(point.plus(movement));
            let seen = exit.relative(landing);
            &&& x - 2 <= seen.x <= x
            &&& -1 <= seen.y <= 1
            &&& rest == (Vec2 { x: saturate(aimed.x - x), y: aimed.y }).times(exit.delta())
        }),
{
    reveal(SegmentPair::cross);
    let target = point.plus(movement);
    let (entry, exit) = pair.passage(point, target)->0;
    lemma_frame_round_trip(exit, entry.meeting(point, target));
}

/// Where a crossing leads, in full. As long as nothing saturates, the way
/// from the start of the exit portal to where the particle came out, and on
/// by what is left of the movement, is the way to the place at which the
/// move was aimed in the frame of the entry portal, taken in the frame of the
/// exit portal, within two raw units in each coordinate: a crossing keeps the
/// frame coordinates and gives up the world coordinates.
pub proof fn lemma_crossing_keeps_aim(pair: SegmentPair, point: Vec2, speed: Vec2, movement: Vec2)
    requires
        pair.wf(),
        pair.cross(point, speed, movement) is Some,
        pair.passage(point, point.plus(movement)) matches Some((entry, exit)) ==> ({
            let target = point.plus(movement);
            let aimed = entry.relative(target);
            let left = Vec2 { x: aimed.x - entry.meeting(point, target), y: aimed.y };
            &&& left.wf()
            &&& left.times_unbounded(exit.delta()).wf()
            &&& aimed.times_unbounded(exit.delta()).wf()
        }),
    ensures
        pair.passage(point, point.plus(movement)) matches Some((entry, exit)) && pair.cross(
            point,
            speed,
            movement,
        ) matches Some((landing, _, rest)) && ({
            let way = entry.relative(point.plus(movement)).times(exit.delta());
            &&& -2 <= (landing.x - exit.a.x) + rest.x - way.x <= 2
            &&& -2 <= (landing.y - exit.a.y) + rest.y - way.y <= 2
        }),
{
    reveal(SegmentPair::cross);
    let unit = SCALE as int;
    let target = point.plus(movement);
    let (entry, exit) = pair.passage(point, target)->0;
    let x = entry.meeting(point, target);
    let aimed = entry.relative(target);
    let d = exit.delta();
    lemma_place_of_fraction(exit, x);
    let left = Vec2 { x: aimed.x - x, y: aimed.y };
    assert(aimed.minus(Vec2 { x: x, y: 0 }) == left);
    assert(left.times(d) == left.times_unbounded(d));
    assert(aimed.times(d) == aimed.times_unbounded(d));
    assert(x * d.x + (left.x * d.x - left.y * d.y) == aimed.x * d.x - aimed.y * d.y)
        by (nonlinear_arith)
        requires
            left.x == aimed.x - x,
            left.y == aimed.y,
    ;
    assert(x * d.y + (left.x * d.y + left.y * d.x) == aimed.x * d.y + aimed.y * d.x)
        by (nonlinear_arith)
        requires
            left.x == aimed.x - x,
            left.y == aimed.y,
    ;
    lemma_trunc_div_sum(x * d.x, left.x * d.x - left.y * d.y, unit);
    lemma_trunc_div_sum(x * d.y, left.x * d.y + left.y * d.x, unit);
}

impl SegmentPair {
    /// Whether the two portals have the same length and direction, which is
    /// at least one unit, and lie within an eighth of the limit of the origin.
    pub open spec fn twins(self) -> bool {
        &&& self.wf()
        &&& self.a.delta() == self.b.delta()
        &&& self.a.delta().norm2() >= SCALE * SCALE
        &&& self.a.a.within(LIMIT / 8)
        &&& self.a.b.within(LIMIT / 8)
        &&& self.b.a.within(LIMIT / 8)
        &&& self.b.b.within(LIMIT / 8)
    }
}

/// Crossing between twin portals only shifts a particle. Where it is once
/// it has come out and made what is left of its movement is where the
/// movement was aimed, shifted as the exit portal is against the entry
/// portal, within `slack() + 2` raw units of the portals' vector in each
/// coordinate.
pub proof fn lemma_twin_crossing_shifts(
    pair: SegmentPair,
    point: Vec2,
    speed: Vec2,
    movement: Vec2,
)
    requires
        pair.twins(),
        point.plus(movement).within(LIMIT / 8),
        pair.cross(point, speed, movement) is Some,
    ensures
        pair.passage(point, point.plus(movement)) matches Some((entry, exit)) && pair.cross(
            point,
            speed,
            movement,
        ) matches Some((landing, _, rest)) && ({
            let target = point.plus(movement);
            let k = exit.delta().slack() + 2;
            &&& -k <= landing.x + rest.x - (target.x + exit.a.x - entry.a.x) <= k
            &&& -k <= landing.y + rest.y - (target.y + exit.a.y - entry.a.y) <= k
        }),
{
    reveal(SegmentPair::cross);
    let unit = SCALE as int;
    let target = point.plus(movement);
    let (entry, exit) = pair.passage(point, target)->0;
    let d = exit.delta();
    assert(d == entry.delta());
    let v = target.minus(entry.a);
    assert(v.within(LIMIT / 4));
    lemma_over_then_times(v, d);
    let aimed = entry.relative(target);
    assert(aimed == v.over(d));
    let x = entry.meeting(point, target);
    let left = Vec2 { x: aimed.x - x, y: aimed.y };
    assert(left.wf());
    // What is left of the movement does not saturate in the world either.
    lemma_part_of_coordinate(x, d.x);
    lemma_part_of_coordinate(x, d.y);
    assert(x * d.x + (left.x * d.x - left.y * d.y) == aimed.x * d.x - aimed.y * d.y)
        by (nonlinear_arith)
        requires
            left.x == aimed.x - x,
            left.y == aimed.y,
    ;
    assert(x * d.y + (left.x * d.y + left.y * d.x) == aimed.x * d.y + aimed.y * d.x)
        by (nonlinear_arith)
        requires
            left.x == aimed.x - x,
            left.y == aimed.y,
    ;
    lemma_trunc_div_sum(x * d.x, left.x * d.x - left.y * d.y, unit);
    lemma_trunc_div_sum(x * d.y, left.x * d.y + left.y * d.x, unit);
    assert(d.slack() <= LIMIT / 8) by (nonlinear_arith)
        requires
            d.slack() == d.span() / unit + 1,
            0 <= d.span() <= LIMIT / 2,
            unit == 1073741824,
            LIMIT == 4611686018427387904,
    ;
    assert(left.times_unbounded(d).wf());
    lemma_crossing_keeps_aim(pair, point, speed, movement);
}

/// After a crossing between twin portals within an eighth of the limit, the
/// place where the particle came out and what is left of its movement add
/// up without saturating.
pub proof fn lemma_twin_crossing_stays_in_range(
    pair: SegmentPair,
    point: Vec2,
    speed: Vec2,
    movement: Vec2,
)
    requires
        pair.twins(),
        point.plus(movement).within(LIMIT / 8),
        pair.cross(point, speed, movement) is Some,
    ensures
        pair.cross(point, speed, movement) matches Some((landing, _, rest)) && landing.plus(rest)
            == (Vec2 { x: landing.x + rest.x, y: landing.y + rest.y }),
{
    lemma_twin_crossing_shifts(pair, point, speed, movement);
    let d = pair.a.delta();
    assert(d.slack() <= LIMIT / 8) by (nonlinear_arith)
        requires
            d.slack() == d.span() / (SCALE as int) + 1,
            0 <= d.span() <= LIMIT / 2,
            SCALE == 1073741824,
            LIMIT == 4611686018427387904,
    ;
    reveal(SegmentPair::cross);
}

/// There and back through twin portals. A particle that crosses, makes what
/// is left of its movement, then makes the opposite movement and with it
/// crosses back through the portal it came out of, has the opposite
/// velocity, exactly, and is back where it started within twice
/// `slack() + 2` raw units of the portals' vector in each coordinate.
pub proof fn lemma_twin_round_trip(pair: SegmentPair, point: Vec2, movement: Vec2)
    requires
        pair.twins(),
        movement.wf(),
        point.within(LIMIT / 8),
        point.plus(movement).within(LIMIT / 8),
        pair.cross(point, movement, movement) matches Some((landing, _, rest)) && ({
            let there = Vec2 { x: landing.x + rest.x, y: landing.y + rest.y };
            &&& there.plus(movement.negated()).within(LIMIT / 8)
            &&& pair.cross(there, movement.negated(), movement.negated()) is Some
            &&& pair.passage(point, point.plus(movement)) matches Some((_, exit))
                && pair.passage(there, there.plus(movement.negated())) matches Some((entry, _))
                && entry == exit
        }),
    ensures
        pair.cross(point, movement, movement) matches Some((landing, velocity, rest)) && ({
            let there = Vec2 { x: landing.x + rest.x, y: landing.y + rest.y };
            let k = 2 * (pair.a.delta().slack() + 2);
            &&& velocity == movement
            &&& pair.cross(there, movement.negated(), movement.negated()) matches Some(
                (landing_back, velocity_back, rest_back),
            ) && ({
                &&& velocity_back == movement.negated()
                &&& -k <= landing_back.x + rest_back.x - point.x <= k
                &&& -k <= landing_back.y + rest_back.y - point.y <= k
            })
        }),
{
    let back = movement.negated();
    lemma_twin_crossing_shifts(pair, point, movement, movement);
    lemma_twin_crossing_keeps_velocity(pair, point, movement, movement);
    let (landing, velocity, rest) = pair.cross(point, movement, movement)->0;
    let there = Vec2 { x: landing.x + rest.x, y: landing.y + rest.y };
    lemma_twin_crossing_shifts(pair, there, back, back);
    lemma_twin_crossing_keeps_velocity(pair, there, back, back);
    reveal(SegmentPair::cross);
}

/// The ratio of a nonzero vector to itself is one, exactly.
pub proof fn lemma_over_itself(d: Vec2)
    requires
        d != Vec2::zero(),
        d.wf(),
    ensures
        d.over(d) == (Vec2 { x: SCALE as int, y: 0 }),
{
    let n = d.norm2();
    lemma_norm2_positive(d);
    assert((d.y * d.x - d.x * d.y) * SCALE == 0) by (nonlinear_arith);
    assert(0int / n == 0) by (nonlinear_arith)
        requires
            n > 0,
    ;
    assert((d.x * d.x + d.y * d.y) * SCALE / n == SCALE) by (nonlinear_arith)
        requires
            n == d.x * d.x + d.y * d.y,
            n > 0,
            SCALE == 1073741824,
    ;
    assert((d.x * d.x + d.y * d.y) * SCALE >= 0) by (nonlinear_arith)
        requires
            d.x * d.x + d.y * d.y > 0,
            SCALE == 1073741824,
    ;
}

/// Multiplying by one changes nothing.
pub proof fn lemma_times_one(v: Vec2)
    requires
        v.wf(),
    ensures
        v.times(Vec2 { x: SCALE as int, y: 0 }) == v,
{
    let unit = SCALE as int;
    assert(v.x * unit - v.y * 0 == unit * v.x && v.x * 0 + v.y * unit == unit * v.y)
        by (nonlinear_arith);
    lemma_trunc_div_remainder(unit * v.x, unit);
    lemma_trunc_div_remainder(unit * v.y, unit);
    assert(trunc_div(unit * v.x, unit) == v.x) by (nonlinear_arith)
        requires
            -unit < unit * v.x - unit * trunc_div(unit * v.x, unit) < unit,
            unit > 0,
    ;
    assert(trunc_div(unit * v.y, unit) == v.y) by (nonlinear_arith)
        requires
            -unit < unit * v.y - unit * trunc_div(unit * v.y, unit) < unit,
            unit > 0,
    ;
}

/// Between two portals of the same length and direction a crossing leaves
/// the velocity as it was, exactly.
pub proof fn lemma_twin_crossing_keeps_velocity(
    pair: SegmentPair,
    point: Vec2,
    speed: Vec2,
    movement: Vec2,
)
    requires
        pair.wf(),
        pair.a.delta() == pair.b.delta(),
        speed.wf(),
        pair.cross(point, speed, movement) is Some,
    ensures
        pair.cross(point, speed, movement) matches Some((_, velocity, _)) && velocity == speed,
{
    reveal(SegmentPair::cross);
    lemma_over_itself(pair.a.delta());
    lemma_times_one(speed);
}

/// The views of the three points of a crossing, if there is one.
pub open spec fn crossing_view(r: Option<(Point, Point, Point)>) -> Option<(Vec2, Vec2, Vec2)> {
    match r {
        None => None,
        Some((position, speed, rest)) => Some((position@, speed@, rest@)),
    }
}

/// Two portals, each the way out of the other.
#[derive(Clone, Copy, Debug, PartialEq, Eq, Structural)]
pub struct PortalSet {
    pub a: Portal,
    pub b: Portal,
}

impl View for PortalSet {
    type V = SegmentPair;

    open spec fn view(&self) -> SegmentPair {
        SegmentPair { a: self.a@, b: self.b@ }
    }
}

impl PortalSet {
    /// The pair of `a` and `b`.
    pub fn new(a: Portal, b: Portal) -> (r: PortalSet)
        ensures
            r@ == (SegmentPair { a: a@, b: b@ }),
    {
        PortalSet { a, b }
    }

    /// The lengths of the two portals.
    pub fn sizes(&self) -> (r: [Fixed; 2])
        ensures
            r[0]@ == self@.a.size(),
            r[1]@ == self@.b.size(),
    {
        [self.a.size(), self.b.size()]
    }

    /// `point` in the frame of each portal.
    pub fn relative_positions(&self, point: Point) -> (r: [Point; 2])
        ensures
            r[0]@ == self@.a.relative(point@),
            r[1]@ == self@.b.relative(point@),
    {
        [self.a.relative_position(point), self.b.relative_position(point)]
    }

    /// The offset of `point` from the line of each portal.
    pub fn signed_distances(&self, point: Point) -> (r: [Fixed; 2])
        ensures
            r[0]@ == self@.a.signed_distance(point@),
            r[1]@ == self@.b.signed_distance(point@),
    {
        [self.a.signed_distance(point), self.b.signed_distance(point)]
    }

    /// Tries to move by `movement` from `point` at velocity `speed`. Returns
    /// nothing when the move crosses neither portal, else the new position on
    /// the exit portal, the new velocity and the movement still to be made.
    pub fn cross(&self, point: Point, speed: Point, movement: Point) -> (r: Option<
        (Point, Point, Point),
    >)
        ensures
            crossing_view(r) == self@.cross(point@, speed@, movement@),
    {
        reveal(SegmentPair::cross);
        let target = point + movement;
        let before = self.relative_positions(point);
        let after = self.relative_positions(target);
        let through_a = opposite_signs(before[0].y, after[0].y);
        let through_b = opposite_signs(before[1].y, after[1].y);
        let (entry, exit, start, end): (Portal, Portal, Point, Point) = if through_a && (!through_b
            || before[0].y.mul(self.a.size()).abs().raw() < before[1].y.mul(
            self.b.size(),
        ).abs().raw()) {
            (self.a, self.b, before[0], after[0])
        } else if through_b {
            (self.b, self.a, before[1], after[1])
        } else {
            return None;
        };
        let num: i128 = wide_mul(start.x.raw(), end.y.raw()) - wide_mul(start.y.raw(), end.x.raw());
        let den: i128 = end.y.raw() as i128 - start.y.raw() as i128;
        let x: i128 = wide_div(num, den);
        if x < 0 || x > SCALE as i128 {
            return None;
        }
        let met = Point::by_x(narrow(x));
        let rest = end - met;
        let stretch = exit.delta() / entry.delta();
        Some((exit.reverted_relative_position(met), speed * stretch, rest * exit.delta()))
    }
}

/// Whether one of two scalars is negative and the other positive.
fn opposite_signs(a: Fixed, b: Fixed) -> (r: bool)
    ensures
        r == ((a@ < 0 && b@ > 0) || (a@ > 0 && b@ < 0)),
{
    (a.raw() < 0 && b.raw() > 0) || (a.raw() > 0 && b.raw() < 0)
}

} // verus!
