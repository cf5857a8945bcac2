//! Plane vectors over fixed-point scalars, also read as complex numbers.

use crate::fixed::{
    floor_sqrt, in_range, narrow, saturate, scaled_quotient, trunc_div, wide_div, wide_mul,
    wide_scale, wide_sqrt,
    fixed_div, fixed_mul, lemma_fixed_mul_odd, lemma_saturate_odd, lemma_trunc_div_between,
    lemma_trunc_div_remainder, Fixed, LIMIT, SCALE,
};
use vstd::arithmetic::div_mod::{lemma_fundamental_div_mod, lemma_mod_bound};
use vstd::prelude::*;
use vstd::std_specs::ops::{AddSpecImpl, DivSpecImpl, MulSpecImpl, SubSpecImpl};

verus! {

/// What a `Point` stands for: a pair of raw coordinates.
pub struct Vec2 {
    pub x: int,
    pub y: int,
}

impl Vec2 {
    /// The origin.
    pub open spec fn zero() -> Vec2 {
        Vec2 { x: 0, y: 0 }
    }

    /// Both coordinates are representable.
    pub open spec fn wf(self) -> bool {
        in_range(self.x) && in_range(self.y)
    }

    /// The vector with both coordinates negated.
    pub open spec fn negated(self) -> Vec2 {
        Vec2 { x: -self.x, y: -self.y }
    }

    /// Coordinate-wise saturated sum.
    pub open spec fn plus(self, o: Vec2) -> Vec2 {
        Vec2 { x: saturate(self.x + o.x), y: saturate(self.y + o.y) }
    }

    /// Coordinate-wise saturated difference.
    pub open spec fn minus(self, o: Vec2) -> Vec2 {
        Vec2 { x: saturate(self.x - o.x), y: saturate(self.y - o.y) }
    }

    /// Both coordinates multiplied by the scalar `k`.
    pub open spec fn scaled(self, k: int) -> Vec2 {
        Vec2 { x: fixed_mul(self.x, k), y: fixed_mul(self.y, k) }
    }

    /// Both coordinates divided by the scalar `k`.
    pub open spec fn shrunk(self, k: int) -> Vec2
        recommends
            k != 0,
    {
        Vec2 { x: fixed_div(self.x, k), y: fixed_div(self.y, k) }
    }

    /// The complex product, each part rounded once.
    pub open spec fn times(self, o: Vec2) -> Vec2 {
        Vec2 {
            x: saturate(trunc_div(self.x * o.x - self.y * o.y, SCALE as int)),
            y: saturate(trunc_div(self.x * o.y + self.y * o.x, SCALE as int)),
        }
    }

    /// The complex product before it saturates.
    pub open spec fn times_unbounded(self, o: Vec2) -> Vec2 {
        Vec2 {
            x: trunc_div(self.x * o.x - self.y * o.y, SCALE as int),
            y: trunc_div(self.x * o.y + self.y * o.x, SCALE as int),
        }
    }

    /// Whether both coordinates lie within `bound` of zero.
    pub open spec fn within(self, bound: int) -> bool {
        -bound <= self.x <= bound && -bound <= self.y <= bound
    }

    /// The sum of the sizes of the two coordinates.
    pub open spec fn span(self) -> int {
        (if self.x >= 0 {
            self.x
        } else {
            -self.x
        }) + (if self.y >= 0 {
            self.y
        } else {
            -self.y
        })
    }

    /// The most raw units by which a vector can change in each coordinate
    /// when it is divided by `self` and multiplied by it again.
    pub open spec fn slack(self) -> int {
        self.span() / (SCALE as int) + 1
    }

    /// The complex quotient before it saturates.
    pub open spec fn over_unbounded(self, o: Vec2) -> Vec2
        recommends
            o != Vec2::zero(),
    {
        Vec2 {
            x: trunc_div((self.x * o.x + self.y * o.y) * SCALE, o.norm2()),
            y: trunc_div((self.y * o.x - self.x * o.y) * SCALE, o.norm2()),
        }
    }

    /// The squared length in squared raw units, exact.
    pub open spec fn norm2(self) -> int {
        self.x * self.x + self.y * self.y
    }

    /// The complex quotient `self * conj(o) / |o|^2`, each part rounded once.
    pub open spec fn over(self, o: Vec2) -> Vec2
        recommends
            o != Vec2::zero(),
    {
        Vec2 {
            x: saturate(trunc_div((self.x * o.x + self.y * o.y) * SCALE, o.norm2())),
            y: saturate(trunc_div((self.y * o.x - self.x * o.y) * SCALE, o.norm2())),
        }
    }

    /// The squared length as a scalar.
    pub open spec fn magnitude_2(self) -> int {
        saturate(trunc_div(self.norm2(), SCALE as int))
    }

    /// The length as a scalar, rounded down.
    pub open spec fn magnitude(self) -> int {
        saturate(floor_sqrt(self.norm2()))
    }

    /// The vector divided by its length.
    pub open spec fn direction(self) -> Vec2
        recommends
            self != Vec2::zero(),
    {
        self.shrunk(self.magnitude())
    }

    /// The complex inverse `conj(self) / |self|^2`, each part rounded once.
    pub open spec fn inv(self) -> Vec2
        recommends
            self != Vec2::zero(),
    {
        Vec2 {
            x: saturate(trunc_div(self.x * SCALE * SCALE, self.norm2())),
            y: saturate(trunc_div(-self.y * SCALE * SCALE, self.norm2())),
        }
    }
}

/// The squared length of a nonzero vector is positive.
pub proof fn lemma_norm2_positive(v: Vec2)
    requires
        v != Vec2::zero(),
    ensures
        v.norm2() > 0,
{
    assert(v.x * v.x + v.y * v.y > 0) by (nonlinear_arith)
        requires
            v.x != 0 || v.y != 0,
    ;
}

/// Scaling by the negated scalar gives the negated vector.
pub proof fn lemma_scaled_odd(v: Vec2, k: int)
    ensures
        v.scaled(-k) == v.scaled(k).negated(),
{
    lemma_fixed_mul_odd(v.x, k);
    lemma_fixed_mul_odd(v.y, k);
}

/// The difference of two negated vectors is the negated difference.
pub proof fn lemma_minus_odd(v: Vec2, o: Vec2)
    ensures
        v.negated().minus(o.negated()) == v.minus(o).negated(),
{
    lemma_saturate_odd(v.x - o.x);
    lemma_saturate_odd(v.y - o.y);
}

/// A number whose square is at most the square of a bound is at most the
/// bound in size.
proof fn lemma_square_bound(a: int, bound: int)
    requires
        bound >= 0,
        a * a <= bound * bound,
    ensures
        -bound <= a <= bound,
{
    if a > bound {
        assert(a * a > bound * bound) by (nonlinear_arith)
            requires
                a > bound,
                bound >= 0,
        ;
    }
    if a < -bound {
        assert(a * a > bound * bound) by (nonlinear_arith)
            requires
                a < -bound,
                bound >= 0,
        ;
    }
}

/// The two parts of the product of `v` and the conjugate of `d` are each at
/// most as large as the product of the lengths: their squares add up to the
/// product of the squared lengths.
proof fn lemma_parts_of_product(v: Vec2, d: Vec2)
    ensures
        (v.x * d.x + v.y * d.y) * (v.x * d.x + v.y * d.y) + (v.y * d.x - v.x * d.y) * (v.y * d.x
            - v.x * d.y) == v.norm2() * d.norm2(),
{
    let a = v.x * d.x;
    let b = v.y * d.y;
    let c = v.y * d.x;
    let e = v.x * d.y;
    assert((a + b) * (a + b) + (c - e) * (c - e) == a * a + b * b + c * c + e * e + 2 * (a * b)
        - 2 * (c * e)) by (nonlinear_arith);
    assert(a * b == c * e) by (nonlinear_arith)
        requires
            a == v.x * d.x,
            b == v.y * d.y,
            c == v.y * d.x,
            e == v.x * d.y,
    ;
    assert(a * a + e * e == (v.x * v.x) * (d.x * d.x + d.y * d.y)) by (nonlinear_arith)
        requires
            a == v.x * d.x,
            e == v.x * d.y,
    ;
    assert(b * b + c * c == (v.y * v.y) * (d.x * d.x + d.y * d.y)) by (nonlinear_arith)
        requires
            b == v.y * d.y,
            c == v.y * d.x,
    ;
    assert(v.norm2() * d.norm2() == (v.x * v.x) * (d.x * d.x + d.y * d.y) + (v.y * v.y) * (d.x
        * d.x + d.y * d.y)) by (nonlinear_arith)
        requires
            v.norm2() == v.x * v.x + v.y * v.y,
            d.norm2() == d.x * d.x + d.y * d.y,
    ;
}

/// One part `part` of the product of `v` and the conjugate of `d`, brought to
/// scale, is at most half the limit times the squared length of `d`, when
/// `d` is at least one unit long and `v` lies within a quarter of the limit.
proof fn lemma_quotient_fits(part: int, other: int, vv: int, n: int)
    requires
        part * part + other * other == vv * n,
        0 <= vv <= 2 * (LIMIT / 4) * (LIMIT / 4),
        n >= SCALE * SCALE,
    ensures
        -(LIMIT / 2) * n <= part * SCALE <= (LIMIT / 2) * n,
{
    let unit = SCALE as int;
    let half = (LIMIT / 2) as int;
    let top = part * unit;
    assert(0 <= part * part <= vv * n) by (nonlinear_arith)
        requires
            part * part + other * other == vv * n,
    ;
    assert(2 * (LIMIT / 4) * (LIMIT / 4) <= half * half && 0 <= unit * unit == SCALE * SCALE)
        by (nonlinear_arith)
        requires
            half == LIMIT / 2,
            unit == SCALE,
            LIMIT == 4611686018427387904,
            SCALE == 1073741824,
    ;
    assert(top * top == (part * part) * (unit * unit)) by (nonlinear_arith)
        requires
            top == part * unit,
    ;
    assert((part * part) * (unit * unit) <= (vv * n) * n) by (nonlinear_arith)
        requires
            0 <= part * part <= vv * n,
            0 <= unit * unit <= n,
    ;
    assert((vv * n) * n <= (half * n) * (half * n)) by (nonlinear_arith)
        requires
            0 <= vv <= half * half,
            n >= 0,
    {
        assert((half * n) * (half * n) == (half * half) * (n * n));
        assert((vv * n) * n == vv * (n * n));
    }
    assert(half * n >= 0) by (nonlinear_arith)
        requires
            half >= 0,
            n >= 0,
    ;
    lemma_square_bound(top, half * n);
    assert(-(half * n) == -half * n) by (nonlinear_arith);
}

/// A remainder `r` below `n` times a coordinate of size `w` stays below
/// `n` times `w`.
proof fn lemma_remainder_times_coordinate(r: int, c: int, n: int, w: int)
    requires
        -n < r < n,
        w >= 0,
        c == w || c == -w,
    ensures
        -((n - 1) * w) <= r * c <= (n - 1) * w,
{
    assert(-((n - 1) * w) <= r * c <= (n - 1) * w) by (nonlinear_arith)
        requires
            -(n - 1) <= r <= n - 1,
            w >= 0,
            c == w || c == -w,
    ;
}

/// What dividing by `d` and multiplying by it again makes of the first
/// coordinate of a vector, times the squared length of `d`: the coordinate
/// itself at scale, and what the two roundings of the quotient left over.
proof fn lemma_back_at_scale(
    qx: int,
    qy: int,
    r1: int,
    r2: int,
    v: Vec2,
    d: Vec2,
    n: int,
    unit: int,
)
    requires
        n == d.x * d.x + d.y * d.y,
        n * qx == (v.x * d.x + v.y * d.y) * unit - r1,
        n * qy == (v.y * d.x - v.x * d.y) * unit - r2,
    ensures
        (qx * d.x - qy * d.y) * n == (unit * v.x) * n + (r2 * d.y - r1 * d.x),
        (qx * d.y + qy * d.x) * n == (unit * v.y) * n - (r1 * d.y + r2 * d.x),
{
    let a = (v.x * d.x + v.y * d.y) * unit;
    let b = (v.y * d.x - v.x * d.y) * unit;
    assert((qx * d.x - qy * d.y) * n == (n * qx) * d.x - (n * qy) * d.y) by (nonlinear_arith);
    assert((qx * d.y + qy * d.x) * n == (n * qx) * d.y + (n * qy) * d.x) by (nonlinear_arith);
    assert((a - r1) * d.x - (b - r2) * d.y == a * d.x - b * d.y + (r2 * d.y - r1 * d.x))
        by (nonlinear_arith);
    assert((a - r1) * d.y + (b - r2) * d.x == a * d.y + b * d.x - (r1 * d.y + r2 * d.x))
        by (nonlinear_arith);
    let n1 = v.x * d.x + v.y * d.y;
    let n2 = v.y * d.x - v.x * d.y;
    assert(n1 * d.x - n2 * d.y == v.x * n) by (nonlinear_arith)
        requires
            n1 == v.x * d.x + v.y * d.y,
            n2 == v.y * d.x - v.x * d.y,
            n == d.x * d.x + d.y * d.y,
    ;
    assert(n1 * d.y + n2 * d.x == v.y * n) by (nonlinear_arith)
        requires
            n1 == v.x * d.x + v.y * d.y,
            n2 == v.y * d.x - v.x * d.y,
            n == d.x * d.x + d.y * d.y,
    ;
    assert(a * d.x - b * d.y == (n1 * d.x - n2 * d.y) * unit) by (nonlinear_arith)
        requires
            a == n1 * unit,
            b == n2 * unit,
    ;
    assert(a * d.y + b * d.x == (n1 * d.y + n2 * d.x) * unit) by (nonlinear_arith)
        requires
            a == n1 * unit,
            b == n2 * unit,
    ;
    assert((v.x * n) * unit == (unit * v.x) * n && (v.y * n) * unit == (unit * v.y) * n)
        by (nonlinear_arith);
}

/// A number that differs from a multiple of the unit by less than `m` is,
/// divided by the unit, within `m / unit + 1` of the multiplier.
proof fn lemma_near_multiple(p: int, c: int, m: int, unit: int)
    requires
        unit > 0,
        m >= 0,
        -m < p - unit * c < m || p == unit * c,
    ensures
        c - (m / unit + 1) <= trunc_div(p, unit) <= c + (m / unit + 1),
{
    let k = m / unit + 1;
    lemma_fundamental_div_mod(m, unit);
    lemma_mod_bound(m, unit);
    assert(unit * k == unit * (m / unit) + unit) by (nonlinear_arith)
        requires
            k == m / unit + 1,
    ;
    assert((c - k) * unit == unit * c - unit * k && (c + k) * unit == unit * c + unit * k)
        by (nonlinear_arith);
    lemma_trunc_div_between(p, unit, c - k, c + k);
}

/// Dividing a vector by `d` and multiplying by `d` again gives the vector
/// back within `d.slack()` raw units in each coordinate, and nothing
/// saturates on the way, when `d` is at least one unit long and the vector
/// lies within a quarter of the limit.
pub proof fn lemma_over_then_times(v: Vec2, d: Vec2)
    requires
        d.wf(),
        d.norm2() >= SCALE * SCALE,
        v.within(LIMIT / 4),
    ensures
        v.over(d) == v.over_unbounded(d),
        v.over(d).within(LIMIT / 2),
        v.over(d).times(d) == v.over(d).times_unbounded(d),
        -d.slack() <= v.over(d).times(d).x - v.x <= d.slack(),
        -d.slack() <= v.over(d).times(d).y - v.y <= d.slack(),
{
    let unit = SCALE as int;
    let half = (LIMIT / 2) as int;
    let n = d.norm2();
    let n1 = v.x * d.x + v.y * d.y;
    let n2 = v.y * d.x - v.x * d.y;
    let vv = v.norm2();
    assert(n > 0) by (nonlinear_arith)
        requires
            n >= SCALE * SCALE,
            SCALE == 1073741824,
    ;
    // The quotient does not saturate.
    lemma_parts_of_product(v, d);
    assert(0 <= vv <= 2 * (LIMIT / 4) * (LIMIT / 4)) by (nonlinear_arith)
        requires
            vv == v.x * v.x + v.y * v.y,
            -(LIMIT / 4) <= v.x <= LIMIT / 4,
            -(LIMIT / 4) <= v.y <= LIMIT / 4,
    ;
    lemma_quotient_fits(n1, n2, vv, n);
    lemma_quotient_fits(n2, n1, vv, n);
    lemma_trunc_div_between(n1 * unit, n, -half, half);
    lemma_trunc_div_between(n2 * unit, n, -half, half);
    let q = v.over(d);
    assert(q == v.over_unbounded(d));
    // What the rounding of the quotient left over.
    lemma_trunc_div_remainder(n1 * unit, n);
    lemma_trunc_div_remainder(n2 * unit, n);
    let r1 = n1 * unit - n * q.x;
    let r2 = n2 * unit - n * q.y;
    lemma_back_at_scale(q.x, q.y, r1, r2, v, d, n, unit);
    let wx = if d.x >= 0 { d.x } else { -d.x };
    let wy = if d.y >= 0 { d.y } else { -d.y };
    let m = wx + wy;
    assert(m == d.span());
    lemma_remainder_times_coordinate(r1, d.x, n, wx);
    lemma_remainder_times_coordinate(r2, d.y, n, wy);
    lemma_remainder_times_coordinate(r1, d.y, n, wy);
    lemma_remainder_times_coordinate(r2, d.x, n, wx);
    let p = q.x * d.x - q.y * d.y;
    let o = q.x * d.y + q.y * d.x;
    assert((n - 1) * wy + (n - 1) * wx == (n - 1) * m) by (nonlinear_arith)
        requires
            m == wx + wy,
    ;
    assert((p - unit * v.x) * n == p * n - (unit * v.x) * n && (o - unit * v.y) * n == o * n - (
    unit * v.y) * n) by (nonlinear_arith);
    lemma_small_multiple(p - unit * v.x, n, m);
    lemma_small_multiple(o - unit * v.y, n, m);
    lemma_near_multiple(p, v.x, m, unit);
    lemma_near_multiple(o, v.y, m, unit);
    // The product does not saturate either.
    assert(m / unit + 1 <= half) by (nonlinear_arith)
        requires
            0 <= m <= 2 * LIMIT,
            unit == 1073741824,
            half == LIMIT / 2,
            LIMIT == 4611686018427387904,
    ;
}

/// A number whose multiple by `n` is at most `n - 1` times `m` in size is
/// smaller than `m` in size, or zero.
proof fn lemma_small_multiple(e: int, n: int, m: int)
    requires
        n > 0,
        m >= 0,
        -((n - 1) * m) <= e * n <= (n - 1) * m,
    ensures
        -m < e < m || e == 0,
{
    if e >= m && e != 0 {
        assert(e * n > (n - 1) * m) by (nonlinear_arith)
            requires
                e >= m,
                e > 0,
                n > 0,
                m >= 0,
        ;
    }
    if e <= -m && e != 0 {
        assert(e * n < -((n - 1) * m)) by (nonlinear_arith)
            requires
                e <= -m,
                e < 0,
                n > 0,
                m >= 0,
        ;
    }
}

/// A point of the plane, or a displacement, or a complex number.
#[derive(Clone, Copy, Debug, PartialEq, Eq, Structural)]
pub struct Point {
    pub x: Fixed,
    pub y: Fixed,
}

impl View for Point {
    type V = Vec2;

    open spec fn view(&self) -> Vec2 {
        Vec2 { x: self.x@, y: self.y@ }
    }
}

impl Point {
    /// The point that stands for `v`, for use in specifications.
    pub open spec fn of_model(v: Vec2) -> Point {
        Point { x: Fixed::of_raw(v.x), y: Fixed::of_raw(v.y) }
    }

    /// A point with representable coordinates is the one that stands for its view.
    pub proof fn lemma_of_model(p: Point)
        requires
            p@.wf(),
        ensures
            Point::of_model(p@) == p,
    {
        Fixed::lemma_of_raw(p.x@);
        Fixed::lemma_of_raw(p.y@);
        Fixed::lemma_view_injective(Fixed::of_raw(p.x@), p.x);
        Fixed::lemma_view_injective(Fixed::of_raw(p.y@), p.y);
    }

    /// The point `(x, 0)`.
    pub fn by_x(x: Fixed) -> (r: Point)
        ensures
            r@ == (Vec2 { x: x@, y: 0 }),
    {
        Point { x, y: Fixed::zero() }
    }

    /// The point `(0, y)`.
    pub fn by_y(y: Fixed) -> (r: Point)
        ensures
            r@ == (Vec2 { x: 0, y: y@ }),
    {
        Point { x: Fixed::zero(), y }
    }

    /// The exact squared length in squared raw units.
    fn wide_norm2(&self) -> (n: i128)
        ensures
            n == self@.norm2(),
            0 <= n <= 2 * LIMIT * LIMIT,
            self@ != Vec2::zero() ==> n > 0,
    {
        let x: i64 = self.x.raw();
        let y: i64 = self.y.raw();
        proof {
            assert(x * x >= 0 && y * y >= 0) by (nonlinear_arith);
            if self@ != Vec2::zero() {
                lemma_norm2_positive(self@);
            }
        }
        wide_mul(x, x) + wide_mul(y, y)
    }

    /// The length, rounded down to a raw unit.
    pub fn magnitude(&self) -> (r: Fixed)
        ensures
            r@ == self@.magnitude(),
            self@ != Vec2::zero() ==> r@ > 0,
    {
        let n: i128 = self.wide_norm2();
        let m: i128 = wide_sqrt(n);
        proof {
            if m == 0 {
                assert((m + 1) * (m + 1) == 1) by (nonlinear_arith)
                    requires
                        m == 0,
                ;
            }
        }
        narrow(m)
    }

    /// The squared length.
    pub fn magnitude_2(&self) -> (r: Fixed)
        ensures
            r@ == self@.magnitude_2(),
    {
        let n: i128 = self.wide_norm2();
        narrow(wide_div(n, SCALE as i128))
    }

    /// The unit vector along a nonzero vector.
    pub fn direction(&self) -> (r: Point)
        requires
            self@ != Vec2::zero(),
        ensures
            r@ == self@.direction(),
    {
        *self / self.magnitude()
    }

    /// The complex inverse of a nonzero vector.
    pub fn inv(&self) -> (r: Point)
        requires
            self@ != Vec2::zero(),
        ensures
            r@ == self@.inv(),
    {
        let n: i128 = self.wide_norm2();
        let x: i128 = wide_scale(self.x.raw() as i128);
        let y: i128 = wide_scale(-(self.y.raw() as i128));
        proof {
            assert(x * SCALE == self@.x * SCALE * SCALE);
            assert(y * SCALE == -self@.y * SCALE * SCALE) by (nonlinear_arith)
                requires
                    y == -self@.y * SCALE,
            ;
            assert(-LIMIT * SCALE <= x <= LIMIT * SCALE && -LIMIT * SCALE <= y <= LIMIT * SCALE)
                by (nonlinear_arith)
                requires
                    x == self@.x * SCALE,
                    y == -self@.y * SCALE,
                    -LIMIT <= self@.x <= LIMIT,
                    -LIMIT <= self@.y <= LIMIT,
                    SCALE == 1073741824,
            ;
        }
        Point { x: narrow(wide_div(wide_scale(x), n)), y: narrow(wide_div(wide_scale(y), n)) }
    }

    /// Adds `other` in place.
    pub fn add_assign(&mut self, other: Point)
        ensures
            final(self)@ == old(self)@.plus(other@),
    {
        self.x = self.x.add(other.x);
        self.y = self.y.add(other.y);
    }

    /// Subtracts `other` in place.
    pub fn sub_assign(&mut self, other: Point)
        ensures
            final(self)@ == old(self)@.minus(other@),
    {
        self.x = self.x.sub(other.x);
        self.y = self.y.sub(other.y);
    }

    /// Multiplies both coordinates by `k` in place.
    pub fn mul_assign(&mut self, k: Fixed)
        ensures
            final(self)@ == old(self)@.scaled(k@),
    {
        self.x = self.x.mul(k);
        self.y = self.y.mul(k);
    }

    /// Divides both coordinates by the nonzero `k` in place.
    pub fn div_assign(&mut self, k: Fixed)
        requires
            k@ != 0,
        ensures
            final(self)@ == old(self)@.shrunk(k@),
    {
        self.x = self.x.div(k);
        self.y = self.y.div(k);
    }
}

impl Default for Point {
    fn default() -> (r: Point)
        ensures
            r@ == Vec2::zero(),
    {
        Point { x: Fixed::zero(), y: Fixed::zero() }
    }
}

impl std::ops::Add for Point {
    type Output = Point;

    /// Coordinate-wise saturated sum.
    fn add(self, other: Point) -> (r: Point)
        ensures
            r@ == self@.plus(other@),
    {
        let r = Point { x: self.x.add(other.x), y: self.y.add(other.y) };
        proof {
            Point::lemma_of_model(r);
        }
        r
    }
}

impl AddSpecImpl for Point {
    open spec fn obeys_add_spec() -> bool {
        true
    }

    open spec fn add_req(self, other: Point) -> bool {
        true
    }

    open spec fn add_spec(self, other: Point) -> Point {
        Point::of_model(self@.plus(other@))
    }
}

impl std::ops::Sub for Point {
    type Output = Point;

    /// Coordinate-wise saturated difference.
    fn sub(self, other: Point) -> (r: Point)
        ensures
            r@ == self@.minus(other@),
    {
        let r = Point { x: self.x.sub(other.x), y: self.y.sub(other.y) };
        proof {
            Point::lemma_of_model(r);
        }
        r
    }
}

impl SubSpecImpl for Point {
    open spec fn obeys_sub_spec() -> bool {
        true
    }

    open spec fn sub_req(self, other: Point) -> bool {
        true
    }

    open spec fn sub_spec(self, other: Point) -> Point {
        Point::of_model(self@.minus(other@))
    }
}

impl std::ops::Add<(Fixed, Fixed)> for Point {
    type Output = Point;

    /// Adds a pair of coordinates.
    fn add(self, other: (Fixed, Fixed)) -> (r: Point)
        ensures
            r@ == self@.plus(Vec2 { x: other.0@, y: other.1@ }),
    {
        let r = Point { x: self.x.add(other.0), y: self.y.add(other.1) };
        proof {
            Point::lemma_of_model(r);
        }
        r
    }
}

impl AddSpecImpl<(Fixed, Fixed)> for Point {
    open spec fn obeys_add_spec() -> bool {
        true
    }

    open spec fn add_req(self, other: (Fixed, Fixed)) -> bool {
        true
    }

    open spec fn add_spec(self, other: (Fixed, Fixed)) -> Point {
        Point::of_model(self@.plus(Vec2 { x: other.0@, y: other.1@ }))
    }
}

impl std::ops::Sub<(Fixed, Fixed)> for Point {
    type Output = Point;

    /// Subtracts a pair of coordinates.
    fn sub(self, other: (Fixed, Fixed)) -> (r: Point)
        ensures
            r@ == self@.minus(Vec2 { x: other.0@, y: other.1@ }),
    {
        let r = Point { x: self.x.sub(other.0), y: self.y.sub(other.1) };
        proof {
            Point::lemma_of_model(r);
        }
        r
    }
}

impl SubSpecImpl<(Fixed, Fixed)> for Point {
    open spec fn obeys_sub_spec() -> bool {
        true
    }

    open spec fn sub_req(self, other: (Fixed, Fixed)) -> bool {
        true
    }

    open spec fn sub_spec(self, other: (Fixed, Fixed)) -> Point {
        Point::of_model(self@.minus(Vec2 { x: other.0@, y: other.1@ }))
    }
}

impl std::ops::Mul<Fixed> for Point {
    type Output = Point;

    /// Both coordinates multiplied by `k`.
    fn mul(self, k: Fixed) -> (r: Point)
        ensures
            r@ == self@.scaled(k@),
    {
        let r = Point { x: self.x.mul(k), y: self.y.mul(k) };
        proof {
            Point::lemma_of_model(r);
        }
        r
    }
}

impl MulSpecImpl<Fixed> for Point {
    open spec fn obeys_mul_spec() -> bool {
        true
    }

    open spec fn mul_req(self, k: Fixed) -> bool {
        true
    }

    open spec fn mul_spec(self, k: Fixed) -> Point {
        Point::of_model(self@.scaled(k@))
    }
}

impl std::ops::Div<Fixed> for Point {
    type Output = Point;

    /// Both coordinates divided by the nonzero `k`.
    fn div(self, k: Fixed) -> (r: Point)
        ensures
            r@ == self@.shrunk(k@),
    {
        let r = Point { x: self.x.div(k), y: self.y.div(k) };
        proof {
            Point::lemma_of_model(r);
        }
        r
    }
}

impl DivSpecImpl<Fixed> for Point {
    open spec fn obeys_div_spec() -> bool {
        true
    }

    open spec fn div_req(self, k: Fixed) -> bool {
        k@ != 0
    }

    open spec fn div_spec(self, k: Fixed) -> Point {
        Point::of_model(self@.shrunk(k@))
    }
}

impl std::ops::Mul<Point> for Point {
    type Output = Point;

    /// The complex product: rotates by the angle of `other` and scales by its length.
    fn mul(self, other: Point) -> (r: Point)
        ensures
            r@ == self@.times(other@),
    {
        let ax: i64 = self.x.raw();
        let ay: i64 = self.y.raw();
        let bx: i64 = other.x.raw();
        let by: i64 = other.y.raw();
        let re: i128 = wide_mul(ax, bx) - wide_mul(ay, by);
        let im: i128 = wide_mul(ax, by) + wide_mul(ay, bx);
        let r = Point {
            x: narrow(wide_div(re, SCALE as i128)),
            y: narrow(wide_div(im, SCALE as i128)),
        };
        proof {
            Point::lemma_of_model(r);
        }
        r
    }
}

impl MulSpecImpl<Point> for Point {
    open spec fn obeys_mul_spec() -> bool {
        true
    }

    open spec fn mul_req(self, other: Point) -> bool {
        true
    }

    open spec fn mul_spec(self, other: Point) -> Point {
        Point::of_model(self@.times(other@))
    }
}

impl std::ops::Div<Point> for Point {
    type Output = Point;

    /// The complex quotient by a nonzero vector.
    fn div(self, other: Point) -> (r: Point)
        ensures
            r@ == self@.over(other@),
    {
        let ax: i64 = self.x.raw();
        let ay: i64 = self.y.raw();
        let bx: i64 = other.x.raw();
        let by: i64 = other.y.raw();
        let n: i128 = other.wide_norm2();
        let re: i128 = wide_mul(ax, bx) + wide_mul(ay, by);
        let im: i128 = wide_mul(ay, bx) - wide_mul(ax, by);
        let r = Point {
            x: scaled_quotient(re, n),
            y: scaled_quotient(im, n),
        };
        proof {
            Point::lemma_of_model(r);
        }
        r
    }
}

impl DivSpecImpl<Point> for Point {
    open spec fn obeys_div_spec() -> bool {
        true
    }

    open spec fn div_req(self, other: Point) -> bool {
        other@ != Vec2::zero()
    }

    open spec fn div_spec(self, other: Point) -> Point {
        Point::of_model(self@.over(other@))
    }
}

} // verus!
