//! Fixed-point scalars: signed multiples of 2^-30, saturating at ±2^32.

use vstd::arithmetic::div_mod::{
    lemma_div_pos_is_pos, lemma_fundamental_div_mod, lemma_fundamental_div_mod_converse,
    lemma_mod_bound,
};
use vstd::arithmetic::power2::{
    lemma2_to64, lemma_pow2_strictly_increases, lemma_pow2_unfold, pow2,
};
use vstd::prelude::*;

verus! {

/// Raw units in 1.0.
pub const SCALE: i64 = 1073741824;

/// Largest magnitude of a raw value; every result saturates here.
pub const LIMIT: i64 = 4611686018427387904;

/// `v` clamped to the representable raw range.
pub open spec fn saturate(v: int) -> int {
    if v > LIMIT {
        LIMIT as int
    } else if v < -LIMIT {
        -(LIMIT as int)
    } else {
        v
    }
}

/// The quotient of `a` by `b` rounded toward zero.
pub open spec fn trunc_div(a: int, b: int) -> int
    recommends
        b != 0,
{
    if b > 0 {
        if a >= 0 {
            a / b
        } else {
            -((-a) / b)
        }
    } else {
        if a >= 0 {
            -(a / (-b))
        } else {
            (-a) / (-b)
        }
    }
}

/// The raw product of two scalars given by their raw values.
pub open spec fn fixed_mul(a: int, b: int) -> int {
    saturate(trunc_div(a * b, SCALE as int))
}

/// The raw quotient of two scalars given by their raw values.
pub open spec fn fixed_div(a: int, b: int) -> int
    recommends
        b != 0,
{
    saturate(trunc_div(a * SCALE, b))
}

/// The size of `v` without its sign.
pub open spec fn size(v: int) -> int {
    if v < 0 {
        -v
    } else {
        v
    }
}

/// Whether `v` is a representable raw value.
pub open spec fn in_range(v: int) -> bool {
    -LIMIT <= v <= LIMIT
}

/// Whether `r` is the largest whole number whose square does not exceed `n`.
pub open spec fn is_floor_sqrt(n: int, r: int) -> bool {
    0 <= r && r * r <= n < (r + 1) * (r + 1)
}

/// The square root of `n` rounded down.
pub open spec fn floor_sqrt(n: int) -> int
    recommends
        n >= 0,
{
    choose|r: int| is_floor_sqrt(n, r)
}

/// Dividing by a positive whole number brings a value no further from zero.
pub proof fn lemma_trunc_div_shrinks(a: int, n: int)
    requires
        n > 0,
    ensures
        a >= 0 ==> 0 <= trunc_div(a, n) <= a,
        a <= 0 ==> a <= trunc_div(a, n) <= 0,
{
    if a >= 0 {
        assert(0 <= a / n <= a) by (nonlinear_arith)
            requires
                a >= 0,
                n > 0,
        ;
    } else {
        assert(0 <= (-a) / n <= -a) by (nonlinear_arith)
            requires
                -a >= 0,
                n > 0,
        ;
    }
}

/// What rounding a quotient toward zero leaves over is smaller than the
/// divisor and on the side of the dividend, as is the quotient.
pub proof fn lemma_trunc_div_remainder(a: int, b: int)
    requires
        b > 0,
    ensures
        -b < a - b * trunc_div(a, b) < b,
        a >= 0 ==> a - b * trunc_div(a, b) >= 0 && trunc_div(a, b) >= 0,
        a <= 0 ==> a - b * trunc_div(a, b) <= 0 && trunc_div(a, b) <= 0,
{
    if a >= 0 {
        lemma_fundamental_div_mod(a, b);
        lemma_mod_bound(a, b);
        lemma_div_pos_is_pos(a, b);
    } else {
        lemma_fundamental_div_mod(-a, b);
        lemma_mod_bound(-a, b);
        lemma_div_pos_is_pos(-a, b);
        assert(b * (-((-a) / b)) == -(b * ((-a) / b))) by (nonlinear_arith);
    }
}

/// A quotient that lies between two whole numbers still does once it is
/// rounded toward zero.
pub proof fn lemma_trunc_div_between(a: int, b: int, lo: int, hi: int)
    requires
        b > 0,
        lo * b <= a <= hi * b,
    ensures
        lo <= trunc_div(a, b) <= hi,
{
    lemma_trunc_div_remainder(a, b);
    let q = trunc_div(a, b);
    assert(lo <= q <= hi) by (nonlinear_arith)
        requires
            b > 0,
            lo * b <= a <= hi * b,
            -b < a - b * q < b,
            a >= 0 ==> a - b * q >= 0,
            a <= 0 ==> a - b * q <= 0,
    ;
}

/// Rounding two quotients and adding them differs from rounding the quotient
/// of the sum by two at most.
pub proof fn lemma_trunc_div_sum(a: int, c: int, b: int)
    requires
        b > 0,
    ensures
        -2 <= trunc_div(a, b) + trunc_div(c, b) - trunc_div(a + c, b) <= 2,
{
    lemma_trunc_div_remainder(a, b);
    lemma_trunc_div_remainder(c, b);
    lemma_trunc_div_remainder(a + c, b);
    let first = trunc_div(a, b);
    let second = trunc_div(c, b);
    let whole = trunc_div(a + c, b);
    let off = first + second - whole;
    assert(b * off == b * first + b * second - b * whole) by (nonlinear_arith)
        requires
            off == first + second - whole,
    ;
    assert(-3 * b < b * off < 3 * b);
    assert(-2 <= off <= 2) by (nonlinear_arith)
        requires
            -3 * b < b * off < 3 * b,
            b > 0,
    ;
}

/// Negating the dividend negates the rounded quotient.
pub proof fn lemma_trunc_div_odd(a: int, b: int)
    requires
        b != 0,
    ensures
        trunc_div(-a, b) == -trunc_div(a, b),
{
    if a == 0 {
        assert(0int / b == 0 && 0int / (-b) == 0) by (nonlinear_arith)
            requires
                b != 0,
        ;
    }
}

/// Negating a value negates what it saturates to.
pub proof fn lemma_saturate_odd(v: int)
    ensures
        saturate(-v) == -saturate(v),
{
}

/// Negating one factor negates the product.
pub proof fn lemma_fixed_mul_odd(a: int, b: int)
    ensures
        fixed_mul(a, -b) == -fixed_mul(a, b),
        fixed_mul(-a, b) == -fixed_mul(a, b),
{
    assert(a * (-b) == -(a * b) && (-a) * b == -(a * b)) by (nonlinear_arith);
    lemma_trunc_div_odd(a * b, SCALE as int);
    lemma_saturate_odd(trunc_div(a * b, SCALE as int));
}

/// A number has at most one rounded-down square root.
pub proof fn lemma_floor_sqrt_unique(n: int, r: int, s: int)
    requires
        is_floor_sqrt(n, r),
        is_floor_sqrt(n, s),
    ensures
        r == s,
{
    if r < s {
        assert((r + 1) * (r + 1) <= s * s) by (nonlinear_arith)
            requires
                0 <= r,
                r + 1 <= s,
        ;
    } else if s < r {
        assert((s + 1) * (s + 1) <= r * r) by (nonlinear_arith)
            requires
                0 <= s,
                s + 1 <= r,
        ;
    }
}

/// A fixed-point number: `raw / 2^30`, with `|raw| <= LIMIT`.
#[derive(Clone, Copy, Debug, PartialEq, Eq, Structural)]
pub struct Fixed {
    raw: i64,
}

impl View for Fixed {
    type V = int;

    /// The raw value: the number times 2^30.
    closed spec fn view(&self) -> int {
        self.raw as int
    }
}

/// `v` narrowed to a scalar, saturating at the limits.
pub(crate) fn narrow(v: i128) -> (r: Fixed)
    ensures
        r@ == saturate(v as int),
{
    if v > LIMIT as i128 {
        Fixed { raw: LIMIT }
    } else if v < -(LIMIT as i128) {
        Fixed { raw: -LIMIT }
    } else {
        Fixed { raw: v as i64 }
    }
}

/// The exact product of two raw values.
pub(crate) fn wide_mul(a: i64, b: i64) -> (r: i128)
    requires
        in_range(a as int),
        in_range(b as int),
    ensures
        r == a * b,
        -LIMIT * LIMIT <= r <= LIMIT * LIMIT,
{
    proof {
        assert(-LIMIT * LIMIT <= a * b <= LIMIT * LIMIT) by (nonlinear_arith)
            requires
                -LIMIT <= a <= LIMIT,
                -LIMIT <= b <= LIMIT,
        ;
    }
    (a as i128) * (b as i128)
}

/// `a` times the scale.
pub(crate) fn wide_scale(a: i128) -> (r: i128)
    requires
        -LIMIT * SCALE <= a <= LIMIT * SCALE,
    ensures
        r == a * SCALE,
{
    proof {
        assert(-i128::MAX <= a * SCALE <= i128::MAX) by (nonlinear_arith)
            requires
                -LIMIT * SCALE <= a <= LIMIT * SCALE,
                SCALE == 1073741824,
                LIMIT == 4611686018427387904,
        ;
    }
    a * (SCALE as i128)
}

/// `a / b` rounded toward zero, for any sign of `b`.
pub(crate) fn wide_div(a: i128, b: i128) -> (r: i128)
    requires
        b != 0,
        -i128::MAX <= a,
        -i128::MAX <= b,
    ensures
        r == trunc_div(a as int, b as int),
{
    if b < 0 {
        (-a) / (-b)
    } else {
        a / b
    }
}

/// The part of `rest * SCALE / n` that is a whole number, for a `rest` below
/// `n`: the quotient is built bit by bit, so that no product leaves the
/// range of the machine's numbers.
fn scaled_fraction(rest: i128, n: i128) -> (q: i128)
    requires
        0 <= rest < n <= 2 * LIMIT * LIMIT,
    ensures
        q == (rest * SCALE) / (n as int),
        0 <= q < SCALE,
{
    let mut left: i128 = rest;
    let mut q: i128 = 0;
    let mut bits: u32 = 0;
    proof {
        lemma2_to64();
        assert(2 * LIMIT * LIMIT < i128::MAX / 2) by (nonlinear_arith)
            requires
                LIMIT == 4611686018427387904,
        ;
    }
    while bits < 30
        invariant
            bits <= 30,
            0 <= left < n <= 2 * LIMIT * LIMIT,
            2 * LIMIT * LIMIT < i128::MAX / 2,
            0 <= q < pow2(bits as nat),
            q * n + left == rest * pow2(bits as nat),
        decreases 30 - bits,
    {
        proof {
            lemma_pow2_unfold((bits + 1) as nat);
            lemma_pow2_strictly_increases(bits as nat, 30);
            lemma2_to64();
            assert((2 * q) * n + 2 * left == rest * (2 * pow2(bits as nat))) by (nonlinear_arith)
                requires
                    q * n + left == rest * pow2(bits as nat),
            ;
            assert((2 * q + 1) * n == (2 * q) * n + n) by (nonlinear_arith);
        }
        left = 2 * left;
        q = 2 * q;
        if left >= n {
            left = left - n;
            q = q + 1;
        }
        bits = bits + 1;
    }
    proof {
        lemma2_to64();
        assert(pow2(30) == SCALE);
        lemma_fundamental_div_mod_converse(rest * SCALE, n as int, q as int, left as int);
    }
    q
}

/// `num * SCALE / n` rounded toward zero, as a scalar.
pub(crate) fn scaled_quotient(num: i128, n: i128) -> (r: Fixed)
    requires
        0 < n <= 2 * LIMIT * LIMIT,
        -2 * LIMIT * LIMIT <= num <= 2 * LIMIT * LIMIT,
    ensures
        r@ == saturate(trunc_div(num * SCALE, n as int)),
{
    proof {
        assert(2 * LIMIT * LIMIT < i128::MAX / 2) by (nonlinear_arith)
            requires
                LIMIT == 4611686018427387904,
        ;
    }
    let size: i128 = if num < 0 {
        -num
    } else {
        num
    };
    let whole: i128 = size / n;
    let rest: i128 = size % n;
    let most: i128 = (LIMIT / SCALE) as i128;
    proof {
        lemma_fundamental_div_mod(size as int, n as int);
        lemma_mod_bound(size as int, n as int);
        lemma_div_pos_is_pos(size as int, n as int);
        assert(num * SCALE == -(size * SCALE) || num * SCALE == size * SCALE) by (nonlinear_arith)
            requires
                size == num || size == -num,
        ;
        assert(size * SCALE >= 0) by (nonlinear_arith)
            requires
                size >= 0,
                SCALE > 0,
        ;
    }
    if whole >= most {
        proof {
            // The quotient is at least the limit, on the side of `num`.
            assert(size * SCALE >= LIMIT * n) by (nonlinear_arith)
                requires
                    size == n * whole + rest,
                    rest >= 0,
                    whole >= most,
                    most * SCALE == LIMIT,
                    n > 0,
                    SCALE > 0,
            ;
            assert(size * SCALE <= (size * SCALE) * n) by (nonlinear_arith)
                requires
                    size * SCALE >= 0,
                    n >= 1,
            ;
            lemma_trunc_div_between(size * SCALE, n as int, LIMIT as int, size * SCALE);
            lemma_trunc_div_odd(size * SCALE, n as int);
        }
        if num < 0 {
            return Fixed { raw: -LIMIT };
        } else {
            return Fixed { raw: LIMIT };
        }
    }
    let part: i128 = scaled_fraction(rest, n);
    let total: i128 = whole * (SCALE as i128) + part;
    proof {
        assert(size * SCALE == (whole * SCALE + part) * n + (rest * SCALE - part * n))
            by (nonlinear_arith)
            requires
                size == n * whole + rest,
        ;
        lemma_fundamental_div_mod(rest * SCALE, n as int);
        lemma_mod_bound(rest * SCALE, n as int);
        assert(n * part == part * n) by (nonlinear_arith);
        lemma_fundamental_div_mod_converse(
            size * SCALE,
            n as int,
            total as int,
            (rest * SCALE) % (n as int),
        );
        lemma_trunc_div_odd(size * SCALE, n as int);
    }
    if num < 0 {
        narrow(-total)
    } else {
        narrow(total)
    }
}

/// The rounded-down square root of a sum of two squares of raw values.
pub(crate) fn wide_sqrt(n: i128) -> (r: i128)
    requires
        0 <= n <= 2 * LIMIT * LIMIT,
    ensures
        is_floor_sqrt(n as int, r as int),
        r == floor_sqrt(n as int),
        r <= 2 * LIMIT,
{
    let mut lo: i128 = 0;
    let mut hi: i128 = 2 * (LIMIT as i128);
    assert(n < hi * hi) by (nonlinear_arith)
        requires
            n <= 2 * LIMIT * LIMIT,
            hi == 2 * LIMIT,
    ;
    while hi - lo > 1
        invariant
            0 <= lo < hi <= 2 * LIMIT,
            lo * lo <= n < hi * hi,
        decreases hi - lo,
    {
        let mid: i128 = lo + (hi - lo) / 2;
        assert(0 <= mid * mid <= 4 * LIMIT * LIMIT) by (nonlinear_arith)
            requires
                0 <= mid <= 2 * LIMIT,
        ;
        if mid * mid <= n {
            lo = mid;
        } else {
            hi = mid;
        }
    }
    proof {
        assert(hi == lo + 1);
        if floor_sqrt(n as int) != lo {
            assert(is_floor_sqrt(n as int, lo as int));
            lemma_floor_sqrt_unique(n as int, lo as int, floor_sqrt(n as int));
        }
    }
    lo
}

impl Fixed {
    /// Every scalar keeps its raw value within the limits.
    #[verifier::type_invariant]
    pub closed spec fn wf(self) -> bool {
        in_range(self.raw as int)
    }

    /// The scalar whose raw value is `v`, for use in specifications.
    pub closed spec fn of_raw(v: int) -> Fixed {
        Fixed { raw: v as i64 }
    }

    /// `of_raw` yields the raw value it was given, if that is in range.
    pub broadcast proof fn lemma_of_raw(v: int)
        requires
            in_range(v),
        ensures
            (#[trigger] Fixed::of_raw(v))@ == v,
    {
    }

    /// Scalars with equal raw values are equal.
    pub proof fn lemma_view_injective(a: Fixed, b: Fixed)
        requires
            a@ == b@,
        ensures
            a == b,
    {
    }

    /// The scalar with the given raw value, saturated.
    pub fn from_raw(raw: i64) -> (r: Fixed)
        ensures
            r@ == saturate(raw as int),
    {
        narrow(raw as i128)
    }

    /// The scalar that stands for the whole number `n`, saturated.
    pub fn from_int(n: i32) -> (r: Fixed)
        ensures
            r@ == saturate(n * SCALE),
    {
        narrow(wide_scale(n as i128))
    }

    /// The scalar 0.
    pub fn zero() -> (r: Fixed)
        ensures
            r@ == 0,
    {
        Fixed { raw: 0 }
    }

    /// The scalar 1.
    pub fn one() -> (r: Fixed)
        ensures
            r@ == SCALE,
    {
        Fixed { raw: SCALE }
    }

    /// The raw value, which always lies within the limits.
    pub fn raw(&self) -> (r: i64)
        ensures
            r == self@,
            in_range(r as int),
    {
        proof {
            use_type_invariant(self);
        }
        self.raw
    }

    /// Whether the scalar sits at one of the limits, as every result that
    /// went out of range does.
    pub fn is_saturated(&self) -> (r: bool)
        ensures
            r == (self@ == LIMIT || self@ == -LIMIT),
    {
        self.raw == LIMIT || self.raw == -LIMIT
    }

    /// The saturated sum.
    pub fn add(self, other: Fixed) -> (r: Fixed)
        ensures
            r@ == saturate(self@ + other@),
    {
        narrow(self.raw() as i128 + other.raw() as i128)
    }

    /// The saturated difference.
    pub fn sub(self, other: Fixed) -> (r: Fixed)
        ensures
            r@ == saturate(self@ - other@),
    {
        narrow(self.raw() as i128 - other.raw() as i128)
    }

    /// The negation, which is always exact.
    pub fn neg(self) -> (r: Fixed)
        ensures
            r@ == -self@,
    {
        let a: i64 = self.raw();
        Fixed { raw: -a }
    }

    /// The absolute value, which is always exact.
    pub fn abs(self) -> (r: Fixed)
        ensures
            r@ == if self@ < 0 { -self@ } else { self@ },
    {
        let a: i64 = self.raw();
        if a < 0 {
            Fixed { raw: -a }
        } else {
            self
        }
    }

    /// The product, rounded toward zero and saturated.
    pub fn mul(self, other: Fixed) -> (r: Fixed)
        ensures
            r@ == fixed_mul(self@, other@),
    {
        let p: i128 = wide_mul(self.raw(), other.raw());
        narrow(wide_div(p, SCALE as i128))
    }

    /// The quotient by a whole number, rounded toward zero.
    pub fn div_int(self, n: usize) -> (r: Fixed)
        requires
            n > 0,
        ensures
            r@ == trunc_div(self@, n as int),
    {
        let a: i64 = self.raw();
        let q: i128 = wide_div(a as i128, n as i128);
        proof {
            lemma_trunc_div_shrinks(a as int, n as int);
        }
        narrow(q)
    }

    /// The quotient by a nonzero scalar, rounded toward zero and saturated.
    pub fn div(self, other: Fixed) -> (r: Fixed)
        requires
            other@ != 0,
        ensures
            r@ == fixed_div(self@, other@),
    {
        let n: i128 = wide_scale(self.raw() as i128);
        narrow(wide_div(n, other.raw() as i128))
    }
}

} // verus!
