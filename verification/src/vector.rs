//! Points and vectors of the plane.
//!
//! A [`Point2`] is a place: its coordinates are millionths and every pair of
//! `i32` is one, so the plane is bounded. A [`Vector2`] is a displacement or a
//! direction. Both are seen in contracts as an [`IntVec`], a pair of
//! mathematical integers.

use vstd::prelude::*;
use crate::error::GeometryError;
use crate::fixed::{UNIT, div_trunc, divide, isqrt, lemma_div_trunc_between,
    lemma_div_trunc_remainder, lemma_isqrt, lemma_product_bound, lemma_square_bound,
    sqrt_floor};

verus! {

/// A pair of integers: the mathematical model of points and vectors.
pub struct IntVec {
    pub x: int,
    pub y: int,
}

/// The largest component for which [`Vector2::reflect`] is computed.
pub const REACH: i64 = 1_000_000_000_000;

/// The largest component that [`Vector2::normalize`] scales with twelve
/// extra digits before it takes the square root.
pub const FINE: i64 = 10_000_000_000_000;

/// The smallest squared length of a unit vector: `(UNIT - 2)^2`.
pub const UNIT_SQ_MIN: i64 = 999_996_000_004;

/// The largest squared length of a unit vector: `(UNIT + 2)^2`.
pub const UNIT_SQ_MAX: i64 = 1_000_004_000_004;

impl IntVec {
    /// The sum of two vectors.
    pub open spec fn add(self, other: IntVec) -> IntVec {
        IntVec { x: self.x + other.x, y: self.y + other.y }
    }

    /// The difference of two vectors.
    pub open spec fn sub(self, other: IntVec) -> IntVec {
        IntVec { x: self.x - other.x, y: self.y - other.y }
    }

    /// The opposite vector.
    pub open spec fn neg(self) -> IntVec {
        IntVec { x: -self.x, y: -self.y }
    }

    /// The vector turned a quarter turn counter-clockwise.
    pub open spec fn perp(self) -> IntVec {
        IntVec { x: -self.y, y: self.x }
    }

    /// The dot product.
    pub open spec fn dot(self, other: IntVec) -> int {
        self.x * other.x + self.y * other.y
    }

    /// The perpendicular dot product: the z-component of the cross product.
    pub open spec fn cross(self, other: IntVec) -> int {
        self.x * other.y - self.y * other.x
    }

    /// The squared length.
    pub open spec fn norm_sq(self) -> int {
        self.x * self.x + self.y * self.y
    }

    /// The length, rounded down.
    pub open spec fn length(self) -> int {
        isqrt(self.norm_sq())
    }

    /// Both components are zero.
    pub open spec fn is_zero(self) -> bool {
        self.x == 0 && self.y == 0
    }

    /// The length is within two millionths of one.
    pub open spec fn is_unit(self) -> bool {
        (UNIT - 2) * (UNIT - 2) <= self.norm_sq() <= (UNIT + 2) * (UNIT + 2)
    }

    /// No component exceeds `bound` in absolute value.
    pub open spec fn within(self, bound: int) -> bool {
        -bound <= self.x <= bound && -bound <= self.y <= bound
    }

    /// Both components are `i64` values.
    pub open spec fn fits(self) -> bool {
        i64::MIN <= self.x <= i64::MAX && i64::MIN <= self.y <= i64::MAX
    }

    /// The vector times the fixed-point factor `k`, each component rounded
    /// toward zero.
    pub open spec fn scale(self, k: int) -> IntVec {
        IntVec { x: div_trunc(self.x * k, UNIT as int), y: div_trunc(self.y * k, UNIT as int) }
    }

    /// The vector divided by the fixed-point length `len / scale`, each
    /// component rounded toward zero.
    pub open spec fn rescale(self, scale: int, len: int) -> IntVec {
        IntVec { x: div_trunc(self.x * scale, len), y: div_trunc(self.y * scale, len) }
    }

    /// The unit vector in the direction of a non-zero vector.
    ///
    /// A vector that is a unit vector already is left as it is. Otherwise
    /// each component is divided by the length and rounded toward zero. The
    /// length is the rounded-down square root of the squared length, taken
    /// with six more digits where no component exceeds `FINE`.
    pub open spec fn normalize(self) -> IntVec {
        if self.is_unit() {
            self
        } else if self.within(FINE as int) {
            self.rescale(UNIT * UNIT, isqrt(self.norm_sq() * (UNIT * UNIT)))
        } else {
            self.rescale(UNIT as int, isqrt(self.norm_sq()))
        }
    }

    /// The mirror image of the vector in the line whose normal is the
    /// non-zero `normal`: `self - 2 (self . normal) normal / (normal . normal)`,
    /// each component of what is subtracted rounded toward zero.
    pub open spec fn reflect(self, normal: IntVec) -> IntVec {
        let k = 2 * self.dot(normal);
        let n = normal.norm_sq();
        IntVec { x: self.x - div_trunc(k * normal.x, n), y: self.y - div_trunc(k * normal.y, n) }
    }
}

/// Dividing a vector whose length lies between `u m` and `u (m + 1)` by `m`
/// leaves a vector whose length is nearly `u`.
pub proof fn lemma_rescaled_length(u: int, a: int, b: int, m: int, p: int, q: int)
    requires
        4 <= u <= m,
        u * u * (m * m) <= a * a + b * b < u * u * ((m + 1) * (m + 1)),
        p == div_trunc(a, m),
        q == div_trunc(b, m),
    ensures
        (u - 2) * (u - 2) <= p * p + q * q <= (u + 1) * (u + 1),
{
    lemma_div_trunc_remainder(a, m);
    lemma_div_trunc_remainder(b, m);
    let pa = if p >= 0 { p } else { -p };
    let qa = if q >= 0 { q } else { -q };
    let aa = if a >= 0 { a } else { -a };
    let ba = if b >= 0 { b } else { -b };
    assert(pa * m <= aa < pa * m + m && aa * aa == a * a && pa * pa == p * p)
        by (nonlinear_arith)
        requires
            m > 0,
            a >= 0 ==> 0 <= a - p * m < m && p >= 0,
            a <= 0 ==> -m < a - p * m <= 0 && p <= 0,
            pa == if p >= 0 { p } else { -p },
            aa == if a >= 0 { a } else { -a },
    ;
    assert(qa * m <= ba < qa * m + m && ba * ba == b * b && qa * qa == q * q)
        by (nonlinear_arith)
        requires
            m > 0,
            b >= 0 ==> 0 <= b - q * m < m && q >= 0,
            b <= 0 ==> -m < b - q * m <= 0 && q <= 0,
            qa == if q >= 0 { q } else { -q },
            ba == if b >= 0 { b } else { -b },
    ;
    assert(m * m * (pa * pa) <= aa * aa < m * m * ((pa + 1) * (pa + 1))) by (nonlinear_arith)
        requires
            0 <= pa,
            0 < m,
            pa * m <= aa < pa * m + m,
    {
        assert((pa * m) * (pa * m) <= aa * aa);
        assert(aa * aa < ((pa + 1) * m) * ((pa + 1) * m));
    }
    assert(m * m * (qa * qa) <= ba * ba < m * m * ((qa + 1) * (qa + 1))) by (nonlinear_arith)
        requires
            0 <= qa,
            0 < m,
            qa * m <= ba < qa * m + m,
    {
        assert((qa * m) * (qa * m) <= ba * ba);
        assert(ba * ba < ((qa + 1) * m) * ((qa + 1) * m));
    }
    let s = pa * pa + qa * qa;
    let t = pa + qa;
    let mm = m * m;
    assert(mm > 0) by (nonlinear_arith)
        requires
            m > 0,
            mm == m * m,
    ;
    // the upper bound
    assert(u * u * ((m + 1) * (m + 1)) <= (u + 1) * (u + 1) * mm) by (nonlinear_arith)
        requires
            0 < u <= m,
            mm == m * m,
    {
        assert(u * (m + 1) <= (u + 1) * m);
        assert((u * (m + 1)) * (u * (m + 1)) <= ((u + 1) * m) * ((u + 1) * m));
    }
    assert(s < (u + 1) * (u + 1)) by (nonlinear_arith)
        requires
            mm > 0,
            mm * (pa * pa) + mm * (qa * qa) < (u + 1) * (u + 1) * mm,
            s == pa * pa + qa * qa,
    {
        assert(mm * s < mm * ((u + 1) * (u + 1)));
    }
    // the lower bound
    assert(u * u < s + 2 * t + 2) by (nonlinear_arith)
        requires
            mm > 0,
            u * u * mm < mm * ((pa + 1) * (pa + 1)) + mm * ((qa + 1) * (qa + 1)),
            s == pa * pa + qa * qa,
            t == pa + qa,
    {
        assert(mm * (u * u) < mm * (s + 2 * t + 2));
    }
    assert(t * t <= 2 * s) by (nonlinear_arith)
        requires
            s == pa * pa + qa * qa,
            t == pa + qa,
    {
        assert((pa - qa) * (pa - qa) >= 0);
    }
    if s < (u - 2) * (u - 2) {
        assert(false) by (nonlinear_arith)
            requires
                u >= 4,
                0 <= t,
                s < (u - 2) * (u - 2),
                u * u < s + 2 * t + 2,
                t * t <= 2 * s,
        {
            assert(t >= 2 * u - 2);
            assert(t * t >= (2 * u - 2) * (2 * u - 2));
        }
    }
}

/// The part that a reflection subtracts is at most three times as long as
/// the reflected vector's longest component.
pub proof fn lemma_reflect_term(dx: int, dy: int, nx: int, ny: int, bound: int)
    requires
        -bound <= dx <= bound,
        -bound <= dy <= bound,
    ensures
        (-(3 * bound)) * (nx * nx + ny * ny) <= 2 * (dx * nx + dy * ny) * nx <= (3 * bound) * (nx
            * nx + ny * ny),
{
    let n = nx * nx + ny * ny;
    let w = nx * nx;
    let c = 2 * (nx * ny);
    let bn = bound * n;
    assert(-n <= c <= n && 0 <= w <= n) by (nonlinear_arith)
        requires
            n == nx * nx + ny * ny,
            w == nx * nx,
            c == 2 * (nx * ny),
    {
        assert((nx - ny) * (nx - ny) >= 0);
        assert((nx + ny) * (nx + ny) >= 0);
    }
    assert(-bn <= dx * w <= bn) by (nonlinear_arith)
        requires
            -bound <= dx <= bound,
            0 <= w <= n,
            bn == bound * n,
    {
        assert(dx * w <= bound * w);
        assert(bound * w <= bound * n);
        assert(dx * w >= (-bound) * w);
        assert((-bound) * w >= (-bound) * n);
    }
    assert(-bn <= dy * c <= bn) by (nonlinear_arith)
        requires
            -bound <= dy <= bound,
            -n <= c <= n,
            bn == bound * n,
    {
        if c >= 0 {
            assert(dy * c <= bound * c);
            assert(bound * c <= bound * n);
            assert(dy * c >= (-bound) * c);
            assert((-bound) * c >= (-bound) * n);
        } else {
            assert(dy * c <= (-bound) * c);
            assert((-bound) * c <= bound * n);
            assert(dy * c >= bound * c);
            assert(bound * c >= (-bound) * n);
        }
    }
    assert(2 * (dx * nx + dy * ny) * nx == 2 * (dx * w) + dy * c) by (nonlinear_arith)
        requires
            c == 2 * (nx * ny),
            w == nx * nx,
    ;
    assert((3 * bound) * n == 3 * bn && (-(3 * bound)) * n == -3 * bn) by (nonlinear_arith)
        requires
            bn == bound * n,
    ;
}

/// Normalizing gives a unit vector, and the length by which it divides is
/// at least one.
pub proof fn lemma_normalize_is_unit(v: IntVec)
    requires
        !v.is_zero(),
    ensures
        v.normalize().is_unit(),
        !v.is_unit() ==> v.normalize().norm_sq() <= (UNIT + 1) * (UNIT + 1),
        !v.is_unit() && v.within(FINE as int) ==> isqrt(v.norm_sq() * (UNIT * UNIT)) >= UNIT,
        !v.is_unit() && !v.within(FINE as int) ==> isqrt(v.norm_sq()) >= UNIT,
{
    let u = UNIT as int;
    let s = v.norm_sq();
    assert(s >= 1) by (nonlinear_arith)
        requires
            s == v.x * v.x + v.y * v.y,
            v.x != 0 || v.y != 0,
    ;
    if v.is_unit() {
    } else if v.within(FINE as int) {
        let m = isqrt(s * (u * u));
        assert(s * (u * u) >= 0) by (nonlinear_arith)
            requires
                s >= 1,
        ;
        lemma_isqrt(s * (u * u));
        let a = v.x * (u * u);
        let b = v.y * (u * u);
        assert(m >= u) by (nonlinear_arith)
            requires
                s >= 1,
                u == 1_000_000,
                m >= 0,
                s * (u * u) < (m + 1) * (m + 1),
        {
            if m < u {
                assert((m + 1) * (m + 1) <= u * u);
            }
        }
        assert(u * u * (m * m) <= a * a + b * b < u * u * ((m + 1) * (m + 1))) by (nonlinear_arith)
            requires
                u == 1_000_000,
                a == v.x * (u * u),
                b == v.y * (u * u),
                s == v.x * v.x + v.y * v.y,
                m * m <= s * (u * u) < (m + 1) * (m + 1),
        {
            assert(a * a + b * b == (u * u) * (s * (u * u)));
        }
        lemma_rescaled_length(u, a, b, m, div_trunc(a, m), div_trunc(b, m));
    } else {
        let m = isqrt(s);
        lemma_isqrt(s);
        let a = v.x * u;
        let b = v.y * u;
        assert(m >= u) by (nonlinear_arith)
            requires
                u == 1_000_000,
                s == v.x * v.x + v.y * v.y,
                v.x < -10_000_000_000_000 || v.x > 10_000_000_000_000 || v.y
                    < -10_000_000_000_000 || v.y > 10_000_000_000_000,
                s < (m + 1) * (m + 1),
                m >= 0,
        {
            assert(s > 10_000_000_000_000 * 10_000_000_000_000);
            if m < u {
                assert((m + 1) * (m + 1) <= u * u);
            }
        }
        assert(u * u * (m * m) <= a * a + b * b < u * u * ((m + 1) * (m + 1))) by (nonlinear_arith)
            requires
                u == 1_000_000,
                a == v.x * u,
                b == v.y * u,
                s == v.x * v.x + v.y * v.y,
                m * m <= s < (m + 1) * (m + 1),
        {
            assert(a * a + b * b == (u * u) * s);
        }
        lemma_rescaled_length(u, a, b, m, div_trunc(a, m), div_trunc(b, m));
    }
}

/// Normalizing a vector whose length is within four millionths of one moves
/// no component by more than five millionths.
pub proof fn lemma_normalize_moves_little(v: IntVec)
    requires
        (UNIT - 4) * (UNIT - 4) <= v.norm_sq() <= (UNIT + 4) * (UNIT + 4),
    ensures
        -5 <= v.normalize().x - v.x <= 5,
        -5 <= v.normalize().y - v.y <= 5,
{
    let u = UNIT as int;
    let s = v.norm_sq();
    if !v.is_unit() {
        lemma_square_bound(v.x, v.y, u + 4);
        let m = isqrt(s * (u * u));
        lemma_isqrt(s * (u * u));
        let lo = 999_996_000_000int;
        let hi = 1_000_004_000_000int;
        assert(lo <= m <= hi) by (nonlinear_arith)
            requires
                m >= 0,
                u == 1_000_000,
                lo == 999_996_000_000int,
                hi == 1_000_004_000_000int,
                m * m <= s * (u * u) < (m + 1) * (m + 1),
                (u - 4) * (u - 4) <= s <= (u + 4) * (u + 4),
        {
            assert(s * (u * u) <= hi * hi);
            assert(s * (u * u) >= lo * lo);
            if m > hi {
                assert(m * m > hi * hi);
            }
            if m + 1 <= lo {
                assert((m + 1) * (m + 1) <= lo * lo);
            }
        }
        let e = u * u - m;
        lemma_product_bound(v.x, e, u + 4, 4 * u);
        lemma_product_bound(v.y, e, u + 4, 4 * u);
        assert((v.x - 5) * m <= v.x * (u * u) <= (v.x + 5) * m && (v.y - 5) * m <= v.y * (u * u) <= (
        v.y + 5) * m) by (nonlinear_arith)
            requires
                e == u * u - m,
                -4_000_016_000_000 <= v.x * e <= 4_000_016_000_000,
                -4_000_016_000_000 <= v.y * e <= 4_000_016_000_000,
                m >= 999_996_000_000,
        {
            assert(v.x * (u * u) - (v.x - 5) * m == v.x * e + 5 * m);
            assert((v.x + 5) * m - v.x * (u * u) == 5 * m - v.x * e);
            assert(v.y * (u * u) - (v.y - 5) * m == v.y * e + 5 * m);
            assert((v.y + 5) * m - v.y * (u * u) == 5 * m - v.y * e);
        }
        lemma_div_trunc_between(v.x * (u * u), m, v.x - 5, v.x + 5);
        lemma_div_trunc_between(v.y * (u * u), m, v.y - 5, v.y + 5);
    }
}

/// A point of the plane, in millionths.
#[derive(Clone, Copy, Debug, PartialEq, Eq, Structural)]
pub struct Point2 {
    pub x: i32,
    pub y: i32,
}

/// A displacement or a direction, in millionths.
#[derive(Clone, Copy, Debug, PartialEq, Eq, Structural)]
pub struct Vector2 {
    pub x: i64,
    pub y: i64,
}

impl View for Point2 {
    type V = IntVec;

    open spec fn view(&self) -> IntVec {
        IntVec { x: self.x as int, y: self.y as int }
    }
}

impl View for Vector2 {
    type V = IntVec;

    open spec fn view(&self) -> IntVec {
        IntVec { x: self.x as int, y: self.y as int }
    }
}

/// The absolute value of `v`.
fn magnitude(v: i64) -> (m: u128)
    ensures
        m == if v >= 0 { v as int } else { -(v as int) },
{
    if v >= 0 {
        v as u128
    } else {
        (-(v as i128)) as u128
    }
}

impl Point2 {
    /// The displacement that leads from `other` to `self`.
    pub fn subtract(self, other: Point2) -> (v: Vector2)
        ensures
            v@ == self@.sub(other@),
    {
        Vector2 { x: self.x as i64 - other.x as i64, y: self.y as i64 - other.y as i64 }
    }

    /// The point that `v` leads to from `self`, if it lies in the plane.
    pub fn displace(self, v: Vector2) -> (p: Option<Point2>)
        ensures
            match p {
                Some(q) => q@ == self@.add(v@),
                None => !(i32::MIN <= self.x + v.x <= i32::MAX && i32::MIN <= self.y + v.y
                    <= i32::MAX),
            },
    {
        let x: i128 = self.x as i128 + v.x as i128;
        let y: i128 = self.y as i128 + v.y as i128;
        if x < -2147483648 || x > 2147483647 || y < -2147483648 || y > 2147483647 {
            None
        } else {
            Some(Point2 { x: x as i32, y: y as i32 })
        }
    }
}

impl Vector2 {
    /// The sum of two vectors.
    pub fn add(self, other: Vector2) -> (v: Vector2)
        requires
            self@.add(other@).fits(),
        ensures
            v@ == self@.add(other@),
    {
        Vector2 { x: self.x + other.x, y: self.y + other.y }
    }

    /// The difference of two vectors.
    pub fn subtract(self, other: Vector2) -> (v: Vector2)
        requires
            self@.sub(other@).fits(),
        ensures
            v@ == self@.sub(other@),
    {
        Vector2 { x: self.x - other.x, y: self.y - other.y }
    }

    /// The opposite vector.
    pub fn negate(self) -> (v: Vector2)
        requires
            self@.neg().fits(),
        ensures
            v@ == self@.neg(),
    {
        Vector2 { x: -self.x, y: -self.y }
    }

    /// The vector turned a quarter turn counter-clockwise.
    pub fn perpendicular(self) -> (v: Vector2)
        requires
            self@.perp().fits(),
        ensures
            v@ == self@.perp(),
    {
        Vector2 { x: -self.y, y: self.x }
    }

    /// The vector times the fixed-point factor `k`.
    pub fn scale(self, k: i64) -> (v: Vector2)
        requires
            self@.scale(k as int).fits(),
        ensures
            v@ == self@.scale(k as int),
    {
        assert(i128::MIN <= self.x * k <= i128::MAX && i128::MIN <= self.y * k <= i128::MAX)
            by (nonlinear_arith)
            requires
                i64::MIN <= self.x <= i64::MAX,
                i64::MIN <= self.y <= i64::MAX,
                i64::MIN <= k <= i64::MAX,
        ;
        let x = divide(self.x as i128 * k as i128, UNIT as i128);
        let y = divide(self.y as i128 * k as i128, UNIT as i128);
        Vector2 { x: x as i64, y: y as i64 }
    }

    /// The dot product, in squared millionths.
    pub fn dot(self, other: Vector2) -> (d: i128)
        requires
            i128::MIN <= self@.dot(other@) <= i128::MAX,
        ensures
            d == self@.dot(other@),
    {
        assert(-0x4000_0000_0000_0000_0000_0000_0000_0000 <= self.x * other.x
            <= 0x4000_0000_0000_0000_0000_0000_0000_0000
            && -0x4000_0000_0000_0000_0000_0000_0000_0000 <= self.y * other.y
            <= 0x4000_0000_0000_0000_0000_0000_0000_0000) by (nonlinear_arith)
            requires
                i64::MIN <= self.x <= i64::MAX,
                i64::MIN <= self.y <= i64::MAX,
                i64::MIN <= other.x <= i64::MAX,
                i64::MIN <= other.y <= i64::MAX,
        ;
        let a: i128 = self.x as i128 * other.x as i128;
        let b: i128 = self.y as i128 * other.y as i128;
        a + b
    }

    /// The perpendicular dot product, in squared millionths.
    pub fn perp_dot(self, other: Vector2) -> (d: i128)
        requires
            i128::MIN <= self@.cross(other@) <= i128::MAX,
        ensures
            d == self@.cross(other@),
    {
        assert(-0x4000_0000_0000_0000_0000_0000_0000_0000 <= self.x * other.y
            <= 0x4000_0000_0000_0000_0000_0000_0000_0000
            && -0x4000_0000_0000_0000_0000_0000_0000_0000 <= self.y * other.x
            <= 0x4000_0000_0000_0000_0000_0000_0000_0000) by (nonlinear_arith)
            requires
                i64::MIN <= self.x <= i64::MAX,
                i64::MIN <= self.y <= i64::MAX,
                i64::MIN <= other.x <= i64::MAX,
                i64::MIN <= other.y <= i64::MAX,
        ;
        let a: i128 = self.x as i128 * other.y as i128;
        let b: i128 = self.y as i128 * other.x as i128;
        a - b
    }

    /// The squared length, in squared millionths.
    pub fn norm_sq(self) -> (s: u128)
        ensures
            s == self@.norm_sq(),
            s <= 0x8000_0000_0000_0000_0000_0000_0000_0000,
    {
        let ax = magnitude(self.x);
        let ay = magnitude(self.y);
        assert(ax * ax == self.x * self.x && ay * ay == self.y * self.y && ax * ax
            <= 0x4000_0000_0000_0000_0000_0000_0000_0000 && ay * ay
            <= 0x4000_0000_0000_0000_0000_0000_0000_0000) by (nonlinear_arith)
            requires
                ax == self.x || ax == -self.x,
                ay == self.y || ay == -self.y,
                ax <= 0x8000_0000_0000_0000,
                ay <= 0x8000_0000_0000_0000,
        ;
        ax * ax + ay * ay
    }

    /// The length, rounded down.
    pub fn length(self) -> (l: u64)
        ensures
            l == self@.length(),
            l * l <= self@.norm_sq() < (l + 1) * (l + 1),
    {
        sqrt_floor(self.norm_sq())
    }

    /// The unit vector in the direction of this vector.
    ///
    /// Fails with `DegenerateVector` exactly where the vector is zero.
    pub fn normalize(self) -> (r: Result<Vector2, GeometryError>)
        ensures
            match r {
                Ok(v) => !self@.is_zero() && v@ == self@.normalize() && v@.is_unit(),
                Err(e) => self@.is_zero() && e == GeometryError::DegenerateVector,
            },
    {
        if self.x == 0 && self.y == 0 {
            return Err(GeometryError::DegenerateVector);
        }
        let s = self.norm_sq();
        if UNIT_SQ_MIN as u128 <= s && s <= UNIT_SQ_MAX as u128 {
            return Ok(self);
        }
        proof {
            lemma_normalize_is_unit(self@);
            lemma_square_bound(
                self@.normalize().x,
                self@.normalize().y,
                UNIT + 2,
            );
        }
        if -FINE <= self.x && self.x <= FINE && -FINE <= self.y && self.y <= FINE {
            assert(s <= 200_000_000_000_000_000_000_000_000) by (nonlinear_arith)
                requires
                    s == self.x * self.x + self.y * self.y,
                    -10_000_000_000_000 <= self.x <= 10_000_000_000_000,
                    -10_000_000_000_000 <= self.y <= 10_000_000_000_000,
            ;
            let m = sqrt_floor(s * 1_000_000_000_000);
            let x = divide(self.x as i128 * 1_000_000_000_000, m as i128);
            let y = divide(self.y as i128 * 1_000_000_000_000, m as i128);
            Ok(Vector2 { x: x as i64, y: y as i64 })
        } else {
            let m = sqrt_floor(s);
            let x = divide(self.x as i128 * 1_000_000, m as i128);
            let y = divide(self.y as i128 * 1_000_000, m as i128);
            Ok(Vector2 { x: x as i64, y: y as i64 })
        }
    }

    /// The mirror image of this vector in the line whose normal is `normal`.
    ///
    /// For a unit `normal` this is `self - 2 (self . normal) normal`.
    pub fn reflect(self, normal: Vector2) -> (v: Vector2)
        requires
            self@.within(REACH as int),
            normal@.within(REACH as int),
            !normal@.is_zero(),
        ensures
            v@ == self@.reflect(normal@),
            v@.within(4 * REACH),
    {
        let ghost r = REACH as int;
        assert(-2 * (r * r) <= self.x * normal.x + self.y * normal.y <= 2 * (r * r) && 0 < normal.x
            * normal.x + normal.y * normal.y <= 2 * (r * r)) by (nonlinear_arith)
            requires
                r >= 0,
                -r <= self.x <= r,
                -r <= self.y <= r,
                -r <= normal.x <= r,
                -r <= normal.y <= r,
                normal.x != 0 || normal.y != 0,
        ;
        let k: i128 = 2 * self.dot(normal);
        let n: i128 = normal.norm_sq() as i128;
        assert(-4 * (r * r) * r <= k * normal.x <= 4 * (r * r) * r && -4 * (r * r) * r <= k
            * normal.y <= 4 * (r * r) * r) by (nonlinear_arith)
            requires
                r >= 0,
                -4 * (r * r) <= k <= 4 * (r * r),
                -r <= normal.x <= r,
                -r <= normal.y <= r,
        ;
        assert(4 * (r * r) * r == 4_000_000_000_000_000_000_000_000_000_000_000_000int)
            by (nonlinear_arith)
            requires
                r == 1_000_000_000_000int,
        ;
        proof {
            lemma_reflect_term(self.x as int, self.y as int, normal.x as int, normal.y as int, r);
            lemma_reflect_term(self.y as int, self.x as int, normal.y as int, normal.x as int, r);
            assert(normal.y * normal.y + normal.x * normal.x == n);
            assert(2 * (self.y * normal.y + self.x * normal.x) * normal.y == k * normal.y)
                by (nonlinear_arith)
                requires
                    k == 2 * (self.x * normal.x + self.y * normal.y),
            ;
            assert(2 * (self.x * normal.x + self.y * normal.y) * normal.x == k * normal.x)
                by (nonlinear_arith)
                requires
                    k == 2 * (self.x * normal.x + self.y * normal.y),
            ;
            lemma_div_trunc_between(k * normal.x, n as int, -(3 * r), 3 * r);
            lemma_div_trunc_between(k * normal.y, n as int, -(3 * r), 3 * r);
            assert(3 * r == 3_000_000_000_000int);
        }
        let qx = divide(k * normal.x as i128, n);
        let qy = divide(k * normal.y as i128, n);
        Vector2 { x: (self.x as i128 - qx) as i64, y: (self.y as i128 - qy) as i64 }
    }

    /// Whether the length is within two millionths of one.
    pub fn is_unit(self) -> (b: bool)
        ensures
            b == self@.is_unit(),
    {
        let s = self.norm_sq();
        UNIT_SQ_MIN as u128 <= s && s <= UNIT_SQ_MAX as u128
    }
}

} // verus!
