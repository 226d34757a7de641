//! Where segments cross, and what a ray meets first.
//!
//! Two lines `p + t r` and `q + u s` are solved for `t` and `u` with
//! perpendicular dot products. The three products are exact integers, so
//! whether the lines are parallel and whether a parameter lies in `[0, 1]` is
//! decided without rounding; only the point that is handed back is rounded.

use vstd::prelude::*;
use crate::fixed::{UNIT, div_trunc, divide_signed, isqrt, lemma_div_trunc_between,
    lemma_div_trunc_remainder, lemma_product_bound, lemma_square_bound, quotient};
use crate::ray::Ray;
use crate::segment::{Scene, Segment};
use crate::vector::{FINE, IntVec, Point2, Vector2, lemma_normalize_is_unit};

verus! {

/// The solution of `p + t r = q + u s`, as three numerators: `t` is
/// `first / det` and `u` is `second / det`.
pub struct Crossing {
    pub det: int,
    pub first: int,
    pub second: int,
}

/// The crossing of the line through `p` along `r` with the line through `q`
/// along `s`. The lines are parallel exactly where `det` is zero.
pub open spec fn crossing(p: IntVec, r: IntVec, q: IntVec, s: IntVec) -> Crossing {
    let w = q.sub(p);
    Crossing { det: r.cross(s), first: w.cross(s), second: w.cross(r) }
}

/// `den` is not zero and `num / den` lies between zero and one, both
/// included.
pub open spec fn in_unit_interval(num: int, den: int) -> bool {
    (den > 0 && 0 <= num <= den) || (den < 0 && den <= num <= 0)
}

/// The point `p + (num / den) r`, each coordinate rounded toward zero.
pub open spec fn point_along(p: IntVec, r: IntVec, num: int, den: int) -> IntVec {
    IntVec { x: quotient(p.x * den + num * r.x, den), y: quotient(p.y * den + num * r.y, den) }
}

/// The segments are not parallel and their lines cross within both.
pub open spec fn segments_meet(a: Segment, b: Segment) -> bool {
    let c = crossing(a.start@, a.direction(), b.start@, b.direction());
    in_unit_interval(c.first, c.det) && in_unit_interval(c.second, c.det)
}

/// The point where two segments that meet cross, each coordinate rounded
/// toward zero.
pub open spec fn meeting_point(a: Segment, b: Segment) -> IntVec {
    let c = crossing(a.start@, a.direction(), b.start@, b.direction());
    point_along(a.start@, a.direction(), c.first, c.det)
}

/// The crossing of a ray with the line of a segment: `first / det` is the
/// way along the ray, in direction vectors, and `second / det` the way along
/// the segment.
pub open spec fn ray_crossing(origin: IntVec, direction: IntVec, seg: Segment) -> Crossing {
    crossing(origin, direction, seg.start@, seg.direction())
}

/// How far along the ray it meets the line of the segment, in millionths,
/// rounded toward zero.
pub open spec fn hit_distance(origin: IntVec, direction: IntVec, seg: Segment) -> int {
    let c = ray_crossing(origin, direction, seg);
    quotient(c.first * UNIT, c.det)
}

/// The ray is not parallel to the segment, meets its line within the
/// segment, and does so at least one millionth ahead of the origin.
pub open spec fn ray_hits(origin: IntVec, direction: IntVec, seg: Segment) -> bool {
    let c = ray_crossing(origin, direction, seg);
    in_unit_interval(c.second, c.det) && hit_distance(origin, direction, seg) >= 1
}

/// Where the ray meets the segment, each coordinate rounded toward zero.
pub open spec fn hit_point(origin: IntVec, direction: IntVec, seg: Segment) -> IntVec {
    let c = ray_crossing(origin, direction, seg);
    point_along(seg.start@, seg.direction(), c.second, c.det)
}

/// The sign of `v`: one, zero or minus one.
pub open spec fn signum(v: int) -> int {
    if v > 0 {
        1
    } else if v < 0 {
        -1
    } else {
        0
    }
}

/// Of a vector and its opposite, the one that points against `direction`.
pub open spec fn against(v: IntVec, direction: IntVec) -> IntVec {
    if v.dot(direction) < 0 {
        v
    } else {
        v.neg()
    }
}

/// The unit normal of the segment on the side that the ray arrives from:
/// its dot product with `direction` is negative.
///
/// The side is decided on the exact perpendicular of the segment. Where the
/// ray all but grazes the segment, rounding toward zero can leave the unit
/// normal at right angles to the ray. The one component that leans against
/// the ray is then rounded away from zero instead.
pub open spec fn hit_normal(direction: IntVec, seg: Segment) -> IntVec {
    let p = against(seg.direction().perp(), direction);
    let n = p.normalize();
    if n.dot(direction) < 0 {
        n
    } else if p.x * direction.x < 0 {
        IntVec { x: n.x + signum(p.x), y: n.y }
    } else {
        IntVec { x: n.x, y: n.y + signum(p.y) }
    }
}

/// A ray's meeting with a segment.
#[derive(Clone, Copy, Debug, PartialEq, Eq, Structural)]
pub struct HitRecord {
    /// Where the ray meets the segment.
    pub point: Point2,
    /// How far along the ray that is, in millionths.
    pub distance: i64,
    /// The segment that is met.
    pub segment: Segment,
    /// The unit normal of the segment on the side that the ray arrives from.
    pub normal: Vector2,
}

impl HitRecord {
    /// The record describes the meeting of the ray with `seg`.
    pub open spec fn is_hit_of(self, origin: IntVec, direction: IntVec, seg: Segment) -> bool {
        &&& self.point@ == hit_point(origin, direction, seg)
        &&& self.distance == hit_distance(origin, direction, seg)
        &&& self.segment == seg
        &&& self.normal@ == hit_normal(direction, seg)
    }
}

/// The segment is not the excluded one and the ray hits it.
pub open spec fn eligible(
    origin: IntVec,
    direction: IntVec,
    seg: Segment,
    exclude: Option<Segment>,
) -> bool {
    exclude != Some(seg) && ray_hits(origin, direction, seg)
}

/// Segment `i` is the one that the ray meets first: it is eligible, no
/// eligible segment is nearer, and none before it in the scene is as near.
pub open spec fn is_nearest(
    origin: IntVec,
    direction: IntVec,
    scene: Seq<Segment>,
    exclude: Option<Segment>,
    i: int,
) -> bool {
    &&& 0 <= i < scene.len()
    &&& eligible(origin, direction, scene[i], exclude)
    &&& forall|j: int|
        0 <= j < scene.len() && #[trigger] eligible(origin, direction, scene[j], exclude)
            ==> {
            &&& hit_distance(origin, direction, scene[i]) <= hit_distance(
                origin,
                direction,
                scene[j],
            )
            &&& j < i ==> hit_distance(origin, direction, scene[i]) < hit_distance(
                origin,
                direction,
                scene[j],
            )
        }
}

/// The index of the segment that the ray meets first, if it meets any.
pub open spec fn nearest_index(
    origin: IntVec,
    direction: IntVec,
    scene: Seq<Segment>,
    exclude: Option<Segment>,
) -> Option<int> {
    if exists|i: int| is_nearest(origin, direction, scene, exclude, i) {
        Some(choose|i: int| is_nearest(origin, direction, scene, exclude, i))
    } else {
        None
    }
}

/// Swapping the two lines swaps the two parameters and leaves them as they
/// are: the determinant and both numerators change sign.
pub proof fn lemma_crossing_swap(p: IntVec, r: IntVec, q: IntVec, s: IntVec)
    ensures
        crossing(q, s, p, r).det == -crossing(p, r, q, s).det,
        crossing(q, s, p, r).first == -crossing(p, r, q, s).second,
        crossing(q, s, p, r).second == -crossing(p, r, q, s).first,
        crossing(p, r, q, s).first * r.x - crossing(p, r, q, s).second * s.x == crossing(
            p,
            r,
            q,
            s,
        ).det * (q.x - p.x),
        crossing(p, r, q, s).first * r.y - crossing(p, r, q, s).second * s.y == crossing(
            p,
            r,
            q,
            s,
        ).det * (q.y - p.y),
{
    let wx = q.x - p.x;
    let wy = q.y - p.y;
    assert(s.x * r.y - s.y * r.x == -(r.x * s.y - r.y * s.x)) by (nonlinear_arith);
    assert((p.x - q.x) * r.y - (p.y - q.y) * r.x == -(wx * r.y - wy * r.x)) by (nonlinear_arith)
        requires
            wx == q.x - p.x,
            wy == q.y - p.y,
    ;
    assert((p.x - q.x) * s.y - (p.y - q.y) * s.x == -(wx * s.y - wy * s.x)) by (nonlinear_arith)
        requires
            wx == q.x - p.x,
            wy == q.y - p.y,
    ;
    assert((wx * s.y - wy * s.x) * r.x - (wx * r.y - wy * r.x) * s.x == (r.x * s.y - r.y * s.x)
        * wx) by (nonlinear_arith);
    assert((wx * s.y - wy * s.x) * r.y - (wx * r.y - wy * r.x) * s.y == (r.x * s.y - r.y * s.x)
        * wy) by (nonlinear_arith);
}

/// A point that lies a fraction between zero and one along `r` from `p` has
/// each coordinate between that of `p` and that of `p + r`.
pub proof fn lemma_point_along_between(p: IntVec, r: IntVec, num: int, den: int)
    requires
        in_unit_interval(num, den),
    ensures
        ({
            let v = point_along(p, r, num, den);
            &&& (p.x <= v.x <= p.x + r.x || p.x + r.x <= v.x <= p.x)
            &&& (p.y <= v.y <= p.y + r.y || p.y + r.y <= v.y <= p.y)
        }),
{
    let d = if den > 0 { den } else { -den };
    let n = if den > 0 { num } else { -num };
    lemma_fraction_between(p.x, r.x, n, d);
    lemma_fraction_between(p.y, r.y, n, d);
    if den < 0 {
        assert(-(p.x * den + num * r.x) == p.x * d + n * r.x) by (nonlinear_arith)
            requires
                d == -den,
                n == -num,
        ;
        assert(-(p.y * den + num * r.y) == p.y * d + n * r.y) by (nonlinear_arith)
            requires
                d == -den,
                n == -num,
        ;
    }
}

/// One coordinate of `lemma_point_along_between`, with a positive
/// denominator.
proof fn lemma_fraction_between(p: int, r: int, n: int, d: int)
    requires
        d > 0,
        0 <= n <= d,
    ensures
        p <= div_trunc(p * d + n * r, d) <= p + r || p + r <= div_trunc(p * d + n * r, d) <= p,
{
    if r >= 0 {
        assert(p * d <= p * d + n * r <= (p + r) * d) by (nonlinear_arith)
            requires
                0 <= n <= d,
                r >= 0,
        {
            assert(0 <= n * r <= d * r);
        }
        lemma_div_trunc_between(p * d + n * r, d, p, p + r);
    } else {
        assert((p + r) * d <= p * d + n * r <= p * d) by (nonlinear_arith)
            requires
                0 <= n <= d,
                r <= 0,
        {
            assert(d * r <= n * r <= 0);
        }
        lemma_div_trunc_between(p * d + n * r, d, p + r, p);
    }
}

/// The three numerators of the crossing of two lines.
fn cross_lines(p: Point2, r: Vector2, q: Point2, s: Vector2) -> (c: (i128, i128, i128))
    requires
        r@.within(0x1_0000_0000),
        s@.within(0x1_0000_0000),
    ensures
        c.0 == crossing(p@, r@, q@, s@).det,
        c.1 == crossing(p@, r@, q@, s@).first,
        c.2 == crossing(p@, r@, q@, s@).second,
        -0x2_0000_0000_0000_0000 <= c.0 <= 0x2_0000_0000_0000_0000,
        -0x2_0000_0000_0000_0000 <= c.1 <= 0x2_0000_0000_0000_0000,
        -0x2_0000_0000_0000_0000 <= c.2 <= 0x2_0000_0000_0000_0000,
{
    let w = q.subtract(p);
    proof {
        lemma_product_bound(r.x as int, s.y as int, 0x1_0000_0000, 0x1_0000_0000);
        lemma_product_bound(r.y as int, s.x as int, 0x1_0000_0000, 0x1_0000_0000);
        lemma_product_bound(w.x as int, s.y as int, 0x1_0000_0000, 0x1_0000_0000);
        lemma_product_bound(w.y as int, s.x as int, 0x1_0000_0000, 0x1_0000_0000);
        lemma_product_bound(w.x as int, r.y as int, 0x1_0000_0000, 0x1_0000_0000);
        lemma_product_bound(w.y as int, r.x as int, 0x1_0000_0000, 0x1_0000_0000);
    }
    let det = r.x as i128 * s.y as i128 - r.y as i128 * s.x as i128;
    let first = w.x as i128 * s.y as i128 - w.y as i128 * s.x as i128;
    let second = w.x as i128 * r.y as i128 - w.y as i128 * r.x as i128;
    (det, first, second)
}

/// The point a fraction `num / den` along `r` from `p`.
fn locate(p: Point2, r: Vector2, num: i128, den: i128) -> (v: Point2)
    requires
        in_unit_interval(num as int, den as int),
        -0x2_0000_0000_0000_0000 <= den <= 0x2_0000_0000_0000_0000,
        i32::MIN <= p.x + r.x <= i32::MAX,
        i32::MIN <= p.y + r.y <= i32::MAX,
    ensures
        v@ == point_along(p@, r@, num as int, den as int),
{
    proof {
        lemma_point_along_between(p@, r@, num as int, den as int);
        lemma_product_bound(p.x as int, den as int, 0x1_0000_0000, 0x2_0000_0000_0000_0000);
        lemma_product_bound(p.y as int, den as int, 0x1_0000_0000, 0x2_0000_0000_0000_0000);
        lemma_product_bound(num as int, r.x as int, 0x2_0000_0000_0000_0000, 0x1_0000_0000);
        lemma_product_bound(num as int, r.y as int, 0x2_0000_0000_0000_0000, 0x1_0000_0000);
    }
    let x = divide_signed(p.x as i128 * den + num * r.x as i128, den);
    let y = divide_signed(p.y as i128 * den + num * r.y as i128, den);
    Point2 { x: x as i32, y: y as i32 }
}

/// Whether `num / den` lies between zero and one.
fn within_unit_interval(num: i128, den: i128) -> (b: bool)
    ensures
        b == in_unit_interval(num as int, den as int),
{
    (den > 0 && 0 <= num && num <= den) || (den < 0 && den <= num && num <= 0)
}

/// The point where two segments cross.
///
/// Parallel segments do not cross, not even where they overlap. Endpoints
/// belong to their segments.
pub fn segment_intersect(a: &Segment, b: &Segment) -> (r: Option<Point2>)
    ensures
        match r {
            Some(p) => segments_meet(*a, *b) && p@ == meeting_point(*a, *b) && a.box_holds(p@)
                && b.box_holds(p@),
            None => !segments_meet(*a, *b),
        },
{
    let r = a.span();
    let s = b.span();
    let (det, first, second) = cross_lines(a.start, r, b.start, s);
    if within_unit_interval(first, det) && within_unit_interval(second, det) {
        proof {
            lemma_point_along_between(a.start@, r@, first as int, det as int);
            lemma_meeting_point_symmetric(*a, *b);
            lemma_crossing_swap(a.start@, r@, b.start@, s@);
            lemma_point_along_between(b.start@, s@, -second as int, -det as int);
        }
        Some(locate(a.start, r, first, det))
    } else {
        None
    }
}

/// Two segments meet in one order exactly where they meet in the other, and
/// then in the same point.
pub proof fn lemma_meeting_point_symmetric(a: Segment, b: Segment)
    ensures
        segments_meet(a, b) == segments_meet(b, a),
        segments_meet(a, b) ==> meeting_point(a, b) == meeting_point(b, a),
{
    let c = crossing(a.start@, a.direction(), b.start@, b.direction());
    lemma_crossing_swap(a.start@, a.direction(), b.start@, b.direction());
    if segments_meet(a, b) {
        let ax = a.start.x as int;
        let ay = a.start.y as int;
        let bx = b.start.x as int;
        let by = b.start.y as int;
        assert(bx * (-c.det) + (-c.second) * b.direction().x == -(ax * c.det + c.first
            * a.direction().x)) by (nonlinear_arith)
            requires
                c.first * a.direction().x - c.second * b.direction().x == c.det * (bx - ax),
        ;
        assert(by * (-c.det) + (-c.second) * b.direction().y == -(ay * c.det + c.first
            * a.direction().y)) by (nonlinear_arith)
            requires
                c.first * a.direction().y - c.second * b.direction().y == c.det * (by - ay),
        ;
    }
}

/// A ray that crosses the line of a segment within the segment does so
/// within the plane, so the way there is short enough to write down.
pub proof fn lemma_hit_distance_bound(origin: Point2, direction: IntVec, seg: Segment)
    requires
        direction.is_unit(),
        in_unit_interval(
            ray_crossing(origin@, direction, seg).second,
            ray_crossing(origin@, direction, seg).det,
        ),
    ensures
        -0x4_0000_0000 <= hit_distance(origin@, direction, seg) <= 0x4_0000_0000,
{
    let s = seg.direction();
    let c = ray_crossing(origin@, direction, seg);
    let wx = seg.start.x - origin.x;
    let wy = seg.start.y - origin.y;
    let d = if c.det > 0 { c.det } else { -c.det };
    let f = if c.det > 0 { c.first } else { -c.first };
    let g = if c.det > 0 { c.second } else { -c.second };
    lemma_crossing_swap(origin@, direction, seg.start@, s);
    assert(f * direction.x - g * s.x == d * wx && f * direction.y - g * s.y == d * wy)
        by (nonlinear_arith)
        requires
            c.first * direction.x - c.second * s.x == c.det * wx,
            c.first * direction.y - c.second * s.y == c.det * wy,
            (d == c.det && f == c.first && g == c.second) || (d == -c.det && f == -c.first && g
                == -c.second),
    ;
    let b = 0x1_0000_0000int;
    lemma_product_bound(g, s.x, d, b);
    lemma_product_bound(g, s.y, d, b);
    lemma_product_bound(wx, d, b, d);
    lemma_product_bound(wy, d, b, d);
    assert(d * wx == wx * d && d * wy == wy * d) by (nonlinear_arith);
    let e = 2 * (d * b);
    assert(-e <= f * direction.x <= e && -e <= f * direction.y <= e);
    assert(-(0x4_0000_0000 * d) <= f * UNIT <= 0x4_0000_0000 * d) by (nonlinear_arith)
        requires
            -e <= f * direction.x <= e,
            -e <= f * direction.y <= e,
            e == 2 * (d * 0x1_0000_0000),
            d > 0,
            999_996_000_004 <= direction.x * direction.x + direction.y * direction.y,
    {
        let dx = direction.x;
        let dy = direction.y;
        if dx >= 500_000 {
            if f >= 0 {
                assert(f * 500_000 <= f * dx);
            } else {
                assert(f * 500_000 >= f * dx);
            }
        } else if dx <= -500_000 {
            if f >= 0 {
                assert(f * 500_000 <= -(f * dx));
            } else {
                assert(f * 500_000 >= -(f * dx));
            }
        } else if dy >= 500_000 {
            if f >= 0 {
                assert(f * 500_000 <= f * dy);
            } else {
                assert(f * 500_000 >= f * dy);
            }
        } else if dy <= -500_000 {
            if f >= 0 {
                assert(f * 500_000 <= -(f * dy));
            } else {
                assert(f * 500_000 >= -(f * dy));
            }
        } else {
            assert(dx * dx < 500_000 * 500_000);
            assert(dy * dy < 500_000 * 500_000);
        }
    }
    assert((-0x4_0000_0000) * d == -(0x4_0000_0000 * d)) by (nonlinear_arith);
    assert(-(c.first * UNIT) == (-c.first) * UNIT) by (nonlinear_arith);
    lemma_div_trunc_between(f * UNIT, d, -0x4_0000_0000, 0x4_0000_0000);
}

/// Where and how a ray meets one segment, if it does.
///
/// The ray meets the segment where it is not parallel to it, crosses its
/// line between the endpoints, both included, and does so at least one
/// millionth ahead of its origin.
pub fn hit_segment(ray: &Ray, seg: &Segment) -> (r: Option<HitRecord>)
    requires
        ray.wf(),
    ensures
        match r {
            Some(h) => {
                &&& ray_hits(ray.origin@, ray.direction@, *seg)
                &&& h.is_hit_of(ray.origin@, ray.direction@, *seg)
                &&& h.distance >= 1
                &&& seg.box_holds(h.point@)
                &&& h.normal@.is_unit()
                &&& h.normal@.dot(ray.direction@) < 0
            },
            None => !ray_hits(ray.origin@, ray.direction@, *seg),
        },
{
    let s = seg.span();
    let d = ray.direction;
    proof {
        lemma_square_bound(d.x as int, d.y as int, UNIT + 2);
    }
    let (det, first, second) = cross_lines(ray.origin, d, seg.start, s);
    if !within_unit_interval(second, det) {
        return None;
    }
    proof {
        lemma_hit_distance_bound(ray.origin, d@, *seg);
    }
    let distance = divide_signed(first * 1_000_000, det);
    if distance < 1 {
        return None;
    }
    proof {
        lemma_point_along_between(seg.start@, s@, second as int, det as int);
    }
    let point = locate(seg.start, s, second, det);
    let perp = s.perpendicular();
    proof {
        lemma_product_bound(perp.x as int, d.x as int, 0x1_0000_0000, 1_000_002);
        lemma_product_bound(perp.y as int, d.y as int, 0x1_0000_0000, 1_000_002);
        assert(perp@.dot(d@) == -det) by (nonlinear_arith)
            requires
                perp.x == -s.y,
                perp.y == s.x,
                det == d.x * s.y - d.y * s.x,
        ;
        lemma_hit_normal(d@, *seg);
    }
    let side = perp.dot(d);
    let p = if side < 0 {
        perp
    } else {
        perp.negate()
    };
    match p.normalize() {
        Ok(n) => {
            proof {
                lemma_square_bound(n.x as int, n.y as int, UNIT + 2);
                lemma_product_bound(n.x as int, d.x as int, 1_000_002, 1_000_002);
                lemma_product_bound(n.y as int, d.y as int, 1_000_002, 1_000_002);
                assert(p.x * d.x < 0 <==> (p.x > 0 && d.x < 0) || (p.x < 0 && d.x > 0))
                    by (nonlinear_arith);
            }
            let lean = n.dot(d);
            let normal = if lean < 0 {
                n
            } else if (p.x > 0 && d.x < 0) || (p.x < 0 && d.x > 0) {
                Vector2 { x: n.x + sign_of(p.x), y: n.y }
            } else {
                Vector2 { x: n.x, y: n.y + sign_of(p.y) }
            };
            Some(HitRecord { point, distance: distance as i64, segment: *seg, normal })
        },
        Err(_) => {
            assert(false);
            None
        },
    }
}

/// The sign of `v`.
fn sign_of(v: i64) -> (s: i64)
    ensures
        s == signum(v as int),
{
    if v > 0 {
        1
    } else if v < 0 {
        -1
    } else {
        0
    }
}

/// Rounding one component of a unit normal away from zero turns it against
/// the ray: where the exact vector `(px, py)` points against `(dx, dy)` and
/// leans against it in its first component, but its rounded unit vector
/// `(nx, ny)` does not point against it, the rounded vector with the first
/// component one further from zero does.
proof fn lemma_lean(px: int, py: int, dx: int, dy: int, nx: int, ny: int, m: int, uu: int)
    requires
        m > 0,
        uu > 0,
        nx == div_trunc(px * uu, m),
        ny == div_trunc(py * uu, m),
        px * dx + py * dy < 0,
        px * dx < 0,
        nx * dx + ny * dy >= 0,
        nx != 0 || ny != 0,
    ensures
        (nx + signum(px)) * dx + ny * dy < 0,
        signum(px) * nx >= 0,
        signum(px) * signum(px) == 1,
{
    lemma_div_trunc_remainder(px * uu, m);
    lemma_div_trunc_remainder(py * uu, m);
    let rx = px * uu - nx * m;
    let ry = py * uu - ny * m;
    let s = signum(px);
    assert(px != 0 && dx != 0 && (px > 0 ==> dx < 0) && (px < 0 ==> dx > 0)) by (nonlinear_arith)
        requires
            px * dx < 0,
    ;
    assert((px > 0 ==> px * uu > 0) && (px < 0 ==> px * uu < 0) && (py > 0 ==> py * uu > 0) && (py
        < 0 ==> py * uu < 0) && (py == 0 ==> py * uu == 0)) by (nonlinear_arith)
        requires
            uu > 0,
    ;
    let pyd = py * dy;
    if pyd < 0 {
        assert(py != 0 && dy != 0 && (py > 0 ==> dy < 0) && (py < 0 ==> dy > 0))
            by (nonlinear_arith)
            requires
                py * dy < 0,
        ;
        assert(nx * dx <= 0 && ny * dy <= 0 && (nx * dx == 0 ==> nx == 0) && (ny * dy == 0 ==> ny
            == 0)) by (nonlinear_arith)
            requires
                (nx >= 0 && dx < 0) || (nx <= 0 && dx > 0),
                (ny >= 0 && dy < 0) || (ny <= 0 && dy > 0),
        ;
        assert(false);
    }
    assert(ry * dy >= 0) by (nonlinear_arith)
        requires
            py * dy >= 0,
            (py > 0 && ry >= 0) || (py < 0 && ry <= 0) || (py == 0 && ry == 0),
    {
        if py > 0 {
            assert(dy >= 0);
        } else if py < 0 {
            assert(dy <= 0);
        }
    }
    let t = rx - s * m;
    assert(t * dx > 0 && s * nx >= 0 && s * s == 1) by (nonlinear_arith)
        requires
            m > 0,
            t == rx - s * m,
            (s == 1 && dx < 0 && 0 <= rx < m && nx >= 0) || (s == -1 && dx > 0 && -m < rx <= 0
                && nx <= 0),
    ;
    let fresh = (nx + s) * dx + ny * dy;
    let a1 = nx * m;
    let a2 = ny * m;
    let sm = s * m;
    let q1 = px * uu;
    let q2 = py * uu;
    assert(m * fresh == a1 * dx + sm * dx + a2 * dy) by (nonlinear_arith)
        requires
            fresh == (nx + s) * dx + ny * dy,
            a1 == nx * m,
            a2 == ny * m,
            sm == s * m,
    ;
    assert(a1 * dx == q1 * dx - rx * dx && a2 * dy == q2 * dy - ry * dy && t * dx == rx * dx - sm
        * dx) by (nonlinear_arith)
        requires
            a1 == q1 - rx,
            a2 == q2 - ry,
            t == rx - sm,
    ;
    assert(q1 * dx + q2 * dy == uu * (px * dx + py * dy)) by (nonlinear_arith)
        requires
            q1 == px * uu,
            q2 == py * uu,
    ;
    assert(m * fresh == uu * (px * dx + py * dy) - ry * dy - t * dx);
    assert(fresh < 0) by (nonlinear_arith)
        requires
            m > 0,
            uu > 0,
            px * dx + py * dy < 0,
            ry * dy >= 0,
            t * dx > 0,
            m * fresh == uu * (px * dx + py * dy) - ry * dy - t * dx,
    {
        assert(uu * (px * dx + py * dy) < 0);
        if fresh >= 0 {
            assert(m * fresh >= 0);
        }
    }
}

/// The normal that is reported for a ray that is not parallel to the segment
/// is a unit vector and points against the ray.
pub proof fn lemma_hit_normal(direction: IntVec, seg: Segment)
    requires
        seg.direction().perp().dot(direction) != 0,
    ensures
        hit_normal(direction, seg).is_unit(),
        hit_normal(direction, seg).dot(direction) < 0,
        !against(seg.direction().perp(), direction).is_zero(),
{
    let perp = seg.direction().perp();
    let p = against(perp, direction);
    let d = direction;
    assert(p.dot(d) < 0) by (nonlinear_arith)
        requires
            perp.x * d.x + perp.y * d.y != 0,
            (p.x == perp.x && p.y == perp.y && perp.x * d.x + perp.y * d.y < 0) || (p.x == -perp.x
                && p.y == -perp.y && perp.x * d.x + perp.y * d.y >= 0),
    ;
    assert(!p.is_zero()) by (nonlinear_arith)
        requires
            p.x * d.x + p.y * d.y < 0,
    ;
    lemma_normalize_is_unit(p);
    let n = p.normalize();
    if n.dot(d) >= 0 {
        let u = UNIT as int;
        let uu = u * u;
        let m = isqrt(p.norm_sq() * uu);
        assert(p.within(FINE as int));
        assert(n.x == div_trunc(p.x * uu, m) && n.y == div_trunc(p.y * uu, m));
        assert(n.x != 0 || n.y != 0) by (nonlinear_arith)
            requires
                n.x * n.x + n.y * n.y >= 999_996_000_004,
        ;
        lemma_square_bound(n.x, n.y, u + 1);
        if p.x * d.x < 0 {
            lemma_lean(p.x, p.y, d.x, d.y, n.x, n.y, m, uu);
            lemma_bumped_is_unit(n.x, n.y, signum(p.x));
        } else {
            lemma_lean(p.y, p.x, d.y, d.x, n.y, n.x, m, uu);
            lemma_bumped_is_unit(n.y, n.x, signum(p.y));
        }
    }
}

/// A vector of length at most one and a millionth, with one component moved
/// one millionth away from zero, has length at most one and two millionths.
proof fn lemma_bumped_is_unit(a: int, b: int, s: int)
    requires
        s * s == 1,
        s * a >= 0,
        -(UNIT + 1) <= a <= UNIT + 1,
        (UNIT - 2) * (UNIT - 2) <= a * a + b * b <= (UNIT + 1) * (UNIT + 1),
    ensures
        (UNIT - 2) * (UNIT - 2) <= (a + s) * (a + s) + b * b <= (UNIT + 2) * (UNIT + 2),
{
    let u = UNIT as int;
    assert((a + s) * (a + s) == a * a + 2 * (s * a) + 1 && 0 <= s * a <= u + 1)
        by (nonlinear_arith)
        requires
            s * s == 1,
            s * a >= 0,
            -(u + 1) <= a <= u + 1,
    {
        assert(s == 1 || s == -1) by {
            if s > 1 {
                assert(s * s > 1);
            }
            if s < -1 {
                assert(s * s > 1);
            }
        }
    }
    assert((u + 1) * (u + 1) + 2 * (u + 1) + 1 == (u + 2) * (u + 2)) by (nonlinear_arith);
}

/// At most one segment is the nearest.
pub proof fn lemma_nearest_unique(
    origin: IntVec,
    direction: IntVec,
    scene: Seq<Segment>,
    exclude: Option<Segment>,
    i: int,
    j: int,
)
    requires
        is_nearest(origin, direction, scene, exclude, i),
        is_nearest(origin, direction, scene, exclude, j),
    ensures
        i == j,
{
}

/// The first segment that a ray meets.
///
/// Of the segments of the scene other than `exclude` that the ray hits, the
/// one with the smallest distance is reported, and of several at that
/// distance the earliest in the scene. The normal in the record has length
/// one and points against the ray.
pub fn nearest_hit(ray: &Ray, scene: &Scene, exclude: Option<&Segment>) -> (r: Option<HitRecord>)
    requires
        ray.wf(),
    ensures
        match r {
            Some(h) => {
                &&& nearest_index(
                    ray.origin@,
                    ray.direction@,
                    scene@,
                    excluded(exclude),
                ) matches Some(i)
                &&& is_nearest(ray.origin@, ray.direction@, scene@, excluded(exclude), i)
                &&& h.is_hit_of(ray.origin@, ray.direction@, scene@[i])
                &&& h.distance >= 1
                &&& scene@[i].box_holds(h.point@)
                &&& h.normal@.is_unit()
                &&& h.normal@.dot(ray.direction@) < 0
            },
            None => {
                &&& nearest_index(ray.origin@, ray.direction@, scene@, excluded(exclude)) is None
                &&& forall|i: int|
                    0 <= i < scene@.len() ==> !#[trigger] eligible(
                        ray.origin@,
                        ray.direction@,
                        scene@[i],
                        excluded(exclude),
                    )
            },
        },
{
    let ghost o = ray.origin@;
    let ghost d = ray.direction@;
    let ghost ex = excluded(exclude);
    let mut best: Option<HitRecord> = None;
    let ghost mut best_index: int = 0;
    let n = scene.segments.len();
    let mut k: usize = 0;
    while k < n
        invariant
            ray.wf(),
            o == ray.origin@,
            d == ray.direction@,
            ex == excluded(exclude),
            n == scene@.len(),
            k <= n,
            match best {
                Some(h) => {
                    &&& 0 <= best_index < k
                    &&& eligible(o, d, scene@[best_index], ex)
                    &&& h.is_hit_of(o, d, scene@[best_index])
                    &&& h.distance >= 1
                    &&& scene@[best_index].box_holds(h.point@)
                    &&& h.normal@.is_unit()
                    &&& h.normal@.dot(d) < 0
                    &&& forall|j: int|
                        0 <= j < k && #[trigger] eligible(o, d, scene@[j], ex) ==> {
                            &&& h.distance <= hit_distance(o, d, scene@[j])
                            &&& j < best_index ==> h.distance < hit_distance(o, d, scene@[j])
                        }
                },
                None => forall|j: int| 0 <= j < k ==> !#[trigger] eligible(o, d, scene@[j], ex),
            },
        decreases n - k,
    {
        let seg = scene.segments[k];
        let skip = match exclude {
            Some(e) => *e == seg,
            None => false,
        };
        if !skip {
            match hit_segment(ray, &seg) {
                Some(h) => {
                    let nearer = match best {
                        Some(b) => h.distance < b.distance,
                        None => true,
                    };
                    if nearer {
                        best = Some(h);
                        proof {
                            best_index = k as int;
                        }
                    }
                },
                None => {},
            }
        }
        k = k + 1;
    }
    proof {
        if best is Some {
            assert(is_nearest(o, d, scene@, ex, best_index));
            let i = choose|i: int| is_nearest(o, d, scene@, ex, i);
            lemma_nearest_unique(o, d, scene@, ex, i, best_index);
        } else {
            assert forall|i: int| !is_nearest(o, d, scene@, ex, i) by {
                if 0 <= i < scene@.len() {
                    assert(!eligible(o, d, scene@[i], ex));
                }
            }
        }
    }
    best
}

/// The segment that is excluded, as a value.
pub open spec fn excluded(exclude: Option<&Segment>) -> Option<Segment> {
    match exclude {
        Some(e) => Some(*e),
        None => None,
    }
}

} // verus!
