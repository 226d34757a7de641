//! What holds of the library as a whole: facts that relate several of its
//! functions, each proved from their definitions.

use vstd::prelude::*;
use crate::fixed::{UNIT, div_trunc, isqrt, lemma_div_trunc_exact, lemma_div_trunc_remainder,
    lemma_isqrt, lemma_isqrt_square, lemma_product_bound, quotient};
use crate::intersect::{crossing, hit_normal, hit_point, in_unit_interval,
    lemma_meeting_point_symmetric, lemma_point_along_between, meeting_point, nearest_index,
    segments_meet};
use crate::optics::{cos_incidence, cos_refraction_scaled, lemma_reflect_keeps_length,
    lemma_reflect_of_near_vectors, reflected, refracted, refracted_raw, response,
    total_internal_reflection};
use crate::segment::Segment;
use crate::trace::{PathModel, RayPath, Termination, VertexModel, in_plane, step_origin,
    trace_from, traced};
use crate::vector::{FINE, IntVec, lemma_normalize_is_unit, lemma_normalize_moves_little,
    lemma_reflect_term};

verus! {

/// Two segments that cross do so in the same point whichever is named
/// first, and that point lies in the upright rectangle of each.
pub proof fn law_crossing_is_symmetric(a: Segment, b: Segment)
    requires
        segments_meet(a, b),
    ensures
        segments_meet(b, a),
        meeting_point(a, b) == meeting_point(b, a),
        a.box_holds(meeting_point(a, b)),
        b.box_holds(meeting_point(a, b)),
{
    lemma_meeting_point_symmetric(a, b);
    let c = crossing(a.start@, a.direction(), b.start@, b.direction());
    let e = crossing(b.start@, b.direction(), a.start@, a.direction());
    lemma_point_along_between(a.start@, a.direction(), c.first, c.det);
    lemma_point_along_between(b.start@, b.direction(), e.first, e.det);
}

/// The point that is reported for two crossing segments is less than one
/// millionth from the true crossing in each coordinate, and the true
/// crossing lies a fraction between zero and one along each segment.
pub proof fn law_crossing_is_near_the_true_point(a: Segment, b: Segment)
    requires
        segments_meet(a, b),
    ensures
        ({
            let c = crossing(a.start@, a.direction(), b.start@, b.direction());
            let p = meeting_point(a, b);
            let size = if c.det > 0 { c.det } else { -c.det };
            // the true crossing is `a.start + (c.first / c.det) a.direction()`
            &&& in_unit_interval(c.first, c.det)
            &&& in_unit_interval(c.second, c.det)
            &&& -size < p.x * c.det - (a.start.x * c.det + c.first * a.direction().x) < size
            &&& -size < p.y * c.det - (a.start.y * c.det + c.first * a.direction().y) < size
        }),
{
    let c = crossing(a.start@, a.direction(), b.start@, b.direction());
    law_quotient_is_near(a.start.x * c.det + c.first * a.direction().x, c.det);
    law_quotient_is_near(a.start.y * c.det + c.first * a.direction().y, c.det);
}

/// A rounded quotient times the divisor is less than the divisor away from
/// the dividend.
pub proof fn law_quotient_is_near(n: int, d: int)
    requires
        d != 0,
    ensures
        d > 0 ==> -d < quotient(n, d) * d - n < d,
        d < 0 ==> d < quotient(n, d) * d - n < -d,
{
    if d > 0 {
        lemma_div_trunc_remainder(n, d);
    } else {
        lemma_div_trunc_remainder(-n, -d);
        let q = div_trunc(-n, -d);
        assert(q * (-d) == -(q * d)) by (nonlinear_arith);
    }
}

/// Parallel segments do not cross, and no segment crosses itself.
pub proof fn law_parallel_segments_do_not_meet(a: Segment, b: Segment)
    ensures
        a.direction().cross(b.direction()) == 0 ==> !segments_meet(a, b),
        !segments_meet(a, a),
{
    assert(a.direction().cross(a.direction()) == 0) by (nonlinear_arith);
}

/// One coordinate of a vector that is mirrored twice: the two parts that
/// were subtracted add up to at most four millionths.
proof fn lemma_mirror_twice_component(
    nx: int,
    ny: int,
    nn: int,
    r1x: int,
    r1y: int,
    r2: int,
    sum: int,
    both: int,
)
    requires
        nn == nx * nx + ny * ny,
        nn > 0,
        -nn < r1x < nn,
        -nn < r1y < nn,
        -nn < r2 < nn,
        nn * both == 2 * (r1x * nx + r1y * ny),
        nn * sum == both * nx - r1x - r2,
    ensures
        -4 <= sum <= 4,
{
    let t = 2 * (r1x * nx + r1y * ny) * nx;
    let b = nn - 1;
    lemma_reflect_term(r1x, r1y, nx, ny, b);
    assert(nn * (nn * sum) == t - nn * (r1x + r2)) by (nonlinear_arith)
        requires
            nn * both == 2 * (r1x * nx + r1y * ny),
            nn * sum == both * nx - r1x - r2,
            t == 2 * (r1x * nx + r1y * ny) * nx,
    {
        assert(nn * (both * nx) == (nn * both) * nx);
    }
    let m = nn * nn;
    assert(-5 * m < nn * (nn * sum) < 5 * m) by (nonlinear_arith)
        requires
            nn > 0,
            b == nn - 1,
            m == nn * nn,
            (-(3 * b)) * nn <= t <= (3 * b) * nn,
            -2 * b <= r1x + r2 <= 2 * b,
            nn * (nn * sum) == t - nn * (r1x + r2),
    {
        assert((3 * b) * nn == 3 * m - 3 * nn);
        assert((-(3 * b)) * nn == -(3 * m - 3 * nn));
        assert(nn * (r1x + r2) <= nn * (2 * b));
        assert(nn * (r1x + r2) >= nn * (-2 * b));
        assert(nn * (2 * b) == 2 * m - 2 * nn);
        assert(nn * (-2 * b) == -(2 * m - 2 * nn));
    }
    assert(-4 <= sum <= 4) by (nonlinear_arith)
        requires
            nn > 0,
            m == nn * nn,
            -5 * m < nn * (nn * sum) < 5 * m,
    {
        assert(nn * (nn * sum) == m * sum);
        if sum >= 5 {
            assert(m * sum >= m * 5);
        }
        if sum <= -5 {
            assert(m * sum <= m * (-5));
        }
    }
}

/// Mirroring twice in the same line gives the vector back: no component of
/// the twice mirrored vector is more than four millionths from that of the
/// vector, whatever the vector and whatever the normal of the line.
pub proof fn law_mirror_twice(d: IntVec, n: IntVec)
    requires
        !n.is_zero(),
    ensures
        -4 <= d.reflect(n).reflect(n).x - d.x <= 4,
        -4 <= d.reflect(n).reflect(n).y - d.y <= 4,
{
    let nn = n.norm_sq();
    assert(nn > 0) by (nonlinear_arith)
        requires
            nn == n.x * n.x + n.y * n.y,
            n.x != 0 || n.y != 0,
    ;
    let k1 = 2 * d.dot(n);
    let q1x = div_trunc(k1 * n.x, nn);
    let q1y = div_trunc(k1 * n.y, nn);
    let once = d.reflect(n);
    assert(once.x == d.x - q1x && once.y == d.y - q1y);
    let k2 = 2 * once.dot(n);
    let q2x = div_trunc(k2 * n.x, nn);
    let q2y = div_trunc(k2 * n.y, nn);
    let twice = once.reflect(n);
    assert(twice.x == once.x - q2x && twice.y == once.y - q2y);
    lemma_div_trunc_remainder(k1 * n.x, nn);
    lemma_div_trunc_remainder(k1 * n.y, nn);
    lemma_div_trunc_remainder(k2 * n.x, nn);
    lemma_div_trunc_remainder(k2 * n.y, nn);
    let r1x = k1 * n.x - q1x * nn;
    let r1y = k1 * n.y - q1y * nn;
    let r2x = k2 * n.x - q2x * nn;
    let r2y = k2 * n.y - q2y * nn;
    let both = k1 + k2;
    // k2 = k1 - 2 (q1 . n)
    assert(k2 == k1 - 2 * (q1x * n.x + q1y * n.y)) by (nonlinear_arith)
        requires
            k1 == 2 * (d.x * n.x + d.y * n.y),
            k2 == 2 * ((d.x - q1x) * n.x + (d.y - q1y) * n.y),
    ;
    // nn (q1 . n) = k1 nn - (r1 . n)
    let sx = n.x * n.x;
    let sy = n.y * n.y;
    let qn = q1x * n.x + q1y * n.y;
    let rn = r1x * n.x + r1y * n.y;
    assert(nn * (q1x * n.x) == (q1x * nn) * n.x && nn * (q1y * n.y) == (q1y * nn) * n.y)
        by (nonlinear_arith);
    assert((k1 * n.x - r1x) * n.x == k1 * sx - r1x * n.x) by (nonlinear_arith)
        requires
            sx == n.x * n.x,
    ;
    assert((k1 * n.y - r1y) * n.y == k1 * sy - r1y * n.y) by (nonlinear_arith)
        requires
            sy == n.y * n.y,
    ;
    assert(k1 * sx + k1 * sy == k1 * nn) by (nonlinear_arith)
        requires
            nn == sx + sy,
    ;
    assert(nn * qn == nn * (q1x * n.x) + nn * (q1y * n.y)) by (nonlinear_arith)
        requires
            qn == q1x * n.x + q1y * n.y,
    ;
    assert(q1x * nn == k1 * n.x - r1x && q1y * nn == k1 * n.y - r1y);
    assert(nn * qn == k1 * nn - rn);
    assert(nn * both == 2 * (nn * k1) - 2 * (nn * qn)) by (nonlinear_arith)
        requires
            both == k1 + k2,
            k2 == k1 - 2 * qn,
    ;
    assert(nn * k1 == k1 * nn) by (nonlinear_arith);
    assert(nn * both == 2 * rn);
    assert(nn * (q1x + q2x) == both * n.x - r1x - r2x && nn * (q1y + q2y) == both * n.y - r1y
        - r2y) by (nonlinear_arith)
        requires
            both == k1 + k2,
            r1x == k1 * n.x - q1x * nn,
            r1y == k1 * n.y - q1y * nn,
            r2x == k2 * n.x - q2x * nn,
            r2y == k2 * n.y - q2y * nn,
    ;
    lemma_mirror_twice_component(n.x, n.y, nn, r1x, r1y, r2x, q1x + q2x, both);
    assert(nn * both == 2 * (r1y * n.y + r1x * n.x));
    assert(nn == n.y * n.y + n.x * n.x);
    lemma_mirror_twice_component(n.y, n.x, nn, r1y, r1x, r2y, q1y + q2y, both);
}

/// A mirror undoes itself: a unit direction that a mirror turns twice comes
/// back with no component more than thirty millionths from where it was,
/// whatever the normal of the mirror.
pub proof fn law_mirror_ray_twice(d: IntVec, n: IntVec)
    requires
        d.is_unit(),
        !n.is_zero(),
    ensures
        -30 <= reflected(reflected(d, n), n).x - d.x <= 30,
        -30 <= reflected(reflected(d, n), n).y - d.y <= 30,
        reflected(d, n).is_unit(),
        reflected(reflected(d, n), n).is_unit(),
{
    let once = d.reflect(n);
    lemma_reflect_keeps_length(d, n);
    lemma_normalize_moves_little(once);
    lemma_normalize_is_unit(once);
    let turned = once.normalize();
    lemma_reflect_of_near_vectors(turned, once, n, 5);
    law_mirror_twice(d, n);
    let twice = turned.reflect(n);
    lemma_reflect_keeps_length(turned, n);
    lemma_normalize_moves_little(twice);
    lemma_normalize_is_unit(twice);
}

/// Normalizing gives a unit vector, and normalizing again changes nothing.
pub proof fn law_normalize_is_idempotent(v: IntVec)
    requires
        !v.is_zero(),
    ensures
        v.normalize().is_unit(),
        v.normalize().normalize() == v.normalize(),
{
    lemma_normalize_is_unit(v);
}

/// Between two media of the same index a ray is not bent: where the normal
/// faces the ray, the refracted direction is the incoming one.
pub proof fn law_same_index_does_not_bend(incoming: IntVec, normal: IntVec, index: int)
    requires
        incoming.is_unit(),
        incoming.dot(normal) <= 0,
        index > 0,
    ensures
        refracted(incoming, normal, index, index) == Some(incoming),
{
    let u = UNIT as int;
    let c = cos_incidence(incoming, normal);
    lemma_div_trunc_remainder(-incoming.dot(normal), u);
    assert(0 <= c <= u);
    let kc = index * c;
    assert(index * index * (u * u) - index * index * (u * u - c * c) == kc * kc && kc >= 0 && c
        * c >= 0) by (nonlinear_arith)
        requires
            kc == index * c,
            index > 0,
            c >= 0,
    ;
    assert(!total_internal_reflection(c, index, index));
    lemma_isqrt_square(kc);
    assert(cos_refraction_scaled(c, index, index) == kc);
    let den = index * u;
    assert(den > 0 && index * u * incoming.x + (index * c - kc) * normal.x == incoming.x * den
        && index * u * incoming.y + (index * c - kc) * normal.y == incoming.y * den)
        by (nonlinear_arith)
        requires
            kc == index * c,
            den == index * u,
            index > 0,
            u == 1_000_000,
    ;
    lemma_div_trunc_exact(incoming.x, den);
    lemma_div_trunc_exact(incoming.y, den);
    let raw = refracted_raw(incoming, normal, index, index);
    assert(raw == incoming);
    assert(!incoming.is_zero()) by (nonlinear_arith)
        requires
            incoming.x * incoming.x + incoming.y * incoming.y >= 999_996_000_004,
    ;
}

/// A ray is refracted exactly where it is not totally reflected, and there
/// is a critical angle only toward the thinner medium: a ray that enters a
/// medium of the same or a higher index is always refracted.
pub proof fn law_total_internal_reflection(incoming: IntVec, normal: IntVec, n1: int, n2: int)
    requires
        n1 > 0,
        n2 > 0,
    ensures
        refracted(incoming, normal, n1, n2) is None <==> total_internal_reflection(
            cos_incidence(incoming, normal),
            n1,
            n2,
        ),
        n1 <= n2 ==> refracted(incoming, normal, n1, n2) is Some,
{
    let c = cos_incidence(incoming, normal);
    let u = UNIT as int;
    if n1 <= n2 {
        assert(n1 * n1 * (u * u - c * c) <= n2 * n2 * (u * u)) by (nonlinear_arith)
            requires
                0 < n1 <= n2,
                u == 1_000_000,
        {
            assert(c * c >= 0);
            assert(n1 * n1 <= n2 * n2);
            assert(n1 * n1 * (u * u - c * c) <= n1 * n1 * (u * u));
            assert(n1 * n1 * (u * u) <= n2 * n2 * (u * u));
        }
    }
}

/// The sum of the absolute values of the components.
pub open spec fn reach(v: IntVec) -> int {
    (if v.x >= 0 { v.x } else { -v.x }) + (if v.y >= 0 { v.y } else { -v.y })
}

/// Snell's law. For the bent vector `t` before it is brought to unit
/// length, `n2 (t x normal)` is `n1 (incoming x normal)` up to `n2` times the
/// reach of the normal, which is the rounding of `t` to millionths: the
/// sines of the two angles are as the indices, and the ray stays on its side
/// of the normal. Where `t` is a unit vector as it stands, it is the
/// refracted direction. Where `t` is zero, the ray meets the surface all but
/// straight on: `n1 (incoming x normal)` is within the same rounding of zero.
pub proof fn law_snell(incoming: IntVec, normal: IntVec, n1: int, n2: int)
    requires
        n1 > 0,
        n2 > 0,
    ensures
        ({
            let t = refracted_raw(incoming, normal, n1, n2);
            let gap = n2 * t.cross(normal) - n1 * incoming.cross(normal);
            &&& -(n2 * reach(normal)) <= gap <= n2 * reach(normal)
            &&& t.is_unit() && !total_internal_reflection(cos_incidence(incoming, normal), n1, n2)
                ==> refracted(incoming, normal, n1, n2) == Some(t)
            &&& t.is_zero() ==> -(n2 * reach(normal)) <= n1 * incoming.cross(normal) <= n2
                * reach(normal)
        }),
{
    let u = UNIT as int;
    let c = cos_incidence(incoming, normal);
    let f = n1 * c - cos_refraction_scaled(c, n1, n2);
    let den = n2 * u;
    let ax = n1 * u * incoming.x + f * normal.x;
    let ay = n1 * u * incoming.y + f * normal.y;
    let t = refracted_raw(incoming, normal, n1, n2);
    assert(den > 0) by (nonlinear_arith)
        requires
            n2 > 0,
            den == n2 * 1_000_000,
    ;
    lemma_div_trunc_remainder(ax, den);
    lemma_div_trunc_remainder(ay, den);
    let rx = ax - t.x * den;
    let ry = ay - t.y * den;
    let x = incoming.cross(normal);
    let w = n1 * u;
    assert(ax * normal.y - ay * normal.x == w * x) by (nonlinear_arith)
        requires
            ax == w * incoming.x + f * normal.x,
            ay == w * incoming.y + f * normal.y,
            x == incoming.x * normal.y - incoming.y * normal.x,
    ;
    let cr = t.cross(normal);
    assert(den * cr == w * x - (rx * normal.y - ry * normal.x)) by (nonlinear_arith)
        requires
            cr == t.x * normal.y - t.y * normal.x,
            rx == ax - t.x * den,
            ry == ay - t.y * den,
            ax * normal.y - ay * normal.x == w * x,
    ;
    let ny = if normal.y >= 0 { normal.y } else { -normal.y };
    let nx = if normal.x >= 0 { normal.x } else { -normal.x };
    lemma_product_bound(rx, normal.y, den, ny);
    lemma_product_bound(ry, normal.x, den, nx);
    let r = reach(normal);
    assert(den * ny + den * nx == den * r) by (nonlinear_arith)
        requires
            r == nx + ny,
    ;
    assert(t.is_unit() ==> !t.is_zero()) by (nonlinear_arith)
        requires
            t.is_unit() ==> t.x * t.x + t.y * t.y >= 999_996_000_004,
    ;
    assert(t.is_zero() ==> cr == 0) by (nonlinear_arith)
        requires
            cr == t.x * normal.y - t.y * normal.x,
    ;
    let gap = n2 * cr - n1 * x;
    assert(u * gap == den * cr - w * x) by (nonlinear_arith)
        requires
            gap == n2 * cr - n1 * x,
            den == n2 * u,
            w == n1 * u,
    ;
    assert(-(n2 * r) <= gap <= n2 * r) by (nonlinear_arith)
        requires
            u == 1_000_000,
            den == n2 * u,
            -(den * r) <= u * gap <= den * r,
    {
        assert(den * r == u * (n2 * r));
    }
}

/// Snell's law for the refracted direction. Bringing the bent vector to
/// unit length divides it by its length `len / scale`, rounded. So for the
/// direction `t`, `n2 (len / scale) (t x normal)` is `n1 (incoming x normal)`
/// up to `n2 (1 + len / scale)` times the reach of the normal: the two
/// roundings, of the bent vector and of the direction.
pub proof fn law_snell_for_the_direction(incoming: IntVec, normal: IntVec, n1: int, n2: int)
    requires
        n1 > 0,
        n2 > 0,
        !refracted_raw(incoming, normal, n1, n2).is_zero(),
        !refracted_raw(incoming, normal, n1, n2).is_unit(),
    ensures
        ({
            let raw = refracted_raw(incoming, normal, n1, n2);
            let t = raw.normalize();
            let scale = if raw.within(FINE as int) { UNIT * UNIT } else { UNIT as int };
            let len = if raw.within(FINE as int) {
                isqrt(raw.norm_sq() * (UNIT * UNIT))
            } else {
                isqrt(raw.norm_sq())
            };
            let gap = n2 * len * t.cross(normal) - n1 * scale * incoming.cross(normal);
            &&& len >= UNIT
            &&& -(n2 * reach(normal) * (scale + len)) <= gap <= n2 * reach(normal) * (scale + len)
        }),
{
    let raw = refracted_raw(incoming, normal, n1, n2);
    let t = raw.normalize();
    let scale = if raw.within(FINE as int) { UNIT * UNIT } else { UNIT as int };
    let len = if raw.within(FINE as int) {
        isqrt(raw.norm_sq() * (UNIT * UNIT))
    } else {
        isqrt(raw.norm_sq())
    };
    lemma_normalize_is_unit(raw);
    law_snell(incoming, normal, n1, n2);
    assert(t.x == div_trunc(raw.x * scale, len) && t.y == div_trunc(raw.y * scale, len));
    lemma_div_trunc_remainder(raw.x * scale, len);
    lemma_div_trunc_remainder(raw.y * scale, len);
    let rx = raw.x * scale - t.x * len;
    let ry = raw.y * scale - t.y * len;
    let cr = raw.cross(normal);
    let ct = t.cross(normal);
    let x = incoming.cross(normal);
    let bx = raw.x * scale;
    let by = raw.y * scale;
    assert(bx * normal.y - by * normal.x == scale * cr) by (nonlinear_arith)
        requires
            bx == raw.x * scale,
            by == raw.y * scale,
            cr == raw.x * normal.y - raw.y * normal.x,
    ;
    let e = rx * normal.y - ry * normal.x;
    assert(len * ct == scale * cr - e) by (nonlinear_arith)
        requires
            ct == t.x * normal.y - t.y * normal.x,
            rx == bx - t.x * len,
            ry == by - t.y * len,
            bx * normal.y - by * normal.x == scale * cr,
            e == rx * normal.y - ry * normal.x,
    ;
    let ny = if normal.y >= 0 { normal.y } else { -normal.y };
    let nx = if normal.x >= 0 { normal.x } else { -normal.x };
    lemma_product_bound(rx, normal.y, len, ny);
    lemma_product_bound(ry, normal.x, len, nx);
    let r = reach(normal);
    assert(len * ny + len * nx == len * r) by (nonlinear_arith)
        requires
            r == nx + ny,
    ;
    let small = n2 * cr - n1 * x;
    let bound = n2 * r;
    let gap = n2 * len * ct - n1 * scale * x;
    assert(gap == scale * small - n2 * e) by (nonlinear_arith)
        requires
            gap == n2 * len * ct - n1 * scale * x,
            len * ct == scale * cr - e,
            small == n2 * cr - n1 * x,
    {
        assert(n2 * len * ct == n2 * (len * ct));
        assert(n2 * (scale * cr - e) == scale * (n2 * cr) - n2 * e);
        assert(n1 * scale * x == scale * (n1 * x));
    }
    assert(-(bound * (scale + len)) <= gap <= bound * (scale + len)) by (nonlinear_arith)
        requires
            gap == scale * small - n2 * e,
            -bound <= small <= bound,
            -(len * r) <= e <= len * r,
            bound == n2 * r,
            scale > 0,
            n2 > 0,
    {
        assert(scale * small <= scale * bound);
        assert(scale * small >= -(scale * bound));
        assert(n2 * e <= n2 * (len * r));
        assert(n2 * e >= -(n2 * (len * r)));
        assert(n2 * (len * r) == bound * len);
        assert(bound * (scale + len) == scale * bound + bound * len);
    }
    assert(n2 * reach(normal) * (scale + len) == bound * (scale + len));
}

/// The bent vector does not come back: for a normal that faces the ray,
/// the bent vector `t` before it is brought to unit length has a dot
/// product with the normal that is not positive, up to the rounding of `t`
/// and up to what the normal is longer than one.
pub proof fn law_refraction_keeps_going(incoming: IntVec, normal: IntVec, n1: int, n2: int)
    requires
        n1 > 0,
        n2 > 0,
        normal.is_unit(),
        incoming.dot(normal) <= 0,
        !total_internal_reflection(cos_incidence(incoming, normal), n1, n2),
    ensures
        n2 * refracted_raw(incoming, normal, n1, n2).dot(normal) <= n1 * (4 * UNIT + 4) + n2
            * reach(normal),
{
    let u = UNIT as int;
    let c = cos_incidence(incoming, normal);
    let dn = -incoming.dot(normal);
    lemma_div_trunc_remainder(dn, u);
    assert(0 <= c <= u && u * c <= dn);
    let radicand = n2 * n2 * (u * u) - n1 * n1 * (u * u - c * c);
    assert(radicand >= 0);
    lemma_isqrt(radicand);
    let g = cos_refraction_scaled(c, n1, n2);
    assert(g >= 0);
    let f = n1 * c - g;
    let den = n2 * u;
    let nn = normal.norm_sq();
    let ax = n1 * u * incoming.x + f * normal.x;
    let ay = n1 * u * incoming.y + f * normal.y;
    let t = refracted_raw(incoming, normal, n1, n2);
    assert(den > 0) by (nonlinear_arith)
        requires
            n2 > 0,
            den == n2 * 1_000_000,
    ;
    lemma_div_trunc_remainder(ax, den);
    lemma_div_trunc_remainder(ay, den);
    let rx = ax - t.x * den;
    let ry = ay - t.y * den;
    let w = n1 * u;
    let p1 = incoming.x * normal.x;
    let p2 = incoming.y * normal.y;
    let sx = normal.x * normal.x;
    let sy = normal.y * normal.y;
    assert(ax * normal.x == w * p1 + f * sx) by (nonlinear_arith)
        requires
            ax == w * incoming.x + f * normal.x,
            p1 == incoming.x * normal.x,
            sx == normal.x * normal.x,
    ;
    assert(ay * normal.y == w * p2 + f * sy) by (nonlinear_arith)
        requires
            ay == w * incoming.y + f * normal.y,
            p2 == incoming.y * normal.y,
            sy == normal.y * normal.y,
    ;
    assert(w * p1 + w * p2 == -(w * dn) && f * sx + f * sy == f * nn) by (nonlinear_arith)
        requires
            dn == -(p1 + p2),
            nn == sx + sy,
    ;
    assert(ax * normal.x + ay * normal.y == f * nn - w * dn);
    let td = t.dot(normal);
    assert(den * td == f * nn - w * dn - (rx * normal.x + ry * normal.y)) by (nonlinear_arith)
        requires
            td == t.x * normal.x + t.y * normal.y,
            rx == ax - t.x * den,
            ry == ay - t.y * den,
            ax * normal.x + ay * normal.y == f * nn - w * dn,
    ;
    let ny = if normal.y >= 0 { normal.y } else { -normal.y };
    let nx = if normal.x >= 0 { normal.x } else { -normal.x };
    lemma_product_bound(rx, normal.x, den, nx);
    lemma_product_bound(ry, normal.y, den, ny);
    let r = reach(normal);
    assert(den * nx + den * ny == den * r) by (nonlinear_arith)
        requires
            r == nx + ny,
    ;
    // f nn - w dn <= n1 c (nn - u u) <= n1 u (4 u + 4)
    assert(f * nn - w * dn <= w * (4 * u + 4)) by (nonlinear_arith)
        requires
            u == 1_000_000,
            f == n1 * c - g,
            w == n1 * u,
            g >= 0,
            n1 > 0,
            0 <= c <= u,
            u * c <= dn,
            0 <= nn <= (u + 2) * (u + 2),
    {
        assert(g * nn >= 0);
        assert(w * dn >= w * (u * c));
        assert(w * (u * c) == (n1 * c) * (u * u));
        assert((n1 * c) * nn - (n1 * c) * (u * u) <= (n1 * c) * (4 * u + 4));
        assert((n1 * c) * (4 * u + 4) <= w * (4 * u + 4));
        assert(f * nn == (n1 * c) * nn - g * nn);
    }
    assert(n2 * td <= n1 * (4 * u + 4) + n2 * r) by (nonlinear_arith)
        requires
            u == 1_000_000,
            den == n2 * u,
            w == n1 * u,
            den * td <= w * (4 * u + 4) + den * r,
    {
        assert(den * td == u * (n2 * td));
        assert(w * (4 * u + 4) + den * r == u * (n1 * (4 * u + 4) + n2 * r));
    }
}

/// The model of a path says all there is to say of it: two paths with the
/// same model have the same vertices and end for the same reason. So two
/// tracings of one ray through one scene, which have the model `traced` in
/// common, give the same path.
pub proof fn law_model_determines_the_path(p: RayPath, q: RayPath)
    requires
        p@ == q@,
    ensures
        p.vertices@ == q.vertices@,
        p.termination == q.termination,
{
    assert(p@.vertices.len() == p.vertices@.len());
    assert(q@.vertices.len() == q.vertices@.len());
    assert forall|i: int| 0 <= i < p.vertices@.len() implies p.vertices@[i] == q.vertices@[i] by {
        let a = p.vertices@[i];
        let b = q.vertices@[i];
        assert(p@.vertices[i] == a@);
        assert(q@.vertices[i] == b@);
        assert(a@ == b@);
        assert(a.point@ == b.point@);
        assert(a.incoming@ == b.incoming@);
        match (a.outgoing, b.outgoing) {
            (Some(x), Some(y)) => {
                assert(x@ == y@);
            },
            _ => {},
        }
    }
    assert(p.vertices@ =~= q.vertices@);
}

/// In a scene without segments the path is the origin of the ray alone, and
/// the ray has left.
pub proof fn law_empty_scene(
    origin: IntVec,
    direction: IntVec,
    max_bounces: nat,
    epsilon: int,
    ambient: int,
)
    ensures
        traced(Seq::<Segment>::empty(), origin, direction, max_bounces, epsilon, ambient)
            == PathModel::single(
            VertexModel { point: origin, incoming: direction, outgoing: Some(direction) },
            Termination::Exited,
        ),
{
    let scene = Seq::<Segment>::empty();
    assert(nearest_index(origin, direction, scene, None) is None);
    let rest = trace_from(scene, origin, direction, None, max_bounces, epsilon, ambient);
    assert(rest.vertices =~= Seq::<VertexModel>::empty());
    let start = VertexModel { point: origin, incoming: direction, outgoing: Some(direction) };
    assert(seq![start] + rest.vertices =~= seq![start]);
}

/// The refracted direction does not come back either: with the length
/// `len / scale` of the bent vector as in `law_snell_for_the_direction`,
/// `n2 (len / scale)` times the dot product of the direction with a normal
/// that faces the ray is not positive, up to the roundings and up to what
/// the normal is longer than one.
pub proof fn law_direction_keeps_going(incoming: IntVec, normal: IntVec, n1: int, n2: int)
    requires
        n1 > 0,
        n2 > 0,
        normal.is_unit(),
        incoming.dot(normal) <= 0,
        !total_internal_reflection(cos_incidence(incoming, normal), n1, n2),
        !refracted_raw(incoming, normal, n1, n2).is_zero(),
        !refracted_raw(incoming, normal, n1, n2).is_unit(),
    ensures
        ({
            let raw = refracted_raw(incoming, normal, n1, n2);
            let t = raw.normalize();
            let scale = if raw.within(FINE as int) { UNIT * UNIT } else { UNIT as int };
            let len = if raw.within(FINE as int) {
                isqrt(raw.norm_sq() * (UNIT * UNIT))
            } else {
                isqrt(raw.norm_sq())
            };
            n2 * len * t.dot(normal) <= scale * (n1 * (4 * UNIT + 4) + n2 * reach(normal)) + n2
                * reach(normal) * len
        }),
{
    let raw = refracted_raw(incoming, normal, n1, n2);
    let t = raw.normalize();
    let scale = if raw.within(FINE as int) { UNIT * UNIT } else { UNIT as int };
    let len = if raw.within(FINE as int) {
        isqrt(raw.norm_sq() * (UNIT * UNIT))
    } else {
        isqrt(raw.norm_sq())
    };
    lemma_normalize_is_unit(raw);
    law_refraction_keeps_going(incoming, normal, n1, n2);
    assert(t.x == div_trunc(raw.x * scale, len) && t.y == div_trunc(raw.y * scale, len));
    lemma_div_trunc_remainder(raw.x * scale, len);
    lemma_div_trunc_remainder(raw.y * scale, len);
    let rx = raw.x * scale - t.x * len;
    let ry = raw.y * scale - t.y * len;
    let dr = raw.dot(normal);
    let dt = t.dot(normal);
    let bx = raw.x * scale;
    let by = raw.y * scale;
    assert(bx * normal.x + by * normal.y == scale * dr) by (nonlinear_arith)
        requires
            bx == raw.x * scale,
            by == raw.y * scale,
            dr == raw.x * normal.x + raw.y * normal.y,
    ;
    let e = rx * normal.x + ry * normal.y;
    assert(len * dt == scale * dr - e) by (nonlinear_arith)
        requires
            dt == t.x * normal.x + t.y * normal.y,
            rx == bx - t.x * len,
            ry == by - t.y * len,
            bx * normal.x + by * normal.y == scale * dr,
            e == rx * normal.x + ry * normal.y,
    ;
    let ny = if normal.y >= 0 { normal.y } else { -normal.y };
    let nx = if normal.x >= 0 { normal.x } else { -normal.x };
    lemma_product_bound(rx, normal.x, len, nx);
    lemma_product_bound(ry, normal.y, len, ny);
    let r = reach(normal);
    assert(len * nx + len * ny == len * r) by (nonlinear_arith)
        requires
            r == nx + ny,
    ;
    let most = n1 * (4 * UNIT + 4) + n2 * r;
    assert(n2 * len * dt <= scale * most + n2 * r * len) by (nonlinear_arith)
        requires
            len * dt == scale * dr - e,
            n2 * dr <= most,
            -(len * r) <= e,
            scale > 0,
            n2 > 0,
    {
        assert(n2 * len * dt == n2 * (len * dt));
        assert(n2 * (scale * dr - e) == scale * (n2 * dr) - n2 * e);
        assert(scale * (n2 * dr) <= scale * most);
        assert(n2 * e >= -(n2 * (len * r)));
        assert(n2 * (len * r) == n2 * r * len);
    }
}

/// At every step, while the budget lasts, the ray meets a surface that sends
/// it on, and its next step stays in the plane.
pub open spec fn keeps_bouncing(
    scene: Seq<Segment>,
    origin: IntVec,
    direction: IntVec,
    last: Option<Segment>,
    budget: nat,
    epsilon: int,
    ambient: int,
) -> bool
    decreases budget,
{
    match nearest_index(origin, direction, scene, last) {
        None => false,
        Some(i) => {
            let seg = scene[i];
            let point = hit_point(origin, direction, seg);
            let normal = hit_normal(direction, seg);
            match response(direction, normal, seg.material, ambient) {
                None => false,
                Some(out) => {
                    let next = step_origin(point, out, epsilon);
                    budget <= 1 || (in_plane(next) && keeps_bouncing(
                        scene,
                        next,
                        out,
                        Some(seg),
                        (budget - 1) as nat,
                        epsilon,
                        ambient,
                    ))
                },
            }
        },
    }
}

/// A ray that bounces at every step ends for want of budget, and no other
/// ray does: the path ends as `HopLimitReached` exactly where the ray keeps
/// bouncing as long as the budget lasts.
pub proof fn law_bouncing_ray_uses_up_the_budget(
    scene: Seq<Segment>,
    origin: IntVec,
    direction: IntVec,
    last: Option<Segment>,
    budget: nat,
    epsilon: int,
    ambient: int,
)
    requires
        budget >= 1,
    ensures
        trace_from(scene, origin, direction, last, budget, epsilon, ambient).termination
            is HopLimitReached <==> keeps_bouncing(
            scene,
            origin,
            direction,
            last,
            budget,
            epsilon,
            ambient,
        ),
    decreases budget,
{
    match nearest_index(origin, direction, scene, last) {
        None => {},
        Some(i) => {
            let seg = scene[i];
            let point = hit_point(origin, direction, seg);
            let normal = hit_normal(direction, seg);
            match response(direction, normal, seg.material, ambient) {
                None => {},
                Some(out) => {
                    let next = step_origin(point, out, epsilon);
                    if budget > 1 && in_plane(next) {
                        law_bouncing_ray_uses_up_the_budget(
                            scene,
                            next,
                            out,
                            Some(seg),
                            (budget - 1) as nat,
                            epsilon,
                            ambient,
                        );
                    }
                },
            }
        },
    }
}

/// The budget bounds the path: a ray that may bounce `budget` times leaves
/// at most that many vertices after its origin, exactly that many where the
/// path ends for want of budget, and every one of them but the last has a
/// direction to leave in.
pub proof fn law_budget_bounds_the_path(
    scene: Seq<Segment>,
    origin: IntVec,
    direction: IntVec,
    last: Option<Segment>,
    budget: nat,
    epsilon: int,
    ambient: int,
)
    requires
        budget >= 1,
    ensures
        ({
            let path = trace_from(scene, origin, direction, last, budget, epsilon, ambient);
            &&& path.vertices.len() <= budget
            &&& path.termination is HopLimitReached ==> path.vertices.len() == budget
            &&& path.termination is Absorbed ==> path.vertices.len() >= 1
                && path.vertices.last().outgoing is None
            &&& forall|i: int|
                0 <= i < path.vertices.len() - 1 ==> (#[trigger] path.vertices[i]).outgoing is Some
        }),
    decreases budget,
{
    let path = trace_from(scene, origin, direction, last, budget, epsilon, ambient);
    match nearest_index(origin, direction, scene, last) {
        None => {},
        Some(i) => {
            let seg = scene[i];
            let point = hit_point(origin, direction, seg);
            let normal = hit_normal(direction, seg);
            let outgoing = response(direction, normal, seg.material, ambient);
            let vertex = VertexModel { point, incoming: direction, outgoing };
            match outgoing {
                None => {},
                Some(out) => {
                    let next = step_origin(point, out, epsilon);
                    if budget > 1 && in_plane(next) {
                        let rest = trace_from(
                            scene,
                            next,
                            out,
                            Some(seg),
                            (budget - 1) as nat,
                            epsilon,
                            ambient,
                        );
                        law_budget_bounds_the_path(
                            scene,
                            next,
                            out,
                            Some(seg),
                            (budget - 1) as nat,
                            epsilon,
                            ambient,
                        );
                        assert(path == rest.after(vertex));
                        assert forall|i: int| 0 <= i < path.vertices.len() - 1 implies (
                        #[trigger] path.vertices[i]).outgoing is Some by {
                            if i > 0 {
                                assert(path.vertices[i] == rest.vertices[i - 1]);
                            }
                        }
                        if rest.vertices.len() >= 1 {
                            assert(path.vertices.last() == rest.vertices.last());
                        }
                    }
                },
            }
        },
    }
}

} // verus!
