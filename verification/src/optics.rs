//! What a surface does to the direction of a ray: the law of reflection
//! and Snell's law of refraction.

use vstd::prelude::*;
use crate::fixed::{UNIT, div_trunc, divide, isqrt, lemma_div_trunc_between,
    lemma_div_trunc_remainder, lemma_product_bound, lemma_square_bound, sqrt_floor};
use crate::segment::Material;
use crate::vector::{IntVec, Vector2, lemma_reflect_term};

verus! {

/// The direction of a ray of unit direction `incoming` after a mirror of
/// normal `normal`: the mirror image, brought to unit length.
pub open spec fn reflected(incoming: IntVec, normal: IntVec) -> IntVec {
    incoming.reflect(normal).normalize()
}

/// The cosine of the angle of incidence, in millionths: minus the dot
/// product of the two unit vectors, rounded toward zero and kept between
/// minus one and one.
pub open spec fn cos_incidence(incoming: IntVec, normal: IntVec) -> int {
    let c = div_trunc(-incoming.dot(normal), UNIT as int);
    if c > UNIT {
        UNIT as int
    } else if c < -UNIT {
        -UNIT
    } else {
        c
    }
}

/// Snell's law has no solution: with `eta = n1 / n2` and the cosine `c` of
/// the angle of incidence, `eta^2 (1 - c^2)` exceeds one.
pub open spec fn total_internal_reflection(c: int, n1: int, n2: int) -> bool {
    n1 * n1 * (UNIT * UNIT - c * c) > n2 * n2 * (UNIT * UNIT)
}

/// The cosine of the angle of refraction times `n2`: the rounded-down
/// square root of `n2^2 - n1^2 (1 - c^2)`.
pub open spec fn cos_refraction_scaled(c: int, n1: int, n2: int) -> int {
    isqrt(n2 * n2 * (UNIT * UNIT) - n1 * n1 * (UNIT * UNIT - c * c))
}

/// The refracted direction before it is brought to unit length:
/// `eta incoming + (eta c - cos_t) normal`, each component rounded toward
/// zero once.
pub open spec fn refracted_raw(incoming: IntVec, normal: IntVec, n1: int, n2: int) -> IntVec {
    let c = cos_incidence(incoming, normal);
    let f = n1 * c - cos_refraction_scaled(c, n1, n2);
    IntVec {
        x: div_trunc(n1 * UNIT * incoming.x + f * normal.x, n2 * UNIT),
        y: div_trunc(n1 * UNIT * incoming.y + f * normal.y, n2 * UNIT),
    }
}

/// The direction of a ray of unit direction `incoming` after it passes from
/// a medium of index `n1` into one of index `n2` through a surface of unit
/// normal `normal`, or nothing where the ray is totally reflected.
///
/// The direction is `refracted_raw`, brought to unit length. With indices
/// that differ by a factor of several hundred thousand, a ray that meets the
/// surface all but straight on can have the two terms of `refracted_raw`
/// cancel to zero. Such a ray goes straight on.
pub open spec fn refracted(incoming: IntVec, normal: IntVec, n1: int, n2: int) -> Option<IntVec> {
    if total_internal_reflection(cos_incidence(incoming, normal), n1, n2) {
        None
    } else if refracted_raw(incoming, normal, n1, n2).is_zero() {
        Some(incoming)
    } else {
        Some(refracted_raw(incoming, normal, n1, n2).normalize())
    }
}

/// The direction in which a ray leaves a surface, or nothing where the
/// surface absorbs it. A refractive surface mirrors the ray where it cannot
/// refract it.
pub open spec fn response(incoming: IntVec, normal: IntVec, material: Material, ambient: int)
    -> Option<IntVec> {
    match material {
        Material::Absorptive => None,
        Material::Reflective => Some(reflected(incoming, normal)),
        Material::Refractive { index_of_refraction } => match refracted(
            incoming,
            normal,
            ambient,
            index_of_refraction as int,
        ) {
            Some(v) => Some(v),
            None => Some(reflected(incoming, normal)),
        },
    }
}

/// `(a - b)^2 = a^2 - 2 a b + b^2`.
proof fn lemma_square_of_difference(a: int, b: int)
    ensures
        (a - b) * (a - b) == a * a - 2 * (a * b) + b * b,
{
    assert((a - b) * (a - b) == a * a - 2 * (a * b) + b * b) by (nonlinear_arith);
}

/// `(a b)^2 = a^2 b^2`.
proof fn lemma_square_of_product(a: int, b: int)
    ensures
        (a * b) * (a * b) == (a * a) * (b * b),
{
    assert((a * b) * (a * b) == (a * a) * (b * b)) by (nonlinear_arith);
}

/// `(a b) (c d) = (a d) (c b)`.
proof fn lemma_product_of_products(a: int, b: int, c: int, d: int)
    ensures
        (a * b) * (c * d) == (a * d) * (c * b),
{
    assert((a * b) * (c * d) == (a * d) * (c * b)) by (nonlinear_arith);
}

/// A mirror image is as long as the vector, up to rounding: the mirror
/// image of a unit vector has a length within four millionths of one.
pub proof fn lemma_reflect_keeps_length(d: IntVec, n: IntVec)
    requires
        d.is_unit(),
        !n.is_zero(),
    ensures
        (UNIT - 4) * (UNIT - 4) <= d.reflect(n).norm_sq() <= (UNIT + 4) * (UNIT + 4),
        !d.reflect(n).is_zero(),
{
    let u = UNIT as int;
    let nn = n.norm_sq();
    let dn = d.dot(n);
    let dd = d.norm_sq();
    let k = 2 * dn;
    assert(nn > 0) by (nonlinear_arith)
        requires
            nn == n.x * n.x + n.y * n.y,
            n.x != 0 || n.y != 0,
    ;
    let qx = div_trunc(k * n.x, nn);
    let qy = div_trunc(k * n.y, nn);
    lemma_div_trunc_remainder(k * n.x, nn);
    lemma_div_trunc_remainder(k * n.y, nn);
    let rx = k * n.x - qx * nn;
    let ry = k * n.y - qy * nn;
    // nn times the true mirror image
    let a = k * n.x;
    let b = d.x * nn;
    let c = k * n.y;
    let e = d.y * nn;
    let ax = b - a;
    let ay = e - c;
    lemma_square_of_difference(b, a);
    lemma_square_of_difference(e, c);
    lemma_square_of_product(k, n.x);
    lemma_square_of_product(k, n.y);
    lemma_square_of_product(d.x, nn);
    lemma_square_of_product(d.y, nn);
    lemma_product_of_products(d.x, nn, k, n.x);
    lemma_product_of_products(d.y, nn, k, n.y);
    let kk = k * k;
    let nq = nn * nn;
    let kn = k * nn;
    assert(nq > 0) by (nonlinear_arith)
        requires
            nn > 0,
            nq == nn * nn,
    ;
    assert(a * a + c * c == kk * nn) by (nonlinear_arith)
        requires
            a * a == kk * (n.x * n.x),
            c * c == kk * (n.y * n.y),
            nn == n.x * n.x + n.y * n.y,
    ;
    assert(b * b + e * e == nq * dd) by (nonlinear_arith)
        requires
            b * b == (d.x * d.x) * nq,
            e * e == (d.y * d.y) * nq,
            dd == d.x * d.x + d.y * d.y,
    ;
    assert(b * a + e * c == kn * dn) by (nonlinear_arith)
        requires
            b * a == (d.x * n.x) * kn,
            e * c == (d.y * n.y) * kn,
            dn == d.x * n.x + d.y * n.y,
    ;
    assert(2 * (kn * dn) == kk * nn) by (nonlinear_arith)
        requires
            kn == k * nn,
            kk == k * k,
            k == 2 * dn,
    ;
    assert(ax * ax + ay * ay == nq * dd);
    // nn times the rounded mirror image
    let r = d.reflect(n);
    assert(nn * r.x == ax + rx && nn * r.y == ay + ry) by (nonlinear_arith)
        requires
            r.x == d.x - qx,
            r.y == d.y - qy,
            rx == k * n.x - qx * nn,
            ry == k * n.y - qy * nn,
            ax == d.x * nn - k * n.x,
            ay == d.y * nn - k * n.y,
    ;
    lemma_square_of_product(nn, r.x);
    lemma_square_of_product(nn, r.y);
    let rr = r.norm_sq();
    assert(nq * rr == (ax + rx) * (ax + rx) + (ay + ry) * (ay + ry)) by (nonlinear_arith)
        requires
            (nn * r.x) * (nn * r.x) == nq * (r.x * r.x),
            (nn * r.y) * (nn * r.y) == nq * (r.y * r.y),
            nn * r.x == ax + rx,
            nn * r.y == ay + ry,
            rr == r.x * r.x + r.y * r.y,
    ;
    let aax = if ax >= 0 { ax } else { -ax };
    let aay = if ay >= 0 { ay } else { -ay };
    let t = aax + aay;
    lemma_product_bound(ax, rx, aax, nn);
    lemma_product_bound(ay, ry, aay, nn);
    let mixed = ax * rx + ay * ry;
    assert(-(t * nn) <= mixed <= t * nn) by (nonlinear_arith)
        requires
            -(aax * nn) <= ax * rx <= aax * nn,
            -(aay * nn) <= ay * ry <= aay * nn,
            mixed == ax * rx + ay * ry,
            t == aax + aay,
    {
        assert(t * nn == aax * nn + aay * nn);
    }
    assert(aax * aax == ax * ax && aay * aay == ay * ay) by (nonlinear_arith)
        requires
            aax == ax || aax == -ax,
            aay == ay || aay == -ay,
    ;
    let w = nn * (u + 2);
    lemma_square_of_product(nn, u + 2);
    assert(t * t <= 2 * (w * w)) by (nonlinear_arith)
        requires
            t == aax + aay,
            aax * aax + aay * aay == nq * dd,
            dd <= (u + 2) * (u + 2),
            nq > 0,
            w * w == nq * ((u + 2) * (u + 2)),
    {
        assert((aax - aay) * (aax - aay) >= 0);
        assert(t * t <= 2 * (nq * dd));
        assert(nq * dd <= nq * ((u + 2) * (u + 2)));
    }
    assert(2 * t <= 3 * w) by (nonlinear_arith)
        requires
            t >= 0,
            w > 0,
            t * t <= 2 * (w * w),
    {
        if 2 * t > 3 * w {
            assert((2 * t) * (2 * t) > (3 * w) * (3 * w));
            assert(w * w > 0);
        }
    }
    assert(-(3 * (nq * (u + 2))) <= 2 * mixed <= 3 * (nq * (u + 2))) by (nonlinear_arith)
        requires
            -(t * nn) <= mixed <= t * nn,
            2 * t <= 3 * w,
            w == nn * (u + 2),
            nq == nn * nn,
            nn > 0,
    {
        assert((2 * t) * nn <= (3 * w) * nn);
        assert(w * nn == nq * (u + 2));
    }
    assert(0 <= rx * rx + ry * ry <= 2 * nq) by (nonlinear_arith)
        requires
            -nn < rx < nn,
            -nn < ry < nn,
            nq == nn * nn,
    {
        assert((nn - rx) * (nn + rx) > 0);
        assert((nn - ry) * (nn + ry) > 0);
        assert(rx * rx >= 0 && ry * ry >= 0);
    }
    assert(nq * rr == nq * dd + 2 * mixed + (rx * rx + ry * ry)) by (nonlinear_arith)
        requires
            nq * rr == (ax + rx) * (ax + rx) + (ay + ry) * (ay + ry),
            ax * ax + ay * ay == nq * dd,
            mixed == ax * rx + ay * ry,
    ;
    assert(dd - 3 * (u + 2) <= rr <= dd + 3 * (u + 2) + 2) by (nonlinear_arith)
        requires
            nq > 0,
            nq * dd - 3 * (nq * (u + 2)) <= nq * rr <= nq * dd + 3 * (nq * (u + 2)) + 2 * nq,
    {
        assert(nq * (dd - 3 * (u + 2)) == nq * dd - 3 * (nq * (u + 2)));
        assert(nq * (dd + 3 * (u + 2) + 2) == nq * dd + 3 * (nq * (u + 2)) + 2 * nq);
        if rr < dd - 3 * (u + 2) {
            assert(nq * rr <= nq * (dd - 3 * (u + 2)) - nq);
        }
        if rr > dd + 3 * (u + 2) + 2 {
            assert(nq * rr >= nq * (dd + 3 * (u + 2) + 2) + nq);
        }
    }
    assert(rr > 0);
    assert(!r.is_zero()) by (nonlinear_arith)
        requires
            r.x * r.x + r.y * r.y > 0,
    ;
}

/// Vectors that are near each other have mirror images that are near each
/// other: where no component differs by more than `b`, none of the mirror
/// images differs by more than `4 b + 1`.
pub proof fn lemma_reflect_of_near_vectors(v: IntVec, w: IntVec, n: IntVec, b: int)
    requires
        !n.is_zero(),
        -b <= v.x - w.x <= b,
        -b <= v.y - w.y <= b,
    ensures
        -(4 * b + 1) <= v.reflect(n).x - w.reflect(n).x <= 4 * b + 1,
        -(4 * b + 1) <= v.reflect(n).y - w.reflect(n).y <= 4 * b + 1,
{
    let nn = n.norm_sq();
    assert(nn > 0) by (nonlinear_arith)
        requires
            nn == n.x * n.x + n.y * n.y,
            n.x != 0 || n.y != 0,
    ;
    let kv = 2 * v.dot(n);
    let kw = 2 * w.dot(n);
    let dx = v.x - w.x;
    let dy = v.y - w.y;
    lemma_reflect_term(dx, dy, n.x, n.y, b);
    lemma_reflect_term(dy, dx, n.y, n.x, b);
    assert(kv * n.x - kw * n.x == 2 * (dx * n.x + dy * n.y) * n.x && kv * n.y - kw * n.y == 2 * (dy
        * n.y + dx * n.x) * n.y) by (nonlinear_arith)
        requires
            kv == 2 * (v.x * n.x + v.y * n.y),
            kw == 2 * (w.x * n.x + w.y * n.y),
            dx == v.x - w.x,
            dy == v.y - w.y,
    ;
    assert(n.y * n.y + n.x * n.x == nn);
    lemma_div_trunc_remainder(kv * n.x, nn);
    lemma_div_trunc_remainder(kw * n.x, nn);
    lemma_div_trunc_remainder(kv * n.y, nn);
    lemma_div_trunc_remainder(kw * n.y, nn);
    lemma_quotients_of_near_numbers(kv * n.x, kw * n.x, nn, 3 * b);
    lemma_quotients_of_near_numbers(kv * n.y, kw * n.y, nn, 3 * b);
}

/// Dividends that differ by at most `c` times the divisor have quotients
/// that differ by at most `c + 1`.
proof fn lemma_quotients_of_near_numbers(x: int, y: int, d: int, c: int)
    requires
        d > 0,
        (-c) * d <= x - y <= c * d,
    ensures
        -(c + 1) <= div_trunc(x, d) - div_trunc(y, d) <= c + 1,
{
    lemma_div_trunc_remainder(x, d);
    lemma_div_trunc_remainder(y, d);
    let p = div_trunc(x, d);
    let q = div_trunc(y, d);
    assert(-(c + 1) <= p - q <= c + 1) by (nonlinear_arith)
        requires
            d > 0,
            (-c) * d <= x - y <= c * d,
            -d < x - p * d < d,
            -d < y - q * d < d,
    {
        assert((p - q) * d == p * d - q * d);
        assert((c + 2) * d == c * d + 2 * d);
        assert((-(c + 2)) * d == (-c) * d - 2 * d);
        if p - q >= c + 2 {
            assert((p - q) * d >= (c + 2) * d);
        }
        if p - q <= -(c + 2) {
            assert((p - q) * d <= (-(c + 2)) * d);
        }
    }
}

/// The direction of a ray after a mirror.
///
/// `incoming` is the unit direction of the ray and `normal` the unit normal
/// of the mirror. The result is a unit vector.
pub fn reflect_ray(incoming: Vector2, normal: Vector2) -> (r: Vector2)
    requires
        incoming@.is_unit(),
        normal@.is_unit(),
    ensures
        r@ == reflected(incoming@, normal@),
        r@.is_unit(),
{
    proof {
        lemma_square_bound(incoming.x as int, incoming.y as int, UNIT + 2);
        lemma_square_bound(normal.x as int, normal.y as int, UNIT + 2);
        lemma_reflect_keeps_length(incoming@, normal@);
    }
    match incoming.reflect(normal).normalize() {
        Ok(v) => v,
        Err(_) => incoming,
    }
}

/// The direction of a ray after it passes into another medium.
///
/// `incoming` is the unit direction of the ray, `normal` the unit normal of
/// the surface on the side that the ray arrives from, `n1` the index of
/// refraction of the medium that it leaves and `n2` that of the medium that
/// it enters, both in millionths. The result is `None` exactly where the
/// ray is totally reflected.
pub fn refract_ray(incoming: Vector2, normal: Vector2, n1: u32, n2: u32) -> (r: Option<Vector2>)
    requires
        incoming@.is_unit(),
        normal@.is_unit(),
        n1 > 0,
        n2 > 0,
    ensures
        match r {
            Some(v) => refracted(incoming@, normal@, n1 as int, n2 as int) == Some(v@)
                && v@.is_unit(),
            None => refracted(incoming@, normal@, n1 as int, n2 as int) is None,
        },
        r is None <==> total_internal_reflection(
            cos_incidence(incoming@, normal@),
            n1 as int,
            n2 as int,
        ),
{
    let ghost b = 1_000_002int;
    proof {
        lemma_square_bound(incoming.x as int, incoming.y as int, UNIT + 2);
        lemma_square_bound(normal.x as int, normal.y as int, UNIT + 2);
        lemma_product_bound(incoming.x as int, normal.x as int, b, b);
        lemma_product_bound(incoming.y as int, normal.y as int, b, b);
    }
    let dn = incoming.dot(normal);
    let q = divide(-dn, 1_000_000);
    let c: i128 = if q > 1_000_000 {
        1_000_000
    } else if q < -1_000_000 {
        -1_000_000
    } else {
        q
    };
    let a1: i128 = n1 as i128;
    let a2: i128 = n2 as i128;
    let ghost m = 0x1_0000_0000int;
    proof {
        lemma_product_bound(c as int, c as int, 1_000_000, 1_000_000);
        lemma_product_bound(a1 as int, a1 as int, m, m);
        lemma_product_bound(a2 as int, a2 as int, m, m);
    }
    let sin_sq: i128 = 1_000_000_000_000 - c * c;
    proof {
        assert(c * c >= 0) by (nonlinear_arith);
        lemma_product_bound(a1 * a1, sin_sq as int, m * m, 1_000_000_000_000);
        assert(a2 * a2 * 1_000_000_000_000 <= m * m * 1_000_000_000_000) by (nonlinear_arith)
            requires
                a2 * a2 <= m * m,
        ;
        assert(a2 * a2 >= 0) by (nonlinear_arith);
        assert(a1 * a1 * sin_sq >= 0) by (nonlinear_arith)
            requires
                sin_sq >= 0,
        ;
    }
    let lhs: i128 = a1 * a1 * sin_sq;
    let rhs: i128 = a2 * a2 * 1_000_000_000_000;
    if lhs > rhs {
        return None;
    }
    let g: i128 = sqrt_floor((rhs - lhs) as u128) as i128;
    proof {
        // g * g <= rhs, so g is at most 2^32 * 10^6
        assert(g <= m * 1_000_000) by (nonlinear_arith)
            requires
                g >= 0,
                g * g <= m * m * 1_000_000_000_000,
                m == 0x1_0000_0000int,
        {
            if g > m * 1_000_000 {
                assert(g * g > (m * 1_000_000) * (m * 1_000_000));
            }
        }
        lemma_product_bound(a1 as int, c as int, m, 1_000_000);
    }
    let f: i128 = a1 * c - g;
    let ghost fb = 2 * (m * 1_000_000);
    let ghost tb = m * 1_000_000 * b;
    proof {
        lemma_product_bound(a1 * 1_000_000, incoming.x as int, m * 1_000_000, b);
        lemma_product_bound(a1 * 1_000_000, incoming.y as int, m * 1_000_000, b);
        lemma_product_bound(f as int, normal.x as int, fb, b);
        lemma_product_bound(f as int, normal.y as int, fb, b);
        assert(fb * b == 2 * tb) by (nonlinear_arith)
            requires
                fb == 2 * (m * 1_000_000),
                tb == m * 1_000_000 * b,
        ;
        assert(tb == 4_294_975_885_934_592_000_000int) by (nonlinear_arith)
            requires
                tb == m * 1_000_000 * b,
                m == 0x1_0000_0000int,
                b == 1_000_002int,
        ;
        let den = a2 * 1_000_000;
        let qb = 3 * (m * b);
        assert((-qb) * den <= -(3 * tb) && 3 * tb <= qb * den) by (nonlinear_arith)
            requires
                den == a2 * 1_000_000,
                a2 >= 1,
                qb == 3 * (m * b),
                tb == m * 1_000_000 * b,
                m == 0x1_0000_0000int,
                b == 1_000_002int,
        {
            assert(qb * den == (3 * tb) * a2);
            assert((3 * tb) * a2 >= 3 * tb);
        }
        assert(qb == 12_884_927_657_803_776int);
        lemma_div_trunc_between(a1 * 1_000_000 * incoming.x + f * normal.x, den, -qb, qb);
        lemma_div_trunc_between(a1 * 1_000_000 * incoming.y + f * normal.y, den, -qb, qb);
    }
    let x = divide(a1 * 1_000_000 * incoming.x as i128 + f * normal.x as i128, a2 * 1_000_000);
    let y = divide(a1 * 1_000_000 * incoming.y as i128 + f * normal.y as i128, a2 * 1_000_000);
    let raw = Vector2 { x: x as i64, y: y as i64 };
    match raw.normalize() {
        Ok(v) => Some(v),
        Err(_) => Some(incoming),
    }
}

/// The direction in which a ray leaves a surface of the given material, or
/// `None` where the surface absorbs it.
///
/// A reflective surface mirrors the ray. A refractive one bends it from the
/// ambient medium into its own, and mirrors it where no bent ray exists.
pub fn respond(incoming: Vector2, normal: Vector2, material: Material, ambient_index: u32) -> (r:
    Option<Vector2>)
    requires
        incoming@.is_unit(),
        normal@.is_unit(),
        material.wf(),
        ambient_index > 0,
    ensures
        match r {
            Some(v) => response(incoming@, normal@, material, ambient_index as int) == Some(v@)
                && v@.is_unit(),
            None => response(incoming@, normal@, material, ambient_index as int) is None,
        },
        r is None <==> material is Absorptive,
{
    match material {
        Material::Absorptive => None,
        Material::Reflective => Some(reflect_ray(incoming, normal)),
        Material::Refractive { index_of_refraction } => {
            match refract_ray(incoming, normal, ambient_index, index_of_refraction) {
                Some(v) => Some(v),
                None => Some(reflect_ray(incoming, normal)),
            }
        },
    }
}

} // verus!
