//! Which way the triangles of a plan face, before they are placed.
use crate::binary64;
use crate::binary64::Binary64;
use crate::near;
use crate::number;
use crate::render::mesh::MeshView;
use crate::render::surface::{Bearing, Geodetic, Rgb, SurfaceVertex};
use vstd::arithmetic::power2::*;
use vstd::prelude::*;

verus! {

/// The sine and the cosine are those of an angle, but for less than half.
pub open spec fn is_direction(heading: Bearing) -> bool {
    let one = Binary64::one();
    let (s, c) = (heading.sin.value(), heading.cos.value());
    &&& heading.sin.is_finite()
    &&& heading.cos.is_finite()
    &&& number::magnitude_of(s) <= one
    &&& number::magnitude_of(c) <= one
    &&& one * one <= 2 * (s * s + c * c)
}

/// At most a thousand kilometres, and some more.
pub open spec fn in_reach(x: Binary64) -> bool {
    x.is_finite() && number::magnitude_of(x.value()) <= pow2(1094)
}

/// How far off a turned place can be: two to the twenty-ninth part of a metre.
pub open spec fn slack() -> nat {
    pow2(1045)
}

/// How much of the normal of a triangle points up, north and east of it being
/// counted.
pub open spec fn upward(a: SurfaceVertex, b: SurfaceVertex, c: SurfaceVertex) -> int {
    (b.east.value() - a.east.value()) * (c.north.value() - a.north.value()) - (b.north.value()
        - a.north.value()) * (c.east.value() - a.east.value())
}

/// The triangle lies level around one place, and faces up.
pub open spec fn faces_up(a: SurfaceVertex, b: SurfaceVertex, c: SurfaceVertex) -> bool {
    &&& a.anchor == b.anchor && b.anchor == c.anchor
    &&& a.lift == b.lift && b.lift == c.lift
    &&& upward(a, b, c) > 0
}

/// Every triangle of a plan faces up.
pub open spec fn all_face_up(m: MeshView<SurfaceVertex>) -> bool {
    forall|t: int|
        0 <= t && 3 * t + 2 < m.indices.len() ==> #[trigger] triangle_faces_up(m, t)
}

/// The triangle in place `t` faces up.
pub open spec fn triangle_faces_up(m: MeshView<SurfaceVertex>, t: int) -> bool {
    faces_up(
        m.vertices[m.indices[3 * t]],
        m.vertices[m.indices[3 * t + 1]],
        m.vertices[m.indices[3 * t + 2]],
    )
}

/// A square that faces up keeps it so that all do.
pub proof fn lemma_with_quad(
    m: MeshView<SurfaceVertex>,
    a: SurfaceVertex,
    b: SurfaceVertex,
    c: SurfaceVertex,
    d: SurfaceVertex,
)
    requires
        m.well_formed(),
        all_face_up(m),
        faces_up(a, b, c),
        faces_up(a, c, d),
    ensures
        all_face_up(m.with_quad(a, b, c, d, false)),
{
    let w = m.with_quad(a, b, c, d, false);
    let n = m.indices.len() as int;
    assert forall|t: int| 0 <= t && 3 * t + 2 < w.indices.len() implies #[trigger]
        triangle_faces_up(w, t) by {
        if 3 * t + 2 < n {
            assert(triangle_faces_up(m, t));
            assert(w.indices[3 * t] == m.indices[3 * t]);
            assert(w.indices[3 * t + 1] == m.indices[3 * t + 1]);
            assert(w.indices[3 * t + 2] == m.indices[3 * t + 2]);
        } else {
            assert(3 * t == n || 3 * t == n + 3);
            let base = m.vertices.len() as int;
            assert(w.vertices[base] == a && w.vertices[base + 1] == b && w.vertices[base + 2] == c
                && w.vertices[base + 3] == d);
        }
    }
}

/// A square that faces up the other way round keeps it so that all do.
pub proof fn lemma_with_flipped_quad(
    m: MeshView<SurfaceVertex>,
    a: SurfaceVertex,
    b: SurfaceVertex,
    c: SurfaceVertex,
    d: SurfaceVertex,
)
    requires
        m.well_formed(),
        all_face_up(m),
        faces_up(a, c, b),
        faces_up(a, d, c),
    ensures
        all_face_up(m.with_quad(a, b, c, d, true)),
{
    let w = m.with_quad(a, b, c, d, true);
    let n = m.indices.len() as int;
    assert forall|t: int| 0 <= t && 3 * t + 2 < w.indices.len() implies #[trigger]
        triangle_faces_up(w, t) by {
        if 3 * t + 2 < n {
            assert(triangle_faces_up(m, t));
            assert(w.indices[3 * t] == m.indices[3 * t]);
            assert(w.indices[3 * t + 1] == m.indices[3 * t + 1]);
            assert(w.indices[3 * t + 2] == m.indices[3 * t + 2]);
        } else {
            assert(3 * t == n || 3 * t == n + 3);
            let base = m.vertices.len() as int;
            assert(w.vertices[base] == a && w.vertices[base + 1] == b && w.vertices[base + 2] == c
                && w.vertices[base + 3] == d);
        }
    }
}

/// A product of counts, each within its size.
pub proof fn lemma_size(a: int, b: int, p: int, q: int)
    requires
        -p <= a <= p,
        -q <= b <= q,
        p >= 0,
        q >= 0,
    ensures
        -(p * q) <= a * b <= p * q,
{
    let m = number::magnitude_of(a) as int;
    let n = number::magnitude_of(b) as int;
    assert(m * n <= p * q) by (nonlinear_arith)
        requires
            0 <= m <= p,
            0 <= n <= q,
    ;
    assert(a * b == m * n || a * b == -(m * n)) by (nonlinear_arith)
        requires
            a == m || a == -m,
            b == n || b == -n,
    ;
    assert(m * n >= 0) by (nonlinear_arith)
        requires
            m >= 0,
            n >= 0,
    ;
}

/// Where a turned place comes to lie.
pub proof fn lemma_place(heading: Bearing, along: Binary64, across: Binary64)
    requires
        is_direction(heading),
        in_reach(along),
        in_reach(across),
    ensures
        heading.north(along, across).is_finite(),
        heading.east(along, across).is_finite(),
        near::within(
            heading.north(along, across).value() * Binary64::one(),
            along.value() * heading.cos.value() - across.value() * heading.sin.value(),
            slack() * Binary64::one(),
        ),
        near::within(
            heading.east(along, across).value() * Binary64::one(),
            along.value() * heading.sin.value() + across.value() * heading.cos.value(),
            slack() * Binary64::one(),
        ),
{
    let one = Binary64::one() as int;
    let (s, c) = (heading.sin, heading.cos);
    let m = pow2(1094) as int;
    lemma_pow2_pos(1074);
    lemma_pow2_adds(1094, 1);
    lemma_pow2_adds(1095, 1);
    lemma_pow2_adds(1042, 2);
    lemma_pow2_adds(1044, 1);
    lemma2_to64();
    lemma_size(along.value(), c.value(), m, one);
    lemma_size(across.value(), s.value(), m, one);
    lemma_size(along.value(), s.value(), m, one);
    lemma_size(across.value(), c.value(), m, one);
    near::lemma_product(along, c, 1094);
    near::lemma_product(across, s, 1094);
    near::lemma_product(along, s, 1094);
    near::lemma_product(across, c, 1094);
    near::lemma_difference(along * c, across * s, 1096);
    near::lemma_sum(along * s, across * c, 1096);
    let e = pow2(1042) as int;
    lemma_scaled(
        heading.north(along, across).value(),
        (along * c).value() - (across * s).value(),
        4 * e,
        one,
    );
    lemma_scaled(
        heading.east(along, across).value(),
        (along * s).value() + (across * c).value(),
        4 * e,
        one,
    );
    let (pc, rs, ps, rc) = (
        (along * c).value(),
        (across * s).value(),
        (along * s).value(),
        (across * c).value(),
    );
    assert((pc - rs) * one == pc * one - rs * one) by (nonlinear_arith);
    assert((ps + rc) * one == ps * one + rc * one) by (nonlinear_arith);
    assert((4 * e) * one == 4 * (e * one) && (8 * e) * one == 8 * (e * one)) by (nonlinear_arith);
}

proof fn lemma_scaled(a: int, b: int, most: int, one: int)
    requires
        -most <= a - b <= most,
        one > 0,
    ensures
        -(most * one) <= a * one - b * one <= most * one,
{
    let d = a - b;
    assert(a * one - b * one == d * one) by (nonlinear_arith)
        requires
            d == a - b,
    ;
    assert(-(most * one) <= d * one <= most * one) by (nonlinear_arith)
        requires
            -most <= d <= most,
            one > 0,
    ;
}

/// The product of two sums, each of two products.
proof fn lemma_expand(a: int, u: int, b: int, v: int, c: int, w: int, d: int, z: int)
    ensures
        (a * u + b * v) * (c * w + d * z) == (a * c) * (u * w) + (a * d) * (u * z) + (b * c) * (v
            * w) + (b * d) * (v * z),
{
    let (p, q, r, t) = (a * u, b * v, c * w, d * z);
    lemma_product_of_sums(p, q, r, t);
    assert(p * r == (a * c) * (u * w)) by (nonlinear_arith)
        requires
            p == a * u,
            r == c * w,
    ;
    assert(p * t == (a * d) * (u * z)) by (nonlinear_arith)
        requires
            p == a * u,
            t == d * z,
    ;
    assert(q * r == (b * c) * (v * w)) by (nonlinear_arith)
        requires
            q == b * v,
            r == c * w,
    ;
    assert(q * t == (b * d) * (v * z)) by (nonlinear_arith)
        requires
            q == b * v,
            t == d * z,
    ;
}

proof fn lemma_product_of_sums(p: int, q: int, r: int, t: int)
    ensures
        (p + q) * (r + t) == p * r + p * t + q * r + q * t,
{
    assert((p + q) * (r + t) == p * r + p * t + q * r + q * t) by (nonlinear_arith);
}

/// Turning two ways keeps what they span, but for the scale.
proof fn lemma_turned_span(cos: int, sin: int, a1: int, b1: int, a2: int, b2: int)
    ensures
        (a1 * sin + b1 * cos) * (a2 * cos - b2 * sin) - (a1 * cos - b1 * sin) * (a2 * sin + b2
            * cos) == (b1 * a2 - a1 * b2) * (sin * sin + cos * cos),
{
    lemma_expand(a1, sin, b1, cos, a2, cos, -b2, sin);
    lemma_expand(a1, cos, -b1, sin, a2, sin, b2, cos);
    assert((-b2) * sin == -(b2 * sin) && (-b1) * sin == -(b1 * sin)) by (nonlinear_arith);
    let (sc, ss, cc) = (sin * cos, sin * sin, cos * cos);
    assert(cos * sin == sc) by (nonlinear_arith)
        requires
            sc == sin * cos,
    ;
    let (aa, ab, ba, bb) = (a1 * a2, a1 * b2, b1 * a2, b1 * b2);
    assert(a1 * (-b2) == -ab && b1 * (-b2) == -bb && (-b1) * a2 == -ba && (-b1) * b2 == -bb)
        by (nonlinear_arith)
        requires
            ab == a1 * b2,
            bb == b1 * b2,
            ba == b1 * a2,
    ;
    assert((-ab) * ss == -(ab * ss) && (-bb) * sc == -(bb * sc) && (-ba) * ss == -(ba * ss))
        by (nonlinear_arith);
    assert((ba - ab) * (ss + cc) == ba * ss + ba * cc - ab * ss - ab * cc) by (nonlinear_arith);
}

/// Two ways that are nearly turned by an angle span nearly what they spanned
/// before.
proof fn lemma_span(
    cos: int,
    sin: int,
    one: int,
    e: int,
    a1: int,
    b1: int,
    a2: int,
    b2: int,
    xu: int,
    yu: int,
    xv: int,
    yv: int,
)
    requires
        one > 0,
        e >= 0,
        -one <= cos <= one,
        -one <= sin <= one,
        one * one <= 2 * (sin * sin + cos * cos),
        -(e * one) <= xu - (a1 * cos - b1 * sin) <= e * one,
        -(e * one) <= yu - (a1 * sin + b1 * cos) <= e * one,
        -(e * one) <= xv - (a2 * cos - b2 * sin) <= e * one,
        -(e * one) <= yv - (a2 * sin + b2 * cos) <= e * one,
        b1 * a2 - a1 * b2 > 4 * e * (number::magnitude_of(a1) + number::magnitude_of(b1)
            + number::magnitude_of(a2) + number::magnitude_of(b2)) + 4 * (e * e),
    ensures
        yu * xv - xu * yv > 0,
{
    let p1 = number::magnitude_of(a1) as int;
    let q1 = number::magnitude_of(b1) as int;
    let p2 = number::magnitude_of(a2) as int;
    let q2 = number::magnitude_of(b2) as int;
    let (x1, y1) = (a1 * cos - b1 * sin, a1 * sin + b1 * cos);
    let (x2, y2) = (a2 * cos - b2 * sin, a2 * sin + b2 * cos);
    let (du, dv) = ((xu - x1, yu - y1), (xv - x2, yv - y2));
    let span = b1 * a2 - a1 * b2;
    let unit = one * one;
    lemma_size(a1, cos, p1, one);
    lemma_size(b1, sin, q1, one);
    lemma_size(a1, sin, p1, one);
    lemma_size(b1, cos, q1, one);
    lemma_size(a2, cos, p2, one);
    lemma_size(b2, sin, q2, one);
    lemma_size(a2, sin, p2, one);
    lemma_size(b2, cos, q2, one);
    let t1 = (p1 + q1) * one;
    let t2 = (p2 + q2) * one;
    assert(t1 == p1 * one + q1 * one && t2 == p2 * one + q2 * one) by (nonlinear_arith)
        requires
            t1 == (p1 + q1) * one,
            t2 == (p2 + q2) * one,
    ;
    assert(e * one >= 0 && t1 >= 0 && t2 >= 0) by (nonlinear_arith)
        requires
            e >= 0,
            one > 0,
            p1 >= 0,
            q1 >= 0,
            p2 >= 0,
            q2 >= 0,
            t1 == (p1 + q1) * one,
            t2 == (p2 + q2) * one,
    ;
    let eo = e * one;
    lemma_size(du.1, x2, eo, t2);
    lemma_size(y1, dv.0, t1, eo);
    lemma_size(du.1, dv.0, eo, eo);
    lemma_size(du.0, y2, eo, t2);
    lemma_size(x1, dv.1, t1, eo);
    lemma_size(du.0, dv.1, eo, eo);
    let square = sin * sin + cos * cos;
    lemma_turned_span(cos, sin, a1, b1, a2, b2);
    lemma_product_of_sums(y1, du.1, x2, dv.0);
    lemma_product_of_sums(x1, du.0, y2, dv.1);
    assert(yu == y1 + du.1 && xv == x2 + dv.0 && xu == x1 + du.0 && yv == y2 + dv.1);
    let total = p1 + q1 + p2 + q2;
    assert(eo * t2 + t1 * eo == (e * total) * unit && eo * eo == (e * e) * unit) by (nonlinear_arith)
        requires
            eo == e * one,
            t1 == (p1 + q1) * one,
            t2 == (p2 + q2) * one,
            total == p1 + q1 + p2 + q2,
            unit == one * one,
    ;
    let et = e * total;
    let ee = e * e;
    assert(4 * e * (number::magnitude_of(a1) + number::magnitude_of(b1)
            + number::magnitude_of(a2) + number::magnitude_of(b2)) == 4 * et) by (nonlinear_arith)
        requires
            et == e * total,
            total == number::magnitude_of(a1) + number::magnitude_of(b1)
            + number::magnitude_of(a2) + number::magnitude_of(b2),
    ;
    assert(et >= 0 && ee >= 0) by (nonlinear_arith)
        requires
            e >= 0,
            total >= 0,
            et == e * total,
            ee == e * e,
    ;
    assert(span > 4 * et + 4 * ee);
    assert(2 * (span * square) >= span * unit) by (nonlinear_arith)
        requires
            span > 0,
            unit <= 2 * square,
    ;
    assert(span * unit > (4 * et + 4 * ee) * unit) by (nonlinear_arith)
        requires
            span > 4 * et + 4 * ee,
            unit == one * one,
            one > 0,
    ;
    assert((4 * et + 4 * ee) * unit == 4 * (et * unit) + 4 * (ee * unit)) by (nonlinear_arith);
    assert(t1 * eo == eo * t1) by (nonlinear_arith);
}

/// The one is beyond the other by more than rounding can take away.
pub open spec fn beyond(low: Binary64, high: Binary64) -> bool {
    high.value() - low.value() >= pow2(1050)
}

/// How far two turned places lie apart.
pub proof fn lemma_apart(
    heading: Bearing,
    along: Binary64,
    across: Binary64,
    far_along: Binary64,
    far_across: Binary64,
)
    requires
        is_direction(heading),
        in_reach(along),
        in_reach(across),
        in_reach(far_along),
        in_reach(far_across),
    ensures
        ({
            let one = Binary64::one() as int;
            let (s, c) = (heading.sin.value(), heading.cos.value());
            let a = far_along.value() - along.value();
            let b = far_across.value() - across.value();
            let x = heading.north(far_along, far_across).value() - heading.north(
                along,
                across,
            ).value();
            let y = heading.east(far_along, far_across).value() - heading.east(
                along,
                across,
            ).value();
            let e = pow2(1046) as int;
            &&& -(e * one) <= x * one - (a * c - b * s) <= e * one
            &&& -(e * one) <= y * one - (a * s + b * c) <= e * one
        }),
{
    let one = Binary64::one() as int;
    let (s, c) = (heading.sin.value(), heading.cos.value());
    let (p, q) = (along.value(), across.value());
    let (p2, q2) = (far_along.value(), far_across.value());
    let (n, m) = (heading.north(along, across).value(), heading.east(along, across).value());
    let (n2, m2) = (
        heading.north(far_along, far_across).value(),
        heading.east(far_along, far_across).value(),
    );
    lemma_place(heading, along, across);
    lemma_place(heading, far_along, far_across);
    lemma_pow2_adds(1045, 1);
    lemma2_to64();
    let e = pow2(1045) as int;
    assert((2 * e) * one == 2 * (e * one)) by (nonlinear_arith);
    lemma_difference_of_products(n2, n, one);
    lemma_difference_of_products(m2, m, one);
    lemma_difference_of_products(p2, p, c);
    lemma_difference_of_products(q2, q, s);
    lemma_difference_of_products(p2, p, s);
    lemma_difference_of_products(q2, q, c);
}

proof fn lemma_difference_of_products(a: int, b: int, c: int)
    ensures
        (a - b) * c == a * c - b * c,
{
    assert((a - b) * c == a * c - b * c) by (nonlinear_arith);
}

/// A strip drawn from its near left corner over the near right one faces up.
pub proof fn lemma_strip(
    anchor: Geodetic,
    heading: Bearing,
    near: Binary64,
    far: Binary64,
    left: Binary64,
    right: Binary64,
    lift: Binary64,
    paint: Rgb,
)
    requires
        is_direction(heading),
        in_reach(near),
        in_reach(far),
        in_reach(left),
        in_reach(right),
        beyond(near, far),
        beyond(left, right),
    ensures
        ({
            let a = SurfaceVertex::ahead(anchor, heading, near, left, lift, paint);
            let b = SurfaceVertex::ahead(anchor, heading, near, right, lift, paint);
            let c = SurfaceVertex::ahead(anchor, heading, far, right, lift, paint);
            let d = SurfaceVertex::ahead(anchor, heading, far, left, lift, paint);
            faces_up(a, b, c) && faces_up(a, c, d)
        }),
{
    let one = Binary64::one() as int;
    let unit = one * one;
    let (s, c) = (heading.sin.value(), heading.cos.value());
    let w = right.value() - left.value();
    let d = far.value() - near.value();
    let e = pow2(1046) as int;
    let (n0, e0) = (heading.north(near, left).value(), heading.east(near, left).value());
    let (n1, e1) = (
        heading.north(near, right).value() - n0,
        heading.east(near, right).value() - e0,
    );
    let (n2, e2) = (
        heading.north(far, right).value() - n0,
        heading.east(far, right).value() - e0,
    );
    let (n3, e3) = (heading.north(far, left).value() - n0, heading.east(far, left).value() - e0);
    lemma_apart(heading, near, left, near, right);
    lemma_apart(heading, near, left, far, right);
    lemma_apart(heading, near, left, far, left);
    lemma_pow2_pos(1074);
    lemma_pow2_pos(1046);
    lemma_pow2_adds(1046, 4);
    lemma2_to64();
    assert(w * d > 4 * e * (0 + w + d + w) + 4 * (e * e) && w * d > 4 * e * (d + w + d + 0) + 4
        * (e * e)) by (nonlinear_arith)
        requires
            w >= 16 * e,
            d >= 16 * e,
            e > 0,
    {
        assert(w * d >= (16 * e) * d);
        assert(w * d >= w * (16 * e));
        assert((16 * e) * d >= (16 * e) * (16 * e));
        assert(4 * e * (0 + w + d + w) == 8 * (e * w) + 4 * (e * d));
        assert(4 * e * (d + w + d + 0) == 8 * (e * d) + 4 * (e * w));
        assert(w * (16 * e) == 16 * (e * w));
        assert((16 * e) * d == 16 * (e * d));
        assert((16 * e) * (16 * e) == 256 * (e * e));
        assert(e * e > 0);
    }
    assert(w * d - 0 * w == w * d && w * d - d * 0 == w * d);
    lemma_span(c, s, one, e, 0, w, d, w, n1 * one, e1 * one, n2 * one, e2 * one);
    lemma_span(c, s, one, e, d, w, d, 0, n2 * one, e2 * one, n3 * one, e3 * one);
    lemma_unscale(n1, e1, n2, e2, one);
    lemma_unscale(n2, e2, n3, e3, one);
}

proof fn lemma_unscale(n1: int, e1: int, n2: int, e2: int, one: int)
    requires
        one > 0,
        (e1 * one) * (n2 * one) - (n1 * one) * (e2 * one) > 0,
    ensures
        e1 * n2 - n1 * e2 > 0,
{
    let span = e1 * n2 - n1 * e2;
    let unit = one * one;
    assert((e1 * one) * (n2 * one) == (e1 * n2) * unit) by (nonlinear_arith)
        requires
            unit == one * one,
    ;
    assert((n1 * one) * (e2 * one) == (n1 * e2) * unit) by (nonlinear_arith)
        requires
            unit == one * one,
    ;
    lemma_difference_of_products(e1 * n2, n1 * e2, unit);
    assert(span > 0) by (nonlinear_arith)
        requires
            span * unit > 0,
            unit == one * one,
            one > 0,
    ;
}

/// Small numbers are in reach.
pub proof fn lemma_small_in_reach(x: Binary64, m: int)
    requires
        near::sized(x, m),
        0 <= m <= 0x100000,
    ensures
        in_reach(x),
{
    let one = Binary64::one() as int;
    near::lemma_grain();
    assert(m * one <= 0x100000 * one) by (nonlinear_arith)
        requires
            m <= 0x100000,
            one > 0,
    ;
}

/// A quad of a strip keeps it so that all face up.
pub proof fn lemma_with_strip(
    m: MeshView<SurfaceVertex>,
    anchor: Geodetic,
    heading: Bearing,
    near: Binary64,
    far: Binary64,
    left: Binary64,
    right: Binary64,
    lift: Binary64,
    paint: Rgb,
)
    requires
        m.well_formed(),
        all_face_up(m),
        is_direction(heading),
        in_reach(near),
        in_reach(far),
        in_reach(left),
        in_reach(right),
        beyond(near, far),
        beyond(left, right),
    ensures
        all_face_up(
            m.with_quad(
                SurfaceVertex::ahead(anchor, heading, near, left, lift, paint),
                SurfaceVertex::ahead(anchor, heading, near, right, lift, paint),
                SurfaceVertex::ahead(anchor, heading, far, right, lift, paint),
                SurfaceVertex::ahead(anchor, heading, far, left, lift, paint),
                false,
            ),
        ),
{
    lemma_strip(anchor, heading, near, far, left, right, lift, paint);
    lemma_with_quad(
        m,
        SurfaceVertex::ahead(anchor, heading, near, left, lift, paint),
        SurfaceVertex::ahead(anchor, heading, near, right, lift, paint),
        SurfaceVertex::ahead(anchor, heading, far, right, lift, paint),
        SurfaceVertex::ahead(anchor, heading, far, left, lift, paint),
    );
}

} // verus!
