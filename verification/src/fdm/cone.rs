//! The force of the ground in body axes lies within the friction cone.
use crate::binary64;
use crate::binary64::Binary64;
use crate::fdm::aero::BodyLoads;
use crate::fdm::aircraft::{LandingGearConfig, LandingGearLeg};
use crate::fdm::environment::Environment;
use crate::fdm::landing_gear;
use crate::fdm::landing_gear::{ContactPlane, LegMeasure};
use crate::fdm::state::{LocalFrame, RigidBodyState};
use crate::norm;
use crate::number;
use crate::rotation::DQuat;
use crate::rounding;
use crate::track;
use crate::vector::DVec3;
use vstd::arithmetic::power2::*;
use vstd::prelude::*;

verus! {

/// What a turn makes of three counts along one of the axes, without rounding.
pub open spec fn turned(q: DQuat, x: int, y: int, z: int, axis: int) -> int {
    let (a, b, c, w) = (q.x.value(), q.y.value(), q.z.value(), q.w.value());
    let keep = w * w - (a * a + b * b + c * c);
    let along = 2 * (x * a + y * b + z * c);
    if axis == 0 {
        x * keep + a * along + (b * z - y * c) * (2 * w)
    } else if axis == 1 {
        y * keep + b * along + (c * x - z * a) * (2 * w)
    } else {
        z * keep + c * along + (a * y - x * b) * (2 * w)
    }
}

/// One in a force that was turned, as the counts of a turn and of two more
/// factors come to.
pub open spec fn cube() -> int {
    let o = Binary64::one() as int;
    o * (o * o)
}

/// The parts of a turn are at most two.
pub open spec fn is_turn(q: DQuat) -> bool {
    &&& q.x.is_finite() && number::magnitude_of(q.x.value()) <= pow2(1075)
    &&& q.y.is_finite() && number::magnitude_of(q.y.value()) <= pow2(1075)
    &&& q.z.is_finite() && number::magnitude_of(q.z.value()) <= pow2(1075)
    &&& q.w.is_finite() && number::magnitude_of(q.w.value()) <= pow2(1075)
}

/// The vector as it is computed beside the counts that it stands for.
pub open spec fn follows(v: DVec3, x: int, y: int, z: int, scale: int, power: nat, digits: nat) -> bool {
    &&& track::tracked_by(v.x, x, scale, power, digits)
    &&& track::tracked_by(v.y, y, scale, power, digits)
    &&& track::tracked_by(v.z, z, scale, power, digits)
}

proof fn lemma_ones(o: int, s: int)
    ensures
        o * (1 * 1) == o,
        o * (s * 1) == o * s,
        o * (1 * s) == o * s,
        o * (s * o) == o * (o * s),
        o * (1 * (o * s)) == o * (o * s),
        o * ((o * s) * 1) == o * (o * s),
{
    assert(s * o == o * s && s * 1 == s && 1 * s == s && o * 1 == o) by (nonlinear_arith);
    let t = o * s;
    assert(t * 1 == t && 1 * t == t) by (nonlinear_arith);
}

/// What a turn keeps of a vector.
proof fn lemma_keep(q: DQuat)
    requires
        is_turn(q),
    ensures
        ({
            let b = DVec3 { x: q.x, y: q.y, z: q.z };
            track::tracked_by(
                q.w * q.w - b.dot(b),
                q.w.value() * q.w.value() - (q.x.value() * q.x.value() + q.y.value() * q.y.value()
                    + q.z.value() * q.z.value()),
                Binary64::one() as int,
                1083,
                50,
            )
        }),
{
    let o = Binary64::one() as int;
    let b = DVec3 { x: q.x, y: q.y, z: q.z };
    let (x, y, z, w) = (q.x.value(), q.y.value(), q.z.value(), q.w.value());
    lemma_ones(o, 1);
    track::lemma_itself(q.x, 1075, 51);
    track::lemma_itself(q.y, 1075, 51);
    track::lemma_itself(q.z, 1075, 51);
    track::lemma_itself(q.w, 1075, 51);
    track::lemma_times(q.x, q.x, x, x, 1, 1, 1075, 1075, 51);
    track::lemma_times(q.y, q.y, y, y, 1, 1, 1075, 1075, 51);
    track::lemma_times(q.z, q.z, z, z, 1, 1, 1075, 1075, 51);
    track::lemma_times(q.w, q.w, w, w, 1, 1, 1075, 1075, 51);
    track::lemma_plus(q.x * q.x, q.y * q.y, x * x, y * y, o, 1077, 50);
    track::lemma_looser(q.z * q.z, z * z, o, 1077, 50, 1079, 50);
    track::lemma_plus(q.x * q.x + q.y * q.y, q.z * q.z, x * x + y * y, z * z, o, 1079, 50);
    track::lemma_looser(q.w * q.w, w * w, o, 1077, 50, 1081, 50);
    track::lemma_minus(q.w * q.w, b.dot(b), w * w, x * x + y * y + z * z, o, 1081, 50);
}

/// How far a vector goes along a turn's axis, twice.
proof fn lemma_along(q: DQuat, v: DVec3, x: int, y: int, z: int, s: int, h: nat)
    requires
        is_turn(q),
        100 <= h <= 1800,
        follows(v, x, y, z, s, h, 50),
    ensures
        ({
            let b = DVec3 { x: q.x, y: q.y, z: q.z };
            track::tracked_by(
                v.dot(b) * Binary64::of(2),
                2 * (x * q.x.value() + y * q.y.value() + z * q.z.value()),
                Binary64::one() * s,
                h + 8,
                48,
            )
        }),
{
    let o = Binary64::one() as int;
    let b = DVec3 { x: q.x, y: q.y, z: q.z };
    let (p, q_, r) = (q.x.value(), q.y.value(), q.z.value());
    lemma_ones(o, s);
    track::lemma_itself(q.x, 1075, 50);
    track::lemma_itself(q.y, 1075, 50);
    track::lemma_itself(q.z, 1075, 50);
    track::lemma_times(v.x, q.x, x, p, s, 1, h, 1075, 50);
    track::lemma_times(v.y, q.y, y, q_, s, 1, h, 1075, 50);
    track::lemma_times(v.z, q.z, z, r, s, 1, h, 1075, 50);
    assert((h + 1075 - 1073) as nat == h + 2);
    let t = o * s;
    track::lemma_plus(v.x * q.x, v.y * q.y, x * p, y * q_, t, h + 2, 49);
    track::lemma_looser(v.z * q.z, z * r, t, h + 2, 49, h + 4, 49);
    track::lemma_plus(v.x * q.x + v.y * q.y, v.z * q.z, x * p + y * q_, z * r, t, h + 4, 49);
    track::lemma_twice(v.dot(b), x * p + y * q_ + z * r, t, h + 6, 49);
}

/// One axis of a turned vector.
proof fn lemma_axis(
    v0: Binary64,
    b0: Binary64,
    keep: Binary64,
    along: Binary64,
    b1: Binary64,
    v2: Binary64,
    v1: Binary64,
    b2: Binary64,
    w: Binary64,
    x0: int,
    x1: int,
    x2: int,
    true_keep: int,
    true_along: int,
    s: int,
    h: nat,
)
    requires
        100 <= h <= 1800,
        b0.is_finite() && number::magnitude_of(b0.value()) <= pow2(1075),
        b1.is_finite() && number::magnitude_of(b1.value()) <= pow2(1075),
        b2.is_finite() && number::magnitude_of(b2.value()) <= pow2(1075),
        w.is_finite() && number::magnitude_of(w.value()) <= pow2(1075),
        track::tracked_by(v0, x0, s, h, 50),
        track::tracked_by(v1, x1, s, h, 50),
        track::tracked_by(v2, x2, s, h, 50),
        track::tracked_by(keep, true_keep, Binary64::one() as int, 1083, 50),
        track::tracked_by(along, true_along, Binary64::one() * s, h + 8, 48),
    ensures
        track::tracked_by(
            v0 * keep + b0 * along + (b1 * v2 - v1 * b2) * (w * Binary64::of(2)),
            x0 * true_keep + b0.value() * true_along + (b1.value() * x2 - x1 * b2.value()) * (2
                * w.value()),
            Binary64::one() * (Binary64::one() * s),
            h + 14,
            47,
        ),
{
    let o = Binary64::one() as int;
    let (c0, c1, c2, cw) = (b0.value(), b1.value(), b2.value(), w.value());
    let two = Binary64::of(2);
    let (t, u) = (o * s, o * (o * s));
    lemma_ones(o, s);
    track::lemma_times(v0, keep, x0, true_keep, s, o, h, 1083, 50);
    assert((h + 1083 - 1073) as nat == h + 10);
    track::lemma_itself(b0, 1075, 48);
    track::lemma_times(b0, along, c0, true_along, 1, t, 1075, h + 8, 48);
    assert((1075 + (h + 8) - 1073) as nat == h + 10);
    track::lemma_itself(b1, 1075, 50);
    track::lemma_itself(b2, 1075, 50);
    track::lemma_times(b1, v2, c1, x2, 1, s, 1075, h, 50);
    track::lemma_times(v1, b2, x1, c2, s, 1, h, 1075, 50);
    assert((1075 + h - 1073) as nat == h + 2 && (h + 1075 - 1073) as nat == h + 2);
    track::lemma_minus(b1 * v2, v1 * b2, c1 * x2, x1 * c2, t, h + 2, 49);
    track::lemma_itself(w, 1075, 51);
    track::lemma_twice(w, cw, 1, 1075, 51);
    track::lemma_looser(w * two, 2 * cw, 1, 1077, 50, 1077, 49);
    let cross = c1 * x2 - x1 * c2;
    track::lemma_times(b1 * v2 - v1 * b2, w * two, cross, 2 * cw, t, 1, h + 4, 1077, 49);
    assert((h + 4 + 1077 - 1073) as nat == h + 8);
    track::lemma_looser(v0 * keep, x0 * true_keep, u, h + 10, 49, h + 10, 47);
    track::lemma_plus(v0 * keep, b0 * along, x0 * true_keep, c0 * true_along, u, h + 10, 47);
    track::lemma_looser(
        (b1 * v2 - v1 * b2) * (w * two),
        cross * (2 * cw),
        u,
        h + 8,
        48,
        h + 12,
        47,
    );
    track::lemma_plus(
        v0 * keep + b0 * along,
        (b1 * v2 - v1 * b2) * (w * two),
        x0 * true_keep + c0 * true_along,
        cross * (2 * cw),
        u,
        h + 12,
        47,
    );
}

/// A turned vector as it is computed follows the true one.
pub proof fn lemma_turn(q: DQuat, v: DVec3, x: int, y: int, z: int, s: int, h: nat)
    requires
        is_turn(q),
        100 <= h <= 1800,
        follows(v, x, y, z, s, h, 50),
    ensures
        follows(
            q.rotate(v),
            turned(q, x, y, z, 0),
            turned(q, x, y, z, 1),
            turned(q, x, y, z, 2),
            Binary64::one() * (Binary64::one() * s),
            h + 14,
            47,
        ),
{
    let b = DVec3 { x: q.x, y: q.y, z: q.z };
    let (a, c, e, w) = (q.x.value(), q.y.value(), q.z.value(), q.w.value());
    let keep = q.w * q.w - b.dot(b);
    let along = v.dot(b) * Binary64::of(2);
    let true_keep = w * w - (a * a + c * c + e * e);
    let true_along = 2 * (x * a + y * c + z * e);
    lemma_keep(q);
    lemma_along(q, v, x, y, z, s, h);
    lemma_axis(
        v.x,
        b.x,
        keep,
        along,
        b.y,
        v.z,
        v.y,
        b.z,
        q.w,
        x,
        y,
        z,
        true_keep,
        true_along,
        s,
        h,
    );
    lemma_axis(
        v.y,
        b.y,
        keep,
        along,
        b.z,
        v.x,
        v.z,
        b.x,
        q.w,
        y,
        z,
        x,
        true_keep,
        true_along,
        s,
        h,
    );
    lemma_axis(
        v.z,
        b.z,
        keep,
        along,
        b.x,
        v.y,
        v.x,
        b.y,
        q.w,
        z,
        x,
        y,
        true_keep,
        true_along,
        s,
        h,
    );
}

/// The square of a sum of three shares.
proof fn lemma_square_of_three(v: int, b: int, c: int, k: int, m: int, n: int)
    ensures
        ({
            let r = v * k + b * m + c * n;
            r * r == (v * v) * (k * k) + (b * b) * (m * m) + (c * c) * (n * n) + 2 * ((v * b) * (k
                * m)) + 2 * ((v * c) * (k * n)) + 2 * ((b * c) * (m * n))
        }),
{
    let (p, q, r) = (v * k, b * m, c * n);
    let sum = p + q + r;
    assert(sum * sum == p * p + q * q + r * r + 2 * (p * q) + 2 * (p * r) + 2 * (q * r))
        by (nonlinear_arith)
        requires
            sum == p + q + r,
    ;
    lemma_regroup(v, k, v, k);
    lemma_regroup(b, m, b, m);
    lemma_regroup(c, n, c, n);
    lemma_regroup(v, k, b, m);
    lemma_regroup(v, k, c, n);
    lemma_regroup(b, m, c, n);
}

proof fn lemma_regroup(a: int, b: int, c: int, d: int)
    ensures
        (a * b) * (c * d) == (a * c) * (b * d),
{
    assert((a * b) * (c * d) == (a * c) * (b * d)) by (nonlinear_arith);
}

/// A cross product stands upright on both of its factors.
pub proof fn lemma_upright(a: int, b: int, c: int, x: int, y: int, z: int)
    ensures
        x * (b * z - y * c) + y * (c * x - z * a) + z * (a * y - x * b) == 0,
        a * (b * z - y * c) + b * (c * x - z * a) + c * (a * y - x * b) == 0,
{
    assert(x * (b * z - y * c) == b * (x * z) - c * (x * y)) by (nonlinear_arith);
    assert(y * (c * x - z * a) == c * (x * y) - a * (y * z)) by (nonlinear_arith);
    assert(z * (a * y - x * b) == a * (y * z) - b * (x * z)) by (nonlinear_arith);
    assert(a * (b * z - y * c) == z * (a * b) - y * (a * c)) by (nonlinear_arith);
    assert(b * (c * x - z * a) == x * (b * c) - z * (a * b)) by (nonlinear_arith);
    assert(c * (a * y - x * b) == y * (a * c) - x * (b * c)) by (nonlinear_arith);
}

/// The squares of a cross product and of a dot product make up the whole.
pub proof fn lemma_lagrange(a: int, b: int, c: int, x: int, y: int, z: int)
    ensures
        ({
            let (p, q, r) = (b * z - y * c, c * x - z * a, a * y - x * b);
            let d = x * a + y * b + z * c;
            p * p + q * q + r * r == (a * a + b * b + c * c) * (x * x + y * y + z * z) - d * d
        }),
{
    let (p, q, r) = (b * z - y * c, c * x - z * a, a * y - x * b);
    let d = x * a + y * b + z * c;
    let (e, f, g) = (x * a, y * b, z * c);
    assert(d * d == e * e + f * f + g * g + 2 * (e * f) + 2 * (e * g) + 2 * (f * g))
        by (nonlinear_arith)
        requires
            d == e + f + g,
    ;
    lemma_square_of_difference(b * z, y * c, p);
    lemma_square_of_difference(c * x, z * a, q);
    lemma_square_of_difference(a * y, x * b, r);
    let (aa, bb, cc, xx, yy, zz) = (a * a, b * b, c * c, x * x, y * y, z * z);
    assert((aa + bb + cc) * (xx + yy + zz) == aa * xx + aa * yy + aa * zz + bb * xx + bb * yy + bb
        * zz + cc * xx + cc * yy + cc * zz) by (nonlinear_arith);
    lemma_regroup(b, z, b, z);
    lemma_regroup(y, c, y, c);
    lemma_regroup(c, x, c, x);
    lemma_regroup(z, a, z, a);
    lemma_regroup(a, y, a, y);
    lemma_regroup(x, b, x, b);
    lemma_regroup(x, a, x, a);
    lemma_regroup(y, b, y, b);
    lemma_regroup(z, c, z, c);
    assert((b * z) * (y * c) == f * g) by (nonlinear_arith)
        requires
            f == y * b,
            g == z * c,
    ;
    assert((c * x) * (z * a) == e * g) by (nonlinear_arith)
        requires
            e == x * a,
            g == z * c,
    ;
    assert((a * y) * (x * b) == e * f) by (nonlinear_arith)
        requires
            e == x * a,
            f == y * b,
    ;
    assert(yy * cc == cc * yy && zz * aa == aa * zz && xx * bb == bb * xx && xx * aa == aa * xx && yy
        * bb == bb * yy && zz * cc == cc * zz) by (nonlinear_arith);
}

proof fn lemma_square_of_difference(a: int, b: int, d: int)
    requires
        d == a - b,
    ensures
        d * d == a * a + b * b - 2 * (a * b),
{
    assert(d * d == a * a + b * b - 2 * (a * b)) by (nonlinear_arith)
        requires
            d == a - b,
    ;
}

/// A turn scales the square of every length alike.
pub proof fn lemma_turned_length(q: DQuat, x: int, y: int, z: int)
    ensures
        ({
            let l = norm::length_squared(q.to_vec4());
            let (a, b, c) = (turned(q, x, y, z, 0), turned(q, x, y, z, 1), turned(q, x, y, z, 2));
            a * a + b * b + c * c == (l * l) * (x * x + y * y + z * z)
        }),
{
    let (a, b, c, w) = (q.x.value(), q.y.value(), q.z.value(), q.w.value());
    let (p, r, s) = (b * z - y * c, c * x - z * a, a * y - x * b);
    let bb = a * a + b * b + c * c;
    let vv = x * x + y * y + z * z;
    let cc = p * p + r * r + s * s;
    let ww = w * w;
    let d = x * a + y * b + z * c;
    let (k, m, n) = (ww - bb, 2 * d, 2 * w);
    lemma_square_of_three(x, a, p, k, m, n);
    lemma_square_of_three(y, b, r, k, m, n);
    lemma_square_of_three(z, c, s, k, m, n);
    lemma_upright(a, b, c, x, y, z);
    lemma_lagrange(a, b, c, x, y, z);
    lemma_shared(x * x, y * y, z * z, k * k);
    lemma_shared(a * a, b * b, c * c, m * m);
    lemma_shared(p * p, r * r, s * s, n * n);
    lemma_shared(x * a, y * b, z * c, k * m);
    lemma_shared(x * p, y * r, z * s, k * n);
    lemma_shared(a * p, b * r, c * s, m * n);
    assert(0 * (k * n) == 0 && 0 * (m * n) == 0);
    let whole = vv * (k * k) + bb * (m * m) + cc * (n * n) + 2 * (d * (k * m));
    lemma_whole(vv, bb, ww, d, w, k, m, n, cc);
}

proof fn lemma_shared(a: int, b: int, c: int, k: int)
    ensures
        a * k + b * k + c * k == (a + b + c) * k,
{
    assert(a * k + b * k + c * k == (a + b + c) * k) by (nonlinear_arith);
}

proof fn lemma_whole(vv: int, bb: int, ww: int, d: int, w: int, k: int, m: int, n: int, cc: int)
    requires
        ww == w * w,
        k == ww - bb,
        m == 2 * d,
        n == 2 * w,
        cc == bb * vv - d * d,
    ensures
        vv * (k * k) + bb * (m * m) + cc * (n * n) + 2 * (d * (k * m)) == ((bb + ww) * (bb + ww)) * vv,
{
    let dd = d * d;
    assert(m * m == 4 * dd) by (nonlinear_arith)
        requires
            m == 2 * d,
            dd == d * d,
    ;
    assert(n * n == 4 * ww) by (nonlinear_arith)
        requires
            n == 2 * w,
            ww == w * w,
    ;
    assert(d * (k * m) == 2 * (k * dd)) by (nonlinear_arith)
        requires
            m == 2 * d,
            dd == d * d,
    ;
    assert(k * k == ww * ww - 2 * (ww * bb) + bb * bb) by (nonlinear_arith)
        requires
            k == ww - bb,
    ;
    assert((bb + ww) * (bb + ww) == ww * ww + 2 * (ww * bb) + bb * bb) by (nonlinear_arith);
    let (kk, s, t) = (k * k, (bb + ww) * (bb + ww), ww * bb);
    assert(s == kk + 4 * t);
    assert(s * vv == kk * vv + 4 * (t * vv)) by (nonlinear_arith)
        requires
            s == kk + 4 * t,
    ;
    assert(vv * kk == kk * vv) by (nonlinear_arith);
    assert(bb * (4 * dd) == 4 * (bb * dd)) by (nonlinear_arith);
    assert(cc * (4 * ww) == 4 * (t * vv) - 4 * (ww * dd)) by (nonlinear_arith)
        requires
            cc == bb * vv - dd,
            t == ww * bb,
    {
        assert((bb * vv - dd) * (4 * ww) == 4 * ((bb * vv) * ww) - 4 * (dd * ww)) by (nonlinear_arith);
        assert((bb * vv) * ww == (ww * bb) * vv) by (nonlinear_arith);
        assert(dd * ww == ww * dd) by (nonlinear_arith);
    }
    assert(k * dd == ww * dd - bb * dd) by (nonlinear_arith)
        requires
            k == ww - bb,
    ;
}

/// A turn of a sum is the sum of the turns.
proof fn lemma_turned_sum(q: DQuat, x: int, y: int, z: int, p: int, r: int, s: int, axis: int)
    ensures
        turned(q, x + p, y + r, z + s, axis) == turned(q, x, y, z, axis) + turned(q, p, r, s, axis),
{
    let (a, b, c, w) = (q.x.value(), q.y.value(), q.z.value(), q.w.value());
    let keep = w * w - (a * a + b * b + c * c);
    let (e, f) = (2 * (x * a + y * b + z * c), 2 * (p * a + r * b + s * c));
    lemma_shares(x, p, a);
    lemma_shares(y, r, b);
    lemma_shares(z, s, c);
    let along = 2 * ((x + p) * a + (y + r) * b + (z + s) * c);
    assert(along == e + f);
    lemma_axis_sum(x, p, keep, a, e, f, b, z, s, y, r, c, 2 * w);
    lemma_axis_sum(y, r, keep, b, e, f, c, x, p, z, s, a, 2 * w);
    lemma_axis_sum(z, s, keep, c, e, f, a, y, r, x, p, b, 2 * w);
}

proof fn lemma_shares(x: int, y: int, k: int)
    ensures
        (x + y) * k == x * k + y * k,
{
    assert((x + y) * k == x * k + y * k) by (nonlinear_arith);
}

proof fn lemma_axis_sum(
    x: int,
    p: int,
    keep: int,
    a: int,
    e: int,
    f: int,
    b: int,
    z: int,
    s: int,
    y: int,
    r: int,
    c: int,
    n: int,
)
    ensures
        (x + p) * keep + a * (e + f) + (b * (z + s) - (y + r) * c) * n == (x * keep + a * e + (b * z
            - y * c) * n) + (p * keep + a * f + (b * s - r * c) * n),
{
    lemma_shares(x, p, keep);
    assert(a * (e + f) == a * e + a * f) by (nonlinear_arith);
    assert(b * (z + s) == b * z + b * s) by (nonlinear_arith);
    lemma_shares(y, r, c);
    lemma_shares(b * z - y * c, b * s - r * c, n);
}

/// A turn of a multiple is the multiple of the turn.
pub proof fn lemma_turned_multiple(q: DQuat, x: int, y: int, z: int, m: int, axis: int)
    ensures
        turned(q, x * m, y * m, z * m, axis) == m * turned(q, x, y, z, axis),
{
    let (a, b, c, w) = (q.x.value(), q.y.value(), q.z.value(), q.w.value());
    let keep = w * w - (a * a + b * b + c * c);
    let e = 2 * (x * a + y * b + z * c);
    let along = 2 * ((x * m) * a + (y * m) * b + (z * m) * c);
    assert(along == m * e) by (nonlinear_arith)
        requires
            e == 2 * (x * a + y * b + z * c),
            along == 2 * ((x * m) * a + (y * m) * b + (z * m) * c),
    {
        assert((x * m) * a == m * (x * a)) by (nonlinear_arith);
        assert((y * m) * b == m * (y * b)) by (nonlinear_arith);
        assert((z * m) * c == m * (z * c)) by (nonlinear_arith);
        let (i, j, k) = (x * a, y * b, z * c);
        assert(m * (2 * (i + j + k)) == 2 * (m * i + m * j + m * k)) by (nonlinear_arith);
    }
    lemma_axis_multiple(x, keep, a, e, b, z, y, c, 2 * w, m);
    lemma_axis_multiple(y, keep, b, e, c, x, z, a, 2 * w, m);
    lemma_axis_multiple(z, keep, c, e, a, y, x, b, 2 * w, m);
}

proof fn lemma_axis_multiple(
    x: int,
    keep: int,
    a: int,
    e: int,
    b: int,
    z: int,
    y: int,
    c: int,
    n: int,
    m: int,
)
    ensures
        (x * m) * keep + a * (m * e) + (b * (z * m) - (y * m) * c) * n == m * (x * keep + a * e + (b
            * z - y * c) * n),
{
    assert((x * m) * keep == m * (x * keep)) by (nonlinear_arith);
    assert(a * (m * e) == m * (a * e)) by (nonlinear_arith);
    assert(b * (z * m) == m * (b * z) && (y * m) * c == m * (y * c)) by (nonlinear_arith);
    let (f, g) = (b * z, y * c);
    assert((m * f - m * g) * n == m * ((f - g) * n)) by (nonlinear_arith);
    let (h, i, j) = (x * keep, a * e, (f - g) * n);
    assert(m * (h + i + j) == m * h + m * i + m * j) by (nonlinear_arith);
}

/// The force on a leg in earth-fixed axes follows the true one.
proof fn lemma_force(n: DVec3, f: DVec3, p: Binary64, has_ways: bool, k: nat, r: nat)
    requires
        100 <= k <= 1500,
        r <= 250,
        n.x.is_finite() && number::magnitude_of(n.x.value()) <= pow2(1075),
        n.y.is_finite() && number::magnitude_of(n.y.value()) <= pow2(1075),
        n.z.is_finite() && number::magnitude_of(n.z.value()) <= pow2(1075),
        f.x.is_finite() && number::magnitude_of(f.x.value()) <= pow2(1076 + r),
        f.y.is_finite() && number::magnitude_of(f.y.value()) <= pow2(1076 + r),
        f.z.is_finite() && number::magnitude_of(f.z.value()) <= pow2(1076 + r),
        p.is_finite() && number::magnitude_of(p.value()) <= pow2(k),
        !has_ways ==> f == DVec3::zero(),
    ensures
        ({
            let force = if has_ways {
                n.scaled(p).plus(f.scaled(p))
            } else {
                n.scaled(p)
            };
            let m = p.value();
            follows(
                force,
                n.x.value() * m + f.x.value() * m,
                n.y.value() * m + f.y.value() * m,
                n.z.value() * m + f.z.value() * m,
                Binary64::one() as int,
                k + r + 5,
                50,
            )
        }),
{
    lemma_force_part(n.x, f.x, p, k, r);
    lemma_force_part(n.y, f.y, p, k, r);
    lemma_force_part(n.z, f.z, p, k, r);
    if !has_ways {
        binary64::lemma_of(0);
        assert(0 * p.value() == 0);
    }
}

proof fn lemma_force_part(n: Binary64, f: Binary64, p: Binary64, k: nat, r: nat)
    requires
        100 <= k <= 1500,
        r <= 250,
        n.is_finite() && number::magnitude_of(n.value()) <= pow2(1075),
        f.is_finite() && number::magnitude_of(f.value()) <= pow2(1076 + r),
        p.is_finite() && number::magnitude_of(p.value()) <= pow2(k),
    ensures
        track::tracked_by(
            n * p + f * p,
            n.value() * p.value() + f.value() * p.value(),
            Binary64::one() as int,
            k + r + 5,
            50,
        ),
        track::tracked_by(n * p, n.value() * p.value(), Binary64::one() as int, k + r + 5, 50),
{
    let o = Binary64::one() as int;
    let (x, y, m) = (n.value(), f.value(), p.value());
    lemma_ones(o, 1);
    track::lemma_itself(n, 1075, 51);
    track::lemma_itself(f, 1076 + r, 51);
    track::lemma_itself(p, k, 51);
    track::lemma_times(n, p, x, m, 1, 1, 1075, k, 51);
    track::lemma_times(f, p, y, m, 1, 1, 1076 + r, k, 51);
    assert((1075 + k - 1073) as nat == k + 2 && (1076 + r + k - 1073) as nat == k + r + 3);
    track::lemma_looser(n * p, x * m, o, k + 2, 50, k + r + 3, 50);
    track::lemma_plus(n * p, f * p, x * m, y * m, o, k + r + 3, 50);
    track::lemma_looser(n * p, x * m, o, k + 2, 50, k + r + 5, 50);
}

/// What the ground pushes a leg with along its normal, in counts; nothing where
/// the leg does not touch.
pub open spec fn leg_push(
    plane: ContactPlane,
    state: RigidBodyState,
    environment: Environment,
    ground_frame: LocalFrame,
    leg: LandingGearLeg,
    measure: LegMeasure,
) -> int {
    let contact = landing_gear::contact_ecef(state, leg);
    let penetration = landing_gear::penetration_of(
        plane,
        environment,
        ground_frame,
        contact,
        measure.altitude,
    );
    let rate = landing_gear::contact_velocity(state, leg).dot(plane.normal).negate();
    match landing_gear::leg_force(plane, state, leg, penetration, measure.grip) {
        None => 0,
        Some(_) => landing_gear::normal_force_spec(leg, penetration, rate).value(),
    }
}

/// The friction of a leg per newton of its push; nothing where the nose has no
/// way along the ground.
pub open spec fn leg_friction(plane: ContactPlane, measure: LegMeasure) -> DVec3 {
    if plane.has_ways {
        landing_gear::friction_spec(plane, measure.grip)
    } else {
        DVec3::zero()
    }
}

/// What a leg adds to the force along one body axis, in counts and without
/// rounding.
spec fn share(q: DQuat, n: DVec3, f: DVec3, p: int, axis: int) -> int {
    turned(
        q,
        n.x.value() * p + f.x.value() * p,
        n.y.value() * p + f.y.value() * p,
        n.z.value() * p + f.z.value() * p,
        axis,
    )
}

proof fn lemma_no_share(q: DQuat, n: DVec3, f: DVec3)
    ensures
        share(q, n, f, 0, 0) == 0,
        share(q, n, f, 0, 1) == 0,
        share(q, n, f, 0, 2) == 0,
{
    lemma_turned_multiple(q, 0, 0, 0, 0, 0);
    lemma_turned_multiple(q, 0, 0, 0, 0, 1);
    lemma_turned_multiple(q, 0, 0, 0, 0, 2);
    assert(0 * turned(q, 0, 0, 0, 0) == 0);
    assert(0 * turned(q, 0, 0, 0, 1) == 0);
    assert(0 * turned(q, 0, 0, 0, 2) == 0);
    assert(n.x.value() * 0 + f.x.value() * 0 == 0);
    assert(n.y.value() * 0 + f.y.value() * 0 == 0);
    assert(n.z.value() * 0 + f.z.value() * 0 == 0);
    assert(0 * 0 == 0);
}

/// The force with one more leg follows the true one.
proof fn lemma_with_leg(
    loads: BodyLoads,
    plane: ContactPlane,
    state: RigidBodyState,
    environment: Environment,
    ground_frame: LocalFrame,
    leg: LandingGearLeg,
    measure: LegMeasure,
    x: int,
    y: int,
    z: int,
    k: nat,
    r: nat,
    step: nat,
)
    requires
        100 <= k <= 1500,
        r <= 250,
        step <= 4,
        is_turn(state.orientation.inverse()),
        plane.normal.x.is_finite() && number::magnitude_of(plane.normal.x.value()) <= pow2(1075),
        plane.normal.y.is_finite() && number::magnitude_of(plane.normal.y.value()) <= pow2(1075),
        plane.normal.z.is_finite() && number::magnitude_of(plane.normal.z.value()) <= pow2(1075),
        ({
            let f = leg_friction(plane, measure);
            &&& f.x.is_finite() && number::magnitude_of(f.x.value()) <= pow2(1076 + r)
            &&& f.y.is_finite() && number::magnitude_of(f.y.value()) <= pow2(1076 + r)
            &&& f.z.is_finite() && number::magnitude_of(f.z.value()) <= pow2(1076 + r)
        }),
        leg_push(plane, state, environment, ground_frame, leg, measure) <= pow2(k),
        follows(
            loads.force,
            x,
            y,
            z,
            cube(),
            k + r + 19 + step,
            47,
        ),
    ensures
        ({
            let q = state.orientation.inverse();
            let f = leg_friction(plane, measure);
            let p = leg_push(plane, state, environment, ground_frame, leg, measure);
            let more = landing_gear::with_leg(
                loads,
                plane,
                state,
                environment,
                ground_frame,
                leg,
                measure,
            );
            &&& p >= 0
            &&& follows(
                more.force,
                x + share(q, plane.normal, f, p, 0),
                y + share(q, plane.normal, f, p, 1),
                z + share(q, plane.normal, f, p, 2),
                cube(),
                k + r + 21 + step,
                47,
            )
        }),
{
    let o = Binary64::one() as int;
    let t = o * (o * o);
    let q = state.orientation.inverse();
    let f = leg_friction(plane, measure);
    let contact = landing_gear::contact_ecef(state, leg);
    let penetration = landing_gear::penetration_of(
        plane,
        environment,
        ground_frame,
        contact,
        measure.altitude,
    );
    let rate = landing_gear::contact_velocity(state, leg).dot(plane.normal).negate();
    let push = landing_gear::normal_force_spec(leg, penetration, rate);
    let from = k + r + 19 + step;
    match landing_gear::leg_force(plane, state, leg, penetration, measure.grip) {
        None => {
            lemma_no_share(q, plane.normal, f);
            track::lemma_looser(loads.force.x, x, t, from, 47, from + 2, 47);
            track::lemma_looser(loads.force.y, y, t, from, 47, from + 2, 47);
            track::lemma_looser(loads.force.z, z, t, from, 47, from + 2, 47);
        },
        Some(force) => {
            let p = push.value();
            binary64::lemma_of(0);
            binary64::lemma_order(push, Binary64::of(0));
            assert(p > 0);
            lemma_force(plane.normal, f, push, plane.has_ways, k, r);
            let n = plane.normal;
            lemma_turn(
                q,
                force,
                n.x.value() * p + f.x.value() * p,
                n.y.value() * p + f.y.value() * p,
                n.z.value() * p + f.z.value() * p,
                o,
                k + r + 5,
            );
            let body = q.rotate(force);
            let (a, b, c) = (share(q, n, f, p, 0), share(q, n, f, p, 1), share(q, n, f, p, 2));
            track::lemma_looser(body.x, a, t, k + r + 19, 47, from, 47);
            track::lemma_looser(body.y, b, t, k + r + 19, 47, from, 47);
            track::lemma_looser(body.z, c, t, k + r + 19, 47, from, 47);
            track::lemma_plus(loads.force.x, body.x, x, a, t, from, 47);
            track::lemma_plus(loads.force.y, body.y, y, b, t, from, 47);
            track::lemma_plus(loads.force.z, body.z, z, c, t, from, 47);
        },
    }
}

/// The shares of three legs make up the push and the friction of all of them.
proof fn lemma_shares_together(
    q: DQuat,
    n: DVec3,
    f: (DVec3, DVec3, DVec3),
    p: (int, int, int),
    axis: int,
)
    ensures
        share(q, n, f.0, p.0, axis) + share(q, n, f.1, p.1, axis) + share(q, n, f.2, p.2, axis) == (
        p.0 + p.1 + p.2) * turned(q, n.x.value(), n.y.value(), n.z.value(), axis) + turned(
            q,
            f.0.x.value() * p.0 + f.1.x.value() * p.1 + f.2.x.value() * p.2,
            f.0.y.value() * p.0 + f.1.y.value() * p.1 + f.2.y.value() * p.2,
            f.0.z.value() * p.0 + f.1.z.value() * p.1 + f.2.z.value() * p.2,
            axis,
        ),
{
    lemma_one_share(q, n, f.0, p.0, axis);
    lemma_one_share(q, n, f.1, p.1, axis);
    lemma_one_share(q, n, f.2, p.2, axis);
    let t = turned(q, n.x.value(), n.y.value(), n.z.value(), axis);
    let (a, b, c) = p;
    assert((a + b + c) * t == a * t + b * t + c * t) by (nonlinear_arith);
    let (x, y, z) = (f.0.x.value() * a, f.0.y.value() * a, f.0.z.value() * a);
    let (u, v, w) = (f.1.x.value() * b, f.1.y.value() * b, f.1.z.value() * b);
    let (i, j, k) = (f.2.x.value() * c, f.2.y.value() * c, f.2.z.value() * c);
    lemma_turned_sum(q, x, y, z, u, v, w, axis);
    lemma_turned_sum(q, x + u, y + v, z + w, i, j, k, axis);
}

proof fn lemma_one_share(q: DQuat, n: DVec3, f: DVec3, p: int, axis: int)
    ensures
        share(q, n, f, p, axis) == p * turned(
            q,
            n.x.value(),
            n.y.value(),
            n.z.value(),
            axis,
        ) + turned(q, f.x.value() * p, f.y.value() * p, f.z.value() * p, axis),
{
    lemma_turned_multiple(q, n.x.value(), n.y.value(), n.z.value(), p, axis);
    lemma_turned_sum(
        q,
        n.x.value() * p,
        n.y.value() * p,
        n.z.value() * p,
        f.x.value() * p,
        f.y.value() * p,
        f.z.value() * p,
        axis,
    );
}

/// The square of the friction of all legs together.
proof fn lemma_friction_square(f: (DVec3, DVec3, DVec3), p: (int, int, int))
    ensures
        ({
            let x = f.0.x.value() * p.0 + f.1.x.value() * p.1 + f.2.x.value() * p.2;
            let y = f.0.y.value() * p.0 + f.1.y.value() * p.1 + f.2.y.value() * p.2;
            let z = f.0.z.value() * p.0 + f.1.z.value() * p.1 + f.2.z.value() * p.2;
            x * x + y * y + z * z == landing_gear::friction_squared(f, p)
        }),
{
    let (a, b, c) = p;
    lemma_square_of_three(f.0.x.value(), f.1.x.value(), f.2.x.value(), a, b, c);
    lemma_square_of_three(f.0.y.value(), f.1.y.value(), f.2.y.value(), a, b, c);
    lemma_square_of_three(f.0.z.value(), f.1.z.value(), f.2.z.value(), a, b, c);
    lemma_dot_weighed(f.0, f.0, a * a);
    lemma_dot_weighed(f.1, f.1, b * b);
    lemma_dot_weighed(f.2, f.2, c * c);
    lemma_dot_weighed(f.0, f.1, a * b);
    lemma_dot_weighed(f.0, f.2, a * c);
    lemma_dot_weighed(f.1, f.2, b * c);
}

proof fn lemma_dot_weighed(f: DVec3, g: DVec3, k: int)
    ensures
        k * landing_gear::dot_counts(f, g) == (f.x.value() * g.x.value()) * k + (f.y.value()
            * g.y.value()) * k + (f.z.value() * g.z.value()) * k,
{
    let (x, y, z) = (
        f.x.value() * g.x.value(),
        f.y.value() * g.y.value(),
        f.z.value() * g.z.value(),
    );
    assert(k * (x + y + z) == x * k + y * k + z * k) by (nonlinear_arith);
}

/// How far the force along one body axis is from the push along the ground's
/// normal, in counts.
pub open spec fn beside(
    force: Binary64,
    q: DQuat,
    normal: DVec3,
    push: int,
    axis: int,
) -> int {
    force.value() * cube() - push * turned(
        q,
        normal.x.value(),
        normal.y.value(),
        normal.z.value(),
        axis,
    )
}

/// The force beside the push is no longer than a limit, but for rounding.
pub open spec fn within_cone(
    force: DVec3,
    q: DQuat,
    normal: DVec3,
    push: int,
    limit: int,
) -> bool {
    let u = Binary64::one() * Binary64::one();
    let x = beside(force.x, q, normal, push, 0);
    let y = beside(force.y, q, normal, push, 1);
    let z = beside(force.z, q, normal, push, 2);
    0x10000 * (x * x + y * y + z * z - (u * u) * (limit * limit)) <= (u * u) * (limit * limit + u * (
    push * push))
}

/// A square of a sum where one of the two is small.
proof fn lemma_mostly(a: int, e: int)
    ensures
        0x40000 * ((a + e) * (a + e)) <= 0x40001 * (a * a) + 0x1000040000 * (e * e),
{
    let d = a - 0x40000 * e;
    assert(d * d >= 0) by (nonlinear_arith);
    assert(d * d == a * a - 0x80000 * (a * e) + 0x1000000000 * (e * e)) by (nonlinear_arith)
        requires
            d == a - 0x40000 * e,
    ;
    assert((a + e) * (a + e) == a * a + 2 * (a * e) + e * e) by (nonlinear_arith);
}

/// How small the square of what rounding did is.
proof fn lemma_small_square(e: int, p: int, n: int, o: int, g: int)
    requires
        o > 0,
        n >= 0,
        p >= 0,
        g >= 0,
        g * o <= 4 * (p * (n + o)),
        -(g * (o * (o * o))) <= 0x400000 * e <= g * (o * (o * o)),
    ensures
        0x10000000000 * (e * e) <= 2 * (((n * p) * (n * p) + (o * o) * (p * p)) * ((o * o) * (o
            * o))),
{
    let t = o * (o * o);
    let u = o * o;
    let y = p * (n + o);
    assert(t > 0 && u > 0) by (nonlinear_arith)
        requires
            t == o * (o * o),
            u == o * o,
            o > 0,
    {
        assert(o * o > 0) by (nonlinear_arith)
            requires
                o > 0,
        ;
        assert(o * (o * o) > 0) by (nonlinear_arith)
            requires
                o > 0,
                o * o > 0,
        ;
    }
    let (gt, gto) = (g * t, (g * o) * t);
    assert(gt * o == gto) by (nonlinear_arith)
        requires
            gt == g * t,
            gto == (g * o) * t,
    ;
    let eo = e * o;
    assert(-gto <= 0x400000 * eo <= gto) by (nonlinear_arith)
        requires
            -gt <= 0x400000 * e <= gt,
            gt * o == gto,
            eo == e * o,
            o > 0,
    ;
    assert(gto <= 4 * (y * t)) by (nonlinear_arith)
        requires
            gto == (g * o) * t,
            g * o <= 4 * y,
            t > 0,
    ;
    let yt = y * t;
    let f = 0x100000 * eo;
    assert(-yt <= f <= yt);
    assert(f * f <= yt * yt) by (nonlinear_arith)
        requires
            -yt <= f <= yt,
    ;
    let ee = e * e;
    assert(f * f == (0x10000000000 * ee) * u) by (nonlinear_arith)
        requires
            f == 0x100000 * eo,
            eo == e * o,
            ee == e * e,
            u == o * o,
    {
        assert((e * o) * (e * o) == (e * e) * (o * o)) by (nonlinear_arith);
        assert((0x100000 * eo) * (0x100000 * eo) == 0x10000000000 * (eo * eo)) by (nonlinear_arith);
        assert((0x10000000000 * ee) * u == 0x10000000000 * (ee * u)) by (nonlinear_arith);
    }
    let uu = u * u;
    assert(yt * yt == (y * y) * (uu * u)) by (nonlinear_arith)
        requires
            yt == y * t,
            t == o * (o * o),
            u == o * o,
            uu == u * u,
    {
        assert((y * t) * (y * t) == (y * y) * (t * t)) by (nonlinear_arith);
        assert((o * u) * (o * u) == (o * o) * (u * u)) by (nonlinear_arith);
        assert(u * (u * u) == (u * u) * u) by (nonlinear_arith);
    }
    let most = (n * p) * (n * p) + u * (p * p);
    assert(y * y <= 2 * most) by (nonlinear_arith)
        requires
            y == p * (n + o),
            most == (n * p) * (n * p) + u * (p * p),
            u == o * o,
    {
        let (a, b) = (n * p, o * p);
        assert(p * (n + o) == a + b) by (nonlinear_arith)
            requires
                a == n * p,
                b == o * p,
        ;
        assert((a + b) * (a + b) + (a - b) * (a - b) == 2 * (a * a + b * b)) by (nonlinear_arith);
        assert((a - b) * (a - b) >= 0) by (nonlinear_arith);
        assert((o * p) * (o * p) == (o * o) * (p * p)) by (nonlinear_arith);
    }
    let big = uu * u;
    assert(big > 0) by (nonlinear_arith)
        requires
            big == uu * u,
            uu == u * u,
            u > 0,
    {
        assert(u * u > 0) by (nonlinear_arith)
            requires
                u > 0,
        ;
        assert(uu * u > 0) by (nonlinear_arith)
            requires
                uu > 0,
                u > 0,
        ;
    }
    assert((y * y) * big <= (2 * most) * big) by (nonlinear_arith)
        requires
            y * y <= 2 * most,
            big > 0,
    ;
    assert((2 * most) * big == (2 * (most * uu)) * u) by (nonlinear_arith)
        requires
            big == uu * u,
    ;
    let (i, j) = (0x10000000000 * ee, 2 * (most * uu));
    assert(i <= j) by (nonlinear_arith)
        requires
            i * u <= j * u,
            u > 0,
    ;
}

/// The square of the friction after it was turned.
proof fn lemma_turned_square(l: int, s: int, a: int, m: int, up: int, u: int)
    requires
        u > 0,
        l >= 0,
        s >= 0,
        m >= 0,
        up >= 0,
        (l - u) * 0x200000000000 <= u,
        a == (l * l) * s,
        (s - m) * 0x200000000000 <= m + up,
    ensures
        0x80000000000 * a <= (u * u) * (0x80000000000 * m + (m + up)),
{
    let x = 0x200000000000 * l;
    let y = 0x200000000001 * u;
    assert(0 <= x <= y);
    assert(x * x <= y * y) by (nonlinear_arith)
        requires
            0 <= x <= y,
    ;
    let (ll, uu) = (l * l, u * u);
    assert(x * x == 0x40000000000000000000000 * ll) by (nonlinear_arith)
        requires
            x == 0x200000000000 * l,
            ll == l * l,
    ;
    assert(y * y == 0x40000000000400000000001 * uu) by (nonlinear_arith)
        requires
            y == 0x200000000001 * u,
            uu == u * u,
    ;
    let us = uu * s;
    assert(0x40000000000000000000000 * a <= 0x40000000000400000000001 * us) by (nonlinear_arith)
        requires
            0x40000000000000000000000 * ll <= 0x40000000000400000000001 * uu,
            s >= 0,
            a == ll * s,
            us == uu * s,
    ;
    let (um, uup) = (uu * m, uu * up);
    assert(uu > 0 && um >= 0 && uup >= 0) by (nonlinear_arith)
        requires
            uu == u * u,
            u > 0,
            um == uu * m,
            uup == uu * up,
            m >= 0,
            up >= 0,
    {
        assert(u * u > 0) by (nonlinear_arith)
            requires
                u > 0,
        ;
    }
    assert(0x200000000000 * us <= 0x200000000001 * um + uup) by (nonlinear_arith)
        requires
            0x200000000000 * s <= 0x200000000001 * m + up,
            us == uu * s,
            um == uu * m,
            uup == uu * up,
            uu > 0,
    ;
    assert(0x80000000000 * a <= 0x80000000001 * um + uup);
    assert(uu * (0x80000000000 * m + (m + up)) == 0x80000000001 * um + uup) by (nonlinear_arith)
        requires
            um == uu * m,
            uup == uu * up,
    ;
}

/// The parts together.
proof fn lemma_together(a: int, e: int, t: int, um: int, g: int)
    requires
        0x40000 * t <= 0x40001 * a + 0x1000040000 * e,
        0x80000000000 * a <= 0x80000000000 * um + g,
        0x10000000000 * e <= 6 * g,
        0 <= um <= g,
    ensures
        0x10000 * (t - um) <= g,
{
}

/// A part of a vector of a known length.
pub proof fn lemma_part_of(c: int, l: int, m: int)
    requires
        c * c <= l,
        l <= m * m,
        m >= 0,
    ensures
        number::magnitude_of(c) <= m,
{
    let n = number::magnitude_of(c) as int;
    assert(n <= m) by (nonlinear_arith)
        requires
            n == c || n == -c,
            c * c <= l,
            l <= m * m,
            m >= 0,
            n >= 0,
    {
        if n > m {
            assert(n * n > m * m) by (nonlinear_arith)
                requires
                    n > m,
                    m >= 0,
            ;
            assert(n * n == c * c) by (nonlinear_arith)
                requires
                    n == c || n == -c,
            ;
        }
    }
}

pub proof fn lemma_squares(x: int, y: int, z: int, w: int)
    ensures
        x * x >= 0,
        y * y >= 0,
        z * z >= 0,
        w * w >= 0,
{
    assert(x * x >= 0) by (nonlinear_arith);
    assert(y * y >= 0) by (nonlinear_arith);
    assert(z * z >= 0) by (nonlinear_arith);
    assert(w * w >= 0) by (nonlinear_arith);
}

/// A turn of length one, and the way back.
pub proof fn lemma_turn_of_length_one(q: DQuat)
    requires
        norm::near_unit(q.to_vec4()),
    ensures
        is_turn(q),
        is_turn(q.inverse()),
        norm::length_squared(q.inverse().to_vec4()) == norm::length_squared(q.to_vec4()),
{
    let o = Binary64::one() as int;
    let l = norm::length_squared(q.to_vec4());
    let m = 2 * o;
    let (x, y, z, w) = (q.x.value(), q.y.value(), q.z.value(), q.w.value());
    lemma_pow2_pos(1074);
    lemma_pow2_adds(1074, 1);
    lemma2_to64();
    lemma_squares(x, y, z, w);
    binary64::lemma_negate(q.x);
    binary64::lemma_negate(q.y);
    binary64::lemma_negate(q.z);
    assert(o * o >= 0 && m * m == 4 * (o * o)) by (nonlinear_arith)
        requires
            m == 2 * o,
    ;
    lemma_part_of(x, l, m);
    lemma_part_of(y, l, m);
    lemma_part_of(z, l, m);
    lemma_part_of(w, l, m);
    assert((-x) * (-x) == x * x && (-y) * (-y) == y * y && (-z) * (-z) == z * z)
        by (nonlinear_arith);
}

/// A direction of length one.
pub proof fn lemma_direction(n: DVec3)
    requires
        norm::near_unit(norm::flat(n)),
    ensures
        n.x.is_finite() && number::magnitude_of(n.x.value()) <= pow2(1075),
        n.y.is_finite() && number::magnitude_of(n.y.value()) <= pow2(1075),
        n.z.is_finite() && number::magnitude_of(n.z.value()) <= pow2(1075),
{
    let o = Binary64::one() as int;
    let l = norm::length_squared(norm::flat(n));
    let m = 2 * o;
    let (x, y, z) = (n.x.value(), n.y.value(), n.z.value());
    lemma_pow2_pos(1074);
    lemma_pow2_adds(1074, 1);
    lemma2_to64();
    lemma_squares(x, y, z, 0);
    binary64::lemma_of(0);
    assert(o * o >= 0 && m * m == 4 * (o * o)) by (nonlinear_arith)
        requires
            m == 2 * o,
    ;
    lemma_part_of(x, l, m);
    lemma_part_of(y, l, m);
    lemma_part_of(z, l, m);
}

/// The friction of a leg is no larger than its limit and one, but for a power.
proof fn lemma_friction_size(plane: ContactPlane, measure: LegMeasure, r: nat)
    requires
        norm::not_too_long(landing_gear::asked_friction(plane, measure.grip)),
        plane.friction_limit.is_finite(),
        0 <= plane.friction_limit.value() <= pow2(r) * Binary64::one(),
    ensures
        ({
            let f = leg_friction(plane, measure);
            &&& f.x.is_finite() && number::magnitude_of(f.x.value()) <= pow2(1076 + r)
            &&& f.y.is_finite() && number::magnitude_of(f.y.value()) <= pow2(1076 + r)
            &&& f.z.is_finite() && number::magnitude_of(f.z.value()) <= pow2(1076 + r)
        }),
{
    let o = Binary64::one() as int;
    let f = leg_friction(plane, measure);
    let n = plane.friction_limit.value();
    let l = norm::length_squared(norm::flat(f));
    let p = pow2(r) as int;
    let m = 4 * (p * o);
    lemma_pow2_pos(r);
    lemma_pow2_pos(1074);
    lemma_pow2_adds(1074, 2);
    lemma_pow2_adds(r, 1076);
    lemma2_to64();
    assert(pow2(1076 + r) == m) by (nonlinear_arith)
        requires
            pow2(1076 + r) == p * (o * 4),
            m == 4 * (p * o),
    ;
    binary64::lemma_of(0);
    let (x, y, z) = (f.x.value(), f.y.value(), f.z.value());
    lemma_squares(x, y, z, 0);
    assert(m >= 0) by (nonlinear_arith)
        requires
            m == 4 * (p * o),
            p > 0,
            o > 0,
    ;
    if plane.has_ways {
        landing_gear::tyres_hold_no_more_than_their_limit(plane, measure.grip);
        assert(2 * (n * n + o * o) <= m * m) by (nonlinear_arith)
            requires
                0 <= n <= p * o,
                p >= 1,
                o > 0,
                m == 4 * (p * o),
        {
            let t = p * o;
            assert(o <= t) by (nonlinear_arith)
                requires
                    t == p * o,
                    p >= 1,
                    o > 0,
            ;
            assert(n * n <= t * t) by (nonlinear_arith)
                requires
                    0 <= n <= t,
            ;
            assert(o * o <= t * t) by (nonlinear_arith)
                requires
                    0 <= o <= t,
            ;
            assert((4 * t) * (4 * t) == 16 * (t * t)) by (nonlinear_arith);
        }
        lemma_squares(n, o, 0, 0);
        lemma_part_of(x, l, m);
        lemma_part_of(y, l, m);
        lemma_part_of(z, l, m);
    }
}

/// What all three legs push with together, in counts.
pub open spec fn push_of(
    gear: LandingGearConfig,
    plane: ContactPlane,
    state: RigidBodyState,
    environment: Environment,
    ground_frame: LocalFrame,
    measures: Seq<LegMeasure>,
) -> int {
    leg_push(plane, state, environment, ground_frame, gear.nose, measures[0]) + leg_push(
        plane,
        state,
        environment,
        ground_frame,
        gear.left,
        measures[1],
    ) + leg_push(plane, state, environment, ground_frame, gear.right, measures[2])
}

/// The ground does not pull at a leg.
proof fn lemma_push(
    plane: ContactPlane,
    state: RigidBodyState,
    environment: Environment,
    ground_frame: LocalFrame,
    leg: LandingGearLeg,
    measure: LegMeasure,
)
    ensures
        leg_push(plane, state, environment, ground_frame, leg, measure) >= 0,
{
    let contact = landing_gear::contact_ecef(state, leg);
    let penetration = landing_gear::penetration_of(
        plane,
        environment,
        ground_frame,
        contact,
        measure.altitude,
    );
    let rate = landing_gear::contact_velocity(state, leg).dot(plane.normal).negate();
    let push = landing_gear::normal_force_spec(leg, penetration, rate);
    binary64::lemma_of(0);
    if push.is_finite() {
        binary64::lemma_order(push, Binary64::of(0));
    }
}

/// The force of all legs together along the body axes, beside what it would be
/// without rounding.
proof fn lemma_force_of_all(
    gear: LandingGearConfig,
    state: RigidBodyState,
    brakes: Binary64,
    environment: Environment,
    ground_frame: LocalFrame,
    measures: Seq<LegMeasure>,
    k: nat,
    r: nat,
)
    requires
        100 <= k <= 1500,
        r <= 250,
        environment.ground_known(),
        norm::near_unit(state.orientation.to_vec4()),
        ({
            let plane = landing_gear::contact_plane_spec(
                gear,
                state,
                brakes,
                environment,
                ground_frame,
            );
            &&& norm::near_unit(norm::flat(plane.normal))
            &&& plane.friction_limit.is_finite()
            &&& 0 <= plane.friction_limit.value() <= pow2(r) * Binary64::one()
            &&& norm::not_too_long(landing_gear::asked_friction(plane, measures[0].grip))
            &&& norm::not_too_long(landing_gear::asked_friction(plane, measures[1].grip))
            &&& norm::not_too_long(landing_gear::asked_friction(plane, measures[2].grip))
            &&& push_of(gear, plane, state, environment, ground_frame, measures) <= pow2(k)
        }),
    ensures
        ({
            let plane = landing_gear::contact_plane_spec(
                gear,
                state,
                brakes,
                environment,
                ground_frame,
            );
            let q = state.orientation.inverse();
            let n = plane.normal;
            let f = (
                leg_friction(plane, measures[0]),
                leg_friction(plane, measures[1]),
                leg_friction(plane, measures[2]),
            );
            let p = (
                leg_push(plane, state, environment, ground_frame, gear.nose, measures[0]),
                leg_push(plane, state, environment, ground_frame, gear.left, measures[1]),
                leg_push(plane, state, environment, ground_frame, gear.right, measures[2]),
            );
            let loads = landing_gear::loads_spec(
                gear,
                state,
                brakes,
                environment,
                ground_frame,
                measures,
            );
            &&& p.0 >= 0 && p.1 >= 0 && p.2 >= 0
            &&& follows(
                loads.force,
                share(q, n, f.0, p.0, 0) + share(q, n, f.1, p.1, 0) + share(q, n, f.2, p.2, 0),
                share(q, n, f.0, p.0, 1) + share(q, n, f.1, p.1, 1) + share(q, n, f.2, p.2, 1),
                share(q, n, f.0, p.0, 2) + share(q, n, f.1, p.1, 2) + share(q, n, f.2, p.2, 2),
                cube(),
                k + r + 25,
                47,
            )
        }),
{
    let plane = landing_gear::contact_plane_spec(gear, state, brakes, environment, ground_frame);
    let q = state.orientation.inverse();
    let n = plane.normal;
    let o = Binary64::one() as int;
    let t = o * (o * o);
    lemma_turn_of_length_one(state.orientation);
    lemma_direction(n);
    lemma_friction_size(plane, measures[0], r);
    lemma_friction_size(plane, measures[1], r);
    lemma_friction_size(plane, measures[2], r);
    lemma_push(plane, state, environment, ground_frame, gear.nose, measures[0]);
    lemma_push(plane, state, environment, ground_frame, gear.left, measures[1]);
    lemma_push(plane, state, environment, ground_frame, gear.right, measures[2]);
    let (f0, f1) = (leg_friction(plane, measures[0]), leg_friction(plane, measures[1]));
    let p0 = leg_push(plane, state, environment, ground_frame, gear.nose, measures[0]);
    let p1 = leg_push(plane, state, environment, ground_frame, gear.left, measures[1]);
    let none = landing_gear::no_loads();
    let zero = Binary64::of(0);
    binary64::lemma_of(0);
    lemma_pow2_pos(1074);
    lemma_pow2_pos(k + r + 19);
    assert(t > 0) by (nonlinear_arith)
        requires
            t == o * (o * o),
            o > 0,
    {
        assert(o * o > 0) by (nonlinear_arith)
            requires
                o > 0,
        ;
        assert(o * (o * o) > 0) by (nonlinear_arith)
            requires
                o > 0,
                o * o > 0,
        ;
    }
    assert(pow2(47) * (0 * t - 0) == 0) by (nonlinear_arith);
    assert(pow2(k + r + 19) * t >= 0) by (nonlinear_arith)
        requires
            t > 0,
    ;
    assert(track::tracked_by(zero, 0, t, k + r + 19, 47));
    lemma_with_leg(
        none,
        plane,
        state,
        environment,
        ground_frame,
        gear.nose,
        measures[0],
        0,
        0,
        0,
        k,
        r,
        0,
    );
    let one = landing_gear::with_leg(
        none,
        plane,
        state,
        environment,
        ground_frame,
        gear.nose,
        measures[0],
    );
    let (x, y, z) = (share(q, n, f0, p0, 0), share(q, n, f0, p0, 1), share(q, n, f0, p0, 2));
    lemma_with_leg(
        one,
        plane,
        state,
        environment,
        ground_frame,
        gear.left,
        measures[1],
        x,
        y,
        z,
        k,
        r,
        2,
    );
    let two = landing_gear::with_leg(
        one,
        plane,
        state,
        environment,
        ground_frame,
        gear.left,
        measures[1],
    );
    lemma_with_leg(
        two,
        plane,
        state,
        environment,
        ground_frame,
        gear.right,
        measures[2],
        x + share(q, n, f1, p1, 0),
        y + share(q, n, f1, p1, 1),
        z + share(q, n, f1, p1, 2),
        k,
        r,
        4,
    );
}

/// The powers of two next to the push and to the limit.
proof fn lemma_powers(p: int, n: int) -> (powers: (nat, nat))
    requires
        pow2(200) <= p <= pow2(1400),
        0 <= n <= pow2(1274),
    ensures
        100 <= powers.0 <= 1500,
        powers.1 <= 250,
        p <= pow2(powers.0),
        n <= pow2(powers.1) * Binary64::one(),
        pow2(powers.0 + powers.1) * Binary64::one() <= 4 * (p * (n + Binary64::one())),
{
    let o = Binary64::one() as int;
    let k = rounding::bit_length(p as nat);
    let part = n / o;
    let r = rounding::bit_length((part + 1) as nat);
    lemma_pow2_pos(200);
    lemma_pow2_pos(1074);
    rounding::lemma_bit_length(p as nat);
    lemma_pow2_strictly_increases(1400, 1401);
    rounding::lemma_bit_length_upper(p as nat, 1401);
    if k < 200 {
        lemma_pow2_strictly_increases(k, 200);
    }
    vstd::arithmetic::div_mod::lemma_fundamental_div_mod(n, o);
    assert(0 <= part && part * o <= n < (part + 1) * o) by (nonlinear_arith)
        requires
            n == o * part + n % o,
            0 <= n % o < o,
            n >= 0,
            o > 0,
    ;
    lemma_pow2_adds(200, 1074);
    assert(part <= pow2(200)) by (nonlinear_arith)
        requires
            part * o <= n,
            n <= pow2(200) * o,
            o > 0,
    ;
    rounding::lemma_bit_length((part + 1) as nat);
    lemma_pow2_strictly_increases(200, 202);
    lemma_pow2_adds(200, 2);
    lemma2_to64();
    rounding::lemma_bit_length_upper((part + 1) as nat, 202);
    let (a, b) = (pow2(k) as int, pow2(r) as int);
    lemma_pow2_adds((k - 1) as nat, 1);
    lemma_pow2_adds((r - 1) as nat, 1);
    lemma_pow2_adds(k, r);
    assert(n <= b * o) by (nonlinear_arith)
        requires
            n < (part + 1) * o,
            part + 1 < b,
            o > 0,
    ;
    assert(a <= 2 * p && b * o <= 2 * (n + o)) by (nonlinear_arith)
        requires
            a <= 2 * p,
            b <= 2 * (part + 1),
            part * o <= n,
            o > 0,
    ;
    let y = n + o;
    assert((a * b) * o <= 4 * (p * y)) by (nonlinear_arith)
        requires
            0 < a <= 2 * p,
            0 < b,
            b * o <= 2 * y,
            y >= 0,
    {
        assert((a * b) * o == a * (b * o)) by (nonlinear_arith);
        assert(a * (b * o) <= a * (2 * y)) by (nonlinear_arith)
            requires
                b * o <= 2 * y,
                a > 0,
        ;
        assert(a * (2 * y) <= (2 * p) * (2 * y)) by (nonlinear_arith)
            requires
                a <= 2 * p,
                y >= 0,
        ;
        assert((2 * p) * (2 * y) == 4 * (p * y)) by (nonlinear_arith);
    }
    (k, r)
}

/// The force of the ground in body axes lies within the friction cone: beside
/// what all legs together push with along the ground's normal it is no longer
/// than the friction limit times that push, but for rounding. The limit is the
/// larger of the coefficients along and across, with the brakes as they are. The
/// square of the length exceeds that of limit and push by one part in two to the
/// sixteen of it, and of the push, at most.
pub proof fn the_force_on_the_body_stays_within_the_friction_cone(
    gear: LandingGearConfig,
    state: RigidBodyState,
    brakes: Binary64,
    environment: Environment,
    ground_frame: LocalFrame,
    measures: Seq<LegMeasure>,
)
    requires
        environment.ground_known(),
        norm::near_unit(state.orientation.to_vec4()),
        ({
            let plane = landing_gear::contact_plane_spec(
                gear,
                state,
                brakes,
                environment,
                ground_frame,
            );
            &&& norm::near_unit(norm::flat(plane.normal))
            &&& plane.friction_limit.is_finite()
            &&& 0 <= plane.friction_limit.value() <= pow2(1274)
            &&& norm::not_too_long(landing_gear::asked_friction(plane, measures[0].grip))
            &&& norm::not_too_long(landing_gear::asked_friction(plane, measures[1].grip))
            &&& norm::not_too_long(landing_gear::asked_friction(plane, measures[2].grip))
            &&& pow2(200) <= push_of(gear, plane, state, environment, ground_frame, measures)
                <= pow2(1400)
        }),
    ensures
        ({
            let plane = landing_gear::contact_plane_spec(
                gear,
                state,
                brakes,
                environment,
                ground_frame,
            );
            let loads = landing_gear::loads_spec(
                gear,
                state,
                brakes,
                environment,
                ground_frame,
                measures,
            );
            let push = push_of(gear, plane, state, environment, ground_frame, measures);
            within_cone(
                loads.force,
                state.orientation.inverse(),
                plane.normal,
                push,
                plane.friction_limit.value() * push,
            )
        }),
{
    let plane = landing_gear::contact_plane_spec(gear, state, brakes, environment, ground_frame);
    let q = state.orientation.inverse();
    let n = plane.normal;
    let o = Binary64::one() as int;
    let f = (
        leg_friction(plane, measures[0]),
        leg_friction(plane, measures[1]),
        leg_friction(plane, measures[2]),
    );
    let p = (
        leg_push(plane, state, environment, ground_frame, gear.nose, measures[0]),
        leg_push(plane, state, environment, ground_frame, gear.left, measures[1]),
        leg_push(plane, state, environment, ground_frame, gear.right, measures[2]),
    );
    let force = landing_gear::loads_spec(
        gear,
        state,
        brakes,
        environment,
        ground_frame,
        measures,
    ).force;
    let push = p.0 + p.1 + p.2;
    let limit = plane.friction_limit.value();
    let (k, r) = lemma_powers(push, limit);
    lemma_force_of_all(gear, state, brakes, environment, ground_frame, measures, k, r);
    let (x, y, z) = (
        f.0.x.value() * p.0 + f.1.x.value() * p.1 + f.2.x.value() * p.2,
        f.0.y.value() * p.0 + f.1.y.value() * p.1 + f.2.y.value() * p.2,
        f.0.z.value() * p.0 + f.1.z.value() * p.1 + f.2.z.value() * p.2,
    );
    let (a, b, c) = (turned(q, x, y, z, 0), turned(q, x, y, z, 1), turned(q, x, y, z, 2));
    lemma_shares_together(q, n, f, p, 0);
    lemma_shares_together(q, n, f, p, 1);
    lemma_shares_together(q, n, f, p, 2);
    lemma_off(force.x, q, n, push, a, k, r, limit, 0);
    lemma_off(force.y, q, n, push, b, k, r, limit, 1);
    lemma_off(force.z, q, n, push, c, k, r, limit, 2);
    lemma_turned_length(q, x, y, z);
    lemma_turn_of_length_one(state.orientation);
    lemma_friction_square(f, p);
    lemma_total_friction(plane, measures, f, p);
    lemma_squares(x, y, z, 0);
    let l = norm::length_squared(q.to_vec4());
    lemma_squares(q.x.value(), q.y.value(), q.z.value(), q.w.value());
    let u = o * o;
    let (m, up) = ((limit * push) * (limit * push), u * (push * push));
    lemma_pow2_pos(1074);
    assert(u > 0 && m >= 0 && up >= 0) by (nonlinear_arith)
        requires
            u == o * o,
            o > 0,
            m == (limit * push) * (limit * push),
            up == u * (push * push),
    {
        assert(o * o > 0) by (nonlinear_arith)
            requires
                o > 0,
        ;
        assert(push * push >= 0) by (nonlinear_arith);
        assert(u * (push * push) >= 0) by (nonlinear_arith)
            requires
                u > 0,
                push * push >= 0,
        ;
        assert((limit * push) * (limit * push) >= 0) by (nonlinear_arith);
    }
    lemma_turned_square(l, x * x + y * y + z * z, a * a + b * b + c * c, m, up, u);
    let uu = u * u;
    assert(uu * (0x80000000000 * m + (m + up)) == 0x80000000000 * (uu * m) + uu * (m + up))
        by (nonlinear_arith);
    assert(0 <= uu * m <= uu * (m + up)) by (nonlinear_arith)
        requires
            uu == u * u,
            u > 0,
            m >= 0,
            up >= 0,
    {
        assert(u * u > 0) by (nonlinear_arith)
            requires
                u > 0,
        ;
        assert(0 <= uu * m <= uu * (m + up)) by (nonlinear_arith)
            requires
                uu > 0,
                m >= 0,
                up >= 0,
        ;
    }
    assert((m + up) * uu == uu * (m + up)) by (nonlinear_arith);
    let (i, j, h) = (
        beside(force.x, q, n, push, 0) - a,
        beside(force.y, q, n, push, 1) - b,
        beside(force.z, q, n, push, 2) - c,
    );
    lemma_mostly(a, i);
    lemma_mostly(b, j);
    lemma_mostly(c, h);
    let (s, t, v) = (a + i, b + j, c + h);
    lemma_together(
        a * a + b * b + c * c,
        i * i + j * j + h * h,
        s * s + t * t + v * v,
        uu * m,
        uu * (m + up),
    );
}

/// How far the force along an axis is from what the push and the friction make
/// of it.
proof fn lemma_off(
    force: Binary64,
    q: DQuat,
    n: DVec3,
    push: int,
    a: int,
    k: nat,
    r: nat,
    limit: int,
    axis: int,
)
    requires
        push >= 0,
        limit >= 0,
        track::tracked_by(
            force,
            push * turned(q, n.x.value(), n.y.value(), n.z.value(), axis) + a,
            cube(),
            k + r + 25,
            47,
        ),
        pow2(k + r) * Binary64::one() <= 4 * (push * (limit + Binary64::one())),
    ensures
        ({
            let e = beside(force, q, n, push, axis) - a;
            let u = Binary64::one() * Binary64::one();
            0x10000000000 * (e * e) <= 2 * (((limit * push) * (limit * push) + u * (push * push)) * (
            u * u))
        }),
{
    let o = Binary64::one() as int;
    let e = beside(force, q, n, push, axis) - a;
    let g = pow2(k + r) as int;
    let t = cube();
    lemma_pow2_pos(1074);
    lemma_pow2_adds(k + r, 25);
    lemma2_to64();
    lemma2_to64_rest();
    assert(pow2(k + r + 25) * t == 0x2000000 * (g * t)) by (nonlinear_arith)
        requires
            pow2(k + r + 25) == g * 0x2000000,
    ;
    assert(-(g * t) <= 0x400000 * e <= g * t);
    lemma_small_square(e, push, limit, o, g);
}

/// The friction of all legs together, whether the nose has a way or not.
proof fn lemma_total_friction(
    plane: ContactPlane,
    measures: Seq<LegMeasure>,
    f: (DVec3, DVec3, DVec3),
    p: (int, int, int),
)
    requires
        f == (
            leg_friction(plane, measures[0]),
            leg_friction(plane, measures[1]),
            leg_friction(plane, measures[2]),
        ),
        p.0 >= 0 && p.1 >= 0 && p.2 >= 0,
        plane.friction_limit.is_finite(),
        0 <= plane.friction_limit.value(),
        norm::not_too_long(landing_gear::asked_friction(plane, measures[0].grip)),
        norm::not_too_long(landing_gear::asked_friction(plane, measures[1].grip)),
        norm::not_too_long(landing_gear::asked_friction(plane, measures[2].grip)),
    ensures
        ({
            let push = p.0 + p.1 + p.2;
            let most = plane.friction_limit.value() * push;
            (landing_gear::friction_squared(f, p) - most * most) * 0x200000000000 <= most * most + (
            Binary64::one() * Binary64::one()) * (push * push)
        }),
{
    if plane.has_ways {
        landing_gear::all_legs_together_stay_within_the_friction_cone(
            plane,
            (measures[0].grip, measures[1].grip, measures[2].grip),
            p,
        );
    } else {
        let o = Binary64::one() as int;
        let push = p.0 + p.1 + p.2;
        let most = plane.friction_limit.value() * push;
        binary64::lemma_of(0);
        assert(0 * 0 == 0);
        let zero = DVec3::zero();
        assert(landing_gear::dot_counts(zero, zero) == 0);
        lemma_nothing(p.0 * p.0);
        lemma_nothing(p.1 * p.1);
        lemma_nothing(p.2 * p.2);
        lemma_nothing(p.0 * p.1);
        lemma_nothing(p.0 * p.2);
        lemma_nothing(p.1 * p.2);
        let u = o * o;
        let up = u * (push * push);
        assert(most * most >= 0 && up >= 0) by (nonlinear_arith)
            requires
                u == o * o,
                up == u * (push * push),
        {
            assert(push * push >= 0) by (nonlinear_arith);
            assert(o * o >= 0) by (nonlinear_arith);
            assert(u * (push * push) >= 0) by (nonlinear_arith)
                requires
                    u >= 0,
                    push * push >= 0,
            ;
            assert(most * most >= 0) by (nonlinear_arith);
        }
    }
}

proof fn lemma_nothing(k: int)
    ensures
        k * 0 == 0,
{
}

/// What the force on the body comes to along the ground's normal, in counts and
/// without rounding.
pub open spec fn along_normal(force: DVec3, q: DQuat, normal: DVec3) -> int {
    let (x, y, z) = (normal.x.value(), normal.y.value(), normal.z.value());
    force.x.value() * turned(q, x, y, z, 0) + force.y.value() * turned(q, x, y, z, 1)
        + force.z.value() * turned(q, x, y, z, 2)
}

/// The square of a dot product is no more than that of both lengths.
proof fn lemma_no_more_than_both(a: int, b: int, c: int, x: int, y: int, z: int)
    ensures
        ({
            let d = x * a + y * b + z * c;
            d * d <= (a * a + b * b + c * c) * (x * x + y * y + z * z)
        }),
{
    lemma_lagrange(a, b, c, x, y, z);
    lemma_squares(b * z - y * c, c * x - z * a, a * y - x * b, 0);
}

/// Where the friction is less than the push, the force still points away from
/// the ground.
proof fn lemma_away(force: DVec3, q: DQuat, n: DVec3, push: int, limit: int)
    requires
        push > 0,
        limit >= 0,
        within_cone(force, q, n, push, limit * push),
        norm::near_unit(norm::flat(n)),
        ({
            let u = Binary64::one() * Binary64::one();
            let l = norm::length_squared(q.to_vec4());
            &&& -u <= (l - u) * 0x200000000000 <= u
            &&& 0x8000 * (limit * limit) <= 0x7ffe * u
        }),
    ensures
        along_normal(force, q, n) > 0,
{
    let o = Binary64::one() as int;
    let u = o * o;
    let t = cube();
    let (nx, ny, nz) = (n.x.value(), n.y.value(), n.z.value());
    let (a, b, c) = (
        turned(q, nx, ny, nz, 0),
        turned(q, nx, ny, nz, 1),
        turned(q, nx, ny, nz, 2),
    );
    let (x, y, z) = (
        beside(force.x, q, n, push, 0),
        beside(force.y, q, n, push, 1),
        beside(force.z, q, n, push, 2),
    );
    let l = norm::length_squared(q.to_vec4());
    let nn = nx * nx + ny * ny + nz * nz;
    let rr = a * a + b * b + c * c;
    let tt = x * x + y * y + z * z;
    let d = x * a + y * b + z * c;
    lemma_pow2_pos(1074);
    lemma_turned_length(q, nx, ny, nz);
    lemma_no_more_than_both(a, b, c, x, y, z);
    binary64::lemma_of(0);
    assert(0 * 0 == 0);
    assert(norm::length_squared(norm::flat(n)) == nn);
    lemma_positive(o);
    lemma_room(l, nn, rr, u);
    let pp = push * push;
    lemma_less_than_push(tt, rr, limit, push, u);
    let s = along_normal(force, q, n);
    assert(s * t == push * rr + d) by {
        lemma_axis_along(force.x.value(), t, push, a, x);
        lemma_axis_along(force.y.value(), t, push, b, y);
        lemma_axis_along(force.z.value(), t, push, c, z);
        let (e, f, g) = (force.x.value() * a, force.y.value() * b, force.z.value() * c);
        assert((e + f + g) * t == e * t + f * t + g * t) by (nonlinear_arith);
        let (h, i, j) = (a * a, b * b, c * c);
        assert(push * (h + i + j) == push * h + push * i + push * j) by (nonlinear_arith);
    }
    let m = push * rr;
    assert(m > 0) by (nonlinear_arith)
        requires
            m == push * rr,
            push > 0,
            rr > 0,
    ;
    assert(d * d < m * m) by (nonlinear_arith)
        requires
            d * d <= rr * tt,
            tt < pp * rr,
            rr > 0,
            m == push * rr,
            pp == push * push,
    {
        assert(rr * tt < rr * (pp * rr)) by (nonlinear_arith)
            requires
                tt < pp * rr,
                rr > 0,
        ;
        assert(rr * ((push * push) * rr) == (push * rr) * (push * rr)) by (nonlinear_arith);
    }
    assert(m + d > 0) by (nonlinear_arith)
        requires
            d * d < m * m,
            m > 0,
    {
        if m + d <= 0 {
            assert(d * d >= m * m) by (nonlinear_arith)
                requires
                    d <= -m,
                    m > 0,
            ;
        }
    }
    assert(t > 0) by (nonlinear_arith)
        requires
            t == o * u,
            o > 0,
            u > 0,
    ;
    assert(s > 0) by (nonlinear_arith)
        requires
            s * t > 0,
            t > 0,
    ;
}

pub proof fn lemma_positive(o: int)
    requires
        o > 0,
    ensures
        o * o > 0,
{
    assert(o * o > 0) by (nonlinear_arith)
        requires
            o > 0,
    ;
}

proof fn lemma_axis_along(f: int, t: int, push: int, a: int, x: int)
    requires
        x == f * t - push * a,
    ensures
        (f * a) * t == push * (a * a) + x * a,
{
    let g = f * t;
    assert((f * a) * t == g * a) by (nonlinear_arith)
        requires
            g == f * t,
    ;
    let h = push * a;
    assert(g * a == h * a + x * a) by (nonlinear_arith)
        requires
            x == g - h,
    ;
    assert(h * a == push * (a * a)) by (nonlinear_arith)
        requires
            h == push * a,
    ;
}

/// The turned normal is of length one, but for rounding.
proof fn lemma_room(l: int, nn: int, rr: int, u: int)
    requires
        u > 0,
        -u <= (l - u) * 0x200000000000,
        -u <= (nn - u) * 0x200000000000,
        rr == (l * l) * nn,
    ensures
        rr > 0,
        0x10000 * rr >= 0xffff * ((u * u) * u),
{
    assert(0x100000 * l >= 0xfffff * u && 0x100000 * nn >= 0xfffff * u);
    let (x, y, w) = (0x100000 * l, 0x100000 * nn, 0xfffff * u);
    assert(x * x >= w * w) by (nonlinear_arith)
        requires
            x >= w,
            w > 0,
    ;
    let (ll, uu) = (l * l, u * u);
    assert(x * x == 0x10000000000 * ll) by (nonlinear_arith)
        requires
            x == 0x100000 * l,
            ll == l * l,
    ;
    assert(w * w == 0xffffe00001 * uu) by (nonlinear_arith)
        requires
            w == 0xfffff * u,
            uu == u * u,
    ;
    lemma_positive(u);
    let uuu = uu * u;
    assert(uuu > 0) by (nonlinear_arith)
        requires
            uuu == uu * u,
            uu > 0,
            u > 0,
    ;
    let un = uu * nn;
    assert(0x10000000000 * rr >= 0xffffe00001 * un) by (nonlinear_arith)
        requires
            0x10000000000 * ll >= 0xffffe00001 * uu,
            rr == ll * nn,
            un == uu * nn,
            nn >= 0,
    ;
    assert(0x100000 * un >= 0xfffff * uuu) by (nonlinear_arith)
        requires
            0x100000 * nn >= 0xfffff * u,
            un == uu * nn,
            uuu == uu * u,
            uu > 0,
    ;
}

/// The force beside the push is shorter than the push.
proof fn lemma_less_than_push(tt: int, rr: int, limit: int, push: int, u: int)
    requires
        u > 0,
        push > 0,
        limit >= 0,
        0x8000 * (limit * limit) <= 0x7ffe * u,
        0x10000 * (tt - (u * u) * ((limit * push) * (limit * push))) <= (u * u) * ((limit * push) * (
        limit * push) + u * (push * push)),
        0x10000 * rr >= 0xffff * ((u * u) * u),
    ensures
        tt < (push * push) * rr,
{
    let (ll, pp, uu) = (limit * limit, push * push, u * u);
    let lp = (limit * push) * (limit * push);
    lemma_regroup(limit, push, limit, push);
    assert(lp == ll * pp);
    lemma_positive(push);
    lemma_positive(u);
    let up = u * pp;
    assert(0x8000 * lp <= 0x7ffe * up) by (nonlinear_arith)
        requires
            0x8000 * ll <= 0x7ffe * u,
            lp == ll * pp,
            up == u * pp,
            pp > 0,
    ;
    let (x, y) = (uu * lp, uu * up);
    assert(uu * (lp + up) == x + y) by (nonlinear_arith)
        requires
            x == uu * lp,
            y == uu * up,
    ;
    assert(0x8000 * x <= 0x7ffe * y) by (nonlinear_arith)
        requires
            0x8000 * lp <= 0x7ffe * up,
            x == uu * lp,
            y == uu * up,
            uu > 0,
    ;
    assert(y > 0) by (nonlinear_arith)
        requires
            y == uu * up,
            up == u * pp,
            uu > 0,
            u > 0,
            pp > 0,
    {
        assert(u * pp > 0) by (nonlinear_arith)
            requires
                u > 0,
                pp > 0,
        ;
        assert(uu * up > 0) by (nonlinear_arith)
            requires
                uu > 0,
                up > 0,
        ;
    }
    let z = pp * rr;
    assert(0x10000 * z >= 0xffff * y) by (nonlinear_arith)
        requires
            0x10000 * rr >= 0xffff * (uu * u),
            z == pp * rr,
            y == uu * up,
            up == u * pp,
            pp > 0,
    {
        let w = uu * u;
        assert(uu * (u * pp) == pp * w) by (nonlinear_arith)
            requires
                w == uu * u,
        ;
        assert(0x10000 * (pp * rr) >= 0xffff * (pp * w)) by (nonlinear_arith)
            requires
                0x10000 * rr >= 0xffff * w,
                pp > 0,
        ;
    }
}

/// The ground pushes the body away along its normal, whatever the friction does,
/// where tyres hold less than they are pressed with: where the square of the
/// friction limit is below one by one part in two to the fourteen.
pub proof fn the_force_on_the_body_points_away_from_the_ground(
    gear: LandingGearConfig,
    state: RigidBodyState,
    brakes: Binary64,
    environment: Environment,
    ground_frame: LocalFrame,
    measures: Seq<LegMeasure>,
)
    requires
        environment.ground_known(),
        norm::near_unit(state.orientation.to_vec4()),
        ({
            let plane = landing_gear::contact_plane_spec(
                gear,
                state,
                brakes,
                environment,
                ground_frame,
            );
            &&& norm::near_unit(norm::flat(plane.normal))
            &&& plane.friction_limit.is_finite()
            &&& 0 <= plane.friction_limit.value() <= pow2(1274)
            &&& norm::not_too_long(landing_gear::asked_friction(plane, measures[0].grip))
            &&& norm::not_too_long(landing_gear::asked_friction(plane, measures[1].grip))
            &&& norm::not_too_long(landing_gear::asked_friction(plane, measures[2].grip))
            &&& pow2(200) <= push_of(gear, plane, state, environment, ground_frame, measures)
                <= pow2(1400)
        }),
        ({
            let plane = landing_gear::contact_plane_spec(
                gear,
                state,
                brakes,
                environment,
                ground_frame,
            );
            let limit = plane.friction_limit.value();
            0x8000 * (limit * limit) <= 0x7ffe * (Binary64::one() * Binary64::one())
        }),
    ensures
        ({
            let plane = landing_gear::contact_plane_spec(
                gear,
                state,
                brakes,
                environment,
                ground_frame,
            );
            let loads = landing_gear::loads_spec(
                gear,
                state,
                brakes,
                environment,
                ground_frame,
                measures,
            );
            along_normal(loads.force, state.orientation.inverse(), plane.normal) > 0
        }),
{
    let plane = landing_gear::contact_plane_spec(gear, state, brakes, environment, ground_frame);
    let push = push_of(gear, plane, state, environment, ground_frame, measures);
    let loads = landing_gear::loads_spec(
        gear,
        state,
        brakes,
        environment,
        ground_frame,
        measures,
    );
    the_force_on_the_body_stays_within_the_friction_cone(
        gear,
        state,
        brakes,
        environment,
        ground_frame,
        measures,
    );
    lemma_turn_of_length_one(state.orientation);
    lemma_pow2_pos(200);
    lemma_away(
        loads.force,
        state.orientation.inverse(),
        plane.normal,
        push,
        plane.friction_limit.value(),
    );
}

} // verus!
