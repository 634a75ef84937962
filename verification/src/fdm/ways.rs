//! The ways in which wheels roll and slide lie along the ground.
use crate::binary64;
use crate::binary64::Binary64;
use crate::fdm::aircraft::LandingGearConfig;
use crate::fdm::cone;
use crate::fdm::environment::Environment;
use crate::fdm::landing_gear;
use crate::fdm::state::{LocalFrame, RigidBodyState};
use crate::near;
use crate::norm;
use crate::number;
use crate::rotation::DQuat;
use crate::track;
use crate::vector::DVec3;
use vstd::arithmetic::power2::*;
use vstd::prelude::*;

verus! {

/// The parts of the vector are at most a power of two.
spec fn up_to(v: DVec3, power: nat) -> bool {
    &&& v.x.is_finite() && number::magnitude_of(v.x.value()) <= pow2(power)
    &&& v.y.is_finite() && number::magnitude_of(v.y.value()) <= pow2(power)
    &&& v.z.is_finite() && number::magnitude_of(v.z.value()) <= pow2(power)
}

/// The powers of two that lengths and their squares come to.
proof fn lemma_units()
    ensures
        Binary64::one() == pow2(1074),
        Binary64::one() > 0,
        pow2(1075) == 2 * Binary64::one(),
        pow2(1076) == 4 * Binary64::one(),
        pow2(1037) * 0x2000000000 == Binary64::one(),
        pow2(1029) * 0x200000000000 == Binary64::one(),
        pow2(1023) * 0x8000000000000 == Binary64::one(),
{
    lemma2_to64();
    lemma2_to64_rest();
    lemma_pow2_pos(1074);
    lemma_pow2_adds(1074, 1);
    lemma_pow2_adds(1074, 2);
    lemma_pow2_adds(1037, 37);
    lemma_pow2_adds(1029, 45);
    lemma_pow2_adds(1023, 51);
}

/// What an error of three parts makes of a dot product.
pub proof fn lemma_error(e: int, f: int, g: int, x: int, y: int, z: int, m: int, n: int)
    requires
        -m <= e <= m,
        -m <= f <= m,
        -m <= g <= m,
        -n <= x <= n,
        -n <= y <= n,
        -n <= z <= n,
    ensures
        -(3 * (m * n)) <= e * x + f * y + g * z <= 3 * (m * n),
{
    assert(-(m * n) <= e * x <= m * n) by (nonlinear_arith)
        requires
            -m <= e <= m,
            -n <= x <= n,
    ;
    assert(-(m * n) <= f * y <= m * n) by (nonlinear_arith)
        requires
            -m <= f <= m,
            -n <= y <= n,
    ;
    assert(-(m * n) <= g * z <= m * n) by (nonlinear_arith)
        requires
            -m <= g <= m,
            -n <= z <= n,
    ;
}

/// The nose points somewhere, no further than a few metres for a metre.
proof fn lemma_nose(q: DQuat)
    requires
        norm::near_unit(q.to_vec4()),
    ensures
        up_to(q.rotate(landing_gear::forward_axis()), 1076),
{
    let o = Binary64::one() as int;
    let axis = landing_gear::forward_axis();
    lemma_units();
    binary64::lemma_of(0);
    binary64::lemma_of(1);
    cone::lemma_turn_of_length_one(q);
    track::lemma_itself(axis.x, 1074, 50);
    track::lemma_itself(axis.y, 1074, 50);
    track::lemma_itself(axis.z, 1074, 50);
    cone::lemma_turn(q, axis, o, 0, 0, 1, 1074);
    cone::lemma_turned_length(q, o, 0, 0);
    let (a, b, c) = (
        cone::turned(q, o, 0, 0, 0),
        cone::turned(q, o, 0, 0, 1),
        cone::turned(q, o, 0, 0, 2),
    );
    let u = o * o;
    let l = norm::length_squared(q.to_vec4());
    let m = 2 * (o * u);
    assert(0 * 0 == 0);
    cone::lemma_squares(q.x.value(), q.y.value(), q.z.value(), q.w.value());
    cone::lemma_squares(a, b, c, 0);
    cone::lemma_positive(o);
    assert((l * l) * u <= m * m && m >= 0) by (nonlinear_arith)
        requires
            0 <= l <= 2 * u,
            m == 2 * (o * u),
            u == o * o,
            o > 0,
            u > 0,
    {
        assert(l * l <= (2 * u) * (2 * u)) by (nonlinear_arith)
            requires
                0 <= l <= 2 * u,
        ;
        assert((l * l) * u <= ((2 * u) * (2 * u)) * u) by (nonlinear_arith)
            requires
                l * l <= (2 * u) * (2 * u),
                u > 0,
        ;
        assert(((2 * u) * (2 * u)) * u == 4 * ((u * u) * u)) by (nonlinear_arith);
        assert((2 * (o * u)) * (2 * (o * u)) == 4 * ((o * o) * (u * u))) by (nonlinear_arith);
        assert(u * (u * u) == (u * u) * u) by (nonlinear_arith);
        assert(o * u > 0) by (nonlinear_arith)
            requires
                o > 0,
                u > 0,
        ;
    }
    cone::lemma_part_of(a, (l * l) * u, m);
    cone::lemma_part_of(b, (l * l) * u, m);
    cone::lemma_part_of(c, (l * l) * u, m);
    let nose = q.rotate(axis);
    assert(o * (o * 1) == u);
    lemma_nose_part(nose.x, a, o, u);
    lemma_nose_part(nose.y, b, o, u);
    lemma_nose_part(nose.z, c, o, u);
}

proof fn lemma_nose_part(x: Binary64, a: int, o: int, u: int)
    requires
        o == Binary64::one(),
        u > 0,
        track::tracked_by(x, a, u, 1088, 47),
        number::magnitude_of(a) <= 2 * (o * u),
    ensures
        number::magnitude_of(x.value()) <= pow2(1076),
{
    let v = x.value();
    lemma_units();
    lemma2_to64();
    lemma2_to64_rest();
    lemma_pow2_adds(1074, 14);
    let (vu, ou) = (v * u, o * u);
    assert(pow2(1088) * u == 0x4000 * ou) by (nonlinear_arith)
        requires
            pow2(1088) == o * 0x4000,
            ou == o * u,
    ;
    assert(ou > 0) by (nonlinear_arith)
        requires
            ou == o * u,
            o > 0,
            u > 0,
    ;
    assert(-(4 * ou) <= vu <= 4 * ou);
    assert(-(4 * o) <= v <= 4 * o) by (nonlinear_arith)
        requires
            -(4 * (o * u)) <= v * u <= 4 * (o * u),
            u > 0,
    ;
}

/// A part of the nose along the ground.
proof fn lemma_along_part(nose: Binary64, n: Binary64, dot: Binary64, d: int)
    requires
        nose.is_finite() && number::magnitude_of(nose.value()) <= pow2(1076),
        n.is_finite() && number::magnitude_of(n.value()) <= pow2(1075),
        track::tracked_by(dot, d, Binary64::one() as int, 1082, 50),
    ensures
        ({
            let o = Binary64::one() as int;
            let u = o * o;
            let r = nose - n * dot;
            &&& r.is_finite()
            &&& number::magnitude_of(r.value()) <= pow2(1086)
            &&& -(pow2(1037) * u) <= r.value() * u - (nose.value() * u - n.value() * d) <= pow2(1037)
                * u
        }),
{
    let o = Binary64::one() as int;
    let u = o * o;
    let (v, m) = (nose.value(), n.value());
    lemma_units();
    cone::lemma_positive(o);
    track::lemma_itself(n, 1075, 50);
    track::lemma_times(n, dot, m, d, 1, o, 1075, 1082, 50);
    assert(o * (1 * o) == u);
    lemma_pow2_strictly_increases(1076, 1084);
    lemma_pow2_pos(1084);
    assert(pow2(49) * (v * u - v * u) == 0) by (nonlinear_arith);
    assert(pow2(1084) * u >= 0) by (nonlinear_arith)
        requires
            u > 0,
    ;
    assert(track::tracked_by(nose, v * u, u, 1084, 49));
    track::lemma_minus(nose, n * dot, v * u, m * d, u, 1084, 49);
    lemma_pow2_adds(1037, 49);
    lemma_pow2_pos(49);
    let r = (nose - n * dot).value();
    let e = r * u - (v * u - m * d);
    let (p, k) = (pow2(1037) * u, pow2(49) as int);
    assert(pow2(1086) * u == p * k) by (nonlinear_arith)
        requires
            pow2(1086) == pow2(1037) * k,
            p == pow2(1037) * u,
    ;
    assert(-p <= e <= p) by (nonlinear_arith)
        requires
            -(p * k) <= k * e <= p * k,
            k > 0,
    ;
}

/// The nose along the ground hardly leans.
proof fn lemma_along(nose: DVec3, n: DVec3)
    requires
        up_to(nose, 1076),
        norm::near_unit(norm::flat(n)),
    ensures
        ({
            let along = nose.minus(n.scaled(nose.dot(n)));
            let u = Binary64::one() * Binary64::one();
            &&& up_to(along, 1086)
            &&& -u <= 0x200000000 * landing_gear::dot_counts(along, n) <= u
        }),
{
    let o = Binary64::one() as int;
    let u = o * o;
    lemma_units();
    cone::lemma_positive(o);
    cone::lemma_direction(n);
    let along = nose.minus(n.scaled(nose.dot(n)));
    let (x, y, z) = (nose.x.value(), nose.y.value(), nose.z.value());
    let (p, q, r) = (n.x.value(), n.y.value(), n.z.value());
    let dot = nose.dot(n);
    let d = x * p + y * q + z * r;
    track::lemma_itself(nose.x, 1076, 51);
    track::lemma_itself(nose.y, 1076, 51);
    track::lemma_itself(nose.z, 1076, 51);
    track::lemma_itself(n.x, 1075, 51);
    track::lemma_itself(n.y, 1075, 51);
    track::lemma_itself(n.z, 1075, 51);
    track::lemma_times(nose.x, n.x, x, p, 1, 1, 1076, 1075, 51);
    track::lemma_times(nose.y, n.y, y, q, 1, 1, 1076, 1075, 51);
    track::lemma_times(nose.z, n.z, z, r, 1, 1, 1076, 1075, 51);
    assert(o * (1 * 1) == o);
    track::lemma_plus(nose.x * n.x, nose.y * n.y, x * p, y * q, o, 1078, 50);
    track::lemma_looser(nose.z * n.z, z * r, o, 1078, 50, 1080, 50);
    track::lemma_plus(nose.x * n.x + nose.y * n.y, nose.z * n.z, x * p + y * q, z * r, o, 1080, 50);
    lemma_along_part(nose.x, n.x, dot, d);
    lemma_along_part(nose.y, n.y, dot, d);
    lemma_along_part(nose.z, n.z, dot, d);
    lemma_error(x, y, z, p, q, r, 4 * o, 2 * o);
    assert((4 * o) * (2 * o) == 8 * u) by (nonlinear_arith)
        requires
            u == o * o,
    ;
    binary64::lemma_of(0);
    assert(0 * 0 == 0);
    let nn = p * p + q * q + r * r;
    let (a, b, c) = (along.x.value(), along.y.value(), along.z.value());
    lemma_leans(a, b, c, x, y, z, p, q, r, d, nn, o, u);
}

proof fn lemma_leans(
    a: int,
    b: int,
    c: int,
    x: int,
    y: int,
    z: int,
    p: int,
    q: int,
    r: int,
    d: int,
    nn: int,
    o: int,
    u: int,
)
    requires
        o == Binary64::one(),
        u == o * o,
        u > 0,
        -(2 * o) <= p <= 2 * o,
        -(2 * o) <= q <= 2 * o,
        -(2 * o) <= r <= 2 * o,
        d == x * p + y * q + z * r,
        nn == p * p + q * q + r * r,
        -(24 * u) <= d <= 24 * u,
        -u <= (nn - u) * 0x200000000000 <= u,
        -(pow2(1037) * u) <= a * u - (x * u - p * d) <= pow2(1037) * u,
        -(pow2(1037) * u) <= b * u - (y * u - q * d) <= pow2(1037) * u,
        -(pow2(1037) * u) <= c * u - (z * u - r * d) <= pow2(1037) * u,
    ensures
        -u <= 0x200000000 * (a * p + b * q + c * r) <= u,
{
    let m = pow2(1037) * u;
    let (e, f, g) = (
        a * u - (x * u - p * d),
        b * u - (y * u - q * d),
        c * u - (z * u - r * d),
    );
    lemma_units();
    lemma_error(e, f, g, p, q, r, m, 2 * o);
    let uu = u * u;
    assert(0x1000000000 * (m * (2 * o)) == uu) by (nonlinear_arith)
        requires
            m == pow2(1037) * u,
            pow2(1037) * 0x2000000000 == o,
            uu == u * u,
            u == o * o,
    {
        let k = pow2(1037) as int;
        assert(0x1000000000 * ((k * u) * (2 * o)) == (k * 0x2000000000) * (u * o)) by (nonlinear_arith);
        assert(o * (u * o) == u * (o * o)) by (nonlinear_arith);
    }
    let s = a * p + b * q + c * r;
    lemma_lean_part(a, x, p, d, u, e);
    lemma_lean_part(b, y, q, d, u, f);
    lemma_lean_part(c, z, r, d, u, g);
    let (i, j, k) = (a * p, b * q, c * r);
    assert((i + j + k) * u == i * u + j * u + k * u) by (nonlinear_arith);
    let (i, j, k) = (x * p, y * q, z * r);
    assert((i + j + k) * u == i * u + j * u + k * u) by (nonlinear_arith);
    let (i, j, k) = (p * p, q * q, r * r);
    assert((i + j + k) * d == i * d + j * d + k * d) by (nonlinear_arith);
    let t = nn - u;
    assert(d * u - nn * d == -(t * d)) by (nonlinear_arith)
        requires
            t == nn - u,
    ;
    let w = 0x200000000000 * t;
    assert(-(24 * uu) <= w * d <= 24 * uu) by (nonlinear_arith)
        requires
            -u <= w <= u,
            -(24 * u) <= d <= 24 * u,
            uu == u * u,
    {
        assert(-(u * (24 * u)) <= w * d <= u * (24 * u)) by (nonlinear_arith)
            requires
                -u <= w <= u,
                -(24 * u) <= d <= 24 * u,
        ;
        assert(u * (24 * u) == 24 * (u * u)) by (nonlinear_arith);
    }
    let td = t * d;
    assert(w * d == 0x200000000000 * td) by (nonlinear_arith)
        requires
            w == 0x200000000000 * t,
            td == t * d,
    ;
    cone::lemma_positive(u);
    let su = s * u;
    assert(-uu <= 0x200000000 * su <= uu);
    let h = 0x200000000 * s;
    assert(h * u == 0x200000000 * su) by (nonlinear_arith)
        requires
            h == 0x200000000 * s,
            su == s * u,
    ;
    assert(-u <= h <= u) by (nonlinear_arith)
        requires
            -(u * u) <= h * u <= u * u,
            u > 0,
    ;
}

proof fn lemma_lean_part(a: int, x: int, p: int, d: int, u: int, e: int)
    requires
        e == a * u - (x * u - p * d),
    ensures
        (a * p) * u == (x * p) * u - (p * p) * d + e * p,
{
    let (i, j, k) = (a * u, x * u, p * d);
    assert(i * p == j * p - k * p + e * p) by (nonlinear_arith)
        requires
            e == i - (j - k),
    ;
    assert(i * p == (a * p) * u) by (nonlinear_arith)
        requires
            i == a * u,
    ;
    assert(j * p == (x * p) * u) by (nonlinear_arith)
        requires
            j == x * u,
    ;
    assert(k * p == (p * p) * d) by (nonlinear_arith)
        requires
            k == p * d,
    ;
}

/// A direction that hardly leans hardly leans after it was brought to length one.
proof fn lemma_brought(v: DVec3, n: DVec3, most: int, lean: int)
    requires
        norm::ordinary(norm::flat(v)),
        up_to(n, 1075),
        most > 0,
        2 * (Binary64::one() * Binary64::one()) <= (most * most) * norm::length_squared(
            norm::flat(v),
        ),
        -lean <= landing_gear::dot_counts(v, n) <= lean,
    ensures
        ({
            let u = Binary64::one() * Binary64::one();
            let d = landing_gear::dot_counts(v.normalized(), n);
            &&& norm::near_unit(norm::flat(v.normalized()))
            &&& 0x1000000000000 * d <= 0x1000000000000 * (most * lean) + u
            &&& -(0x1000000000000 * (most * lean) + u) <= 0x1000000000000 * d
        }),
{
    let o = Binary64::one() as int;
    let u = o * o;
    let l = norm::length_squared(norm::flat(v));
    let k = Binary64::of(1) / v.length();
    let kv = k.value();
    lemma_units();
    cone::lemma_positive(o);
    norm::a_normalised_direction_has_length_one(v);
    norm::lemma_direction_scale(v);
    binary64::lemma_of(0);
    assert(0 * 0 == 0);
    let (x, y, z) = (v.x.value(), v.y.value(), v.z.value());
    let (p, q, r) = (n.x.value(), n.y.value(), n.z.value());
    cone::lemma_squares(x, y, z, kv);
    assert(kv <= most * o) by {
        lemma_scale_bound(kv, l, most, o, u);
    }
    lemma_brought_part(v.x, k, l, o, u);
    lemma_brought_part(v.y, k, l, o, u);
    lemma_brought_part(v.z, k, l, o, u);
    let w = v.normalized();
    let (a, b, c) = (w.x.value(), w.y.value(), w.z.value());
    let m = pow2(1023) * o;
    let (e, f, g) = (a * o - x * kv, b * o - y * kv, c * o - z * kv);
    lemma_error(e, f, g, p, q, r, m, 2 * o);
    lemma_brought_dot(a, x, p, o, kv, e);
    lemma_brought_dot(b, y, q, o, kv, f);
    lemma_brought_dot(c, z, r, o, kv, g);
    let (i, j, h) = (a * p, b * q, c * r);
    let s = i + j + h;
    assert(s * o == i * o + j * o + h * o) by (nonlinear_arith)
        requires
            s == i + j + h,
    ;
    let (i, j, h) = (x * p, y * q, z * r);
    let d = i + j + h;
    assert(d * kv == i * kv + j * kv + h * kv) by (nonlinear_arith)
        requires
            d == i + j + h,
    ;
    let ml = most * lean;
    assert(-(ml * o) <= d * kv <= ml * o) by (nonlinear_arith)
        requires
            -lean <= d <= lean,
            0 <= kv <= most * o,
            ml == most * lean,
    {
        let t = most * o;
        assert(-(lean * t) <= d * kv <= lean * t) by (nonlinear_arith)
            requires
                -lean <= d <= lean,
                0 <= kv <= t,
        ;
        assert(lean * (most * o) == (most * lean) * o) by (nonlinear_arith);
    }
    assert(0x1000000000000 * (3 * (m * (2 * o))) <= u * o) by (nonlinear_arith)
        requires
            m == pow2(1023) * o,
            pow2(1023) * 0x8000000000000 == o,
            u == o * o,
            o > 0,
    {
        let t = pow2(1023) as int;
        assert((t * o) * (2 * o) == 2 * (t * (o * o))) by (nonlinear_arith);
        let tu = t * u;
        assert(u * o == 0x8000000000000 * tu) by (nonlinear_arith)
            requires
                t * 0x8000000000000 == o,
                tu == t * u,
        ;
        assert(tu >= 0) by (nonlinear_arith)
            requires
                tu == t * u,
                u == o * o,
                t >= 0,
        {
            assert(o * o >= 0) by (nonlinear_arith);
            assert(t * u >= 0) by (nonlinear_arith)
                requires
                    t >= 0,
                    u >= 0,
            ;
        }
    }
    let (mo, so) = (ml * o, s * o);
    let (i, j) = (0x1000000000000 * s, 0x1000000000000 * ml + u);
    assert(i * o == 0x1000000000000 * so && j * o == 0x1000000000000 * mo + u * o)
        by (nonlinear_arith)
        requires
            i == 0x1000000000000 * s,
            j == 0x1000000000000 * ml + u,
            so == s * o,
            mo == ml * o,
    ;
    assert(-j <= i <= j) by (nonlinear_arith)
        requires
            -(j * o) <= i * o <= j * o,
            o > 0,
    ;
}

proof fn lemma_brought_dot(a: int, x: int, p: int, o: int, k: int, e: int)
    requires
        e == a * o - x * k,
    ensures
        (a * p) * o == (x * p) * k + e * p,
{
    let (i, j) = (a * o, x * k);
    assert(i * p == j * p + e * p) by (nonlinear_arith)
        requires
            e == i - j,
    ;
    assert(i * p == (a * p) * o) by (nonlinear_arith)
        requires
            i == a * o,
    ;
    assert(j * p == (x * p) * k) by (nonlinear_arith)
        requires
            j == x * k,
    ;
}

proof fn lemma_scale_bound(k: int, l: int, most: int, o: int, u: int)
    requires
        k >= 0,
        o > 0,
        most > 0,
        u == o * o,
        u > 0,
        l > 0,
        l * (k * k) <= 2 * (u * u),
        2 * u <= (most * most) * l,
    ensures
        k <= most * o,
{
    let t = most * o;
    let (kk, tt) = (k * k, t * t);
    assert(tt == (most * most) * u) by (nonlinear_arith)
        requires
            tt == t * t,
            t == most * o,
            u == o * o,
    ;
    assert(l * kk <= l * tt) by (nonlinear_arith)
        requires
            l * kk <= 2 * (u * u),
            2 * u <= (most * most) * l,
            tt == (most * most) * u,
            u > 0,
    {
        let m = most * most;
        assert((2 * u) * u <= (m * l) * u) by (nonlinear_arith)
            requires
                2 * u <= m * l,
                u > 0,
        ;
        assert((m * l) * u == l * (m * u)) by (nonlinear_arith);
        assert((2 * u) * u == 2 * (u * u)) by (nonlinear_arith);
    }
    assert(kk <= tt) by (nonlinear_arith)
        requires
            l * kk <= l * tt,
            l > 0,
    ;
    assert(t > 0) by (nonlinear_arith)
        requires
            t == most * o,
            most > 0,
            o > 0,
    ;
    cone::lemma_part_of(k, kk, t);
}

proof fn lemma_brought_part(a: Binary64, k: Binary64, l: int, o: int, u: int)
    requires
        o == Binary64::one(),
        u == o * o,
        u > 0,
        a.is_finite(),
        k.is_finite(),
        a.value() * a.value() <= l,
        l * (k.value() * k.value()) <= 2 * (u * u),
    ensures
        (a * k).is_finite(),
        -(pow2(1023) * o) <= (a * k).value() * o - a.value() * k.value() <= pow2(1023) * o,
{
    let (x, y) = (a.value(), k.value());
    let (w, m) = (x * y, 2 * u);
    lemma_units();
    assert(w * w <= l * (y * y)) by (nonlinear_arith)
        requires
            w == x * y,
            x * x <= l,
    {
        let yy = y * y;
        assert(yy >= 0) by (nonlinear_arith)
            requires
                yy == y * y,
        ;
        assert((x * y) * (x * y) == (x * x) * (y * y)) by (nonlinear_arith);
        assert((x * x) * yy <= l * yy) by (nonlinear_arith)
            requires
                x * x <= l,
                yy >= 0,
        ;
    }
    assert(2 * (u * u) <= m * m) by (nonlinear_arith)
        requires
            m == 2 * u,
    ;
    cone::lemma_part_of(w, 2 * (u * u), m);
    assert(pow2(1075) * o == m) by (nonlinear_arith)
        requires
            pow2(1075) == 2 * o,
            m == 2 * u,
            u == o * o,
    ;
    near::lemma_product(a, k, 1075);
}

/// The smallest length that the nose along the ground can have where it counts
/// as a way.
proof fn lemma_smallest()
    ensures
        ({
            let r = Binary64::ratio(1, 1_000_000_000_000);
            &&& r.is_finite()
            &&& 0x10000000000 * r.value() >= Binary64::one()
        }),
{
    let o = Binary64::one();
    let d: nat = 1_000_000_000_000;
    binary64::lemma_ratio_share(1, 1_000_000_000_000);
    binary64::lemma_ratio_value(1, 1_000_000_000_000);
    lemma_units();
    lemma2_to64();
    lemma_pow2_strictly_increases(1074, 2097);
    lemma_pow2_strictly_increases(63, 1074);
    assert(o < d * pow2(2097)) by (nonlinear_arith)
        requires
            o < pow2(2097),
            d == 1_000_000_000_000,
    ;
    norm::lemma_rounding(o, d);
}

/// What the nose leaves across, before it is brought to length one.
proof fn lemma_across(f: DVec3, n: DVec3)
    requires
        norm::near_unit(norm::flat(f)),
        norm::near_unit(norm::flat(n)),
        ({
            let u = Binary64::one() * Binary64::one();
            -u <= 0x400 * landing_gear::dot_counts(f, n) <= u
        }),
    ensures
        ({
            let c = f.cross(n);
            let u = Binary64::one() * Binary64::one();
            &&& norm::ordinary(norm::flat(c))
            &&& u <= 8 * norm::length_squared(norm::flat(c))
            &&& -u <= 0x10000000000 * landing_gear::dot_counts(c, n) <= u
            &&& -u <= 0x10000000000 * landing_gear::dot_counts(c, f) <= u
        }),
{
    let o = Binary64::one() as int;
    let u = o * o;
    let c = f.cross(n);
    lemma_units();
    cone::lemma_positive(o);
    cone::lemma_direction(f);
    cone::lemma_direction(n);
    binary64::lemma_of(0);
    assert(0 * 0 == 0);
    let (a, b, d) = (f.x.value(), f.y.value(), f.z.value());
    let (x, y, z) = (n.x.value(), n.y.value(), n.z.value());
    lemma_across_part(f.y, n.z, n.y, f.z);
    lemma_across_part(f.z, n.x, n.z, f.x);
    lemma_across_part(f.x, n.y, n.x, f.y);
    let (p, q, r) = (b * z - y * d, d * x - z * a, a * y - x * b);
    cone::lemma_upright(a, b, d, x, y, z);
    cone::lemma_lagrange(a, b, d, x, y, z);
    let m = pow2(1029) * o;
    let (s, t, v) = (c.x.value(), c.y.value(), c.z.value());
    let (e, g, h) = (s * o - p, t * o - q, v * o - r);
    lemma_error(e, g, h, x, y, z, m, 2 * o);
    lemma_across_lean(s, t, v, p, q, r, x, y, z, o, u, m);
    lemma_error(e, g, h, a, b, d, m, 2 * o);
    lemma_across_lean(s, t, v, p, q, r, a, b, d, o, u, m);
    let (ff, nn) = (a * a + b * b + d * d, x * x + y * y + z * z);
    let fn_ = x * a + y * b + z * d;
    assert(a * x == x * a && b * y == y * b && d * z == z * d) by (nonlinear_arith);
    lemma_across_length(s, t, v, p, q, r, ff, nn, fn_, o, u, m);
    let l = s * s + t * t + v * v;
    lemma_pow2_strictly_increases(1079, 1574);
    lemma_pow2_adds(574, 574);
    lemma_pow2_adds(1074, 1074);
    lemma_pow2_adds(1148, 1000);
    lemma_pow2_strictly_increases(63, 1000);
    lemma2_to64();
    lemma2_to64_rest();
    lemma_pow2_pos(1148);
    let small = pow2(574) as int;
    if number::magnitude_of(s) < small && number::magnitude_of(t) < small && number::magnitude_of(v)
        < small {
        lemma_below(s, small);
        lemma_below(t, small);
        lemma_below(v, small);
        let w = pow2(1148) as int;
        assert(u >= 0x100 * w) by (nonlinear_arith)
            requires
                u == w * pow2(1000),
                pow2(1000) >= 0x100,
                w > 0,
        ;
    }
}

proof fn lemma_below(a: int, m: int)
    requires
        number::magnitude_of(a) < m,
    ensures
        a * a <= m * m,
{
    assert(a * a <= m * m) by (nonlinear_arith)
        requires
            -m < a < m,
    ;
}

proof fn lemma_across_part(a: Binary64, b: Binary64, c: Binary64, d: Binary64)
    requires
        a.is_finite() && number::magnitude_of(a.value()) <= pow2(1075),
        b.is_finite() && number::magnitude_of(b.value()) <= pow2(1075),
        c.is_finite() && number::magnitude_of(c.value()) <= pow2(1075),
        d.is_finite() && number::magnitude_of(d.value()) <= pow2(1075),
    ensures
        ({
            let o = Binary64::one() as int;
            let r = a * b - c * d;
            let m = pow2(1029) * o;
            &&& r.is_finite()
            &&& number::magnitude_of(r.value()) <= pow2(1079)
            &&& -m <= r.value() * o - (a.value() * b.value() - c.value() * d.value()) <= m
        }),
{
    let o = Binary64::one() as int;
    let (w, x, y, z) = (a.value(), b.value(), c.value(), d.value());
    lemma_units();
    track::lemma_itself(a, 1075, 51);
    track::lemma_itself(b, 1075, 51);
    track::lemma_itself(c, 1075, 51);
    track::lemma_itself(d, 1075, 51);
    track::lemma_times(a, b, w, x, 1, 1, 1075, 1075, 51);
    track::lemma_times(c, d, y, z, 1, 1, 1075, 1075, 51);
    assert(o * (1 * 1) == o);
    track::lemma_minus(a * b, c * d, w * x, y * z, o, 1077, 50);
    lemma_pow2_adds(1029, 50);
    lemma_pow2_pos(50);
    let e = (a * b - c * d).value() * o - (w * x - y * z);
    let (m, k) = (pow2(1029) * o, pow2(50) as int);
    assert(pow2(1079) * o == m * k) by (nonlinear_arith)
        requires
            pow2(1079) == pow2(1029) * k,
            m == pow2(1029) * o,
    ;
    assert(-m <= e <= m) by (nonlinear_arith)
        requires
            -(m * k) <= k * e <= m * k,
            k > 0,
    ;
}

proof fn lemma_across_lean(
    s: int,
    t: int,
    v: int,
    p: int,
    q: int,
    r: int,
    x: int,
    y: int,
    z: int,
    o: int,
    u: int,
    m: int,
)
    requires
        o == Binary64::one(),
        u == o * o,
        m == pow2(1029) * o,
        x * p + y * q + z * r == 0,
        -(3 * (m * (2 * o))) <= (s * o - p) * x + (t * o - q) * y + (v * o - r) * z <= 3 * (m * (2
            * o)),
    ensures
        -u <= 0x10000000000 * (s * x + t * y + v * z) <= u,
{
    lemma_units();
    let (i, j, k) = (s * o, t * o, v * o);
    assert((i - p) * x == i * x - x * p) by (nonlinear_arith);
    assert((j - q) * y == j * y - y * q) by (nonlinear_arith);
    assert((k - r) * z == k * z - z * r) by (nonlinear_arith);
    let d = s * x + t * y + v * z;
    assert(d * o == i * x + j * y + k * z) by (nonlinear_arith)
        requires
            i == s * o,
            j == t * o,
            k == v * o,
            d == s * x + t * y + v * z,
    {
        assert((s * o) * x == (s * x) * o && (t * o) * y == (t * y) * o && (v * o) * z == (v * z)
            * o) by (nonlinear_arith);
        let (a, b, c) = (s * x, t * y, v * z);
        assert((a + b + c) * o == a * o + b * o + c * o) by (nonlinear_arith);
    }
    let w = pow2(1029) as int;
    let wu = w * u;
    assert(m * (2 * o) == 2 * wu && u * o == 0x200000000000 * wu) by (nonlinear_arith)
        requires
            m == w * o,
            u == o * o,
            wu == w * u,
            w * 0x200000000000 == o,
    {
        assert((w * o) * (2 * o) == 2 * (w * (o * o))) by (nonlinear_arith);
        assert(u * (w * 0x200000000000) == 0x200000000000 * (w * u)) by (nonlinear_arith);
    }
    assert(wu >= 0) by (nonlinear_arith)
        requires
            wu == w * u,
            u == o * o,
            w >= 0,
    {
        assert(o * o >= 0) by (nonlinear_arith);
        assert(w * u >= 0) by (nonlinear_arith)
            requires
                w >= 0,
                u >= 0,
        ;
    }
    let (h, dd) = (0x10000000000 * d, d * o);
    assert(h * o == 0x10000000000 * dd) by (nonlinear_arith)
        requires
            h == 0x10000000000 * d,
            dd == d * o,
    ;
    assert(-u <= h <= u) by (nonlinear_arith)
        requires
            -(u * o) <= h * o <= u * o,
            o > 0,
    ;
}

proof fn lemma_half(c: int, p: int, e: int)
    requires
        c == p + e,
    ensures
        2 * (c * c) >= p * p - 2 * (e * e),
{
    let d = p + 2 * e;
    assert(d * d >= 0) by (nonlinear_arith);
    assert(d * d == p * p + 4 * (p * e) + 4 * (e * e)) by (nonlinear_arith)
        requires
            d == p + 2 * e,
    ;
    assert(c * c == p * p + 2 * (p * e) + e * e) by (nonlinear_arith)
        requires
            c == p + e,
    ;
}

proof fn lemma_across_length(
    s: int,
    t: int,
    v: int,
    p: int,
    q: int,
    r: int,
    ff: int,
    nn: int,
    d: int,
    o: int,
    u: int,
    m: int,
)
    requires
        o == Binary64::one(),
        u == o * o,
        u > 0,
        m == pow2(1029) * o,
        -m <= s * o - p <= m,
        -m <= t * o - q <= m,
        -m <= v * o - r <= m,
        p * p + q * q + r * r == ff * nn - d * d,
        -u <= (ff - u) * 0x200000000000,
        -u <= (nn - u) * 0x200000000000,
        -u <= 0x400 * d <= u,
    ensures
        u <= 8 * (s * s + t * t + v * v),
{
    let uu = u * u;
    lemma_units();
    cone::lemma_positive(u);
    assert(0x100 * ff >= 0xff * u && 0x100 * nn >= 0xff * u);
    let (x, y) = (0x100 * ff, 0x100 * nn);
    assert(x * y >= (0xff * u) * (0xff * u)) by (nonlinear_arith)
        requires
            x >= 0xff * u,
            y >= 0xff * u,
            u > 0,
    ;
    let fn_ = ff * nn;
    assert(x * y == 0x10000 * fn_) by (nonlinear_arith)
        requires
            x == 0x100 * ff,
            y == 0x100 * nn,
            fn_ == ff * nn,
    ;
    assert((0xff * u) * (0xff * u) == 0xfe01 * uu) by (nonlinear_arith)
        requires
            uu == u * u,
    ;
    let w = 0x400 * d;
    assert(w * w <= uu) by (nonlinear_arith)
        requires
            -u <= w <= u,
            uu == u * u,
    ;
    let dd = d * d;
    assert(w * w == 0x100000 * dd) by (nonlinear_arith)
        requires
            w == 0x400 * d,
            dd == d * d,
    ;
    let (e, f, g) = (s * o - p, t * o - q, v * o - r);
    let mm = m * m;
    assert(0x100 * m <= u) by (nonlinear_arith)
        requires
            m == pow2(1029) * o,
            pow2(1029) * 0x200000000000 == o,
            u == o * o,
            o > 0,
    {
        let k = pow2(1029) as int;
        assert(0x100 * (k * o) <= (k * 0x200000000000) * o) by (nonlinear_arith)
            requires
                k >= 0,
                o > 0,
        ;
    }
    assert(m >= 0) by (nonlinear_arith)
        requires
            m == pow2(1029) * o,
            o > 0,
    ;
    assert(0x10000 * mm <= uu) by (nonlinear_arith)
        requires
            0 <= 0x100 * m <= u,
            mm == m * m,
            uu == u * u,
    ;
    lemma_sq(e, m);
    lemma_sq(f, m);
    lemma_sq(g, m);
    lemma_half(s * o, p, e);
    lemma_half(t * o, q, f);
    lemma_half(v * o, r, g);
    let l = s * s + t * t + v * v;
    assert(l * u == (s * o) * (s * o) + (t * o) * (t * o) + (v * o) * (v * o)) by (nonlinear_arith)
        requires
            l == s * s + t * t + v * v,
            u == o * o,
    {
        assert((s * o) * (s * o) == (s * s) * (o * o)) by (nonlinear_arith);
        assert((t * o) * (t * o) == (t * t) * (o * o)) by (nonlinear_arith);
        assert((v * o) * (v * o) == (v * v) * (o * o)) by (nonlinear_arith);
        let (a, b, c) = (s * s, t * t, v * v);
        assert((a + b + c) * u == a * u + b * u + c * u) by (nonlinear_arith);
    }
    let lu = l * u;
    assert(8 * lu >= uu);
    let h = 8 * l;
    assert(h * u == 8 * lu) by (nonlinear_arith)
        requires
            h == 8 * l,
            lu == l * u,
    ;
    assert(u <= h) by (nonlinear_arith)
        requires
            u * u <= h * u,
            u > 0,
    ;
}

proof fn lemma_sq(e: int, m: int)
    requires
        -m <= e <= m,
    ensures
        e * e <= m * m,
{
    assert(e * e <= m * m) by (nonlinear_arith)
        requires
            -m <= e <= m,
    ;
}

/// The ways along and across, where the nose has any, are of length one and lie
/// along the ground: their products with its normal are at most one part in two
/// to the ten, and in two to the thirty-seven. Across is square to along, to one
/// part in two to the thirty-seven.
pub proof fn the_ways_lie_along_the_ground(
    gear: LandingGearConfig,
    state: RigidBodyState,
    brakes: Binary64,
    environment: Environment,
    ground_frame: LocalFrame,
)
    requires
        norm::near_unit(state.orientation.to_vec4()),
        ({
            let plane = landing_gear::contact_plane_spec(
                gear,
                state,
                brakes,
                environment,
                ground_frame,
            );
            plane.has_ways && norm::near_unit(norm::flat(plane.normal))
        }),
    ensures
        ({
            let plane = landing_gear::contact_plane_spec(
                gear,
                state,
                brakes,
                environment,
                ground_frame,
            );
            let u = Binary64::one() * Binary64::one();
            &&& norm::near_unit(norm::flat(plane.forward))
            &&& norm::near_unit(norm::flat(plane.lateral))
            &&& -u <= 0x400 * landing_gear::dot_counts(plane.forward, plane.normal) <= u
            &&& -u <= 0x2000000000 * landing_gear::dot_counts(plane.lateral, plane.normal) <= u
            &&& -u <= 0x2000000000 * landing_gear::dot_counts(plane.lateral, plane.forward) <= u
        }),
{
    let o = Binary64::one() as int;
    let u = o * o;
    let n = environment.ground_normal_ecef(ground_frame);
    let nose = state.orientation.rotate(landing_gear::forward_axis());
    let along = landing_gear::spec_nose_along(state, n);
    let least = Binary64::ratio(1, 1_000_000_000_000);
    lemma_units();
    cone::lemma_positive(o);
    cone::lemma_direction(n);
    lemma_nose(state.orientation);
    lemma_along(nose, n);
    lemma_smallest();
    binary64::lemma_order(least, along.dot(along));
    lemma_pow2_strictly_increases(1086, 1574);
    lemma_pow2_adds(80, 994);
    lemma_pow2_strictly_increases(41, 994);
    lemma_pow2_pos(80);
    lemma2_to64_rest();
    let dot = along.dot(along).value();
    assert(dot > pow2(80)) by (nonlinear_arith)
        requires
            0x10000000000 * dot > o,
            o == pow2(80) * pow2(994),
            pow2(994) > 0x20000000000,
            pow2(80) > 0,
    ;
    norm::lemma_has_length(along);
    norm::lemma_direction_scale(along);
    let l = norm::length_squared(norm::flat(along));
    let most = 0x200000int;
    assert(2 * u <= (most * most) * l) by (nonlinear_arith)
        requires
            most == 0x200000,
            dot * o <= 2 * l,
            0x10000000000 * dot >= o,
            u == o * o,
            o > 0,
    {
        assert(0x10000000000 * (dot * o) >= o * o) by (nonlinear_arith)
            requires
                0x10000000000 * dot >= o,
                o > 0,
        ;
    }
    let d = landing_gear::dot_counts(along, n);
    let lean = if d < 0 {
        -d
    } else {
        d
    };
    lemma_brought(along, n, most, lean);
    let forward = along.normalized();
    lemma_across(forward, n);
    let c = forward.cross(n);
    let d = landing_gear::dot_counts(c, n);
    let lean = if d < 0 {
        -d
    } else {
        d
    };
    lemma_brought(c, n, 4, lean);
    let d = landing_gear::dot_counts(c, forward);
    let lean = if d < 0 {
        -d
    } else {
        d
    };
    cone::lemma_direction(forward);
    lemma_brought(c, forward, 4, lean);
}

} // verus!
