//! Which way the ground faces, and how far from it a height over it is.
use crate::binary64;
use crate::binary64::Binary64;
use crate::fdm::cone;
use crate::fdm::environment::{Environment, GroundSlope};
use crate::fdm::frames;
use crate::fdm::spin;
use crate::fdm::state::LocalFrame;
use crate::inverse;
use crate::norm;
use crate::number;
use crate::track;
use crate::vector::DVec3;
use vstd::arithmetic::power2::*;
use vstd::prelude::*;

verus! {

/// A slope of four in one at most.
pub open spec fn can_be_stood_on(slope: GroundSlope) -> bool {
    &&& slope.north.is_finite() && number::magnitude_of(slope.north.value()) <= pow2(1076)
    &&& slope.east.is_finite() && number::magnitude_of(slope.east.value()) <= pow2(1076)
}

/// A direction given north, east and down that stands on a slope: it points up,
/// has length one, and is square to the way that rises north and to the way that
/// rises east, but for rounding.
pub open spec fn stands_on(u: DVec3, slope: GroundSlope) -> bool {
    let o = Binary64::one() as int;
    let (n, e) = (slope.north.value(), slope.east.value());
    let (x, y, z) = (u.x.value(), u.y.value(), u.z.value());
    &&& norm::near_unit(norm::flat(u))
    &&& z < 0
    &&& -(o * o) <= 0x40000000000 * (x * o - n * z) <= o * o
    &&& -(o * o) <= 0x40000000000 * (y * o - e * z) <= o * o
}

/// An earth-fixed vector is that direction along the axes of a place, but for
/// rounding.
pub open spec fn lies_along(v: DVec3, frame: LocalFrame, u: DVec3) -> bool {
    let (n, e, d) = (u.x.value(), u.y.value(), u.z.value());
    &&& frames::close_to(
        v.x.value(),
        n * frame.north.x.value() + e * frame.east.x.value() + d * frame.down.x.value(),
        1075,
    )
    &&& frames::close_to(
        v.y.value(),
        n * frame.north.y.value() + e * frame.east.y.value() + d * frame.down.y.value(),
        1075,
    )
    &&& frames::close_to(
        v.z.value(),
        n * frame.north.z.value() + e * frame.east.z.value() + d * frame.down.z.value(),
        1075,
    )
}

/// The normal of the ground, given along earth-fixed axes, is the direction that
/// stands on its slope.
pub proof fn the_normal_stands_on_the_slope(environment: Environment, ground_frame: LocalFrame)
    requires
        can_be_stood_on(environment.ground_slope),
        frames::has_axes(ground_frame),
    ensures
        exists|u: DVec3|
            #![trigger stands_on(u, environment.ground_slope)]
            stands_on(u, environment.ground_slope) && lies_along(
                environment.ground_normal_ecef(ground_frame),
                ground_frame,
                u,
            ),
{
    let o = Binary64::one() as int;
    let slope = environment.ground_slope;
    let (n, e) = (slope.north, slope.east);
    let one = Binary64::of(1);
    let v = DVec3 { x: n.negate(), y: e.negate(), z: one.negate() };
    let u = v.normalized();
    let k = one / v.length();
    binary64::lemma_of(0);
    binary64::lemma_of(1);
    binary64::lemma_negate(n);
    binary64::lemma_negate(e);
    binary64::lemma_negate(one);
    lemma_pow2_pos(1074);
    lemma_pow2_strictly_increases(1076, 1574);
    lemma_pow2_strictly_increases(1074, 1574);
    lemma_pow2_strictly_increases(574, 1074);
    assert(norm::ordinary(norm::flat(v)));
    norm::a_normalised_direction_has_length_one(v);
    norm::lemma_direction_scale(v);
    let l = norm::length_squared(norm::flat(v));
    let t = k.value();
    let w = o * o;
    lemma_scale_is_small(v, l, t);
    track::lemma_itself(k, 1075, 51);
    lemma_pow2_adds(1074, 1);
    lemma2_to64();
    lemma_slope(n, k);
    lemma_slope(e, k);
    lemma_opposite(k);
    let z = u.z.value();
    assert(z == -t);
    if t == 0 {
        binary64::lemma_zero_factor(k, v.x);
        binary64::lemma_zero_factor(k, v.y);
        binary64::lemma_zero_factor(k, v.z);
        assert(0 * 0 == 0);
        assert(norm::length_squared(norm::flat(u)) == 0);
        assert(w > 0) by (nonlinear_arith)
            requires
                w == o * o,
                o > 0,
        ;
        assert(false);
    }
    let (a, b) = (n.value(), e.value());
    assert(a * z == -(a * t)) by (nonlinear_arith)
        requires
            z == -t,
    ;
    assert(b * z == -(b * t)) by (nonlinear_arith)
        requires
            z == -t,
    ;
    assert(stands_on(u, slope));
    lemma_within(u);
    frames::lemma_part(ground_frame.north.x, ground_frame.east.x, ground_frame.down.x, u, 1075);
    frames::lemma_part(ground_frame.north.y, ground_frame.east.y, ground_frame.down.y, u, 1075);
    frames::lemma_part(ground_frame.north.z, ground_frame.east.z, ground_frame.down.z, u, 1075);
}

/// A direction has no part of more than two.
proof fn lemma_within(u: DVec3)
    requires
        norm::near_unit(norm::flat(u)),
    ensures
        inverse::at_most(u, 1075),
{
    cone::lemma_direction(u);
}

/// What brings a vector down to length one is small where one of its parts is
/// one.
proof fn lemma_scale_is_small(v: DVec3, l: int, t: int)
    requires
        l == norm::length_squared(norm::flat(v)),
        v.z.value() == -(Binary64::one() as int),
        t >= 0,
        ({
            let u = Binary64::one() as int * Binary64::one() as int;
            l * (t * t) <= 2 * (u * u)
        }),
    ensures
        t <= pow2(1075),
{
    let o = Binary64::one() as int;
    let u = o * o;
    lemma_pow2_pos(1074);
    lemma_pow2_adds(1074, 1);
    lemma2_to64();
    binary64::lemma_of(0);
    let (a, b, c) = (v.x.value(), v.y.value(), v.z.value());
    assert(l >= u) by {
        assert(a * a >= 0) by (nonlinear_arith);
        assert(b * b >= 0) by (nonlinear_arith);
        assert(c * c == u) by (nonlinear_arith)
            requires
                c == -o,
                u == o * o,
        ;
        assert(0 * 0 == 0);
    }
    assert(u > 0) by (nonlinear_arith)
        requires
            u == o * o,
            o > 0,
    ;
    let tt = t * t;
    assert(tt >= 0) by (nonlinear_arith)
        requires
            tt == t * t,
    ;
    assert(tt <= 2 * u) by (nonlinear_arith)
        requires
            l * tt <= 2 * (u * u),
            l >= u,
            u > 0,
            tt >= 0,
    {
        assert(u * tt <= l * tt) by (nonlinear_arith)
            requires
                l >= u,
                tt >= 0,
        ;
        assert(u * tt <= u * (2 * u)) by (nonlinear_arith)
            requires
                u * tt <= 2 * (u * u),
        ;
        assert(tt <= 2 * u) by (nonlinear_arith)
            requires
                u * tt <= u * (2 * u),
                u > 0,
        ;
    }
    assert(t <= 2 * o) by (nonlinear_arith)
        requires
            t * t <= 2 * (o * o),
            o > 0,
            t >= 0,
    ;
}

/// One part of the direction.
proof fn lemma_slope(n: Binary64, k: Binary64)
    requires
        n.is_finite() && number::magnitude_of(n.value()) <= pow2(1076),
        track::tracked_by(k, k.value(), 1, 1075, 51),
    ensures
        ({
            let o = Binary64::one() as int;
            let x = (n.negate() * k).value();
            let off = x * o + n.value() * k.value();
            -(o * o) <= 0x40000000000 * off <= o * o
        }),
{
    let o = Binary64::one() as int;
    lemma_pow2_pos(1074);
    binary64::lemma_negate(n);
    let (a, t) = (n.value(), k.value());
    track::lemma_itself(n.negate(), 1076, 51);
    track::lemma_times(n.negate(), k, -a, t, 1, 1, 1076, 1075, 51);
    assert(o * (1 * 1) == o);
    assert((-a) * t == -(a * t)) by (nonlinear_arith);
    lemma_pow2_adds(1074, 4);
    lemma2_to64();
    lemma2_to64_rest();
    assert(pow2(1078) * o == 16 * (o * o)) by (nonlinear_arith)
        requires
            pow2(1078) == o * 16,
    ;
    assert(o * o >= 0) by (nonlinear_arith);
}

/// Minus one times a number is its opposite.
proof fn lemma_opposite(k: Binary64)
    requires
        k.is_finite(),
    ensures
        (Binary64::of(1).negate() * k).value() == -k.value(),
{
    let one = Binary64::of(1);
    let o = Binary64::one() as int;
    binary64::lemma_of(1);
    binary64::lemma_negate(one);
    binary64::lemma_negate(k);
    let (a, b) = (one.negate().value(), k.value());
    assert((-b) * o == a * b) by (nonlinear_arith)
        requires
            a == -o,
    ;
    binary64::lemma_product_between(one.negate(), k, k.negate(), k.negate());
}

/// A height over the ground times the scale is the distance from it: the square
/// of the scale times one and the squares of the two slopes is one, but for
/// rounding.
pub proof fn the_distance_from_the_ground_goes_by_its_slopes(environment: Environment)
    requires
        can_be_stood_on(environment.ground_slope),
    ensures
        ({
            let o = Binary64::one() as int;
            let u = o * o;
            let (n, e) = (
                environment.ground_slope.north.value(),
                environment.ground_slope.east.value(),
            );
            let k = environment.normal_distance_scale();
            let off = (u + n * n + e * e) * (k.value() * k.value()) - u * u;
            &&& k.is_finite()
            &&& k.value() >= 0
            &&& -(u * u) <= 0x2000000000 * off <= u * u
        }),
{
    let o = Binary64::one() as int;
    let u = o * o;
    let one = Binary64::of(1);
    let (north, east) = (environment.ground_slope.north, environment.ground_slope.east);
    let (n, e) = (north.value(), east.value());
    let (nn, ee) = (n * n, e * e);
    lemma_pow2_pos(1074);
    binary64::lemma_of(0);
    binary64::lemma_of(1);
    track::lemma_itself(north, 1076, 51);
    track::lemma_itself(east, 1076, 51);
    track::lemma_times(north, north, n, n, 1, 1, 1076, 1076, 51);
    track::lemma_times(east, east, e, e, 1, 1, 1076, 1076, 51);
    assert(o * (1 * 1) == o);
    lemma_pow2_strictly_increases(1074, 1079);
    spin::lemma_scaled_itself(one, o, 1079, 50);
    track::lemma_plus(one, north * north, o * o, nn, o, 1079, 50);
    track::lemma_looser(east * east, ee, o, 1079, 50, 1081, 50);
    track::lemma_plus(one + north * north, east * east, u + nn, ee, o, 1081, 50);
    let s = one + north * north + east * east;
    lemma_at_least_one(north, east);
    lemma_pow2_strictly_increases(1083, 2078);
    norm::lemma_one_over_root(s);
    let k = (one / s.sqrt()).value();
    let w = s.value() * o;
    let t = u + nn + ee;
    lemma_pow2_adds(1074, 9);
    lemma2_to64();
    lemma2_to64_rest();
    assert(pow2(1083) * o == 512 * u) by (nonlinear_arith)
        requires
            pow2(1083) == o * 512,
            u == o * o,
    ;
    let d = w - t;
    assert(pow2(50) * d == 0x4000000000000 * d) by (nonlinear_arith)
        requires
            pow2(50) == 0x4000000000000,
    ;
    assert(pow2(50) * d == pow2(50) * (s.value() * o - (u + nn + ee)));
    assert(-u <= 0x20000000000 * d <= u);
    assert(w >= u) by (nonlinear_arith)
        requires
            w == s.value() * o,
            s.value() >= o,
            u == o * o,
            o > 0,
    ;
    let kk = k * k;
    assert(kk >= 0) by (nonlinear_arith)
        requires
            kk == k * k,
    ;
    assert(u > 0) by (nonlinear_arith)
        requires
            u == o * o,
            o > 0,
    ;
    let uu = u * u;
    assert(w * kk <= 2 * uu);
    assert(u * kk <= w * kk) by (nonlinear_arith)
        requires
            u <= w,
            kk >= 0,
    ;
    assert(-(2 * uu) <= 0x20000000000 * (d * kk) <= 2 * uu) by (nonlinear_arith)
        requires
            -u <= 0x20000000000 * d <= u,
            u * kk <= 2 * uu,
            kk >= 0,
    {
        let f = 0x20000000000 * d;
        assert(-(u * kk) <= f * kk <= u * kk) by (nonlinear_arith)
            requires
                -u <= f <= u,
                kk >= 0,
        ;
        assert(f * kk == 0x20000000000 * (d * kk)) by (nonlinear_arith)
            requires
                f == 0x20000000000 * d,
        ;
    }
    assert(t * kk == w * kk - d * kk) by (nonlinear_arith)
        requires
            d == w - t,
    ;
}

/// One and two squares are one at least.
proof fn lemma_at_least_one(north: Binary64, east: Binary64)
    requires
        north.is_finite(),
        east.is_finite(),
        (Binary64::of(1) + north * north).is_finite(),
        (Binary64::of(1) + north * north + east * east).is_finite(),
        (north * north).is_finite(),
        (east * east).is_finite(),
    ensures
        (Binary64::of(1) + north * north + east * east).value() >= Binary64::one(),
{
    let one = Binary64::of(1);
    let o = Binary64::one() as int;
    let (p, q) = (north * north, east * east);
    let (n, e) = (north.value(), east.value());
    binary64::lemma_of(0);
    binary64::lemma_of(1);
    binary64::lemma_mul(north, north);
    binary64::lemma_mul(east, east);
    assert(n * n >= 0) by (nonlinear_arith);
    assert(e * e >= 0) by (nonlinear_arith);
    let zero = Binary64::of(0);
    binary64::lemma_round_exact(zero, Binary64::one());
    assert(0 * o == 0);
    binary64::lemma_round_monotone(0, n * n, Binary64::one());
    binary64::lemma_round_monotone(0, e * e, Binary64::one());
    binary64::lemma_add(one, p);
    binary64::lemma_add(one + p, q);
    binary64::lemma_round_exact(one, 1);
    binary64::lemma_round_monotone(o, o + p.value(), 1);
    binary64::lemma_round_monotone(o, (one + p).value() + q.value(), 1);
}

} // verus!
