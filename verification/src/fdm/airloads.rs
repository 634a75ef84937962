//! What the air does with its coefficients: lift across the wind, drag along it,
//! and moments by span and chord.
use crate::angle;
use crate::angle::SinCos;
use crate::binary64;
use crate::binary64::Binary64;
use crate::fdm::aero;
use crate::fdm::aero::{AeroAngles, AeroCoefficientSet, BodyLoads, Surfaces};
use crate::fdm::aircraft::{AeroCoefficients, Geometry};
use crate::fdm::spin;
use crate::number;
use crate::track;
use crate::vector::DVec3;
use vstd::arithmetic::power2::*;
use vstd::prelude::*;

verus! {

/// The number is finite and at most a power of two.
pub open spec fn reaches(x: Binary64, power: nat) -> bool {
    x.is_finite() && number::magnitude_of(x.value()) <= pow2(power)
}

/// Two products with parts of a direction, taken together.
proof fn lemma_turned_pair(a: Binary64, b: Binary64, s: Binary64, c: Binary64, x: int, y: int, power: nat)
    requires
        track::tracked_by(a, x, Binary64::one() as int, power, 50),
        track::tracked_by(b, y, Binary64::one() as int, power, 50),
        reaches(s, 1074),
        reaches(c, 1074),
        100 <= power <= 1700,
    ensures
        ({
            let o = Binary64::one() as int;
            track::tracked_by(
                a * s - b * c,
                x * s.value() - y * c.value(),
                o * o,
                power + 3,
                49,
            )
        }),
{
    let o = Binary64::one() as int;
    track::lemma_itself(s, 1074, 50);
    track::lemma_itself(c, 1074, 50);
    track::lemma_times(a, s, x, s.value(), o, 1, power, 1074, 50);
    track::lemma_times(b, c, y, c.value(), o, 1, power, 1074, 50);
    assert(o * (o * 1) == o * o);
    track::lemma_minus(a * s, b * c, x * s.value(), y * c.value(), o * o, power + 1, 49);
}

/// The force along the wind is the drag, against it, and the force across the
/// wind in the plane of symmetry is the lift: turned from the body to the wind
/// by the angle of attack, the force is the reference force times the two
/// coefficients. The rest goes sideways. All but for rounding.
pub proof fn drag_is_along_the_wind_and_lift_across_it(
    set: AeroCoefficientSet,
    geometry: Geometry,
    attack: SinCos,
    reference: Binary64,
    power: nat,
)
    requires
        reaches(reference, power),
        reaches(set.lift, 1082),
        reaches(set.drag, 1082),
        reaches(set.side, 1082),
        reaches(attack.sin, 1074),
        reaches(attack.cos, 1074),
        200 <= power <= 1600,
    ensures
        ({
            let o = Binary64::one() as int;
            let f = aero::loads_of(set, geometry, attack, reference).force;
            let (s, c) = (attack.sin.value(), attack.cos.value());
            let q = reference.value();
            let along = f.x.value() * c + f.z.value() * s;
            let across = f.x.value() * s - f.z.value() * c;
            let drag = along * (o * o) + (q * set.drag.value()) * (c * c + s * s);
            let lift = across * (o * o) - (q * set.lift.value()) * (c * c + s * s);
            let side = f.y.value() * o - q * set.side.value();
            let most = pow2(power) * (o * (o * o));
            &&& -most <= 0x100000000 * drag <= most
            &&& -most <= 0x100000000 * lift <= most
            &&& -(pow2(power) * o) <= 0x10000000000 * side <= pow2(power) * o
        }),
{
    let o = Binary64::one() as int;
    let f = aero::loads_of(set, geometry, attack, reference).force;
    let (s, c) = (attack.sin.value(), attack.cos.value());
    let q = reference.value();
    let (a, b) = (q * set.lift.value(), q * set.drag.value());
    lemma_pow2_pos(1074);
    track::lemma_itself(reference, power, 51);
    track::lemma_itself(set.lift, 1082, 51);
    track::lemma_itself(set.drag, 1082, 51);
    track::lemma_itself(set.side, 1082, 51);
    track::lemma_times(reference, set.lift, q, set.lift.value(), 1, 1, power, 1082, 51);
    track::lemma_times(reference, set.drag, q, set.drag.value(), 1, 1, power, 1082, 51);
    track::lemma_times(reference, set.side, q, set.side.value(), 1, 1, power, 1082, 51);
    assert(o * (1 * 1) == o);
    let lift = reference * set.lift;
    let drag = reference * set.drag;
    track::lemma_opposite(lift, a, o, power + 9, 50);
    lemma_turned_pair(lift, drag, attack.sin, attack.cos, a, b, power + 9);
    lemma_turned_pair(lift.negate(), drag, attack.cos, attack.sin, -a, b, power + 9);
    let (x, z) = (f.x.value(), f.z.value());
    let u = o * o;
    let e = x * u - (a * s - b * c);
    let g = z * u - ((-a) * c - b * s);
    lemma_pow2_adds(power, 12);
    lemma_pow2_adds(power, 9);
    lemma2_to64();
    lemma2_to64_rest();
    let p = pow2(power) as int;
    let m = pow2(power + 12) * u;
    assert(p * o >= 0) by (nonlinear_arith)
        requires
            p >= 0,
            o > 0,
    ;
    assert(pow2(power + 9) * o == 512 * (p * o)) by (nonlinear_arith)
        requires
            pow2(power + 9) == p * 512,
    ;
    assert(m >= 0) by (nonlinear_arith)
        requires
            m == pow2(power + 12) * u,
            u == o * o,
            o > 0,
    ;
    let big = 0x2000000000000int;
    lemma_one_part(c, big * e, o, m);
    lemma_one_part(s, big * g, o, m);
    lemma_one_part(s, big * e, o, m);
    lemma_one_part(c, big * g, o, m);
    let (v, w) = (c * c, s * s);
    lemma_along(x, z, u, a, b, c, s);
    let along = x * c + z * s;
    let across = x * s - z * c;
    let drag_off = along * u + b * (v + w);
    let lift_off = across * u - a * (v + w);
    assert(c * (big * e) + s * (big * g) == big * drag_off) by (nonlinear_arith)
        requires
            drag_off == c * e + s * g,
    ;
    assert(s * (big * e) - c * (big * g) == big * lift_off) by (nonlinear_arith)
        requires
            lift_off == s * e - c * g,
    ;
    assert(m * o == 0x1000 * (p * (o * u))) by (nonlinear_arith)
        requires
            m == pow2(power + 12) * u,
            pow2(power + 12) == p * 0x1000,
    ;
}

/// What both parts of the force come to along and across the wind.
proof fn lemma_along(x: int, z: int, u: int, a: int, b: int, c: int, s: int)
    ensures
        ({
            let e = x * u - (a * s - b * c);
            let g = z * u - ((-a) * c - b * s);
            &&& (x * c + z * s) * u + b * (c * c + s * s) == c * e + s * g
            &&& (x * s - z * c) * u - a * (c * c + s * s) == s * e - c * g
        }),
{
    let e = x * u - (a * s - b * c);
    let g = z * u - ((-a) * c - b * s);
    assert((-a) * c == -(a * c)) by (nonlinear_arith);
    assert(c * e == c * (x * u) - c * (a * s) + c * (b * c)) by (nonlinear_arith)
        requires
            e == x * u - (a * s - b * c),
    ;
    assert(s * g == s * (z * u) + s * (a * c) + s * (b * s)) by (nonlinear_arith)
        requires
            g == z * u + a * c + b * s,
    ;
    assert(s * e == s * (x * u) - s * (a * s) + s * (b * c)) by (nonlinear_arith)
        requires
            e == x * u - (a * s - b * c),
    ;
    assert(c * g == c * (z * u) + c * (a * c) + c * (b * s)) by (nonlinear_arith)
        requires
            g == z * u + a * c + b * s,
    ;
    assert(c * (a * s) == s * (a * c)) by (nonlinear_arith);
    assert(s * (b * c) == c * (b * s)) by (nonlinear_arith);
    assert(c * (b * c) == b * (c * c)) by (nonlinear_arith);
    assert(s * (b * s) == b * (s * s)) by (nonlinear_arith);
    assert(s * (a * s) == a * (s * s)) by (nonlinear_arith);
    assert(c * (a * c) == a * (c * c)) by (nonlinear_arith);
    let (v, w) = (c * c, s * s);
    assert(a * (v + w) == a * v + a * w) by (nonlinear_arith);
    assert(b * (v + w) == b * v + b * w) by (nonlinear_arith);
    assert((x * c + z * s) * u == c * (x * u) + s * (z * u)) by (nonlinear_arith);
    assert((x * s - z * c) * u == s * (x * u) - c * (z * u)) by (nonlinear_arith);
}

proof fn lemma_one_part(c: int, e: int, o: int, most: int)
    requires
        -o <= c <= o,
        -most <= e <= most,
        o > 0,
        most >= 0,
    ensures
        -(most * o) <= c * e <= most * o,
{
    if c >= 0 {
        assert(-(most * c) <= c * e <= most * c) by (nonlinear_arith)
            requires
                c >= 0,
                -most <= e <= most,
        ;
        assert(most * c <= most * o) by (nonlinear_arith)
            requires
                c <= o,
                most >= 0,
        ;
    } else {
        let n = -c;
        assert(-(most * n) <= n * e <= most * n) by (nonlinear_arith)
            requires
                n >= 0,
                -most <= e <= most,
        ;
        assert(most * n <= most * o) by (nonlinear_arith)
            requires
                n <= o,
                most >= 0,
        ;
        assert(n * e == -(c * e)) by (nonlinear_arith)
            requires
                n == -c,
        ;
    }
}

/// The moment is the force on that coefficient at that arm, but for rounding.
pub open spec fn levers(moment: Binary64, reference: Binary64, arm: Binary64, coefficient: Binary64, power: nat) -> bool {
    let o = Binary64::one() as int;
    let off = moment.value() * (o * o) - reference.value() * arm.value() * coefficient.value();
    &&& moment.is_finite()
    &&& -(pow2(power) * (o * o)) <= 0x100000000 * off <= pow2(power) * (o * o)
}

proof fn lemma_levers(reference: Binary64, arm: Binary64, coefficient: Binary64, power: nat)
    requires
        reaches(reference, power),
        reaches(arm, 1080),
        reaches(coefficient, 1082),
        200 <= power <= 1600,
    ensures
        levers(reference * arm * coefficient, reference, arm, coefficient, power),
{
    let o = Binary64::one() as int;
    let (q, l, k) = (reference.value(), arm.value(), coefficient.value());
    lemma_pow2_pos(1074);
    track::lemma_itself(reference, power, 51);
    track::lemma_itself(arm, 1080, 51);
    track::lemma_itself(coefficient, 1082, 50);
    track::lemma_times(reference, arm, q, l, 1, 1, power, 1080, 51);
    assert(o * (1 * 1) == o);
    track::lemma_times(reference * arm, coefficient, q * l, k, o, 1, power + 7, 1082, 50);
    assert(o * (o * 1) == o * o);
    lemma_pow2_adds(power, 16);
    lemma2_to64();
    lemma2_to64_rest();
    let (p, u) = (pow2(power) as int, o * o);
    assert(pow2(power + 16) * u == 0x10000 * (p * u)) by (nonlinear_arith)
        requires
            pow2(power + 16) == p * 0x10000,
    ;
    assert(p * u >= 0) by (nonlinear_arith)
        requires
            p >= 0,
            u == o * o,
            o > 0,
    ;
}

/// The air turns the aircraft about the nose and about the vertical at the arm
/// of the wing span, and pitches it at the arm of the mean chord, each by its
/// own coefficient and but for rounding.
pub proof fn moments_go_by_span_and_chord(
    set: AeroCoefficientSet,
    geometry: Geometry,
    attack: SinCos,
    reference: Binary64,
    power: nat,
)
    requires
        reaches(reference, power),
        reaches(geometry.wing_span, 1080),
        reaches(geometry.mean_chord, 1080),
        reaches(set.roll, 1082),
        reaches(set.pitch, 1082),
        reaches(set.yaw, 1082),
        200 <= power <= 1600,
    ensures
        ({
            let m = aero::loads_of(set, geometry, attack, reference).moment;
            &&& levers(m.x, reference, geometry.wing_span, set.roll, power)
            &&& levers(m.y, reference, geometry.mean_chord, set.pitch, power)
            &&& levers(m.z, reference, geometry.wing_span, set.yaw, power)
        }),
{
    lemma_levers(reference, geometry.wing_span, set.roll, power);
    lemma_levers(reference, geometry.mean_chord, set.pitch, power);
    lemma_levers(reference, geometry.wing_span, set.yaw, power);
}

/// Twice the reference force is the density times the wing area times the
/// square of the speed, but for rounding.
pub proof fn the_air_presses_by_the_square_of_the_speed(
    density: Binary64,
    speed: Binary64,
    wing_area: Binary64,
    thick: nat,
    fast: nat,
    wide: nat,
)
    requires
        reaches(density, thick),
        reaches(speed, fast),
        reaches(wing_area, wide),
        1030 <= thick <= 1200,
        1074 <= fast <= 1200,
        1074 <= wide <= 1200,
    ensures
        ({
            let o = Binary64::one() as int;
            let force = aero::reference_force(density, speed, wing_area);
            let exact = density.value() * (speed.value() * speed.value()) * wing_area.value();
            let off = 2 * force.value() * (o * (o * o)) - exact;
            let most = pow2((thick + 2 * fast + wide - 3 * 1073 + 1) as nat) * (o * (o * o));
            &&& force.is_finite()
            &&& -most <= 0x400000000000 * off <= most
        }),
{
    let o = Binary64::one() as int;
    let half = Binary64::ratio(1, 2);
    let (d, v, a) = (density.value(), speed.value(), wing_area.value());
    lemma_pow2_pos(1074);
    track::lemma_share(1, 2);
    assert(1 * o == o);
    track::lemma_itself(density, thick, 51);
    track::lemma_itself(speed, fast, 50);
    track::lemma_itself(speed, fast, 49);
    track::lemma_itself(wing_area, wide, 48);
    let first = half * density;
    let one = (1074 + thick - 1073) as nat;
    track::lemma_times(half, density, o, d, 2, 1, 1074, thick, 51);
    let s1 = o * (2 * 1);
    let second = first * speed;
    let two = (one + fast - 1073) as nat;
    track::lemma_times(first, speed, o * d, v, s1, 1, one, fast, 50);
    let s2 = o * (s1 * 1);
    let third = second * speed;
    let three = (two + fast - 1073) as nat;
    track::lemma_times(second, speed, (o * d) * v, v, s2, 1, two, fast, 49);
    let s3 = o * (s2 * 1);
    let four = (three + wide - 1073) as nat;
    track::lemma_times(third, wing_area, ((o * d) * v) * v, a, s3, 1, three, wide, 48);
    let s4 = o * (s3 * 1);
    let f = (third * wing_area).value();
    let w = o * (o * o);
    let exact = d * (v * v) * a;
    let off = 2 * f * w - exact;
    let p = pow2(four) as int;
    assert(s4 == o * (2 * w)) by (nonlinear_arith)
        requires
            s1 == o * (2 * 1),
            s2 == o * (s1 * 1),
            s3 == o * (s2 * 1),
            s4 == o * (s3 * 1),
            w == o * (o * o),
    ;
    assert((((o * d) * v) * v) * a == o * exact) by (nonlinear_arith)
        requires
            exact == d * (v * v) * a,
    ;
    assert(f * s4 - o * exact == o * off) by (nonlinear_arith)
        requires
            s4 == o * (2 * w),
            off == 2 * f * w - exact,
    ;
    assert(p * s4 == o * (2 * (p * w))) by (nonlinear_arith)
        requires
            s4 == o * (2 * w),
    ;
    lemma2_to64_rest();
    assert(-(2 * (p * w)) <= 0x800000000000 * off <= 2 * (p * w)) by (nonlinear_arith)
        requires
            -(o * (2 * (p * w))) <= 0x800000000000 * (o * off) <= o * (2 * (p * w)),
            o > 0,
    {
        let (q, g) = (2 * (p * w), 0x800000000000 * off);
        assert(0x800000000000 * (o * off) == o * g) by (nonlinear_arith)
            requires
                g == 0x800000000000 * off,
        ;
        assert(o * (-q) == -(o * q)) by (nonlinear_arith);
        assert(-q <= g <= q) by (nonlinear_arith)
            requires
                o * (-q) <= o * g <= o * q,
                o > 0,
        ;
    }
    assert(four == (thick + 2 * fast + wide - 3 * 1073 + 1) as nat);
}

/// What the lift is squared over.
pub open spec fn induction(a: AeroCoefficients, geometry: Geometry) -> Binary64 {
    angle::pi() * a.oswald_efficiency * geometry.aspect_ratio()
}

/// One drag beside what it is made of.
proof fn lemma_drag(a: AeroCoefficients, geometry: Geometry, lift: Binary64, flaps: Binary64)
    requires
        reaches(a.drag_min, 1074),
        reaches(a.drag_flaps, 1074),
        reaches(lift, 1080),
        reaches(flaps, 1074),
        induction(a, geometry).is_finite(),
        induction(a, geometry).value() >= Binary64::one(),
    ensures
        ({
            let o = Binary64::one() as int;
            let ring = induction(a, geometry).value();
            let l = lift.value();
            track::tracked_by(
                aero::straight_drag(a, geometry, lift, flaps),
                a.drag_min.value() * (o * ring) + (l * l) * o + (a.drag_flaps.value()
                    * flaps.value()) * ring,
                o * ring,
                1092,
                49,
            )
        }),
{
    let o = Binary64::one() as int;
    let d = induction(a, geometry);
    let ring = d.value();
    let (l, m, k, f) = (lift.value(), a.drag_min.value(), a.drag_flaps.value(), flaps.value());
    let s = o * ring;
    lemma_pow2_pos(1074);
    lemma_pow2_adds(1087, 1);
    lemma2_to64();
    lemma_pow2_strictly_increases(1074, 1088);
    track::lemma_itself(lift, 1080, 51);
    track::lemma_times(lift, lift, l, l, 1, 1, 1080, 1080, 51);
    assert(o * (1 * 1) == o);
    assert(2 * (pow2(1087) * o) <= pow2(1088) * ring) by (nonlinear_arith)
        requires
            pow2(1088) == pow2(1087) * 2,
            ring >= o,
            pow2(1087) >= 0,
    ;
    track::lemma_over(lift * lift, d, l * l, o, 1087, 1088, 50);
    let induced = lift * lift / d;
    assert(s > 0) by (nonlinear_arith)
        requires
            s == o * ring,
            o > 0,
            ring >= o,
    ;
    spin::lemma_scaled_itself(a.drag_min, s, 1088, 49);
    track::lemma_plus(a.drag_min, induced, m * s, (l * l) * o, s, 1088, 49);
    track::lemma_itself(a.drag_flaps, 1074, 51);
    track::lemma_itself(flaps, 1074, 51);
    track::lemma_times(a.drag_flaps, flaps, k, f, 1, 1, 1074, 1074, 51);
    let added = a.drag_flaps * flaps;
    track::lemma_rescaled(added, k * f, o, ring, 1075, 50);
    track::lemma_looser(added, (k * f) * ring, s, 1075, 50, 1090, 49);
    track::lemma_plus(
        a.drag_min + induced,
        added,
        m * s + (l * l) * o,
        (k * f) * ring,
        s,
        1090,
        49,
    );
}

/// Below the stall drag grows with the square of the lift, the less the longer
/// the wing, and with the flaps by `drag_flaps`: so it changes between any two
/// lifts and settings of the flaps, but for rounding. With neither it is
/// `drag_min`.
pub proof fn drag_grows_with_the_square_of_the_lift_and_with_the_flaps(
    a: AeroCoefficients,
    geometry: Geometry,
    lift: Binary64,
    flaps: Binary64,
    later_lift: Binary64,
    later_flaps: Binary64,
)
    requires
        reaches(a.drag_min, 1074),
        reaches(a.drag_flaps, 1074),
        reaches(lift, 1080),
        reaches(flaps, 1074),
        reaches(later_lift, 1080),
        reaches(later_flaps, 1074),
        induction(a, geometry).is_finite(),
        induction(a, geometry).value() >= Binary64::one(),
    ensures
        ({
            let o = Binary64::one() as int;
            let ring = induction(a, geometry).value();
            let (l, m) = (lift.value(), later_lift.value());
            let c = aero::straight_drag(a, geometry, lift, flaps).value();
            let d = aero::straight_drag(a, geometry, later_lift, later_flaps).value();
            let off = (d - c) * (o * ring) - (m * m - l * l) * o - a.drag_flaps.value() * (
            later_flaps.value() - flaps.value()) * ring;
            &&& -(o * (o * ring)) <= 0x40000000 * off <= o * (o * ring)
            &&& l == 0 && flaps.value() == 0 ==> c == a.drag_min.value()
        }),
{
    let o = Binary64::one() as int;
    let ring = induction(a, geometry).value();
    let s = o * ring;
    let (l, m) = (lift.value(), later_lift.value());
    let (f, g, k) = (flaps.value(), later_flaps.value(), a.drag_flaps.value());
    let c = aero::straight_drag(a, geometry, lift, flaps).value();
    let d = aero::straight_drag(a, geometry, later_lift, later_flaps).value();
    lemma_drag(a, geometry, lift, flaps);
    lemma_drag(a, geometry, later_lift, later_flaps);
    lemma_pow2_adds(1074, 18);
    lemma2_to64();
    lemma2_to64_rest();
    assert(pow2(1092) * s == 0x40000 * (o * s)) by (nonlinear_arith)
        requires
            pow2(1092) == o * 0x40000,
    ;
    assert((d - c) * s == d * s - c * s) by (nonlinear_arith);
    assert((m * m - l * l) * o == (m * m) * o - (l * l) * o) by (nonlinear_arith);
    assert(k * (g - f) * ring == (k * g) * ring - (k * f) * ring) by (nonlinear_arith);
    let off = (d - c) * s - (m * m - l * l) * o - k * (g - f) * ring;
    assert(-(0x80000 * (o * s)) <= 0x2000000000000 * off <= 0x80000 * (o * s));
    if l == 0 && f == 0 {
        let zero = Binary64::of(0);
        let ringed = induction(a, geometry);
        binary64::lemma_of(0);
        binary64::lemma_zero_factor(lift, lift);
        assert(0 * ring == 0 && 0 * o == 0);
        binary64::lemma_quotient_between(lift * lift, ringed, zero, zero);
        binary64::lemma_zero_factor(flaps, a.drag_flaps);
        assert(k * f == 0) by (nonlinear_arith)
            requires
                f == 0,
        ;
        binary64::lemma_product_between(a.drag_flaps, flaps, zero, zero);
        binary64::lemma_sum_between(a.drag_min, lift * lift / ringed, a.drag_min, a.drag_min);
        binary64::lemma_sum_between(
            a.drag_min + lift * lift / ringed,
            a.drag_flaps * flaps,
            a.drag_min,
            a.drag_min,
        );
    }
}

/// The aspect ratio times the area is the square of the span, but for rounding.
pub proof fn the_aspect_ratio_is_the_square_of_the_span_over_the_area(geometry: Geometry, power: nat)
    requires
        reaches(geometry.wing_span, 1080),
        geometry.wing_area.is_finite(),
        geometry.wing_area.value() > 0,
        60 <= power <= 2000,
        pow2(1088) * Binary64::one() <= pow2(power) * geometry.wing_area.value(),
    ensures
        ({
            let (b, area) = (geometry.wing_span.value(), geometry.wing_area.value());
            let ratio = geometry.aspect_ratio().value();
            let off = ratio * area - b * b;
            -(pow2(power) * area) <= 0x2000000000000 * off <= pow2(power) * area
        }),
{
    let o = Binary64::one() as int;
    let (b, area) = (geometry.wing_span.value(), geometry.wing_area.value());
    lemma_pow2_pos(1074);
    lemma_pow2_adds(1087, 1);
    lemma2_to64();
    lemma2_to64_rest();
    track::lemma_itself(geometry.wing_span, 1080, 51);
    track::lemma_times(geometry.wing_span, geometry.wing_span, b, b, 1, 1, 1080, 1080, 51);
    assert(o * (1 * 1) == o);
    assert(2 * (pow2(1087) * o) == pow2(1088) * o) by (nonlinear_arith)
        requires
            pow2(1088) == pow2(1087) * 2,
    ;
    track::lemma_over(
        geometry.wing_span * geometry.wing_span,
        geometry.wing_area,
        b * b,
        o,
        1087,
        power,
        50,
    );
    let r = geometry.aspect_ratio().value();
    let off = r * area - b * b;
    let p = pow2(power) as int;
    assert(r * (o * area) - (b * b) * o == o * off) by (nonlinear_arith)
        requires
            off == r * area - b * b,
    ;
    assert(p * (o * area) == o * (p * area)) by (nonlinear_arith);
    let (q, g) = (p * area, 0x2000000000000 * off);
    assert(0x2000000000000 * (o * off) == o * g) by (nonlinear_arith)
        requires
            g == 0x2000000000000 * off,
    ;
    assert(o * (-q) == -(o * q)) by (nonlinear_arith);
    assert(-q <= g <= q) by (nonlinear_arith)
        requires
            o * (-q) <= o * g <= o * q,
            o > 0,
    ;
}

/// The reference force of air of that density and speed on that wing, but for
/// rounding.
pub open spec fn presses(
    force: Binary64,
    density: Binary64,
    speed: Binary64,
    wing_area: Binary64,
    most: nat,
) -> bool {
    let o = Binary64::one() as int;
    let exact = density.value() * (speed.value() * speed.value()) * wing_area.value();
    let off = 2 * force.value() * (o * (o * o)) - exact;
    &&& force.is_finite()
    &&& -(pow2(most) * (o * (o * o))) <= 0x400000000000 * off <= pow2(most) * (o * (o * o))
}

/// The loads that coefficients come to under a reference force: drag along the
/// wind, lift across it, the rest aside, and moments at their arms, but for
/// rounding.
pub open spec fn blows(
    loads: BodyLoads,
    set: AeroCoefficientSet,
    geometry: Geometry,
    attack: SinCos,
    reference: Binary64,
    power: nat,
) -> bool {
    let o = Binary64::one() as int;
    let f = loads.force;
    let (s, c) = (attack.sin.value(), attack.cos.value());
    let q = reference.value();
    let along = f.x.value() * c + f.z.value() * s;
    let across = f.x.value() * s - f.z.value() * c;
    let drag = along * (o * o) + (q * set.drag.value()) * (c * c + s * s);
    let lift = across * (o * o) - (q * set.lift.value()) * (c * c + s * s);
    let side = f.y.value() * o - q * set.side.value();
    let most = pow2(power) * (o * (o * o));
    &&& -most <= 0x100000000 * drag <= most
    &&& -most <= 0x100000000 * lift <= most
    &&& -(pow2(power) * o) <= 0x10000000000 * side <= pow2(power) * o
    &&& levers(loads.moment.x, reference, geometry.wing_span, set.roll, power)
    &&& levers(loads.moment.y, reference, geometry.mean_chord, set.pitch, power)
    &&& levers(loads.moment.z, reference, geometry.wing_span, set.yaw, power)
}

/// The air acts on an aircraft with half its density times the square of the
/// airspeed, on the wing: its loads are those of the coefficients there under
/// that force.
pub proof fn the_air_acts_by_its_pressure_on_the_wing(
    a: AeroCoefficients,
    geometry: Geometry,
    angles: AeroAngles,
    attack: SinCos,
    sigma: Binary64,
    angular_velocity: DVec3,
    surfaces: Surfaces,
    density: Binary64,
    thick: nat,
    fast: nat,
    wide: nat,
    power: nat,
)
    requires
        reaches(density, thick),
        reaches(angles.true_airspeed, fast),
        reaches(geometry.wing_area, wide),
        1030 <= thick <= 1200,
        1074 <= fast <= 1200,
        1074 <= wide <= 1200,
        200 <= power <= 1600,
        reaches(
            aero::reference_force(density, angles.true_airspeed, geometry.wing_area),
            power,
        ),
        reaches(geometry.wing_span, 1080),
        reaches(geometry.mean_chord, 1080),
        reaches(attack.sin, 1074),
        reaches(attack.cos, 1074),
        ({
            let set = aero::coefficients(
                a,
                geometry,
                angles,
                attack,
                sigma,
                angular_velocity,
                surfaces,
            );
            &&& reaches(set.lift, 1082) && reaches(set.drag, 1082) && reaches(set.side, 1082)
            &&& reaches(set.roll, 1082) && reaches(set.pitch, 1082) && reaches(set.yaw, 1082)
        }),
    ensures
        exists|force: Binary64|
            #![trigger presses(force, density, angles.true_airspeed, geometry.wing_area,
                (thick + 2 * fast + wide - 3 * 1073 + 1) as nat)]
            presses(
                force,
                density,
                angles.true_airspeed,
                geometry.wing_area,
                (thick + 2 * fast + wide - 3 * 1073 + 1) as nat,
            ) && blows(
                aero::body_force_and_moment(
                    a,
                    geometry,
                    angles,
                    attack,
                    sigma,
                    angular_velocity,
                    surfaces,
                    density,
                ),
                aero::coefficients(a, geometry, angles, attack, sigma, angular_velocity, surfaces),
                geometry,
                attack,
                force,
                power,
            ),
{
    let set = aero::coefficients(a, geometry, angles, attack, sigma, angular_velocity, surfaces);
    let force = aero::reference_force(density, angles.true_airspeed, geometry.wing_area);
    the_air_presses_by_the_square_of_the_speed(
        density,
        angles.true_airspeed,
        geometry.wing_area,
        thick,
        fast,
        wide,
    );
    drag_is_along_the_wind_and_lift_across_it(set, geometry, attack, force, power);
    moments_go_by_span_and_chord(set, geometry, attack, force, power);
    let most = (thick + 2 * fast + wide - 3 * 1073 + 1) as nat;
    assert(presses(force, density, angles.true_airspeed, geometry.wing_area, most));
}

} // verus!
