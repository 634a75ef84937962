//! How a leg meets the ground: where it touches, how fast it moves, how deep it
//! is and how its force turns the aircraft.
use crate::binary64;
use crate::binary64::Binary64;
use crate::fdm::aero::BodyLoads;
use crate::fdm::aircraft::{LandingGearConfig, LandingGearLeg, MassProperties};
use crate::fdm::cone;
use crate::fdm::environment::Environment;
use crate::fdm::landing_gear;
use crate::fdm::landing_gear::{ContactPlane, LegMeasure};
use crate::fdm::spin;
use crate::fdm::state::{LocalFrame, RigidBodyState};
use crate::inverse;
use crate::near;
use crate::norm;
use crate::number;
use crate::track;
use crate::vector::DVec3;
use vstd::arithmetic::power2::*;
use vstd::prelude::*;

verus! {

/// One part of the vector product, without rounding.
pub open spec fn crossed(a: DVec3, x: int, y: int, z: int, axis: int) -> int {
    if axis == 0 {
        a.y.value() * z - a.z.value() * y
    } else if axis == 1 {
        a.z.value() * x - a.x.value() * z
    } else {
        a.x.value() * y - a.y.value() * x
    }
}

/// One part of a vector product beside what it would be without rounding.
proof fn lemma_cross_part(a: Binary64, b: Binary64, c: Binary64, d: Binary64, m: nat, n: nat)
    requires
        a.is_finite() && number::magnitude_of(a.value()) <= pow2(m),
        b.is_finite() && number::magnitude_of(b.value()) <= pow2(n),
        c.is_finite() && number::magnitude_of(c.value()) <= pow2(n),
        d.is_finite() && number::magnitude_of(d.value()) <= pow2(m),
        1173 <= m + n <= 2800,
    ensures
        track::tracked_by(
            a * b - c * d,
            a.value() * b.value() - d.value() * c.value(),
            Binary64::one() as int,
            (m + n - 1071) as nat,
            50,
        ),
{
    let o = Binary64::one() as int;
    track::lemma_itself(a, m, 51);
    track::lemma_itself(b, n, 51);
    track::lemma_itself(c, n, 51);
    track::lemma_itself(d, m, 51);
    track::lemma_times(a, b, a.value(), b.value(), 1, 1, m, n, 51);
    track::lemma_times(c, d, c.value(), d.value(), 1, 1, n, m, 51);
    assert(o * (1 * 1) == o);
    let h = (m + n - 1073) as nat;
    track::lemma_minus(a * b, c * d, a.value() * b.value(), c.value() * d.value(), o, h, 50);
    assert(c.value() * d.value() == d.value() * c.value()) by (nonlinear_arith);
}

proof fn lemma_cross(a: DVec3, b: DVec3, m: nat, n: nat)
    requires
        inverse::at_most(a, m),
        inverse::at_most(b, n),
        1173 <= m + n <= 2800,
    ensures
        ({
            let (x, y, z) = (b.x.value(), b.y.value(), b.z.value());
            cone::follows(
                a.cross(b),
                crossed(a, x, y, z, 0),
                crossed(a, x, y, z, 1),
                crossed(a, x, y, z, 2),
                Binary64::one() as int,
                (m + n - 1071) as nat,
                50,
            )
        }),
{
    lemma_cross_part(a.y, b.z, b.y, a.z, m, n);
    lemma_cross_part(a.z, b.x, b.z, a.x, m, n);
    lemma_cross_part(a.x, b.y, b.x, a.y, m, n);
}

/// The place where a leg touches moves as the aircraft does and round it as the
/// aircraft rotates: its velocity beyond the aircraft's is the angular velocity
/// crossed with where the leg is, turned to earth-fixed axes, but for rounding.
pub proof fn a_leg_moves_round_the_aircraft_as_it_rotates(
    state: RigidBodyState,
    leg: LandingGearLeg,
    fast: nat,
    far: nat,
    axis: int,
)
    requires
        norm::near_unit(state.orientation.to_vec4()),
        inverse::at_most(state.angular_velocity, fast),
        inverse::at_most(leg.contact_point.0, far),
        1173 <= fast + far <= 2800,
        inverse::at_most(state.velocity, (fast + far - 1057) as nat),
        0 <= axis < 3,
    ensures
        ({
            let r = leg.contact_point.0;
            let w = state.angular_velocity;
            let (x, y, z) = (r.x.value(), r.y.value(), r.z.value());
            let beyond = inverse::along(landing_gear::contact_velocity(state, leg), axis)
                - inverse::along(state.velocity, axis);
            let exact = cone::turned(
                state.orientation,
                crossed(w, x, y, z, 0),
                crossed(w, x, y, z, 1),
                crossed(w, x, y, z, 2),
                axis,
            );
            let most = pow2((fast + far - 1055) as nat) * cone::cube();
            -most <= 0x800000000000 * (beyond * cone::cube() - exact) <= most
        }),
{
    let o = Binary64::one() as int;
    let q = state.orientation;
    let w = state.angular_velocity;
    let r = leg.contact_point.0;
    let v = state.velocity;
    let u = cone::cube();
    let h = (fast + far - 1071) as nat;
    let (x, y, z) = (r.x.value(), r.y.value(), r.z.value());
    let (a, b, c) = (crossed(w, x, y, z, 0), crossed(w, x, y, z, 1), crossed(w, x, y, z, 2));
    lemma_pow2_pos(1074);
    lemma_cross(w, r, fast, far);
    cone::lemma_turn_of_length_one(q);
    cone::lemma_turn(q, w.cross(r), a, b, c, o, h);
    let t = q.rotate(w.cross(r));
    assert(u > 0) by (nonlinear_arith)
        requires
            u == o * (o * o),
            o > 0,
    ;
    lemma_beyond(v.x, t.x, cone::turned(q, a, b, c, 0), u, h + 14);
    lemma_beyond(v.y, t.y, cone::turned(q, a, b, c, 1), u, h + 14);
    lemma_beyond(v.z, t.z, cone::turned(q, a, b, c, 2), u, h + 14);
}

/// A leg touches where its contact point is, turned with the aircraft and seen
/// from it, along every axis and but for rounding.
pub proof fn a_leg_is_where_the_aircraft_turns_it(
    state: RigidBodyState,
    leg: LandingGearLeg,
    far: nat,
    axis: int,
)
    requires
        norm::near_unit(state.orientation.to_vec4()),
        inverse::at_most(leg.contact_point.0, far),
        100 <= far <= 1700,
        inverse::at_most(state.position, far + 14),
        0 <= axis < 3,
    ensures
        ({
            let o = Binary64::one() as int;
            let r = leg.contact_point.0;
            let beyond = inverse::along(landing_gear::contact_ecef(state, leg), axis)
                - inverse::along(state.position, axis);
            let exact = cone::turned(
                state.orientation,
                r.x.value(),
                r.y.value(),
                r.z.value(),
                axis,
            );
            let most = pow2(far + 16) * (o * o);
            -most <= 0x800000000000 * (beyond * (o * o) - exact) <= most
        }),
{
    let o = Binary64::one() as int;
    let q = state.orientation;
    let r = leg.contact_point.0;
    let v = state.position;
    let (x, y, z) = (r.x.value(), r.y.value(), r.z.value());
    lemma_pow2_pos(1074);
    track::lemma_itself(r.x, far, 50);
    track::lemma_itself(r.y, far, 50);
    track::lemma_itself(r.z, far, 50);
    cone::lemma_turn_of_length_one(q);
    cone::lemma_turn(q, r, x, y, z, 1, far);
    assert(o * (o * 1) == o * o);
    let t = q.rotate(r);
    lemma_beyond(v.x, t.x, cone::turned(q, x, y, z, 0), o * o, far + 14);
    lemma_beyond(v.y, t.y, cone::turned(q, x, y, z, 1), o * o, far + 14);
    lemma_beyond(v.z, t.z, cone::turned(q, x, y, z, 2), o * o, far + 14);
}

/// A sum less its first part is its second.
proof fn lemma_beyond(v: Binary64, t: Binary64, exact: int, u: int, power: nat)
    requires
        v.is_finite() && number::magnitude_of(v.value()) <= pow2(power),
        track::tracked_by(t, exact, u, power, 47),
        53 <= power <= 1990,
    ensures
        ({
            let most = pow2(power + 2) * u;
            -most <= 0x800000000000 * (((v + t).value() - v.value()) * u - exact) <= most
        }),
{
    let a = v.value();
    spin::lemma_scaled_itself(v, u, power, 47);
    track::lemma_plus(v, t, a * u, exact, u, power, 47);
    lemma2_to64_rest();
    let r = (v + t).value();
    assert((r - a) * u == r * u - a * u) by (nonlinear_arith);
}

/// A leg turns the aircraft by its force at its arm: what it adds to the moment
/// is where the leg is crossed with what it adds to the force, along every axis
/// and but for rounding.
pub proof fn a_leg_turns_the_aircraft_by_its_force_at_its_arm(
    loads: BodyLoads,
    plane: ContactPlane,
    state: RigidBodyState,
    environment: Environment,
    ground_frame: LocalFrame,
    leg: LandingGearLeg,
    measure: LegMeasure,
    force: DVec3,
    power: nat,
    axis: int,
)
    requires
        landing_gear::leg_force(
            plane,
            state,
            leg,
            landing_gear::penetration_of(
                plane,
                environment,
                ground_frame,
                landing_gear::contact_ecef(state, leg),
                measure.altitude,
            ),
            measure.grip,
        ) == Some(force),
        inverse::at_most(state.orientation.inverse().rotate(force), power),
        inverse::at_most(loads.force, power),
        inverse::at_most(loads.moment, power),
        inverse::at_most(leg.contact_point.0, 1080),
        100 <= power <= 1700,
        0 <= axis < 3,
    ensures
        ({
            let o = Binary64::one() as int;
            let after = landing_gear::with_leg(
                loads,
                plane,
                state,
                environment,
                ground_frame,
                leg,
                measure,
            );
            let turned = inverse::along(after.moment, axis) - inverse::along(loads.moment, axis);
            let by = crossed(
                leg.contact_point.0,
                after.force.x.value() - loads.force.x.value(),
                after.force.y.value() - loads.force.y.value(),
                after.force.z.value() - loads.force.z.value(),
                axis,
            );
            -(pow2(power) * o) <= 0x2000000000 * (turned * o - by) <= pow2(power) * o
        }),
{
    let o = Binary64::one() as int;
    let body = state.orientation.inverse().rotate(force);
    let r = leg.contact_point.0;
    let (f, m) = (loads.force, loads.moment);
    lemma_pow2_pos(1074);
    lemma_added(f.x, body.x, power);
    lemma_added(f.y, body.y, power);
    lemma_added(f.z, body.z, power);
    lemma_cross(r, body, 1080, power);
    let (x, y, z) = (body.x.value(), body.y.value(), body.z.value());
    let k = r.cross(body);
    lemma_turned_by(m.x, k.x, crossed(r, x, y, z, 0), power);
    lemma_turned_by(m.y, k.y, crossed(r, x, y, z, 1), power);
    lemma_turned_by(m.z, k.z, crossed(r, x, y, z, 2), power);
    let g = f.plus(body);
    let (a, b, c) = (
        g.x.value() - f.x.value(),
        g.y.value() - f.y.value(),
        g.z.value() - f.z.value(),
    );
    lemma_pow2_adds(1074, 6);
    lemma2_to64();
    let p = pow2(power) as int;
    if axis == 0 {
        lemma_arm(r.y.value(), c, z, r.z.value(), b, y, o, p);
    } else if axis == 1 {
        lemma_arm(r.z.value(), a, x, r.x.value(), c, z, o, p);
    } else {
        lemma_arm(r.x.value(), b, y, r.y.value(), a, x, o, p);
    }
}

/// A sum less its first part, as far as rounding lets it.
proof fn lemma_added(a: Binary64, b: Binary64, power: nat)
    requires
        a.is_finite() && number::magnitude_of(a.value()) <= pow2(power),
        b.is_finite() && number::magnitude_of(b.value()) <= pow2(power),
        100 <= power <= 1700,
    ensures
        ({
            let off = (a + b).value() - a.value() - b.value();
            -pow2(power) <= 0x2000000000000 * off <= pow2(power)
        }),
{
    track::lemma_itself(a, power, 51);
    track::lemma_itself(b, power, 51);
    track::lemma_plus(a, b, a.value(), b.value(), 1, power, 51);
    lemma_pow2_adds(power, 2);
    lemma2_to64();
    lemma2_to64_rest();
}

proof fn lemma_turned_by(m: Binary64, k: Binary64, exact: int, power: nat)
    requires
        m.is_finite() && number::magnitude_of(m.value()) <= pow2(power),
        track::tracked_by(k, exact, Binary64::one() as int, power + 9, 50),
        100 <= power <= 1700,
    ensures
        ({
            let o = Binary64::one() as int;
            let off = ((m + k).value() - m.value()) * o - exact;
            -(pow2(power) * o) <= 0x4000000000 * (2 * off) <= pow2(power) * o
        }),
{
    let o = Binary64::one() as int;
    let a = m.value();
    lemma_pow2_pos(1074);
    lemma_pow2_strictly_increases(power, power + 9);
    spin::lemma_scaled_itself(m, o, power + 9, 50);
    track::lemma_plus(m, k, a * o, exact, o, power + 9, 50);
    lemma_pow2_adds(power, 11);
    lemma2_to64();
    lemma2_to64_rest();
    let r = (m + k).value();
    assert((r - a) * o == r * o - a * o) by (nonlinear_arith);
    let p = pow2(power) as int;
    assert(pow2(power + 11) * o == 2048 * (p * o)) by (nonlinear_arith)
        requires
            pow2(power + 11) == p * 2048,
    ;
    assert(p * o >= 0) by (nonlinear_arith)
        requires
            p >= 0,
            o > 0,
    ;
}

/// A part of a vector product of an arm and a force that is a little off.
proof fn lemma_arm(r: int, c: int, z: int, s: int, b: int, y: int, o: int, p: int)
    requires
        o > 0,
        p >= 0,
        -(64 * o) <= r <= 64 * o,
        -(64 * o) <= s <= 64 * o,
        -p <= 0x2000000000000 * (c - z) <= p,
        -p <= 0x2000000000000 * (b - y) <= p,
    ensures
        ({
            let off = (r * c - s * b) - (r * z - s * y);
            -(128 * (p * o)) <= 0x2000000000000 * off <= 128 * (p * o)
        }),
{
    let (d, e) = (c - z, b - y);
    assert(r * c - r * z == r * d) by (nonlinear_arith)
        requires
            d == c - z,
    ;
    assert(s * b - s * y == s * e) by (nonlinear_arith)
        requires
            e == b - y,
    ;
    let big = 0x2000000000000int;
    lemma_arm_error(r, big * d, o, p);
    lemma_arm_error(s, big * e, o, p);
    assert(r * (big * d) == big * (r * d)) by (nonlinear_arith);
    assert(s * (big * e) == big * (s * e)) by (nonlinear_arith);
}

proof fn lemma_arm_error(r: int, d: int, o: int, p: int)
    requires
        o > 0,
        p >= 0,
        -(64 * o) <= r <= 64 * o,
        -p <= d <= p,
    ensures
        -(64 * (p * o)) <= r * d <= 64 * (p * o),
{
    if r >= 0 {
        assert(-(r * p) <= r * d <= r * p) by (nonlinear_arith)
            requires
                r >= 0,
                -p <= d <= p,
        ;
        assert(r * p <= (64 * o) * p) by (nonlinear_arith)
            requires
                r <= 64 * o,
                p >= 0,
        ;
    } else {
        let n = -r;
        assert(-(n * p) <= n * d <= n * p) by (nonlinear_arith)
            requires
                n >= 0,
                -p <= d <= p,
        ;
        assert(n * p <= (64 * o) * p) by (nonlinear_arith)
            requires
                n <= 64 * o,
                p >= 0,
        ;
        assert(n * d == -(r * d)) by (nonlinear_arith)
            requires
                n == -r,
        ;
    }
    assert((64 * o) * p == 64 * (p * o)) by (nonlinear_arith);
}

/// A leg is in the ground where it is below it and out of it where it is above,
/// and the lower it is the deeper.
pub proof fn the_lower_a_leg_the_deeper_it_is(
    plane: ContactPlane,
    environment: Environment,
    ground_frame: LocalFrame,
    contact: DVec3,
    high: Binary64,
    low: Binary64,
)
    requires
        environment.ground_elevation_at(ground_frame.position_to_ned(contact)).is_finite(),
        plane.scale.is_finite(),
        0 <= plane.scale.value() <= Binary64::one(),
        high.is_finite(),
        low.is_finite(),
        low.value() <= high.value(),
        (environment.ground_elevation_at(ground_frame.position_to_ned(contact)) - high).is_finite(),
        (environment.ground_elevation_at(ground_frame.position_to_ned(contact)) - low).is_finite(),
    ensures
        ({
            let ground = environment.ground_elevation_at(ground_frame.position_to_ned(contact));
            let up = landing_gear::penetration_of(plane, environment, ground_frame, contact, high);
            let down = landing_gear::penetration_of(plane, environment, ground_frame, contact, low);
            &&& up.value() <= down.value()
            &&& ground.value() <= high.value() ==> up.value() <= 0
            &&& low.value() <= ground.value() ==> down.value() >= 0
        }),
{
    let ground = environment.ground_elevation_at(ground_frame.position_to_ned(contact));
    let zero = Binary64::of(0);
    let (s, t) = (high.negate(), low.negate());
    binary64::lemma_of(0);
    binary64::lemma_negate(high);
    binary64::lemma_negate(low);
    assert(ground - high == ground + s);
    assert(ground - low == ground + t);
    binary64::lemma_add(ground, s);
    binary64::lemma_add(ground, t);
    binary64::lemma_round_monotone(ground.value() + s.value(), ground.value() + t.value(), 1);
    near::lemma_product_grows(ground - high, ground - low, plane.scale);
    binary64::lemma_zero_factor(zero, plane.scale);
    binary64::lemma_round_exact(zero, 1);
    if ground.value() <= high.value() {
        binary64::lemma_round_monotone(ground.value() + s.value(), 0, 1);
        near::lemma_product_grows(ground - high, zero, plane.scale);
    }
    if low.value() <= ground.value() {
        binary64::lemma_round_monotone(0, ground.value() + t.value(), 1);
        near::lemma_product_grows(zero, ground - low, plane.scale);
    }
}

/// The ground rises to the north and to the east by its two slopes: so its height
/// changes between any two places, but for rounding. At the reference point it
/// is the elevation itself.
pub proof fn the_ground_rises_by_its_slopes(environment: Environment, here: DVec3, there: DVec3)
    requires
        environment.ground_elevation.is_finite(),
        number::magnitude_of(environment.ground_elevation.value()) <= pow2(1091),
        environment.ground_slope.north.is_finite(),
        number::magnitude_of(environment.ground_slope.north.value()) <= pow2(1076),
        environment.ground_slope.east.is_finite(),
        number::magnitude_of(environment.ground_slope.east.value()) <= pow2(1076),
        inverse::at_most(here, 1088),
        inverse::at_most(there, 1088),
    ensures
        ({
            let o = Binary64::one() as int;
            let (n, e) = (
                environment.ground_slope.north.value(),
                environment.ground_slope.east.value(),
            );
            let rise = environment.ground_elevation_at(there).value()
                - environment.ground_elevation_at(here).value();
            let off = rise * o - n * (there.x.value() - here.x.value()) - e * (there.y.value()
                - here.y.value());
            &&& -(o * o) <= 0x10000000 * off <= o * o
            &&& here.x.value() == 0 && here.y.value() == 0 ==> environment.ground_elevation_at(
                here,
            ).value() == environment.ground_elevation.value()
        }),
{
    let o = Binary64::one() as int;
    let (n, e) = (environment.ground_slope.north, environment.ground_slope.east);
    lemma_height(environment, here);
    lemma_height(environment, there);
    lemma_pow2_adds(1074, 21);
    lemma2_to64();
    lemma2_to64_rest();
    assert(pow2(1095) * o == 0x200000 * (o * o)) by (nonlinear_arith)
        requires
            pow2(1095) == o * 0x200000,
    ;
    let (a, b) = (
        environment.ground_elevation_at(here).value(),
        environment.ground_elevation_at(there).value(),
    );
    assert((b - a) * o == b * o - a * o) by (nonlinear_arith);
    let (x, y) = (n.value(), e.value());
    let (c, d, f, g) = (here.x.value(), there.x.value(), here.y.value(), there.y.value());
    assert(x * (d - c) == x * d - x * c) by (nonlinear_arith);
    assert(y * (g - f) == y * g - y * f) by (nonlinear_arith);
    if c == 0 && f == 0 {
        let zero = Binary64::of(0);
        let h = environment.ground_elevation;
        binary64::lemma_of(0);
        assert(x * c == 0) by (nonlinear_arith)
            requires
                c == 0,
        ;
        assert(y * f == 0) by (nonlinear_arith)
            requires
                f == 0,
        ;
        assert(0 * o == 0);
        binary64::lemma_product_between(n, here.x, zero, zero);
        binary64::lemma_product_between(e, here.y, zero, zero);
        binary64::lemma_sum_between(h, n * here.x, h, h);
        binary64::lemma_sum_between(h + n * here.x, e * here.y, h, h);
    }
}

proof fn lemma_height(environment: Environment, at: DVec3)
    requires
        environment.ground_elevation.is_finite(),
        number::magnitude_of(environment.ground_elevation.value()) <= pow2(1091),
        environment.ground_slope.north.is_finite(),
        number::magnitude_of(environment.ground_slope.north.value()) <= pow2(1076),
        environment.ground_slope.east.is_finite(),
        number::magnitude_of(environment.ground_slope.east.value()) <= pow2(1076),
        inverse::at_most(at, 1088),
    ensures
        ({
            let o = Binary64::one() as int;
            track::tracked_by(
                environment.ground_elevation_at(at),
                environment.ground_elevation.value() * o + environment.ground_slope.north.value()
                    * at.x.value() + environment.ground_slope.east.value() * at.y.value(),
                o,
                1095,
                50,
            )
        }),
{
    let o = Binary64::one() as int;
    let h = environment.ground_elevation;
    let (n, e) = (environment.ground_slope.north, environment.ground_slope.east);
    lemma_pow2_pos(1074);
    track::lemma_itself(n, 1076, 51);
    track::lemma_itself(e, 1076, 51);
    track::lemma_itself(at.x, 1088, 51);
    track::lemma_itself(at.y, 1088, 51);
    track::lemma_times(n, at.x, n.value(), at.x.value(), 1, 1, 1076, 1088, 51);
    track::lemma_times(e, at.y, e.value(), at.y.value(), 1, 1, 1076, 1088, 51);
    assert(o * (1 * 1) == o);
    spin::lemma_scaled_itself(h, o, 1091, 50);
    let (a, b) = (n.value() * at.x.value(), e.value() * at.y.value());
    track::lemma_plus(h, n * at.x, h.value() * o, a, o, 1091, 50);
    track::lemma_looser(e * at.y, b, o, 1091, 50, 1093, 50);
    track::lemma_plus(h + n * at.x, e * at.y, h.value() * o + a, b, o, 1093, 50);
}

/// Within its stroke a leg pushes by its spring alone: the elastic force is the
/// spring rate times the depth.
pub proof fn within_the_stroke_the_spring_pushes(leg: LandingGearLeg, penetration: Binary64)
    requires
        leg.well_formed(),
        penetration.is_finite(),
        penetration.value() <= leg.max_stroke.value(),
    ensures
        landing_gear::elastic_force(leg, penetration).value() == (leg.spring_rate.0
            * penetration).value(),
{
    let zero = Binary64::of(0);
    let stiff = Binary64::of(landing_gear::BOTTOM_OUT_STIFFNESS_MULTIPLIER);
    let (stroke, travel, rate) = (leg.max_stroke, leg.bottom_stop_travel, leg.spring_rate.0);
    binary64::lemma_of(0);
    binary64::lemma_of(landing_gear::BOTTOM_OUT_STIFFNESS_MULTIPLIER);
    binary64::lemma_order(zero, travel);
    binary64::lemma_order(zero, rate);
    binary64::lemma_order(zero, stroke);
    binary64::lemma_order(stroke, penetration);
    binary64::lemma_negate(stroke);
    let past = penetration - stroke;
    assert(past == penetration + stroke.negate());
    binary64::lemma_add(penetration, stroke.negate());
    binary64::lemma_round_exact(zero, 1);
    binary64::lemma_round_monotone(penetration.value() - stroke.value(), 0, 1);
    binary64::lemma_order(past, zero);
    binary64::lemma_order(travel, past);
    let stop = past.clamp(zero, travel);
    assert(stop.value() == 0);
    if past.value() == 0 {
        binary64::lemma_between_finite(past, zero, zero);
    }
    let main = penetration.min(stroke);
    binary64::lemma_zero_factor(stop, stiff);
    assert(stiff.value() * stop.value() == 0) by (nonlinear_arith)
        requires
            stop.value() == 0,
    ;
    assert(0 * Binary64::one() == 0);
    binary64::lemma_product_between(stiff, stop, zero, zero);
    binary64::lemma_sum_between(main, stiff * stop, main, main);
    binary64::lemma_mul(rate, main + stiff * stop);
    binary64::lemma_mul(rate, penetration);
}

/// A leg that is in the ground touches it, whatever it does; one that touches
/// soon would do so lower down too; and one that is clear of the ground by more
/// than a centimetre and moves away from it does not.
pub proof fn a_leg_touches_soon_where_it_is_low_or_sinks(
    state: RigidBodyState,
    environment: Environment,
    ground_frame: LocalFrame,
    leg: LandingGearLeg,
    low: Binary64,
    high: Binary64,
    dt: Binary64,
)
    requires
        ({
            let contact = landing_gear::contact_ecef(state, leg);
            let ground = environment.ground_elevation_at(ground_frame.position_to_ned(contact));
            let normal = environment.ground_normal_ecef(ground_frame);
            let away = landing_gear::contact_velocity(state, leg).dot(normal);
            &&& near::sized(ground, 0x10000)
            &&& near::sized(low, 0x10000)
            &&& near::sized(high, 0x10000)
            &&& low.value() <= high.value()
            &&& near::sized(environment.normal_distance_scale(), 1)
            &&& environment.normal_distance_scale().value() >= 0
            &&& near::sized(away, 0x1000)
            &&& near::sized(dt, 16)
            &&& dt.value() >= 0
        }),
    ensures
        ({
            let contact = landing_gear::contact_ecef(state, leg);
            let ground = environment.ground_elevation_at(ground_frame.position_to_ned(contact));
            let normal = environment.ground_normal_ecef(ground_frame);
            let away = landing_gear::contact_velocity(state, leg).dot(normal);
            let scale = environment.normal_distance_scale();
            let touches = |altitude: Binary64|
                landing_gear::touches_soon(state, environment, ground_frame, leg, altitude, dt);
            &&& low.value() <= ground.value() ==> touches(low)
            &&& touches(high) ==> touches(low)
            &&& away.value() >= 0 && 100 * ((high.value() - ground.value()) * scale.value())
                >= Binary64::one() * Binary64::one() ==> !touches(high)
        }),
{
    let o = Binary64::one() as int;
    let g = near::grain() as int;
    let contact = landing_gear::contact_ecef(state, leg);
    let ground = environment.ground_elevation_at(ground_frame.position_to_ned(contact));
    let normal = environment.ground_normal_ecef(ground_frame);
    let away = landing_gear::contact_velocity(state, leg).dot(normal);
    let scale = environment.normal_distance_scale();
    let zero = Binary64::of(0);
    let thin = Binary64::ratio(1, 1_000);
    near::lemma_grain();
    binary64::lemma_of(0);
    binary64::lemma_negate(away);
    binary64::lemma_negate(ground);
    let reach = away.negate() * dt;
    near::lemma_small_product(away.negate(), dt, 0x1000, 16);
    binary64::lemma_order(reach, zero);
    binary64::lemma_order(zero, reach);
    let closing = reach.max(zero);
    near::lemma_small_ratio(1, 1_000, 1);
    near::lemma_ratio(1, 1_000);
    binary64::lemma_ratio_positive(1, 1_000);
    near::lemma_small_sum(closing, thin, 0x10001, 1);
    let limit = closing + thin;
    binary64::lemma_add(closing, thin);
    binary64::lemma_round_exact(zero, 1);
    binary64::lemma_round_monotone(0, closing.value() + thin.value(), 1);
    let (a, b) = (low - ground, high - ground);
    assert(a == low + ground.negate() && b == high + ground.negate());
    near::lemma_small_difference(low, ground, 0x10000, 0x10000);
    near::lemma_small_difference(high, ground, 0x10000, 0x10000);
    near::lemma_sum_grows(low, high, ground.negate());
    near::lemma_product_grows(a, b, scale);
    near::lemma_small_product(a, scale, 0x20001, 1);
    near::lemma_small_product(b, scale, 0x20001, 1);
    binary64::lemma_order(a * scale, limit);
    binary64::lemma_order(b * scale, limit);
    if low.value() <= ground.value() {
        binary64::lemma_add(low, ground.negate());
        binary64::lemma_round_monotone(low.value() - ground.value(), 0, 1);
        near::lemma_product_grows(a, zero, scale);
        binary64::lemma_zero_factor(zero, scale);
    }
    if away.value() >= 0 && 100 * ((high.value() - ground.value()) * scale.value()) >= o * o {
        assert((-away.value()) * dt.value() <= 0) by (nonlinear_arith)
            requires
                away.value() >= 0,
                dt.value() >= 0,
        ;
        binary64::lemma_mul(away.negate(), dt);
        binary64::lemma_round_exact(zero, Binary64::one());
        assert(0 * o == 0);
        binary64::lemma_round_monotone(away.negate().value() * dt.value(), 0, Binary64::one());
        assert(closing.value() == 0);
        assert(1000 * thin.value() <= o + 1000 * g);
        assert(1000 * limit.value() <= o + 2000 * g);
        let (x, s) = (high.value() - ground.value(), scale.value());
        let y = b.value();
        let c = (b * scale).value();
        assert((x - y) * s <= g * o) by (nonlinear_arith)
            requires
                x - y <= g,
                0 <= s <= o,
                g > 0,
        {
            if x - y > 0 {
                assert((x - y) * s <= g * s) by (nonlinear_arith)
                    requires
                        x - y <= g,
                        s >= 0,
                ;
                assert(g * s <= g * o) by (nonlinear_arith)
                    requires
                        s <= o,
                        g > 0,
                ;
            } else {
                assert((x - y) * s <= 0) by (nonlinear_arith)
                    requires
                        x - y <= 0,
                        s >= 0,
                ;
                assert(g * o >= 0) by (nonlinear_arith)
                    requires
                        g > 0,
                        o >= s,
                        s >= 0,
                ;
            }
        }
        assert((x - y) * s == x * s - y * s) by (nonlinear_arith);
        assert(c * o >= x * s - 2 * (g * o));
        assert(100 * (c * o) >= o * o - 200 * (g * o));
        assert(100 * c >= o - 200 * g) by (nonlinear_arith)
            requires
                100 * (c * o) >= o * o - 200 * (g * o),
                o > 0,
        {
            let d = 100 * c - o + 200 * g;
            assert(d * o == 100 * (c * o) - o * o + 200 * (g * o)) by (nonlinear_arith)
                requires
                    d == 100 * c - o + 200 * g,
            ;
            assert(d >= 0) by (nonlinear_arith)
                requires
                    d * o >= 0,
                    o > 0,
            ;
        }
    }
}

/// The fastest swing that the ground can bring counts every leg, and all of them
/// together against the mass; none is faster.
pub proof fn the_fastest_swing_counts_every_leg(
    gear: LandingGearConfig,
    mass: MassProperties,
    state: RigidBodyState,
    environment: Environment,
    ground_frame: LocalFrame,
)
    requires
        ({
            let normal = state.orientation.inverse().rotate(
                environment.ground_normal_ecef(ground_frame),
            );
            let total = landing_gear::stop_stiffness(gear.nose) + landing_gear::stop_stiffness(
                gear.left,
            ) + landing_gear::stop_stiffness(gear.right);
            &&& landing_gear::stop_stiffness(gear.nose).is_finite()
            &&& landing_gear::stop_stiffness(gear.nose).value() > 0
            &&& landing_gear::leg_frequency(mass, normal, gear.nose).is_finite()
            &&& landing_gear::leg_frequency(mass, normal, gear.left).is_finite()
            &&& landing_gear::leg_frequency(mass, normal, gear.right).is_finite()
            &&& (total / mass.mass).sqrt().is_finite()
        }),
    ensures
        ({
            let normal = state.orientation.inverse().rotate(
                environment.ground_normal_ecef(ground_frame),
            );
            let total = landing_gear::stop_stiffness(gear.nose) + landing_gear::stop_stiffness(
                gear.left,
            ) + landing_gear::stop_stiffness(gear.right);
            let all = (total / mass.mass).sqrt().value();
            let nose = landing_gear::leg_frequency(mass, normal, gear.nose).value();
            let left = landing_gear::leg_frequency(mass, normal, gear.left).value();
            let right = landing_gear::leg_frequency(mass, normal, gear.right).value();
            let most = landing_gear::maximum_natural_frequency(
                gear,
                mass,
                state,
                environment,
                ground_frame,
            ).value();
            &&& most >= 0 && most >= nose && most >= left && most >= right && most >= all
            &&& most == 0 || most == nose || most == left || most == right || most == all
        }),
{
    let normal = state.orientation.inverse().rotate(environment.ground_normal_ecef(ground_frame));
    let zero = Binary64::of(0);
    let stiff = landing_gear::stop_stiffness(gear.nose);
    binary64::lemma_of(0);
    binary64::lemma_sum_between(zero, stiff, stiff, stiff);
    binary64::lemma_order(zero + stiff, stiff);
    binary64::lemma_value_determines_positive(zero + stiff, stiff);
    let total = stiff + landing_gear::stop_stiffness(gear.left) + landing_gear::stop_stiffness(
        gear.right,
    );
    let (a, b, c) = (
        landing_gear::leg_frequency(mass, normal, gear.nose),
        landing_gear::leg_frequency(mass, normal, gear.left),
        landing_gear::leg_frequency(mass, normal, gear.right),
    );
    let d = (total / mass.mass).sqrt();
    let p = zero.max(a);
    let q = p.max(b);
    let r = q.max(c);
    binary64::lemma_order(zero, a);
    binary64::lemma_order(p, b);
    binary64::lemma_order(q, c);
    binary64::lemma_order(r, d);
    binary64::lemma_order(a, a);
    binary64::lemma_order(b, b);
    binary64::lemma_order(c, c);
    binary64::lemma_order(d, d);
}

/// How fast a leg against its stop makes the aircraft swing, squared, is its
/// stiffness times what the mass and the inertia at its arm yield, but for
/// rounding.
pub proof fn a_stiffer_leg_swings_faster(mass: MassProperties, normal: DVec3, leg: LandingGearLeg)
    requires
        ({
            let arm = leg.contact_point.0.cross(normal);
            let give = Binary64::of(1) / mass.mass + arm.dot(mass.inverse_inertia.apply(arm));
            let square = landing_gear::stop_stiffness(leg) * give;
            square.is_finite() && pow2(72) <= square.value() <= pow2(2078)
        }),
    ensures
        ({
            let arm = leg.contact_point.0.cross(normal);
            let give = Binary64::of(1) / mass.mass + arm.dot(mass.inverse_inertia.apply(arm));
            let w = (landing_gear::stop_stiffness(leg) * give).value() * Binary64::one();
            let f = landing_gear::leg_frequency(mass, normal, leg).value();
            f > 0 && -w <= 0x10000000000 * (f * f - w) <= w
        }),
{
    let arm = leg.contact_point.0.cross(normal);
    let give = Binary64::of(1) / mass.mass + arm.dot(mass.inverse_inertia.apply(arm));
    norm::lemma_root_squared(landing_gear::stop_stiffness(leg) * give);
}

} // verus!
