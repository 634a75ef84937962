//! What the ground does to the wheels.
//!
//! The heights of the contact points and the hyperbolic tangents of the sliding
//! speeds come in from outside.
use crate::binary64;
use crate::binary64::Binary64;
use crate::fdm::aero::BodyLoads;
use crate::fdm::aircraft::{LandingGearConfig, LandingGearLeg, MassProperties};
use crate::fdm::environment::Environment;
use crate::fdm::state::{LocalFrame, RigidBodyState};
use crate::near;
use crate::norm;
use crate::number;
use crate::number::Number;
use crate::rounding;
use crate::rounding::Format;
use crate::sign;
use crate::vector::DVec3;
use vstd::prelude::*;

verus! {

/// How much stiffer the stop is than the spring.
pub const BOTTOM_OUT_STIFFNESS_MULTIPLIER: i64 = 6;

pub open spec fn spec_max_gear_phase_per_substep() -> Binary64 {
    Binary64::ratio(5, 100)
}

/// How far the gear may swing in a part of a step, in radians.
#[verifier::when_used_as_spec(spec_max_gear_phase_per_substep)]
pub fn max_gear_phase_per_substep() -> (r: Binary64)
    ensures
        r == max_gear_phase_per_substep(),
{
    Binary64::ratio(5, 100)
}

/// What the spring and the stop push with; past the stop it grows no more.
pub open spec fn elastic_force(leg: LandingGearLeg, penetration: Binary64) -> Binary64 {
    let main = penetration.min(leg.max_stroke);
    let stop = (penetration - leg.max_stroke).clamp(Binary64::of(0), leg.bottom_stop_travel);
    leg.spring_rate.0 * (main + Binary64::of(BOTTOM_OUT_STIFFNESS_MULTIPLIER) * stop)
}

/// The share of the elastic force that is left while the leg comes out: it
/// falls in a straight line and is gone at the recoil limit.
pub open spec fn recoil_fade(leg: LandingGearLeg, penetration_rate: Binary64) -> Binary64 {
    let recoil = penetration_rate.negate().max(Binary64::of(0));
    (Binary64::of(1) - recoil / leg.max_recoil_speed).clamp(Binary64::of(0), Binary64::of(1))
}

/// What the ground pushes a leg with.
pub open spec fn normal_force_spec(
    leg: LandingGearLeg,
    penetration: Binary64,
    penetration_rate: Binary64,
) -> Binary64 {
    if !penetration.is_finite() || !penetration_rate.is_finite() {
        Binary64::of(0)
    } else {
        (elastic_force(leg, penetration) * recoil_fade(leg, penetration_rate)
            + leg.damping_coefficient.0 * penetration_rate).max(Binary64::of(0))
    }
}

/// What the ground pushes a leg with in newtons, for how deep the wheel is in
/// it and how fast it goes deeper.
pub fn normal_force(leg: &LandingGearLeg, penetration: Binary64, penetration_rate: Binary64) -> (r:
    Binary64)
    requires
        leg.well_formed(),
    ensures
        r == normal_force_spec(*leg, penetration, penetration_rate),
{
    let zero = Binary64::of(0);
    let one = Binary64::of(1);
    proof {
        binary64::lemma_of(0);
        binary64::lemma_of(1);
        binary64::lemma_order(zero, one);
        binary64::lemma_order(zero, leg.bottom_stop_travel);
    }
    if !penetration.is_finite() || !penetration_rate.is_finite() {
        return zero;
    }
    let main_stroke = penetration.min(leg.max_stroke);
    let bottom_stop_stroke = (penetration - leg.max_stroke).clamp(zero, leg.bottom_stop_travel);
    let elastic = leg.spring_rate.0 * (main_stroke + Binary64::of(
        BOTTOM_OUT_STIFFNESS_MULTIPLIER,
    ) * bottom_stop_stroke);
    let recoil_speed = penetration_rate.negate().max(zero);
    let fade = (one - recoil_speed / leg.max_recoil_speed).clamp(zero, one);
    let damping = leg.damping_coefficient.0 * penetration_rate;
    (elastic * fade + damping).max(zero)
}

/// What all legs share: the ground's normal, the ways along and across it, and
/// how strongly tyres hold.
#[derive(Clone, Copy, PartialEq, Eq, Debug, Structural)]
pub struct ContactPlane {
    pub normal: DVec3,
    /// The aircraft points along the ground, so there is a way along it.
    pub has_ways: bool,
    pub forward: DVec3,
    pub lateral: DVec3,
    /// Height over the ground to distance from it.
    pub scale: Binary64,
    pub forward_coefficient: Binary64,
    pub lateral_coefficient: Binary64,
    /// The most that both together hold.
    pub friction_limit: Binary64,
    /// The speed over which friction builds up.
    pub transition_speed: Binary64,
}

/// The nose along the ground.
pub open spec fn spec_nose_along(state: RigidBodyState, normal: DVec3) -> DVec3 {
    let nose = state.orientation.rotate(forward_axis());
    nose.minus(normal.scaled(nose.dot(normal)))
}

pub open spec fn spec_forward_axis() -> DVec3 {
    DVec3 { x: Binary64::of(1), y: Binary64::of(0), z: Binary64::of(0) }
}

/// The body axis forward.
#[verifier::when_used_as_spec(spec_forward_axis)]
pub fn forward_axis() -> (r: DVec3)
    ensures
        r == forward_axis(),
{
    DVec3 { x: Binary64::of(1), y: Binary64::of(0), z: Binary64::of(0) }
}

pub open spec fn contact_plane_spec(
    gear: LandingGearConfig,
    state: RigidBodyState,
    brakes: Binary64,
    environment: Environment,
    ground_frame: LocalFrame,
) -> ContactPlane {
    let normal = environment.ground_normal_ecef(ground_frame);
    let along = spec_nose_along(state, normal);
    let has_ways = along.dot(along) > Binary64::ratio(1, 1_000_000_000_000);
    let forward = if has_ways {
        along.normalized()
    } else {
        DVec3::zero()
    };
    let forward_coefficient = gear.rolling_friction_coefficient + brakes
        * gear.braking_friction_coefficient;
    ContactPlane {
        normal,
        has_ways,
        forward,
        lateral: if has_ways {
            forward.cross(normal).normalized()
        } else {
            DVec3::zero()
        },
        scale: environment.normal_distance_scale(),
        forward_coefficient,
        lateral_coefficient: gear.lateral_friction_coefficient,
        friction_limit: forward_coefficient.max(gear.lateral_friction_coefficient),
        transition_speed: gear.friction_transition_speed,
    }
}

/// What all legs share for a state on the ground.
pub fn contact_plane(
    gear: &LandingGearConfig,
    state: &RigidBodyState,
    brakes: Binary64,
    environment: &Environment,
    ground_frame: LocalFrame,
) -> (r: ContactPlane)
    ensures
        r == contact_plane_spec(*gear, *state, brakes, *environment, ground_frame),
{
    let normal = environment.ground_normal_ecef(ground_frame);
    let nose = state.orientation.rotate(forward_axis());
    let along = nose.minus(normal.scaled(nose.dot(normal)));
    let has_ways = along.dot(along).gt(Binary64::ratio(1, 1_000_000_000_000));
    let forward = if has_ways {
        along.normalized()
    } else {
        DVec3::zero()
    };
    let lateral = if has_ways {
        forward.cross(normal).normalized()
    } else {
        DVec3::zero()
    };
    let forward_coefficient = gear.rolling_friction_coefficient + brakes
        * gear.braking_friction_coefficient;
    ContactPlane {
        normal,
        has_ways,
        forward,
        lateral,
        scale: environment.normal_distance_scale(),
        forward_coefficient,
        lateral_coefficient: gear.lateral_friction_coefficient,
        friction_limit: forward_coefficient.max(gear.lateral_friction_coefficient),
        transition_speed: gear.friction_transition_speed,
    }
}

pub open spec fn spec_contact_ecef(state: RigidBodyState, leg: LandingGearLeg) -> DVec3 {
    state.position.plus(state.orientation.rotate(leg.contact_point.0))
}

/// Where a leg touches, in earth-fixed axes.
#[verifier::when_used_as_spec(spec_contact_ecef)]
pub fn contact_ecef(state: RigidBodyState, leg: LandingGearLeg) -> (r: DVec3)
    ensures
        r == contact_ecef(state, leg),
{
    state.position.plus(state.orientation.rotate(leg.contact_point.0))
}

pub open spec fn spec_contact_velocity(state: RigidBodyState, leg: LandingGearLeg) -> DVec3 {
    state.velocity.plus(
        state.orientation.rotate(state.angular_velocity.cross(leg.contact_point.0)),
    )
}

/// How fast the place where a leg touches moves.
#[verifier::when_used_as_spec(spec_contact_velocity)]
pub fn contact_velocity(state: RigidBodyState, leg: LandingGearLeg) -> (r: DVec3)
    ensures
        r == contact_velocity(state, leg),
{
    state.velocity.plus(
        state.orientation.rotate(state.angular_velocity.cross(leg.contact_point.0)),
    )
}

/// The sliding speeds whose hyperbolic tangents friction asks for, along and
/// across.
#[derive(Clone, Copy, PartialEq, Eq, Debug, Structural)]
pub struct Sliding {
    pub forward: Binary64,
    pub lateral: Binary64,
}

pub open spec fn spec_sliding_of(plane: ContactPlane, state: RigidBodyState, leg: LandingGearLeg) -> Sliding {
    let velocity = contact_velocity(state, leg);
    Sliding {
        forward: velocity.dot(plane.forward) / plane.transition_speed,
        lateral: velocity.dot(plane.lateral) / plane.transition_speed,
    }
}

/// How a leg slides, in units of the speed over which friction builds up.
#[verifier::when_used_as_spec(spec_sliding_of)]
pub fn sliding_of(plane: ContactPlane, state: RigidBodyState, leg: LandingGearLeg) -> (r: Sliding)
    ensures
        r == sliding_of(plane, state, leg),
{
    let velocity = contact_velocity(state, leg);
    Sliding {
        forward: velocity.dot(plane.forward) / plane.transition_speed,
        lateral: velocity.dot(plane.lateral) / plane.transition_speed,
    }
}

/// What comes in from outside for a leg: the height of its contact point and
/// the hyperbolic tangents of how it slides.
#[derive(Clone, Copy, PartialEq, Eq, Debug, Structural)]
pub struct LegMeasure {
    pub altitude: Binary64,
    pub grip: Sliding,
}

/// The friction that grips ask for, per newton on the ground.
pub open spec fn asked_friction(plane: ContactPlane, grip: Sliding) -> DVec3 {
    plane.forward.opposite().scaled(plane.forward_coefficient * grip.forward).minus(
        plane.lateral.scaled(plane.lateral_coefficient * grip.lateral),
    )
}

/// The friction, held to what tyres hold.
pub open spec fn friction_spec(plane: ContactPlane, grip: Sliding) -> DVec3 {
    norm::held_to(asked_friction(plane, grip), plane.friction_limit)
}

/// The friction that grips ask for, held to what tyres hold, per newton on the
/// ground.
pub fn friction(plane: ContactPlane, grip: Sliding) -> (r: DVec3)
    ensures
        r == friction_spec(plane, grip),
{
    let asked = plane.forward.opposite().scaled(plane.forward_coefficient * grip.forward).minus(
        plane.lateral.scaled(plane.lateral_coefficient * grip.lateral),
    );
    let size = asked.length();
    if size.gt(plane.friction_limit) {
        asked.scaled(plane.friction_limit / size)
    } else {
        asked
    }
}

pub open spec fn spec_penetration_of(plane: ContactPlane, environment: Environment, ground_frame: LocalFrame, contact: DVec3, altitude: Binary64) -> Binary64 {
    let ground = environment.ground_elevation_at(ground_frame.position_to_ned(contact));
    (ground - altitude) * plane.scale
}

/// How deep a leg is in the ground.
#[verifier::when_used_as_spec(spec_penetration_of)]
pub fn penetration_of(plane: ContactPlane, environment: Environment, ground_frame: LocalFrame, contact: DVec3, altitude: Binary64) -> (r: Binary64)
    ensures
        r == penetration_of(plane, environment, ground_frame, contact, altitude),
{
    let ground = environment.ground_elevation_at(ground_frame.position_to_ned(contact));
    (ground - altitude) * plane.scale
}

/// The force of the ground on a leg in earth-fixed axes, where it touches.
pub open spec fn leg_force(
    plane: ContactPlane,
    state: RigidBodyState,
    leg: LandingGearLeg,
    penetration: Binary64,
    grip: Sliding,
) -> Option<DVec3> {
    let zero = Binary64::of(0);
    let rate = contact_velocity(state, leg).dot(plane.normal).negate();
    let push = normal_force_spec(leg, penetration, rate);
    if !penetration.is_finite() || penetration <= zero || !push.is_finite() || push <= zero {
        None
    } else if plane.has_ways {
        Some(plane.normal.scaled(push).plus(friction_spec(plane, grip).scaled(push)))
    } else {
        Some(plane.normal.scaled(push))
    }
}

/// The loads with those of one more leg.
pub open spec fn with_leg(
    loads: BodyLoads,
    plane: ContactPlane,
    state: RigidBodyState,
    environment: Environment,
    ground_frame: LocalFrame,
    leg: LandingGearLeg,
    measure: LegMeasure,
) -> BodyLoads {
    let contact = contact_ecef(state, leg);
    let penetration = penetration_of(plane, environment, ground_frame, contact, measure.altitude);
    match leg_force(plane, state, leg, penetration, measure.grip) {
        None => loads,
        Some(force) => {
            let body = state.orientation.inverse().rotate(force);
            BodyLoads {
                force: loads.force.plus(body),
                moment: loads.moment.plus(leg.contact_point.0.cross(body)),
            }
        },
    }
}

fn add_leg(
    loads: BodyLoads,
    plane: ContactPlane,
    state: &RigidBodyState,
    environment: &Environment,
    ground_frame: LocalFrame,
    leg: LandingGearLeg,
    measure: LegMeasure,
) -> (r: BodyLoads)
    requires
        leg.well_formed(),
    ensures
        r == with_leg(loads, plane, *state, *environment, ground_frame, leg, measure),
{
    let zero = Binary64::of(0);
    let contact = contact_ecef(*state, leg);
    let penetration = penetration_of(plane, *environment, ground_frame, contact, measure.altitude);
    if !penetration.is_finite() || penetration.le(zero) {
        return loads;
    }
    let velocity = contact_velocity(*state, leg);
    let rate = velocity.dot(plane.normal).negate();
    let push = normal_force(&leg, penetration, rate);
    if !push.is_finite() || push.le(zero) {
        return loads;
    }
    let mut force = plane.normal.scaled(push);
    if plane.has_ways {
        force = force.plus(friction(plane, measure.grip).scaled(push));
    }
    let body = state.orientation.inverse().rotate(force);
    BodyLoads {
        force: loads.force.plus(body),
        moment: loads.moment.plus(leg.contact_point.0.cross(body)),
    }
}

/// No force and no moment.
pub open spec fn no_loads() -> BodyLoads {
    BodyLoads { force: DVec3::zero(), moment: DVec3::zero() }
}

pub open spec fn loads_spec(
    gear: LandingGearConfig,
    state: RigidBodyState,
    brakes: Binary64,
    environment: Environment,
    ground_frame: LocalFrame,
    measures: Seq<LegMeasure>,
) -> BodyLoads {
    if !environment.ground_known() {
        no_loads()
    } else {
        let plane = contact_plane_spec(gear, state, brakes, environment, ground_frame);
        let one = with_leg(
            no_loads(),
            plane,
            state,
            environment,
            ground_frame,
            gear.nose,
            measures[0],
        );
        let two = with_leg(
            one,
            plane,
            state,
            environment,
            ground_frame,
            gear.left,
            measures[1],
        );
        with_leg(two, plane, state, environment, ground_frame, gear.right, measures[2])
    }
}

/// What the ground does to all legs together, along the body axes; nothing
/// where the ground is broken.
pub fn loads(
    gear: &LandingGearConfig,
    state: &RigidBodyState,
    brakes: Binary64,
    environment: &Environment,
    ground_frame: LocalFrame,
    measures: [LegMeasure; 3],
) -> (r: BodyLoads)
    requires
        gear.well_formed(),
    ensures
        r == loads_spec(*gear, *state, brakes, *environment, ground_frame, measures@),
{
    let none = BodyLoads { force: DVec3::zero(), moment: DVec3::zero() };
    if !environment.ground_input_is_finite() {
        return none;
    }
    let plane = contact_plane(gear, state, brakes, environment, ground_frame);
    let one = add_leg(none, plane, state, environment, ground_frame, gear.nose, measures[0]);
    let two = add_leg(one, plane, state, environment, ground_frame, gear.left, measures[1]);
    add_leg(two, plane, state, environment, ground_frame, gear.right, measures[2])
}

/// The leg touches, or will within the time.
pub open spec fn touches_soon(
    state: RigidBodyState,
    environment: Environment,
    ground_frame: LocalFrame,
    leg: LandingGearLeg,
    altitude: Binary64,
    dt: Binary64,
) -> bool {
    let contact = contact_ecef(state, leg);
    let ground = environment.ground_elevation_at(ground_frame.position_to_ned(contact));
    let clearance = (altitude - ground) * environment.normal_distance_scale();
    let normal = environment.ground_normal_ecef(ground_frame);
    let closing = (contact_velocity(state, leg).dot(normal).negate() * dt).max(Binary64::of(0));
    clearance <= closing + Binary64::ratio(1, 1_000)
}

fn leg_touches_soon(
    state: &RigidBodyState,
    environment: &Environment,
    ground_frame: LocalFrame,
    leg: LandingGearLeg,
    altitude: Binary64,
    dt: Binary64,
) -> (r: bool)
    ensures
        r == touches_soon(*state, *environment, ground_frame, leg, altitude, dt),
{
    let contact = contact_ecef(*state, leg);
    let ground = environment.ground_elevation_at(ground_frame.position_to_ned(contact));
    let clearance = (altitude - ground) * environment.normal_distance_scale();
    let normal = environment.ground_normal_ecef(ground_frame);
    let closing = (contact_velocity(*state, leg).dot(normal).negate() * dt).max(Binary64::of(0));
    clearance.le(closing + Binary64::ratio(1, 1_000))
}

pub open spec fn contact_spec(
    gear: LandingGearConfig,
    state: RigidBodyState,
    environment: Environment,
    ground_frame: LocalFrame,
    altitudes: Seq<Binary64>,
    dt: Binary64,
) -> bool {
    environment.ground_known() && (touches_soon(
        state,
        environment,
        ground_frame,
        gear.nose,
        altitudes[0],
        dt,
    ) || touches_soon(state, environment, ground_frame, gear.left, altitudes[1], dt)
        || touches_soon(state, environment, ground_frame, gear.right, altitudes[2], dt))
}

/// A leg touches the ground or will before the step is over.
pub fn contact_is_active_or_imminent(
    gear: &LandingGearConfig,
    state: &RigidBodyState,
    environment: &Environment,
    ground_frame: LocalFrame,
    altitudes: [Binary64; 3],
    dt: Binary64,
) -> (r: bool)
    ensures
        r == contact_spec(*gear, *state, *environment, ground_frame, altitudes@, dt),
{
    environment.ground_input_is_finite() && (leg_touches_soon(
        state,
        environment,
        ground_frame,
        gear.nose,
        altitudes[0],
        dt,
    ) || leg_touches_soon(state, environment, ground_frame, gear.left, altitudes[1], dt)
        || leg_touches_soon(state, environment, ground_frame, gear.right, altitudes[2], dt))
}

pub open spec fn spec_stop_stiffness(leg: LandingGearLeg) -> Binary64 {
    leg.spring_rate.0 * Binary64::of(BOTTOM_OUT_STIFFNESS_MULTIPLIER)
}

/// How stiff a leg is against its stop.
#[verifier::when_used_as_spec(spec_stop_stiffness)]
pub fn stop_stiffness(leg: LandingGearLeg) -> (r: Binary64)
    ensures
        r == stop_stiffness(leg),
{
    leg.spring_rate.0 * Binary64::of(BOTTOM_OUT_STIFFNESS_MULTIPLIER)
}

pub open spec fn spec_leg_frequency(mass: MassProperties, normal_body: DVec3, leg: LandingGearLeg) -> Binary64 {
    let lever = leg.contact_point.0.cross(normal_body);
    let inverse_mass = Binary64::of(1) / mass.mass + lever.dot(mass.inverse_inertia.apply(lever));
    (stop_stiffness(leg) * inverse_mass).sqrt()
}

/// How fast a leg against its stop makes the aircraft swing.
#[verifier::when_used_as_spec(spec_leg_frequency)]
pub fn leg_frequency(mass: MassProperties, normal_body: DVec3, leg: LandingGearLeg) -> (r: Binary64)
    ensures
        r == leg_frequency(mass, normal_body, leg),
{
    let lever = leg.contact_point.0.cross(normal_body);
    let inverse_mass = Binary64::of(1) / mass.mass + lever.dot(mass.inverse_inertia.apply(lever));
    (stop_stiffness(leg) * inverse_mass).sqrt()
}

pub open spec fn spec_maximum_natural_frequency(gear: LandingGearConfig, mass: MassProperties, state: RigidBodyState, environment: Environment, ground_frame: LocalFrame) -> Binary64 {
    let normal = environment.ground_normal_ecef(ground_frame);
    let normal_body = state.orientation.inverse().rotate(normal);
    let zero = Binary64::of(0);
    let total = zero + stop_stiffness(gear.nose) + stop_stiffness(gear.left) + stop_stiffness(
        gear.right,
    );
    zero.max(leg_frequency(mass, normal_body, gear.nose)).max(
        leg_frequency(mass, normal_body, gear.left),
    ).max(leg_frequency(mass, normal_body, gear.right)).max((total / mass.mass).sqrt())
}

/// The fastest swing that touching the ground can bring, in radians per
/// second. The stop counts even where it is not reached yet.
#[verifier::when_used_as_spec(spec_maximum_natural_frequency)]
pub fn maximum_natural_frequency(gear: LandingGearConfig, mass: MassProperties, state: RigidBodyState, environment: Environment, ground_frame: LocalFrame) -> (r: Binary64)
    ensures
        r == maximum_natural_frequency(gear, mass, state, environment, ground_frame),
{
    let normal = environment.ground_normal_ecef(ground_frame);
    let normal_body = state.orientation.inverse().rotate(normal);
    let zero = Binary64::of(0);
    let total = zero + stop_stiffness(gear.nose) + stop_stiffness(gear.left) + stop_stiffness(
        gear.right,
    );
    zero.max(leg_frequency(mass, normal_body, gear.nose)).max(
        leg_frequency(mass, normal_body, gear.left),
    ).max(leg_frequency(mass, normal_body, gear.right)).max((total / mass.mass).sqrt())
}

/// The ground never pulls a leg.
pub proof fn the_ground_never_pulls(
    leg: LandingGearLeg,
    penetration: Binary64,
    penetration_rate: Binary64,
)
    ensures
        !normal_force_spec(leg, penetration, penetration_rate).is_nan(),
        normal_force_spec(leg, penetration, penetration_rate).value() >= 0,
{
    let zero = Binary64::of(0);
    binary64::lemma_of(0);
    let raw = elastic_force(leg, penetration) * recoil_fade(leg, penetration_rate)
        + leg.damping_coefficient.0 * penetration_rate;
    binary64::lemma_order(raw, zero);
    binary64::lemma_order(zero, raw);
}

/// A broken depth or speed gives no force.
pub proof fn broken_contact_gives_no_force(
    leg: LandingGearLeg,
    penetration: Binary64,
    penetration_rate: Binary64,
)
    requires
        !penetration.is_finite() || !penetration_rate.is_finite(),
    ensures
        normal_force_spec(leg, penetration, penetration_rate) == Binary64::of(0),
{
}

/// Once spring and stop are used up, going deeper pushes no harder: however
/// deep the wheel is, the elastic force is that of the spring and the stop all
/// the way in.
pub proof fn the_elastic_force_has_an_end(leg: LandingGearLeg, penetration: Binary64)
    requires
        leg.well_formed(),
        penetration.is_finite(),
        penetration.value() >= leg.max_stroke.value() + leg.bottom_stop_travel.value(),
    ensures
        elastic_force(leg, penetration) == leg.spring_rate.0 * (leg.max_stroke + Binary64::of(
            BOTTOM_OUT_STIFFNESS_MULTIPLIER,
        ) * leg.bottom_stop_travel),
{
    let zero = Binary64::of(0);
    let stroke = leg.max_stroke;
    let travel = leg.bottom_stop_travel;
    binary64::lemma_of(0);
    binary64::lemma_order(zero, stroke);
    binary64::lemma_order(zero, travel);
    binary64::lemma_order(penetration, stroke);
    binary64::lemma_order(stroke, penetration);
    binary64::lemma_value_determines_positive(penetration, stroke);
    binary64::lemma_negate(stroke);
    let past = penetration - stroke;
    assert(past == penetration + stroke.negate());
    binary64::lemma_add(penetration, stroke.negate());
    binary64::lemma_order(travel, travel);
    binary64::lemma_round_exact(travel, 1);
    binary64::lemma_round_monotone(travel.value(), penetration.value() - stroke.value(), 1);
    binary64::lemma_order(past, zero);
    binary64::lemma_order(travel, past);
    binary64::lemma_value_determines_positive(past, travel);
}

/// Past the stop, going deeper pushes neither harder nor less.
pub proof fn past_the_stop_depth_does_not_matter(
    leg: LandingGearLeg,
    a: Binary64,
    b: Binary64,
    penetration_rate: Binary64,
)
    requires
        leg.well_formed(),
        a.is_finite(),
        b.is_finite(),
        a.value() >= leg.max_stroke.value() + leg.bottom_stop_travel.value(),
        b.value() >= leg.max_stroke.value() + leg.bottom_stop_travel.value(),
    ensures
        normal_force_spec(leg, a, penetration_rate) == normal_force_spec(leg, b, penetration_rate),
{
    the_elastic_force_has_an_end(leg, a);
    the_elastic_force_has_an_end(leg, b);
}

/// The share of the elastic force is a share.
proof fn lemma_recoil_fade(leg: LandingGearLeg, penetration_rate: Binary64)
    requires
        leg.well_formed(),
        penetration_rate.is_finite(),
    ensures
        recoil_fade(leg, penetration_rate).is_finite(),
        0 <= recoil_fade(leg, penetration_rate).value() <= Binary64::one(),
{
    let (zero, one) = (Binary64::of(0), Binary64::of(1));
    let limit = leg.max_recoil_speed;
    let out = penetration_rate.negate();
    let recoil = out.max(zero);
    let share = recoil / limit;
    binary64::lemma_of(0);
    binary64::lemma_of(1);
    binary64::lemma_order(zero, limit);
    binary64::lemma_negate(penetration_rate);
    binary64::lemma_order(out, zero);
    binary64::lemma_order(zero, out);
    binary64::lemma_order(zero, zero);
    binary64::lemma_order(one, one);
    binary64::lemma_div(recoil, limit);
    binary64::lemma_negate(share);
    assert(one - share == one + share.negate());
    let left = one - share;
    if share.is_finite() {
        binary64::lemma_add(one, share.negate());
    } else {
        binary64::lemma_infinite_value(share);
        binary64::lemma_add_infinite(share.negate(), one);
        sign::lemma_sum_commutes(one, share.negate());
    }
    binary64::lemma_order(left, zero);
    binary64::lemma_order(one, left);
    let held = left.clamp(zero, one);
    binary64::lemma_between_finite(held, zero, one);
}

/// The deeper the wheel is, the harder the spring and the stop push, or as
/// hard.
proof fn lemma_elastic_grows(leg: LandingGearLeg, a: Binary64, b: Binary64)
    requires
        leg.well_formed(),
        a.is_finite(),
        b.is_finite(),
        0 <= a.value() <= b.value(),
        elastic_force(leg, b).is_finite(),
    ensures
        elastic_force(leg, a).is_finite(),
        0 <= elastic_force(leg, a).value() <= elastic_force(leg, b).value(),
{
    let zero = Binary64::of(0);
    let stiff = Binary64::of(BOTTOM_OUT_STIFFNESS_MULTIPLIER);
    let (stroke, travel, rate) = (leg.max_stroke, leg.bottom_stop_travel, leg.spring_rate.0);
    binary64::lemma_of(0);
    binary64::lemma_of(BOTTOM_OUT_STIFFNESS_MULTIPLIER);
    binary64::lemma_order(zero, zero);
    binary64::lemma_order(stiff, stiff);
    binary64::lemma_order(zero, stroke);
    binary64::lemma_order(zero, travel);
    binary64::lemma_order(zero, rate);
    binary64::lemma_order(a, stroke);
    binary64::lemma_order(b, stroke);
    binary64::lemma_order(stroke, a);
    binary64::lemma_order(stroke, b);
    binary64::lemma_negate(stroke);
    near::lemma_sum_grows(a, b, stroke.negate());
    assert(a - stroke == a + stroke.negate());
    assert(b - stroke == b + stroke.negate());
    let (p, q) = (a - stroke, b - stroke);
    binary64::lemma_order(p, zero);
    binary64::lemma_order(q, zero);
    binary64::lemma_order(travel, p);
    binary64::lemma_order(travel, q);
    let (s, t) = (p.clamp(zero, travel), q.clamp(zero, travel));
    binary64::lemma_between_finite(s, zero, travel);
    binary64::lemma_between_finite(t, zero, travel);
    let (m, n) = (a.min(stroke), b.min(stroke));
    assert(0 <= m.value() <= n.value() && m.is_finite() && n.is_finite());
    assert(BOTTOM_OUT_STIFFNESS_MULTIPLIER * Binary64::one() >= 0) by (nonlinear_arith)
        requires
            BOTTOM_OUT_STIFFNESS_MULTIPLIER >= 0,
    ;
    near::lemma_product_grows(s, t, stiff);
    let (u, v) = (stiff * s, stiff * t);
    let deep = n + v;
    if !v.is_finite() {
        binary64::lemma_add_infinite(v, n);
        sign::lemma_sum_commutes(v, n);
    }
    if !deep.is_finite() {
        lemma_infinite_product(rate, deep);
    }
    assert(v.is_finite() && deep.is_finite());
    binary64::lemma_between_finite(u, zero, v);
    near::lemma_sum_grows(m, n, u);
    near::lemma_sum_grows(u, v, n);
    sign::lemma_sum_commutes(u, n);
    sign::lemma_sum_commutes(v, n);
    let shallow = m + u;
    binary64::lemma_add(m, u);
    binary64::lemma_between_finite(shallow, zero, deep);
    near::lemma_product_grows(shallow, deep, rate);
    binary64::lemma_between_finite(rate * shallow, zero, rate * deep);
}

/// What is infinite stays so times a positive number.
proof fn lemma_infinite_product(a: Binary64, b: Binary64)
    requires
        a.is_finite(),
        a.value() > 0,
        !b.is_finite(),
    ensures
        !(a * b).is_finite(),
{
    reveal(Binary64::spec_mul);
    reveal(Binary64::spec_is_finite);
    number::lemma_constants(Format::Double);
}

/// Clear of the ground the spring alone would pull.
proof fn lemma_elastic_above(leg: LandingGearLeg, a: Binary64)
    requires
        leg.well_formed(),
        a.is_finite(),
        a.value() < 0,
    ensures
        !elastic_force(leg, a).is_nan(),
        elastic_force(leg, a).value() == binary64::round_value(
            leg.spring_rate.0.value() * a.value(),
            Binary64::one(),
        ),
        elastic_force(leg, a).value() <= 0,
{
    let zero = Binary64::of(0);
    let stiff = Binary64::of(BOTTOM_OUT_STIFFNESS_MULTIPLIER);
    let (stroke, travel, rate) = (leg.max_stroke, leg.bottom_stop_travel, leg.spring_rate.0);
    binary64::lemma_of(0);
    binary64::lemma_of(BOTTOM_OUT_STIFFNESS_MULTIPLIER);
    binary64::lemma_order(zero, stroke);
    binary64::lemma_order(zero, travel);
    binary64::lemma_order(zero, rate);
    binary64::lemma_order(a, stroke);
    binary64::lemma_order(stroke, a);
    binary64::lemma_order(a, a);
    binary64::lemma_negate(stroke);
    let past = a - stroke;
    assert(past == a + stroke.negate());
    binary64::lemma_add(a, stroke.negate());
    binary64::lemma_round_exact(a, 1);
    binary64::lemma_round_monotone(a.value() - stroke.value(), a.value(), 1);
    binary64::lemma_order(past, zero);
    binary64::lemma_zero_factor(zero, stiff);
    let u = stiff * zero;
    binary64::lemma_add(a, u);
    binary64::lemma_abs(a);
    binary64::lemma_finite_below(a + u, a.abs());
    binary64::lemma_mul(rate, a + u);
    binary64::lemma_of(0);
    assert(rate.value() * a.value() <= 0) by (nonlinear_arith)
        requires
            rate.value() >= 0,
            a.value() <= 0,
    ;
    binary64::lemma_round_exact(zero, Binary64::one());
    assert(0 * Binary64::one() == 0);
    binary64::lemma_round_monotone(rate.value() * a.value(), 0, Binary64::one());
}

/// More elastic force pushes no less, whatever the damping.
proof fn lemma_push_grows(e: Binary64, f: Binary64, fade: Binary64, damping: Binary64)
    requires
        !e.is_nan(),
        !f.is_nan(),
        e.value() <= f.value(),
        f.is_finite() || f.value() < 0,
        fade.is_finite(),
        0 <= fade.value() <= Binary64::one(),
        !damping.is_nan(),
    ensures
        (e * fade + damping).max(Binary64::of(0)).value() <= (f * fade + damping).max(
            Binary64::of(0),
        ).value(),
        (f * fade + damping).max(Binary64::of(0)).value() >= 0,
{
    let zero = Binary64::of(0);
    let (p, q) = (e * fade + damping, f * fade + damping);
    binary64::lemma_of(0);
    binary64::lemma_order(p, zero);
    binary64::lemma_order(zero, p);
    binary64::lemma_order(q, zero);
    binary64::lemma_order(zero, q);
    if !e.is_finite() {
        lemma_no_pull(e, f, fade, damping);
    } else {
        lemma_finite_after(e, f);
        near::lemma_product_grows(e, f, fade);
        lemma_shrunk(e, fade);
        lemma_shrunk(f, fade);
        if damping.is_finite() {
            near::lemma_sum_grows(e * fade, f * fade, damping);
        } else {
            binary64::lemma_infinite_first(e * fade, damping);
            binary64::lemma_infinite_first(f * fade, damping);
        }
    }
}

/// What comes after a finite number and is not above all is finite.
proof fn lemma_finite_after(e: Binary64, f: Binary64)
    requires
        e.is_finite(),
        !f.is_nan(),
        e.value() <= f.value(),
        f.is_finite() || f.value() < 0,
    ensures
        f.is_finite(),
{
    binary64::lemma_abs(e);
    if !f.is_finite() {
        binary64::lemma_finite_below(f, e.abs());
    }
}

/// A share of a finite number is finite.
proof fn lemma_shrunk(e: Binary64, fade: Binary64)
    requires
        e.is_finite(),
        fade.is_finite(),
        0 <= fade.value() <= Binary64::one(),
    ensures
        (e * fade).is_finite(),
{
    if e.value() >= 0 {
        binary64::lemma_product_below(e, fade);
    } else {
        binary64::lemma_negate(e);
        binary64::lemma_product_below(e.negate(), fade);
        near::lemma_opposite_product(e, fade);
        binary64::lemma_mul(e, fade);
        binary64::lemma_finite_below(e * fade, e.negate() * fade);
    }
}

/// What is infinitely low pushes nothing.
proof fn lemma_no_pull(e: Binary64, f: Binary64, fade: Binary64, damping: Binary64)
    requires
        !e.is_nan(),
        !e.is_finite(),
        !f.is_nan(),
        e.value() <= f.value(),
        f.is_finite() || f.value() < 0,
        fade.is_finite(),
        fade.value() >= 0,
    ensures
        (e * fade + damping).is_nan() || (e * fade + damping).value() <= 0,
{
    reveal(Binary64::spec_mul);
    reveal(Binary64::spec_add);
    reveal(Binary64::spec_is_finite);
    reveal(Binary64::spec_is_nan);
    let d = Format::Double;
    number::lemma_constants(d);
    assert(e.value() < 0) by {
        if e.value() >= 0 && f.is_finite() {
            binary64::lemma_finite_below(e, f);
        }
    }
    assert(e.number().negative);
    if fade.number().bits != 0 && fade.number().negative {
        rounding::lemma_decode_monotone(d, 0, fade.number().bits as nat);
        rounding::lemma_round_zero(d, 1);
    }
    let p = e.number().product_spec(fade.number(), d);
    assert(p == Number::nan_spec(d) || p == Number::infinity_spec(d, true) || p
        == Number::infinity_spec(d, fade.number().bits == 0));
    assert((e * fade).number() == p);
}

/// A deeper wheel is never pushed less, at the same speed, from above the ground
/// to however deep. The elastic force must not overflow; where it does, it is
/// no number once it has faded.
pub proof fn going_deeper_never_pushes_less(
    leg: LandingGearLeg,
    a: Binary64,
    b: Binary64,
    penetration_rate: Binary64,
)
    requires
        leg.well_formed(),
        a.value() <= b.value(),
        elastic_force(leg, b).is_finite() || b.value() < 0,
    ensures
        a.is_finite() && b.is_finite() ==> normal_force_spec(leg, a, penetration_rate).value()
            <= normal_force_spec(leg, b, penetration_rate).value(),
{
    binary64::lemma_of(0);
    if a.is_finite() && b.is_finite() && penetration_rate.is_finite() {
        let fade = recoil_fade(leg, penetration_rate);
        let damping = leg.damping_coefficient.0 * penetration_rate;
        let (e, f) = (elastic_force(leg, a), elastic_force(leg, b));
        lemma_recoil_fade(leg, penetration_rate);
        binary64::lemma_order(Binary64::of(0), leg.damping_coefficient.0);
        binary64::lemma_mul(leg.damping_coefficient.0, penetration_rate);
        binary64::lemma_order(e, f);
        if a.value() >= 0 {
            lemma_elastic_grows(leg, a, b);
        } else {
            lemma_elastic_above(leg, a);
            if b.value() >= 0 {
                lemma_elastic_grows(leg, b, b);
            } else {
                lemma_elastic_above(leg, b);
                let rate = leg.spring_rate.0;
                binary64::lemma_order(Binary64::of(0), rate);
                assert(rate.value() * a.value() <= rate.value() * b.value()) by (nonlinear_arith)
                    requires
                        a.value() <= b.value(),
                        rate.value() >= 0,
                ;
                binary64::lemma_round_monotone(
                    rate.value() * a.value(),
                    rate.value() * b.value(),
                    Binary64::one(),
                );
                if !f.is_finite() && f.value() == 0 {
                    binary64::lemma_finite_below(f, Binary64::of(0));
                }
            }
        }
        lemma_push_grows(e, f, fade, damping);
    }
}

/// A leg that comes out at the recoil limit or faster does not push: what was
/// stored in it is not given back to the aircraft.
pub proof fn a_fast_recoil_does_not_push(
    leg: LandingGearLeg,
    penetration: Binary64,
    penetration_rate: Binary64,
)
    requires
        leg.well_formed(),
        penetration.is_finite(),
        penetration_rate.is_finite(),
        -penetration_rate.value() >= leg.max_recoil_speed.value(),
    ensures
        normal_force_spec(leg, penetration, penetration_rate).value() == 0,
{
    let o = Binary64::one();
    let zero = Binary64::of(0);
    let one = Binary64::of(1);
    let limit = leg.max_recoil_speed;
    binary64::lemma_of(0);
    binary64::lemma_of(1);
    binary64::lemma_order(zero, limit);
    binary64::lemma_order(zero, leg.damping_coefficient.0);
    let out = penetration_rate.negate();
    binary64::lemma_negate(penetration_rate);
    binary64::lemma_order(out, zero);
    binary64::lemma_order(zero, out);
    let recoil = out.max(zero);
    assert(recoil == out);
    let share = recoil / limit;
    binary64::lemma_div(recoil, limit);
    binary64::lemma_order(one, one);
    binary64::lemma_round_exact(one, limit.value() as nat);
    assert(one.value() * limit.value() <= recoil.value() * o) by (nonlinear_arith)
        requires
            one.value() == o,
            limit.value() <= recoil.value(),
            o > 0,
    ;
    binary64::lemma_round_monotone(
        one.value() * limit.value(),
        recoil.value() * o,
        limit.value() as nat,
    );
    assert(share.value() >= o);
    binary64::lemma_negate(share);
    let left = one - share;
    assert(left == one + share.negate());
    if share.is_finite() {
        binary64::lemma_add(one, share.negate());
        binary64::lemma_round_exact(zero, 1);
        binary64::lemma_round_monotone(o - share.value(), 0, 1);
    } else {
        binary64::lemma_infinite_first(one, share.negate());
    }
    binary64::lemma_order(left, zero);
    binary64::lemma_order(one, left);
    let fade = recoil_fade(leg, penetration_rate);
    assert(fade.value() == 0 && !fade.is_nan());
    binary64::lemma_finite_below(fade, zero);
    let elastic = elastic_force(leg, penetration);
    let damping = leg.damping_coefficient.0 * penetration_rate;
    let sum = elastic * fade + damping;
    binary64::lemma_order(sum, zero);
    binary64::lemma_order(zero, sum);
    if !elastic.is_finite() {
        binary64::lemma_broken_product(elastic, fade, damping);
    } else {
        lemma_no_push(leg, penetration_rate, elastic, fade);
    }
}

/// With nothing elastic left, damping alone does not push a leg that comes out.
proof fn lemma_no_push(
    leg: LandingGearLeg,
    penetration_rate: Binary64,
    elastic: Binary64,
    fade: Binary64,
)
    requires
        leg.well_formed(),
        penetration_rate.is_finite(),
        penetration_rate.value() <= 0,
        elastic.is_finite(),
        fade.is_finite(),
        fade.value() == 0,
    ensures
        (elastic * fade + leg.damping_coefficient.0 * penetration_rate).max(
            Binary64::of(0),
        ).value() == 0,
{
    let o = Binary64::one();
    let zero = Binary64::of(0);
    binary64::lemma_of(0);
    binary64::lemma_order(zero, leg.damping_coefficient.0);
    binary64::lemma_zero_factor(fade, elastic);
    let damping = leg.damping_coefficient.0 * penetration_rate;
    binary64::lemma_mul(leg.damping_coefficient.0, penetration_rate);
    assert(leg.damping_coefficient.0.value() * penetration_rate.value() <= 0) by (nonlinear_arith)
        requires
            leg.damping_coefficient.0.value() >= 0,
            penetration_rate.value() <= 0,
    ;
    binary64::lemma_round_exact(zero, o);
    assert(0 * o == 0);
    binary64::lemma_round_monotone(
        leg.damping_coefficient.0.value() * penetration_rate.value(),
        0,
        o,
    );
    let sum = elastic * fade + damping;
    if damping.is_finite() {
        binary64::lemma_add(elastic * fade, damping);
        binary64::lemma_round_exact(zero, 1);
        binary64::lemma_round_monotone((elastic * fade).value() + damping.value(), 0, 1);
    } else {
        binary64::lemma_infinite_first(elastic * fade, damping);
    }
    binary64::lemma_order(sum, zero);
    binary64::lemma_order(zero, sum);
}

/// Tyres hold no more than their limit, whatever the grips ask for, but for
/// rounding.
pub proof fn tyres_hold_no_more_than_their_limit(plane: ContactPlane, grip: Sliding)
    requires
        norm::not_too_long(asked_friction(plane, grip)),
        plane.friction_limit.is_finite(),
        plane.friction_limit.value() >= 0,
    ensures
        norm::within(friction_spec(plane, grip), plane.friction_limit),
{
    norm::a_held_vector_is_within_its_limit(asked_friction(plane, grip), plane.friction_limit);
}

/// The product of two vectors, in counts.
pub open spec fn dot_counts(a: DVec3, b: DVec3) -> int {
    a.x.value() * b.x.value() + a.y.value() * b.y.value() + a.z.value() * b.z.value()
}

/// The square of the friction of three legs together, each weighed with what
/// it pushes with, in counts and without rounding.
pub open spec fn friction_squared(
    f: (DVec3, DVec3, DVec3),
    p: (int, int, int),
) -> int {
    p.0 * p.0 * dot_counts(f.0, f.0) + p.1 * p.1 * dot_counts(f.1, f.1) + p.2 * p.2 * dot_counts(
        f.2,
        f.2,
    ) + 2 * (p.0 * p.1 * dot_counts(f.0, f.1) + p.0 * p.2 * dot_counts(f.0, f.2) + p.1 * p.2
        * dot_counts(f.1, f.2))
}

/// A product is at most the mean of the squares.
proof fn lemma_mean(a: int, b: int)
    ensures
        2 * (a * b) <= a * a + b * b,
{
    assert((a - b) * (a - b) == a * a - 2 * (a * b) + b * b) by (nonlinear_arith);
    assert((a - b) * (a - b) >= 0) by (nonlinear_arith);
}

proof fn lemma_dot_mean(a: DVec3, b: DVec3)
    ensures
        2 * dot_counts(a, b) <= dot_counts(a, a) + dot_counts(b, b),
{
    lemma_mean(a.x.value(), b.x.value());
    lemma_mean(a.y.value(), b.y.value());
    lemma_mean(a.z.value(), b.z.value());
}

proof fn lemma_weighed(w: int, d: int, c: int)
    requires
        w >= 0,
        0x200000000000 * d <= c,
    ensures
        0x200000000000 * (w * d) <= w * c,
{
    assert(0x200000000000 * (w * d) == w * (0x200000000000 * d)) by (nonlinear_arith);
    assert(w * (0x200000000000 * d) <= w * c) by (nonlinear_arith)
        requires
            w >= 0,
            0x200000000000 * d <= c,
    ;
}

/// However each leg slides and pushes, the friction of all of them together is
/// no more than the limit times what they push with together, but for rounding:
/// the force of the ground lies within the friction cone, before it is turned
/// to the body axes.
pub proof fn all_legs_together_stay_within_the_friction_cone(
    plane: ContactPlane,
    grips: (Sliding, Sliding, Sliding),
    pushes: (int, int, int),
)
    requires
        norm::not_too_long(asked_friction(plane, grips.0)),
        norm::not_too_long(asked_friction(plane, grips.1)),
        norm::not_too_long(asked_friction(plane, grips.2)),
        plane.friction_limit.is_finite(),
        plane.friction_limit.value() >= 0,
        pushes.0 >= 0,
        pushes.1 >= 0,
        pushes.2 >= 0,
    ensures
        ({
            let f = (
                friction_spec(plane, grips.0),
                friction_spec(plane, grips.1),
                friction_spec(plane, grips.2),
            );
            let push = pushes.0 + pushes.1 + pushes.2;
            let most = plane.friction_limit.value() * push;
            (friction_squared(f, pushes) - most * most) * 0x200000000000 <= most * most + (
            Binary64::one() * Binary64::one()) * (push * push)
        }),
{
    let f = (
        friction_spec(plane, grips.0),
        friction_spec(plane, grips.1),
        friction_spec(plane, grips.2),
    );
    let (a, b, c) = pushes;
    let limit = plane.friction_limit.value();
    let unit = Binary64::one() * Binary64::one();
    let push = a + b + c;
    tyres_hold_no_more_than_their_limit(plane, grips.0);
    tyres_hold_no_more_than_their_limit(plane, grips.1);
    tyres_hold_no_more_than_their_limit(plane, grips.2);
    binary64::lemma_of(0);
    assert(0 * 0 == 0);
    let top = 0x200000000001 * (limit * limit) + unit;
    lemma_dot_mean(f.0, f.1);
    lemma_dot_mean(f.0, f.2);
    lemma_dot_mean(f.1, f.2);
    assert(a * a >= 0 && b * b >= 0 && c * c >= 0 && a * b >= 0 && a * c >= 0 && b * c >= 0)
        by (nonlinear_arith)
        requires
            a >= 0,
            b >= 0,
            c >= 0,
    ;
    lemma_weighed(a * a, dot_counts(f.0, f.0), top);
    lemma_weighed(b * b, dot_counts(f.1, f.1), top);
    lemma_weighed(c * c, dot_counts(f.2, f.2), top);
    lemma_weighed(a * b, dot_counts(f.0, f.1), top);
    lemma_weighed(a * c, dot_counts(f.0, f.2), top);
    lemma_weighed(b * c, dot_counts(f.1, f.2), top);
    let square = push * push;
    assert(square == a * a + b * b + c * c + 2 * (a * b + a * c + b * c)) by (nonlinear_arith)
        requires
            square == push * push,
            push == a + b + c,
    ;
    assert(square * top == (a * a) * top + (b * b) * top + (c * c) * top + 2 * ((a * b) * top + (a
        * c) * top + (b * c) * top)) by (nonlinear_arith)
        requires
            square == a * a + b * b + c * c + 2 * (a * b + a * c + b * c),
    ;
    let most = limit * push;
    assert(most * most == (limit * limit) * square) by (nonlinear_arith)
        requires
            most == limit * push,
            square == push * push,
    ;
    assert(square * top == 0x200000000001 * ((limit * limit) * square) + unit * square)
        by (nonlinear_arith)
        requires
            top == 0x200000000001 * (limit * limit) + unit,
    ;
}

} // verus!
