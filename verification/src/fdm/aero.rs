//! Aerodynamic coefficients, and the forces and moments they come to.
//!
//! Around the stall the straight lift curve gives way to a flat plate, so lift
//! falls and drag grows past it. The share of the plate is written as a product
//! of two logistic curves, whose exponentials cannot overflow.
use crate::angle;
use crate::angle::SinCos;
use crate::binary64;
use crate::binary64::Binary64;
use crate::fdm::aircraft::{AeroCoefficients, Geometry};
use crate::fdm::controls::ControlInputs;
use crate::number;
use crate::rounding::Format;
use crate::sign;
use crate::vector::DVec3;
use vstd::prelude::*;

verus! {

/// The angles at which air meets the aircraft, and how fast.
#[derive(Clone, Copy, PartialEq, Eq, Debug, Structural)]
pub struct AeroAngles {
    /// Radians between the nose and the wind from ahead, nose up positive.
    pub angle_of_attack: Binary64,
    /// Radians, wind from the right positive.
    pub sideslip: Binary64,
    /// Metres per second.
    pub true_airspeed: Binary64,
}

impl AeroAngles {
    pub open spec fn spec_is_finite(self) -> bool {
        self.angle_of_attack.is_finite() && self.sideslip.is_finite() && self.true_airspeed.is_finite()
    }

    #[verifier::when_used_as_spec(spec_is_finite)]
    pub fn is_finite(self) -> (r: bool)
        ensures
            r == self.is_finite(),
    {
        self.angle_of_attack.is_finite() && self.sideslip.is_finite() && self.true_airspeed.is_finite()
    }
}

/// What the angles ask for: the angle of attack is the arc tangent of `rise`
/// over `run`, the sideslip the arc sine of `slip`.
#[derive(Clone, Copy, PartialEq, Eq, Debug, Structural)]
pub struct AngleRequest {
    pub rise: Binary64,
    pub run: Binary64,
    pub slip: Binary64,
}

/// The air moves fast enough to have a direction.
pub open spec fn has_direction(speed: Binary64) -> bool {
    speed.is_finite() && speed >= Binary64::ratio(1, 1_000_000)
}

/// What the angles for an airspeed along the body axes ask for; nothing where
/// the air hardly moves or the speed is no number.
pub fn angle_request(body_airspeed: DVec3) -> (r: Option<AngleRequest>)
    ensures
        r == if has_direction(body_airspeed.length()) {
            Some(
                AngleRequest {
                    rise: body_airspeed.z,
                    run: body_airspeed.x,
                    slip: (body_airspeed.y / body_airspeed.length()).clamp(
                        Binary64::of(1).negate(),
                        Binary64::of(1),
                    ),
                },
            )
        } else {
            None
        },
{
    proof {
        binary64::lemma_of(1);
        binary64::lemma_negate(Binary64::of(1));
        binary64::lemma_order(Binary64::of(1).negate(), Binary64::of(1));
        binary64::lemma_ratio_share(1, 1_000_000);
        binary64::lemma_order(body_airspeed.length(), Binary64::ratio(1, 1_000_000));
        binary64::lemma_order(Binary64::ratio(1, 1_000_000), body_airspeed.length());
    }
    let speed = body_airspeed.length();
    if !speed.is_finite() || speed.lt(Binary64::ratio(1, 1_000_000)) {
        return None;
    }
    Some(
        AngleRequest {
            rise: body_airspeed.z,
            run: body_airspeed.x,
            slip: (body_airspeed.y / speed).clamp(Binary64::of(1).negate(), Binary64::of(1)),
        },
    )
}

/// The angles for an airspeed along the body axes, given what `angle_request`
/// asks for. Standing air has no angles, and nothing broken comes out.
pub fn aero_angles(body_airspeed: DVec3, angle_of_attack: Binary64, sideslip: Binary64) -> (r:
    AeroAngles)
    ensures
        r == angles_spec(body_airspeed, angle_of_attack, sideslip),
{
    proof {
        binary64::lemma_ratio_share(1, 1_000_000);
        binary64::lemma_order(body_airspeed.length(), Binary64::ratio(1, 1_000_000));
        binary64::lemma_order(Binary64::ratio(1, 1_000_000), body_airspeed.length());
    }
    let speed = body_airspeed.length();
    let zero = Binary64::of(0);
    if !speed.is_finite() || speed.lt(Binary64::ratio(1, 1_000_000)) {
        return AeroAngles {
            angle_of_attack: zero,
            sideslip: zero,
            true_airspeed: if speed.is_finite() {
                speed
            } else {
                zero
            },
        };
    }
    AeroAngles { angle_of_attack, sideslip, true_airspeed: speed }
}

/// The angles for an airspeed along the body axes.
pub open spec fn angles_spec(
    body_airspeed: DVec3,
    angle_of_attack: Binary64,
    sideslip: Binary64,
) -> AeroAngles {
    let speed = body_airspeed.length();
    let zero = Binary64::of(0);
    if has_direction(speed) {
        AeroAngles { angle_of_attack, sideslip, true_airspeed: speed }
    } else {
        AeroAngles {
            angle_of_attack: zero,
            sideslip: zero,
            true_airspeed: if speed.is_finite() {
                speed
            } else {
                zero
            },
        }
    }
}

/// Lift, drag and the rest in numbers without units.
#[derive(Clone, Copy, PartialEq, Eq, Debug, Structural)]
pub struct AeroCoefficientSet {
    pub lift: Binary64,
    pub drag: Binary64,
    pub side: Binary64,
    /// About the axis forward.
    pub roll: Binary64,
    /// About the axis to the right.
    pub pitch: Binary64,
    /// About the axis down.
    pub yaw: Binary64,
}

pub open spec fn spec_logistic(x: Binary64, decay: Binary64) -> Binary64 {
    let one = Binary64::of(1);
    if x >= Binary64::of(0) {
        one / (one + decay)
    } else {
        decay / (one + decay)
    }
}

/// The logistic curve over `x`; `decay` is the exponential of `x` with the sign
/// that does not overflow, which is at most one.
#[verifier::when_used_as_spec(spec_logistic)]
pub fn logistic(x: Binary64, decay: Binary64) -> (r: Binary64)
    ensures
        r == logistic(x, decay),
{
    let one = Binary64::of(1);
    if x.ge(Binary64::of(0)) {
        one / (one + decay)
    } else {
        decay / (one + decay)
    }
}

/// What `logistic` wants the exponential of.
pub open spec fn spec_decay_exponent(x: Binary64) -> Binary64 {
    if x >= Binary64::of(0) {
        x.negate()
    } else {
        x
    }
}

/// What `logistic` wants the exponential of.
#[verifier::when_used_as_spec(spec_decay_exponent)]
pub fn decay_exponent(x: Binary64) -> (r: Binary64)
    ensures
        r == decay_exponent(x),
{
    if x.ge(Binary64::of(0)) {
        x.negate()
    } else {
        x
    }
}

pub open spec fn spec_falling_argument(angle_of_attack: Binary64, stall_angle: Binary64, blend_rate: Binary64) -> Binary64 {
    blend_rate.negate() * (angle_of_attack - stall_angle.abs())
}

/// Where on the falling logistic curve an angle of attack lies.
#[verifier::when_used_as_spec(spec_falling_argument)]
pub fn falling_argument(angle_of_attack: Binary64, stall_angle: Binary64, blend_rate: Binary64) -> (r: Binary64)
    ensures
        r == falling_argument(angle_of_attack, stall_angle, blend_rate),
{
    blend_rate.negate() * (angle_of_attack - stall_angle.abs())
}

pub open spec fn spec_rising_argument(angle_of_attack: Binary64, stall_angle: Binary64, blend_rate: Binary64) -> Binary64 {
    blend_rate * (angle_of_attack + stall_angle.abs())
}

/// Where on the rising logistic curve an angle of attack lies.
#[verifier::when_used_as_spec(spec_rising_argument)]
pub fn rising_argument(angle_of_attack: Binary64, stall_angle: Binary64, blend_rate: Binary64) -> (r: Binary64)
    ensures
        r == rising_argument(angle_of_attack, stall_angle, blend_rate),
{
    blend_rate * (angle_of_attack + stall_angle.abs())
}

/// The share of the flat plate.
pub open spec fn stall_spec(
    angle_of_attack: Binary64,
    stall_angle: Binary64,
    blend_rate: Binary64,
    falling_decay: Binary64,
    rising_decay: Binary64,
) -> Binary64 {
    if blend_rate.is_nan() || blend_rate <= Binary64::of(0) {
        Binary64::of(0)
    } else {
        Binary64::of(1) - logistic(
            falling_argument(angle_of_attack, stall_angle, blend_rate),
            falling_decay,
        ) * logistic(rising_argument(angle_of_attack, stall_angle, blend_rate), rising_decay)
    }
}

/// The share of the flat plate: none well below the stall, all well past it,
/// half at it, and none at all where there is no rate. The decays are the
/// exponentials that the two logistic curves want.
pub fn stall_blend(
    angle_of_attack: Binary64,
    stall_angle: Binary64,
    blend_rate: Binary64,
    falling_decay: Binary64,
    rising_decay: Binary64,
) -> (r: Binary64)
    ensures
        r == stall_spec(angle_of_attack, stall_angle, blend_rate, falling_decay, rising_decay),
{
    if blend_rate.is_nan() || blend_rate.le(Binary64::of(0)) {
        return Binary64::of(0);
    }
    let falling = logistic(
        falling_argument(angle_of_attack, stall_angle, blend_rate),
        falling_decay,
    );
    let rising = logistic(
        rising_argument(angle_of_attack, stall_angle, blend_rate),
        rising_decay,
    );
    Binary64::of(1) - falling * rising
}

/// Angular velocity without units, as the coefficients take it.
#[derive(Clone, Copy, PartialEq, Eq, Debug, Structural)]
pub struct Rates {
    pub roll: Binary64,
    pub pitch: Binary64,
    pub yaw: Binary64,
}

pub open spec fn spec_normalised_rates(geometry: Geometry, true_airspeed: Binary64, angular_velocity: DVec3) -> Rates {
    let normaliser = Binary64::of(1) / (Binary64::of(2) * true_airspeed.max(Binary64::of(1)));
    Rates {
        roll: angular_velocity.x * geometry.wing_span * normaliser,
        pitch: angular_velocity.y * geometry.mean_chord * normaliser,
        yaw: angular_velocity.z * geometry.wing_span * normaliser,
    }
}

/// Angular velocity without units; the airspeed counts as one metre per
/// second at least, so that nothing is divided by zero.
#[verifier::when_used_as_spec(spec_normalised_rates)]
pub fn normalised_rates(geometry: Geometry, true_airspeed: Binary64, angular_velocity: DVec3) -> (r: Rates)
    ensures
        r == normalised_rates(geometry, true_airspeed, angular_velocity),
{
    let normaliser = Binary64::of(1) / (Binary64::of(2) * true_airspeed.max(Binary64::of(1)));
    Rates {
        roll: angular_velocity.x * geometry.wing_span * normaliser,
        pitch: angular_velocity.y * geometry.mean_chord * normaliser,
        yaw: angular_velocity.z * geometry.wing_span * normaliser,
    }
}

pub open spec fn spec_straight_lift(aero: AeroCoefficients, alpha: Binary64, flaps: Binary64) -> Binary64 {
    aero.lift_zero + aero.lift_alpha * alpha + aero.lift_flaps * flaps
}

/// The lift on the straight curve.
#[verifier::when_used_as_spec(spec_straight_lift)]
pub fn straight_lift(aero: AeroCoefficients, alpha: Binary64, flaps: Binary64) -> (r: Binary64)
    ensures
        r == straight_lift(aero, alpha, flaps),
{
    aero.lift_zero + aero.lift_alpha * alpha + aero.lift_flaps * flaps
}

pub open spec fn spec_straight_drag(aero: AeroCoefficients, geometry: Geometry, lift: Binary64, flaps: Binary64) -> Binary64 {
    let induced = lift * lift / (angle::pi() * aero.oswald_efficiency * geometry.aspect_ratio());
    aero.drag_min + induced + aero.drag_flaps * flaps
}

/// The drag that goes with the straight curve.
#[verifier::when_used_as_spec(spec_straight_drag)]
pub fn straight_drag(aero: AeroCoefficients, geometry: Geometry, lift: Binary64, flaps: Binary64) -> (r: Binary64)
    ensures
        r == straight_drag(aero, geometry, lift, flaps),
{
    let induced = lift * lift / (angle::pi() * aero.oswald_efficiency * geometry.aspect_ratio());
    aero.drag_min + induced + aero.drag_flaps * flaps
}

pub open spec fn spec_plate_lift(alpha: Binary64, attack: SinCos) -> Binary64 {
    Binary64::of(2) * alpha.signum() * attack.sin * attack.sin * attack.cos
}

/// The lift of a flat plate.
#[verifier::when_used_as_spec(spec_plate_lift)]
pub fn plate_lift(alpha: Binary64, attack: SinCos) -> (r: Binary64)
    ensures
        r == plate_lift(alpha, attack),
{
    Binary64::of(2) * alpha.signum() * attack.sin * attack.sin * attack.cos
}

pub open spec fn spec_plate_drag(attack: SinCos) -> Binary64 {
    Binary64::of(2) * attack.sin * attack.sin
}

/// The drag of a flat plate.
#[verifier::when_used_as_spec(spec_plate_drag)]
pub fn plate_drag(attack: SinCos) -> (r: Binary64)
    ensures
        r == plate_drag(attack),
{
    Binary64::of(2) * attack.sin * attack.sin
}

/// The stick, the pedals and the flaps.
#[derive(Clone, Copy, PartialEq, Eq, Debug, Structural)]
pub struct Surfaces {
    pub aileron: Binary64,
    pub elevator: Binary64,
    pub rudder: Binary64,
    pub flaps: Binary64,
}

pub open spec fn spec_coefficients(aero: AeroCoefficients, geometry: Geometry, angles: AeroAngles, attack: SinCos, sigma: Binary64, angular_velocity: DVec3, surfaces: Surfaces) -> AeroCoefficientSet {
    let alpha = angles.angle_of_attack;
    let beta = angles.sideslip;
    let flaps = surfaces.flaps;
    let rates = normalised_rates(geometry, angles.true_airspeed, angular_velocity);
    let lift = straight_lift(aero, alpha, flaps);
    let drag = straight_drag(aero, geometry, lift, flaps);
    let rest = Binary64::of(1) - sigma;
    AeroCoefficientSet {
        lift: rest * lift + sigma * plate_lift(alpha, attack),
        drag: rest * drag + sigma * plate_drag(attack),
        side: aero.side_beta * beta + aero.side_rudder * surfaces.rudder,
        roll: aero.roll_beta * beta + aero.roll_rate_p * rates.roll + aero.roll_rate_r * rates.yaw
            + aero.roll_aileron * surfaces.aileron + aero.roll_rudder * surfaces.rudder,
        pitch: aero.pitch_zero + aero.pitch_alpha * alpha + aero.pitch_rate_q * rates.pitch
            + aero.pitch_elevator * surfaces.elevator + aero.pitch_flaps * flaps,
        yaw: aero.yaw_beta * beta + aero.yaw_rate_p * rates.roll + aero.yaw_rate_r * rates.yaw
            + aero.yaw_aileron * surfaces.aileron + aero.yaw_rudder * surfaces.rudder,
    }
}

/// The coefficients, `sigma` being the share of the flat plate and `attack`
/// the sine and cosine of the angle of attack.
#[verifier::when_used_as_spec(spec_coefficients)]
pub fn coefficients(aero: AeroCoefficients, geometry: Geometry, angles: AeroAngles, attack: SinCos, sigma: Binary64, angular_velocity: DVec3, surfaces: Surfaces) -> (r: AeroCoefficientSet)
    ensures
        r == coefficients(aero, geometry, angles, attack, sigma, angular_velocity, surfaces),
{
    let alpha = angles.angle_of_attack;
    let beta = angles.sideslip;
    let flaps = surfaces.flaps;
    let rates = normalised_rates(geometry, angles.true_airspeed, angular_velocity);
    let lift = straight_lift(aero, alpha, flaps);
    let drag = straight_drag(aero, geometry, lift, flaps);
    let rest = Binary64::of(1) - sigma;
    AeroCoefficientSet {
        lift: rest * lift + sigma * plate_lift(alpha, attack),
        drag: rest * drag + sigma * plate_drag(attack),
        side: aero.side_beta * beta + aero.side_rudder * surfaces.rudder,
        roll: aero.roll_beta * beta + aero.roll_rate_p * rates.roll + aero.roll_rate_r * rates.yaw
            + aero.roll_aileron * surfaces.aileron + aero.roll_rudder * surfaces.rudder,
        pitch: aero.pitch_zero + aero.pitch_alpha * alpha + aero.pitch_rate_q * rates.pitch
            + aero.pitch_elevator * surfaces.elevator + aero.pitch_flaps * flaps,
        yaw: aero.yaw_beta * beta + aero.yaw_rate_p * rates.roll + aero.yaw_rate_r * rates.yaw
            + aero.yaw_aileron * surfaces.aileron + aero.yaw_rudder * surfaces.rudder,
    }
}

pub open spec fn spec_reference_force(density: Binary64, speed: Binary64, wing_area: Binary64) -> Binary64 {
    Binary64::ratio(1, 2) * density * speed * speed * wing_area
}

/// What the air presses with, times the wing.
#[verifier::when_used_as_spec(spec_reference_force)]
pub fn reference_force(density: Binary64, speed: Binary64, wing_area: Binary64) -> (r: Binary64)
    ensures
        r == reference_force(density, speed, wing_area),
{
    Binary64::ratio(1, 2) * density * speed * speed * wing_area
}

/// Force in newtons and moment in newton metres along the body axes.
#[derive(Clone, Copy, PartialEq, Eq, Debug, Structural)]
pub struct BodyLoads {
    pub force: DVec3,
    pub moment: DVec3,
}

pub open spec fn spec_loads_of(set: AeroCoefficientSet, geometry: Geometry, attack: SinCos, reference: Binary64) -> BodyLoads {
    let lift = reference * set.lift;
    let drag = reference * set.drag;
    BodyLoads {
        force: DVec3 {
            x: lift * attack.sin - drag * attack.cos,
            y: reference * set.side,
            z: lift.negate() * attack.cos - drag * attack.sin,
        },
        moment: DVec3 {
            x: reference * geometry.wing_span * set.roll,
            y: reference * geometry.mean_chord * set.pitch,
            z: reference * geometry.wing_span * set.yaw,
        },
    }
}

/// The force and moment that coefficients come to: lift and drag are turned
/// from the wind to the body axes.
#[verifier::when_used_as_spec(spec_loads_of)]
pub fn loads_of(set: AeroCoefficientSet, geometry: Geometry, attack: SinCos, reference: Binary64) -> (r: BodyLoads)
    ensures
        r == loads_of(set, geometry, attack, reference),
{
    let lift = reference * set.lift;
    let drag = reference * set.drag;
    BodyLoads {
        force: DVec3 {
            x: lift * attack.sin - drag * attack.cos,
            y: reference * set.side,
            z: lift.negate() * attack.cos - drag * attack.sin,
        },
        moment: DVec3 {
            x: reference * geometry.wing_span * set.roll,
            y: reference * geometry.mean_chord * set.pitch,
            z: reference * geometry.wing_span * set.yaw,
        },
    }
}

pub open spec fn spec_body_force_and_moment(aero: AeroCoefficients, geometry: Geometry, angles: AeroAngles, attack: SinCos, sigma: Binary64, angular_velocity: DVec3, surfaces: Surfaces, density: Binary64) -> BodyLoads {
    let set = coefficients(aero, geometry, angles, attack, sigma, angular_velocity, surfaces);
    let reference = reference_force(density, angles.true_airspeed, geometry.wing_area);
    loads_of(set, geometry, attack, reference)
}

/// The force and moment of the air.
#[verifier::when_used_as_spec(spec_body_force_and_moment)]
pub fn body_force_and_moment(aero: AeroCoefficients, geometry: Geometry, angles: AeroAngles, attack: SinCos, sigma: Binary64, angular_velocity: DVec3, surfaces: Surfaces, density: Binary64) -> (r: BodyLoads)
    ensures
        r == body_force_and_moment(aero, geometry, angles, attack, sigma, angular_velocity, surfaces, density),
{
    let set = coefficients(aero, geometry, angles, attack, sigma, angular_velocity, surfaces);
    let reference = reference_force(density, angles.true_airspeed, geometry.wing_area);
    loads_of(set, geometry, attack, reference)
}

/// What a pilot's inputs do to the surfaces.
pub fn surfaces_of(controls: ControlInputs) -> (r: Surfaces)
    ensures
        r == (Surfaces {
            aileron: controls.aileron(),
            elevator: controls.elevator(),
            rudder: controls.rudder(),
            flaps: controls.flaps(),
        }),
{
    Surfaces {
        aileron: controls.aileron(),
        elevator: controls.elevator(),
        rudder: controls.rudder(),
        flaps: controls.flaps(),
    }
}

/// The logistic curve stays between zero and one.
pub proof fn the_logistic_curve_is_a_share(x: Binary64, decay: Binary64)
    requires
        decay.is_finite(),
        0 <= decay.value() <= Binary64::one(),
    ensures
        logistic(x, decay).is_finite(),
        0 <= logistic(x, decay).value() <= Binary64::one(),
{
    let o = Binary64::one();
    let zero = Binary64::of(0);
    let one = Binary64::of(1);
    let two = Binary64::of(2);
    binary64::lemma_of(0);
    binary64::lemma_of(1);
    binary64::lemma_of(2);
    binary64::lemma_sum_between(one, decay, one, two);
    let whole = one + decay;
    assert(0 * whole.value() == 0);
    assert(0 <= o * o <= o * whole.value()) by (nonlinear_arith)
        requires
            o <= whole.value(),
            o > 0,
    ;
    binary64::lemma_quotient_between(one, whole, zero, one);
    assert(0 <= decay.value() * o <= o * whole.value()) by (nonlinear_arith)
        requires
            0 <= decay.value() <= whole.value(),
            o > 0,
    {
        assert(decay.value() * o <= whole.value() * o) by (nonlinear_arith)
            requires
                decay.value() <= whole.value(),
                o > 0,
        ;
    }
    binary64::lemma_quotient_between(decay, whole, zero, one);
}

/// The share of the flat plate is a share, whatever the angle of attack.
pub proof fn the_stall_blend_is_a_share(
    angle_of_attack: Binary64,
    stall_angle: Binary64,
    blend_rate: Binary64,
    falling_decay: Binary64,
    rising_decay: Binary64,
)
    requires
        falling_decay.is_finite(),
        0 <= falling_decay.value() <= Binary64::one(),
        rising_decay.is_finite(),
        0 <= rising_decay.value() <= Binary64::one(),
    ensures
        ({
            let share = stall_spec(
                angle_of_attack,
                stall_angle,
                blend_rate,
                falling_decay,
                rising_decay,
            );
            share.is_finite() && 0 <= share.value() <= Binary64::one()
        }),
{
    let zero = Binary64::of(0);
    let one = Binary64::of(1);
    binary64::lemma_of(0);
    binary64::lemma_of(1);
    let a = logistic(falling_argument(angle_of_attack, stall_angle, blend_rate), falling_decay);
    let b = logistic(rising_argument(angle_of_attack, stall_angle, blend_rate), rising_decay);
    the_logistic_curve_is_a_share(
        falling_argument(angle_of_attack, stall_angle, blend_rate),
        falling_decay,
    );
    the_logistic_curve_is_a_share(
        rising_argument(angle_of_attack, stall_angle, blend_rate),
        rising_decay,
    );
    binary64::lemma_product_below(a, b);
    binary64::lemma_negate(a * b);
    assert(one - a * b == one + (a * b).negate());
    binary64::lemma_sum_between(one, (a * b).negate(), zero, one);
}

/// Nothing broken in the airspeed comes out in the angles, as long as the arc
/// functions give numbers.
pub proof fn the_angles_are_always_numbers(
    body_airspeed: DVec3,
    angle_of_attack: Binary64,
    sideslip: Binary64,
)
    requires
        angle_of_attack.is_finite(),
        sideslip.is_finite(),
    ensures
        angles_spec(body_airspeed, angle_of_attack, sideslip).is_finite(),
{
    binary64::lemma_of(0);
}

/// Where nothing moves the air presses nothing.
pub proof fn still_air_presses_nothing(density: Binary64, wing_area: Binary64)
    requires
        density.is_finite(),
        wing_area.is_finite(),
    ensures
        reference_force(density, Binary64::of(0), wing_area).value() == 0,
{
    let zero = Binary64::of(0);
    let half = Binary64::ratio(1, 2);
    binary64::lemma_of(0);
    binary64::lemma_half_of_finite(density);
    binary64::lemma_zero_factor(zero, half * density);
    binary64::lemma_zero_factor(half * density * zero, zero);
    binary64::lemma_zero_factor(half * density * zero * zero, wing_area);
}

/// Drag never pushes forward: with no negative share in its make-up the
/// coefficient is not below zero at any angle.
pub proof fn drag_is_never_negative(
    aero: AeroCoefficients,
    geometry: Geometry,
    angles: AeroAngles,
    attack: SinCos,
    sigma: Binary64,
    angular_velocity: DVec3,
    surfaces: Surfaces,
)
    requires
        aero.drag_min.value() >= 0,
        aero.drag_flaps.value() >= 0,
        aero.oswald_efficiency.value() > 0,
        geometry.wing_area.value() > 0,
        surfaces.flaps.value() >= 0,
        sigma.is_finite(),
        0 <= sigma.value() <= Binary64::one(),
    ensures
        !(coefficients(aero, geometry, angles, attack, sigma, angular_velocity, surfaces).drag
            < Binary64::of(0)),
{
    let zero = Binary64::of(0);
    let one = Binary64::of(1);
    binary64::lemma_of(0);
    binary64::lemma_of(1);
    binary64::lemma_of(2);
    let flaps = surfaces.flaps;
    let lift = straight_lift(aero, angles.angle_of_attack, flaps);
    let span = geometry.wing_span;
    sign::lemma_product_sign(span, span);
    sign::lemma_quotient_sign(span * span, geometry.wing_area);
    let ratio = geometry.aspect_ratio();
    let part = angle::pi() * aero.oswald_efficiency;
    angle::lemma_pi();
    sign::lemma_product_sign(angle::pi(), aero.oswald_efficiency);
    sign::lemma_product_sign(part, ratio);
    lemma_broken_part(span * span, geometry.wing_area);
    lemma_broken_factor(part, ratio);
    let whole = part * ratio;
    assert(sign::unsigned(whole));
    sign::lemma_product_sign(lift, lift);
    sign::lemma_quotient(lift * lift, whole);
    let induced = lift * lift / whole;
    sign::lemma_sum(aero.drag_min, induced);
    sign::lemma_product(aero.drag_flaps, flaps);
    sign::lemma_sum(aero.drag_min + induced, aero.drag_flaps * flaps);
    let drag = straight_drag(aero, geometry, lift, flaps);
    binary64::lemma_negate(sigma);
    assert(one - sigma == one + sigma.negate());
    binary64::lemma_sum_between(one, sigma.negate(), zero, one);
    sign::lemma_product(one - sigma, drag);
    let two = Binary64::of(2);
    sign::lemma_product_sign(two, attack.sin);
    sign::lemma_product_sign(two * attack.sin, attack.sin);
    lemma_broken_factor(two * attack.sin, attack.sin);
    sign::lemma_product(sigma, plate_drag(attack));
    sign::lemma_sum((one - sigma) * drag, sigma * plate_drag(attack));
    binary64::lemma_order(
        (one - sigma) * drag + sigma * plate_drag(attack),
        zero,
    );
}

/// "Not a number" stays so in a product.
proof fn lemma_broken_factor(a: Binary64, b: Binary64)
    ensures
        a.is_nan() || b.is_nan() ==> (a * b).is_nan(),
{
    reveal(Binary64::spec_mul);
    reveal(Binary64::spec_is_nan);
    number::lemma_constants(Format::Double);
}

/// "Not a number" stays so in a quotient.
proof fn lemma_broken_part(a: Binary64, b: Binary64)
    ensures
        a.is_nan() || b.is_nan() ==> (a / b).is_nan(),
{
    reveal(Binary64::spec_euclidean_or_real_div);
    reveal(Binary64::spec_is_nan);
    number::lemma_constants(Format::Double);
}

/// The same flow as a mirror shows it, left and right exchanged.
pub open spec fn mirrored_angles(angles: AeroAngles) -> AeroAngles {
    AeroAngles { sideslip: angles.sideslip.negate(), ..angles }
}

/// The same turning as a mirror shows it.
pub open spec fn mirrored_rates(angular_velocity: DVec3) -> DVec3 {
    DVec3 {
        x: angular_velocity.x.negate(),
        y: angular_velocity.y,
        z: angular_velocity.z.negate(),
    }
}

/// The same surfaces as a mirror shows them.
pub open spec fn mirrored_surfaces(surfaces: Surfaces) -> Surfaces {
    Surfaces { aileron: surfaces.aileron.negate(), rudder: surfaces.rudder.negate(), ..surfaces }
}

/// The second loads are the first as a mirror shows them.
pub open spec fn mirrored_loads(a: BodyLoads, b: BodyLoads) -> bool {
    &&& b.force.x == a.force.x
    &&& sign::opposite(a.force.y, b.force.y)
    &&& b.force.z == a.force.z
    &&& sign::opposite(a.moment.x, b.moment.x)
    &&& b.moment.y == a.moment.y
    &&& sign::opposite(a.moment.z, b.moment.z)
}

/// Five weighed parts, each turned over, sum up to the opposite.
proof fn lemma_five(
    c1: Binary64,
    a1: Binary64,
    c2: Binary64,
    a2: Binary64,
    c3: Binary64,
    a3: Binary64,
    c4: Binary64,
    a4: Binary64,
    c5: Binary64,
    a5: Binary64,
    b1: Binary64,
    b2: Binary64,
    b3: Binary64,
    b4: Binary64,
    b5: Binary64,
)
    requires
        sign::opposite(a1, b1),
        sign::opposite(a2, b2),
        sign::opposite(a3, b3),
        sign::opposite(a4, b4),
        sign::opposite(a5, b5),
    ensures
        sign::opposite(
            c1 * a1 + c2 * a2 + c3 * a3 + c4 * a4 + c5 * a5,
            c1 * b1 + c2 * b2 + c3 * b3 + c4 * b4 + c5 * b5,
        ),
{
    sign::lemma_opposite_scaled(c1, a1, b1);
    sign::lemma_opposite_scaled(c2, a2, b2);
    sign::lemma_opposite_scaled(c3, a3, b3);
    sign::lemma_opposite_scaled(c4, a4, b4);
    sign::lemma_opposite_scaled(c5, a5, b5);
    sign::lemma_opposite_sum(c1 * a1, c1 * b1, c2 * a2, c2 * b2);
    sign::lemma_opposite_sum(c1 * a1 + c2 * a2, c1 * b1 + c2 * b2, c3 * a3, c3 * b3);
    sign::lemma_opposite_sum(
        c1 * a1 + c2 * a2 + c3 * a3,
        c1 * b1 + c2 * b2 + c3 * b3,
        c4 * a4,
        c4 * b4,
    );
    sign::lemma_opposite_sum(
        c1 * a1 + c2 * a2 + c3 * a3 + c4 * a4,
        c1 * b1 + c2 * b2 + c3 * b3 + c4 * b4,
        c5 * a5,
        c5 * b5,
    );
}

/// Left and right are alike: the flow, the turning and the surfaces in a mirror
/// give the force and the moment in the mirror.
pub proof fn left_and_right_are_alike(
    aero: AeroCoefficients,
    geometry: Geometry,
    angles: AeroAngles,
    attack: SinCos,
    sigma: Binary64,
    angular_velocity: DVec3,
    surfaces: Surfaces,
    density: Binary64,
)
    ensures
        mirrored_loads(
            body_force_and_moment(
                aero,
                geometry,
                angles,
                attack,
                sigma,
                angular_velocity,
                surfaces,
                density,
            ),
            body_force_and_moment(
                aero,
                geometry,
                mirrored_angles(angles),
                attack,
                sigma,
                mirrored_rates(angular_velocity),
                mirrored_surfaces(surfaces),
                density,
            ),
        ),
{
    let other = mirrored_angles(angles);
    let turned = mirrored_surfaces(surfaces);
    let beta = angles.sideslip;
    let (v, w) = (angular_velocity, mirrored_rates(angular_velocity));
    let r = normalised_rates(geometry, angles.true_airspeed, v);
    let q = normalised_rates(geometry, angles.true_airspeed, w);
    let normaliser = Binary64::of(1) / (Binary64::of(2) * angles.true_airspeed.max(
        Binary64::of(1),
    ));
    sign::lemma_opposite_negated(beta);
    sign::lemma_opposite_negated(v.x);
    sign::lemma_opposite_negated(v.z);
    sign::lemma_opposite_negated(surfaces.aileron);
    sign::lemma_opposite_negated(surfaces.rudder);
    sign::lemma_opposite_factor(v.x, w.x, geometry.wing_span);
    sign::lemma_opposite_factor(v.z, w.z, geometry.wing_span);
    sign::lemma_opposite_factor(v.x * geometry.wing_span, w.x * geometry.wing_span, normaliser);
    sign::lemma_opposite_factor(v.z * geometry.wing_span, w.z * geometry.wing_span, normaliser);
    sign::lemma_opposite_scaled(aero.side_beta, beta, other.sideslip);
    sign::lemma_opposite_scaled(aero.side_rudder, surfaces.rudder, turned.rudder);
    sign::lemma_opposite_sum(
        aero.side_beta * beta,
        aero.side_beta * other.sideslip,
        aero.side_rudder * surfaces.rudder,
        aero.side_rudder * turned.rudder,
    );
    lemma_five(
        aero.roll_beta,
        beta,
        aero.roll_rate_p,
        r.roll,
        aero.roll_rate_r,
        r.yaw,
        aero.roll_aileron,
        surfaces.aileron,
        aero.roll_rudder,
        surfaces.rudder,
        other.sideslip,
        q.roll,
        q.yaw,
        turned.aileron,
        turned.rudder,
    );
    lemma_five(
        aero.yaw_beta,
        beta,
        aero.yaw_rate_p,
        r.roll,
        aero.yaw_rate_r,
        r.yaw,
        aero.yaw_aileron,
        surfaces.aileron,
        aero.yaw_rudder,
        surfaces.rudder,
        other.sideslip,
        q.roll,
        q.yaw,
        turned.aileron,
        turned.rudder,
    );
    let a = coefficients(aero, geometry, angles, attack, sigma, v, surfaces);
    let b = coefficients(aero, geometry, other, attack, sigma, w, turned);
    let reference = reference_force(density, angles.true_airspeed, geometry.wing_area);
    sign::lemma_opposite_scaled(reference, a.side, b.side);
    sign::lemma_opposite_scaled(reference * geometry.wing_span, a.roll, b.roll);
    sign::lemma_opposite_scaled(reference * geometry.wing_span, a.yaw, b.yaw);
}

} // verus!
