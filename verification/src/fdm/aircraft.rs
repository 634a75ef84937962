//! What an aircraft is made of: mass, shape, aerodynamics, engine and gear.
use crate::angle;
use crate::binary64;
use crate::binary64::Binary64;
use crate::inverse;
use crate::near;
use crate::number;
use crate::rotation::DMat3;
use crate::sign;
use crate::vector::DVec3;
use vstd::arithmetic::power2::*;
use vstd::prelude::*;

verus! {

/// A point in body axes from the centre of gravity, in metres.
#[derive(Clone, Copy, PartialEq, Eq, Debug, Structural)]
pub struct BodyPoint(pub DVec3);

impl BodyPoint {
    pub open spec fn spec_new(x: Binary64, y: Binary64, z: Binary64) -> BodyPoint {
        BodyPoint(DVec3 { x, y, z })
    }

    /// The point so far forward, right and down.
    #[verifier::when_used_as_spec(spec_new)]
    pub fn new(x: Binary64, y: Binary64, z: Binary64) -> (r: BodyPoint)
        ensures
            r == BodyPoint::new(x, y, z),
    {
        BodyPoint(DVec3 { x, y, z })
    }

    pub open spec fn spec_as_vec(self) -> DVec3 {
        self.0
    }

    #[verifier::when_used_as_spec(spec_as_vec)]
    pub fn as_vec(self) -> (r: DVec3)
        ensures
            r == self.as_vec(),
    {
        self.0
    }

    pub open spec fn spec_is_finite(self) -> bool {
        self.0.is_finite()
    }

    #[verifier::when_used_as_spec(spec_is_finite)]
    pub fn is_finite(self) -> (r: bool)
        ensures
            r == self.is_finite(),
    {
        self.0.is_finite()
    }
}

/// How stiff a leg is, in newtons per metre.
#[derive(Clone, Copy, PartialEq, Eq, Debug, Structural)]
pub struct SpringRate(pub Binary64);

impl SpringRate {
    pub open spec fn spec_get(self) -> Binary64 {
        self.0
    }

    #[verifier::when_used_as_spec(spec_get)]
    pub fn get(self) -> (r: Binary64)
        ensures
            r == self.get(),
    {
        self.0
    }
}

/// How strongly a leg is damped, in newton seconds per metre.
#[derive(Clone, Copy, PartialEq, Eq, Debug, Structural)]
pub struct DampingCoefficient(pub Binary64);

impl DampingCoefficient {
    pub open spec fn spec_get(self) -> Binary64 {
        self.0
    }

    #[verifier::when_used_as_spec(spec_get)]
    pub fn get(self) -> (r: Binary64)
        ensures
            r == self.get(),
    {
        self.0
    }
}

/// A number that is finite and above zero.
pub open spec fn positive(x: Binary64) -> bool {
    x.is_finite() && x > Binary64::of(0)
}

/// A number that is finite and not below zero.
pub open spec fn not_negative(x: Binary64) -> bool {
    x.is_finite() && x >= Binary64::of(0)
}

/// A leg of the landing gear.
#[derive(Clone, Copy, PartialEq, Eq, Debug, Structural)]
pub struct LandingGearLeg {
    /// Where the wheel touches the ground with the leg all the way out.
    pub contact_point: BodyPoint,
    pub spring_rate: SpringRate,
    pub damping_coefficient: DampingCoefficient,
    /// How far the leg's spring goes in, in metres.
    pub max_stroke: Binary64,
    /// How far the stiffer stop behind it goes in, in metres.
    pub bottom_stop_travel: Binary64,
    /// How fast the leg comes out again at most, in metres per second.
    pub max_recoil_speed: Binary64,
}

impl LandingGearLeg {
    /// Every number is one that a leg can have.
    pub open spec fn well_formed(self) -> bool {
        &&& self.contact_point.is_finite()
        &&& positive(self.spring_rate.0)
        &&& not_negative(self.damping_coefficient.0)
        &&& positive(self.max_stroke)
        &&& positive(self.bottom_stop_travel)
        &&& positive(self.max_recoil_speed)
    }

    pub open spec fn spec_default_bottom_stop_travel() -> Binary64 {
        Binary64::ratio(1, 10)
    }

    /// How far the stop goes in unless it is said otherwise.
    #[verifier::when_used_as_spec(spec_default_bottom_stop_travel)]
    pub fn default_bottom_stop_travel() -> (r: Binary64)
        ensures
            r == LandingGearLeg::default_bottom_stop_travel(),
    {
        Binary64::ratio(1, 10)
    }

    pub open spec fn spec_default_max_recoil_speed() -> Binary64 {
        Binary64::ratio(1, 2)
    }

    /// How fast a leg comes out unless it is said otherwise.
    #[verifier::when_used_as_spec(spec_default_max_recoil_speed)]
    pub fn default_max_recoil_speed() -> (r: Binary64)
        ensures
            r == LandingGearLeg::default_max_recoil_speed(),
    {
        Binary64::ratio(1, 2)
    }

    /// A leg with the usual stop and recoil.
    pub fn new(
        contact_point: BodyPoint,
        spring_rate: SpringRate,
        damping_coefficient: DampingCoefficient,
        max_stroke: Binary64,
    ) -> (r: LandingGearLeg)
        requires
            contact_point.is_finite(),
            positive(spring_rate.0),
            not_negative(damping_coefficient.0),
            positive(max_stroke),
        ensures
            r == (LandingGearLeg {
                contact_point,
                spring_rate,
                damping_coefficient,
                max_stroke,
                bottom_stop_travel: LandingGearLeg::default_bottom_stop_travel(),
                max_recoil_speed: LandingGearLeg::default_max_recoil_speed(),
            }),
            r.well_formed(),
    {
        proof {
            binary64::lemma_of(0);
            binary64::lemma_ratio_positive(1, 2);
            binary64::lemma_ratio_positive(1, 10);
            binary64::lemma_order(Binary64::of(0), Binary64::ratio(1, 10));
            binary64::lemma_order(Binary64::of(0), Binary64::ratio(1, 2));
        }
        LandingGearLeg {
            contact_point,
            spring_rate,
            damping_coefficient,
            max_stroke,
            bottom_stop_travel: LandingGearLeg::default_bottom_stop_travel(),
            max_recoil_speed: LandingGearLeg::default_max_recoil_speed(),
        }
    }

    /// The same leg with another stop and recoil.
    pub fn with_bottom_stop(self, bottom_stop_travel: Binary64, max_recoil_speed: Binary64) -> (r:
        LandingGearLeg)
        requires
            self.well_formed(),
            positive(bottom_stop_travel),
            positive(max_recoil_speed),
        ensures
            r == (LandingGearLeg { bottom_stop_travel, max_recoil_speed, ..self }),
            r.well_formed(),
    {
        LandingGearLeg {
            contact_point: self.contact_point,
            spring_rate: self.spring_rate,
            damping_coefficient: self.damping_coefficient,
            max_stroke: self.max_stroke,
            bottom_stop_travel,
            max_recoil_speed,
        }
    }

    pub fn contact_point(&self) -> (r: BodyPoint)
        ensures
            r == self.contact_point,
    {
        self.contact_point
    }

    pub fn spring_rate(&self) -> (r: SpringRate)
        ensures
            r == self.spring_rate,
    {
        self.spring_rate
    }

    pub fn damping_coefficient(&self) -> (r: DampingCoefficient)
        ensures
            r == self.damping_coefficient,
    {
        self.damping_coefficient
    }

    pub fn max_stroke(&self) -> (r: Binary64)
        ensures
            r == self.max_stroke,
    {
        self.max_stroke
    }

    pub fn bottom_stop_travel(&self) -> (r: Binary64)
        ensures
            r == self.bottom_stop_travel,
    {
        self.bottom_stop_travel
    }

    pub fn max_recoil_speed(&self) -> (r: Binary64)
        ensures
            r == self.max_recoil_speed,
    {
        self.max_recoil_speed
    }
}

/// Gear on three legs, and how its tyres rub.
#[derive(Clone, Copy, PartialEq, Eq, Debug, Structural)]
pub struct LandingGearConfig {
    /// The nose leg and the two main legs; their order means nothing.
    pub nose: LandingGearLeg,
    pub left: LandingGearLeg,
    pub right: LandingGearLeg,
    /// Friction along the way, rolling freely.
    pub rolling_friction_coefficient: Binary64,
    /// What full brakes add to it.
    pub braking_friction_coefficient: Binary64,
    /// Friction across the way.
    pub lateral_friction_coefficient: Binary64,
    /// The speed over which friction builds up, in metres per second.
    pub friction_transition_speed: Binary64,
}

impl LandingGearConfig {
    /// Every number is one that gear can have.
    pub open spec fn well_formed(self) -> bool {
        &&& self.nose.well_formed()
        &&& self.left.well_formed()
        &&& self.right.well_formed()
        &&& not_negative(self.rolling_friction_coefficient)
        &&& not_negative(self.braking_friction_coefficient)
        &&& not_negative(self.lateral_friction_coefficient)
        &&& positive(self.friction_transition_speed)
    }

    /// Gear on three legs.
    pub fn new(
        legs: [LandingGearLeg; 3],
        rolling_friction_coefficient: Binary64,
        braking_friction_coefficient: Binary64,
        lateral_friction_coefficient: Binary64,
        friction_transition_speed: Binary64,
    ) -> (r: LandingGearConfig)
        requires
            legs@[0].well_formed(),
            legs@[1].well_formed(),
            legs@[2].well_formed(),
            not_negative(rolling_friction_coefficient),
            not_negative(braking_friction_coefficient),
            not_negative(lateral_friction_coefficient),
            positive(friction_transition_speed),
        ensures
            r == (LandingGearConfig {
                nose: legs@[0],
                left: legs@[1],
                right: legs@[2],
                rolling_friction_coefficient,
                braking_friction_coefficient,
                lateral_friction_coefficient,
                friction_transition_speed,
            }),
            r.well_formed(),
    {
        LandingGearConfig {
            nose: legs[0],
            left: legs[1],
            right: legs[2],
            rolling_friction_coefficient,
            braking_friction_coefficient,
            lateral_friction_coefficient,
            friction_transition_speed,
        }
    }

    /// The leg so far forward and right of a light single.
    pub open spec fn light_leg(x: Binary64, y: Binary64) -> LandingGearLeg {
        LandingGearLeg {
            contact_point: BodyPoint::new(x, y, Binary64::of(1)),
            spring_rate: SpringRate(Binary64::of(120_000)),
            damping_coefficient: DampingCoefficient(Binary64::of(13_000)),
            max_stroke: Binary64::ratio(25, 100),
            bottom_stop_travel: LandingGearLeg::default_bottom_stop_travel(),
            max_recoil_speed: LandingGearLeg::default_max_recoil_speed(),
        }
    }

    /// The gear of a light single, with a nose wheel.
    pub open spec fn light_single_spec() -> LandingGearConfig {
        let back = Binary64::ratio(8, 10).negate();
        let side = Binary64::ratio(13, 10);
        LandingGearConfig {
            nose: LandingGearConfig::light_leg(Binary64::ratio(16, 10), Binary64::of(0)),
            left: LandingGearConfig::light_leg(back, side.negate()),
            right: LandingGearConfig::light_leg(back, side),
            rolling_friction_coefficient: Binary64::ratio(15, 1_000),
            braking_friction_coefficient: Binary64::ratio(7, 10),
            lateral_friction_coefficient: Binary64::ratio(8, 10),
            friction_transition_speed: Binary64::ratio(25, 100),
        }
    }

    /// The gear of a light single, with a nose wheel.
    pub fn light_single() -> (r: LandingGearConfig)
        ensures
            r == LandingGearConfig::light_single_spec(),
            r.well_formed(),
    {
        proof {
            lemma_light_numbers();
        }
        let down = Binary64::of(1);
        let spring = SpringRate(Binary64::of(120_000));
        let damping = DampingCoefficient(Binary64::of(13_000));
        let stroke = Binary64::ratio(25, 100);
        let back = Binary64::ratio(8, 10).negate();
        let side = Binary64::ratio(13, 10);
        let ahead = Binary64::ratio(16, 10);
        let middle = Binary64::of(0);
        LandingGearConfig::new(
            [
                LandingGearLeg::new(BodyPoint::new(ahead, middle, down), spring, damping, stroke),
                LandingGearLeg::new(
                    BodyPoint::new(back, side.negate(), down),
                    spring,
                    damping,
                    stroke,
                ),
                LandingGearLeg::new(BodyPoint::new(back, side, down), spring, damping, stroke),
            ],
            Binary64::ratio(15, 1_000),
            Binary64::ratio(7, 10),
            Binary64::ratio(8, 10),
            Binary64::ratio(25, 100),
        )
    }

    /// The three legs.
    pub fn legs(&self) -> (r: [LandingGearLeg; 3])
        ensures
            r@ == seq![self.nose, self.left, self.right],
    {
        let legs = [self.nose, self.left, self.right];
        assert(legs@ =~= seq![self.nose, self.left, self.right]);
        legs
    }

    pub fn rolling_friction_coefficient(&self) -> (r: Binary64)
        ensures
            r == self.rolling_friction_coefficient,
    {
        self.rolling_friction_coefficient
    }

    pub fn braking_friction_coefficient(&self) -> (r: Binary64)
        ensures
            r == self.braking_friction_coefficient,
    {
        self.braking_friction_coefficient
    }

    pub fn lateral_friction_coefficient(&self) -> (r: Binary64)
        ensures
            r == self.lateral_friction_coefficient,
    {
        self.lateral_friction_coefficient
    }

    pub fn friction_transition_speed(&self) -> (r: Binary64)
        ensures
            r == self.friction_transition_speed,
    {
        self.friction_transition_speed
    }
}

/// The numbers of the light single's gear are fit for gear.
proof fn lemma_light_numbers()
    ensures
        positive(Binary64::of(120_000)),
        positive(Binary64::of(13_000)),
        not_negative(Binary64::of(13_000)),
        positive(Binary64::ratio(25, 100)),
        not_negative(Binary64::ratio(15, 1_000)),
        not_negative(Binary64::ratio(7, 10)),
        not_negative(Binary64::ratio(8, 10)),
        Binary64::ratio(8, 10).negate().is_finite(),
        Binary64::ratio(13, 10).is_finite(),
        Binary64::ratio(13, 10).negate().is_finite(),
        Binary64::ratio(16, 10).is_finite(),
        Binary64::of(0).is_finite(),
        Binary64::of(1).is_finite(),
{
    let zero = Binary64::of(0);
    binary64::lemma_of(0);
    binary64::lemma_of(1);
    binary64::lemma_of(120_000);
    binary64::lemma_of(13_000);
    let one = Binary64::one();
    assert(120_000 * one > 0 && 13_000 * one > 0) by (nonlinear_arith)
        requires
            one > 0,
    ;
    binary64::lemma_order(zero, Binary64::of(120_000));
    binary64::lemma_order(zero, Binary64::of(13_000));
    binary64::lemma_ratio_positive(25, 100);
    binary64::lemma_order(zero, Binary64::ratio(25, 100));
    binary64::lemma_ratio_positive(15, 1_000);
    binary64::lemma_order(zero, Binary64::ratio(15, 1_000));
    binary64::lemma_ratio_positive(7, 10);
    binary64::lemma_order(zero, Binary64::ratio(7, 10));
    binary64::lemma_ratio_positive(8, 10);
    binary64::lemma_order(zero, Binary64::ratio(8, 10));
    binary64::lemma_negate(Binary64::ratio(8, 10));
    binary64::lemma_ratio_positive(13, 10);
    binary64::lemma_negate(Binary64::ratio(13, 10));
    binary64::lemma_ratio_positive(16, 10);
}

/// Mass, and how it resists turning about the body axes. An aircraft is the
/// same left and right, so one product of inertia is all there is.
#[derive(Clone, Copy, PartialEq, Eq, Debug, Structural)]
pub struct MassProperties {
    /// In kilograms.
    pub mass: Binary64,
    /// In kilogram square metres.
    pub inertia: DMat3,
    pub inverse_inertia: DMat3,
}

pub open spec fn spec_inertia_tensor(moment_xx: Binary64, moment_yy: Binary64, moment_zz: Binary64, product_xz: Binary64) -> DMat3 {
    let zero = Binary64::of(0);
    let off = product_xz.negate();
    DMat3 {
        x_axis: DVec3 { x: moment_xx, y: zero, z: off },
        y_axis: DVec3 { x: zero, y: moment_yy, z: zero },
        z_axis: DVec3 { x: off, y: zero, z: moment_zz },
    }
}

/// The inertia of a body that is the same left and right.
#[verifier::when_used_as_spec(spec_inertia_tensor)]
pub fn inertia_tensor(moment_xx: Binary64, moment_yy: Binary64, moment_zz: Binary64, product_xz: Binary64) -> (r: DMat3)
    ensures
        r == inertia_tensor(moment_xx, moment_yy, moment_zz, product_xz),
{
    let zero = Binary64::of(0);
    let off = product_xz.negate();
    DMat3 {
        x_axis: DVec3 { x: moment_xx, y: zero, z: off },
        y_axis: DVec3 { x: zero, y: moment_yy, z: zero },
        z_axis: DVec3 { x: off, y: zero, z: moment_zz },
    }
}

/// A body can have these moments of inertia: all above zero, and together not
/// flat.
pub open spec fn can_turn(
    moment_xx: Binary64,
    moment_yy: Binary64,
    moment_zz: Binary64,
    product_xz: Binary64,
) -> bool {
    &&& moment_xx > Binary64::of(0)
    &&& moment_yy > Binary64::of(0)
    &&& moment_zz > Binary64::of(0)
    &&& inertia_tensor(moment_xx, moment_yy, moment_zz, product_xz).determinant().abs()
        > Binary64::ratio(1, 0x10000000000000)
}

impl MassProperties {
    /// The properties for a mass and moments of inertia.
    pub fn new(
        mass: Binary64,
        moment_xx: Binary64,
        moment_yy: Binary64,
        moment_zz: Binary64,
        product_xz: Binary64,
    ) -> (r: MassProperties)
        requires
            mass > Binary64::of(0),
            can_turn(moment_xx, moment_yy, moment_zz, product_xz),
        ensures
            r.mass == mass,
            r.inertia == inertia_tensor(moment_xx, moment_yy, moment_zz, product_xz),
            r.inverse_inertia == r.inertia.inverse(),
    {
        let inertia = inertia_tensor(moment_xx, moment_yy, moment_zz, product_xz);
        MassProperties { mass, inertia, inverse_inertia: inertia.inverse() }
    }

    /// Whether `new` can be asked for these numbers.
    pub fn possible(
        mass: Binary64,
        moment_xx: Binary64,
        moment_yy: Binary64,
        moment_zz: Binary64,
        product_xz: Binary64,
    ) -> (r: bool)
        ensures
            r == (mass > Binary64::of(0) && can_turn(moment_xx, moment_yy, moment_zz, product_xz)),
    {
        let zero = Binary64::of(0);
        mass.gt(zero) && moment_xx.gt(zero) && moment_yy.gt(zero) && moment_zz.gt(zero)
            && inertia_tensor(moment_xx, moment_yy, moment_zz, product_xz).determinant().abs().gt(
            Binary64::ratio(1, 0x10000000000000),
        )
    }

    pub fn mass(&self) -> (r: Binary64)
        ensures
            r == self.mass,
    {
        self.mass
    }

    pub fn inertia(&self) -> (r: DMat3)
        ensures
            r == self.inertia,
    {
        self.inertia
    }

    pub fn inverse_inertia(&self) -> (r: DMat3)
        ensures
            r == self.inverse_inertia,
    {
        self.inverse_inertia
    }
}

/// The inertia is the same along either diagonal.
pub proof fn inertia_is_symmetric(
    moment_xx: Binary64,
    moment_yy: Binary64,
    moment_zz: Binary64,
    product_xz: Binary64,
)
    ensures
        ({
            let i = inertia_tensor(moment_xx, moment_yy, moment_zz, product_xz);
            &&& i.x_axis.y == i.y_axis.x
            &&& i.x_axis.z == i.z_axis.x
            &&& i.y_axis.z == i.z_axis.y
            &&& i.transposed() == i
        }),
{
}

/// The inertia times its inverse is one but for rounding: each entry is off by
/// one part in two to the forty-two at most, times two to the flatness. No
/// moment is above a power of two, and the determinant is at least that power
/// cubed over two to the flatness.
pub proof fn inertia_times_its_inverse_is_one(
    moment_xx: Binary64,
    moment_yy: Binary64,
    moment_zz: Binary64,
    product_xz: Binary64,
    power: nat,
    flatness: nat,
    row: int,
    column: int,
)
    requires
        760 <= power <= 1370,
        flatness <= 40,
        inverse::at_most(DVec3 { x: moment_xx, y: moment_yy, z: moment_zz }, power),
        product_xz.is_finite(),
        number::magnitude_of(product_xz.value()) <= pow2(power),
        pow2(power) * pow2(power) * pow2(power) <= pow2(flatness) * number::magnitude_of(
            moment_yy.value() * (moment_xx.value() * moment_zz.value() - product_xz.value()
                * product_xz.value()),
        ),
        0 <= row < 3,
        0 <= column < 3,
    ensures
        ({
            let i = inertia_tensor(moment_xx, moment_yy, moment_zz, product_xz);
            &&& inverse::column_of(i.inverse(), column).is_finite()
            &&& near::within(
                0x40000000000 * inverse::entry(i, i.inverse(), row, column),
                0x40000000000 * inverse::one_there(row, column),
                pow2(flatness) * (Binary64::one() * Binary64::one()),
            )
        }),
{
    let i = inertia_tensor(moment_xx, moment_yy, moment_zz, product_xz);
    let (a, b, c, e) = (
        moment_xx.value(),
        moment_yy.value(),
        moment_zz.value(),
        product_xz.value(),
    );
    lemma_pow2_pos(power);
    binary64::lemma_of(0);
    binary64::lemma_negate(product_xz);
    assert(b * (a * c - e * e) == inverse::true_determinant(i)) by (nonlinear_arith)
        requires
            inverse::true_determinant(i) == (-e) * (0 * 0 - b * (-e)) + 0 * ((-e) * 0 - 0 * a) + c * (
            a * b - 0 * 0),
    ;
    inverse::a_matrix_times_its_inverse_is_one(i, power, flatness, row, column);
}

/// The measures that forces and moments go by.
#[derive(Clone, Copy, PartialEq, Eq, Debug, Structural)]
pub struct Geometry {
    /// In square metres.
    pub wing_area: Binary64,
    /// In metres.
    pub wing_span: Binary64,
    /// In metres.
    pub mean_chord: Binary64,
}

impl Geometry {
    pub open spec fn spec_aspect_ratio(self) -> Binary64 {
        self.wing_span * self.wing_span / self.wing_area
    }

    /// The span squared over the area.
    #[verifier::when_used_as_spec(spec_aspect_ratio)]
    pub fn aspect_ratio(self) -> (r: Binary64)
        ensures
            r == self.aspect_ratio(),
    {
        self.wing_span * self.wing_span / self.wing_area
    }
}

/// The aerodynamics of an aircraft in numbers without units. Control surfaces
/// count per full input, not per radian of their own angle.
#[derive(Clone, Copy, PartialEq, Eq, Debug, Structural)]
pub struct AeroCoefficients {
    /// The lift at no angle of attack.
    pub lift_zero: Binary64,
    /// Lift per radian of angle of attack.
    pub lift_alpha: Binary64,
    /// What full flaps add to the lift.
    pub lift_flaps: Binary64,
    /// The angle of attack past which the wing is a flat plate, in radians.
    pub stall_angle: Binary64,
    /// How sharply the wing stalls.
    pub stall_blend_rate: Binary64,
    /// The drag that does not come from lift.
    pub drag_min: Binary64,
    /// How little drag comes with lift.
    pub oswald_efficiency: Binary64,
    /// What full flaps add to the drag.
    pub drag_flaps: Binary64,
    /// Side force per radian of sideslip, below zero.
    pub side_beta: Binary64,
    /// Side force of full rudder.
    pub side_rudder: Binary64,
    /// Roll per radian of sideslip, below zero.
    pub roll_beta: Binary64,
    /// How roll damps itself, below zero.
    pub roll_rate_p: Binary64,
    /// Roll that yawing brings.
    pub roll_rate_r: Binary64,
    /// Roll of full aileron.
    pub roll_aileron: Binary64,
    /// Roll of full rudder.
    pub roll_rudder: Binary64,
    /// Pitch at no angle of attack.
    pub pitch_zero: Binary64,
    /// Pitch per radian of angle of attack, below zero for an aircraft that is stable.
    pub pitch_alpha: Binary64,
    /// How pitch damps itself, below zero.
    pub pitch_rate_q: Binary64,
    /// Pitch of full elevator.
    pub pitch_elevator: Binary64,
    /// Pitch of full flaps.
    pub pitch_flaps: Binary64,
    /// Yaw per radian of sideslip, above zero for an aircraft that is stable.
    pub yaw_beta: Binary64,
    /// Yaw that rolling brings, below zero.
    pub yaw_rate_p: Binary64,
    /// How yaw damps itself, below zero.
    pub yaw_rate_r: Binary64,
    /// Yaw of full aileron against the turn, below zero.
    pub yaw_aileron: Binary64,
    /// Yaw of full rudder.
    pub yaw_rudder: Binary64,
}

/// An engine with a propeller: constant power, held to what it pulls standing
/// still.
#[derive(Clone, Copy, PartialEq, Eq, Debug, Structural)]
pub struct EngineConfig {
    /// In watts.
    pub max_shaft_power: Binary64,
    pub propeller_efficiency: Binary64,
    /// In newtons.
    pub static_thrust: Binary64,
}

impl EngineConfig {
    /// The power at the propeller for a throttle.
    pub open spec fn available_power(self, throttle: Binary64) -> Binary64 {
        throttle.clamp(Binary64::of(0), Binary64::of(1)) * self.max_shaft_power
            * self.propeller_efficiency
    }

    /// The speed that the power is divided by: not below the one at which it
    /// comes to the thrust standing still.
    pub open spec fn effective_speed(self, power: Binary64, true_airspeed: Binary64) -> Binary64 {
        let epsilon = Binary64::ratio(1, 0x10000000000000);
        true_airspeed.max(power / self.static_thrust.max(epsilon)).max(epsilon)
    }

    pub open spec fn thrust_spec(
        self,
        throttle: Binary64,
        true_airspeed: Binary64,
        density_ratio: Binary64,
    ) -> Binary64 {
        let power = self.available_power(throttle);
        power / self.effective_speed(power, true_airspeed) * density_ratio.max(Binary64::of(0))
    }

    /// The thrust in newtons; it falls with the density of the air.
    pub fn thrust(
        &self,
        throttle: Binary64,
        true_airspeed: Binary64,
        density_ratio: Binary64,
    ) -> (r: Binary64)
        ensures
            r == self.thrust_spec(throttle, true_airspeed, density_ratio),
    {
        proof {
            binary64::lemma_of(0);
            binary64::lemma_of(1);
            binary64::lemma_order(Binary64::of(0), Binary64::of(1));
        }
        let epsilon = Binary64::ratio(1, 0x10000000000000);
        let power = throttle.clamp(Binary64::of(0), Binary64::of(1)) * self.max_shaft_power
            * self.propeller_efficiency;
        let reference_speed = power / self.static_thrust.max(epsilon);
        let effective_speed = true_airspeed.max(reference_speed).max(epsilon);
        power / effective_speed * density_ratio.max(Binary64::of(0))
    }
}

/// An aircraft.
pub struct AircraftConfig {
    pub name: String,
    pub mass_properties: MassProperties,
    pub geometry: Geometry,
    pub aero: AeroCoefficients,
    pub engine: EngineConfig,
    pub landing_gear: LandingGearConfig,
}

pub open spec fn spec_light_aero() -> AeroCoefficients {
    AeroCoefficients {
        lift_zero: Binary64::ratio(31, 100),
        lift_alpha: Binary64::ratio(5_143, 1_000),
        lift_flaps: Binary64::ratio(65, 100),
        stall_angle: angle::to_radians(Binary64::of(16)),
        stall_blend_rate: Binary64::of(50),
        drag_min: Binary64::ratio(31, 1_000),
        oswald_efficiency: Binary64::ratio(75, 100),
        drag_flaps: Binary64::ratio(6, 100),
        side_beta: Binary64::ratio(31, 100).negate(),
        side_rudder: Binary64::ratio(187, 1_000) * Binary64::ratio(419, 1_000),
        roll_beta: Binary64::ratio(89, 1_000).negate(),
        roll_rate_p: Binary64::ratio(47, 100).negate(),
        roll_rate_r: Binary64::ratio(96, 1_000),
        roll_aileron: Binary64::ratio(178, 1_000) * Binary64::ratio(349, 1_000),
        roll_rudder: Binary64::ratio(147, 10_000) * Binary64::ratio(419, 1_000),
        pitch_zero: Binary64::ratio(15, 1_000),
        pitch_alpha: Binary64::ratio(89, 100).negate(),
        pitch_rate_q: Binary64::ratio(124, 10).negate(),
        pitch_elevator: Binary64::ratio(128, 100) * Binary64::ratio(436, 1_000),
        pitch_flaps: Binary64::ratio(12, 100).negate(),
        yaw_beta: Binary64::ratio(65, 1_000),
        yaw_rate_p: Binary64::ratio(3, 100).negate(),
        yaw_rate_r: Binary64::ratio(99, 1_000).negate(),
        yaw_aileron: Binary64::ratio(53, 10_000).negate() * Binary64::ratio(349, 1_000),
        yaw_rudder: Binary64::ratio(657, 10_000) * Binary64::ratio(419, 1_000),
    }
}

/// The aerodynamics of a light single.
#[verifier::when_used_as_spec(spec_light_aero)]
pub fn light_aero() -> (r: AeroCoefficients)
    ensures
        r == light_aero(),
{
    AeroCoefficients {
        lift_zero: Binary64::ratio(31, 100),
        lift_alpha: Binary64::ratio(5_143, 1_000),
        lift_flaps: Binary64::ratio(65, 100),
        stall_angle: angle::to_radians(Binary64::of(16)),
        stall_blend_rate: Binary64::of(50),
        drag_min: Binary64::ratio(31, 1_000),
        oswald_efficiency: Binary64::ratio(75, 100),
        drag_flaps: Binary64::ratio(6, 100),
        side_beta: Binary64::ratio(31, 100).negate(),
        side_rudder: Binary64::ratio(187, 1_000) * Binary64::ratio(419, 1_000),
        roll_beta: Binary64::ratio(89, 1_000).negate(),
        roll_rate_p: Binary64::ratio(47, 100).negate(),
        roll_rate_r: Binary64::ratio(96, 1_000),
        roll_aileron: Binary64::ratio(178, 1_000) * Binary64::ratio(349, 1_000),
        roll_rudder: Binary64::ratio(147, 10_000) * Binary64::ratio(419, 1_000),
        pitch_zero: Binary64::ratio(15, 1_000),
        pitch_alpha: Binary64::ratio(89, 100).negate(),
        pitch_rate_q: Binary64::ratio(124, 10).negate(),
        pitch_elevator: Binary64::ratio(128, 100) * Binary64::ratio(436, 1_000),
        pitch_flaps: Binary64::ratio(12, 100).negate(),
        yaw_beta: Binary64::ratio(65, 1_000),
        yaw_rate_p: Binary64::ratio(3, 100).negate(),
        yaw_rate_r: Binary64::ratio(99, 1_000).negate(),
        yaw_aileron: Binary64::ratio(53, 10_000).negate() * Binary64::ratio(349, 1_000),
        yaw_rudder: Binary64::ratio(657, 10_000) * Binary64::ratio(419, 1_000),
    }
}

pub open spec fn spec_light_geometry() -> Geometry {
    Geometry {
        wing_area: Binary64::ratio(1_617, 100),
        wing_span: Binary64::of(11),
        mean_chord: Binary64::ratio(149, 100),
    }
}

/// The measures of a light single.
#[verifier::when_used_as_spec(spec_light_geometry)]
pub fn light_geometry() -> (r: Geometry)
    ensures
        r == light_geometry(),
{
    Geometry {
        wing_area: Binary64::ratio(1_617, 100),
        wing_span: Binary64::of(11),
        mean_chord: Binary64::ratio(149, 100),
    }
}

pub open spec fn spec_light_engine() -> EngineConfig {
    EngineConfig {
        max_shaft_power: Binary64::of(119_000),
        propeller_efficiency: Binary64::ratio(8, 10),
        static_thrust: Binary64::of(2_400),
    }
}

/// The engine of a light single: 160 horsepower.
#[verifier::when_used_as_spec(spec_light_engine)]
pub fn light_engine() -> (r: EngineConfig)
    ensures
        r == light_engine(),
{
    EngineConfig {
        max_shaft_power: Binary64::of(119_000),
        propeller_efficiency: Binary64::ratio(8, 10),
        static_thrust: Binary64::of(2_400),
    }
}

impl AircraftConfig {
    /// A light single with plausible numbers, not the data of any one aircraft.
    pub fn light_single() -> (r: AircraftConfig)
        ensures
            r.name@ == "Light Single (generic)"@,
            r.mass_properties.mass == Binary64::of(1_043),
            r.mass_properties.inertia == inertia_tensor(
                Binary64::of(1_285),
                Binary64::of(1_825),
                Binary64::of(2_667),
                Binary64::of(0),
            ),
            r.mass_properties.inverse_inertia == r.mass_properties.inertia.inverse(),
            r.geometry == light_geometry(),
            r.aero == light_aero(),
            r.engine == light_engine(),
            r.landing_gear == LandingGearConfig::light_single_spec(),
            r.landing_gear.well_formed(),
    {
        let inertia = inertia_tensor(
            Binary64::of(1_285),
            Binary64::of(1_825),
            Binary64::of(2_667),
            Binary64::of(0),
        );
        AircraftConfig {
            name: "Light Single (generic)".to_owned(),
            mass_properties: MassProperties {
                mass: Binary64::of(1_043),
                inertia,
                inverse_inertia: inertia.inverse(),
            },
            geometry: light_geometry(),
            aero: light_aero(),
            engine: light_engine(),
            landing_gear: LandingGearConfig::light_single(),
        }
    }
}

/// No throttle, no thrust, in any air that is not infinitely dense.
pub proof fn idle_gives_no_thrust(
    engine: EngineConfig,
    true_airspeed: Binary64,
    density_ratio: Binary64,
)
    requires
        engine.max_shaft_power.is_finite(),
        engine.propeller_efficiency.is_finite(),
        density_ratio.is_nan() || density_ratio.is_finite() || density_ratio < Binary64::of(0),
    ensures
        engine.thrust_spec(Binary64::of(0), true_airspeed, density_ratio).value() == 0,
{
    let zero = Binary64::of(0);
    let one = Binary64::of(1);
    let epsilon = Binary64::ratio(1, 0x10000000000000);
    binary64::lemma_of(0);
    binary64::lemma_of(1);
    binary64::lemma_ratio_share(1, 0x10000000000000);
    binary64::lemma_order(zero, zero);
    binary64::lemma_order(zero, one);
    binary64::lemma_order(one, zero);
    binary64::lemma_zero_factor(zero, engine.max_shaft_power);
    binary64::lemma_zero_factor(zero * engine.max_shaft_power, engine.propeller_efficiency);
    let power = engine.available_power(zero);
    let pull = engine.static_thrust.max(epsilon);
    binary64::lemma_order(engine.static_thrust, epsilon);
    binary64::lemma_order(epsilon, engine.static_thrust);
    lemma_nothing_over(power, pull);
    let reference = power / pull;
    binary64::lemma_order(true_airspeed, reference);
    binary64::lemma_order(reference, true_airspeed);
    let faster = true_airspeed.max(reference);
    binary64::lemma_order(faster, epsilon);
    binary64::lemma_order(epsilon, faster);
    let speed = faster.max(epsilon);
    lemma_nothing_over(power, speed);
    let share = density_ratio.max(zero);
    binary64::lemma_order(density_ratio, zero);
    binary64::lemma_order(zero, density_ratio);
    binary64::lemma_zero_factor(power / speed, share);
}

/// Nothing over a number above zero is nothing.
proof fn lemma_nothing_over(a: Binary64, b: Binary64)
    requires
        a.is_finite(),
        a.value() == 0,
        !b.is_nan(),
        b.value() > 0,
    ensures
        (a / b).is_finite(),
        (a / b).value() == 0,
{
    let zero = Binary64::of(0);
    binary64::lemma_of(0);
    if b.is_finite() {
        assert(zero.value() * b.value() == 0);
        assert(a.value() * Binary64::one() == 0);
        binary64::lemma_quotient_between(a, b, zero, zero);
    } else {
        binary64::lemma_div_by_infinite(a, b);
    }
}

/// A propeller with a real engine never pulls backwards, at any speed and in
/// any air.
pub proof fn thrust_is_never_negative(
    engine: EngineConfig,
    throttle: Binary64,
    true_airspeed: Binary64,
    density_ratio: Binary64,
)
    requires
        engine.max_shaft_power.value() >= 0,
        engine.propeller_efficiency.value() >= 0,
    ensures
        !(engine.thrust_spec(throttle, true_airspeed, density_ratio) < Binary64::of(0)),
{
    let zero = Binary64::of(0);
    let one = Binary64::of(1);
    let epsilon = Binary64::ratio(1, 0x10000000000000);
    binary64::lemma_of(0);
    binary64::lemma_of(1);
    binary64::lemma_ratio_share(1, 0x10000000000000);
    binary64::lemma_order(throttle, zero);
    binary64::lemma_order(one, throttle);
    let opened = throttle.clamp(zero, one);
    sign::lemma_product(opened, engine.max_shaft_power);
    sign::lemma_product(opened * engine.max_shaft_power, engine.propeller_efficiency);
    let power = engine.available_power(throttle);
    let faster = true_airspeed.max(power / engine.static_thrust.max(epsilon));
    binary64::lemma_order(faster, epsilon);
    binary64::lemma_order(epsilon, faster);
    let speed = engine.effective_speed(power, true_airspeed);
    sign::lemma_positive(speed);
    sign::lemma_quotient(power, speed);
    binary64::lemma_order(density_ratio, zero);
    sign::lemma_product(power / speed, density_ratio.max(zero));
    binary64::lemma_order(power / speed * density_ratio.max(zero), zero);
}

} // verus!
