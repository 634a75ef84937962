//! The state of a rigid body and its rate of change.
//!
//! Position, velocity and attitude are held in axes fixed to the earth, so the
//! reference does not turn while the aircraft moves over it. What pilots and
//! instruments want is derived where it is wanted.
use crate::binary64;
use crate::binary64::Binary64;
use crate::norm;
use crate::rotation::{DQuat, DVec4};
use crate::vector::DVec3;
use vstd::prelude::*;

verus! {

/// The axes north, east and down at a point, as earth-fixed vectors.
#[derive(Clone, Copy, PartialEq, Eq, Debug, Structural)]
pub struct LocalFrame {
    pub origin: DVec3,
    pub north: DVec3,
    pub east: DVec3,
    pub down: DVec3,
}

impl LocalFrame {
    pub open spec fn spec_ned_to_ecef(self, ned: DVec3) -> DVec3 {
        self.north.scaled(ned.x).plus(self.east.scaled(ned.y)).plus(self.down.scaled(ned.z))
    }

    /// A vector given north, east and down, in earth-fixed axes.
    #[verifier::when_used_as_spec(spec_ned_to_ecef)]
    pub fn ned_to_ecef(self, ned: DVec3) -> (r: DVec3)
        ensures
            r == self.ned_to_ecef(ned),
    {
        self.north.scaled(ned.x).plus(self.east.scaled(ned.y)).plus(self.down.scaled(ned.z))
    }

    pub open spec fn spec_ecef_to_ned(self, v: DVec3) -> DVec3 {
        DVec3 { x: self.north.dot(v), y: self.east.dot(v), z: self.down.dot(v) }
    }

    /// An earth-fixed vector as north, east and down.
    #[verifier::when_used_as_spec(spec_ecef_to_ned)]
    pub fn ecef_to_ned(self, v: DVec3) -> (r: DVec3)
        ensures
            r == self.ecef_to_ned(v),
    {
        DVec3 { x: self.north.dot(v), y: self.east.dot(v), z: self.down.dot(v) }
    }

    pub open spec fn spec_position_to_ned(self, point: DVec3) -> DVec3 {
        self.ecef_to_ned(point.minus(self.origin))
    }

    /// An earth-fixed point as north, east and down of the origin.
    #[verifier::when_used_as_spec(spec_position_to_ned)]
    pub fn position_to_ned(self, point: DVec3) -> (r: DVec3)
        ensures
            r == self.position_to_ned(point),
    {
        self.ecef_to_ned(point.minus(self.origin))
    }

    pub open spec fn spec_up(self) -> DVec3 {
        self.down.opposite()
    }

    /// The way up.
    #[verifier::when_used_as_spec(spec_up)]
    pub fn up(self) -> (r: DVec3)
        ensures
            r == self.up(),
    {
        self.down.opposite()
    }
}

/// A body with six degrees of freedom.
#[derive(Clone, Copy, PartialEq, Eq, Debug, Structural)]
pub struct RigidBodyState {
    /// The position in earth-fixed metres.
    pub position: DVec3,
    /// The velocity in earth-fixed metres per second.
    pub velocity: DVec3,
    /// The turn from body axes to earth-fixed axes, of length one.
    pub orientation: DQuat,
    /// The angular velocity about the body axes in radians per second.
    pub angular_velocity: DVec3,
}

impl RigidBodyState {
    /// The state at the frame's origin: `frame_turn` is the turn from north,
    /// east and down to earth-fixed axes, `attitude` that from body axes to
    /// north, east and down.
    pub fn from_geodetic(
        frame: LocalFrame,
        frame_turn: DQuat,
        attitude: DQuat,
        velocity_ned: DVec3,
    ) -> (r: RigidBodyState)
        ensures
            r.position == frame.origin,
            r.velocity == frame.ned_to_ecef(velocity_ned),
            r.orientation == frame_turn.after(attitude).normalized(),
            r.angular_velocity == DVec3::zero(),
    {
        RigidBodyState {
            position: frame.origin,
            velocity: frame.ned_to_ecef(velocity_ned),
            orientation: frame_turn.after(attitude).normalized(),
            angular_velocity: DVec3::zero(),
        }
    }

    pub open spec fn spec_velocity_ned(self, frame: LocalFrame) -> DVec3 {
        frame.ecef_to_ned(self.velocity)
    }

    /// The velocity north, east and down.
    #[verifier::when_used_as_spec(spec_velocity_ned)]
    pub fn velocity_ned(self, frame: LocalFrame) -> (r: DVec3)
        ensures
            r == self.velocity_ned(frame),
    {
        frame.ecef_to_ned(self.velocity)
    }

    pub open spec fn spec_body_velocity(self) -> DVec3 {
        self.orientation.inverse().rotate(self.velocity)
    }

    /// The velocity along the body axes, wind not counted.
    #[verifier::when_used_as_spec(spec_body_velocity)]
    pub fn body_velocity(self) -> (r: DVec3)
        ensures
            r == self.body_velocity(),
    {
        self.orientation.inverse().rotate(self.velocity)
    }

    pub open spec fn spec_ground_speed(self, frame: LocalFrame) -> Binary64 {
        let v = self.velocity_ned(frame);
        (v.x * v.x + v.y * v.y).sqrt()
    }

    /// The speed over the ground.
    #[verifier::when_used_as_spec(spec_ground_speed)]
    pub fn ground_speed(self, frame: LocalFrame) -> (r: Binary64)
        ensures
            r == self.ground_speed(frame),
    {
        let v = self.velocity_ned(frame);
        (v.x * v.x + v.y * v.y).sqrt()
    }

    pub open spec fn spec_vertical_speed(self, frame: LocalFrame) -> Binary64 {
        self.velocity_ned(frame).z.negate()
    }

    /// The rate of climb, positive upwards.
    #[verifier::when_used_as_spec(spec_vertical_speed)]
    pub fn vertical_speed(self, frame: LocalFrame) -> (r: Binary64)
        ensures
            r == self.vertical_speed(frame),
    {
        self.velocity_ned(frame).z.negate()
    }

    pub open spec fn spec_is_finite(self) -> bool {
        self.position.is_finite() && self.velocity.is_finite() && self.orientation.is_finite()
            && self.angular_velocity.is_finite()
    }

    /// Nothing in the state is broken.
    #[verifier::when_used_as_spec(spec_is_finite)]
    pub fn is_finite(self) -> (r: bool)
        ensures
            r == self.is_finite(),
    {
        self.position.is_finite() && self.velocity.is_finite() && self.orientation.is_finite()
            && self.angular_velocity.is_finite()
    }
}

/// The rate of change of a state.
#[derive(Clone, Copy, PartialEq, Eq, Debug, Structural)]
pub struct StateDerivative {
    pub velocity: DVec3,
    pub acceleration: DVec3,
    /// The rates of the four numbers of the turn.
    pub orientation_rate: DVec4,
    pub angular_acceleration: DVec3,
}

impl StateDerivative {
    pub open spec fn spec_zero() -> StateDerivative {
        let none = Binary64::of(0);
        StateDerivative {
            velocity: DVec3::zero(),
            acceleration: DVec3::zero(),
            orientation_rate: DVec4 { x: none, y: none, z: none, w: none },
            angular_acceleration: DVec3::zero(),
        }
    }

    /// No change.
    #[verifier::when_used_as_spec(spec_zero)]
    pub fn zero() -> (r: StateDerivative)
        ensures
            r == StateDerivative::zero(),
    {
        let none = Binary64::of(0);
        StateDerivative {
            velocity: DVec3::zero(),
            acceleration: DVec3::zero(),
            orientation_rate: DVec4 { x: none, y: none, z: none, w: none },
            angular_acceleration: DVec3::zero(),
        }
    }

    pub open spec fn spec_plus(self, other: StateDerivative) -> StateDerivative {
        StateDerivative {
            velocity: self.velocity.plus(other.velocity),
            acceleration: self.acceleration.plus(other.acceleration),
            orientation_rate: self.orientation_rate.plus(other.orientation_rate),
            angular_acceleration: self.angular_acceleration.plus(other.angular_acceleration),
        }
    }

    /// Both changes together.
    #[verifier::when_used_as_spec(spec_plus)]
    pub fn plus(self, other: StateDerivative) -> (r: StateDerivative)
        ensures
            r == self.plus(other),
    {
        StateDerivative {
            velocity: self.velocity.plus(other.velocity),
            acceleration: self.acceleration.plus(other.acceleration),
            orientation_rate: self.orientation_rate.plus(other.orientation_rate),
            angular_acceleration: self.angular_acceleration.plus(other.angular_acceleration),
        }
    }

    pub open spec fn spec_scaled(self, s: Binary64) -> StateDerivative {
        StateDerivative {
            velocity: self.velocity.scaled(s),
            acceleration: self.acceleration.scaled(s),
            orientation_rate: self.orientation_rate.scaled(s),
            angular_acceleration: self.angular_acceleration.scaled(s),
        }
    }

    /// So many times the change.
    #[verifier::when_used_as_spec(spec_scaled)]
    pub fn scaled(self, s: Binary64) -> (r: StateDerivative)
        ensures
            r == self.scaled(s),
    {
        StateDerivative {
            velocity: self.velocity.scaled(s),
            acceleration: self.acceleration.scaled(s),
            orientation_rate: self.orientation_rate.scaled(s),
            angular_acceleration: self.angular_acceleration.scaled(s),
        }
    }
}

pub open spec fn spec_orientation_rate(orientation: DQuat, angular_velocity: DVec3) -> DVec4 {
    let (w, x, y, z) = (orientation.w, orientation.x, orientation.y, orientation.z);
    let (p, q, r) = (angular_velocity.x, angular_velocity.y, angular_velocity.z);
    let half = Binary64::ratio(1, 2);
    DVec4 {
        x: half * (w * p + y * r - z * q),
        y: half * (w * q - x * r + z * p),
        z: half * (w * r + x * q - y * p),
        w: half * (x.negate() * p - y * q - z * r),
    }
}

/// How the four numbers of a turn change while the body rotates: half the
/// product of the turn and the angular velocity.
#[verifier::when_used_as_spec(spec_orientation_rate)]
pub fn orientation_rate(orientation: DQuat, angular_velocity: DVec3) -> (rate: DVec4)
    ensures
        rate == orientation_rate(orientation, angular_velocity),
{
    let (w, x, y, z) = (orientation.w, orientation.x, orientation.y, orientation.z);
    let (p, q, r) = (angular_velocity.x, angular_velocity.y, angular_velocity.z);
    let half = Binary64::ratio(1, 2);
    DVec4 {
        x: half * (w * p + y * r - z * q),
        y: half * (w * q - x * r + z * p),
        z: half * (w * r + x * q - y * p),
        w: half * (x.negate() * p - y * q - z * r),
    }
}

pub open spec fn spec_offset(state: RigidBodyState, derivative: StateDerivative, h: Binary64) -> RigidBodyState {
    RigidBodyState {
        position: state.position.plus(derivative.velocity.scaled(h)),
        velocity: state.velocity.plus(derivative.acceleration.scaled(h)),
        orientation: DQuat::from_vec4(
            state.orientation.to_vec4().plus(derivative.orientation_rate.scaled(h)),
        ).normalized(),
        angular_velocity: state.angular_velocity.plus(derivative.angular_acceleration.scaled(h)),
    }
}

/// The state after changing at that rate for a time `h`; the turn is brought
/// back to length one.
#[verifier::when_used_as_spec(spec_offset)]
pub fn offset(state: RigidBodyState, derivative: StateDerivative, h: Binary64) -> (r: RigidBodyState)
    ensures
        r == offset(state, derivative, h),
{
    RigidBodyState {
        position: state.position.plus(derivative.velocity.scaled(h)),
        velocity: state.velocity.plus(derivative.acceleration.scaled(h)),
        orientation: DQuat::from_vec4(
            state.orientation.to_vec4().plus(derivative.orientation_rate.scaled(h)),
        ).normalized(),
        angular_velocity: state.angular_velocity.plus(derivative.angular_acceleration.scaled(h)),
    }
}

/// A body that does not rotate keeps its attitude.
pub proof fn no_rotation_changes_no_attitude(orientation: DQuat)
    requires
        orientation.is_finite(),
    ensures
        ({
            let rate = orientation_rate(orientation, DVec3::zero());
            rate.x.value() == 0 && rate.y.value() == 0 && rate.z.value() == 0 && rate.w.value() == 0
        }),
{
    let zero = Binary64::of(0);
    let half = Binary64::ratio(1, 2);
    binary64::lemma_of(0);
    binary64::lemma_halves(1);
    let (w, x, y, z) = (orientation.w, orientation.x, orientation.y, orientation.z);
    lemma_three_nothings(w, y, z);
    lemma_three_nothings(w, x, z);
    lemma_three_nothings(w, x, y);
    binary64::lemma_negate(x);
    lemma_difference_of_nothings(w, x, z);
    lemma_two_differences(x.negate(), y, z);
}

/// Nothing, three times over, is nothing.
proof fn lemma_three_nothings(a: Binary64, b: Binary64, c: Binary64)
    requires
        a.is_finite(),
        b.is_finite(),
        c.is_finite(),
    ensures
        ({
            let zero = Binary64::of(0);
            (Binary64::ratio(1, 2) * (a * zero + b * zero - c * zero)).value() == 0
        }),
{
    let zero = Binary64::of(0);
    binary64::lemma_of(0);
    binary64::lemma_halves(1);
    binary64::lemma_zero_factor(zero, a);
    binary64::lemma_zero_factor(zero, b);
    binary64::lemma_zero_factor(zero, c);
    let p = a * zero;
    let q = b * zero;
    let s = c * zero;
    binary64::lemma_sum_between(p, q, zero, zero);
    binary64::lemma_negate(s);
    assert(p + q - s == (p + q) + s.negate());
    binary64::lemma_sum_between(p + q, s.negate(), zero, zero);
    binary64::lemma_zero_factor(p + q - s, Binary64::ratio(1, 2));
}

proof fn lemma_difference_of_nothings(a: Binary64, b: Binary64, c: Binary64)
    requires
        a.is_finite(),
        b.is_finite(),
        c.is_finite(),
    ensures
        ({
            let zero = Binary64::of(0);
            (Binary64::ratio(1, 2) * (a * zero - b * zero + c * zero)).value() == 0
        }),
{
    let zero = Binary64::of(0);
    binary64::lemma_of(0);
    binary64::lemma_halves(1);
    binary64::lemma_zero_factor(zero, a);
    binary64::lemma_zero_factor(zero, b);
    binary64::lemma_zero_factor(zero, c);
    let p = a * zero;
    let q = b * zero;
    let s = c * zero;
    binary64::lemma_negate(q);
    assert(p - q == p + q.negate());
    binary64::lemma_sum_between(p, q.negate(), zero, zero);
    binary64::lemma_sum_between(p - q, s, zero, zero);
    binary64::lemma_zero_factor(p - q + s, Binary64::ratio(1, 2));
}

proof fn lemma_two_differences(a: Binary64, b: Binary64, c: Binary64)
    requires
        a.is_finite(),
        b.is_finite(),
        c.is_finite(),
    ensures
        ({
            let zero = Binary64::of(0);
            (Binary64::ratio(1, 2) * (a * zero - b * zero - c * zero)).value() == 0
        }),
{
    let zero = Binary64::of(0);
    binary64::lemma_of(0);
    binary64::lemma_halves(1);
    binary64::lemma_zero_factor(zero, a);
    binary64::lemma_zero_factor(zero, b);
    binary64::lemma_zero_factor(zero, c);
    let p = a * zero;
    let q = b * zero;
    let s = c * zero;
    binary64::lemma_negate(q);
    binary64::lemma_negate(s);
    assert(p - q == p + q.negate());
    binary64::lemma_sum_between(p, q.negate(), zero, zero);
    assert(p - q - s == (p - q) + s.negate());
    binary64::lemma_sum_between(p - q, s.negate(), zero, zero);
    binary64::lemma_zero_factor(p - q - s, Binary64::ratio(1, 2));
}

/// However a turn changes over a time, it has length one afterwards, but for
/// rounding: whatever the number of steps, the attitude is not distorted. All
/// that is asked is that what it changes to can be brought to a length, so that
/// it is neither nothing nor beyond all bounds.
pub proof fn a_changing_turn_keeps_length_one(
    state: RigidBodyState,
    derivative: StateDerivative,
    h: Binary64,
)
    requires
        norm::ordinary(
            state.orientation.to_vec4().plus(derivative.orientation_rate.scaled(h)),
        ),
    ensures
        norm::near_unit(offset(state, derivative, h).orientation.to_vec4()),
{
    norm::a_normalised_turn_has_length_one(
        state.orientation.to_vec4().plus(derivative.orientation_rate.scaled(h)),
    );
}

} // verus!
