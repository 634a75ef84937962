//! Control inputs as the pilot commands them.
//!
//! A positive aileron rolls right, a positive elevator raises the nose and a
//! positive rudder yaws right. Smoothing is not done here: the dynamics use the
//! deflections as they are given.
use crate::binary64;
use crate::binary64::Binary64;
use vstd::prelude::*;

verus! {

/// `value` held within the limits, zero where it is not a number.
pub open spec fn sanitized(value: Binary64, low: Binary64, high: Binary64) -> Binary64 {
    if value.is_nan() {
        Binary64::of(0)
    } else {
        value.clamp(low, high)
    }
}

/// Clamping alone lets "not a number" through, so it is caught first.
pub fn sanitize(value: Binary64, low: Binary64, high: Binary64) -> (r: Binary64)
    ensures
        r == sanitized(value, low, high),
{
    if value.is_nan() {
        Binary64::of(0)
    } else {
        value.clamp(low, high)
    }
}

/// A number from minus one to one.
pub open spec fn is_deflection(x: Binary64) -> bool {
    x.is_finite() && -Binary64::one() <= x.value() <= Binary64::one()
}

/// A number from zero to one.
pub open spec fn is_fraction(x: Binary64) -> bool {
    x.is_finite() && 0 <= x.value() <= Binary64::one()
}

/// Nothing that is sanitized leaves its range, whatever came in.
pub proof fn sanitized_stays_in_range(value: Binary64)
    ensures
        is_deflection(sanitized(value, Binary64::of(1).negate(), Binary64::of(1))),
        is_fraction(sanitized(value, Binary64::of(0), Binary64::of(1))),
{
    let zero = Binary64::of(0);
    let one = Binary64::of(1);
    binary64::lemma_of(0);
    binary64::lemma_of(1);
    binary64::lemma_negate(one);
    binary64::lemma_order(value, one.negate());
    binary64::lemma_order(one, value);
    binary64::lemma_order(value, zero);
    lemma_between_is_finite(value);
}

/// A number between minus one and one is finite.
pub proof fn lemma_between_is_finite(x: Binary64)
    ensures
        !x.is_nan() && -Binary64::one() <= x.value() <= Binary64::one() ==> x.is_finite(),
{
    binary64::lemma_of(1);
    if !x.is_nan() && -Binary64::one() <= x.value() <= Binary64::one() {
        binary64::lemma_finite_below(x, Binary64::of(1));
    }
}

/// What the pilot commands. Every input is in its range by construction, and
/// one that was not a number became neutral.
#[derive(Clone, Copy, PartialEq, Eq, Debug, Structural)]
pub struct ControlInputs {
    aileron: Binary64,
    elevator: Binary64,
    rudder: Binary64,
    throttle: Binary64,
    flaps: Binary64,
    brakes: Binary64,
}

impl ControlInputs {
    #[verifier::type_invariant]
    spec fn in_range(self) -> bool {
        &&& is_deflection(self.aileron)
        &&& is_deflection(self.elevator)
        &&& is_deflection(self.rudder)
        &&& is_fraction(self.throttle)
        &&& is_fraction(self.flaps)
        &&& is_fraction(self.brakes)
    }

    pub closed spec fn spec_aileron(self) -> Binary64 {
        self.aileron
    }

    pub closed spec fn spec_elevator(self) -> Binary64 {
        self.elevator
    }

    pub closed spec fn spec_rudder(self) -> Binary64 {
        self.rudder
    }

    pub closed spec fn spec_throttle(self) -> Binary64 {
        self.throttle
    }

    pub closed spec fn spec_flaps(self) -> Binary64 {
        self.flaps
    }

    pub closed spec fn spec_brakes(self) -> Binary64 {
        self.brakes
    }

    /// Every surface centred, throttle closed, brakes off.
    pub fn neutral() -> (r: ControlInputs)
        ensures
            r.aileron() == Binary64::of(0),
            r.elevator() == Binary64::of(0),
            r.rudder() == Binary64::of(0),
            r.throttle() == Binary64::of(0),
            r.flaps() == Binary64::of(0),
            r.brakes() == Binary64::of(0),
    {
        proof {
            binary64::lemma_of(0);
            binary64::lemma_of(1);
        }
        ControlInputs {
            aileron: Binary64::of(0),
            elevator: Binary64::of(0),
            rudder: Binary64::of(0),
            throttle: Binary64::of(0),
            flaps: Binary64::of(0),
            brakes: Binary64::of(0),
        }
    }

    /// The given inputs, each held to its range; brakes off.
    ///
    /// The surfaces range from minus one to one, throttle and flaps from zero
    /// to one.
    pub fn new(
        aileron: Binary64,
        elevator: Binary64,
        rudder: Binary64,
        throttle: Binary64,
        flaps: Binary64,
    ) -> (r: ControlInputs)
        ensures
            r.aileron() == sanitized(aileron, Binary64::of(1).negate(), Binary64::of(1)),
            r.elevator() == sanitized(elevator, Binary64::of(1).negate(), Binary64::of(1)),
            r.rudder() == sanitized(rudder, Binary64::of(1).negate(), Binary64::of(1)),
            r.throttle() == sanitized(throttle, Binary64::of(0), Binary64::of(1)),
            r.flaps() == sanitized(flaps, Binary64::of(0), Binary64::of(1)),
            r.brakes() == Binary64::of(0),
    {
        proof {
            sanitized_stays_in_range(aileron);
            sanitized_stays_in_range(elevator);
            sanitized_stays_in_range(rudder);
            sanitized_stays_in_range(throttle);
            sanitized_stays_in_range(flaps);
            binary64::lemma_of(0);
            binary64::lemma_of(1);
        }
        let zero = Binary64::of(0);
        let one = Binary64::of(1);
        let low = one.negate();
        ControlInputs {
            aileron: sanitize(aileron, low, one),
            elevator: sanitize(elevator, low, one),
            rudder: sanitize(rudder, low, one),
            throttle: sanitize(throttle, zero, one),
            flaps: sanitize(flaps, zero, one),
            brakes: zero,
        }
    }

    /// The same with another aileron.
    pub fn with_aileron(self, value: Binary64) -> (r: ControlInputs)
        ensures
            r.aileron() == sanitized(value, Binary64::of(1).negate(), Binary64::of(1)),
            r.elevator() == self.elevator(),
            r.rudder() == self.rudder(),
            r.throttle() == self.throttle(),
            r.flaps() == self.flaps(),
            r.brakes() == self.brakes(),
    {
        proof {
            use_type_invariant(&self);
            sanitized_stays_in_range(value);
        }
        ControlInputs {
            aileron: sanitize(value, Binary64::of(1).negate(), Binary64::of(1)),
            ..self
        }
    }

    /// The same with another elevator.
    pub fn with_elevator(self, value: Binary64) -> (r: ControlInputs)
        ensures
            r.aileron() == self.aileron(),
            r.elevator() == sanitized(value, Binary64::of(1).negate(), Binary64::of(1)),
            r.rudder() == self.rudder(),
            r.throttle() == self.throttle(),
            r.flaps() == self.flaps(),
            r.brakes() == self.brakes(),
    {
        proof {
            use_type_invariant(&self);
            sanitized_stays_in_range(value);
        }
        ControlInputs {
            elevator: sanitize(value, Binary64::of(1).negate(), Binary64::of(1)),
            ..self
        }
    }

    /// The same with another rudder.
    pub fn with_rudder(self, value: Binary64) -> (r: ControlInputs)
        ensures
            r.aileron() == self.aileron(),
            r.elevator() == self.elevator(),
            r.rudder() == sanitized(value, Binary64::of(1).negate(), Binary64::of(1)),
            r.throttle() == self.throttle(),
            r.flaps() == self.flaps(),
            r.brakes() == self.brakes(),
    {
        proof {
            use_type_invariant(&self);
            sanitized_stays_in_range(value);
        }
        ControlInputs {
            rudder: sanitize(value, Binary64::of(1).negate(), Binary64::of(1)),
            ..self
        }
    }

    /// The same with another throttle.
    pub fn with_throttle(self, value: Binary64) -> (r: ControlInputs)
        ensures
            r.aileron() == self.aileron(),
            r.elevator() == self.elevator(),
            r.rudder() == self.rudder(),
            r.throttle() == sanitized(value, Binary64::of(0), Binary64::of(1)),
            r.flaps() == self.flaps(),
            r.brakes() == self.brakes(),
    {
        proof {
            use_type_invariant(&self);
            sanitized_stays_in_range(value);
        }
        ControlInputs { throttle: sanitize(value, Binary64::of(0), Binary64::of(1)), ..self }
    }

    /// The same with other flaps.
    pub fn with_flaps(self, value: Binary64) -> (r: ControlInputs)
        ensures
            r.aileron() == self.aileron(),
            r.elevator() == self.elevator(),
            r.rudder() == self.rudder(),
            r.throttle() == self.throttle(),
            r.flaps() == sanitized(value, Binary64::of(0), Binary64::of(1)),
            r.brakes() == self.brakes(),
    {
        proof {
            use_type_invariant(&self);
            sanitized_stays_in_range(value);
        }
        ControlInputs { flaps: sanitize(value, Binary64::of(0), Binary64::of(1)), ..self }
    }

    /// The same with other brakes.
    pub fn with_brakes(self, value: Binary64) -> (r: ControlInputs)
        ensures
            r.aileron() == self.aileron(),
            r.elevator() == self.elevator(),
            r.rudder() == self.rudder(),
            r.throttle() == self.throttle(),
            r.flaps() == self.flaps(),
            r.brakes() == sanitized(value, Binary64::of(0), Binary64::of(1)),
    {
        proof {
            use_type_invariant(&self);
            sanitized_stays_in_range(value);
        }
        ControlInputs { brakes: sanitize(value, Binary64::of(0), Binary64::of(1)), ..self }
    }

    /// Roll right.
    #[verifier::when_used_as_spec(spec_aileron)]
    pub fn aileron(self) -> (r: Binary64)
        ensures
            r == self.aileron(),
            is_deflection(r),
    {
        proof {
            use_type_invariant(&self);
        }
        self.aileron
    }

    /// Nose up.
    #[verifier::when_used_as_spec(spec_elevator)]
    pub fn elevator(self) -> (r: Binary64)
        ensures
            r == self.elevator(),
            is_deflection(r),
    {
        proof {
            use_type_invariant(&self);
        }
        self.elevator
    }

    /// Yaw right.
    #[verifier::when_used_as_spec(spec_rudder)]
    pub fn rudder(self) -> (r: Binary64)
        ensures
            r == self.rudder(),
            is_deflection(r),
    {
        proof {
            use_type_invariant(&self);
        }
        self.rudder
    }

    /// Power.
    #[verifier::when_used_as_spec(spec_throttle)]
    pub fn throttle(self) -> (r: Binary64)
        ensures
            r == self.throttle(),
            is_fraction(r),
    {
        proof {
            use_type_invariant(&self);
        }
        self.throttle
    }

    /// How far the flaps are out.
    #[verifier::when_used_as_spec(spec_flaps)]
    pub fn flaps(self) -> (r: Binary64)
        ensures
            r == self.flaps(),
            is_fraction(r),
    {
        proof {
            use_type_invariant(&self);
        }
        self.flaps
    }

    /// How hard the brakes are pressed.
    #[verifier::when_used_as_spec(spec_brakes)]
    pub fn brakes(self) -> (r: Binary64)
        ensures
            r == self.brakes(),
            is_fraction(r),
    {
        proof {
            use_type_invariant(&self);
        }
        self.brakes
    }
}

impl Default for ControlInputs {
    fn default() -> (r: ControlInputs)
        ensures
            r.aileron() == Binary64::of(0),
            r.elevator() == Binary64::of(0),
            r.rudder() == Binary64::of(0),
            r.throttle() == Binary64::of(0),
            r.flaps() == Binary64::of(0),
            r.brakes() == Binary64::of(0),
    {
        ControlInputs::neutral()
    }
}

} // verus!
