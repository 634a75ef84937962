//! Control axes driven by keys or by an analogue position.
use crate::binary64;
use crate::binary64::Binary64;
use crate::fdm::controls;
use vstd::prelude::*;

verus! {

/// One, minus one or zero for the keys held; both cancel out.
pub open spec fn direction_spec(positive: bool, negative: bool) -> Binary64 {
    if positive == negative {
        Binary64::of(0)
    } else if positive {
        Binary64::of(1)
    } else {
        Binary64::of(1).negate()
    }
}

fn direction(positive: bool, negative: bool) -> (r: Binary64)
    ensures
        r == direction_spec(positive, negative),
{
    if positive == negative {
        Binary64::of(0)
    } else if positive {
        Binary64::of(1)
    } else {
        Binary64::of(1).negate()
    }
}

/// `value` held from minus one to one, zero where it is not a number.
pub open spec fn deflection(value: Binary64) -> Binary64 {
    controls::sanitized(value, Binary64::of(1).negate(), Binary64::of(1))
}

/// `value` held from zero to one, zero where it is not a number.
pub open spec fn fraction(value: Binary64) -> Binary64 {
    controls::sanitized(value, Binary64::of(0), Binary64::of(1))
}

/// `value` held from minus one to one, zero where it is not a number.
pub fn sanitise(value: Binary64) -> (r: Binary64)
    ensures
        r == deflection(value),
{
    controls::sanitize(value, Binary64::of(1).negate(), Binary64::of(1))
}

fn sanitise_fraction(value: Binary64) -> (r: Binary64)
    ensures
        r == fraction(value),
{
    controls::sanitize(value, Binary64::of(0), Binary64::of(1))
}

/// One control axis that moves while a key is held and returns to neutral.
#[derive(Clone, Copy, PartialEq, Eq, Debug, Structural)]
pub struct AxisState {
    value: Binary64,
    rate: Binary64,
    centering_rate: Binary64,
}

/// Where the axis goes while one key is held.
pub open spec fn axis_moved(value: Binary64, rate: Binary64, dt: Binary64, toward: Binary64) -> Binary64 {
    deflection(value + toward * (rate * dt))
}

/// Where the axis goes with no key held, or both: toward neutral, and onto it
/// where the step would reach it.
pub open spec fn axis_centred(value: Binary64, centering_rate: Binary64, dt: Binary64) -> Binary64 {
    let centering = centering_rate * dt;
    if value.abs() <= centering {
        Binary64::of(0)
    } else {
        value - value.signum() * centering
    }
}

impl AxisState {
    pub closed spec fn spec_value(self) -> Binary64 {
        self.value
    }

    pub closed spec fn spec_rate(self) -> Binary64 {
        self.rate
    }

    pub closed spec fn spec_centering_rate(self) -> Binary64 {
        self.centering_rate
    }

    /// The axis with another deflection.
    pub closed spec fn at(self, value: Binary64) -> AxisState {
        AxisState { value, ..self }
    }

    /// The axis after `dt` seconds with the keys as they are held.
    pub open spec fn keyed(self, dt: Binary64, positive: bool, negative: bool) -> AxisState {
        self.at(
            if positive != negative {
                axis_moved(self.value(), self.rate(), dt, direction_spec(positive, negative))
            } else {
                axis_centred(self.value(), self.centering_rate(), dt)
            },
        )
    }

    /// A centred axis. A rate of zero would never move it.
    pub fn new(rate: Binary64, centering_rate: Binary64) -> (r: AxisState)
        requires
            rate.is_finite(),
            rate > Binary64::of(0),
            centering_rate.is_finite(),
            centering_rate >= Binary64::of(0),
        ensures
            r.value() == Binary64::of(0),
            r.rate() == rate,
            r.centering_rate() == centering_rate,
    {
        AxisState { value: Binary64::of(0), rate, centering_rate }
    }

    /// A control surface: quick to deflect, a little slower to return.
    pub fn control_surface() -> (r: AxisState)
        ensures
            r.value() == Binary64::of(0),
            r.rate() == Binary64::ratio(5, 2),
            r.centering_rate() == Binary64::ratio(9, 5),
    {
        proof {
            binary64::lemma_of(0);
            binary64::lemma_ratio_positive(5, 2);
            binary64::lemma_ratio_positive(9, 5);
            binary64::lemma_order(Binary64::of(0), Binary64::ratio(5, 2));
            binary64::lemma_order(Binary64::of(0), Binary64::ratio(9, 5));
        }
        AxisState::new(Binary64::ratio(5, 2), Binary64::ratio(9, 5))
    }

    /// The deflection.
    #[verifier::when_used_as_spec(spec_value)]
    pub fn value(self) -> (r: Binary64)
        ensures
            r == self.value(),
    {
        self.value
    }

    /// How far the axis moves in a second while a key is held.
    #[verifier::when_used_as_spec(spec_rate)]
    pub fn rate(self) -> (r: Binary64)
        ensures
            r == self.rate(),
    {
        self.rate
    }

    /// How far the axis returns in a second with no key held.
    #[verifier::when_used_as_spec(spec_centering_rate)]
    pub fn centering_rate(self) -> (r: Binary64)
        ensures
            r == self.centering_rate(),
    {
        self.centering_rate
    }

    /// Takes an analogue position as it is.
    pub fn set_absolute(&mut self, value: Binary64)
        ensures
            *final(self) == old(self).at(deflection(value)),
            final(self).value() == deflection(value),
            final(self).rate() == old(self).rate(),
            final(self).centering_rate() == old(self).centering_rate(),
    {
        self.value = sanitise(value);
    }

    /// Advances by `dt` seconds with the keys as they are held.
    pub fn update(&mut self, dt: Binary64, positive: bool, negative: bool)
        ensures
            *final(self) == old(self).keyed(dt, positive, negative),
            final(self).value() == if positive != negative {
                axis_moved(
                    old(self).value(),
                    old(self).rate(),
                    dt,
                    direction_spec(positive, negative),
                )
            } else {
                axis_centred(old(self).value(), old(self).centering_rate(), dt)
            },
            final(self).rate() == old(self).rate(),
            final(self).centering_rate() == old(self).centering_rate(),
    {
        let step = self.rate * dt;
        if positive != negative {
            self.value = sanitise(self.value + direction(positive, negative) * step);
            return;
        }
        let centering = self.centering_rate * dt;
        self.value =
        if self.value.abs().le(centering) {
            Binary64::of(0)
        } else {
            self.value - self.value.signum() * centering
        };
    }
}

/// A held key keeps the surface within full deflection, whatever the frame
/// time.
pub proof fn a_moved_axis_stays_in_range(
    value: Binary64,
    rate: Binary64,
    dt: Binary64,
    toward: Binary64,
)
    ensures
        controls::is_deflection(axis_moved(value, rate, dt, toward)),
{
    controls::sanitized_stays_in_range(value + toward * (rate * dt));
}

/// Centering never carries the surface past neutral, and never away from it.
pub proof fn centering_never_overshoots(value: Binary64, centering_rate: Binary64, dt: Binary64)
    requires
        controls::is_deflection(value),
        (centering_rate * dt) >= Binary64::of(0),
    ensures
        controls::is_deflection(axis_centred(value, centering_rate, dt)),
        value.value() >= 0 ==> 0 <= axis_centred(value, centering_rate, dt).value()
            <= value.value(),
        value.value() <= 0 ==> value.value() <= axis_centred(value, centering_rate, dt).value()
            <= 0,
{
    let centering = centering_rate * dt;
    let one = Binary64::of(1);
    let zero = Binary64::of(0);
    let next = axis_centred(value, centering_rate, dt);
    binary64::lemma_of(0);
    binary64::lemma_of(1);
    binary64::lemma_negate(one);
    binary64::lemma_abs(value);
    binary64::lemma_order(zero, centering);
    binary64::lemma_order(value.abs(), centering);
    if !(value.abs() <= centering) {
        assert(centering.is_finite()) by {
            binary64::lemma_finite_below(centering, value.abs());
        }
        let sign = value.signum();
        let pull = sign * centering;
        assert(pull.is_finite() && pull.value() == if value.value() > 0 {
            centering.value()
        } else {
            -centering.value()
        }) by {
            binary64::lemma_signum(value);
            binary64::lemma_unit_factor(value.signum(), centering);
        }
        binary64::lemma_negate(pull);
        binary64::lemma_add(value, pull.negate());
        let exact = value.value() + pull.negate().value();
        binary64::lemma_round_exact(value, 1);
        binary64::lemma_round_exact(zero, 1);
        if value.value() > 0 {
            binary64::lemma_round_monotone(0, exact, 1);
            binary64::lemma_round_monotone(exact, value.value(), 1);
        } else {
            binary64::lemma_round_monotone(value.value(), exact, 1);
            binary64::lemma_round_monotone(exact, 0, 1);
        }
        controls::lemma_between_is_finite(next);
    }
}

/// An axis that only ever rises and falls: throttle or flaps.
#[derive(Clone, Copy, PartialEq, Eq, Debug, Structural)]
pub struct RampAxis {
    value: Binary64,
    rate: Binary64,
}

impl RampAxis {
    pub closed spec fn spec_value(self) -> Binary64 {
        self.value
    }

    pub closed spec fn spec_rate(self) -> Binary64 {
        self.rate
    }

    /// The axis at another position.
    pub closed spec fn at(self, value: Binary64) -> RampAxis {
        RampAxis { value, ..self }
    }

    /// The axis after `dt` seconds with the keys as they are held.
    pub open spec fn keyed(self, dt: Binary64, increase: bool, decrease: bool) -> RampAxis {
        self.at(ramp_moved(self.value(), self.rate(), dt, direction_spec(increase, decrease)))
    }

    /// The axis after `dt` seconds at a fraction of its rate.
    pub open spec fn pulled(self, dt: Binary64, rate_fraction: Binary64) -> RampAxis {
        self.at(fraction(self.value() + (self.rate() * dt) * deflection(rate_fraction)))
    }

    /// An axis at `initial`, held from zero to one.
    pub fn new(initial: Binary64, rate: Binary64) -> (r: RampAxis)
        requires
            rate.is_finite(),
            rate > Binary64::of(0),
        ensures
            r.value() == initial.clamp(Binary64::of(0), Binary64::of(1)),
            r.rate() == rate,
    {
        RampAxis { value: initial.clamp(Binary64::of(0), Binary64::of(1)), rate }
    }

    /// The position.
    #[verifier::when_used_as_spec(spec_value)]
    pub fn value(self) -> (r: Binary64)
        ensures
            r == self.value(),
    {
        self.value
    }

    /// How far the axis moves in a second.
    #[verifier::when_used_as_spec(spec_rate)]
    pub fn rate(self) -> (r: Binary64)
        ensures
            r == self.rate(),
    {
        self.rate
    }

    /// Puts the axis where it is told.
    pub fn set_absolute(&mut self, value: Binary64)
        ensures
            *final(self) == old(self).at(fraction(value)),
            final(self).value() == fraction(value),
            final(self).rate() == old(self).rate(),
    {
        self.value = sanitise_fraction(value);
    }

    /// Advances by `dt` seconds with the keys as they are held.
    pub fn update(&mut self, dt: Binary64, increase: bool, decrease: bool)
        ensures
            *final(self) == old(self).keyed(dt, increase, decrease),
            final(self).value() == ramp_moved(
                old(self).value(),
                old(self).rate(),
                dt,
                direction_spec(increase, decrease),
            ),
            final(self).rate() == old(self).rate(),
    {
        let step = self.rate * dt;
        let next = self.value + direction(increase, decrease) * step;
        self.value = sanitise_fraction(next);
    }

    /// Advances by `dt` seconds at a fraction of the rate, from minus one to
    /// one. At zero the position is held: the lever stays where it was left.
    pub fn update_analog(&mut self, dt: Binary64, rate_fraction: Binary64)
        ensures
            *final(self) == old(self).pulled(dt, rate_fraction),
            final(self).value() == fraction(
                old(self).value() + (old(self).rate() * dt) * deflection(rate_fraction),
            ),
            final(self).rate() == old(self).rate(),
    {
        let pull = sanitise(rate_fraction);
        let next = self.value + (self.rate * dt) * pull;
        self.value = sanitise_fraction(next);
    }
}

/// Where the ramp goes in `dt` seconds.
pub open spec fn ramp_moved(value: Binary64, rate: Binary64, dt: Binary64, toward: Binary64) -> Binary64 {
    fraction(value + toward * (rate * dt))
}

/// A ramp never leaves its range, whatever the frame time.
pub proof fn a_ramp_stays_in_range(
    value: Binary64,
    rate: Binary64,
    dt: Binary64,
    toward: Binary64,
)
    ensures
        controls::is_fraction(ramp_moved(value, rate, dt, toward)),
{
    controls::sanitized_stays_in_range(value + toward * (rate * dt));
}

/// With no key held, or both, a ramp stays where it was left.
pub proof fn a_released_ramp_holds(value: Binary64, rate: Binary64, dt: Binary64, held: bool)
    requires
        controls::is_fraction(value),
        (rate * dt).is_finite(),
    ensures
        ramp_moved(value, rate, dt, direction_spec(held, held)).same(value),
{
    let zero = Binary64::of(0);
    let one = Binary64::of(1);
    let step = rate * dt;
    let moved = value + zero * step;
    binary64::lemma_of(0);
    binary64::lemma_of(1);
    binary64::lemma_zero_factor(zero, step);
    binary64::lemma_add(value, zero * step);
    binary64::lemma_order(value, value);
    binary64::lemma_round_exact(value, 1);
    binary64::lemma_order(moved, zero);
    binary64::lemma_order(one, moved);
    binary64::lemma_order(moved, value);
    binary64::lemma_order(zero, value);
    binary64::lemma_order(one, value);
}

/// The elevator trim: an offset that does not return to neutral, and so sets
/// the speed at which the aircraft flies hands off.
#[derive(Clone, Copy, PartialEq, Eq, Debug, Structural)]
pub struct ElevatorTrim {
    value: Binary64,
    rate: Binary64,
}

impl ElevatorTrim {
    pub closed spec fn spec_value(self) -> Binary64 {
        self.value
    }

    pub closed spec fn spec_rate(self) -> Binary64 {
        self.rate
    }

    /// The trim at another setting.
    pub closed spec fn at(self, value: Binary64) -> ElevatorTrim {
        ElevatorTrim { value, ..self }
    }

    /// The trim after `dt` seconds with the keys as they are held.
    pub open spec fn keyed(self, dt: Binary64, nose_up: bool, nose_down: bool) -> ElevatorTrim {
        if nose_up != nose_down {
            self.at(
                deflection(
                    self.value() + (direction_spec(nose_up, nose_down) * self.rate()) * dt,
                ),
            )
        } else {
            self
        }
    }

    #[verifier::type_invariant]
    spec fn in_range(self) -> bool {
        controls::is_deflection(self.value)
    }

    /// A trim at `initial`, held to its range.
    pub fn new(initial: Binary64, rate: Binary64) -> (r: ElevatorTrim)
        requires
            rate.is_finite(),
            rate >= Binary64::of(0),
        ensures
            r.value() == deflection(initial),
            r.rate() == rate,
    {
        proof {
            controls::sanitized_stays_in_range(initial);
        }
        ElevatorTrim { value: sanitise(initial), rate }
    }

    /// The trim.
    #[verifier::when_used_as_spec(spec_value)]
    pub fn value(self) -> (r: Binary64)
        ensures
            r == self.value(),
            controls::is_deflection(r),
    {
        proof {
            use_type_invariant(&self);
        }
        self.value
    }

    /// How far a key moves the trim in a second.
    #[verifier::when_used_as_spec(spec_rate)]
    pub fn rate(self) -> (r: Binary64)
        ensures
            r == self.rate(),
    {
        self.rate
    }

    /// Puts the trim where it is told.
    pub fn set(&mut self, value: Binary64)
        ensures
            *final(self) == old(self).at(deflection(value)),
            final(self).value() == deflection(value),
            final(self).rate() == old(self).rate(),
    {
        proof {
            controls::sanitized_stays_in_range(value);
        }
        let next = sanitise(value);
        self.value = next;
    }

    /// Moves the trim by `dt` seconds of key; without one, or with both, it
    /// stays exactly where it is.
    pub fn update(&mut self, dt: Binary64, nose_up: bool, nose_down: bool)
        ensures
            *final(self) == old(self).keyed(dt, nose_up, nose_down),
            final(self).value() == if nose_up != nose_down {
                deflection(
                    old(self).value() + (direction_spec(nose_up, nose_down) * old(self).rate())
                        * dt,
                )
            } else {
                old(self).value()
            },
            final(self).rate() == old(self).rate(),
    {
        if nose_up != nose_down {
            let moved = self.value + (direction(nose_up, nose_down) * self.rate) * dt;
            proof {
                controls::sanitized_stays_in_range(moved);
            }
            let next = sanitise(moved);
            self.value = next;
        }
    }
}

impl Default for ElevatorTrim {
    /// Nose up enough to hold the climb-out speed with the stick released.
    fn default() -> (r: ElevatorTrim)
        ensures
            r.value() == deflection(Binary64::ratio(9, 100)),
            r.rate() == Binary64::ratio(12, 100),
    {
        proof {
            binary64::lemma_of(0);
            binary64::lemma_ratio_positive(12, 100);
            binary64::lemma_order(Binary64::of(0), Binary64::ratio(12, 100));
        }
        ElevatorTrim::new(Binary64::ratio(9, 100), Binary64::ratio(12, 100))
    }
}

/// An axis put at a deflection is there, and moves as before.
pub proof fn an_axis_is_where_it_was_put(axis: AxisState, value: Binary64)
    ensures
        axis.at(value).value() == value,
        axis.at(value).rate() == axis.rate(),
        axis.at(value).centering_rate() == axis.centering_rate(),
        axis.at(axis.value()) == axis,
{
}

/// A ramp put at a position is there, and moves as before.
pub proof fn a_ramp_is_where_it_was_put(axis: RampAxis, value: Binary64)
    ensures
        axis.at(value).value() == value,
        axis.at(value).rate() == axis.rate(),
        axis.at(axis.value()) == axis,
{
}

/// A trim put at a setting is there, and moves as before.
pub proof fn a_trim_is_where_it_was_put(trim: ElevatorTrim, value: Binary64)
    ensures
        trim.at(value).value() == value,
        trim.at(value).rate() == trim.rate(),
        trim.at(trim.value()) == trim,
{
}

} // verus!
