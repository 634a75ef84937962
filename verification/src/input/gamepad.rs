//! From a gamepad's raw readings to stick deflections.
//!
//! A stick's position is the deflection itself, unlike a key. An axis that is
//! not touched leaves the keyboard in charge of it.
use crate::binary32::Binary32;
use crate::binary64;
use crate::binary64::Binary64;
use crate::fdm::controls;
use crate::fold;
use crate::input::axis;
use crate::norm;
use crate::number;
use crate::rounding::Format;
use crate::sign;
use vstd::arithmetic::power2::*;
use vstd::prelude::*;

verus! {

/// The dead zone and response of one axis.
#[derive(Clone, Copy, PartialEq, Eq, Debug, Structural)]
pub struct AxisCurve {
    /// Readings up to this size count as none.
    pub deadzone: Binary64,
    /// The exponent applied to the travel beyond the dead zone: one is linear,
    /// more is gentler around the centre.
    pub response: Binary64,
    /// Whether the axis is reversed.
    pub invert: bool,
}

impl Default for AxisCurve {
    /// A dead zone of a tenth, linear, not reversed.
    fn default() -> (r: AxisCurve)
        ensures
            r == AxisCurve::default_spec(),
    {
        AxisCurve { deadzone: Binary64::ratio(1, 10), response: Binary64::of(1), invert: false }
    }
}

impl AxisCurve {
    pub open spec fn default_spec() -> AxisCurve {
        AxisCurve { deadzone: Binary64::ratio(1, 10), response: Binary64::of(1), invert: false }
    }

    /// A curve. With a dead zone of one there would be no travel left.
    pub fn new(deadzone: Binary64, response: Binary64, invert: bool) -> (r: AxisCurve)
        requires
            deadzone.is_finite(),
            Binary64::of(0) <= deadzone,
            deadzone < Binary64::of(1),
            response.is_finite(),
            response > Binary64::of(0),
        ensures
            r == (AxisCurve { deadzone, response, invert }),
    {
        AxisCurve { deadzone, response, invert }
    }

    /// How much of the travel beyond the dead zone a reading takes up, from
    /// zero to one; none inside the dead zone.
    pub open spec fn spec_travel(self, raw: Binary64) -> Option<Binary64> {
        let size = axis::deflection(raw).abs();
        if size <= self.deadzone {
            None
        } else {
            Some(
                (size - self.deadzone) / (Binary64::of(1) - self.deadzone).max(
                    Binary64::ratio(1, 0x10000000000000),
                ),
            )
        }
    }

    /// The deflection for a reading, `powered` being its travel raised to the
    /// response.
    pub open spec fn spec_apply(self, raw: Binary64, powered: Binary64) -> Binary64 {
        let held = axis::deflection(raw);
        let shaped = if held.abs() <= self.deadzone {
            Binary64::of(0)
        } else {
            powered
        };
        let signed = if held < Binary64::of(0) {
            shaped.negate()
        } else {
            shaped
        };
        if self.invert {
            signed.negate()
        } else {
            signed
        }
    }

    /// How much of the travel beyond the dead zone a reading takes up. The
    /// travel starts from nothing at the edge of the dead zone, so the
    /// deflection does not jump there.
    #[verifier::when_used_as_spec(spec_travel)]
    pub fn travel(self, raw: Binary64) -> (r: Option<Binary64>)
        ensures
            r == self.travel(raw),
    {
        let size = axis::sanitise(raw).abs();
        if size.le(self.deadzone) {
            None
        } else {
            let travel = (Binary64::of(1) - self.deadzone).max(
                Binary64::ratio(1, 0x10000000000000),
            );
            Some((size - self.deadzone) / travel)
        }
    }

    /// The deflection for a reading, `powered` being its travel raised to the
    /// response.
    #[verifier::when_used_as_spec(spec_apply)]
    pub fn apply(self, raw: Binary64, powered: Binary64) -> (r: Binary64)
        ensures
            r == self.apply(raw, powered),
    {
        let held = axis::sanitise(raw);
        let shaped = if held.abs().le(self.deadzone) {
            Binary64::of(0)
        } else {
            powered
        };
        let signed = if held.lt(Binary64::of(0)) {
            shaped.negate()
        } else {
            shaped
        };
        if self.invert {
            signed.negate()
        } else {
            signed
        }
    }
}

/// Full deflection uses the whole travel: its power is one for every response.
pub proof fn full_deflection_is_full_travel(curve: AxisCurve, raw: Binary64)
    requires
        Binary64::of(0) <= curve.deadzone,
        curve.deadzone < Binary64::of(1),
        !raw.is_nan(),
        raw.value() >= Binary64::one() || raw.value() <= -Binary64::one(),
        (Binary64::of(1) - curve.deadzone) >= Binary64::ratio(1, 0x10000000000000),
    ensures
        curve.travel(raw) is Some,
        curve.travel(raw)->0.same(Binary64::of(1)),
{
    let one = Binary64::of(1);
    let zero = Binary64::of(0);
    let held = axis::deflection(raw);
    let size = held.abs();
    let dead = curve.deadzone;
    binary64::lemma_of(0);
    binary64::lemma_of(1);
    binary64::lemma_negate(one);
    binary64::lemma_order(raw, one.negate());
    binary64::lemma_order(one, raw);
    binary64::lemma_order(one, one);
    binary64::lemma_abs(one);
    binary64::lemma_abs(one.negate());
    assert(size == one) by {
        reveal(Binary64::spec_abs);
        reveal(Binary64::spec_negate);
        lemma_unit_size(raw);
    }
    binary64::lemma_order(zero, dead);
    binary64::lemma_order(dead, one);
    binary64::lemma_order(size, dead);
    let span = one - dead;
    let least = Binary64::ratio(1, 0x10000000000000);
    binary64::lemma_order(least, span);
    binary64::lemma_order(span, least);
    assert(span.max(least) == span);
    binary64::lemma_negate(dead);
    controls::lemma_between_is_finite(dead);
    binary64::lemma_add(one, dead.negate());
    let exact = one.value() - dead.value();
    binary64::lemma_round_exact(one, 1);
    binary64::lemma_round_monotone(exact, one.value(), 1);
    binary64::lemma_ratio_positive(1, 0x10000000000000);
    controls::lemma_between_is_finite(span);
    binary64::lemma_div(span, span);
    binary64::lemma_round_exact(one, span.value() as nat);
    binary64::lemma_order(span / span, one);
    assert(span.value() * Binary64::one() == one.value() * span.value()) by (nonlinear_arith)
        requires
            one.value() == Binary64::one(),
    ;
}

/// A reading at or past full scale is held to a deflection of one.
proof fn lemma_unit_size(raw: Binary64)
    requires
        !raw.is_nan(),
        raw.value() >= Binary64::one() || raw.value() <= -Binary64::one(),
    ensures
        axis::deflection(raw).abs() == Binary64::of(1),
{
    let one = Binary64::of(1);
    reveal(Binary64::spec_abs);
    reveal(Binary64::spec_negate);
    binary64::lemma_of(1);
    binary64::lemma_negate(one);
    binary64::lemma_order(raw, one.negate());
    binary64::lemma_order(one, raw);
    binary64::lemma_order(raw, one);
    binary64::lemma_positive_sign(one);
    if raw.value() == Binary64::one() || raw.value() == -Binary64::one() {
        binary64::lemma_abs(raw);
        binary64::lemma_value_determines(raw.abs(), one);
    }
}

/// The size of a held reading is a share of full deflection.
proof fn lemma_held_size(raw: Binary64)
    ensures
        axis::deflection(raw).is_finite(),
        axis::deflection(raw).abs().is_finite(),
        0 <= axis::deflection(raw).abs().value() <= Binary64::one(),
{
    controls::sanitized_stays_in_range(raw);
    binary64::lemma_abs(axis::deflection(raw));
}

/// What lies beyond the dead zone, before it is divided by what is left of the
/// travel.
proof fn lemma_beyond(dead: Binary64, size: Binary64)
    requires
        dead.is_finite(),
        size.is_finite(),
        0 <= dead.value() < size.value() <= Binary64::one(),
    ensures
        (size - dead).is_finite(),
        0 <= (size - dead).value() <= (Binary64::of(1) - dead).value(),
        (Binary64::of(1) - dead).is_finite(),
        !(Binary64::of(1) - dead).is_nan(),
{
    let one = Binary64::of(1);
    let zero = Binary64::of(0);
    binary64::lemma_of(0);
    binary64::lemma_of(1);
    binary64::lemma_negate(dead);
    assert(size - dead == size + dead.negate());
    assert(one - dead == one + dead.negate());
    binary64::lemma_sum_between(size, dead.negate(), zero, one);
    binary64::lemma_sum_between(one, dead.negate(), zero, one);
    binary64::lemma_add(size, dead.negate());
    binary64::lemma_add(one, dead.negate());
    binary64::lemma_round_monotone(size.value() - dead.value(), one.value() - dead.value(), 1);
}

/// The span that the travel is divided by is above zero and no less than what
/// lies beyond the dead zone.
proof fn lemma_span(rest: Binary64)
    requires
        rest.is_finite(),
    ensures
        ({
            let span = rest.max(Binary64::ratio(1, 0x10000000000000));
            span.is_finite() && span.value() > 0 && span.value() >= rest.value()
        }),
{
    let least = Binary64::ratio(1, 0x10000000000000);
    binary64::lemma_ratio_share(1, 0x10000000000000);
    binary64::lemma_ratio_positive(1, 0x10000000000000);
    binary64::lemma_order(rest, least);
}

/// However the stick stands, it takes up a share of the travel.
pub proof fn the_travel_is_a_share(curve: AxisCurve, raw: Binary64)
    requires
        Binary64::of(0) <= curve.deadzone,
        curve.deadzone < Binary64::of(1),
    ensures
        curve.travel(raw) is Some ==> controls::is_fraction(curve.travel(raw)->0),
{
    let one = Binary64::of(1);
    let zero = Binary64::of(0);
    let o = Binary64::one();
    let dead = curve.deadzone;
    let size = axis::deflection(raw).abs();
    binary64::lemma_of(0);
    binary64::lemma_of(1);
    binary64::lemma_order(zero, dead);
    binary64::lemma_order(dead, one);
    binary64::lemma_order(size, dead);
    controls::lemma_between_is_finite(dead);
    lemma_held_size(raw);
    if curve.travel(raw) is Some {
        lemma_beyond(dead, size);
        lemma_span(one - dead);
        let part = size - dead;
        let span = (one - dead).max(Binary64::ratio(1, 0x10000000000000));
        assert(0 * span.value() <= part.value() * o <= o * span.value()) by (nonlinear_arith)
            requires
                0 <= part.value() <= span.value(),
                o > 0,
        ;
        binary64::lemma_quotient_between(part, span, zero, one);
    }
}

/// A difference is rounded to no more than twice of it.
proof fn lemma_difference_at_most_twice(a: Binary64, b: Binary64)
    requires
        a.is_finite(),
        b.is_finite(),
        b.value() < a.value() <= b.value() + Binary64::one(),
    ensures
        (a - b).value() <= 2 * (a.value() - b.value()),
{
    let f = Format::Double;
    let n = (a.value() - b.value()) as nat;
    binary64::lemma_negate(b);
    assert(a - b == a + b.negate());
    binary64::lemma_add(a, b.negate());
    number::lemma_constants(f);
    lemma2_to64();
    if n == 1 {
        assert(1 * pow2(0) == 1);
        lemma_pow2_strictly_increases(0, 2098);
        fold::lemma_on_scale(f, 1, 0);
    } else {
        lemma_pow2_strictly_increases(1074, 2097);
        assert(1 * pow2(2097) == pow2(2097));
        norm::lemma_rounding(n, 1);
        assert(f.round(n, 1) * 1 == f.round(n, 1));
    }
}

/// There is no jump at the edge of the dead zone: the travel is as near to
/// nothing as one likes, `least` being how near, for a reading that is beyond
/// the edge by half that share of the span or less. So is the deflection, where
/// raising the travel to the response makes it no more, and whatever it is raised
/// to, the deflection is that.
pub proof fn the_deflection_starts_from_nothing(
    curve: AxisCurve,
    raw: Binary64,
    powered: Binary64,
    least: Binary64,
)
    requires
        Binary64::of(0) <= curve.deadzone,
        curve.deadzone < Binary64::of(1),
        least.is_finite(),
        least.value() >= 0,
        ({
            let span = (Binary64::of(1) - curve.deadzone).max(
                Binary64::ratio(1, 0x10000000000000),
            );
            let beyond = axis::deflection(raw).abs().value() - curve.deadzone.value();
            2 * (beyond * Binary64::one()) <= least.value() * span.value()
        }),
        powered.is_finite(),
        powered.value() >= 0,
    ensures
        curve.travel(raw) matches Some(travel) ==> {
            &&& 0 <= travel.value() <= least.value()
            &&& number::magnitude_of(curve.apply(raw, powered).value()) == powered.value()
            &&& powered.value() <= travel.value() ==> number::magnitude_of(
                curve.apply(raw, powered).value(),
            ) <= least.value()
        },
        curve.travel(raw) is None ==> curve.apply(raw, powered).value() == 0,
{
    let one = Binary64::of(1);
    let zero = Binary64::of(0);
    let o = Binary64::one() as int;
    let dead = curve.deadzone;
    let held = axis::deflection(raw);
    let size = held.abs();
    binary64::lemma_of(0);
    binary64::lemma_of(1);
    binary64::lemma_negate(zero);
    binary64::lemma_negate(zero.negate());
    binary64::lemma_negate(powered);
    binary64::lemma_negate(powered.negate());
    binary64::lemma_order(zero, dead);
    binary64::lemma_order(dead, one);
    binary64::lemma_order(size, dead);
    controls::lemma_between_is_finite(dead);
    lemma_held_size(raw);
    if curve.travel(raw) is Some {
        lemma_beyond(dead, size);
        lemma_span(one - dead);
        lemma_difference_at_most_twice(size, dead);
        let part = size - dead;
        let span = (one - dead).max(Binary64::ratio(1, 0x10000000000000));
        let n = size.value() - dead.value();
        assert(0 * span.value() <= part.value() * o <= least.value() * span.value())
            by (nonlinear_arith)
            requires
                0 <= part.value() <= 2 * n,
                2 * (n * o) <= least.value() * span.value(),
                o > 0,
        ;
        binary64::lemma_quotient_between(part, span, zero, least);
    }
}

/// Pushing further never gives less travel, and the travel begins at the edge
/// of the dead zone.
pub proof fn more_deflection_is_no_less_travel(curve: AxisCurve, less: Binary64, more: Binary64)
    requires
        Binary64::of(0) <= curve.deadzone,
        curve.deadzone < Binary64::of(1),
        axis::deflection(less).abs() <= axis::deflection(more).abs(),
        curve.travel(less) is Some,
    ensures
        curve.travel(more) is Some,
        curve.travel(less)->0 <= curve.travel(more)->0,
{
    let one = Binary64::of(1);
    let zero = Binary64::of(0);
    let o = Binary64::one() as int;
    let dead = curve.deadzone;
    let a = axis::deflection(less).abs();
    let b = axis::deflection(more).abs();
    binary64::lemma_of(0);
    binary64::lemma_of(1);
    binary64::lemma_order(zero, dead);
    binary64::lemma_order(dead, one);
    binary64::lemma_order(a, dead);
    binary64::lemma_order(b, dead);
    binary64::lemma_order(a, b);
    controls::lemma_between_is_finite(dead);
    lemma_held_size(less);
    lemma_held_size(more);
    lemma_beyond(dead, a);
    lemma_beyond(dead, b);
    lemma_span(one - dead);
    let (p, q) = (a - dead, b - dead);
    let span = (one - dead).max(Binary64::ratio(1, 0x10000000000000));
    binary64::lemma_negate(dead);
    assert(p == a + dead.negate() && q == b + dead.negate());
    binary64::lemma_add(a, dead.negate());
    binary64::lemma_add(b, dead.negate());
    binary64::lemma_round_monotone(a.value() - dead.value(), b.value() - dead.value(), 1);
    binary64::lemma_div(p, span);
    binary64::lemma_div(q, span);
    assert(p.value() * o <= q.value() * o) by (nonlinear_arith)
        requires
            p.value() <= q.value(),
            o > 0,
    ;
    binary64::lemma_round_monotone(p.value() * o, q.value() * o, span.value() as nat);
    binary64::lemma_order(p / span, q / span);
}

/// Whatever a stick reports, the deflection stays in range, as long as the
/// power of its travel is a share.
pub proof fn a_curve_stays_in_range(curve: AxisCurve, raw: Binary64, powered: Binary64)
    requires
        controls::is_fraction(powered),
    ensures
        controls::is_deflection(curve.apply(raw, powered)),
{
    binary64::lemma_of(0);
    binary64::lemma_negate(Binary64::of(0));
    binary64::lemma_negate(powered);
    binary64::lemma_negate(Binary64::of(0).negate());
    binary64::lemma_negate(powered.negate());
}

/// A reversed axis gives the opposite deflection.
pub proof fn reversing_gives_the_opposite(curve: AxisCurve, raw: Binary64, powered: Binary64)
    ensures
        (AxisCurve { invert: !curve.invert, ..curve }).apply(raw, powered) == curve.apply(
            raw,
            powered,
        ).negate(),
{
    let held = axis::deflection(raw);
    let shaped = if held.abs() <= curve.deadzone {
        Binary64::of(0)
    } else {
        powered
    };
    binary64::lemma_negate(shaped);
    binary64::lemma_negate(shaped.negate());
}

/// A stick within the dead zone counts as let go.
pub proof fn a_stick_in_the_dead_zone_is_at_rest(
    curve: AxisCurve,
    raw: Binary64,
    powered: Binary64,
)
    requires
        axis::deflection(raw).abs() <= curve.deadzone,
    ensures
        curve.travel(raw) is None,
        curve.apply(raw, powered).value() == 0,
{
    binary64::lemma_of(0);
    binary64::lemma_negate(Binary64::of(0));
    binary64::lemma_negate(Binary64::of(0).negate());
}

/// What a reading and its opposite are held to.
proof fn lemma_held_opposite(raw: Binary64)
    ensures
        axis::deflection(raw.negate()).value() == -axis::deflection(raw).value(),
        axis::deflection(raw.negate()).abs() == axis::deflection(raw).abs(),
        axis::deflection(raw).is_finite(),
        axis::deflection(raw.negate()).is_finite(),
{
    let (zero, one) = (Binary64::of(0), Binary64::of(1));
    binary64::lemma_of(0);
    binary64::lemma_of(1);
    binary64::lemma_negate(raw);
    binary64::lemma_negate(one);
    binary64::lemma_order(zero, zero);
    binary64::lemma_order(one, one);
    binary64::lemma_order(raw, one.negate());
    binary64::lemma_order(one, raw);
    binary64::lemma_order(raw.negate(), one.negate());
    binary64::lemma_order(one, raw.negate());
    binary64::lemma_abs(raw);
    binary64::lemma_abs(one);
    let (a, b) = (axis::deflection(raw), axis::deflection(raw.negate()));
    controls::sanitized_stays_in_range(raw);
    controls::sanitized_stays_in_range(raw.negate());
    if !raw.is_nan() {
        sign::lemma_opposite_negated(raw);
        sign::lemma_opposite_negated(one);
        sign::lemma_opposite(one, one.negate());
        assert(sign::opposite(a, b));
        sign::lemma_opposite(a, b);
        assert(!a.is_nan()) by {
            binary64::lemma_order(a, a);
        }
    }
}

/// A stick pushed the other way by as much gives the opposite deflection.
pub proof fn a_curve_is_the_same_both_ways(curve: AxisCurve, raw: Binary64, powered: Binary64)
    requires
        Binary64::of(0) <= curve.deadzone,
    ensures
        curve.travel(raw.negate()) == curve.travel(raw),
        curve.apply(raw.negate(), powered).value() == -curve.apply(raw, powered).value(),
{
    let zero = Binary64::of(0);
    let (a, b) = (axis::deflection(raw), axis::deflection(raw.negate()));
    lemma_held_opposite(raw);
    binary64::lemma_of(0);
    binary64::lemma_order(a, zero);
    binary64::lemma_order(b, zero);
    binary64::lemma_order(zero, curve.deadzone);
    binary64::lemma_abs(a);
    binary64::lemma_order(a.abs(), curve.deadzone);
    binary64::lemma_order(a, a);
    binary64::lemma_negate(zero);
    binary64::lemma_negate(zero.negate());
    binary64::lemma_negate(powered);
    binary64::lemma_negate(powered.negate());
}

/// Pushing a stick further never gives less deflection, where more travel is
/// raised to no less.
pub proof fn a_curve_never_falls(
    curve: AxisCurve,
    less: Binary64,
    more: Binary64,
    less_powered: Binary64,
    more_powered: Binary64,
)
    requires
        !curve.invert,
        axis::deflection(less).value() <= axis::deflection(more).value(),
        controls::is_fraction(less_powered),
        controls::is_fraction(more_powered),
        axis::deflection(less).abs() <= axis::deflection(more).abs() ==> less_powered.value()
            <= more_powered.value(),
        axis::deflection(more).abs() <= axis::deflection(less).abs() ==> more_powered.value()
            <= less_powered.value(),
    ensures
        curve.apply(less, less_powered).value() <= curve.apply(more, more_powered).value(),
{
    let zero = Binary64::of(0);
    let (a, b) = (axis::deflection(less), axis::deflection(more));
    lemma_held_opposite(less);
    lemma_held_opposite(more);
    binary64::lemma_of(0);
    binary64::lemma_order(a, zero);
    binary64::lemma_order(b, zero);
    binary64::lemma_order(zero, less_powered);
    binary64::lemma_order(zero, more_powered);
    binary64::lemma_order(a, a);
    binary64::lemma_order(b, b);
    binary64::lemma_abs(a);
    binary64::lemma_abs(b);
    binary64::lemma_order(a.abs(), b.abs());
    binary64::lemma_order(b.abs(), a.abs());
    binary64::lemma_order(a.abs(), curve.deadzone);
    binary64::lemma_order(b.abs(), curve.deadzone);
    binary64::lemma_negate(zero);
    binary64::lemma_negate(less_powered);
    binary64::lemma_negate(more_powered);
}

/// Whether a reading lies beyond the dead zone. At its very edge the axis
/// counts as untouched; the curve gives nothing there either.
pub open spec fn spec_is_axis_touched(raw: Binary64, deadzone: Binary64) -> bool {
    raw.is_finite() && raw.abs() > deadzone
}

/// Whether a reading lies beyond the dead zone.
#[verifier::when_used_as_spec(spec_is_axis_touched)]
pub fn is_axis_touched(raw: Binary64, deadzone: Binary64) -> (r: bool)
    ensures
        r == is_axis_touched(raw, deadzone),
{
    raw.is_finite() && raw.abs().gt(deadzone)
}

/// The curves of the sticks and triggers.
#[derive(Clone, Copy, PartialEq, Eq, Debug, Structural)]
pub struct GamepadAxisMappings {
    /// Left stick, sideways.
    pub aileron: AxisCurve,
    /// Left stick, fore and aft; pulling it back raises the nose.
    pub elevator: AxisCurve,
    /// Right stick, sideways.
    pub rudder: AxisCurve,
    /// Both triggers, as a rate of change.
    pub throttle: AxisCurve,
}

impl Default for GamepadAxisMappings {
    fn default() -> (r: GamepadAxisMappings)
        ensures
            r == (GamepadAxisMappings {
                aileron: AxisCurve::default_spec(),
                elevator: AxisCurve::default_spec(),
                rudder: AxisCurve::default_spec(),
                throttle: AxisCurve::default_spec(),
            }),
    {
        GamepadAxisMappings {
            aileron: AxisCurve::default(),
            elevator: AxisCurve::default(),
            rudder: AxisCurve::default(),
            throttle: AxisCurve::default(),
        }
    }
}

/// One frame of raw readings: sticks from minus one to one, triggers from zero
/// to one.
#[derive(Clone, Copy, PartialEq, Eq, Debug, Structural)]
pub struct PilotGamepad {
    /// Positive to the right.
    pub left_stick_x: Binary64,
    /// Positive pushed forward.
    pub left_stick_y: Binary64,
    /// Positive to the right.
    pub right_stick_x: Binary64,
    /// Opens the throttle.
    pub right_trigger: Binary64,
    /// Closes the throttle.
    pub left_trigger: Binary64,
    pub flaps_extend: bool,
    pub flaps_retract: bool,
    pub brakes: bool,
}

impl PilotGamepad {
    /// Nothing touched.
    pub open spec fn idle() -> PilotGamepad {
        PilotGamepad {
            left_stick_x: Binary64::of(0),
            left_stick_y: Binary64::of(0),
            right_stick_x: Binary64::of(0),
            right_trigger: Binary64::of(0),
            left_trigger: Binary64::of(0),
            flaps_extend: false,
            flaps_retract: false,
            brakes: false,
        }
    }
}

impl Default for PilotGamepad {
    fn default() -> (r: PilotGamepad)
        ensures
            r == PilotGamepad::idle(),
    {
        PilotGamepad {
            left_stick_x: Binary64::of(0),
            left_stick_y: Binary64::of(0),
            right_stick_x: Binary64::of(0),
            right_trigger: Binary64::of(0),
            left_trigger: Binary64::of(0),
            flaps_extend: false,
            flaps_retract: false,
            brakes: false,
        }
    }
}

/// What a connected pad reports; an axis it does not have reports nothing.
#[derive(Clone, Copy, PartialEq, Eq, Debug, Structural)]
pub struct PadReport {
    pub left_stick_x: Option<Binary32>,
    pub left_stick_y: Option<Binary32>,
    pub right_stick_x: Option<Binary32>,
    pub right_trigger: Option<Binary32>,
    pub left_trigger: Option<Binary32>,
    pub dpad_down: bool,
    pub dpad_up: bool,
    pub south: bool,
    /// The north button went down in this frame.
    pub north_just_pressed: bool,
}

/// An axis that the pad does not have reads zero.
pub open spec fn reading_spec(reported: Option<Binary32>) -> Binary64 {
    match reported {
        Some(value) => value.to_binary64(),
        None => Binary32::of(0).to_binary64(),
    }
}

fn reading(reported: Option<Binary32>) -> (r: Binary64)
    ensures
        r == reading_spec(reported),
{
    match reported {
        Some(value) => value.to_binary64(),
        None => Binary32::of(0).to_binary64(),
    }
}

/// The raw readings of the first connected pad, none without one. Down on the
/// cross extends the flaps.
pub fn read_gamepad(pads: &Vec<PadReport>) -> (r: Option<PilotGamepad>)
    ensures
        pads@.len() == 0 <==> r is None,
        pads@.len() > 0 ==> r == Some(
            PilotGamepad {
                left_stick_x: reading_spec(pads@[0].left_stick_x),
                left_stick_y: reading_spec(pads@[0].left_stick_y),
                right_stick_x: reading_spec(pads@[0].right_stick_x),
                right_trigger: reading_spec(pads@[0].right_trigger),
                left_trigger: reading_spec(pads@[0].left_trigger),
                flaps_extend: pads@[0].dpad_down,
                flaps_retract: pads@[0].dpad_up,
                brakes: pads@[0].south,
            },
        ),
{
    if pads.len() == 0 {
        return None;
    }
    let pad = pads[0];
    Some(
        PilotGamepad {
            left_stick_x: reading(pad.left_stick_x),
            left_stick_y: reading(pad.left_stick_y),
            right_stick_x: reading(pad.right_stick_x),
            right_trigger: reading(pad.right_trigger),
            left_trigger: reading(pad.left_trigger),
            flaps_extend: pad.dpad_down,
            flaps_retract: pad.dpad_up,
            brakes: pad.south,
        },
    )
}

} // verus!
