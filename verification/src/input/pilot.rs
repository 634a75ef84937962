//! The pilot's controls: keys and a gamepad merged, axis by axis.
use crate::binary64;
use crate::binary64::Binary64;
use crate::fdm::controls;
use crate::fdm::controls::ControlInputs;
use crate::input::axis;
use crate::input::axis::{AxisState, ElevatorTrim, RampAxis};
use crate::input::gamepad;
use crate::input::gamepad::{AxisCurve, GamepadAxisMappings, PilotGamepad};
use vstd::prelude::*;

verus! {

/// The commands held on the keyboard.
#[derive(Clone, Copy, PartialEq, Eq, Debug, Structural)]
pub struct PilotKeys {
    pub roll_right: bool,
    pub roll_left: bool,
    pub pitch_up: bool,
    pub pitch_down: bool,
    pub yaw_right: bool,
    pub yaw_left: bool,
    pub throttle_up: bool,
    pub throttle_down: bool,
    pub flaps_extend: bool,
    pub flaps_retract: bool,
    pub brakes: bool,
    /// Trims for a slower speed.
    pub trim_up: bool,
    /// Trims for a faster speed.
    pub trim_down: bool,
}

impl PilotKeys {
    /// No key held.
    pub open spec fn none() -> PilotKeys {
        PilotKeys {
            roll_right: false,
            roll_left: false,
            pitch_up: false,
            pitch_down: false,
            yaw_right: false,
            yaw_left: false,
            throttle_up: false,
            throttle_down: false,
            flaps_extend: false,
            flaps_retract: false,
            brakes: false,
            trim_up: false,
            trim_down: false,
        }
    }
}

impl Default for PilotKeys {
    fn default() -> (r: PilotKeys)
        ensures
            r == PilotKeys::none(),
    {
        PilotKeys {
            roll_right: false,
            roll_left: false,
            pitch_up: false,
            pitch_down: false,
            yaw_right: false,
            yaw_left: false,
            throttle_up: false,
            throttle_down: false,
            flaps_extend: false,
            flaps_retract: false,
            brakes: false,
            trim_up: false,
            trim_down: false,
        }
    }
}

/// The keys that fly the aircraft.
#[derive(Clone, Copy, PartialEq, Eq, Debug, Structural)]
pub enum Key {
    ArrowRight,
    ArrowLeft,
    ArrowDown,
    ArrowUp,
    KeyA,
    KeyC,
    KeyD,
    KeyE,
    KeyF,
    KeyG,
    KeyQ,
    KeyS,
    KeyW,
    PageUp,
    PageDown,
    Equal,
    Minus,
    BracketRight,
    BracketLeft,
    Space,
}

/// Whether a key is among those pressed.
pub fn is_pressed(pressed: &Vec<Key>, key: Key) -> (r: bool)
    ensures
        r == pressed@.contains(key),
{
    let mut i: usize = 0;
    while i < pressed.len()
        invariant
            i <= pressed.len(),
            forall|j: int| 0 <= j < i ==> pressed@[j] != key,
        decreases pressed.len() - i,
    {
        if pressed[i] == key {
            return true;
        }
        i = i + 1;
    }
    false
}

/// The commands that the pressed keys give. As on a real stick, pulling (down)
/// raises the nose.
pub fn pilot_keys(pressed: &Vec<Key>) -> (r: PilotKeys)
    ensures
        r.roll_right == (pressed@.contains(Key::ArrowRight) || pressed@.contains(Key::KeyD)),
        r.roll_left == (pressed@.contains(Key::ArrowLeft) || pressed@.contains(Key::KeyA)),
        r.pitch_up == (pressed@.contains(Key::ArrowDown) || pressed@.contains(Key::KeyS)),
        r.pitch_down == (pressed@.contains(Key::ArrowUp) || pressed@.contains(Key::KeyW)),
        r.yaw_right == pressed@.contains(Key::KeyE),
        r.yaw_left == pressed@.contains(Key::KeyQ),
        r.throttle_up == (pressed@.contains(Key::PageUp) || pressed@.contains(Key::Equal)),
        r.throttle_down == (pressed@.contains(Key::PageDown) || pressed@.contains(Key::Minus)),
        r.trim_up == pressed@.contains(Key::BracketRight),
        r.trim_down == pressed@.contains(Key::BracketLeft),
        r.flaps_extend == pressed@.contains(Key::KeyF),
        r.flaps_retract == pressed@.contains(Key::KeyG),
        r.brakes == pressed@.contains(Key::Space),
{
    PilotKeys {
        roll_right: is_pressed(pressed, Key::ArrowRight) || is_pressed(pressed, Key::KeyD),
        roll_left: is_pressed(pressed, Key::ArrowLeft) || is_pressed(pressed, Key::KeyA),
        pitch_up: is_pressed(pressed, Key::ArrowDown) || is_pressed(pressed, Key::KeyS),
        pitch_down: is_pressed(pressed, Key::ArrowUp) || is_pressed(pressed, Key::KeyW),
        yaw_right: is_pressed(pressed, Key::KeyE),
        yaw_left: is_pressed(pressed, Key::KeyQ),
        throttle_up: is_pressed(pressed, Key::PageUp) || is_pressed(pressed, Key::Equal),
        throttle_down: is_pressed(pressed, Key::PageDown) || is_pressed(pressed, Key::Minus),
        trim_up: is_pressed(pressed, Key::BracketRight),
        trim_down: is_pressed(pressed, Key::BracketLeft),
        flaps_extend: is_pressed(pressed, Key::KeyF),
        flaps_retract: is_pressed(pressed, Key::KeyG),
        brakes: is_pressed(pressed, Key::Space),
    }
}

/// The powers that a pad's curves apply: each is the axis's travel raised to
/// the response of its curve.
#[derive(Clone, Copy, PartialEq, Eq, Debug, Structural)]
pub struct StickPowers {
    pub aileron: Binary64,
    pub elevator: Binary64,
    pub rudder: Binary64,
    pub right_trigger: Binary64,
    pub left_trigger: Binary64,
}

/// The travels of a pad's axes, to be raised to the responses of their curves;
/// an axis inside its dead zone has none.
#[derive(Clone, Copy, PartialEq, Eq, Debug, Structural)]
pub struct StickTravels {
    pub aileron: Option<Binary64>,
    pub elevator: Option<Binary64>,
    pub rudder: Option<Binary64>,
    pub right_trigger: Option<Binary64>,
    pub left_trigger: Option<Binary64>,
}

/// The travels of a pad's axes.
pub fn stick_travels(pad: PilotGamepad, mappings: &GamepadAxisMappings) -> (r: StickTravels)
    ensures
        r == (StickTravels {
            aileron: mappings.aileron.travel(pad.left_stick_x),
            elevator: mappings.elevator.travel(pad.left_stick_y.negate()),
            rudder: mappings.rudder.travel(pad.right_stick_x),
            right_trigger: mappings.throttle.travel(pad.right_trigger),
            left_trigger: mappings.throttle.travel(pad.left_trigger),
        }),
{
    StickTravels {
        aileron: mappings.aileron.travel(pad.left_stick_x),
        elevator: mappings.elevator.travel(pad.left_stick_y.negate()),
        rudder: mappings.rudder.travel(pad.right_stick_x),
        right_trigger: mappings.throttle.travel(pad.right_trigger),
        left_trigger: mappings.throttle.travel(pad.left_trigger),
    }
}

/// The state of every control.
#[derive(Clone, Copy, PartialEq, Eq, Debug, Structural)]
pub struct PilotControls {
    pub aileron: AxisState,
    pub elevator: AxisState,
    pub rudder: AxisState,
    pub throttle: RampAxis,
    pub flaps: RampAxis,
    /// Does not return to neutral.
    pub trim: ElevatorTrim,
    /// One while the brakes are held.
    pub brakes: Binary64,
}

/// One where the brakes are held, else zero.
pub open spec fn brake_force(held: bool) -> Binary64 {
    if held {
        Binary64::of(1)
    } else {
        Binary64::of(0)
    }
}

impl Default for PilotControls {
    /// Four seconds to full throttle, five to full flaps.
    fn default() -> (r: PilotControls)
        ensures
            r.aileron.value() == Binary64::of(0),
            r.aileron.rate() == Binary64::ratio(5, 2),
            r.aileron.centering_rate() == Binary64::ratio(9, 5),
            r.elevator == r.aileron,
            r.rudder == r.aileron,
            r.throttle.value() == Binary64::of(0).clamp(Binary64::of(0), Binary64::of(1)),
            r.throttle.rate() == Binary64::ratio(1, 4),
            r.flaps.value() == Binary64::of(0).clamp(Binary64::of(0), Binary64::of(1)),
            r.flaps.rate() == Binary64::ratio(1, 5),
            r.trim.value() == axis::deflection(Binary64::ratio(9, 100)),
            r.trim.rate() == Binary64::ratio(12, 100),
            r.brakes == Binary64::of(0),
    {
        proof {
            binary64::lemma_of(0);
            binary64::lemma_ratio_positive(1, 4);
            binary64::lemma_ratio_positive(1, 5);
            binary64::lemma_order(Binary64::of(0), Binary64::ratio(1, 4));
            binary64::lemma_order(Binary64::of(0), Binary64::ratio(1, 5));
        }
        let surface = AxisState::control_surface();
        PilotControls {
            aileron: surface,
            elevator: surface,
            rudder: surface,
            throttle: RampAxis::new(Binary64::of(0), Binary64::ratio(1, 4)),
            flaps: RampAxis::new(Binary64::of(0), Binary64::ratio(1, 5)),
            trim: ElevatorTrim::default(),
            brakes: Binary64::of(0),
        }
    }
}

/// The pad, where one is connected, moves an axis off its dead zone.
pub open spec fn pad_drives(pad: Option<PilotGamepad>, raw: Binary64, curve: AxisCurve) -> bool {
    pad is Some && gamepad::is_axis_touched(raw, curve.deadzone)
}

/// The readings of the pad, idle where none is connected.
pub open spec fn pad_or_idle(pad: Option<PilotGamepad>) -> PilotGamepad {
    match pad {
        Some(p) => p,
        None => PilotGamepad::idle(),
    }
}

/// `after` is what a frame of keys makes of `before`.
pub open spec fn keyed_to(
    before: PilotControls,
    after: PilotControls,
    dt: Binary64,
    keys: PilotKeys,
) -> bool {
    &&& after.aileron == before.aileron.keyed(dt, keys.roll_right, keys.roll_left)
    &&& after.elevator == before.elevator.keyed(dt, keys.pitch_up, keys.pitch_down)
    &&& after.rudder == before.rudder.keyed(dt, keys.yaw_right, keys.yaw_left)
    &&& after.throttle == before.throttle.keyed(dt, keys.throttle_up, keys.throttle_down)
    &&& after.flaps == before.flaps.keyed(dt, keys.flaps_extend, keys.flaps_retract)
    &&& after.trim == before.trim.keyed(dt, keys.trim_up, keys.trim_down)
    &&& after.brakes == brake_force(keys.brakes)
}

/// `after` is what a frame of keys and a pad makes of `before`: each axis
/// follows the pad where the pad touches it, else the keys.
pub open spec fn steered_to(
    before: PilotControls,
    after: PilotControls,
    dt: Binary64,
    keys: PilotKeys,
    pad: Option<PilotGamepad>,
    mappings: GamepadAxisMappings,
    powers: StickPowers,
) -> bool {
    let gp = pad_or_idle(pad);
    let zero = Binary64::of(0);
    &&& after.aileron == if pad_drives(pad, gp.left_stick_x, mappings.aileron) {
        before.aileron.at(
            axis::deflection(mappings.aileron.apply(gp.left_stick_x, powers.aileron)),
        )
    } else {
        before.aileron.keyed(dt, keys.roll_right, keys.roll_left)
    }
    &&& after.elevator == if pad_drives(pad, gp.left_stick_y, mappings.elevator) {
        before.elevator.at(
            axis::deflection(
                mappings.elevator.apply(gp.left_stick_y.negate(), powers.elevator),
            ),
        )
    } else {
        before.elevator.keyed(dt, keys.pitch_up, keys.pitch_down)
    }
    &&& after.rudder == if pad_drives(pad, gp.right_stick_x, mappings.rudder) {
        before.rudder.at(
            axis::deflection(mappings.rudder.apply(gp.right_stick_x, powers.rudder)),
        )
    } else {
        before.rudder.keyed(dt, keys.yaw_right, keys.yaw_left)
    }
    &&& after.throttle == if pad_drives(pad, gp.right_trigger, mappings.throttle) || pad_drives(
        pad,
        gp.left_trigger,
        mappings.throttle,
    ) {
        before.throttle.pulled(
            dt,
            mappings.throttle.apply(gp.right_trigger, powers.right_trigger).max(zero)
                - mappings.throttle.apply(gp.left_trigger, powers.left_trigger).max(zero),
        )
    } else {
        before.throttle.keyed(dt, keys.throttle_up, keys.throttle_down)
    }
    &&& after.flaps == if pad is Some && (gp.flaps_extend || gp.flaps_retract) {
        before.flaps.keyed(dt, gp.flaps_extend, gp.flaps_retract)
    } else {
        before.flaps.keyed(dt, keys.flaps_extend, keys.flaps_retract)
    }
    &&& after.trim == before.trim.keyed(dt, keys.trim_up, keys.trim_down)
    &&& after.brakes == brake_force(keys.brakes || gp.brakes)
}

impl PilotControls {
    /// Advances by `dt` seconds with the keys as they are held.
    pub fn update(&mut self, dt: Binary64, keys: PilotKeys)
        ensures
            keyed_to(*old(self), *final(self), dt, keys),
    {
        self.aileron.update(dt, keys.roll_right, keys.roll_left);
        self.elevator.update(dt, keys.pitch_up, keys.pitch_down);
        self.rudder.update(dt, keys.yaw_right, keys.yaw_left);
        self.throttle.update(dt, keys.throttle_up, keys.throttle_down);
        self.flaps.update(dt, keys.flaps_extend, keys.flaps_retract);
        self.trim.update(dt, keys.trim_up, keys.trim_down);
        // The brakes act while they are held; a position between would only feel odd.
        self.brakes =
        if keys.brakes {
            Binary64::of(1)
        } else {
            Binary64::of(0)
        };
    }

    /// Advances by `dt` seconds with keys and a pad.
    ///
    /// Axis by axis, the pad is followed where it is touched and the keys where
    /// it is not, so that connecting a pad does not disable the keyboard and
    /// moving one axis does not capture the others. The brakes act when either
    /// holds them. Without a pad this is `update`.
    pub fn update_with_gamepad(
        &mut self,
        dt: Binary64,
        keys: PilotKeys,
        pad: Option<PilotGamepad>,
        mappings: &GamepadAxisMappings,
        powers: StickPowers,
    )
        ensures
            steered_to(*old(self), *final(self), dt, keys, pad, *mappings, powers),
    {
        let connected: bool = pad.is_some();
        let gp = match pad {
            Some(p) => p,
            None => PilotGamepad::default(),
        };
        if connected && gamepad::is_axis_touched(gp.left_stick_x, mappings.aileron.deadzone) {
            self.aileron.set_absolute(mappings.aileron.apply(gp.left_stick_x, powers.aileron));
        } else {
            self.aileron.update(dt, keys.roll_right, keys.roll_left);
        }
        // Pushed forward is positive, and pulling back raises the nose.
        if connected && gamepad::is_axis_touched(gp.left_stick_y, mappings.elevator.deadzone) {
            self.elevator.set_absolute(
                mappings.elevator.apply(gp.left_stick_y.negate(), powers.elevator),
            );
        } else {
            self.elevator.update(dt, keys.pitch_up, keys.pitch_down);
        }
        if connected && gamepad::is_axis_touched(gp.right_stick_x, mappings.rudder.deadzone) {
            self.rudder.set_absolute(mappings.rudder.apply(gp.right_stick_x, powers.rudder));
        } else {
            self.rudder.update(dt, keys.yaw_right, keys.yaw_left);
        }
        // The triggers say how fast the lever moves; released, it stays.
        if connected && (gamepad::is_axis_touched(gp.right_trigger, mappings.throttle.deadzone)
            || gamepad::is_axis_touched(gp.left_trigger, mappings.throttle.deadzone)) {
            let zero = Binary64::of(0);
            let increase = mappings.throttle.apply(gp.right_trigger, powers.right_trigger).max(
                zero,
            );
            let decrease = mappings.throttle.apply(gp.left_trigger, powers.left_trigger).max(zero);
            self.throttle.update_analog(dt, increase - decrease);
        } else {
            self.throttle.update(dt, keys.throttle_up, keys.throttle_down);
        }
        if connected && (gp.flaps_extend || gp.flaps_retract) {
            self.flaps.update(dt, gp.flaps_extend, gp.flaps_retract);
        } else {
            self.flaps.update(dt, keys.flaps_extend, keys.flaps_retract);
        }
        self.trim.update(dt, keys.trim_up, keys.trim_down);
        self.brakes =
        if keys.brakes || gp.brakes {
            Binary64::of(1)
        } else {
            Binary64::of(0)
        };
    }

    /// The elevator that reaches the surface: stick and trim together, held to
    /// the surface's range.
    pub open spec fn spec_effective_elevator(self) -> Binary64 {
        axis::deflection(self.elevator.value() + self.trim.value())
    }

    /// The elevator that reaches the surface.
    #[verifier::when_used_as_spec(spec_effective_elevator)]
    pub fn effective_elevator(self) -> (r: Binary64)
        ensures
            r == self.effective_elevator(),
            controls::is_deflection(r),
    {
        proof {
            controls::sanitized_stays_in_range(self.elevator.value() + self.trim.value());
        }
        axis::sanitise(self.elevator.value() + self.trim.value())
    }

    /// The inputs for the dynamics.
    pub fn to_control_inputs(self) -> (r: ControlInputs)
        ensures
            r.aileron() == axis::deflection(self.aileron.value()),
            r.elevator() == axis::deflection(self.effective_elevator()),
            r.rudder() == axis::deflection(self.rudder.value()),
            r.throttle() == axis::fraction(self.throttle.value()),
            r.flaps() == axis::fraction(self.flaps.value()),
            r.brakes() == axis::fraction(self.brakes),
            controls::is_deflection(r.aileron()),
            controls::is_deflection(r.elevator()),
            controls::is_deflection(r.rudder()),
            controls::is_fraction(r.throttle()),
            controls::is_fraction(r.flaps()),
            controls::is_fraction(r.brakes()),
    {
        proof {
            controls::sanitized_stays_in_range(self.aileron.value());
            controls::sanitized_stays_in_range(self.effective_elevator());
            controls::sanitized_stays_in_range(self.rudder.value());
            controls::sanitized_stays_in_range(self.throttle.value());
            controls::sanitized_stays_in_range(self.flaps.value());
            controls::sanitized_stays_in_range(self.brakes);
        }
        ControlInputs::new(
            self.aileron.value(),
            self.effective_elevator(),
            self.rudder.value(),
            self.throttle.value(),
            self.flaps.value(),
        ).with_brakes(self.brakes)
    }
}

/// Without a pad, steering is keying.
pub proof fn no_gamepad_is_the_keyboard(
    before: PilotControls,
    after: PilotControls,
    dt: Binary64,
    keys: PilotKeys,
    mappings: GamepadAxisMappings,
    powers: StickPowers,
)
    ensures
        steered_to(before, after, dt, keys, None, mappings, powers) <==> keyed_to(
            before,
            after,
            dt,
            keys,
        ),
{
}

/// A pad whose axes all rest in their dead zones and whose buttons are up
/// leaves the keyboard in charge of everything.
pub proof fn an_untouched_pad_is_the_keyboard(
    before: PilotControls,
    after: PilotControls,
    dt: Binary64,
    keys: PilotKeys,
    pad: PilotGamepad,
    mappings: GamepadAxisMappings,
    powers: StickPowers,
)
    requires
        !gamepad::is_axis_touched(pad.left_stick_x, mappings.aileron.deadzone),
        !gamepad::is_axis_touched(pad.left_stick_y, mappings.elevator.deadzone),
        !gamepad::is_axis_touched(pad.right_stick_x, mappings.rudder.deadzone),
        !gamepad::is_axis_touched(pad.right_trigger, mappings.throttle.deadzone),
        !gamepad::is_axis_touched(pad.left_trigger, mappings.throttle.deadzone),
        !pad.flaps_extend,
        !pad.flaps_retract,
        !pad.brakes,
    ensures
        steered_to(before, after, dt, keys, Some(pad), mappings, powers) <==> keyed_to(
            before,
            after,
            dt,
            keys,
        ),
{
}

/// Whatever one axis of the pad does, an axis of its own that is untouched
/// follows the keys.
pub proof fn touching_one_axis_does_not_capture_the_others(
    before: PilotControls,
    after: PilotControls,
    dt: Binary64,
    keys: PilotKeys,
    pad: Option<PilotGamepad>,
    mappings: GamepadAxisMappings,
    powers: StickPowers,
)
    requires
        steered_to(before, after, dt, keys, pad, mappings, powers),
    ensures
        !pad_drives(pad, pad_or_idle(pad).left_stick_x, mappings.aileron) ==> after.aileron
            == before.aileron.keyed(dt, keys.roll_right, keys.roll_left),
        !pad_drives(pad, pad_or_idle(pad).left_stick_y, mappings.elevator) ==> after.elevator
            == before.elevator.keyed(dt, keys.pitch_up, keys.pitch_down),
        !pad_drives(pad, pad_or_idle(pad).right_stick_x, mappings.rudder) ==> after.rudder
            == before.rudder.keyed(dt, keys.yaw_right, keys.yaw_left),
        after.trim == before.trim.keyed(dt, keys.trim_up, keys.trim_down),
{
}

} // verus!
