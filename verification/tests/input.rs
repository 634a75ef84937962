use flightsim::binary32::Binary32;
use flightsim::binary64::Binary64;
use flightsim::fdm::controls::ControlInputs;
use flightsim::input::axis::{AxisState, ElevatorTrim, RampAxis};
use flightsim::input::camera::{self, CameraRig, ViewMode};
use flightsim::input::gamepad::{
    self, AxisCurve, GamepadAxisMappings, PadReport, PilotGamepad,
};
use flightsim::input::pilot::{self, Key, PilotControls, PilotKeys, StickPowers};
use flightsim::vector::Vec3;

fn d(x: f64) -> Binary64 {
    Binary64::from_bits(x.to_bits())
}

fn f(x: Binary64) -> f64 {
    f64::from_bits(x.to_bits())
}

fn single(x: f32) -> Binary32 {
    Binary32::from_bits(x.to_bits())
}

fn f32_of(x: Binary32) -> f32 {
    f32::from_bits(x.to_bits())
}

fn vec3(x: f32, y: f32, z: f32) -> Vec3 {
    Vec3::new(single(x), single(y), single(z))
}

fn frame() -> Binary64 {
    d(1.0 / 60.0)
}

/// One frame of the camera's following; the exponential is taken here.
fn follow(rig: &mut CameraRig, target: Vec3, dt: f64) -> Vec3 {
    let exponent = rig.decay_exponent(d(dt));
    rig.follow(target, d(f(exponent).exp()))
}

fn distance(a: Vec3, b: Vec3) -> f32 {
    let x = f32_of(a.x) - f32_of(b.x);
    let y = f32_of(a.y) - f32_of(b.y);
    let z = f32_of(a.z) - f32_of(b.z);
    (x * x + y * y + z * z).sqrt()
}

#[test]
fn the_view_modes_cycle_back_to_the_start() {
    let mut mode = ViewMode::Cockpit;
    let mut seen = vec![mode];
    for _ in 0..3 {
        mode = mode.next();
        seen.push(mode);
    }
    assert_eq!(mode.next(), ViewMode::Cockpit, "the cycle does not close");
    assert_eq!(seen.len(), 4);
    seen.sort_by_key(|m| m.name());
    seen.dedup();
    assert_eq!(seen.len(), 4);
}

#[test]
fn following_is_frame_rate_independent() {
    let target = vec3(100.0, 0.0, 0.0);
    let mut slow = CameraRig::default();
    follow(&mut slow, Vec3::zero(), 0.0);
    for _ in 0..60 {
        follow(&mut slow, target, 1.0 / 60.0);
    }
    let mut fast = CameraRig::default();
    follow(&mut fast, Vec3::zero(), 0.0);
    for _ in 0..144 {
        follow(&mut fast, target, 1.0 / 144.0);
    }
    assert!(
        distance(slow.smoothed, fast.smoothed) < 1.0,
        "after one second 60 Hz reached {:?} but 144 Hz reached {:?}",
        slow.smoothed,
        fast.smoothed
    );
}

#[test]
fn the_camera_converges_on_its_target() {
    let mut rig = CameraRig::default();
    follow(&mut rig, Vec3::zero(), 0.0);
    let target = vec3(50.0, 20.0, -10.0);
    for _ in 0..300 {
        follow(&mut rig, target, 1.0 / 60.0);
    }
    assert!(
        distance(rig.smoothed, target) < 0.01,
        "the camera settled at {:?} rather than {target:?}",
        rig.smoothed
    );
}

#[test]
fn the_first_frame_snaps_rather_than_flying_in() {
    let mut rig = CameraRig::default();
    let target = vec3(1_000.0, 500.0, 0.0);
    assert_eq!(follow(&mut rig, target, 1.0 / 60.0), target);
    assert!(rig.is_initialised());
}

#[test]
fn resetting_makes_the_next_frame_snap_again() {
    let mut rig = CameraRig::default();
    follow(&mut rig, Vec3::zero(), 0.0);
    rig.reset();
    assert!(!rig.is_initialised());
    let elsewhere = vec3(5_000.0, 0.0, 0.0);
    assert_eq!(follow(&mut rig, elsewhere, 1.0 / 60.0), elsewhere);
}

#[test]
fn a_non_finite_target_does_not_lose_the_camera() {
    let mut rig = CameraRig::default();
    follow(&mut rig, Vec3::zero(), 0.0);
    let result = follow(&mut rig, vec3(f32::NAN, 0.0, 0.0), 1.0 / 60.0);
    assert!(
        result.is_finite() || result.x.is_nan(),
        "the rig should either recover or expose the bad target, got {result:?}"
    );
    let recovered = follow(&mut rig, vec3(10.0, 0.0, 0.0), 1.0 / 60.0);
    assert!(recovered.is_finite(), "the camera never recovered: {recovered:?}");
}

#[test]
fn looking_around_is_limited() {
    let (yaw, pitch) = camera::clamp_look_around(d(10.0), d(-10.0));
    assert!(f(yaw) <= 150.0_f64.to_radians() + 1e-9);
    assert!(f(pitch) >= -80.0_f64.to_radians() - 1e-9);
    let (yaw, pitch) = camera::clamp_look_around(d(f64::NAN), d(f64::NAN));
    assert!(f(yaw).abs() < 1e-12 && f(pitch).abs() < 1e-12);
}

#[test]
fn the_view_changes_on_a_key_or_a_button() {
    let pressed = PadReport { north_just_pressed: true, ..idle_pad() };
    let next = ViewMode::Cockpit.next();
    assert_eq!(camera::cycle_view_mode(ViewMode::Cockpit, true, &vec![]), next);
    assert_eq!(
        camera::cycle_view_mode(ViewMode::Cockpit, false, &vec![idle_pad(), pressed]),
        next
    );
    assert_eq!(
        camera::cycle_view_mode(ViewMode::Cockpit, false, &vec![idle_pad()]),
        ViewMode::Cockpit
    );
}

fn idle_pad() -> PadReport {
    PadReport {
        left_stick_x: None,
        left_stick_y: None,
        right_stick_x: None,
        right_trigger: None,
        left_trigger: None,
        dpad_down: false,
        dpad_up: false,
        south: false,
        north_just_pressed: false,
    }
}

#[test]
fn the_first_pad_that_reports_is_read() {
    assert!(gamepad::read_gamepad(&vec![]).is_none());
    let pad = PadReport {
        left_stick_x: Some(single(0.5)),
        dpad_down: true,
        south: true,
        ..idle_pad()
    };
    let read = gamepad::read_gamepad(&vec![pad]).expect("a pad is connected");
    assert_eq!(f(read.left_stick_x), 0.5);
    assert_eq!(f(read.right_trigger), 0.0);
    assert!(read.flaps_extend && read.brakes && !read.flaps_retract);
}

/// A curve's answer; the power is taken here.
fn apply(curve: AxisCurve, raw: f64) -> f64 {
    let powered = match curve.travel(d(raw)) {
        Some(travel) => d(f(travel).powf(f(curve.response))),
        None => d(0.0),
    };
    f(curve.apply(d(raw), powered))
}

fn curve(deadzone: f64, response: f64, invert: bool) -> AxisCurve {
    AxisCurve::new(d(deadzone), d(response), invert)
}

#[test]
fn inputs_at_or_inside_the_deadzone_are_silenced() {
    let curve = curve(0.1, 1.0, false);
    assert!(apply(curve, 0.0).abs() < 1e-12);
    assert!(apply(curve, 0.05).abs() < 1e-12);
    assert!(apply(curve, -0.05).abs() < 1e-12);
    assert!(apply(curve, 0.1).abs() < 1e-12);
    assert!(apply(curve, -0.1).abs() < 1e-12);
}

#[test]
fn the_deadzone_boundary_does_not_jump() {
    let curve = curve(0.1, 1.0, false);
    let just_inside = apply(curve, 0.1);
    let just_outside = apply(curve, 0.1 + 1e-6);
    assert!(just_inside.abs() < 1e-12);
    assert!(just_outside < 1e-4, "output jumped to {just_outside} just past the deadzone");
}

#[test]
fn full_deflection_reaches_full_output() {
    let curve = curve(0.1, 1.0, false);
    assert!((apply(curve, 1.0) - 1.0).abs() < 1e-12);
    assert!((apply(curve, -1.0) + 1.0).abs() < 1e-12);
}

#[test]
fn a_linear_curve_scales_the_travel_beyond_the_deadzone() {
    let curve = curve(0.2, 1.0, false);
    assert!((apply(curve, 0.6) - 0.5).abs() < 1e-9);
}

#[test]
fn a_nonlinear_curve_softens_the_centre() {
    let linear = curve(0.1, 1.0, false);
    let curved = curve(0.1, 2.0, false);
    let input = 0.5;
    assert!(apply(curved, input) < apply(linear, input));
    assert!((apply(curved, 1.0) - 1.0).abs() < 1e-12);
}

#[test]
fn inverting_flips_the_sign() {
    let normal = curve(0.1, 1.0, false);
    let inverted = curve(0.1, 1.0, true);
    assert!((apply(normal, 0.5) + apply(inverted, 0.5)).abs() < 1e-12);
}

#[test]
fn out_of_range_and_non_finite_inputs_are_clamped() {
    let curve = curve(0.1, 1.0, false);
    assert!((apply(curve, 5.0) - 1.0).abs() < 1e-12);
    assert!((apply(curve, -5.0) + 1.0).abs() < 1e-12);
    assert!(apply(curve, f64::NAN).abs() < 1e-12);
    assert!((apply(curve, f64::INFINITY) - 1.0).abs() < 1e-12);
    assert!((apply(curve, f64::NEG_INFINITY) + 1.0).abs() < 1e-12);
}

#[test]
fn touch_detection_matches_the_deadzone() {
    let touched = |raw: f64| gamepad::is_axis_touched(d(raw), d(0.1));
    assert!(!touched(0.05));
    assert!(!touched(0.1), "exactly at the boundary counts as untouched");
    assert!(touched(0.100_001));
    assert!(touched(-0.5));
    assert!(!touched(f64::NAN));
}

fn hold(axis: &mut AxisState, frames: u32, positive: bool, negative: bool) {
    for _ in 0..frames {
        axis.update(frame(), positive, negative);
    }
}

/// One frame of the controls; the powers of the stick travels are taken here.
fn fly(controls: &mut PilotControls, keys: PilotKeys, pad: Option<PilotGamepad>) {
    let mappings = GamepadAxisMappings::default();
    let travels = pilot::stick_travels(pad.unwrap_or_default(), &mappings);
    let power = |travel: Option<Binary64>, curve: AxisCurve| match travel {
        Some(x) => d(f(x).powf(f(curve.response))),
        None => d(0.0),
    };
    let powers = StickPowers {
        aileron: power(travels.aileron, mappings.aileron),
        elevator: power(travels.elevator, mappings.elevator),
        rudder: power(travels.rudder, mappings.rudder),
        right_trigger: power(travels.right_trigger, mappings.throttle),
        left_trigger: power(travels.left_trigger, mappings.throttle),
    };
    controls.update_with_gamepad(frame(), keys, pad, &mappings, powers);
}

#[test]
fn elevator_sign_matches_pulling_the_stick_back() {
    let mut controls = PilotControls::default();
    let pad = PilotGamepad { left_stick_y: d(-1.0), ..PilotGamepad::default() };
    fly(&mut controls, PilotKeys::default(), Some(pad));
    assert!(
        f(controls.to_control_inputs().elevator()) > 0.9,
        "pulling the stick back must pitch the nose up"
    );
}

#[test]
fn an_untouched_pad_leaves_the_keyboard_in_charge() {
    let mut with_pad = PilotControls::default();
    let mut without_pad = PilotControls::default();
    let keys = PilotKeys { roll_right: true, throttle_up: true, ..PilotKeys::default() };
    for _ in 0..30 {
        let pad = PilotGamepad { left_stick_x: d(0.05), ..PilotGamepad::default() };
        fly(&mut with_pad, keys, Some(pad));
        without_pad.update(frame(), keys);
    }
    let a = with_pad.to_control_inputs();
    let b = without_pad.to_control_inputs();
    assert!(
        (f(a.aileron()) - f(b.aileron())).abs() < 1e-12
            && (f(a.throttle()) - f(b.throttle())).abs() < 1e-12,
        "an idle gamepad changed the keyboard behaviour"
    );
    assert!(f(a.aileron()) > 0.0, "the keyboard input must still act");
}

#[test]
fn touching_one_axis_does_not_capture_the_others() {
    let mut controls = PilotControls::default();
    let keys = PilotKeys { yaw_right: true, ..PilotKeys::default() };
    let pad = PilotGamepad { left_stick_x: d(0.8), ..PilotGamepad::default() };
    for _ in 0..30 {
        fly(&mut controls, keys, Some(pad));
    }
    let inputs = controls.to_control_inputs();
    assert!(f(inputs.aileron()) > 0.5, "the stick should drive the aileron");
    assert!(
        f(inputs.rudder()) > 0.0,
        "the keyboard rudder must keep working while the stick rolls"
    );
}

#[test]
fn releasing_the_trigger_holds_the_throttle() {
    let mut controls = PilotControls::default();
    for _ in 0..180 {
        let pad = PilotGamepad { right_trigger: d(1.0), ..PilotGamepad::default() };
        fly(&mut controls, PilotKeys::default(), Some(pad));
    }
    let held = f(controls.to_control_inputs().throttle());
    assert!(held > 0.6, "three seconds of full trigger should open the throttle");
    for _ in 0..120 {
        fly(&mut controls, PilotKeys::default(), Some(PilotGamepad::default()));
    }
    let after = f(controls.to_control_inputs().throttle());
    assert!(
        (after - held).abs() < 1e-9,
        "the throttle crept from {held} to {after} after releasing the trigger"
    );
}

#[test]
fn brakes_from_either_source_work() {
    let mut controls = PilotControls::default();
    let pad = PilotGamepad { brakes: true, ..PilotGamepad::default() };
    fly(&mut controls, PilotKeys::default(), Some(pad));
    assert!(f(controls.to_control_inputs().brakes()) > 0.5);
    let mut keyboard_only = PilotControls::default();
    let keys = PilotKeys { brakes: true, ..PilotKeys::default() };
    fly(&mut keyboard_only, keys, Some(PilotGamepad::default()));
    assert!(f(keyboard_only.to_control_inputs().brakes()) > 0.5);
}

#[test]
fn no_gamepad_behaves_exactly_like_the_keyboard_path() {
    let keys = PilotKeys { pitch_up: true, throttle_up: true, ..PilotKeys::default() };
    let mut via_gamepad_api = PilotControls::default();
    let mut plain = PilotControls::default();
    for _ in 0..60 {
        fly(&mut via_gamepad_api, keys, None);
        plain.update(frame(), keys);
    }
    assert_eq!(
        via_gamepad_api.to_control_inputs(),
        plain.to_control_inputs(),
        "with no gamepad connected the two paths must be identical"
    );
}

#[test]
fn the_trim_keys_work_with_a_pad_connected() {
    let mut controls = PilotControls::default();
    let before = f(controls.trim.value());
    let keys = PilotKeys { trim_up: true, ..PilotKeys::default() };
    fly(&mut controls, keys, Some(PilotGamepad::default()));
    assert!(f(controls.trim.value()) > before);
}

#[test]
fn holding_a_key_moves_the_surface_progressively() {
    let mut axis = AxisState::control_surface();
    axis.update(frame(), true, false);
    let after_one = f(axis.value());
    assert!(
        after_one > 0.0 && after_one < 0.2,
        "one frame moved the surface to {after_one}; that is not a rate"
    );
    hold(&mut axis, 60, true, false);
    assert!(f(axis.value()) > after_one);
}

#[test]
fn a_held_key_saturates_at_full_deflection() {
    let mut axis = AxisState::control_surface();
    hold(&mut axis, 600, true, false);
    assert!((f(axis.value()) - 1.0).abs() < 1e-9, "value {}", f(axis.value()));
}

#[test]
fn releasing_returns_the_surface_to_neutral() {
    let mut axis = AxisState::control_surface();
    hold(&mut axis, 60, true, false);
    assert!(f(axis.value()) > 0.1);
    hold(&mut axis, 600, false, false);
    assert!(
        f(axis.value()).abs() < 1e-9,
        "the surface settled at {} instead of neutral",
        f(axis.value())
    );
}

#[test]
fn the_trim_does_not_return_to_neutral() {
    let mut trim = ElevatorTrim::new(d(0.0), d(0.12));
    trim.update(d(1.0), true, false);
    let set = f(trim.value());
    assert!(set > 0.0);
    for _ in 0..600 {
        trim.update(frame(), false, false);
    }
    assert!(
        (f(trim.value()) - set).abs() < 1e-12,
        "the trim drifted from {set} to {}",
        f(trim.value())
    );
}

#[test]
fn the_trim_moves_both_ways_and_stays_in_range() {
    let mut trim = ElevatorTrim::new(d(0.0), d(0.5));
    for _ in 0..600 {
        trim.update(frame(), true, false);
    }
    assert!((f(trim.value()) - 1.0).abs() < 1e-9, "got {}", f(trim.value()));
    for _ in 0..1_200 {
        trim.update(frame(), false, true);
    }
    assert!((f(trim.value()) + 1.0).abs() < 1e-9, "got {}", f(trim.value()));
}

#[test]
fn pressing_both_trim_keys_cancels_out() {
    let mut trim = ElevatorTrim::new(d(0.2), d(0.5));
    trim.update(d(1.0), true, true);
    assert!((f(trim.value()) - 0.2).abs() < 1e-12);
}

#[test]
fn the_default_trim_is_nose_up_so_it_flies_hands_off() {
    let value = f(ElevatorTrim::default().value());
    assert!(value > 0.0, "the default trim must hold the nose up, got {value}");
    assert!(
        value < 0.2,
        "but not so much that it interferes with the take-off roll, got {value}"
    );
}

#[test]
fn the_trim_is_added_to_the_stick() {
    let mut controls = PilotControls::default();
    controls.trim.set(d(0.1));
    controls.elevator.set_absolute(d(0.3));
    assert!((f(controls.effective_elevator()) - 0.4).abs() < 1e-12);
    assert!((f(controls.to_control_inputs().elevator()) - 0.4).abs() < 1e-12);
}

#[test]
fn the_effective_elevator_never_leaves_the_surface_range() {
    let mut controls = PilotControls::default();
    controls.trim.set(d(0.8));
    controls.elevator.set_absolute(d(1.0));
    assert!((f(controls.effective_elevator()) - 1.0).abs() < 1e-12);
    controls.trim.set(d(-0.8));
    controls.elevator.set_absolute(d(-1.0));
    assert!((f(controls.effective_elevator()) + 1.0).abs() < 1e-12);
}

#[test]
fn a_broken_trim_value_is_refused() {
    let mut trim = ElevatorTrim::default();
    trim.set(d(f64::NAN));
    assert!(trim.value().is_finite(), "got {:?}", trim.value());
    trim.set(d(f64::INFINITY));
    assert!((-1.0..=1.0).contains(&f(trim.value())), "got {:?}", trim.value());
}

#[test]
fn centering_never_overshoots_past_neutral() {
    let mut axis = AxisState::new(d(2.0), d(100.0));
    axis.set_absolute(d(0.01));
    axis.update(frame(), false, false);
    assert!(
        (f(axis.value()) - 0.0).abs() < 1e-12,
        "centering overshot to {}",
        f(axis.value())
    );
}

#[test]
fn pressing_both_directions_cancels_out() {
    let mut axis = AxisState::control_surface();
    axis.set_absolute(d(0.5));
    hold(&mut axis, 600, true, true);
    assert!(f(axis.value()).abs() < 1e-9);
}

#[test]
fn an_analog_axis_can_be_set_directly() {
    let mut axis = AxisState::control_surface();
    axis.set_absolute(d(-0.75));
    assert!((f(axis.value()) + 0.75).abs() < 1e-12);
    axis.set_absolute(d(5.0));
    assert!((f(axis.value()) - 1.0).abs() < 1e-12);
    axis.set_absolute(d(f64::NAN));
    assert!((f(axis.value()) - 0.0).abs() < 1e-12);
}

#[test]
fn the_throttle_holds_its_position_when_released() {
    let mut throttle = RampAxis::new(d(0.0), d(0.25));
    for _ in 0..120 {
        throttle.update(frame(), true, false);
    }
    let held = f(throttle.value());
    assert!(held > 0.2);
    for _ in 0..600 {
        throttle.update(frame(), false, false);
    }
    assert!(
        (f(throttle.value()) - held).abs() < 1e-12,
        "the throttle drifted from {held} to {}",
        f(throttle.value())
    );
}

#[test]
fn the_throttle_stays_inside_its_range() {
    let mut throttle = RampAxis::new(d(0.5), d(1.0));
    for _ in 0..600 {
        throttle.update(frame(), true, false);
    }
    assert!((f(throttle.value()) - 1.0).abs() < 1e-12);
    for _ in 0..600 {
        throttle.update(frame(), false, true);
    }
    assert!((f(throttle.value()) - 0.0).abs() < 1e-12);
}

#[test]
fn the_pilot_controls_reach_the_fdm_in_the_right_places() {
    let mut controls = PilotControls::default();
    let keys = PilotKeys {
        roll_right: true,
        pitch_up: true,
        yaw_left: true,
        throttle_up: true,
        brakes: true,
        ..PilotKeys::default()
    };
    for _ in 0..60 {
        controls.update(frame(), keys);
    }
    let inputs = controls.to_control_inputs();
    assert!(f(inputs.aileron()) > 0.0, "roll right should be positive aileron");
    assert!(f(inputs.elevator()) > 0.0, "pitch up should be positive elevator");
    assert!(f(inputs.rudder()) < 0.0, "yaw left should be negative rudder");
    assert!(f(inputs.throttle()) > 0.0);
    assert!((f(inputs.brakes()) - 1.0).abs() < 1e-12);
}

#[test]
fn controls_never_produce_non_finite_values() {
    let mut controls = PilotControls::default();
    controls.aileron.set_absolute(d(f64::NAN));
    controls.throttle.set_absolute(d(f64::INFINITY));
    controls.update(d(f64::NAN), PilotKeys::default());
    let inputs = controls.to_control_inputs();
    for value in [
        inputs.aileron(),
        inputs.elevator(),
        inputs.rudder(),
        inputs.throttle(),
        inputs.flaps(),
        inputs.brakes(),
    ] {
        assert!(value.is_finite(), "a control input was {value:?}");
    }
}

#[test]
fn keys_are_read_in_both_layouts() {
    let keys = pilot::pilot_keys(&vec![Key::ArrowRight, Key::KeyS]);
    assert!(keys.roll_right && keys.pitch_up);
    assert!(!keys.roll_left && !keys.pitch_down && !keys.brakes);
    assert!(pilot::is_pressed(&vec![Key::KeyD], Key::KeyD));
    assert!(!pilot::is_pressed(&vec![Key::KeyD], Key::KeyA));
    assert_eq!(pilot::pilot_keys(&vec![]), PilotKeys::default());
}

#[test]
fn out_of_range_inputs_are_clamped() {
    let c = ControlInputs::new(d(5.0), d(-5.0), d(100.0), d(3.0), d(-1.0));
    assert!((f(c.aileron()) - 1.0).abs() < f64::EPSILON);
    assert!((f(c.elevator()) + 1.0).abs() < f64::EPSILON);
    assert!((f(c.rudder()) - 1.0).abs() < f64::EPSILON);
    assert!((f(c.throttle()) - 1.0).abs() < f64::EPSILON);
    assert!(f(c.flaps()).abs() < f64::EPSILON);
}

#[test]
fn nan_inputs_collapse_to_neutral() {
    let nan = d(f64::NAN);
    let c = ControlInputs::new(nan, nan, nan, nan, nan);
    for value in [c.aileron(), c.elevator(), c.rudder(), c.throttle(), c.flaps()] {
        assert!(value.is_finite(), "NaN leaked through sanitisation");
        assert!(f(value).abs() < f64::EPSILON);
    }
}

#[test]
fn infinities_are_clamped_not_propagated() {
    let (plus, minus) = (d(f64::INFINITY), d(f64::NEG_INFINITY));
    let c = ControlInputs::new(plus, minus, d(0.0), plus, d(0.0));
    assert!((f(c.aileron()) - 1.0).abs() < f64::EPSILON);
    assert!((f(c.elevator()) + 1.0).abs() < f64::EPSILON);
    assert!((f(c.throttle()) - 1.0).abs() < f64::EPSILON);
}

#[test]
fn builders_only_change_the_named_input() {
    let base = ControlInputs::new(d(0.1), d(0.2), d(0.3), d(0.4), d(0.5));
    let modified = base.with_elevator(d(-0.9));
    assert!((f(modified.elevator()) + 0.9).abs() < 1e-12);
    assert!((f(modified.aileron()) - f(base.aileron())).abs() < f64::EPSILON);
    assert!((f(modified.rudder()) - f(base.rudder())).abs() < f64::EPSILON);
    assert!((f(modified.throttle()) - f(base.throttle())).abs() < f64::EPSILON);
    assert!((f(modified.flaps()) - f(base.flaps())).abs() < f64::EPSILON);
}

#[test]
fn neutral_is_all_zero() {
    let c = ControlInputs::neutral();
    assert_eq!(c, ControlInputs::default());
    assert!(f(c.throttle()).abs() < f64::EPSILON);
}

#[test]
fn pushing_further_never_gives_less_travel() {
    let curve = AxisCurve::default();
    let mut previous = 0.0;
    for step in 1..=200 {
        let raw = f64::from(step) / 100.0;
        if let Some(travel) = curve.travel(d(raw)) {
            assert!((0.0..=1.0).contains(&f(travel)), "{raw} gave {}", f(travel));
            assert!(f(travel) >= previous);
            previous = f(travel);
            assert_eq!(curve.travel(d(-raw)).map(f), Some(f(travel)));
        } else {
            assert!(raw <= 0.1);
        }
    }
    assert_eq!(previous, 1.0);
}

#[test]
fn a_reversed_curve_gives_the_opposite() {
    let curve = AxisCurve::default();
    let reversed = AxisCurve { invert: true, ..curve };
    for raw in [-2.0, -0.5, -0.05, 0.0, 0.05, 0.5, 2.0, f64::NAN] {
        let power = curve.travel(d(raw)).unwrap_or(d(0.0));
        let (one, other) = (f(curve.apply(d(raw), power)), f(reversed.apply(d(raw), power)));
        assert_eq!(one.to_bits(), (-other).to_bits());
        assert!(one.abs() <= 1.0);
    }
}

#[test]
fn the_deflection_starts_from_nothing() {
    for response in [1.0, 2.0, 3.0] {
        let curve = curve(0.1, response, false);
        let mut last = 0.0;
        for step in 1..1_000 {
            let current = apply(curve, 0.1 + f64::from(step) * 1e-9);
            assert!(current >= last && current < 2e-6, "jumped to {current} at step {step}");
            last = current;
        }
        assert_eq!(apply(curve, 0.1), 0.0);
    }
}

#[test]
fn an_axis_is_where_it_was_put() {
    let mut axis = AxisState::control_surface();
    axis.set_absolute(d(-0.375));
    assert_eq!(f(axis.value()), -0.375);
    axis.set_absolute(d(7.0));
    assert_eq!(f(axis.value()), 1.0);
    let mut ramp = RampAxis::new(d(0.25), d(0.5));
    assert_eq!(f(ramp.value()), 0.25);
    ramp.set_absolute(d(-3.0));
    assert_eq!(f(ramp.value()), 0.0);
    let mut trim = ElevatorTrim::new(d(0.125), d(0.1));
    assert_eq!(f(trim.value()), 0.125);
    trim.set(d(-0.5));
    assert_eq!(f(trim.value()), -0.5);
}
