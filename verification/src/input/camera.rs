//! The view and the camera that follows the aircraft.
//!
//! The camera only observes: however far it lags, the aircraft flies the same.
use crate::angle;
use crate::binary32;
use crate::binary32::Binary32;
use crate::binary64;
use crate::binary64::Binary64;
use crate::fdm::controls;
use crate::input::gamepad::PadReport;
use crate::sign;
use crate::vector::{DVec3, Vec3};
use vstd::prelude::*;

verus! {

/// From where the aircraft is seen.
#[derive(Clone, Copy, PartialEq, Eq, Debug, Structural)]
pub enum ViewMode {
    /// Fixed to the aircraft, free to look around.
    Cockpit,
    /// Behind the aircraft, lagging a little.
    Chase,
    /// Detached.
    Free,
    /// From a point on the ground.
    Tower,
}

impl Default for ViewMode {
    fn default() -> (r: ViewMode)
        ensures
            r == ViewMode::Cockpit,
    {
        ViewMode::Cockpit
    }
}

impl ViewMode {
    pub open spec fn spec_next(self) -> ViewMode {
        match self {
            ViewMode::Cockpit => ViewMode::Chase,
            ViewMode::Chase => ViewMode::Free,
            ViewMode::Free => ViewMode::Tower,
            ViewMode::Tower => ViewMode::Cockpit,
        }
    }

    pub open spec fn spec_name(self) -> Seq<char> {
        match self {
            ViewMode::Cockpit => "COCKPIT"@,
            ViewMode::Chase => "CHASE"@,
            ViewMode::Free => "FREE"@,
            ViewMode::Tower => "TOWER"@,
        }
    }

    /// The mode after this one.
    #[verifier::when_used_as_spec(spec_next)]
    pub fn next(self) -> (r: ViewMode)
        ensures
            r == self.next(),
    {
        match self {
            ViewMode::Cockpit => ViewMode::Chase,
            ViewMode::Chase => ViewMode::Free,
            ViewMode::Free => ViewMode::Tower,
            ViewMode::Tower => ViewMode::Cockpit,
        }
    }

    /// A short name for the display.
    pub fn name(self) -> (r: &'static str)
        ensures
            r@ == self.spec_name(),
    {
        match self {
            ViewMode::Cockpit => "COCKPIT",
            ViewMode::Chase => "CHASE",
            ViewMode::Free => "FREE",
            ViewMode::Tower => "TOWER",
        }
    }
}

/// Four steps visit every mode once and lead back to the start.
pub proof fn the_view_modes_cycle(mode: ViewMode, other: ViewMode)
    ensures
        mode.next().next().next().next() == mode,
        other == mode || other == mode.next() || other == mode.next().next() || other
            == mode.next().next().next(),
        mode.next() != mode,
        mode.next().next() != mode,
        mode.next().next().next() != mode,
{
}

/// No two modes share a name.
pub proof fn the_view_names_differ(a: ViewMode, b: ViewMode)
    ensures
        a.spec_name() == b.spec_name() ==> a == b,
{
    reveal_strlit("COCKPIT");
    reveal_strlit("CHASE");
    reveal_strlit("FREE");
    reveal_strlit("TOWER");
    assert("COCKPIT"@.len() == 7);
    assert("CHASE"@[0] == 'C' && "TOWER"@[0] == 'T');
}

/// The mode for the next frame: the key or the north button of any pad moves
/// on to the next one.
pub fn cycle_view_mode(mode: ViewMode, key_just_pressed: bool, pads: &Vec<PadReport>) -> (r:
    ViewMode)
    ensures
        r == if key_just_pressed || (exists|i: int|
            0 <= i < pads@.len() && #[trigger] pads@[i].north_just_pressed) {
            mode.next()
        } else {
            mode
        },
{
    let mut pad_pressed: bool = false;
    let mut i: usize = 0;
    while i < pads.len()
        invariant
            i <= pads.len(),
            pad_pressed <==> exists|j: int|
                0 <= j < i && #[trigger] pads@[j].north_just_pressed,
        decreases pads.len() - i,
    {
        if pads[i].north_just_pressed {
            pad_pressed = true;
        }
        i = i + 1;
    }
    if key_just_pressed || pad_pressed {
        mode.next()
    } else {
        mode
    }
}

/// The chase camera.
#[derive(Clone, Copy, PartialEq, Eq, Debug, Structural)]
pub struct CameraRig {
    /// How far behind the aircraft the chase view sits.
    pub chase_distance: Binary64,
    /// How far above the aircraft the chase view sits.
    pub chase_height: Binary64,
    /// The time constant of the pursuit; smaller is nimbler.
    pub follow_time_constant: Binary64,
    /// The pilot's eye in body axes: forward, right, down.
    pub eye_offset: DVec3,
    /// Where the camera is, in drawing coordinates.
    pub smoothed: Vec3,
    /// Whether `smoothed` holds a place to move from.
    pub initialised: bool,
}

impl Default for CameraRig {
    fn default() -> (r: CameraRig)
        ensures
            r == (CameraRig {
                chase_distance: Binary64::of(35),
                chase_height: Binary64::of(10),
                follow_time_constant: Binary64::ratio(1, 4),
                eye_offset: DVec3::new(
                    Binary64::ratio(6, 10),
                    Binary64::of(0),
                    Binary64::ratio(9, 10).negate(),
                ),
                smoothed: Vec3::zero(),
                initialised: false,
            }),
    {
        CameraRig {
            chase_distance: Binary64::of(35),
            chase_height: Binary64::of(10),
            follow_time_constant: Binary64::ratio(1, 4),
            eye_offset: DVec3::new(
                Binary64::ratio(6, 10),
                Binary64::of(0),
                Binary64::ratio(9, 10).negate(),
            ),
            smoothed: Vec3::zero(),
            initialised: false,
        }
    }
}

impl CameraRig {
    pub open spec fn spec_decay_exponent(&self, dt: Binary64) -> Binary64 {
        dt.max(Binary64::of(0)).negate() / self.follow_time_constant.max(
            Binary64::ratio(1, 1000000),
        )
    }

    /// The exponent whose exponential is the share of the lag that is left
    /// after `dt` seconds. Taking it from the elapsed time makes the pursuit
    /// the same at every frame rate.
    #[verifier::when_used_as_spec(spec_decay_exponent)]
    pub fn decay_exponent(&self, dt: Binary64) -> (r: Binary64)
        ensures
            r == self.decay_exponent(dt),
    {
        let tau = self.follow_time_constant.max(Binary64::ratio(1, 1000000));
        dt.max(Binary64::of(0)).negate() / tau
    }

    /// Where the camera moves, `remaining` being the share of the lag left.
    pub open spec fn blended(self, target: Vec3, remaining: Binary64) -> Vec3 {
        self.smoothed.lerp(target, (Binary64::of(1) - remaining).to_binary32())
    }

    /// Moves toward the target, `remaining` being the exponential of the decay
    /// exponent. The first frame snaps onto the target, and so does one whose
    /// blend is not finite: a camera that is lost never comes back otherwise.
    pub fn follow(&mut self, target: Vec3, remaining: Binary64) -> (r: Vec3)
        ensures
            r == if old(self).initialised && old(self).blended(target, remaining).is_finite() {
                old(self).blended(target, remaining)
            } else {
                target
            },
            *final(self) == (CameraRig { smoothed: r, initialised: true, ..*old(self) }),
    {
        if !self.initialised {
            self.smoothed = target;
            self.initialised = true;
            return target;
        }
        let alpha = (Binary64::of(1) - remaining).to_binary32();
        let blended = self.smoothed.lerp(target, alpha);
        if blended.is_finite() {
            self.smoothed = blended;
        } else {
            self.smoothed = target;
        }
        self.smoothed
    }

    /// Makes the next frame snap, as a change of view has to.
    pub fn reset(&mut self)
        ensures
            *final(self) == (CameraRig { initialised: false, ..*old(self) }),
    {
        self.initialised = false;
    }

    /// Whether the camera has a place to move from.
    pub fn is_initialised(&self) -> (r: bool)
        ensures
            r == self.initialised,
    {
        self.initialised
    }
}

/// A camera without a lag stays on its target.
pub proof fn a_settled_camera_stays(rig: CameraRig, remaining: Binary64)
    requires
        rig.smoothed.is_finite(),
        remaining == Binary64::of(1),
    ensures
        rig.blended(rig.smoothed, remaining).x.same(rig.smoothed.x),
        rig.blended(rig.smoothed, remaining).y.same(rig.smoothed.y),
        rig.blended(rig.smoothed, remaining).z.same(rig.smoothed.z),
{
    let one = Binary64::of(1);
    binary64::lemma_of(1);
    binary64::lemma_of(0);
    binary64::lemma_negate(one);
    binary64::lemma_add(one, one.negate());
    binary64::lemma_round_exact(Binary64::of(0), 1);
    binary64::lemma_finite_below(one - remaining, Binary64::of(0));
    let s = (one - remaining).to_binary32();
    binary64::lemma_narrow_zero(one - remaining);
    lemma_lerp_from_zero(rig.smoothed.x, rig.smoothed.x, s);
    lemma_lerp_from_zero(rig.smoothed.y, rig.smoothed.y, s);
    lemma_lerp_from_zero(rig.smoothed.z, rig.smoothed.z, s);
}

proof fn lemma_lerp_from_zero(a: Binary32, b: Binary32, s: Binary32)
    requires
        a.is_finite(),
        b.is_finite(),
        s.is_finite(),
        s.value() == 0,
    ensures
        (a * (Binary32::of(1) - s) + b * s).same(a),
{
    let one = Binary32::of(1);
    binary32::lemma_of(1);
    binary32::lemma_negate(s);
    binary32::lemma_add(one, s.negate());
    binary32::lemma_order(one, one);
    binary32::lemma_round_exact(one, 1);
    let t = one - s;
    binary32::lemma_finite_below(t, one);
    binary32::lemma_times_one(a, t);
    binary32::lemma_zero_factor(s, b);
    binary32::lemma_order(a, a);
    binary32::lemma_round_exact(a, 1);
    binary32::lemma_add(a * t, b * s);
    binary32::lemma_order(a * t + b * s, a);
}

/// How far the pilot has turned their head.
#[derive(Clone, Copy, PartialEq, Eq, Debug, Structural)]
pub struct LookAround {
    pub yaw: Binary64,
    pub pitch: Binary64,
}

impl Default for LookAround {
    fn default() -> (r: LookAround)
        ensures
            r == (LookAround { yaw: Binary64::of(0), pitch: Binary64::of(0) }),
    {
        LookAround { yaw: Binary64::of(0), pitch: Binary64::of(0) }
    }
}

/// Holds the head to what a neck can do: 150 degrees sideways, 80 up and down.
pub fn clamp_look_around(yaw: Binary64, pitch: Binary64) -> (r: (Binary64, Binary64))
    ensures
        r.0 == controls::sanitized(
            yaw,
            angle::to_radians(Binary64::of(150)).negate(),
            angle::to_radians(Binary64::of(150)),
        ),
        r.1 == controls::sanitized(
            pitch,
            angle::to_radians(Binary64::of(80)).negate(),
            angle::to_radians(Binary64::of(80)),
        ),
{
    let limit_yaw = angle::to_radians(Binary64::of(150));
    let limit_pitch = angle::to_radians(Binary64::of(80));
    (clamp_finite(yaw, limit_yaw), clamp_finite(pitch, limit_pitch))
}

fn clamp_finite(value: Binary64, limit: Binary64) -> (r: Binary64)
    ensures
        r == controls::sanitized(value, limit.negate(), limit),
{
    controls::sanitize(value, limit.negate(), limit)
}

/// A limit of the head is a number that is not negative.
proof fn lemma_limit(degrees: i64)
    requires
        0 < degrees <= 360,
    ensures
        !angle::to_radians(Binary64::of(degrees)).is_nan(),
        angle::to_radians(Binary64::of(degrees)).value() >= 0,
{
    let o = Binary64::one();
    let half = Binary64::of(180);
    binary64::lemma_of(0);
    binary64::lemma_of(180);
    binary64::lemma_of(degrees);
    angle::lemma_pi();
    let zero = Binary64::of(0);
    let p = angle::pi();
    assert(0 < 180 * o && o <= 180 * o) by (nonlinear_arith)
        requires
            o > 0,
    ;
    assert(0 * half.value() <= p.value() * o <= p.value() * half.value()) by (nonlinear_arith)
        requires
            p.value() > 0,
            o > 0,
            half.value() >= o,
    ;
    binary64::lemma_quotient_between(p, half, zero, p);
    let part = p / half;
    binary64::lemma_mul(Binary64::of(degrees), part);
    sign::lemma_product(Binary64::of(degrees), part);
    assert(degrees * o >= 0) by (nonlinear_arith)
        requires
            degrees > 0,
            o > 0,
    ;
}

/// However far the pilot is told to look, the head stays within its limits.
pub proof fn the_head_stays_within_its_limits(value: Binary64, degrees: i64)
    requires
        0 < degrees <= 360,
    ensures
        ({
            let limit = angle::to_radians(Binary64::of(degrees));
            let held = controls::sanitized(value, limit.negate(), limit);
            limit.negate() <= held && held <= limit
        }),
{
    let limit = angle::to_radians(Binary64::of(degrees));
    let zero = Binary64::of(0);
    lemma_limit(degrees);
    binary64::lemma_of(0);
    binary64::lemma_negate(limit);
    binary64::lemma_order(limit.negate(), limit);
    binary64::lemma_order(limit, limit);
    binary64::lemma_order(limit.negate(), limit.negate());
    binary64::lemma_order(value, limit.negate());
    binary64::lemma_order(limit, value);
    binary64::lemma_order(limit.negate(), value);
    binary64::lemma_order(value, limit);
    binary64::lemma_order(limit.negate(), zero);
    binary64::lemma_order(zero, limit);
}

} // verus!
