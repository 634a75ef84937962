//! Runway lights. The colours are laid down: white edges, green where the
//! runway begins, red where it ends.
use crate::angle;
use crate::binary32;
use crate::binary32::Binary32;
use crate::binary64;
use crate::binary64::Binary64;
use crate::fine;
use crate::near;
use crate::number;
use crate::number::Number;
use crate::render::facing;
use crate::render::mesh;
use crate::render::mesh::{MeshView, SurfaceMesh};
use crate::render::runway;
use crate::render::surface::{Bearing, Geodetic, LinearColor, Rgb, SurfaceVertex};
use crate::rounding;
use crate::rounding::Format;
use crate::sign;
use vstd::arithmetic::power2::*;
use vstd::prelude::*;

verus! {

/// The lights' glow with all of them on, as linear colour. Dimming always
/// starts from it, so that lights that went out come back.
#[derive(Clone, Copy, PartialEq, Eq, Debug, Structural)]
pub struct AirportLights {
    pub full_emissive: Rgb,
}

impl AirportLights {
    /// The share of the full glow that counts for a fraction.
    pub open spec fn share(fraction: Binary32) -> Binary32 {
        if fraction.is_finite() {
            fraction.clamp(Binary32::of(0), Binary32::of(1))
        } else {
            Binary32::of(0)
        }
    }

    /// The glow at a fraction; dark where the fraction is not finite.
    pub fn emissive_at(self, fraction: Binary32) -> (r: Rgb)
        ensures
            r == (Rgb {
                red: self.full_emissive.red * Self::share(fraction),
                green: self.full_emissive.green * Self::share(fraction),
                blue: self.full_emissive.blue * Self::share(fraction),
            }),
    {
        let share = if fraction.is_finite() {
            fraction.clamp(Binary32::of(0), Binary32::of(1))
        } else {
            Binary32::of(0)
        };
        Rgb {
            red: self.full_emissive.red * share,
            green: self.full_emissive.green * share,
            blue: self.full_emissive.blue * share,
        }
    }
}

/// Whatever the fraction, each colour of the glow stays between dark and full,
/// and at one it is the full glow.
pub proof fn dimming_keeps_the_full_brightness_recoverable(full: Binary32, fraction: Binary32)
    requires
        full.is_finite(),
        full.value() >= 0,
    ensures
        (full * AirportLights::share(fraction)).is_finite(),
        0 <= (full * AirportLights::share(fraction)).value() <= full.value(),
        fraction.is_finite() && fraction.value() <= 0 ==> (full * AirportLights::share(
            fraction,
        )).value() == 0,
        fraction.is_finite() && fraction.value() >= Binary32::one() ==> (full
            * AirportLights::share(fraction)).value() == full.value(),
{
    let zero = Binary32::of(0);
    let one = Binary32::of(1);
    let share = AirportLights::share(fraction);
    binary32::lemma_of(0);
    binary32::lemma_of(1);
    binary32::lemma_order(fraction, zero);
    binary32::lemma_order(one, fraction);
    assert(0 <= share.value() <= Binary32::one());
    binary32::lemma_finite_below(share, one);
    binary32::lemma_product_below(full, share);
    if fraction.is_finite() && fraction.value() >= Binary32::one() {
        binary32::lemma_times_one(full, share);
    }
    if fraction.is_finite() && fraction.value() <= 0 {
        binary32::lemma_zero_factor(share, full);
    }
}

/// What a lamp looks like: dark where light falls on it, so that by day it is
/// no white plate, and shining by itself.
#[derive(Clone, Copy, PartialEq, Eq, Debug, Structural)]
pub struct Lamp {
    pub base: Rgb,
    /// The colour it shines in.
    pub emissive: LinearColor,
    /// How strongly it shines.
    pub strength: Binary32,
}

/// What is kept beside lamps so that they can be dimmed: how they shine with
/// all of them on.
#[derive(Clone, Copy, PartialEq, Eq, Debug, Structural)]
pub struct LampMarker {
    pub full_emissive: LinearColor,
    pub strength: Binary32,
}

/// A colour at a strength.
pub open spec fn glow(color: Rgb, strength: Binary32) -> Rgb {
    Rgb {
        red: color.red * strength,
        green: color.green * strength,
        blue: color.blue * strength,
    }
}

impl Lamp {
    /// How the lamp shines, once the powers of its colour are known.
    pub fn glow(self, powers: Rgb) -> (r: Rgb)
        ensures
            r == glow(self.emissive.resolved(powers), self.strength),
    {
        let color = self.emissive.resolved(powers);
        Rgb {
            red: color.red * self.strength,
            green: color.green * self.strength,
            blue: color.blue * self.strength,
        }
    }

    /// What is kept beside the lamp.
    pub open spec fn spec_marker(self) -> LampMarker {
        LampMarker { full_emissive: self.emissive, strength: self.strength }
    }

    /// What is kept beside the lamp.
    #[verifier::when_used_as_spec(spec_marker)]
    pub fn marker(self) -> (r: LampMarker)
        ensures
            r == self.marker(),
    {
        LampMarker { full_emissive: self.emissive, strength: self.strength }
    }
}

impl LampMarker {
    /// The lights to be dimmed, once the powers of their colour are known.
    pub open spec fn spec_lights(self, powers: Rgb) -> AirportLights {
        AirportLights { full_emissive: glow(self.full_emissive.resolved(powers), self.strength) }
    }

    /// The lights to be dimmed, once the powers of their colour are known.
    #[verifier::when_used_as_spec(spec_lights)]
    pub fn lights(self, powers: Rgb) -> (r: AirportLights)
        ensures
            r == self.lights(powers),
    {
        let color = self.full_emissive.resolved(powers);
        AirportLights {
            full_emissive: Rgb {
                red: color.red * self.strength,
                green: color.green * self.strength,
                blue: color.blue * self.strength,
            },
        }
    }
}

pub open spec fn spec_lamp(color: Rgb) -> Lamp {
    Lamp {
        base: Rgb::thousandths(0, 0, 0),
        emissive: color.linear(),
        strength: Binary32::of(6000),
    }
}

/// The lamp of a colour.
#[verifier::when_used_as_spec(spec_lamp)]
pub fn lamp(color: Rgb) -> (r: Lamp)
    ensures
        r == lamp(color),
        r.base == Rgb::thousandths(0, 0, 0),
        r.emissive == color.linear(),
        r.strength == Binary32::of(6000),
{
    Lamp {
        base: Rgb::thousandths(0, 0, 0),
        emissive: color.linear(),
        strength: Binary32::of(6000),
    }
}

/// Beside every lamp is kept just what it shines with, whatever its powers
/// come to.
pub proof fn the_marker_holds_what_the_lamp_shines_with(lamp: Lamp, powers: Rgb)
    ensures
        lamp.marker().lights(powers).full_emissive == glow(
            lamp.emissive.resolved(powers),
            lamp.strength,
        ),
{
}

/// Another name for the same, kept for callers that light only runways.
pub type RunwayLights = AirportLights;

/// The smooth step from zero to one, flat at both ends.
pub open spec fn smoothstep(t: Binary32) -> Binary32 {
    (t * t) * (Binary32::of(3) - Binary32::of(2) * t)
}

/// How far the lights have come up, between three degrees above the horizon
/// and six below it, before smoothing.
pub open spec fn dusk_fraction(degrees: Binary64) -> Binary64 {
    let off = Binary64::of(3);
    let on = Binary64::of(6).negate();
    ((off - degrees) / (off - on)).clamp(Binary64::of(0), Binary64::of(1))
}

/// The share of full brightness for the sun's elevation in radians: one at
/// night, zero by day, smooth between. A broken angle leaves them off.
pub open spec fn spec_light_intensity_fraction(sun_elevation: Binary64) -> Binary32 {
    let degrees = angle::to_degrees(sun_elevation);
    if !degrees.is_finite() {
        Binary32::of(0)
    } else {
        smoothstep(dusk_fraction(degrees).to_binary32())
    }
}

/// The share of full brightness for the sun's elevation in radians.
#[verifier::when_used_as_spec(spec_light_intensity_fraction)]
pub fn light_intensity_fraction(sun_elevation: Binary64) -> (r: Binary32)
    ensures
        r == light_intensity_fraction(sun_elevation),
{
    let degrees = angle::to_degrees(sun_elevation);
    if !degrees.is_finite() {
        return Binary32::of(0);
    }
    let off = Binary64::of(3);
    let on = Binary64::of(6).negate();
    let t = ((off - degrees) / (off - on)).clamp(Binary64::of(0), Binary64::of(1)).to_binary32();
    (t * t) * (Binary32::of(3) - Binary32::of(2) * t)
}

/// The lights are off from three degrees above the horizon on, and full from
/// six below it.
pub proof fn full_at_night_and_off_by_day(sun_elevation: Binary64)
    ensures
        angle::to_degrees(sun_elevation).is_finite() && angle::to_degrees(sun_elevation).value() <= -6
            * Binary64::one() ==> light_intensity_fraction(sun_elevation).value()
            == Binary32::one(),
        angle::to_degrees(sun_elevation).is_finite() && angle::to_degrees(sun_elevation).value() >= 3
            * Binary64::one() ==> light_intensity_fraction(sun_elevation).value() == 0,
        !angle::to_degrees(sun_elevation).is_finite() ==> light_intensity_fraction(
            sun_elevation,
        ).value() == 0,
{
    let degrees = angle::to_degrees(sun_elevation);
    let one = Binary64::of(1);
    let off = Binary64::of(3);
    let on = Binary64::of(6).negate();
    binary32::lemma_of(0);
    if degrees.is_finite() && (degrees.value() <= -6 * Binary64::one() || degrees.value() >= 3
        * Binary64::one()) {
        binary64::lemma_of(0);
        binary64::lemma_of(1);
        binary64::lemma_of(3);
        binary64::lemma_of(6);
        binary64::lemma_of(9);
        binary64::lemma_negate(Binary64::of(6));
        binary64::lemma_negate(on);
        binary64::lemma_add(off, on.negate());
        binary64::lemma_round_exact(Binary64::of(9), 1);
        let span = off - on;
        binary64::lemma_finite_below(span, Binary64::of(9));
        binary64::lemma_negate(degrees);
        binary64::lemma_add(off, degrees.negate());
        let gap = off - degrees;
        let exact = off.value() - degrees.value();
        let ratio = gap / span;
        let t = dusk_fraction(degrees);
        if degrees.value() >= 3 * Binary64::one() {
            binary64::lemma_round_exact(Binary64::of(0), 1);
            binary64::lemma_round_monotone(exact, 0, 1);
            assert(gap.value() <= 0);
            assert(!ratio.is_nan() && ratio.value() <= 0) by {
                if gap.is_finite() {
                    binary64::lemma_div(gap, span);
                    let d = span.value() as nat;
                    binary64::lemma_round_exact(Binary64::of(0), d);
                    assert(gap.value() * Binary64::one() <= 0 && 0 * d == 0) by (nonlinear_arith)
                        requires
                            gap.value() <= 0,
                            Binary64::one() > 0,
                    ;
                    binary64::lemma_round_monotone(gap.value() * Binary64::one(), 0, d);
                } else {
                    binary64::lemma_div_infinite(gap, span);
                }
            }
            binary64::lemma_order(ratio, Binary64::of(0));
            binary64::lemma_order(one, ratio);
            assert(t.value() == 0);
            binary64::lemma_finite_below(t, one);
            binary64::lemma_narrow_zero(t);
            lemma_smoothstep_ends(t.to_binary32());
        } else {
            binary64::lemma_round_monotone((9 * Binary64::one()) as int, exact, 1);
            assert(gap.value() >= 9 * Binary64::one());
            assert(!ratio.is_nan() && ratio.value() >= Binary64::one()) by {
                if gap.is_finite() {
                    binary64::lemma_div(gap, span);
                    let d = span.value() as nat;
                    binary64::lemma_round_exact(one, d);
                    assert(gap.value() * Binary64::one() >= one.value() * d) by (nonlinear_arith)
                        requires
                            gap.value() >= d,
                            one.value() == Binary64::one(),
                            Binary64::one() > 0,
                    ;
                    binary64::lemma_round_monotone(
                        one.value() * d,
                        gap.value() * Binary64::one(),
                        d,
                    );
                } else {
                    binary64::lemma_div_infinite(gap, span);
                }
            }
            binary64::lemma_order(ratio, Binary64::of(0));
            binary64::lemma_order(one, ratio);
            assert(t.value() == Binary64::one());
            binary64::lemma_finite_below(t, one);
            binary64::lemma_narrow_one(t);
            lemma_smoothstep_ends(t.to_binary32());
        }
    }
}

proof fn lemma_smoothstep_ends(t: Binary32)
    requires
        t.is_finite(),
        t.value() == 0 || t.value() == Binary32::one(),
    ensures
        smoothstep(t).value() == t.value(),
{
    let two = Binary32::of(2);
    let three = Binary32::of(3);
    binary32::lemma_of(0);
    binary32::lemma_of(1);
    binary32::lemma_of(2);
    binary32::lemma_of(3);
    if t.value() == 0 {
        binary32::lemma_zero_factor(t, t);
        binary32::lemma_zero_factor(t, two);
        binary32::lemma_negate(two * t);
        binary32::lemma_add(three, (two * t).negate());
        binary32::lemma_round_exact(three, 1);
        binary32::lemma_finite_below(three - two * t, three);
        binary32::lemma_zero_factor(t * t, three - two * t);
    } else {
        binary32::lemma_times_one(t, t);
        binary32::lemma_times_one(two, t);
        binary32::lemma_negate(two * t);
        binary32::lemma_add(three, (two * t).negate());
        binary32::lemma_round_exact(Binary32::of(1), 1);
        binary32::lemma_finite_below(three - two * t, Binary32::of(1));
        binary32::lemma_times_one(t * t, three - two * t);
    }
}

/// What a number counts as in single precision.
proof fn lemma_narrowed_value(a: Binary64)
    requires
        a.is_finite(),
    ensures
        a.to_binary32().value() == number::round_signed(
            Format::Single,
            a.value() * pow2(149),
            pow2(1074),
        ),
{
    reveal(Binary64::spec_to_binary32);
    reveal(Binary64::spec_is_finite);
    let (f, g) = (Format::Double, Format::Single);
    number::lemma_constants(f);
    number::lemma_constants(g);
    let (u, w) = (pow2(1074), pow2(149));
    lemma_pow2_pos(1074);
    lemma_pow2_pos(149);
    let m = a.number().magnitude(f);
    number::lemma_rounded(g, a.number().negative, m * w, u);
    rounding::lemma_round_zero(g, u);
    assert((-(m as int)) * w == -(m * w) && m * w >= 0 && (m > 0 ==> m * w > 0) && 0 * w == 0)
        by (nonlinear_arith)
        requires
            w > 0,
            m >= 0,
    ;
    let n = Number::rounded(g, a.number().negative, m * w, u);
    assert(a.to_binary32().number() == n);
}

/// In single precision a larger number is no less.
proof fn lemma_narrowing_keeps_order(a: Binary64, b: Binary64)
    requires
        a.is_finite(),
        b.is_finite(),
        a.value() <= b.value(),
    ensures
        a.to_binary32().value() <= b.to_binary32().value(),
{
    lemma_narrowed_value(a);
    lemma_narrowed_value(b);
    lemma_pow2_pos(1074);
    let w = pow2(149) as int;
    assert(a.value() * w <= b.value() * w) by (nonlinear_arith)
        requires
            a.value() <= b.value(),
            w >= 0,
    ;
    number::lemma_round_signed_monotone(Format::Single, a.value() * w, b.value() * w, pow2(1074));
}

/// How far the lights have come up is a share, and no less for a lower sun.
proof fn lemma_dusk(low: Binary64, high: Binary64)
    requires
        low.is_finite(),
        high.is_finite(),
        low.value() <= high.value(),
    ensures
        dusk_fraction(low).is_finite(),
        dusk_fraction(high).is_finite(),
        0 <= dusk_fraction(high).value() <= dusk_fraction(low).value() <= Binary64::one(),
{
    let (zero, one) = (Binary64::of(0), Binary64::of(1));
    let off = Binary64::of(3);
    let on = Binary64::of(6).negate();
    binary64::lemma_of(0);
    binary64::lemma_of(1);
    binary64::lemma_of(3);
    binary64::lemma_of(6);
    binary64::lemma_of(9);
    binary64::lemma_negate(Binary64::of(6));
    binary64::lemma_negate(on);
    binary64::lemma_add(off, on.negate());
    binary64::lemma_order(Binary64::of(9), zero);
    binary64::lemma_round_exact(Binary64::of(9), 1);
    let span = off - on;
    assert(span == off + on.negate());
    binary64::lemma_finite_below(span, Binary64::of(9));
    binary64::lemma_negate(low);
    binary64::lemma_negate(high);
    near::lemma_sum_grows(high.negate(), low.negate(), off);
    sign::lemma_sum_commutes(high.negate(), off);
    sign::lemma_sum_commutes(low.negate(), off);
    let (p, q) = (off - high, off - low);
    assert(p == off + high.negate() && q == off + low.negate());
    lemma_divided_grows(p, q, span);
    let (s, t) = (p / span, q / span);
    binary64::lemma_order(s, zero);
    binary64::lemma_order(one, s);
    binary64::lemma_order(t, zero);
    binary64::lemma_order(one, t);
    binary64::lemma_finite_below(dusk_fraction(low), one);
    binary64::lemma_finite_below(dusk_fraction(high), one);
}

/// More, divided by the same, is no less.
proof fn lemma_divided_grows(p: Binary64, q: Binary64, span: Binary64)
    requires
        !p.is_nan(),
        !q.is_nan(),
        p.value() <= q.value(),
        span.is_finite(),
        span.value() >= Binary64::one(),
        Binary64::one() > 0,
    ensures
        !(p / span).is_nan(),
        !(q / span).is_nan(),
        (p / span).value() <= (q / span).value(),
{
    if p.is_finite() && q.is_finite() {
        near::lemma_quotient_grows(p, q, span);
    } else if !p.is_finite() && !q.is_finite() {
        binary64::lemma_div_infinite(p, span);
        binary64::lemma_div_infinite(q, span);
    } else if p.is_finite() {
        binary64::lemma_div_infinite(q, span);
        lemma_quotient_shrinks(p, span);
        binary64::lemma_abs(p);
        if q.value() <= number::magnitude_of(p.value()) && -number::magnitude_of(p.value())
            <= q.value() {
            binary64::lemma_finite_below(q, p.abs());
        }
    } else {
        binary64::lemma_div_infinite(p, span);
        lemma_quotient_shrinks(q, span);
        binary64::lemma_abs(q);
        if p.value() <= number::magnitude_of(q.value()) && -number::magnitude_of(q.value())
            <= p.value() {
            binary64::lemma_finite_below(p, q.abs());
        }
    }
}

/// A quotient by one or more is no larger.
proof fn lemma_quotient_shrinks(p: Binary64, span: Binary64)
    requires
        p.is_finite(),
        span.is_finite(),
        span.value() >= Binary64::one(),
        Binary64::one() > 0,
    ensures
        !(p / span).is_nan(),
        -number::magnitude_of(p.value()) <= (p / span).value() <= number::magnitude_of(p.value()),
{
    let o = Binary64::one() as int;
    let d = span.value();
    let (low, high) = (p.abs().negate(), p.abs());
    binary64::lemma_abs(p);
    binary64::lemma_negate(p.abs());
    let m = number::magnitude_of(p.value()) as int;
    assert((-m) * d <= p.value() * o <= m * d) by (nonlinear_arith)
        requires
            -m <= p.value() <= m,
            m >= 0,
            d >= o,
            o > 0,
    ;
    binary64::lemma_quotient_between(p, span, low, high);
    binary64::lemma_order(p / span, p);
}

/// The lights never dim while the sun sinks. The curve is rounded at every step,
/// so they may come out darker by what that can do, and by no more: fourteen
/// parts in two to the twenty-four.
pub proof fn the_lights_never_dim_while_the_sun_sinks(low: Binary64, high: Binary64)
    requires
        angle::to_degrees(low).is_finite(),
        angle::to_degrees(high).is_finite(),
        low.value() <= high.value(),
    ensures
        light_intensity_fraction(high).value() * 0x1000000 <= light_intensity_fraction(low).value()
            * 0x1000000 + 14 * Binary32::one(),
{
    let k = Binary64::of(180) / angle::pi();
    lemma_factor();
    lemma_finite_factor(low, k);
    lemma_finite_factor(high, k);
    near::lemma_product_grows(low, high, k);
    let (a, b) = (angle::to_degrees(low), angle::to_degrees(high));
    lemma_dusk(a, b);
    let (s, t) = (dusk_fraction(b), dusk_fraction(a));
    let (zero, one) = (Binary64::of(0), Binary64::of(1));
    binary64::lemma_of(0);
    binary64::lemma_of(1);
    binary32::lemma_of(0);
    binary32::lemma_of(1);
    lemma_narrowing_keeps_order(s, t);
    lemma_narrowing_keeps_order(zero, s);
    lemma_narrowing_keeps_order(t, one);
    binary64::lemma_narrow_zero(zero);
    binary64::lemma_narrow_one(one);
    binary64::lemma_order(s, t);
    binary64::lemma_narrow_number(s);
    binary64::lemma_narrow_number(t);
    binary32::lemma_finite_below(s.to_binary32(), Binary32::of(1));
    binary32::lemma_finite_below(t.to_binary32(), Binary32::of(1));
    fine::lemma_crumb();
    fine::lemma_curve_rises(s.to_binary32(), t.to_binary32(), 0);
}

/// Degrees per radian.
proof fn lemma_factor()
    ensures
        (Binary64::of(180) / angle::pi()).is_finite(),
        (Binary64::of(180) / angle::pi()).value() > 0,
{
    angle::lemma_pi();
    binary64::lemma_of(1);
    binary64::lemma_of(180);
    let o = Binary64::one() as int;
    let p = angle::pi().value();
    assert(o * p <= (180 * o) * o <= (180 * o) * p) by (nonlinear_arith)
        requires
            o <= p <= 180 * o,
            o > 0,
    ;
    binary64::lemma_quotient_between(
        Binary64::of(180),
        angle::pi(),
        Binary64::of(1),
        Binary64::of(180),
    );
}

/// A factor of a finite product is finite.
proof fn lemma_finite_factor(a: Binary64, k: Binary64)
    requires
        (a * k).is_finite(),
    ensures
        a.is_finite(),
{
    reveal(Binary64::spec_mul);
    reveal(Binary64::spec_is_finite);
    number::lemma_constants(Format::Double);
}

/// A light by its place on the runway.
#[derive(Clone, Copy, PartialEq, Eq, Debug, Structural)]
pub struct RunwayLight {
    /// Ahead of the threshold.
    pub along: Binary64,
    /// To the right of the centre line.
    pub across: Binary64,
    pub color: Rgb,
}

pub open spec fn spec_edge_color() -> Rgb {
    Rgb::thousandths(1000, 980, 900)
}

/// White edges.
#[verifier::when_used_as_spec(spec_edge_color)]
pub fn edge_color() -> (r: Rgb)
    ensures
        r == edge_color(),
{
    Rgb::thousandths(1000, 980, 900)
}

pub open spec fn spec_threshold_green() -> Rgb {
    Rgb::thousandths(100, 1000, 250)
}

/// Green where the runway begins.
#[verifier::when_used_as_spec(spec_threshold_green)]
pub fn threshold_green() -> (r: Rgb)
    ensures
        r == threshold_green(),
{
    Rgb::thousandths(100, 1000, 250)
}

pub open spec fn spec_end_red() -> Rgb {
    Rgb::thousandths(1000, 120, 100)
}

/// Red where the runway ends.
#[verifier::when_used_as_spec(spec_end_red)]
pub fn end_red() -> (r: Rgb)
    ensures
        r == end_red(),
{
    Rgb::thousandths(1000, 120, 100)
}

/// The runway has a length and a width.
pub open spec fn runway_holds(length: Binary64, width: Binary64) -> bool {
    length.is_finite() && !(length <= Binary64::of(0)) && width.is_finite() && !(width
        <= Binary64::of(0))
}

/// How many equal intervals of at most 60 metres cover the runway.
pub open spec fn edge_intervals(length: Binary64) -> i64 {
    (length / Binary64::of(60)).ceil().max(Binary64::of(1)).to_integer(0, i64::MAX)
}

/// One, to the right, or minus one.
pub open spec fn side_spec(i: int) -> Binary64 {
    if i % 2 == 0 {
        Binary64::of(1).negate()
    } else {
        Binary64::of(1)
    }
}

/// The edge lights: at every interval, both ends counted, left before right.
pub open spec fn edge_lights(length: Binary64, width: Binary64) -> Seq<RunwayLight> {
    let n = edge_intervals(length);
    Seq::new(
        (2 * (n + 1)) as nat,
        |i: int|
            RunwayLight {
                along: (length * Binary64::of((i / 2) as i64)) / Binary64::of(n),
                across: side_spec(i) * (width * Binary64::ratio(1, 2) + Binary64::ratio(3, 2)),
                color: edge_color(),
            },
    )
}

/// The ten lights across one end: five places from the centre line outwards,
/// each on both sides.
pub open spec fn end_lights(along: Binary64, width: Binary64, color: Rgb) -> Seq<RunwayLight> {
    Seq::new(
        10,
        |i: int|
            RunwayLight {
                along,
                across: side_spec(i) * ((((Binary64::of((i / 2) as i64) + Binary64::ratio(1, 2))
                    / Binary64::of(5)) * width) * Binary64::ratio(1, 2)),
                color,
            },
    )
}

/// All lights of a runway; none where it has no length or width.
pub open spec fn runway_lights_spec(length: Binary64, width: Binary64) -> Seq<RunwayLight> {
    if runway_holds(length, width) {
        edge_lights(length, width) + end_lights(Binary64::of(0), width, threshold_green())
            + end_lights(length, width, end_red())
    } else {
        Seq::empty()
    }
}

/// The lights must be addressable.
pub open spec fn lights_fit(length: Binary64, width: Binary64) -> bool {
    runway_holds(length, width) ==> edge_intervals(length) <= 0x1ffffff0
}

pub proof fn lemma_intervals(length: Binary64)
    ensures
        edge_intervals(length) >= 0,
{
    reveal(Binary64::spec_to_integer);
}

/// The lights of a runway of this size can be numbered.
pub fn can_be_lit(length: Binary64, width: Binary64) -> (r: bool)
    ensures
        r == lights_fit(length, width),
{
    if !length.is_finite() || length.le(Binary64::of(0)) || !width.is_finite() || width.le(
        Binary64::of(0),
    ) {
        return true;
    }
    (length / Binary64::of(60)).ceil().max(Binary64::of(1)).to_integer(0, i64::MAX) <= 0x1ffffff0
}

/// Where the lights of a runway stand. Without a length or a width there are
/// none, and the runway is merely unlit.
pub fn runway_light_layout(length: Binary64, width: Binary64) -> (r: Vec<RunwayLight>)
    requires
        lights_fit(length, width),
    ensures
        r@ == runway_lights_spec(length, width),
{
    if !length.is_finite() || length.le(Binary64::of(0)) {
        return Vec::new();
    }
    if !width.is_finite() || width.le(Binary64::of(0)) {
        return Vec::new();
    }
    proof {
        lemma_intervals(length);
    }
    let mut lights: Vec<RunwayLight> = Vec::new();
    let edge = width * Binary64::ratio(1, 2) + Binary64::ratio(3, 2);
    let intervals: i64 = (length / Binary64::of(60)).ceil().max(Binary64::of(1)).to_integer(
        0,
        i64::MAX,
    );
    let left = Binary64::of(1).negate();
    let right = Binary64::of(1);
    let mut step: i64 = 0;
    while step <= intervals
        invariant
            0 <= step <= intervals + 1,
            0 <= intervals <= 0x1ffffff0,
            intervals == edge_intervals(length),
            edge == width * Binary64::ratio(1, 2) + Binary64::ratio(3, 2),
            left == Binary64::of(1).negate(),
            right == Binary64::of(1),
            lights@ == edge_lights(length, width).take(2 * step as int),
        decreases intervals + 1 - step,
    {
        let along = (length * Binary64::of(step)) / Binary64::of(intervals);
        let ghost prior = lights@;
        lights.push(RunwayLight { along, across: left * edge, color: edge_color() });
        lights.push(RunwayLight { along, across: right * edge, color: edge_color() });
        proof {
            let all = edge_lights(length, width);
            let k = 2 * step as int;
            assert(k / 2 == step && k % 2 == 0 && (k + 1) / 2 == step && (k + 1) % 2 == 1);
            assert(all.take(k + 2) =~= all.take(k).push(all[k]).push(all[k + 1]));
            assert(lights@ =~= all.take(k + 2));
        }
        step = step + 1;
    }
    assert(lights@ =~= edge_lights(length, width));
    push_end(&mut lights, Binary64::of(0), width, threshold_green());
    push_end(&mut lights, length, width, end_red());
    lights
}

fn push_end(lights: &mut Vec<RunwayLight>, along: Binary64, width: Binary64, color: Rgb)
    ensures
        final(lights)@ == old(lights)@ + end_lights(along, width, color),
{
    let left = Binary64::of(1).negate();
    let right = Binary64::of(1);
    let ghost before = lights@;
    let mut index: i64 = 0;
    while index < 5
        invariant
            0 <= index <= 5,
            left == Binary64::of(1).negate(),
            right == Binary64::of(1),
            lights@ == before + end_lights(along, width, color).take(2 * index as int),
        decreases 5 - index,
    {
        let fraction = (Binary64::of(index) + Binary64::ratio(1, 2)) / Binary64::of(5);
        let offset = (fraction * width) * Binary64::ratio(1, 2);
        let ghost prior = lights@;
        lights.push(RunwayLight { along, across: left * offset, color });
        lights.push(RunwayLight { along, across: right * offset, color });
        proof {
            let all = end_lights(along, width, color);
            let k = 2 * index as int;
            assert(k / 2 == index && k % 2 == 0 && (k + 1) / 2 == index && (k + 1) % 2 == 1);
            assert(all.take(k + 2) =~= all.take(k).push(all[k]).push(all[k + 1]));
            assert(lights@ =~= before + all.take(k + 2));
        }
        index = index + 1;
    }
    assert(end_lights(along, width, color).take(10) =~= end_lights(along, width, color));
}

/// The lights of one colour.
#[derive(Debug)]
pub struct LightGroup {
    pub color: Rgb,
    pub lights: Vec<RunwayLight>,
}

/// What a group of lights holds.
#[verifier::ext_equal]
pub struct ColorGroup {
    pub color: Rgb,
    pub lights: Seq<RunwayLight>,
}

impl View for LightGroup {
    type V = ColorGroup;

    open spec fn view(&self) -> ColorGroup {
        ColorGroup { color: self.color, lights: self.lights@ }
    }
}

/// What the groups hold.
pub open spec fn color_groups(groups: Seq<LightGroup>) -> Seq<ColorGroup> {
    Seq::new(groups.len(), |i: int| groups[i]@)
}

/// The first group of a colour from `from` on, or the number of groups.
pub open spec fn group_index(groups: Seq<ColorGroup>, color: Rgb, from: int) -> int
    decreases groups.len() - from,
{
    if from >= groups.len() || groups[from].color == color {
        from
    } else {
        group_index(groups, color, from + 1)
    }
}

/// The groups with one more light: in the group of its colour, or in a new one
/// behind the others.
pub open spec fn with_light(groups: Seq<ColorGroup>, light: RunwayLight) -> Seq<ColorGroup> {
    let i = group_index(groups, light.color, 0);
    if i < groups.len() {
        groups.update(
            i,
            ColorGroup { color: light.color, lights: groups[i].lights.push(light) },
        )
    } else {
        groups.push(ColorGroup { color: light.color, lights: seq![light] })
    }
}

/// The lights gathered by colour, colours in the order of their first light.
pub open spec fn grouped(lights: Seq<RunwayLight>) -> Seq<ColorGroup>
    decreases lights.len(),
{
    if lights.len() == 0 {
        Seq::empty()
    } else {
        with_light(grouped(lights.drop_last()), lights.last())
    }
}

proof fn lemma_group_index(groups: Seq<ColorGroup>, color: Rgb, from: int)
    requires
        0 <= from <= groups.len(),
    ensures
        from <= group_index(groups, color, from) <= groups.len(),
        group_index(groups, color, from) < groups.len() ==> groups[group_index(
            groups,
            color,
            from,
        )].color == color,
        forall|j: int|
            from <= j < group_index(groups, color, from) ==> (#[trigger] groups[j]).color != color,
    decreases groups.len() - from,
{
    if from < groups.len() && groups[from].color != color {
        lemma_group_index(groups, color, from + 1);
    }
}

/// The lights of a colour, in their order.
pub open spec fn of_color(lights: Seq<RunwayLight>, color: Rgb) -> Seq<RunwayLight>
    decreases lights.len(),
{
    if lights.len() == 0 {
        Seq::empty()
    } else if lights.last().color == color {
        of_color(lights.drop_last(), color).push(lights.last())
    } else {
        of_color(lights.drop_last(), color)
    }
}

/// A group has this colour.
pub open spec fn has_group(groups: Seq<ColorGroup>, color: Rgb) -> bool {
    exists|i: int| 0 <= i < groups.len() && (#[trigger] groups[i]).color == color
}

/// A light has this colour.
pub open spec fn has_color(lights: Seq<RunwayLight>, color: Rgb) -> bool {
    exists|k: int| 0 <= k < lights.len() && (#[trigger] lights[k]).color == color
}

/// No two groups share a colour, each holds exactly the lights of its colour in
/// their order, and there is a group for a colour where there is a light of it.
pub proof fn groups_partition_the_lights(lights: Seq<RunwayLight>)
    ensures
        forall|i: int, j: int|
            0 <= i < j < grouped(lights).len() ==> (#[trigger] grouped(lights)[i]).color != (
            #[trigger] grouped(lights)[j]).color,
        forall|i: int|
            0 <= i < grouped(lights).len() ==> (#[trigger] grouped(lights)[i]).lights == of_color(
                lights,
                grouped(lights)[i].color,
            ),
        forall|color: Rgb| has_group(grouped(lights), color) <==> #[trigger] has_color(lights, color),
    decreases lights.len(),
{
    if lights.len() > 0 {
        let rest = lights.drop_last();
        let light = lights.last();
        let before = grouped(rest);
        let after = grouped(lights);
        groups_partition_the_lights(rest);
        lemma_group_index(before, light.color, 0);
        let at = group_index(before, light.color, 0);
        assert forall|color: Rgb| has_color(lights, color) <==> #[trigger] has_color(rest, color)
            || color == light.color by {
            if has_color(rest, color) {
                let k = choose|k: int| 0 <= k < rest.len() && (#[trigger] rest[k]).color == color;
                assert(lights[k].color == color);
            }
            if color == light.color {
                assert(lights[lights.len() - 1].color == color);
            }
            if has_color(lights, color) && color != light.color {
                let k = choose|k: int| 0 <= k < lights.len() && (#[trigger] lights[k]).color == color;
                assert(rest[k].color == color);
            }
        }
        assert forall|color: Rgb| #[trigger] has_color(lights, color) implies has_group(
            after,
            color,
        ) by {
            if color == light.color {
                assert(after[at].color == color);
            } else {
                assert(has_color(rest, color));
                let i = choose|i: int| 0 <= i < before.len() && (#[trigger] before[i]).color == color;
                assert(after[i].color == color);
            }
        }
        assert forall|color: Rgb| has_group(after, color) implies #[trigger] has_color(
            lights,
            color,
        ) by {
            let i = choose|i: int| 0 <= i < after.len() && (#[trigger] after[i]).color == color;
            if i < before.len() {
                assert(before[i].color == color);
                assert(has_group(before, color));
                assert(has_color(rest, color));
            }
        }
        assert forall|i: int| 0 <= i < after.len() implies (#[trigger] after[i]).lights == of_color(
            lights,
            after[i].color,
        ) by {
            if i < before.len() {
                assert(before[i].color == after[i].color);
            } else {
                assert(!has_group(before, light.color));
                assert(!has_color(rest, light.color));
                lemma_no_color(rest, light.color);
                assert(after[i].lights =~= seq![light]);
            }
        }
    }
}

proof fn lemma_no_color(lights: Seq<RunwayLight>, color: Rgb)
    requires
        !has_color(lights, color),
    ensures
        of_color(lights, color) == Seq::<RunwayLight>::empty(),
    decreases lights.len(),
{
    if lights.len() > 0 {
        let rest = lights.drop_last();
        assert(lights[lights.len() - 1].color != color);
        assert(!has_color(rest, color)) by {
            if has_color(rest, color) {
                let k = choose|k: int| 0 <= k < rest.len() && (#[trigger] rest[k]).color == color;
                assert(lights[k].color == color);
            }
        }
        lemma_no_color(rest, color);
    }
}

proof fn lemma_of_color_len(lights: Seq<RunwayLight>, color: Rgb)
    ensures
        of_color(lights, color).len() <= lights.len(),
    decreases lights.len(),
{
    if lights.len() > 0 {
        lemma_of_color_len(lights.drop_last(), color);
    }
}

/// A runway's lights are drawn in three groups at most.
pub proof fn a_runway_has_three_groups_at_most(length: Binary64, width: Binary64)
    ensures
        grouped(runway_lights_spec(length, width)).len() <= 3,
{
    let lights = runway_lights_spec(length, width);
    let groups = grouped(lights);
    groups_partition_the_lights(lights);
    assert forall|i: int| 0 <= i < groups.len() implies (#[trigger] groups[i]).color == edge_color()
        || groups[i].color == threshold_green() || groups[i].color == end_red() by {
        assert(has_group(groups, groups[i].color));
        assert(has_color(lights, groups[i].color));
        let k = choose|k: int| 0 <= k < lights.len() && (#[trigger] lights[k]).color == groups[i].color;
        assert(lights[k].color == edge_color() || lights[k].color == threshold_green()
            || lights[k].color == end_red());
    }
    if groups.len() > 3 {
        assert(groups[0].color != groups[1].color);
        assert(groups[0].color != groups[2].color);
        assert(groups[0].color != groups[3].color);
        assert(groups[1].color != groups[2].color);
        assert(groups[1].color != groups[3].color);
        assert(groups[2].color != groups[3].color);
    }
}

/// Gathers lights by colour.
pub fn group_by_color(lights: &Vec<RunwayLight>) -> (r: Vec<LightGroup>)
    ensures
        color_groups(r@) == grouped(lights@),
{
    let mut groups: Vec<LightGroup> = Vec::new();
    let mut k: usize = 0;
    assert(color_groups(groups@) =~= grouped(lights@.take(0)));
    while k < lights.len()
        invariant
            k <= lights@.len(),
            color_groups(groups@) == grouped(lights@.take(k as int)),
        decreases lights@.len() - k,
    {
        let light = lights[k];
        let ghost before = color_groups(groups@);
        let mut i: usize = 0;
        while i < groups.len() && groups[i].color != light.color
            invariant
                i <= groups@.len(),
                before == color_groups(groups@),
                group_index(before, light.color, 0) == group_index(before, light.color, i as int),
            decreases groups@.len() - i,
        {
            assert(before[i as int].color == groups@[i as int].color);
            i = i + 1;
        }
        proof {
            if i < groups@.len() {
                assert(before[i as int].color == light.color);
            }
            assert(group_index(before, light.color, 0) == i);
        }
        if i < groups.len() {
            let ghost old_lights = groups@[i as int].lights@;
            groups[i].lights.push(light);
            assert(color_groups(groups@) =~= with_light(before, light));
        } else {
            let mut first: Vec<RunwayLight> = Vec::new();
            first.push(light);
            assert(first@ =~= seq![light]);
            groups.push(LightGroup { color: light.color, lights: first });
            assert(color_groups(groups@) =~= with_light(before, light));
        }
        assert(lights@.take(k + 1).drop_last() =~= lights@.take(k as int));
        k = k + 1;
    }
    assert(lights@.take(k as int) =~= lights@);
    groups
}

/// A corner of the square that shows a light.
pub open spec fn light_corner(
    threshold: Geodetic,
    heading: Bearing,
    light: RunwayLight,
    ahead: Binary64,
    aside: Binary64,
) -> SurfaceVertex {
    SurfaceVertex::ahead(
        threshold,
        heading,
        light.along + ahead,
        light.across + aside,
        Binary64::ratio(12, 100),
        light.color,
    )
}

/// The squares of lights, in order.
pub open spec fn light_quads(
    threshold: Geodetic,
    heading: Bearing,
    lights: Seq<RunwayLight>,
) -> MeshView<SurfaceVertex>
    decreases lights.len(),
{
    if lights.len() == 0 {
        MeshView::empty()
    } else {
        let light = lights.last();
        let half = Binary64::ratio(16, 10) * Binary64::ratio(1, 2);
        light_quads(threshold, heading, lights.drop_last()).with_quad(
            light_corner(threshold, heading, light, half.negate(), half.negate()),
            light_corner(threshold, heading, light, half.negate(), half),
            light_corner(threshold, heading, light, half, half),
            light_corner(threshold, heading, light, half, half.negate()),
            false,
        )
    }
}

/// Every light is one square, and the mesh of the squares is well-formed.
pub proof fn each_light_is_one_quad(
    threshold: Geodetic,
    heading: Bearing,
    lights: Seq<RunwayLight>,
)
    ensures
        light_quads(threshold, heading, lights).vertices.len() == 4 * lights.len(),
        light_quads(threshold, heading, lights).indices.len() == 6 * lights.len(),
        light_quads(threshold, heading, lights).well_formed(),
    decreases lights.len(),
{
    if lights.len() > 0 {
        each_light_is_one_quad(threshold, heading, lights.drop_last());
        let light = lights.last();
        let half = Binary64::ratio(16, 10) * Binary64::ratio(1, 2);
        mesh::adding_keeps_meshes_well_formed(
            light_quads(threshold, heading, lights.drop_last()),
            light_corner(threshold, heading, light, half.negate(), half.negate()),
            light_corner(threshold, heading, light, half.negate(), half),
            light_corner(threshold, heading, light, half, half),
            light_corner(threshold, heading, light, half, half.negate()),
            false,
            Seq::empty(),
        );
    }
}

/// The squares of lights, in order.
pub fn quads_for(threshold: Geodetic, heading: Bearing, lights: &Vec<RunwayLight>) -> (r:
    SurfaceMesh)
    requires
        lights@.len() <= 0x3fffffff,
    ensures
        r@ == light_quads(threshold, heading, lights@),
{
    let half = Binary64::ratio(16, 10) * Binary64::ratio(1, 2);
    let low = half.negate();
    let lift = Binary64::ratio(12, 100);
    let mut out = SurfaceMesh::new();
    let mut k: usize = 0;
    assert(lights@.take(0) =~= Seq::<RunwayLight>::empty());
    while k < lights.len()
        invariant
            k <= lights@.len() <= 0x3fffffff,
            half == Binary64::ratio(16, 10) * Binary64::ratio(1, 2),
            low == half.negate(),
            lift == Binary64::ratio(12, 100),
            out@ == light_quads(threshold, heading, lights@.take(k as int)),
        decreases lights@.len() - k,
    {
        let light = lights[k];
        proof {
            each_light_is_one_quad(threshold, heading, lights@.take(k as int));
            assert(lights@.take(k + 1).drop_last() =~= lights@.take(k as int));
            assert(lights@.take(k + 1).last() == light);
        }
        out.push_quad(
            SurfaceVertex::ahead(
                threshold,
                heading,
                light.along + low,
                light.across + low,
                lift,
                light.color,
            ),
            SurfaceVertex::ahead(
                threshold,
                heading,
                light.along + low,
                light.across + half,
                lift,
                light.color,
            ),
            SurfaceVertex::ahead(
                threshold,
                heading,
                light.along + half,
                light.across + half,
                lift,
                light.color,
            ),
            SurfaceVertex::ahead(
                threshold,
                heading,
                light.along + half,
                light.across + low,
                lift,
                light.color,
            ),
            false,
        );
        k = k + 1;
    }
    assert(lights@.take(k as int) =~= lights@);
    out
}

/// The lights of one colour, drawn.
#[derive(Debug)]
pub struct RunwayLightGroup {
    pub mesh: SurfaceMesh,
    pub material: Lamp,
    pub color: Rgb,
    pub marker: LampMarker,
}

/// What a group holds.
#[verifier::ext_equal]
pub struct RunwayGroupView {
    pub mesh: MeshView<SurfaceVertex>,
    pub material: Lamp,
    pub color: Rgb,
    pub marker: LampMarker,
}

impl View for RunwayLightGroup {
    type V = RunwayGroupView;

    open spec fn view(&self) -> RunwayGroupView {
        RunwayGroupView {
            mesh: self.mesh@,
            material: self.material,
            color: self.color,
            marker: self.marker,
        }
    }
}

/// The lights of one colour, drawn.
pub open spec fn drawn_group(threshold: Geodetic, heading: Bearing, group: ColorGroup) -> RunwayGroupView {
    RunwayGroupView {
        mesh: light_quads(threshold, heading, group.lights),
        material: lamp(group.color),
        color: group.color,
        marker: lamp(group.color).marker(),
    }
}

/// The meshes of a runway's lights, and the place they are drawn from.
#[derive(Debug)]
pub struct RunwayLightPlan {
    pub groups: Vec<RunwayLightGroup>,
    pub origin: SurfaceVertex,
}

/// The middle of the runway, at the height of the lights.
pub open spec fn light_origin(
    threshold: Geodetic,
    heading: Bearing,
    length: Binary64,
) -> SurfaceVertex {
    SurfaceVertex::ahead(
        threshold,
        heading,
        length * Binary64::ratio(1, 2),
        Binary64::of(0),
        Binary64::ratio(12, 100),
        edge_color(),
    )
}

/// The meshes of a runway's lights, one per colour, and the middle of the
/// runway, which is there for an unlit runway too.
pub fn runway_light_meshes(
    threshold: Geodetic,
    heading: Bearing,
    length: Binary64,
    width: Binary64,
) -> (r: RunwayLightPlan)
    requires
        lights_fit(length, width),
    ensures
        r.origin == light_origin(threshold, heading, length),
        r.groups@.len() == grouped(runway_lights_spec(length, width)).len(),
        forall|i: int|
            0 <= i < r.groups@.len() ==> (#[trigger] r.groups@[i])@ == drawn_group(
                threshold,
                heading,
                grouped(runway_lights_spec(length, width))[i],
            ),
{
    let layout = runway_light_layout(length, width);
    let ghost lights = runway_lights_spec(length, width);
    let origin = SurfaceVertex::ahead(
        threshold,
        heading,
        length * Binary64::ratio(1, 2),
        Binary64::of(0),
        Binary64::ratio(12, 100),
        edge_color(),
    );
    let groups = group_by_color(&layout);
    let mut drawn: Vec<RunwayLightGroup> = Vec::new();
    let mut i: usize = 0;
    proof {
        groups_partition_the_lights(lights);
        lemma_intervals(length);
        assert(lights.len() <= 0x3fffffff);
    }
    while i < groups.len()
        invariant
            i <= groups@.len(),
            color_groups(groups@) == grouped(lights),
            lights.len() <= 0x3fffffff,
            forall|j: int|
                0 <= j < grouped(lights).len() ==> (#[trigger] grouped(lights)[j]).lights == of_color(
                    lights,
                    grouped(lights)[j].color,
                ),
            drawn@.len() == i,
            forall|j: int|
                0 <= j < i ==> (#[trigger] drawn@[j])@ == drawn_group(
                    threshold,
                    heading,
                    grouped(lights)[j],
                ),
        decreases groups@.len() - i,
    {
        proof {
            assert(groups@[i as int]@ == grouped(lights)[i as int]);
            lemma_of_color_len(lights, grouped(lights)[i as int].color);
        }
        let mesh = quads_for(threshold, heading, &groups[i].lights);
        let material = lamp(groups[i].color);
        drawn.push(
            RunwayLightGroup { mesh, material, color: groups[i].color, marker: material.marker() },
        );
        i = i + 1;
    }
    RunwayLightPlan { groups: drawn, origin }
}

/// A light that is not too far off to be drawn.
pub open spec fn drawable(light: RunwayLight) -> bool {
    near::sized(light.along, 0x40000) && near::sized(light.across, 0x40000)
}

/// Every triangle of every light faces up.
pub proof fn every_runway_light_faces_up(
    threshold: Geodetic,
    heading: Bearing,
    lights: Seq<RunwayLight>,
)
    requires
        facing::is_direction(heading),
        forall|i: int| 0 <= i < lights.len() ==> drawable(#[trigger] lights[i]),
    ensures
        facing::all_face_up(light_quads(threshold, heading, lights)),
    decreases lights.len(),
{
    if lights.len() > 0 {
        let rest = lights.drop_last();
        assert forall|i: int| 0 <= i < rest.len() implies drawable(#[trigger] rest[i]) by {
            assert(rest[i] == lights[i]);
        }
        every_runway_light_faces_up(threshold, heading, rest);
        each_light_is_one_quad(threshold, heading, rest);
        let light = lights[lights.len() - 1];
        assert(drawable(light));
        let size = Binary64::ratio(16, 10);
        let half = size * Binary64::ratio(1, 2);
        near::lemma_grain();
        near::lemma_small_ratio(16, 10, 2);
        near::lemma_ratio(16, 10);
        near::lemma_small_ratio(1, 2, 1);
        near::lemma_ratio(1, 2);
        near::lemma_small_product(size, Binary64::ratio(1, 2), 2, 1);
        near::lemma_product_between(
            size,
            Binary64::ratio(1, 2),
            0x100000000,
            0x200000000,
            0x70000000,
            0x90000000,
        );
        binary64::lemma_negate(half);
        let low = half.negate();
        near::lemma_small_sum(light.along, low, 0x40000, 3);
        near::lemma_small_sum(light.along, half, 0x40000, 3);
        near::lemma_small_sum(light.across, low, 0x40000, 3);
        near::lemma_small_sum(light.across, half, 0x40000, 3);
        facing::lemma_small_in_reach(light.along + low, 0x40004);
        facing::lemma_small_in_reach(light.along + half, 0x40004);
        facing::lemma_small_in_reach(light.across + low, 0x40004);
        facing::lemma_small_in_reach(light.across + half, 0x40004);
        facing::lemma_with_strip(
            light_quads(threshold, heading, rest),
            threshold,
            heading,
            light.along + low,
            light.along + half,
            light.across + low,
            light.across + half,
            Binary64::ratio(12, 100),
            light.color,
        );
    }
}

proof fn lemma_side(i: int, x: Binary64, m: int)
    requires
        near::sized(x, m),
        0 <= m <= 0x20000,
    ensures
        near::sized(side_spec(i) * x, m + 1),
{
    near::lemma_small_of(1, 1);
    binary64::lemma_negate(Binary64::of(1));
    assert(1 * m == m);
    near::lemma_small_product(side_spec(i), x, 1, m);
}

/// There is one interval at least.
proof fn lemma_some_interval(length: Binary64)
    ensures
        edge_intervals(length) >= 1,
{
    reveal(Binary64::spec_to_integer);
    reveal(Binary64::spec_is_nan);
    let one = Binary64::of(1);
    let steps = (length / Binary64::of(60)).ceil();
    let most = steps.max(one);
    binary64::lemma_of(1);
    binary64::lemma_order(steps, one);
    binary64::lemma_order(one, steps);
    assert(most.value() >= Binary64::one());
    let size = most.value();
    let o = Binary64::one() as int;
    assert(size / o >= 1) by (nonlinear_arith)
        requires
            size >= o,
            o > 0,
    ;
}

/// The lights across an end are not too far off.
proof fn lemma_end_lights(along: Binary64, width: Binary64, color: Rgb, i: int)
    requires
        near::sized(along, 0x10000),
        near::sized(width, 0x1000),
        0 <= i < 10,
    ensures
        drawable(end_lights(along, width, color)[i]),
{
    let half = Binary64::ratio(1, 2);
    let place = Binary64::of((i / 2) as i64);
    near::lemma_grain();
    near::lemma_small_ratio(1, 2, 1);
    near::lemma_small_of((i / 2) as i64, 5);
    near::lemma_small_of(5, 5);
    near::lemma_small_sum(place, half, 5, 1);
    near::lemma_small_quotient(place + half, Binary64::of(5), 7);
    let share = (place + half) / Binary64::of(5);
    near::lemma_small_product(share, width, 7, 0x1000);
    near::lemma_small_product(share * width, half, 28673, 1);
    lemma_side(i, share * width * half, 28674);
    let light = end_lights(along, width, color)[i];
    near::lemma_larger(light.across, 28675, 0x40000);
    near::lemma_larger(along, 0x10000, 0x40000);
}

/// The lights along the edges are not too far off.
proof fn lemma_edge_lights(length: Binary64, width: Binary64, i: int)
    requires
        runway::is_runway(length, width),
        edge_intervals(length) <= 0x1ffffff0,
        0 <= i < 2 * (edge_intervals(length) + 1),
        edge_intervals(length) >= 1,
    ensures
        drawable(edge_lights(length, width)[i]),
{
    let n = edge_intervals(length);
    let j = i / 2;
    let o = Binary64::one() as int;
    let half = Binary64::ratio(1, 2);
    near::lemma_grain();
    binary64::lemma_of(0);
    binary64::lemma_of(j as i64);
    binary64::lemma_of(n);
    binary64::lemma_of(0x10000);
    binary64::lemma_of((0x10000 * n) as i64);
    let (zero, top) = (Binary64::of(0), Binary64::of((0x10000 * n) as i64));
    let v = length.value();
    assert(0 * o <= v * (j * o) <= ((0x10000 * n) * o) * o && 0 * o == 0) by (nonlinear_arith)
        requires
            0 <= v <= 0x10000 * o,
            0 <= j <= n,
            o > 0,
    ;
    binary64::lemma_product_between(length, Binary64::of(j as i64), zero, top);
    let far = length * Binary64::of(j as i64);
    let w = far.value();
    assert(0 * (n * o) <= w * o <= (0x10000 * o) * (n * o) && n * o > 0) by (nonlinear_arith)
        requires
            0 <= w <= (0x10000 * n) * o,
            n >= 1,
            o > 0,
    ;
    binary64::lemma_quotient_between(far, Binary64::of(n), zero, Binary64::of(0x10000));
    near::lemma_small_ratio(1, 2, 1);
    near::lemma_small_ratio(3, 2, 2);
    near::lemma_small_product(width, half, 0x1000, 1);
    let out = width * half + Binary64::ratio(3, 2);
    near::lemma_small_sum(width * half, Binary64::ratio(3, 2), 0x1001, 2);
    lemma_side(i, out, 0x1004);
    let light = edge_lights(length, width)[i];
    near::lemma_larger(light.across, 0x1005, 0x40000);
    near::lemma_larger(light.along, 0x10000, 0x40000);
}

/// Every light of a runway faces up.
pub proof fn the_lights_of_a_runway_face_up(
    threshold: Geodetic,
    heading: Bearing,
    length: Binary64,
    width: Binary64,
)
    requires
        facing::is_direction(heading),
        runway::is_runway(length, width),
        lights_fit(length, width),
    ensures
        facing::all_face_up(
            light_quads(threshold, heading, runway_lights_spec(length, width)),
        ),
{
    let lights = runway_lights_spec(length, width);
    near::lemma_small_of(0, 0x10000);
    if runway_holds(length, width) {
        lemma_some_interval(length);
        let n = 2 * (edge_intervals(length) + 1);
        assert forall|i: int| 0 <= i < lights.len() implies drawable(#[trigger] lights[i]) by {
            if i < n {
                lemma_edge_lights(length, width, i);
            } else if i < n + 10 {
                lemma_end_lights(Binary64::of(0), width, threshold_green(), i - n);
            } else {
                lemma_end_lights(length, width, end_red(), i - n - 10);
            }
        }
    }
    every_runway_light_faces_up(threshold, heading, lights);
}

} // verus!
