//! How time runs, and how much light there is for where the sun stands.
//!
//! The scattering of the sky already filters sunlight, so the light handed over
//! is by default the one above the atmosphere; filtering it here too would turn
//! the evening black before it turns red. Light that comes round into the shade
//! is not scattered that way and is mixed here between night and day.
use crate::angle;
use crate::binary32;
use crate::binary32::Binary32;
use crate::binary64;
use crate::binary64::Binary64;
use crate::render::sun::{JulianDate, UtcDateTime};
use crate::render::surface::Rgb;
use crate::smooth;
use vstd::prelude::*;

verus! {

/// Direct sunlight above the atmosphere, in lux.
pub const EXTRATERRESTRIAL_ILLUMINANCE: i64 = 130_000;

/// Simulated seconds for each real second.
#[derive(Clone, Copy, PartialEq, Eq, Debug, Structural)]
pub struct TimeRate(pub Binary64);

/// The first rate of the list that is above `rate`.
pub open spec fn first_above(rates: Seq<TimeRate>, rate: TimeRate) -> Option<TimeRate>
    decreases rates.len(),
{
    if rates.len() == 0 {
        None
    } else if rates[0].0 > rate.0 {
        Some(rates[0])
    } else {
        first_above(rates.subrange(1, rates.len() as int), rate)
    }
}

/// The last rate of the list that is below `rate`.
pub open spec fn last_below(rates: Seq<TimeRate>, rate: TimeRate) -> Option<TimeRate>
    decreases rates.len(),
{
    if rates.len() == 0 {
        None
    } else if rates.last().0 < rate.0 {
        Some(rates.last())
    } else {
        last_below(rates.drop_last(), rate)
    }
}

impl TimeRate {
    pub open spec fn spec_paused() -> TimeRate {
        TimeRate(Binary64::of(0))
    }

    /// Time stands still.
    #[verifier::when_used_as_spec(spec_paused)]
    pub fn paused() -> (r: TimeRate)
        ensures
            r == TimeRate::paused(),
    {
        TimeRate(Binary64::of(0))
    }

    pub open spec fn spec_real_time() -> TimeRate {
        TimeRate(Binary64::of(1))
    }

    /// As fast as real time.
    #[verifier::when_used_as_spec(spec_real_time)]
    pub fn real_time() -> (r: TimeRate)
        ensures
            r == TimeRate::real_time(),
    {
        TimeRate(Binary64::of(1))
    }

    pub open spec fn spec_fastest() -> TimeRate {
        TimeRate(Binary64::of(3600))
    }

    /// A day in twenty-four seconds.
    #[verifier::when_used_as_spec(spec_fastest)]
    pub fn fastest() -> (r: TimeRate)
        ensures
            r == TimeRate::fastest(),
    {
        TimeRate(Binary64::of(3600))
    }

    /// The rates that the keys step through.
    pub open spec fn preset_rates() -> Seq<TimeRate> {
        seq![
            TimeRate::paused(),
            TimeRate::real_time(),
            TimeRate(Binary64::of(10)),
            TimeRate(Binary64::of(60)),
            TimeRate(Binary64::of(600)),
            TimeRate::fastest(),
        ]
    }

    /// The rates that the keys step through.
    pub fn presets() -> (r: [TimeRate; 6])
        ensures
            r@ == TimeRate::preset_rates(),
    {
        let r = [
            TimeRate::paused(),
            TimeRate::real_time(),
            TimeRate(Binary64::of(10)),
            TimeRate(Binary64::of(60)),
            TimeRate(Binary64::of(600)),
            TimeRate::fastest(),
        ];
        assert(r@ =~= TimeRate::preset_rates());
        r
    }

    /// The rate as a number.
    pub fn get(self) -> (r: Binary64)
        ensures
            r == self.0,
    {
        self.0
    }

    pub open spec fn spec_is_paused(self) -> bool {
        !(self.0.abs() > Binary64::of(0))
    }

    /// Time stands still; "not a number" counts as that.
    #[verifier::when_used_as_spec(spec_is_paused)]
    pub fn is_paused(self) -> (r: bool)
        ensures
            r == self.is_paused(),
    {
        !self.0.abs().gt(Binary64::of(0))
    }

    /// The next faster preset, the fastest where there is none.
    pub open spec fn faster_spec(self) -> TimeRate {
        match first_above(TimeRate::preset_rates(), self) {
            Some(rate) => rate,
            None => TimeRate::fastest(),
        }
    }

    /// The next faster preset, the fastest where there is none.
    pub fn faster(self) -> (r: TimeRate)
        ensures
            r == self.faster_spec(),
    {
        let presets = TimeRate::presets();
        let ghost all = TimeRate::preset_rates();
        proof {
            assert(all.subrange(0, 6) =~= all);
        }
        let mut i: usize = 0;
        while i < 6
            invariant
                i <= 6,
                presets@ == all,
                all == TimeRate::preset_rates(),
                first_above(all, self) == first_above(all.subrange(i as int, 6), self),
            decreases 6 - i,
        {
            proof {
                let rest = all.subrange(i as int, 6);
                assert(rest.subrange(1, rest.len() as int) =~= all.subrange(i + 1, 6));
            }
            if presets[i].0.gt(self.0) {
                return presets[i];
            }
            i = i + 1;
        }
        TimeRate::fastest()
    }

    /// The next slower preset, the pause where there is none.
    pub open spec fn slower_spec(self) -> TimeRate {
        match last_below(TimeRate::preset_rates(), self) {
            Some(rate) => rate,
            None => TimeRate::paused(),
        }
    }

    /// The next slower preset, the pause where there is none.
    pub fn slower(self) -> (r: TimeRate)
        ensures
            r == self.slower_spec(),
    {
        let presets = TimeRate::presets();
        let ghost all = TimeRate::preset_rates();
        proof {
            assert(all.subrange(0, 6) =~= all);
        }
        let mut i: usize = 6;
        while i > 0
            invariant
                i <= 6,
                presets@ == all,
                all == TimeRate::preset_rates(),
                last_below(all, self) == last_below(all.subrange(0, i as int), self),
            decreases i,
        {
            i = i - 1;
            proof {
                let rest = all.subrange(0, i + 1);
                assert(rest.drop_last() =~= all.subrange(0, i as int));
            }
            if presets[i].0.lt(self.0) {
                return presets[i];
            }
        }
        TimeRate::paused()
    }

    pub open spec fn spec_sanitised(self) -> TimeRate {
        if self.is_paused() || !self.0.is_finite() {
            TimeRate::paused()
        } else {
            TimeRate(self.0.clamp(Binary64::of(0), Binary64::of(21_600)))
        }
    }

    /// The rate made usable: a broken one pauses, and a day takes four seconds
    /// at least.
    #[verifier::when_used_as_spec(spec_sanitised)]
    pub fn sanitised(self) -> (r: TimeRate)
        ensures
            r == self.sanitised(),
    {
        proof {
            binary64::lemma_of(0);
            binary64::lemma_of(21_600);
            binary64::lemma_order(Binary64::of(0), Binary64::of(21_600));
        }
        if self.is_paused() || !self.0.is_finite() {
            TimeRate::paused()
        } else {
            TimeRate(self.0.clamp(Binary64::of(0), Binary64::of(21_600)))
        }
    }
}

impl Default for TimeRate {
    fn default() -> (r: TimeRate)
        ensures
            r == TimeRate::real_time(),
    {
        TimeRate::real_time()
    }
}

/// The time in the simulation. The sun's place depends on nothing else, so the
/// same time gives the same light.
#[derive(Clone, Copy, PartialEq, Eq, Debug, Structural)]
pub struct TimeOfDay {
    pub utc: JulianDate,
    pub rate: TimeRate,
}

impl TimeOfDay {
    pub open spec fn spec_new(utc: JulianDate) -> TimeOfDay {
        TimeOfDay { utc, rate: TimeRate::real_time() }
    }

    /// That moment, running as fast as real time.
    #[verifier::when_used_as_spec(spec_new)]
    pub fn new(utc: JulianDate) -> (r: TimeOfDay)
        ensures
            r == TimeOfDay::new(utc),
    {
        TimeOfDay { utc, rate: TimeRate::real_time() }
    }

    /// The moment at which local mean solar time at a longitude reads `civil`.
    pub fn at_local_mean_solar_time(civil: UtcDateTime, longitude: Binary64) -> (r: TimeOfDay)
        requires
            civil.month <= 2 ==> civil.year > i32::MIN,
        ensures
            r.rate == TimeRate::real_time(),
            r.utc.0 == civil.julian_spec().0 - angle::to_degrees(longitude) / Binary64::of(360),
    {
        TimeOfDay::new(JulianDate::from_local_mean_solar_time(civil, longitude))
    }

    /// The time after so many real seconds. A pause, or a step that would leave
    /// no time at all, changes nothing.
    pub open spec fn advanced_spec(self, elapsed: Binary64) -> TimeOfDay {
        let advanced = self.utc.advanced_by(elapsed * self.rate.0);
        if self.rate.is_paused() || !elapsed.is_finite() || !advanced.is_finite() {
            self
        } else {
            TimeOfDay { utc: advanced, ..self }
        }
    }

    /// So many real seconds go by.
    pub fn advance(&mut self, elapsed: Binary64)
        ensures
            *final(self) == old(self).advanced_spec(elapsed),
    {
        if self.rate.is_paused() || !elapsed.is_finite() {
            return;
        }
        let advanced = self.utc.advanced_by(elapsed * self.rate.0);
        if advanced.is_finite() {
            self.utc = advanced;
        }
    }

    /// A frame of so many real seconds: the rate is made usable first. A paused
    /// clock is left alone altogether, which `false` reports.
    pub fn advance_time_of_day(&mut self, delta: Binary32) -> (r: bool)
        ensures
            r == !old(self).rate.sanitised().is_paused(),
            !r ==> *final(self) == *old(self),
            r ==> *final(self) == (TimeOfDay {
                rate: old(self).rate.sanitised(),
                ..*old(self)
            }).advanced_spec(delta.to_binary64()),
    {
        let rate = self.rate.sanitised();
        if rate.is_paused() {
            return false;
        }
        self.rate = rate;
        self.advance(delta.to_binary64());
        true
    }

    /// The civil date and time.
    pub fn utc_date_time(self) -> (r: UtcDateTime)
        ensures
            r == UtcDateTime::from_julian_spec(self.utc),
    {
        self.utc.to_utc_date_time()
    }
}

impl Default for TimeOfDay {
    /// Half past nine on a midsummer morning in Tokyo.
    fn default() -> (r: TimeOfDay)
        ensures
            r == TimeOfDay::new(
                UtcDateTime::new(2026, 6, 21, 0, 30, Binary64::of(0)).julian_spec(),
            ),
    {
        TimeOfDay::new(UtcDateTime::new(2026, 6, 21, 0, 30, Binary64::of(0)).to_julian_date())
    }
}

/// Which light the sun is given.
#[derive(Clone, Copy, PartialEq, Eq, Debug, Structural)]
pub enum SunIlluminancePolicy {
    /// The light above the atmosphere, for a camera that draws the atmosphere.
    AboveAtmosphere,
    /// The light that reaches the ground, for a camera that does not.
    Attenuated,
}

impl Default for SunIlluminancePolicy {
    fn default() -> (r: SunIlluminancePolicy)
        ensures
            r == SunIlluminancePolicy::AboveAtmosphere,
    {
        SunIlluminancePolicy::AboveAtmosphere
    }
}

/// What sunlight becomes on its way through the air, as far as it takes a sine,
/// a power and an exponential.
#[derive(Clone, Copy, PartialEq, Eq, Debug, Structural)]
pub struct Attenuation {
    /// The sine of the elevation.
    pub sine: Binary64,
    /// The elevation in degrees plus 6.07995, to the power of -1.6364.
    pub power: Binary64,
    /// The exponential of what `attenuation_exponent` says of the other two.
    pub remaining: Binary64,
}

/// The air mass of Kasten and Young, upside down.
pub open spec fn inverse_air_mass(sine: Binary64, power: Binary64) -> Binary64 {
    sine + Binary64::ratio(50572, 100000) * power
}

pub open spec fn spec_attenuation_exponent(sine: Binary64, power: Binary64) -> Binary64 {
    Binary64::ratio(21, 100).negate() * (Binary64::of(1) / inverse_air_mass(sine, power))
}

/// The exponent by which the air thins out sunlight.
#[verifier::when_used_as_spec(spec_attenuation_exponent)]
pub fn attenuation_exponent(sine: Binary64, power: Binary64) -> (r: Binary64)
    ensures
        r == attenuation_exponent(sine, power),
{
    Binary64::ratio(21, 100).negate() * (Binary64::of(1) / (sine + Binary64::ratio(50572, 100000)
        * power))
}

pub open spec fn spec_attenuation_base(elevation: Binary64) -> Option<Binary64> {
    let degrees = angle::to_degrees(elevation);
    if !degrees.is_finite() || degrees <= Binary64::of(0) {
        None
    } else {
        Some(degrees + Binary64::ratio(607995, 100000))
    }
}

/// The base of the power that the air mass takes; none where no sunlight
/// reaches the ground.
#[verifier::when_used_as_spec(spec_attenuation_base)]
pub fn attenuation_base(elevation: Binary64) -> (r: Option<Binary64>)
    ensures
        r == attenuation_base(elevation),
{
    let degrees = angle::to_degrees(elevation);
    if !degrees.is_finite() || degrees.le(Binary64::of(0)) {
        None
    } else {
        Some(degrees + Binary64::ratio(607995, 100000))
    }
}

pub open spec fn spec_direct_normal_illuminance(
    elevation: Binary64,
    extraterrestrial: Binary32,
    path: Attenuation,
) -> Binary32 {
    if attenuation_base(elevation) is None || inverse_air_mass(path.sine, path.power)
        <= Binary64::of(0) {
        Binary32::of(0)
    } else {
        (extraterrestrial.to_binary64() * path.remaining).to_binary32().max(Binary32::of(0))
    }
}

/// The sunlight that reaches the ground, none from the horizon down.
#[verifier::when_used_as_spec(spec_direct_normal_illuminance)]
pub fn direct_normal_illuminance(
    elevation: Binary64,
    extraterrestrial: Binary32,
    path: Attenuation,
) -> (r: Binary32)
    ensures
        r == direct_normal_illuminance(elevation, extraterrestrial, path),
{
    if attenuation_base(elevation).is_none() {
        return Binary32::of(0);
    }
    if (path.sine + Binary64::ratio(50572, 100000) * path.power).le(Binary64::of(0)) {
        return Binary32::of(0);
    }
    (extraterrestrial.to_binary64() * path.remaining).to_binary32().max(Binary32::of(0))
}

pub open spec fn spec_daylight_fraction(elevation: Binary64) -> Binary32 {
    let degrees = angle::to_degrees(elevation);
    if !degrees.is_finite() {
        Binary32::of(0)
    } else {
        let t = ((degrees + Binary64::of(6)) / Binary64::of(12)).clamp(
            Binary64::of(0),
            Binary64::of(1),
        ).to_binary32();
        smooth::smooth32(t)
    }
}

/// How much of it is day: none from six degrees below the horizon down, all
/// from six above, with no kink at either end.
#[verifier::when_used_as_spec(spec_daylight_fraction)]
pub fn daylight_fraction(elevation: Binary64) -> (r: Binary32)
    ensures
        r == daylight_fraction(elevation),
{
    proof {
        binary64::lemma_of(0);
        binary64::lemma_of(1);
        binary64::lemma_order(Binary64::of(0), Binary64::of(1));
    }
    let degrees = angle::to_degrees(elevation);
    if !degrees.is_finite() {
        return Binary32::of(0);
    }
    let t = ((degrees + Binary64::of(6)) / Binary64::of(12)).clamp(
        Binary64::of(0),
        Binary64::of(1),
    ).to_binary32();
    smooth::smooth32(t)
}

pub open spec fn spec_skylight_fraction(sine: Binary64) -> Binary32 {
    if !sine.is_finite() {
        Binary32::of(0)
    } else {
        sine.clamp(Binary64::of(0), Binary64::of(1)).sqrt().to_binary32()
    }
}

/// How strong the light of the sky is for the sine of the sun's elevation: one
/// at the zenith, none at the horizon.
#[verifier::when_used_as_spec(spec_skylight_fraction)]
pub fn skylight_fraction(sine: Binary64) -> (r: Binary32)
    ensures
        r == skylight_fraction(sine),
{
    proof {
        binary64::lemma_of(0);
        binary64::lemma_of(1);
        binary64::lemma_order(Binary64::of(0), Binary64::of(1));
    }
    if !sine.is_finite() {
        return Binary32::of(0);
    }
    sine.clamp(Binary64::of(0), Binary64::of(1)).sqrt().to_binary32()
}

/// Light from all sides: a linear colour and a brightness in candela per square
/// metre.
#[derive(Clone, Copy, PartialEq, Eq, Debug, Structural)]
pub struct AmbientLight {
    pub color: Rgb,
    pub brightness: Binary32,
}

/// How sunlight and the light from all sides are set.
#[derive(Clone, Copy, PartialEq, Eq, Debug, Structural)]
pub struct SunLighting {
    pub policy: SunIlluminancePolicy,
    /// Direct sunlight above the atmosphere, in lux.
    pub raw_illuminance: Binary32,
    /// The light from all sides by day.
    pub daylight_ambient: Binary32,
    /// The light from all sides by night, lifted so that outlines remain.
    pub night_ambient: Binary32,
    /// The colour of the night, as it is named.
    pub night_tint: Rgb,
}

impl Default for SunLighting {
    fn default() -> (r: SunLighting)
        ensures
            r == (SunLighting {
                policy: SunIlluminancePolicy::AboveAtmosphere,
                raw_illuminance: Binary32::of(EXTRATERRESTRIAL_ILLUMINANCE),
                daylight_ambient: Binary32::of(6_000),
                night_ambient: Binary32::of(1_500),
                night_tint: Rgb::thousandths(550, 650, 1000),
            }),
    {
        SunLighting {
            policy: SunIlluminancePolicy::AboveAtmosphere,
            raw_illuminance: Binary32::of(EXTRATERRESTRIAL_ILLUMINANCE),
            daylight_ambient: Binary32::of(6_000),
            night_ambient: Binary32::of(1_500),
            night_tint: Rgb::thousandths(550, 650, 1000),
        }
    }
}

/// A channel mixed between its night value and white.
pub open spec fn towards_white(night: Binary32, day: Binary32) -> Binary32 {
    night + (Binary32::of(1) - night) * day
}

impl SunLighting {
    /// The light to give the sun.
    pub fn illuminance(&self, elevation: Binary64, path: Attenuation) -> (r: Binary32)
        ensures
            r == match self.policy {
                SunIlluminancePolicy::AboveAtmosphere => self.raw_illuminance,
                SunIlluminancePolicy::Attenuated => direct_normal_illuminance(
                    elevation,
                    self.raw_illuminance,
                    path,
                ),
            },
    {
        match self.policy {
            SunIlluminancePolicy::AboveAtmosphere => self.raw_illuminance,
            SunIlluminancePolicy::Attenuated => direct_normal_illuminance(
                elevation,
                self.raw_illuminance,
                path,
            ),
        }
    }

    /// The share of day in the light from all sides. The sky gives three tenths
    /// of it even with the sun on the horizon, so twilight does not vanish.
    pub open spec fn day_share(elevation: Binary64, sine: Binary64) -> Binary32 {
        daylight_fraction(elevation) * (Binary32::ratio(3, 10) + Binary32::ratio(7, 10)
            * skylight_fraction(sine))
    }

    /// The light from all sides for a share of day.
    pub open spec fn mixed(self, night: Rgb, day: Binary32) -> AmbientLight {
        AmbientLight {
            color: Rgb {
                red: towards_white(night.red, day),
                green: towards_white(night.green, day),
                blue: towards_white(night.blue, day),
            },
            brightness: (self.night_ambient + (self.daylight_ambient - self.night_ambient)
                * day).max(Binary32::of(0)),
        }
    }

    /// The light from all sides, mixed between night and day. `sine` is that of
    /// the elevation and `night` the colour of the night made linear.
    pub fn ambient(&self, elevation: Binary64, sine: Binary64, night: Rgb) -> (r: AmbientLight)
        ensures
            r == self.mixed(night, SunLighting::day_share(elevation, sine)),
    {
        let day = daylight_fraction(elevation) * (Binary32::ratio(3, 10) + Binary32::ratio(7, 10)
            * skylight_fraction(sine));
        let brightness = self.night_ambient + (self.daylight_ambient - self.night_ambient) * day;
        let one = Binary32::of(1);
        AmbientLight {
            color: Rgb {
                red: night.red + (one - night.red) * day,
                green: night.green + (one - night.green) * day,
                blue: night.blue + (one - night.blue) * day,
            },
            brightness: brightness.max(Binary32::of(0)),
        }
    }
}

proof fn lemma_preset_values()
    ensures
        forall|i: int|
            0 <= i < 6 ==> (#[trigger] TimeRate::preset_rates()[i]).0.is_finite(),
        forall|i: int, j: int|
            0 <= i < j < 6 ==> (#[trigger] TimeRate::preset_rates()[i]).0.value()
                < (#[trigger] TimeRate::preset_rates()[j]).0.value(),
{
    binary64::lemma_of(0);
    binary64::lemma_of(1);
    binary64::lemma_of(10);
    binary64::lemma_of(60);
    binary64::lemma_of(600);
    binary64::lemma_of(3600);
    let one = Binary64::one();
    assert(0 * one < 1 * one < 10 * one < 60 * one < 600 * one < 3600 * one) by (nonlinear_arith)
        requires
            one > 0,
    ;
}

/// The presets grow from the pause to the fastest.
pub proof fn the_presets_are_sorted(i: int, j: int)
    requires
        0 <= i < j < 6,
    ensures
        TimeRate::preset_rates()[i].0 < TimeRate::preset_rates()[j].0,
{
    lemma_preset_values();
    binary64::lemma_order(TimeRate::preset_rates()[i].0, TimeRate::preset_rates()[j].0);
}

/// Stepping from a preset goes to the one beside it and stops at the ends.
pub proof fn the_keys_step_through_the_presets(i: int)
    requires
        0 <= i < 6,
    ensures
        TimeRate::preset_rates()[i].faster_spec() == TimeRate::preset_rates()[if i < 5 {
            i + 1
        } else {
            5
        }],
        TimeRate::preset_rates()[i].slower_spec() == TimeRate::preset_rates()[if i > 0 {
            i - 1
        } else {
            0
        }],
{
    let all = TimeRate::preset_rates();
    lemma_preset_values();
    lemma_first_above(all, i, 0);
    lemma_last_below(all, i, 6);
    assert(all.subrange(0, 6) =~= all);
}

proof fn lemma_first_above(all: Seq<TimeRate>, i: int, from: int)
    requires
        all == TimeRate::preset_rates(),
        0 <= i < 6,
        0 <= from <= i + 1,
    ensures
        first_above(all.subrange(from, 6), all[i]) == if i < 5 {
            Some(all[i + 1])
        } else {
            None
        },
    decreases 6 - from,
{
    lemma_preset_values();
    let rest = all.subrange(from, 6);
    if from < 6 {
        binary64::lemma_order(all[from].0, all[i].0);
        binary64::lemma_order(all[i].0, all[from].0);
        if from <= i {
            assert(!(all[from].0 > all[i].0));
            assert(rest.subrange(1, rest.len() as int) =~= all.subrange(from + 1, 6));
            lemma_first_above(all, i, from + 1);
        }
    }
}

proof fn lemma_last_below(all: Seq<TimeRate>, i: int, to: int)
    requires
        all == TimeRate::preset_rates(),
        0 <= i < 6,
        i <= to <= 6,
    ensures
        last_below(all.subrange(0, to), all[i]) == if i > 0 {
            Some(all[i - 1])
        } else {
            None
        },
    decreases to,
{
    lemma_preset_values();
    let rest = all.subrange(0, to);
    if to > 0 {
        binary64::lemma_order(all[to - 1].0, all[i].0);
        if to > i {
            assert(!(all[to - 1].0 < all[i].0));
            assert(rest.drop_last() =~= all.subrange(0, to - 1));
            lemma_last_below(all, i, to - 1);
        }
    }
}

/// Whatever the rate was, the usable one is a finite number of at most a day in
/// four seconds and never runs backwards.
pub proof fn a_sanitised_rate_is_usable(rate: TimeRate)
    ensures
        rate.sanitised().0.is_finite(),
        Binary64::of(0) <= rate.sanitised().0,
        rate.sanitised().0 <= Binary64::of(21_600),
{
    let zero = Binary64::of(0);
    let top = Binary64::of(21_600);
    binary64::lemma_of(0);
    binary64::lemma_of(21_600);
    let one = Binary64::one();
    assert(0 <= 21_600 * one) by (nonlinear_arith)
        requires
            one > 0,
    ;
    binary64::lemma_order(zero, zero);
    binary64::lemma_order(zero, top);
    binary64::lemma_order(top, top);
    binary64::lemma_order(rate.0, zero);
    binary64::lemma_order(top, rate.0);
    binary64::lemma_order(zero, rate.0);
    binary64::lemma_order(rate.0, top);
}

/// The clock always holds a time once it holds one, whatever goes by.
pub proof fn the_clock_refuses_broken_input(clock: TimeOfDay, elapsed: Binary64)
    requires
        clock.utc.is_finite(),
    ensures
        clock.advanced_spec(elapsed).utc.is_finite(),
        clock.advanced_spec(elapsed).rate == clock.rate,
        !elapsed.is_finite() ==> clock.advanced_spec(elapsed) == clock,
        clock.rate.0.is_nan() ==> clock.advanced_spec(elapsed) == clock,
{
    binary64::lemma_order(Binary64::of(0), clock.rate.0.abs());
    binary64::lemma_of(0);
    if clock.rate.0.is_nan() {
        binary64::lemma_abs(clock.rate.0);
    }
}

/// With no day in it the light is the night's own, in colour and brightness.
pub proof fn no_day_is_the_night(lighting: SunLighting, night: Rgb, day: Binary32)
    requires
        lighting.night_ambient.is_finite(),
        lighting.night_ambient > Binary32::of(0),
        (lighting.daylight_ambient - lighting.night_ambient).is_finite(),
        day.is_finite(),
        day.value() == 0,
    ensures
        lighting.mixed(night, day).brightness == lighting.night_ambient,
{
    let n = lighting.night_ambient;
    let span = lighting.daylight_ambient - n;
    binary32::lemma_zero_factor(day, span);
    binary32::lemma_of(0);
    binary32::lemma_order(Binary32::of(0), n);
    let added = span * day;
    assert(added.is_finite() && added.value() == 0) by {
        binary32::lemma_zero_factor(day, span);
    }
    binary32::lemma_add(n, added);
    binary32::lemma_round_exact(n, 1);
    binary32::lemma_value_determines(n + added, n);
    binary32::lemma_order(n, Binary32::of(0));
}

proof fn lemma_no_daylight(elevation: Binary64)
    requires
        !angle::to_degrees(elevation).is_finite() || angle::to_degrees(elevation) <= Binary64::of(
            6,
        ).negate(),
    ensures
        daylight_fraction(elevation).is_finite(),
        daylight_fraction(elevation).value() == 0,
{
    let degrees = angle::to_degrees(elevation);
    binary32::lemma_of(0);
    if degrees.is_finite() {
        let zero = Binary64::of(0);
        let one = Binary64::of(1);
        let six = Binary64::of(6);
        let twelve = Binary64::of(12);
        binary64::lemma_of(0);
        binary64::lemma_of(1);
        binary64::lemma_of(6);
        binary64::lemma_of(12);
        binary64::lemma_negate(six);
        binary64::lemma_order(degrees, six.negate());
        let sum = degrees + six;
        binary64::lemma_add(degrees, six);
        binary64::lemma_round_monotone(degrees.value() + six.value(), 0, 1);
        binary64::lemma_round_exact(zero, 1);
        binary64::lemma_round_monotone(degrees.value(), degrees.value() + six.value(), 1);
        binary64::lemma_round_exact(degrees, 1);
        binary64::lemma_negate(degrees);
        binary64::lemma_finite_below(sum, degrees.negate());
        binary64::lemma_order(sum, zero);
        let part = sum / twelve;
        binary64::lemma_div(sum, twelve);
        binary64::lemma_round_exact(zero, twelve.value() as nat);
        assert(sum.value() * Binary64::one() <= 0) by (nonlinear_arith)
            requires
                sum.value() <= 0,
                Binary64::one() > 0,
        ;
        assert(0 * twelve.value() == 0);
        binary64::lemma_round_monotone(
            sum.value() * Binary64::one(),
            0,
            twelve.value() as nat,
        );
        binary64::lemma_order(part, zero);
        binary64::lemma_order(one, part);
        let held = part.clamp(zero, one);
        assert(held.value() == 0 && held.is_finite()) by {
            if part.value() == 0 {
                binary64::lemma_finite_below(part, zero);
            }
        }
        let t = held.to_binary32();
        binary64::lemma_narrow_zero(held);
        binary32::lemma_zero_factor(t, t);
        binary32::lemma_of(2);
        binary32::lemma_of(3);
        let twice = Binary32::of(2) * t;
        binary32::lemma_zero_factor(t, Binary32::of(2));
        binary32::lemma_negate(twice);
        let rest = Binary32::of(3) - twice;
        binary32::lemma_add(Binary32::of(3), twice.negate());
        binary32::lemma_round_exact(Binary32::of(3), 1);
        assert(rest == Binary32::of(3) + twice.negate());
        binary32::lemma_finite_below(rest, Binary32::of(3));
        binary32::lemma_zero_factor(t * t, rest);
    }
}

/// From six degrees below the horizon down, and for an elevation that is no
/// angle at all, no part of it is day.
pub proof fn below_twilight_there_is_no_day(elevation: Binary64, sine: Binary64)
    requires
        !angle::to_degrees(elevation).is_finite() || angle::to_degrees(elevation) <= Binary64::of(
            6,
        ).negate(),
    ensures
        SunLighting::day_share(elevation, sine).is_finite(),
        SunLighting::day_share(elevation, sine).value() == 0,
{
    let day = daylight_fraction(elevation);
    binary32::lemma_of(0);
    lemma_no_daylight(elevation);
    let sky = skylight_fraction(sine);
    assert(sky.is_finite() && 0 <= sky.value() <= Binary32::one()) by {
        let zero = Binary64::of(0);
        let one = Binary64::of(1);
        binary64::lemma_of(0);
        binary64::lemma_of(1);
        binary64::lemma_order(sine, zero);
        binary64::lemma_order(one, sine);
        if sine.is_finite() {
            let held = sine.clamp(zero, one);
            binary64::lemma_sqrt_share(held);
            binary64::lemma_narrow_share(held.sqrt());
        }
        binary32::lemma_of(1);
    }
    let three = Binary32::ratio(3, 10);
    let seven = Binary32::ratio(7, 10);
    binary32::lemma_ratio_share(3, 10);
    binary32::lemma_ratio_share(7, 10);
    binary32::lemma_order(three, seven);
    binary32::lemma_product_below(seven, sky);
    let part = seven * sky;
    binary32::lemma_order(part, part);
    binary32::lemma_add(three, part);
    binary32::lemma_of(2);
    binary32::lemma_of_sum(1, 1);
    binary32::lemma_of(1);
    binary32::lemma_add(Binary32::of(1), Binary32::of(1));
    binary32::lemma_round_monotone(
        three.value() + part.value(),
        Binary32::of(1).value() + Binary32::of(1).value(),
        1,
    );
    binary32::lemma_round_monotone(0, three.value() + part.value(), 1);
    binary32::lemma_round_exact(Binary32::of(0), 1);
    binary32::lemma_finite_below(three + part, Binary32::of(2));
    binary32::lemma_zero_factor(day, three + part);
}

/// The share of day is a share, wherever the sun stands.
pub proof fn the_daylight_fraction_is_a_share(elevation: Binary64)
    ensures
        daylight_fraction(elevation).is_finite(),
        0 <= daylight_fraction(elevation).value() <= Binary32::one(),
{
    let degrees = angle::to_degrees(elevation);
    binary32::lemma_of(0);
    binary32::lemma_of(1);
    if degrees.is_finite() {
        let zero = Binary64::of(0);
        let one = Binary64::of(1);
        let six = Binary64::of(6);
        let twelve = Binary64::of(12);
        binary64::lemma_of(0);
        binary64::lemma_of(1);
        binary64::lemma_of(6);
        binary64::lemma_of(12);
        let sum = degrees + six;
        binary64::lemma_add(degrees, six);
        let part = sum / twelve;
        if sum.is_finite() {
            binary64::lemma_div(sum, twelve);
        } else {
            binary64::lemma_div_infinite(sum, twelve);
        }
        binary64::lemma_order(part, zero);
        binary64::lemma_order(one, part);
        binary64::lemma_finite_below(part.clamp(zero, one), one);
        binary64::lemma_narrow_share(part.clamp(zero, one));
        smooth::the_single_curve_stays_between_zero_and_one(
            part.clamp(zero, one).to_binary32(),
        );
    }
}

/// However low the sun, the light from all sides is never below the night's.
pub proof fn the_light_is_never_below_the_night(
    lighting: SunLighting,
    night: Rgb,
    elevation: Binary64,
    sine: Binary64,
)
    requires
        lighting.night_ambient.is_finite(),
        lighting.daylight_ambient.is_finite(),
        0 <= lighting.night_ambient.value() <= lighting.daylight_ambient.value(),
    ensures
        lighting.night_ambient <= lighting.mixed(
            night,
            SunLighting::day_share(elevation, sine),
        ).brightness,
{
    let zero = Binary32::of(0);
    binary32::lemma_of(0);
    binary32::lemma_of(1);
    let n = lighting.night_ambient;
    let d = lighting.daylight_ambient;
    let day = SunLighting::day_share(elevation, sine);
    lemma_day_share(elevation, sine);
    binary32::lemma_order(n, d);
    let span = d - n;
    binary32::lemma_negate(n);
    assert(span == d + n.negate());
    binary32::lemma_add(d, n.negate());
    binary32::lemma_round_exact(zero, 1);
    binary32::lemma_round_exact(d, 1);
    binary32::lemma_round_monotone(0, d.value() - n.value(), 1);
    binary32::lemma_round_monotone(d.value() - n.value(), d.value(), 1);
    binary32::lemma_finite_below(span, d);
    lemma_product_not_below(span, day);
    let added = span * day;
    if added.is_finite() {
        binary32::lemma_add(n, added);
        binary32::lemma_round_exact(n, 1);
        binary32::lemma_round_monotone(n.value(), n.value() + added.value(), 1);
    } else {
        binary32::lemma_infinite_first(n, added);
        binary32::lemma_not_above_infinity(n, added);
    }
    binary32::lemma_order(n + added, zero);
    binary32::lemma_order(n, n + added);
    binary32::lemma_order(n, zero);
}

/// A product of numbers not below zero is not below it.
proof fn lemma_product_not_below(a: Binary32, b: Binary32)
    requires
        a.is_finite(),
        b.is_finite(),
        a.value() >= 0,
        b.value() >= 0,
    ensures
        !(a * b).is_nan(),
        (a * b).value() >= 0,
{
    let zero = Binary32::of(0);
    let one = Binary32::one();
    binary32::lemma_of(0);
    binary32::lemma_mul(a, b);
    binary32::lemma_round_exact(zero, one);
    assert(0 * one == 0 && a.value() * b.value() >= 0) by (nonlinear_arith)
        requires
            a.value() >= 0,
            b.value() >= 0,
    ;
    binary32::lemma_round_monotone(0, a.value() * b.value(), one);
}

/// The share of day is a finite number not below zero.
proof fn lemma_day_share(elevation: Binary64, sine: Binary64)
    ensures
        SunLighting::day_share(elevation, sine).is_finite(),
        SunLighting::day_share(elevation, sine).value() >= 0,
{
    let zero = Binary32::of(0);
    let two = Binary32::of(2);
    let one = Binary32::one();
    binary32::lemma_of(0);
    binary32::lemma_of(1);
    binary32::lemma_of(2);
    let sky = skylight_fraction(sine);
    if sine.is_finite() {
        binary64::lemma_of(0);
        binary64::lemma_of(1);
        binary64::lemma_order(sine, Binary64::of(0));
        binary64::lemma_order(Binary64::of(1), sine);
        let held = sine.clamp(Binary64::of(0), Binary64::of(1));
        binary64::lemma_between_finite(held, Binary64::of(0), Binary64::of(1));
        binary64::lemma_sqrt_share(held);
        binary64::lemma_narrow_share(held.sqrt());
    }
    let (a, b) = (Binary32::ratio(3, 10), Binary32::ratio(7, 10));
    binary32::lemma_ratio_share(3, 10);
    binary32::lemma_ratio_share(7, 10);
    binary32::lemma_product_below(b, sky);
    let rest = a + b * sky;
    binary32::lemma_add(a, b * sky);
    binary32::lemma_round_exact(zero, 1);
    binary32::lemma_round_exact(two, 1);
    binary32::lemma_round_monotone(0, a.value() + (b * sky).value(), 1);
    binary32::lemma_round_monotone(a.value() + (b * sky).value(), two.value(), 1);
    binary32::lemma_finite_below(rest, two);
    the_daylight_fraction_is_a_share(elevation);
    let light = daylight_fraction(elevation);
    lemma_product_not_below(light, rest);
    binary32::lemma_product_below(rest, light);
    binary32::lemma_mul(rest, light);
    binary32::lemma_mul(light, rest);
    assert(light.value() * rest.value() == rest.value() * light.value()) by (nonlinear_arith);
    binary32::lemma_finite_below(light * rest, rest);
}

} // verus!
