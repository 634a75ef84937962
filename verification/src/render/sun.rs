//! The calendar, and where the sun stands.
//!
//! The sun's place is the low-precision one of Meeus, good to a hundredth of a
//! degree around the year 2000. Refraction is left out. Sines and cosines come
//! in from outside; everything around them is here.
use crate::angle;
pub use crate::angle::SinCos;
use crate::binary64;
use crate::binary64::Binary64;
use crate::fdm::state::LocalFrame;
use crate::norm;
use crate::render::surface::Geodetic;
use crate::vector::DVec3;
use vstd::prelude::*;

verus! {

/// A moment as a Julian day in universal time; days begin at noon.
#[derive(Clone, Copy, PartialEq, Eq, Debug, Structural)]
pub struct JulianDate(pub Binary64);

impl JulianDate {
    /// The epoch J2000.0, noon of 2000-01-01.
    pub open spec fn spec_j2000() -> JulianDate {
        JulianDate(Binary64::of(2451545))
    }

    /// The epoch J2000.0, noon of 2000-01-01.
    #[verifier::when_used_as_spec(spec_j2000)]
    pub fn j2000() -> (r: JulianDate)
        ensures
            r == JulianDate::j2000(),
    {
        JulianDate(Binary64::of(2451545))
    }

    /// The day.
    pub fn get(self) -> (r: Binary64)
        ensures
            r == self.0,
    {
        self.0
    }

    pub open spec fn spec_days_since_j2000(self) -> Binary64 {
        self.0 - Binary64::of(2451545)
    }

    /// Days since the epoch, negative before it.
    #[verifier::when_used_as_spec(spec_days_since_j2000)]
    pub fn days_since_j2000(self) -> (r: Binary64)
        ensures
            r == self.days_since_j2000(),
    {
        self.0 - Binary64::of(2451545)
    }

    pub open spec fn spec_centuries_since_j2000(self) -> Binary64 {
        self.days_since_j2000() / Binary64::of(36525)
    }

    /// Julian centuries since the epoch.
    #[verifier::when_used_as_spec(spec_centuries_since_j2000)]
    pub fn centuries_since_j2000(self) -> (r: Binary64)
        ensures
            r == self.centuries_since_j2000(),
    {
        self.days_since_j2000() / Binary64::of(36525)
    }

    pub open spec fn spec_advanced_by(self, elapsed: Binary64) -> JulianDate {
        JulianDate(self.0 + elapsed / Binary64::of(86400))
    }

    /// The moment so many seconds later.
    #[verifier::when_used_as_spec(spec_advanced_by)]
    pub fn advanced_by(self, elapsed: Binary64) -> (r: JulianDate)
        ensures
            r == self.advanced_by(elapsed),
    {
        JulianDate(self.0 + elapsed / Binary64::of(86400))
    }

    pub open spec fn spec_is_finite(self) -> bool {
        self.0.is_finite()
    }

    #[verifier::when_used_as_spec(spec_is_finite)]
    pub fn is_finite(self) -> (r: bool)
        ensures
            r == self.is_finite(),
    {
        self.0.is_finite()
    }

    /// The civil date and time.
    pub fn to_utc_date_time(self) -> (r: UtcDateTime)
        ensures
            r == UtcDateTime::from_julian_spec(self),
    {
        UtcDateTime::from_julian_date(self)
    }

    /// The moment at which local mean solar time at a longitude reads `civil`:
    /// an hour for every fifteen degrees, no time zones.
    pub fn from_local_mean_solar_time(civil: UtcDateTime, longitude: Binary64) -> (r: JulianDate)
        requires
            civil.month <= 2 ==> civil.year > i32::MIN,
        ensures
            r.0 == civil.julian_spec().0 - angle::to_degrees(longitude) / Binary64::of(360),
    {
        JulianDate(civil.to_julian_date().0 - angle::to_degrees(longitude) / Binary64::of(360))
    }
}

/// A Gregorian date and time of day in universal time. A day or month past its
/// range runs on into the next.
#[derive(Clone, Copy, PartialEq, Eq, Debug, Structural)]
pub struct UtcDateTime {
    pub year: i32,
    pub month: u8,
    pub day: u8,
    pub hour: u8,
    pub minute: u8,
    pub second: Binary64,
}

impl UtcDateTime {
    pub open spec fn spec_new(
        year: i32,
        month: u8,
        day: u8,
        hour: u8,
        minute: u8,
        second: Binary64,
    ) -> UtcDateTime {
        UtcDateTime { year, month, day, hour, minute, second }
    }

    #[verifier::when_used_as_spec(spec_new)]
    pub fn new(year: i32, month: u8, day: u8, hour: u8, minute: u8, second: Binary64) -> (r:
        UtcDateTime)
        ensures
            r == UtcDateTime::new(year, month, day, hour, minute, second),
    {
        UtcDateTime { year, month, day, hour, minute, second }
    }

    pub open spec fn spec_midnight(year: i32, month: u8, day: u8) -> UtcDateTime {
        UtcDateTime { year, month, day, hour: 0, minute: 0, second: Binary64::of(0) }
    }

    /// The start of a day.
    #[verifier::when_used_as_spec(spec_midnight)]
    pub fn midnight(year: i32, month: u8, day: u8) -> (r: UtcDateTime)
        ensures
            r == UtcDateTime::midnight(year, month, day),
    {
        UtcDateTime { year, month, day, hour: 0, minute: 0, second: Binary64::of(0) }
    }

    /// The part of the day gone by.
    pub open spec fn day_fraction(self) -> Binary64 {
        ((Binary64::of(self.hour as i64) * Binary64::of(3600) + Binary64::of(self.minute as i64)
            * Binary64::of(60)) + self.second) / Binary64::of(86400)
    }

    /// The Julian day. January and February count as the thirteenth and
    /// fourteenth months of the year before.
    pub open spec fn julian_spec(self) -> JulianDate {
        let early = self.month <= 2;
        let year = if early {
            Binary64::of((self.year - 1) as i64)
        } else {
            Binary64::of(self.year as i64)
        };
        let month = if early {
            Binary64::of(self.month as i64) + Binary64::of(12)
        } else {
            Binary64::of(self.month as i64)
        };
        let century = (year / Binary64::of(100)).floor();
        let gregorian = (Binary64::of(2) - century) + (century / Binary64::of(4)).floor();
        JulianDate(
            (((((Binary64::ratio(1461, 4) * (year + Binary64::of(4716))).floor() + (
            Binary64::ratio(306001, 10000) * (month + Binary64::of(1))).floor()) - Binary64::ratio(
                3049,
                2,
            )) + Binary64::of(self.day as i64)) + gregorian) + self.day_fraction(),
        )
    }

    /// The Julian day.
    pub fn to_julian_date(self) -> (r: JulianDate)
        requires
            self.month <= 2 ==> self.year > i32::MIN,
        ensures
            r == self.julian_spec(),
    {
        let early: bool = self.month <= 2;
        let year = if early {
            Binary64::of((self.year - 1) as i64)
        } else {
            Binary64::of(self.year as i64)
        };
        let month = if early {
            Binary64::of(self.month as i64) + Binary64::of(12)
        } else {
            Binary64::of(self.month as i64)
        };
        let century = (year / Binary64::of(100)).floor();
        let gregorian = (Binary64::of(2) - century) + (century / Binary64::of(4)).floor();
        let day_fraction = ((Binary64::of(self.hour as i64) * Binary64::of(3600) + Binary64::of(
            self.minute as i64,
        ) * Binary64::of(60)) + self.second) / Binary64::of(86400);
        JulianDate(
            (((((Binary64::ratio(1461, 4) * (year + Binary64::of(4716))).floor() + (
            Binary64::ratio(306001, 10000) * (month + Binary64::of(1))).floor()) - Binary64::ratio(
                3049,
                2,
            )) + Binary64::of(self.day as i64)) + gregorian) + day_fraction,
        )
    }

    /// The day as whole milliseconds.
    pub open spec fn to_milliseconds(time: JulianDate) -> Binary64 {
        (time.0 * Binary64::of(86400000)).round() / Binary64::of(86400000)
    }

    /// The civil date of a day that began at midnight: year, month and day.
    pub open spec fn civil_of(integral: Binary64) -> (Binary64, Binary64, Binary64) {
        let alpha = ((integral - Binary64::ratio(7468865, 4)) / Binary64::ratio(146097, 4)).floor();
        let a = ((integral + Binary64::of(1)) + alpha) - (alpha / Binary64::of(4)).floor();
        let b = a + Binary64::of(1524);
        let c = ((b - Binary64::ratio(1221, 10)) / Binary64::ratio(1461, 4)).floor();
        let d = (Binary64::ratio(1461, 4) * c).floor();
        let e = ((b - d) / Binary64::ratio(306001, 10000)).floor();
        let day = (b - d) - (Binary64::ratio(306001, 10000) * e).floor();
        let month = if e < Binary64::of(14) {
            e - Binary64::of(1)
        } else {
            e - Binary64::of(13)
        };
        let year = if month > Binary64::of(2) {
            c - Binary64::of(4716)
        } else {
            c - Binary64::of(4715)
        };
        (year, month, day)
    }

    /// The time of day for a part of the day gone by: hour, minute and second.
    pub open spec fn clock_of(fraction: Binary64) -> (Binary64, Binary64, Binary64) {
        let milliseconds = (fraction * Binary64::of(86400000)).round();
        let hour = (milliseconds / Binary64::of(3600000)).floor();
        let minute = ((milliseconds - hour * Binary64::of(3600000)) / Binary64::of(60000)).floor();
        let second = ((milliseconds - hour * Binary64::of(3600000)) - minute * Binary64::of(60000))
            / Binary64::of(1000);
        (hour, minute, second)
    }

    /// The civil date and time of a Julian day, to the millisecond; of one that
    /// is not finite, the start of the year zero.
    pub open spec fn from_julian_spec(time: JulianDate) -> UtcDateTime {
        if !time.is_finite() {
            UtcDateTime::midnight(0, 1, 1)
        } else {
            let shifted = UtcDateTime::to_milliseconds(time) + Binary64::ratio(1, 2);
            let integral = shifted.floor();
            let (year, month, day) = UtcDateTime::civil_of(integral);
            let (hour, minute, second) = UtcDateTime::clock_of(shifted - integral);
            UtcDateTime {
                year: year.to_integer(i32::MIN as i64, i32::MAX as i64) as i32,
                month: month.to_integer(0, 255) as u8,
                day: day.to_integer(0, 255) as u8,
                hour: hour.to_integer(0, 255) as u8,
                minute: minute.to_integer(0, 255) as u8,
                second,
            }
        }
    }

    /// The civil date and time of a Julian day.
    ///
    /// The day is taken to the millisecond first. Without that, midnight could
    /// come out as the last instant of the day before.
    pub fn from_julian_date(time: JulianDate) -> (r: UtcDateTime)
        ensures
            r == UtcDateTime::from_julian_spec(time),
    {
        if !time.is_finite() {
            return UtcDateTime::midnight(0, 1, 1);
        }
        let day_length = Binary64::of(86400000);
        let rounded = (time.0 * day_length).round() / day_length;
        let shifted = rounded + Binary64::ratio(1, 2);
        let integral = shifted.floor();
        let fraction = shifted - integral;

        let alpha = ((integral - Binary64::ratio(7468865, 4)) / Binary64::ratio(146097, 4)).floor();
        let a = ((integral + Binary64::of(1)) + alpha) - (alpha / Binary64::of(4)).floor();
        let b = a + Binary64::of(1524);
        let c = ((b - Binary64::ratio(1221, 10)) / Binary64::ratio(1461, 4)).floor();
        let d = (Binary64::ratio(1461, 4) * c).floor();
        let e = ((b - d) / Binary64::ratio(306001, 10000)).floor();
        let day = (b - d) - (Binary64::ratio(306001, 10000) * e).floor();
        let month = if e.lt(Binary64::of(14)) {
            e - Binary64::of(1)
        } else {
            e - Binary64::of(13)
        };
        let year = if month.gt(Binary64::of(2)) {
            c - Binary64::of(4716)
        } else {
            c - Binary64::of(4715)
        };

        let milliseconds = (fraction * day_length).round();
        let hour = (milliseconds / Binary64::of(3600000)).floor();
        let minute = ((milliseconds - hour * Binary64::of(3600000)) / Binary64::of(60000)).floor();
        let second = ((milliseconds - hour * Binary64::of(3600000)) - minute * Binary64::of(60000))
            / Binary64::of(1000);
        proof {
            lemma_bounds(year, i32::MIN as i64, i32::MAX as i64);
            lemma_bounds(month, 0, 255);
            lemma_bounds(day, 0, 255);
            lemma_bounds(hour, 0, 255);
            lemma_bounds(minute, 0, 255);
        }
        UtcDateTime {
            year: year.to_integer(i32::MIN as i64, i32::MAX as i64) as i32,
            month: month.to_integer(0, 255) as u8,
            day: day.to_integer(0, 255) as u8,
            hour: hour.to_integer(0, 255) as u8,
            minute: minute.to_integer(0, 255) as u8,
            second,
        }
    }
}

proof fn lemma_bounds(x: Binary64, low: i64, high: i64)
    requires
        low <= 0 <= high,
    ensures
        low <= x.to_integer(low, high) <= high,
{
    reveal(Binary64::spec_to_integer);
}

/// The sun above a place.
#[derive(Clone, Copy, PartialEq, Eq, Debug, Structural)]
pub struct SolarPosition {
    /// True bearing, zero in the north.
    pub azimuth: Binary64,
    /// Above the horizon, refraction left out.
    pub elevation: Binary64,
}

impl SolarPosition {
    /// Straight down: what stands for a place or moment that is broken. The
    /// scene goes dark and the flight goes on.
    pub open spec fn spec_night() -> SolarPosition {
        SolarPosition { azimuth: Binary64::of(0), elevation: angle::half_pi().negate() }
    }

    /// Straight down.
    #[verifier::when_used_as_spec(spec_night)]
    pub fn night() -> (r: SolarPosition)
        ensures
            r == SolarPosition::night(),
    {
        SolarPosition { azimuth: Binary64::of(0), elevation: angle::half_pi().negate() }
    }

    /// Above the geometric horizon.
    pub fn is_above_horizon(self) -> (r: bool)
        ensures
            r == (self.elevation > Binary64::of(0)),
    {
        self.elevation.gt(Binary64::of(0))
    }
}

/// The angles of the sun's orbit whose sines and cosines the elements need.
#[derive(Clone, Copy, PartialEq, Eq, Debug, Structural)]
pub struct OrbitAngles {
    /// The mean anomaly.
    pub anomaly: Binary64,
    /// The moon's ascending node.
    pub node: Binary64,
}

/// The angles at a time in Julian centuries.
pub open spec fn spec_orbit_angles(t: Binary64) -> OrbitAngles {
    OrbitAngles {
        anomaly: angle::to_radians(
            (Binary64::ratio(35752911, 100000) + Binary64::ratio(3599905029, 100000) * t) - (
            Binary64::ratio(1537, 10000000) * t) * t,
        ),
        node: angle::to_radians(
            Binary64::ratio(12504, 100) - Binary64::ratio(1934136, 1000) * t,
        ),
    }
}

/// The angles at a time in Julian centuries.
#[verifier::when_used_as_spec(spec_orbit_angles)]
pub fn orbit_angles(t: Binary64) -> (r: OrbitAngles)
    ensures
        r == orbit_angles(t),
{
    OrbitAngles {
        anomaly: angle::to_radians(
            (Binary64::ratio(35752911, 100000) + Binary64::ratio(3599905029, 100000) * t) - (
            Binary64::ratio(1537, 10000000) * t) * t,
        ),
        node: angle::to_radians(
            Binary64::ratio(12504, 100) - Binary64::ratio(1934136, 1000) * t,
        ),
    }
}

/// The sines and cosines of the orbit's angles.
#[derive(Clone, Copy, PartialEq, Eq, Debug, Structural)]
pub struct OrbitSines {
    pub anomaly: Binary64,
    pub twice_anomaly: Binary64,
    pub thrice_anomaly: Binary64,
    pub node: Binary64,
    pub node_cosine: Binary64,
}

/// The sun's orbital elements.
#[derive(Clone, Copy, PartialEq, Eq, Debug, Structural)]
pub struct SolarElements {
    pub mean_longitude: Binary64,
    pub mean_anomaly: Binary64,
    pub eccentricity: Binary64,
    /// With aberration and nutation.
    pub apparent_longitude: Binary64,
    /// With nutation.
    pub obliquity: Binary64,
}

/// The mean longitude in degrees.
pub open spec fn mean_longitude_degrees(t: Binary64) -> Binary64 {
    (Binary64::ratio(28046646, 100000) + Binary64::ratio(3600076983, 100000) * t) + (
    Binary64::ratio(3032, 10000000) * t) * t
}

/// The equation of the centre in degrees.
pub open spec fn centre_degrees(t: Binary64, sines: OrbitSines) -> Binary64 {
    (((Binary64::ratio(1914602, 1000000) - Binary64::ratio(4817, 1000000) * t) - (Binary64::ratio(
        14,
        1000000,
    ) * t) * t) * sines.anomaly + (Binary64::ratio(19993, 1000000) - Binary64::ratio(101, 1000000)
        * t) * sines.twice_anomaly) + Binary64::ratio(289, 1000000) * sines.thrice_anomaly
}

/// The mean obliquity in degrees.
pub open spec fn mean_obliquity_degrees(t: Binary64) -> Binary64 {
    Binary64::of(23) + (Binary64::of(26) + (((Binary64::ratio(21448, 1000) - Binary64::ratio(
        46815,
        1000,
    ) * t) - (Binary64::ratio(59, 100000) * t) * t) + ((Binary64::ratio(1813, 1000000) * t) * t)
        * t) / Binary64::of(60)) / Binary64::of(60)
}

/// The elements at a time in Julian centuries.
pub open spec fn elements_spec(t: Binary64, sines: OrbitSines) -> SolarElements {
    SolarElements {
        mean_longitude: angle::to_radians(mean_longitude_degrees(t)),
        mean_anomaly: orbit_angles(t).anomaly,
        eccentricity: (Binary64::ratio(16708634, 1000000000) - Binary64::ratio(42037, 1000000000)
            * t) - (Binary64::ratio(1267, 10000000000) * t) * t,
        apparent_longitude: angle::to_radians(
            ((mean_longitude_degrees(t) + centre_degrees(t, sines)) - Binary64::ratio(
                569,
                100000,
            )) - Binary64::ratio(478, 100000) * sines.node,
        ),
        obliquity: angle::to_radians(
            mean_obliquity_degrees(t) + Binary64::ratio(256, 100000) * sines.node_cosine,
        ),
    }
}

/// The elements at a time in Julian centuries, given the sines and cosines of
/// the orbit's angles.
pub fn solar_elements(t: Binary64, sines: OrbitSines) -> (r: SolarElements)
    ensures
        r == elements_spec(t, sines),
{
    let mean_longitude = (Binary64::ratio(28046646, 100000) + Binary64::ratio(3600076983, 100000)
        * t) + (Binary64::ratio(3032, 10000000) * t) * t;
    let eccentricity = (Binary64::ratio(16708634, 1000000000) - Binary64::ratio(42037, 1000000000)
        * t) - (Binary64::ratio(1267, 10000000000) * t) * t;
    let centre = (((Binary64::ratio(1914602, 1000000) - Binary64::ratio(4817, 1000000) * t) - (
    Binary64::ratio(14, 1000000) * t) * t) * sines.anomaly + (Binary64::ratio(19993, 1000000)
        - Binary64::ratio(101, 1000000) * t) * sines.twice_anomaly) + Binary64::ratio(289, 1000000)
        * sines.thrice_anomaly;
    let mean_obliquity = Binary64::of(23) + (Binary64::of(26) + (((Binary64::ratio(21448, 1000)
        - Binary64::ratio(46815, 1000) * t) - (Binary64::ratio(59, 100000) * t) * t) + ((
    Binary64::ratio(1813, 1000000) * t) * t) * t) / Binary64::of(60)) / Binary64::of(60);
    SolarElements {
        mean_longitude: angle::to_radians(mean_longitude),
        mean_anomaly: orbit_angles(t).anomaly,
        eccentricity,
        apparent_longitude: angle::to_radians(
            ((mean_longitude + centre) - Binary64::ratio(569, 100000)) - Binary64::ratio(
                478,
                100000,
            ) * sines.node,
        ),
        obliquity: angle::to_radians(
            mean_obliquity + Binary64::ratio(256, 100000) * sines.node_cosine,
        ),
    }
}

/// The sine of the declination, given the sines of obliquity and apparent
/// longitude. It never leaves the range that a sine has.
pub open spec fn spec_declination_sine(obliquity: Binary64, longitude: Binary64) -> Binary64 {
    (obliquity * longitude).clamp(Binary64::of(1).negate(), Binary64::of(1))
}

/// The sine of the declination, given the sines of obliquity and apparent
/// longitude.
#[verifier::when_used_as_spec(spec_declination_sine)]
pub fn declination_sine(obliquity: Binary64, longitude: Binary64) -> (r: Binary64)
    ensures
        r == declination_sine(obliquity, longitude),
{
    (obliquity * longitude).clamp(Binary64::of(1).negate(), Binary64::of(1))
}

/// How far north of the celestial equator the sun stands, given the arc sine of
/// `declination_sine`. A moment that is not finite has the sun on the equator.
pub fn solar_declination(time: JulianDate, arc_sine: Binary64) -> (r: Binary64)
    ensures
        r == if time.is_finite() {
            arc_sine
        } else {
            Binary64::of(0)
        },
{
    if !time.is_finite() {
        return Binary64::of(0);
    }
    arc_sine
}

/// The two legs whose arc tangent is the right ascension.
#[derive(Clone, Copy, PartialEq, Eq, Debug, Structural)]
pub struct AscensionLegs {
    /// Across the equinox.
    pub y: Binary64,
    /// Along the equinox.
    pub x: Binary64,
}

/// The legs of the right ascension, given the cosine of the obliquity and the
/// apparent longitude.
pub fn ascension_legs(obliquity: Binary64, longitude: SinCos) -> (r: AscensionLegs)
    ensures
        r == (AscensionLegs { y: obliquity * longitude.sin, x: longitude.cos }),
{
    AscensionLegs { y: obliquity * longitude.sin, x: longitude.cos }
}

/// Greenwich mean sidereal time in degrees, from zero to a full turn; zero for
/// a moment that is not finite. It is folded before it is made radians, so as
/// not to lose digits of millions of degrees.
pub open spec fn spec_sidereal_degrees(time: JulianDate) -> Binary64 {
    let days = time.days_since_j2000();
    let t = time.centuries_since_j2000();
    if !time.is_finite() {
        Binary64::of(0)
    } else {
        (((Binary64::ratio(28046061837, 100000000) + Binary64::ratio(36098564736629, 100000000000)
            * days) + (Binary64::ratio(387933, 1000000000) * t) * t) - ((t * t) * t)
            / Binary64::of(38710000)).rem_euclid(Binary64::of(360))
    }
}

/// Greenwich mean sidereal time in degrees, from zero to a full turn.
#[verifier::when_used_as_spec(spec_sidereal_degrees)]
pub fn sidereal_degrees(time: JulianDate) -> (r: Binary64)
    ensures
        r == sidereal_degrees(time),
{
    if !time.is_finite() {
        return Binary64::of(0);
    }
    let days = time.days_since_j2000();
    let t = time.centuries_since_j2000();
    (((Binary64::ratio(28046061837, 100000000) + Binary64::ratio(36098564736629, 100000000000)
        * days) + (Binary64::ratio(387933, 1000000000) * t) * t) - ((t * t) * t) / Binary64::of(
        38710000,
    )).rem_euclid(Binary64::of(360))
}

/// Greenwich mean sidereal time, zero or more and less than a full turn.
pub open spec fn spec_greenwich_mean_sidereal_time(time: JulianDate) -> Binary64 {
    if !time.is_finite() {
        Binary64::of(0)
    } else {
        angle::wrap_positive(angle::to_radians(sidereal_degrees(time)))
    }
}

/// Greenwich mean sidereal time: how far the earth has turned.
#[verifier::when_used_as_spec(spec_greenwich_mean_sidereal_time)]
pub fn greenwich_mean_sidereal_time(time: JulianDate) -> (r: Binary64)
    ensures
        r == greenwich_mean_sidereal_time(time),
{
    if !time.is_finite() {
        return Binary64::of(0);
    }
    angle::wrap_positive(angle::to_radians(sidereal_degrees(time)))
}

/// The longitude of the place that has the sun overhead, given the arc tangent
/// of the ascension's legs: right ascension less sidereal time.
pub fn subsolar_longitude(time: JulianDate, arc_tangent: Binary64) -> (r: Binary64)
    ensures
        r == angle::wrap_positive(arc_tangent) - greenwich_mean_sidereal_time(time),
{
    angle::wrap_positive(arc_tangent) - greenwich_mean_sidereal_time(time)
}

/// The sines and cosines that the equation of time needs.
#[derive(Clone, Copy, PartialEq, Eq, Debug, Structural)]
pub struct EquationSines {
    /// The tangent of half the obliquity, squared.
    pub half_tangent_squared: Binary64,
    /// The sine of twice the mean longitude.
    pub twice_longitude: Binary64,
    /// The cosine of twice the mean longitude.
    pub twice_longitude_cosine: Binary64,
    /// The sine of four times the mean longitude.
    pub four_longitude: Binary64,
    /// The sine of the mean anomaly.
    pub anomaly: Binary64,
    /// The sine of twice the mean anomaly.
    pub twice_anomaly: Binary64,
}

/// True less mean solar time in radians of the earth's turn.
pub open spec fn equation_radians(e: Binary64, sines: EquationSines) -> Binary64 {
    let y = sines.half_tangent_squared;
    (((y * sines.twice_longitude - (Binary64::of(2) * e) * sines.anomaly) + (((Binary64::of(4) * e)
        * y) * sines.anomaly) * sines.twice_longitude_cosine) - ((Binary64::ratio(1, 2) * y) * y)
        * sines.four_longitude) - ((Binary64::ratio(5, 4) * e) * e) * sines.twice_anomaly
}

/// True less mean solar time, in seconds. A minute is a quarter of a degree. A
/// moment that is not finite has none.
pub fn equation_of_time(time: JulianDate, eccentricity: Binary64, sines: EquationSines) -> (r:
    Binary64)
    ensures
        r == if time.is_finite() {
            (Binary64::of(4) * angle::to_degrees(equation_radians(eccentricity, sines)))
                * Binary64::of(60)
        } else {
            Binary64::of(0)
        },
{
    if !time.is_finite() {
        return Binary64::of(0);
    }
    let e = eccentricity;
    let y = sines.half_tangent_squared;
    let radians = (((y * sines.twice_longitude - (Binary64::of(2) * e) * sines.anomaly) + (((
    Binary64::of(4) * e) * y) * sines.anomaly) * sines.twice_longitude_cosine) - ((Binary64::ratio(
        1,
        2,
    ) * y) * y) * sines.four_longitude) - ((Binary64::ratio(5, 4) * e) * e) * sines.twice_anomaly;
    (Binary64::of(4) * angle::to_degrees(radians)) * Binary64::of(60)
}

/// The direction to the sun in earth-fixed axes. A moment that is not finite
/// puts it under the south pole, which is night everywhere that it is tested.
pub fn sun_direction_ecef(time: JulianDate, longitude: SinCos, declination: SinCos) -> (r: DVec3)
    ensures
        r == if time.is_finite() {
            DVec3::new(
                declination.cos * longitude.cos,
                declination.cos * longitude.sin,
                declination.sin,
            )
        } else {
            DVec3::new(Binary64::of(0), Binary64::of(0), Binary64::of(1).negate())
        },
{
    if !time.is_finite() {
        return DVec3::new(Binary64::of(0), Binary64::of(0), Binary64::of(1).negate());
    }
    DVec3::new(
        declination.cos * longitude.cos,
        declination.cos * longitude.sin,
        declination.sin,
    )
}

/// The moment and the place have a sun.
pub open spec fn observable(time: JulianDate, observer: Geodetic) -> bool {
    time.is_finite() && observer.latitude.is_finite() && observer.longitude.is_finite()
}

/// Whether the moment and the place have a sun; where not, it counts as night.
pub fn is_observable(time: JulianDate, observer: Geodetic) -> (r: bool)
    ensures
        r == observable(time, observer),
{
    time.is_finite() && observer.latitude.is_finite() && observer.longitude.is_finite()
}

/// A direction as it is seen from a place: along the horizon, and the sine of
/// how high it is.
#[derive(Clone, Copy, PartialEq, Eq, Debug, Structural)]
pub struct Sight {
    pub north: Binary64,
    pub east: Binary64,
    pub up: Binary64,
}

/// How the direction looks from the origin of the frame. The height never
/// leaves the range that a sine has.
pub fn sight_of(frame: LocalFrame, direction: DVec3) -> (r: Sight)
    ensures
        r == ({
            let ned = frame.ecef_to_ned(direction);
            Sight {
                north: ned.x,
                east: ned.y,
                up: ned.z.negate().clamp(Binary64::of(1).negate(), Binary64::of(1)),
            }
        }),
{
    let ned = frame.ecef_to_ned(direction);
    Sight {
        north: ned.x,
        east: ned.y,
        up: ned.z.negate().clamp(Binary64::of(1).negate(), Binary64::of(1)),
    }
}

/// The sun above a place, given the arc tangent of the sight's east and north
/// and the arc sine of its height. Nothing broken gets past here.
pub fn solar_position(
    time: JulianDate,
    observer: Geodetic,
    arc_tangent: Binary64,
    arc_sine: Binary64,
) -> (r: SolarPosition)
    ensures
        r == if observable(time, observer) {
            SolarPosition { azimuth: angle::wrap_positive(arc_tangent), elevation: arc_sine }
        } else {
            SolarPosition::night()
        },
{
    if !is_observable(time, observer) {
        return SolarPosition::night();
    }
    SolarPosition { azimuth: angle::wrap_positive(arc_tangent), elevation: arc_sine }
}

/// A sine and a cosine that belong together, but for rounding.
pub open spec fn near_circle(pair: SinCos) -> bool {
    let unit = (Binary64::one() * Binary64::one()) as int;
    let (s, c) = (pair.sin.value(), pair.cos.value());
    &&& pair.sin.is_finite()
    &&& pair.cos.is_finite()
    &&& -unit <= (s * s + c * c - unit) * 0x200000000000 <= unit
}

/// The direction to the sun has length one, but for rounding, at every moment
/// that has a sun.
pub proof fn the_sun_direction_has_length_one(longitude: SinCos, declination: SinCos)
    requires
        near_circle(longitude),
        near_circle(declination),
    ensures
        ({
            let unit = (Binary64::one() * Binary64::one()) as int;
            let x = (declination.cos * longitude.cos).value();
            let y = (declination.cos * longitude.sin).value();
            let z = declination.sin.value();
            &&& (declination.cos * longitude.cos).is_finite()
            &&& (declination.cos * longitude.sin).is_finite()
            &&& -unit <= (x * x + y * y + z * z - unit) * 0x40000000000 <= unit
        }),
{
    let one = Binary64::one() as int;
    let unit = one * one;
    let square = unit * unit;
    let (c, z) = (declination.cos.value(), declination.sin.value());
    let (p, q) = (longitude.cos.value(), longitude.sin.value());
    let (cc, zz, pp, qq) = (c * c, z * z, p * p, q * q);
    assert(cc >= 0 && zz >= 0 && pp >= 0 && qq >= 0 && unit >= 0) by (nonlinear_arith)
        requires
            cc == c * c,
            zz == z * z,
            pp == p * p,
            qq == q * q,
            unit == one * one,
    ;
    binary64::lemma_of(1);
    assert(unit > 0) by (nonlinear_arith)
        requires
            unit == one * one,
            one > 0,
    ;
    let (w, v) = (c * p, c * q);
    assert(w * w == cc * pp && v * v == cc * qq) by (nonlinear_arith)
        requires
            w == c * p,
            v == c * q,
            cc == c * c,
            pp == p * p,
            qq == q * q,
    ;
    let l = pp + qq;
    let share = (l - unit) * 0x200000000000;
    assert(cc <= unit + unit / 0x100000 && l <= unit + unit / 0x100000);
    assert(cc * pp + cc * qq == cc * l && cc * pp >= 0 && cc * qq >= 0) by (nonlinear_arith)
        requires
            l == pp + qq,
            cc >= 0,
            pp >= 0,
            qq >= 0,
    ;
    let most = unit + unit / 0x100000;
    assert(cc * l <= 2 * square) by (nonlinear_arith)
        requires
            0 <= cc <= most,
            0 <= l <= most,
            10 * most <= 11 * unit,
            square == unit * unit,
            unit > 0,
    {
        assert(cc * l <= most * most);
        assert((10 * most) * (10 * most) <= (11 * unit) * (11 * unit));
        assert((10 * most) * (10 * most) == 100 * (most * most));
        assert((11 * unit) * (11 * unit) == 121 * (unit * unit));
    }
    norm::lemma_component(declination.cos, longitude.cos);
    norm::lemma_component(declination.cos, longitude.sin);
    let x = (declination.cos * longitude.cos).value();
    let y = (declination.cos * longitude.sin).value();
    let (xx, yy) = (x * x, y * y);
    // What the square of the length comes to, a unit times over.
    assert(cc * l - cc * unit == cc * (l - unit)) by (nonlinear_arith);
    let off = cc * (l - unit);
    assert(-2 * square <= off * 0x200000000000 <= 2 * square) by (nonlinear_arith)
        requires
            off == cc * (l - unit),
            share == (l - unit) * 0x200000000000,
            -unit <= share <= unit,
            0 <= cc <= most,
            most <= 2 * unit,
            square == unit * unit,
            unit > 0,
    {
        assert(off * 0x200000000000 == cc * share);
        assert(cc * share <= cc * unit);
        assert(-(cc * unit) <= cc * share);
        assert(cc * unit <= (2 * unit) * unit);
    }
    let r = cc + zz;
    assert(r * unit - square == (r - unit) * unit) by (nonlinear_arith)
        requires
            square == unit * unit,
    ;
    assert(-square <= ((r - unit) * unit) * 0x200000000000 <= square) by (nonlinear_arith)
        requires
            -unit <= (r - unit) * 0x200000000000 <= unit,
            square == unit * unit,
            unit > 0,
    ;
    assert(r * unit == cc * unit + zz * unit) by (nonlinear_arith)
        requires
            r == cc + zz,
    ;
    let whole = xx + yy + zz;
    assert(whole * unit == xx * unit + yy * unit + zz * unit) by (nonlinear_arith)
        requires
            whole == xx + yy + zz,
    ;
    let e = whole - unit;
    assert(e * unit == whole * unit - square) by (nonlinear_arith)
        requires
            e == whole - unit,
            square == unit * unit,
    ;
    assert(-square <= (e * unit) * 0x40000000000 <= square);
    assert(-unit <= e * 0x40000000000 <= unit) by (nonlinear_arith)
        requires
            -square <= (e * unit) * 0x40000000000 <= square,
            square == unit * unit,
            unit > 0,
    {
        let t = e * 0x40000000000;
        assert((e * unit) * 0x40000000000 == t * unit);
        if t > unit {
            assert(t * unit > unit * unit);
        }
        if t < -unit {
            assert(t * unit < (-unit) * unit);
            assert((-unit) * unit == -(unit * unit));
        }
    }
}

} // verus!
