use flightsim::angle::{self, SinCos};
use flightsim::binary32::Binary32;
use flightsim::binary64::Binary64;
use flightsim::fdm::state::LocalFrame;
use flightsim::geodetic::Geodetic;
use flightsim::render::daylight::{
    self, AmbientLight, Attenuation, SunIlluminancePolicy, SunLighting, TimeOfDay, TimeRate,
    EXTRATERRESTRIAL_ILLUMINANCE,
};
use flightsim::render::scene::{self, SunDirection};
use flightsim::render::sun::{
    self, EquationSines, JulianDate, OrbitSines, SolarElements, SolarPosition, UtcDateTime,
};
use flightsim::render::surface::Rgb;
use flightsim::vector::{DVec3, Vec3};

const SECONDS_PER_DAY: f64 = 86_400.0;

fn d(x: f64) -> Binary64 {
    Binary64::from_bits(x.to_bits())
}

fn f(x: Binary64) -> f64 {
    f64::from_bits(x.to_bits())
}

fn single(x: f32) -> Binary32 {
    Binary32::from_bits(x.to_bits())
}

fn f32_of(x: Binary32) -> f32 {
    f32::from_bits(x.to_bits())
}

fn sin_cos(x: Binary64) -> SinCos {
    let (sin, cos) = f(x).sin_cos();
    SinCos { sin: d(sin), cos: d(cos) }
}

fn degrees(radians: Binary64) -> f64 {
    f(angle::to_degrees(radians))
}

fn radians(degrees: f64) -> Binary64 {
    angle::to_radians(d(degrees))
}

fn place(latitude: f64, longitude: f64, altitude: f64) -> Geodetic {
    Geodetic { latitude: radians(latitude), longitude: radians(longitude), altitude: d(altitude) }
}

/// The axes at a place; a direction needs no origin.
fn frame_at(place: Geodetic) -> LocalFrame {
    let (sin_lat, cos_lat) = f(place.latitude).sin_cos();
    let (sin_lon, cos_lon) = f(place.longitude).sin_cos();
    let v = |x: f64, y: f64, z: f64| DVec3::new(d(x), d(y), d(z));
    LocalFrame {
        origin: v(0.0, 0.0, 0.0),
        north: v(-sin_lat * cos_lon, -sin_lat * sin_lon, cos_lat),
        east: v(-sin_lon, cos_lon, 0.0),
        down: v(-cos_lat * cos_lon, -cos_lat * sin_lon, -sin_lat),
    }
}

fn elements(time: JulianDate) -> SolarElements {
    let t = time.centuries_since_j2000();
    let angles = sun::orbit_angles(t);
    let m = f(angles.anomaly);
    let node = f(angles.node);
    sun::solar_elements(
        t,
        OrbitSines {
            anomaly: d(m.sin()),
            twice_anomaly: d((2.0 * m).sin()),
            thrice_anomaly: d((3.0 * m).sin()),
            node: d(node.sin()),
            node_cosine: d(node.cos()),
        },
    )
}

fn declination(time: JulianDate) -> Binary64 {
    let e = elements(time);
    let sine = sun::declination_sine(sin_cos(e.obliquity).sin, sin_cos(e.apparent_longitude).sin);
    sun::solar_declination(time, d(f(sine).asin()))
}

fn time_equation(time: JulianDate) -> f64 {
    let e = elements(time);
    let longitude = f(e.mean_longitude);
    let m = f(e.mean_anomaly);
    f(sun::equation_of_time(
        time,
        e.eccentricity,
        EquationSines {
            half_tangent_squared: d((f(e.obliquity) / 2.0).tan().powi(2)),
            twice_longitude: d((2.0 * longitude).sin()),
            twice_longitude_cosine: d((2.0 * longitude).cos()),
            four_longitude: d((4.0 * longitude).sin()),
            anomaly: d(m.sin()),
            twice_anomaly: d((2.0 * m).sin()),
        },
    ))
}

fn direction(time: JulianDate) -> DVec3 {
    let e = elements(time);
    let legs = sun::ascension_legs(sin_cos(e.obliquity).cos, sin_cos(e.apparent_longitude));
    let longitude = sun::subsolar_longitude(time, d(f(legs.y).atan2(f(legs.x))));
    sun::sun_direction_ecef(time, sin_cos(longitude), sin_cos(declination(time)))
}

fn solar_position(time: JulianDate, observer: Geodetic) -> SolarPosition {
    let sight = sun::sight_of(frame_at(observer), direction(time));
    sun::solar_position(
        time,
        observer,
        d(f(sight.east).atan2(f(sight.north))),
        d(f(sight.up).asin()),
    )
}

fn at_time(year: i32, month: u8, day: u8, hour: u8, minute: u8, second: f64) -> UtcDateTime {
    UtcDateTime::new(year, month, day, hour, minute, d(second))
}

fn attenuation(elevation: Binary64) -> Attenuation {
    let sine = d(f(elevation).sin());
    let power = match daylight::attenuation_base(elevation) {
        Some(base) => d(f(base).powf(-1.6364)),
        None => d(0.0),
    };
    let exponent = daylight::attenuation_exponent(sine, power);
    Attenuation { sine, power, remaining: d(f(exponent).exp()) }
}

fn direct(elevation: Binary64, raw: Binary32) -> f32 {
    f32_of(daylight::direct_normal_illuminance(elevation, raw, attenuation(elevation)))
}

fn illuminance(lighting: &SunLighting, elevation: Binary64) -> f32 {
    f32_of(lighting.illuminance(elevation, attenuation(elevation)))
}

fn linear(channel: Binary32) -> Binary32 {
    let c = f32_of(channel);
    single(if c <= 0.04045 { c / 12.92 } else { ((c + 0.055) / 1.055).powf(2.4) })
}

fn ambient(lighting: &SunLighting, elevation: Binary64) -> AmbientLight {
    let tint = lighting.night_tint;
    let night = Rgb { red: linear(tint.red), green: linear(tint.green), blue: linear(tint.blue) };
    lighting.ambient(elevation, d(f(elevation).sin()), night)
}

fn light_forward(towards: SunDirection) -> Vec3 {
    scene::sun_light_direction(sin_cos(towards.azimuth), sin_cos(towards.elevation))
}

/// The observation site in Tokyo.
fn tokyo() -> Geodetic {
    place(35.6895, 139.6917, 0.0)
}

#[test]
fn the_epoch_matches_the_published_value_of_j2000() {
    let jd = f(at_time(2000, 1, 1, 12, 0, 0.0).to_julian_date().get());
    assert!((jd - 2_451_545.0).abs() < 1e-9, "2000-01-01 12:00 UT should be JD 2451545.0, got {jd}");
    assert_eq!(f(JulianDate::j2000().get()), 2_451_545.0);
}

#[test]
fn the_julian_date_matches_meeus_worked_examples() {
    let cases = [
        (at_time(1957, 10, 4, 19, 26, 24.0), 2_436_116.31),
        (UtcDateTime::midnight(1987, 1, 27), 2_446_822.5),
        (at_time(1987, 6, 19, 12, 0, 0.0), 2_446_966.0),
        (UtcDateTime::midnight(1988, 1, 27), 2_447_187.5),
        (UtcDateTime::midnight(1600, 1, 1), 2_305_447.5),
        (UtcDateTime::midnight(2100, 1, 1), 2_488_069.5),
    ];
    for (civil, expected) in cases {
        let jd = f(civil.to_julian_date().get());
        assert!((jd - expected).abs() < 1e-6, "{civil:?} should be JD {expected}, got {jd}");
    }
}

#[test]
fn the_calendar_survives_a_round_trip() {
    let cases = [
        at_time(2026, 1, 1, 0, 0, 0.0),
        at_time(2026, 2, 28, 23, 59, 59.0),
        at_time(2028, 2, 29, 12, 34, 56.0),
        at_time(2026, 12, 31, 23, 0, 0.0),
        at_time(1999, 8, 11, 11, 3, 0.0),
    ];
    for civil in cases {
        let back = civil.to_julian_date().to_utc_date_time();
        assert_eq!(back.year, civil.year, "{civil:?} -> {back:?}");
        assert_eq!(back.month, civil.month, "{civil:?} -> {back:?}");
        assert_eq!(back.day, civil.day, "{civil:?} -> {back:?}");
        assert_eq!(back.hour, civil.hour, "{civil:?} -> {back:?}");
        assert_eq!(back.minute, civil.minute, "{civil:?} -> {back:?}");
        assert!((f(back.second) - f(civil.second)).abs() < 1e-3, "{civil:?} -> {back:?}");
    }
}

#[test]
fn midnight_does_not_come_out_as_the_previous_day() {
    let midnight = UtcDateTime::midnight(2026, 6, 21).to_julian_date();
    let back = midnight.to_utc_date_time();
    assert_eq!((back.day, back.hour, back.minute), (21, 0, 0), "{back:?}");
    assert!(f(back.second).abs() < 1e-6, "{back:?}");
}

#[test]
fn advancing_by_a_day_lands_on_the_next_day() {
    let start = at_time(2026, 6, 21, 9, 0, 0.0).to_julian_date();
    let later = start.advanced_by(d(SECONDS_PER_DAY));
    let back = later.to_utc_date_time();
    assert_eq!((back.month, back.day, back.hour), (6, 22, 9), "{back:?}");
}

#[test]
fn the_declination_vanishes_at_the_published_equinox() {
    for civil in [at_time(2026, 3, 20, 14, 46, 0.0), at_time(2026, 9, 23, 0, 5, 0.0)] {
        let declination = degrees(declination(civil.to_julian_date()));
        assert!(
            declination.abs() < 0.05,
            "{civil:?}: declination should be ~0°, got {declination:.4}°"
        );
    }
}

#[test]
fn the_declination_reaches_the_obliquity_at_the_published_solstice() {
    let summer = degrees(declination(at_time(2026, 6, 21, 8, 24, 0.0).to_julian_date()));
    assert!(
        (summer - 23.44).abs() < 0.05,
        "the June solstice declination should be +23.44°, got {summer:.4}°"
    );
    let winter = degrees(declination(at_time(2026, 12, 21, 20, 50, 0.0).to_julian_date()));
    assert!(
        (winter + 23.44).abs() < 0.05,
        "the December solstice declination should be −23.44°, got {winter:.4}°"
    );
}

#[test]
fn the_equation_of_time_matches_the_published_analemma() {
    let cases = [
        (UtcDateTime::midnight(2026, 2, 11), -14.2, 0.5),
        (UtcDateTime::midnight(2026, 5, 14), 3.7, 0.5),
        (UtcDateTime::midnight(2026, 7, 26), -6.5, 0.5),
        (UtcDateTime::midnight(2026, 11, 3), 16.4, 0.5),
        (UtcDateTime::midnight(2026, 4, 15), 0.0, 0.6),
        (UtcDateTime::midnight(2026, 6, 13), 0.0, 0.6),
        (UtcDateTime::midnight(2026, 9, 1), 0.0, 0.6),
        (UtcDateTime::midnight(2026, 12, 25), 0.0, 0.6),
    ];
    for (civil, expected_minutes, tolerance) in cases {
        let minutes = time_equation(civil.to_julian_date()) / 60.0;
        assert!(
            (minutes - expected_minutes).abs() < tolerance,
            "{civil:?}: equation of time should be {expected_minutes} min, got {minutes:.2} min"
        );
    }
}

/// The highest sun of a day, looked for minute by minute.
fn culmination(date: UtcDateTime, observer: Geodetic) -> (JulianDate, SolarPosition) {
    let midnight = date.to_julian_date();
    let mut best = (midnight, solar_position(midnight, observer));
    for minute in 0..(24 * 60) {
        let time = midnight.advanced_by(d(f64::from(minute) * 60.0));
        let position = solar_position(time, observer);
        if f(position.elevation) > f(best.1.elevation) {
            best = (time, position);
        }
    }
    best
}

#[test]
fn tokyo_noon_altitude_matches_the_published_figures() {
    let (_, summer) = culmination(UtcDateTime::midnight(2026, 6, 21), tokyo());
    let summer_degrees = degrees(summer.elevation);
    assert!(
        (summer_degrees - 77.75).abs() < 0.3,
        "Tokyo's midsummer noon sun should be ~77.8° up, got {summer_degrees:.2}°"
    );
    let (_, winter) = culmination(UtcDateTime::midnight(2026, 12, 21), tokyo());
    let winter_degrees = degrees(winter.elevation);
    assert!(
        (winter_degrees - 30.87).abs() < 0.3,
        "Tokyo's midwinter noon sun should be ~30.9° up, got {winter_degrees:.2}°"
    );
    for (label, position) in [("summer", summer), ("winter", winter)] {
        let azimuth = degrees(position.azimuth);
        assert!(
            (azimuth - 180.0).abs() < 0.5,
            "the {label} culmination should be due south, got {azimuth:.2}°"
        );
    }
}

#[test]
fn the_sun_is_overhead_at_the_equator_on_the_equinox() {
    let (_, noon) = culmination(UtcDateTime::midnight(2026, 3, 20), place(0.0, 0.0, 0.0));
    let elevation = degrees(noon.elevation);
    assert!(
        elevation > 89.5,
        "the equinox sun should pass within 0.5° of the equatorial zenith, got {elevation:.2}°"
    );
}

#[test]
fn the_equinox_day_is_twelve_hours_long_at_the_equator() {
    let midnight = UtcDateTime::midnight(2026, 3, 20).to_julian_date();
    let equator = place(0.0, 0.0, 0.0);
    let daylight_minutes = (0..(24 * 60))
        .filter(|minute| {
            let time = midnight.advanced_by(d(f64::from(*minute) * 60.0));
            solar_position(time, equator).is_above_horizon()
        })
        .count();
    let hours = daylight_minutes as f64 / 60.0;
    assert!(
        (hours - 12.0).abs() < 0.2,
        "the equinox day should be 12 h long at the equator, got {hours:.2} h"
    );
}

#[test]
fn the_equinox_sun_rises_due_east() {
    let midnight = UtcDateTime::midnight(2026, 3, 20).to_julian_date();
    for observer in [tokyo(), place(0.0, 0.0, 0.0), place(-33.87, 151.21, 0.0)] {
        let mut sunrise = None;
        let mut previous = solar_position(midnight, observer);
        for minute in 1..(24 * 60) {
            let time = midnight.advanced_by(d(f64::from(minute) * 60.0));
            let position = solar_position(time, observer);
            if !previous.is_above_horizon() && position.is_above_horizon() {
                sunrise = Some(position);
                break;
            }
            previous = position;
        }
        let sunrise = sunrise.expect("the sun should rise somewhere in the day");
        let azimuth = degrees(sunrise.azimuth);
        assert!(
            (azimuth - 90.0).abs() < 1.5,
            "at {:.1}°N the equinox sunrise should be due east, got {azimuth:.2}°",
            degrees(observer.latitude)
        );
    }
}

#[test]
fn the_midnight_sun_stands_still_over_the_pole() {
    let midnight = UtcDateTime::midnight(2026, 6, 21).to_julian_date();
    let pole = place(90.0, 0.0, 0.0);
    let mut lowest = f64::INFINITY;
    let mut highest = f64::NEG_INFINITY;
    for minute in 0..(24 * 60) {
        let time = midnight.advanced_by(d(f64::from(minute) * 60.0));
        let position = solar_position(time, pole);
        assert!(
            position.elevation.is_finite() && position.azimuth.is_finite(),
            "the pole produced {position:?}"
        );
        lowest = lowest.min(degrees(position.elevation));
        highest = highest.max(degrees(position.elevation));
    }
    assert!(
        (highest - 23.44).abs() < 0.2 && (highest - lowest) < 0.2,
        "the midnight sun should circle at ~23.4°, got {lowest:.2}°..{highest:.2}°"
    );
}

#[test]
fn the_polar_night_keeps_the_sun_down_all_day() {
    let midnight = UtcDateTime::midnight(2026, 12, 21).to_julian_date();
    let pole = place(90.0, 0.0, 0.0);
    for minute in 0..(24 * 60) {
        let time = midnight.advanced_by(d(f64::from(minute) * 60.0));
        let position = solar_position(time, pole);
        assert!(
            !position.is_above_horizon(),
            "the polar night should keep the sun below the horizon, got {position:?}"
        );
    }
}

#[test]
fn the_dateline_is_not_a_special_case() {
    let time = at_time(2026, 6, 21, 0, 0, 0.0).to_julian_date();
    let east = solar_position(time, place(10.0, 180.0, 0.0));
    let west = solar_position(time, place(10.0, -180.0, 0.0));
    assert!(
        (f(east.elevation) - f(west.elevation)).abs() < 1e-9,
        "+180° gave {east:?} but −180° gave {west:?}"
    );
    let turn = (f(east.azimuth) - f(west.azimuth)).abs();
    assert!(
        turn.min(core::f64::consts::TAU - turn) < 1e-9,
        "+180° gave {east:?} but −180° gave {west:?}"
    );
}

#[test]
fn the_sun_moves_west_over_the_day() {
    let midnight = UtcDateTime::midnight(2026, 4, 10).to_julian_date();
    let observer = tokyo();
    let morning = midnight.advanced_by(d(0.0 * 3600.0));
    let noon = midnight.advanced_by(d(3.0 * 3600.0));
    let evening = midnight.advanced_by(d(7.0 * 3600.0));
    let morning = degrees(solar_position(morning, observer).azimuth);
    let noon = degrees(solar_position(noon, observer).azimuth);
    let evening = degrees(solar_position(evening, observer).azimuth);
    assert!(
        morning < noon && noon < evening,
        "the sun should sweep east→south→west, got {morning:.1}° {noon:.1}° {evening:.1}°"
    );
    assert!(
        (90.0..130.0).contains(&morning),
        "at 09:00 JST the sun should be in the east-southeast, got {morning:.1}°"
    );
}

#[test]
fn local_mean_solar_noon_puts_the_sun_near_the_meridian() {
    for longitude_degrees in [-179.0, -75.0, 0.0, 45.0, 139.7, 180.0] {
        let observer = place(35.0, longitude_degrees, 0.0);
        let time = JulianDate::from_local_mean_solar_time(
            at_time(2026, 5, 5, 12, 0, 0.0),
            observer.longitude,
        );
        let azimuth = degrees(solar_position(time, observer).azimuth);
        assert!(
            (azimuth - 180.0).abs() < 5.0,
            "local mean noon at {longitude_degrees}° gave an azimuth of {azimuth:.2}°"
        );
    }
}

#[test]
fn the_sun_direction_is_a_unit_vector_all_year() {
    let start = UtcDateTime::midnight(2026, 1, 1).to_julian_date();
    for day in 0..366 {
        let time = start.advanced_by(d(f64::from(day) * SECONDS_PER_DAY));
        let length = f(direction(time).length());
        assert!((length - 1.0).abs() < 1e-12, "day {day} gave a direction of length {length}");
    }
}

#[test]
fn nothing_produces_a_nan() {
    let broken_times = [
        JulianDate(d(f64::NAN)),
        JulianDate(d(f64::INFINITY)),
        JulianDate(d(f64::NEG_INFINITY)),
        JulianDate(d(0.0)),
        JulianDate(d(-1e12)),
    ];
    let observers = [
        tokyo(),
        place(90.0, 0.0, 0.0),
        place(-90.0, 180.0, 0.0),
        place(f64::NAN, f64::NAN, 0.0),
        place(0.0, 0.0, 40_000.0),
    ];
    for time in broken_times {
        let towards = direction(time);
        assert!(towards.x.is_finite() && towards.y.is_finite() && towards.z.is_finite());
        assert!(declination(time).is_finite());
        assert!(time_equation(time).is_finite());
        assert!(sun::greenwich_mean_sidereal_time(time).is_finite());
        for observer in observers {
            let position = solar_position(time, observer);
            assert!(
                position.azimuth.is_finite() && position.elevation.is_finite(),
                "time {time:?} at {observer:?} gave {position:?}"
            );
            assert!(
                (0.0..core::f64::consts::TAU).contains(&f(position.azimuth)),
                "azimuth out of range: {position:?}"
            );
            assert!(
                f(position.elevation).abs() <= core::f64::consts::FRAC_PI_2 + 1e-12,
                "elevation out of range: {position:?}"
            );
        }
    }
}

#[test]
fn the_sidereal_time_advances_by_one_turn_per_day() {
    let start = UtcDateTime::midnight(2026, 3, 1).to_julian_date();
    let a = degrees(sun::greenwich_mean_sidereal_time(start));
    let b = degrees(sun::greenwich_mean_sidereal_time(start.advanced_by(d(SECONDS_PER_DAY))));
    let advance = (b - a).rem_euclid(360.0);
    assert!(
        (advance - 0.9856).abs() < 0.001,
        "sidereal time should gain 0.9856°/day on solar time, got {advance:.4}°"
    );
}

/// Haneda.
fn haneda() -> Geodetic {
    place(35.55, 139.78, 0.0)
}

/// Bearing and height of the sun in degrees.
fn at(year: i32, month: u8, day: u8, hour: u8, minute: u8, at: Geodetic) -> (f64, f64) {
    let julian = at_time(year, month, day, hour, minute, 0.0).to_julian_date();
    let position = solar_position(julian, at);
    (degrees(position.azimuth), degrees(position.elevation))
}

#[test]
fn the_solstice_noon_elevation_matches_spherical_geometry() {
    let peak_elevation = |month: u8, day: u8| {
        let mut best = f64::NEG_INFINITY;
        for minute in 0..120_u8 {
            let (_, elevation) = at(2026, month, day, 2, minute, haneda());
            best = best.max(elevation);
        }
        best
    };
    let summer = peak_elevation(6, 21);
    let winter = peak_elevation(12, 21);
    let expected_summer = 90.0 - (35.55 - 23.44_f64).abs();
    let expected_winter = 90.0 - (35.55 - (-23.44_f64)).abs();
    assert!(
        (summer - expected_summer).abs() < 0.3,
        "summer solstice noon elevation should be about {expected_summer:.2}, got {summer:.3}"
    );
    assert!(
        (winter - expected_winter).abs() < 0.3,
        "winter solstice noon elevation should be about {expected_winter:.2}, got {winter:.3}"
    );
    assert!(
        ((summer - winter) - 2.0 * 23.44).abs() < 0.5,
        "the seasonal swing should be twice the obliquity, got {:.2}",
        summer - winter
    );
}

#[test]
fn the_sun_is_south_at_local_noon_in_the_northern_hemisphere() {
    let mut best = (0.0, f64::NEG_INFINITY);
    for minute in 0..120_u8 {
        let (azimuth, elevation) = at(2026, 6, 21, 2, minute, haneda());
        if elevation > best.1 {
            best = (azimuth, elevation);
        }
    }
    assert!(
        (best.0 - 180.0).abs() < 1.0,
        "at local noon the sun should bear about 180 deg, got {:.2}",
        best.0
    );
}

#[test]
fn the_equinox_sun_rises_due_east_everywhere() {
    for (name, latitude) in [("Tokyo", 35.55), ("equator", 0.0), ("Sydney", -33.87)] {
        let place = place(latitude, 139.78, 0.0);
        let mut crossing = None;
        for hour in 18_u8..24 {
            for minute in 0_u8..60 {
                let (azimuth, elevation) = at(2026, 3, 20, hour, minute, place);
                if elevation > 0.0 {
                    crossing = Some(azimuth);
                    break;
                }
            }
            if crossing.is_some() {
                break;
            }
        }
        let azimuth = crossing.unwrap_or_else(|| panic!("{name}: the sun never rose"));
        assert!(
            (azimuth - 90.0).abs() < 2.0,
            "{name}: the equinox sunrise should be due east, got {azimuth:.2}"
        );
    }
}

#[test]
fn the_midnight_sun_never_sets_at_the_pole_in_midsummer() {
    let pole = place(89.9, 0.0, 0.0);
    for hour in 0..24_u8 {
        let (_, elevation) = at(2026, 6, 21, hour, 0, pole);
        assert!(
            elevation > 20.0,
            "the midnight sun should stay up at the pole, got {elevation:.2} at {hour:02}:00 UTC"
        );
    }
}

#[test]
fn the_polar_night_keeps_the_sun_down_at_midwinter() {
    let pole = place(89.9, 0.0, 0.0);
    for hour in 0..24_u8 {
        let (_, elevation) = at(2026, 12, 21, hour, 0, pole);
        assert!(
            elevation < 0.0,
            "the polar night should keep the sun down, got {elevation:.2} at {hour:02}:00 UTC"
        );
    }
}

#[test]
fn the_two_hemispheres_have_opposite_seasons() {
    let mut tokyo_summer = f64::NEG_INFINITY;
    for minute in 0..120_u8 {
        tokyo_summer = tokyo_summer.max(at(2026, 6, 21, 2, minute, haneda()).1);
    }
    let sydney = place(-33.87, 151.21, 0.0);
    let mut sydney_winter = f64::NEG_INFINITY;
    for minute in 0..120_u8 {
        sydney_winter = sydney_winter.max(at(2026, 6, 21, 0, minute, sydney).1);
    }
    assert!(tokyo_summer > 70.0, "Tokyo should be in high summer, got {tokyo_summer:.1}");
    assert!(
        sydney_winter < 40.0,
        "Sydney should be in winter on the same day, got {sydney_winter:.1}"
    );
}

#[test]
fn a_broken_clock_does_not_produce_nan() {
    for julian in [f64::NAN, f64::INFINITY, f64::NEG_INFINITY] {
        let position = solar_position(JulianDate(d(julian)), haneda());
        assert!(
            position.azimuth.is_finite() && position.elevation.is_finite(),
            "a broken clock produced a non-finite solar position"
        );
        assert!(!position.is_above_horizon(), "a broken clock should fail safe to night");
        assert_eq!(position, SolarPosition::night());
    }
}

#[test]
fn the_azimuth_stays_inside_one_full_turn() {
    let julian = at_time(2026, 9, 23, 0, 5, 0.0).to_julian_date();
    for hours in 0..48 {
        let moment = julian.advanced_by(d(f64::from(hours) * 3600.0));
        for latitude in [-89.0, -45.0, 0.0, 45.0, 89.0] {
            let azimuth = f(solar_position(moment, place(latitude, -179.0, 0.0)).azimuth);
            assert!(
                (0.0..std::f64::consts::TAU).contains(&azimuth),
                "azimuth {azimuth} is outside [0, 2pi) at latitude {latitude}"
            );
        }
    }
}

#[test]
fn moving_east_makes_the_sun_rise_earlier() {
    let elevation_at = |longitude: f64| at(2026, 3, 20, 21, 0, place(0.0, longitude, 0.0)).1;
    let east = elevation_at(135.0);
    let further_west = elevation_at(90.0);
    assert!(
        east > further_west,
        "the eastern site should be further into its day: {east:.1} vs {further_west:.1}"
    );
}

/// How bright the light from all sides is for a sun so many degrees up.
fn ambient_at(elevation_degrees: f64) -> f32 {
    f32_of(ambient(&SunLighting::default(), radians(elevation_degrees)).brightness)
}

#[test]
fn civil_twilight_is_brighter_than_night() {
    let night = ambient_at(-20.0);
    let sunset = ambient_at(0.0);
    assert!(
        sunset > night * 1.3,
        "at sunset the ambient ({sunset:.0}) should clearly exceed night ({night:.0})"
    );
}

#[test]
fn the_light_fades_monotonically_through_twilight() {
    let mut previous = f32::INFINITY;
    let mut degrees = 20.0;
    while degrees >= -20.0 {
        let ambient = ambient_at(degrees);
        assert!(
            ambient <= previous + 1e-3,
            "the ambient rose from {previous:.1} to {ambient:.1} while the sun fell to {degrees}"
        );
        previous = ambient;
        degrees -= 0.5;
    }
}

#[test]
fn the_fade_has_no_cliff() {
    let mut degrees = 12.0;
    while degrees >= -12.0 {
        let here = ambient_at(degrees);
        let next = ambient_at(degrees - 0.5);
        let jump = (here - next).abs();
        assert!(
            jump < 250.0,
            "the ambient jumps by {jump:.0} between {degrees} and {:.1} deg",
            degrees - 0.5
        );
        degrees -= 0.5;
    }
}

#[test]
fn deep_night_settles_at_the_floor() {
    let floor = ambient_at(-30.0);
    for degrees in [-8.0, -12.0, -20.0, -30.0] {
        let ambient = ambient_at(degrees);
        assert!(
            (ambient - floor).abs() < 1.0,
            "past civil twilight the ambient should rest at the floor, got {ambient:.1} at {degrees}"
        );
    }
    assert!(floor > 0.0, "the night must not be pitch black");
    assert_eq!(floor, 1_500.0);
}

#[test]
fn noon_keeps_full_daylight() {
    let noon = ambient_at(78.0);
    assert!(noon > 5_500.0, "high noon should stay at full daylight ambient, got {noon:.0}");
}

#[test]
fn an_evening_landing_is_not_a_blackout() {
    let tokyo = place(35.55, 139.40, 0.0);
    let clock =
        TimeOfDay::at_local_mean_solar_time(at_time(2026, 6, 21, 19, 30, 0.0), tokyo.longitude);
    let sun = solar_position(clock.utc, tokyo);
    let elevation = degrees(sun.elevation);
    assert!(
        (-6.0..0.0).contains(&elevation),
        "this check assumes civil twilight, got {elevation:.2} deg"
    );
    let ambient = f32_of(ambient(&SunLighting::default(), sun.elevation).brightness);
    let night = ambient_at(-20.0);
    assert!(
        ambient > night * 1.1,
        "an evening landing should still have usable light: {ambient:.0} vs night {night:.0}"
    );
}

#[test]
fn a_broken_sun_angle_does_not_produce_a_broken_light() {
    for elevation in [f64::NAN, f64::INFINITY, f64::NEG_INFINITY] {
        let brightness = f32_of(ambient(&SunLighting::default(), d(elevation)).brightness);
        assert!(
            brightness.is_finite() && brightness >= 0.0,
            "a broken sun angle produced brightness {brightness}"
        );
    }
}

#[test]
fn real_time_advances_one_second_per_second() {
    let mut clock = TimeOfDay::new(UtcDateTime::midnight(2026, 6, 21).to_julian_date());
    let start = f(clock.utc.get());
    clock.advance(d(60.0));
    let elapsed_seconds = (f(clock.utc.get()) - start) * 86_400.0;
    assert!(
        (elapsed_seconds - 60.0).abs() < 1e-3,
        "60 real seconds should be 60 simulated seconds, got {elapsed_seconds}"
    );
}

#[test]
fn time_acceleration_multiplies_the_elapsed_time() {
    let mut clock = TimeOfDay::new(UtcDateTime::midnight(2026, 6, 21).to_julian_date());
    clock.rate = TimeRate::fastest();
    let start = f(clock.utc.get());
    for _ in 0..(24 * 60) {
        clock.advance(d(1.0 / 60.0));
    }
    let days = f(clock.utc.get()) - start;
    assert!((days - 1.0).abs() < 1e-6, "24 s at 3600x should be one day, got {days:.6} days");
}

#[test]
fn a_paused_clock_does_not_move() {
    let mut clock = TimeOfDay::new(UtcDateTime::midnight(2026, 6, 21).to_julian_date());
    clock.rate = TimeRate::paused();
    let start = clock.utc;
    clock.advance(d(3600.0));
    assert!((f(clock.utc.get()) - f(start.get())).abs() < f64::EPSILON);
}

#[test]
fn the_clock_refuses_broken_input() {
    let mut clock = TimeOfDay::new(UtcDateTime::midnight(2026, 6, 21).to_julian_date());
    let start = f(clock.utc.get());
    clock.advance(d(f64::NAN));
    clock.advance(d(f64::INFINITY));
    clock.rate = TimeRate(d(f64::NAN));
    clock.advance(d(1.0));
    assert!(
        (f(clock.utc.get()) - start).abs() < f64::EPSILON,
        "broken input moved the clock to {}",
        f(clock.utc.get())
    );
    assert!(clock.utc.is_finite());
}

#[test]
fn the_rate_steps_through_the_presets_and_stops_at_the_ends() {
    let mut rate = TimeRate::paused();
    for _ in 0..10 {
        rate = rate.faster();
    }
    assert!(
        (f(rate.get()) - f(TimeRate::fastest().get())).abs() < f64::EPSILON,
        "speeding up should stop at the fastest preset, got {rate:?}"
    );
    for _ in 0..10 {
        rate = rate.slower();
    }
    assert!(rate.is_paused(), "slowing down should stop at pause");
    for pair in TimeRate::presets().windows(2) {
        assert!(f(pair[0].get()) < f(pair[1].get()), "the presets are not sorted");
    }
}

#[test]
fn a_broken_rate_is_treated_as_paused() {
    assert!(TimeRate(d(f64::NAN)).is_paused());
    assert!(TimeRate(d(-1.0)).sanitised().is_paused());
    assert!(f(TimeRate(d(f64::INFINITY)).sanitised().get()) <= 21_600.0);
}

#[test]
fn starting_at_local_noon_puts_the_sun_high_wherever_you_are() {
    for longitude in [-150.0, -75.0, 0.0, 100.0, 139.78, 179.0] {
        let observer = place(35.0, longitude, 0.0);
        let clock = TimeOfDay::at_local_mean_solar_time(
            at_time(2026, 6, 21, 12, 0, 0.0),
            observer.longitude,
        );
        let degrees = degrees(solar_position(clock.utc, observer).elevation);
        assert!(degrees > 70.0, "local noon at {longitude}° gave an elevation of {degrees:.1}°");
    }
}

fn raw_sunlight() -> Binary32 {
    Binary32::of(EXTRATERRESTRIAL_ILLUMINANCE)
}

#[test]
fn the_zenith_sun_matches_the_published_direct_sunlight_figure() {
    let value = direct(radians(90.0), raw_sunlight());
    let published = 100_000.0;
    assert!(
        (value - published).abs() < published * 0.1,
        "the zenith sun should be within 10% of {published} lux, got {value:.0}"
    );
}

#[test]
fn the_illuminance_falls_off_toward_the_horizon() {
    let mut previous = f32::INFINITY;
    for degrees in [90.0, 60.0, 30.0, 20.0, 10.0, 5.0, 1.0, 0.1] {
        let value = direct(radians(degrees), raw_sunlight());
        assert!(
            value < previous,
            "{degrees}° gave {value:.0} lux, which is not below {previous:.0}"
        );
        assert!(value >= 0.0);
        previous = value;
    }
}

#[test]
fn the_low_sun_matches_published_clear_sky_figures() {
    let thirty = direct(radians(30.0), raw_sunlight());
    assert!(
        (80_000.0..90_000.0).contains(&thirty),
        "30° should give 80–90 klux, got {thirty:.0}"
    );
    let ten = direct(radians(10.0), raw_sunlight());
    assert!((40_000.0..50_000.0).contains(&ten), "10° should give 40–50 klux, got {ten:.0}");
}

#[test]
fn the_sun_below_the_horizon_does_not_light_anything() {
    for degrees in [-0.1, -6.0, -30.0, -90.0] {
        let value = direct(radians(degrees), raw_sunlight());
        assert!(
            value.abs() < f32::EPSILON,
            "a sun {degrees}° below the horizon lit the ground with {value} lux"
        );
    }
}

#[test]
fn the_default_policy_hands_over_the_unfiltered_illuminance() {
    let lighting = SunLighting::default();
    for degrees in [90.0, 30.0, 1.0, 0.0, -3.0, -20.0] {
        let value = illuminance(&lighting, radians(degrees));
        assert!(
            (value - 130_000.0).abs() < f32::EPSILON,
            "{degrees}° gave {value} lux instead of the raw value"
        );
    }
}

#[test]
fn the_attenuated_policy_follows_the_sun() {
    let lighting =
        SunLighting { policy: SunIlluminancePolicy::Attenuated, ..SunLighting::default() };
    assert!(illuminance(&lighting, radians(60.0)) > illuminance(&lighting, radians(10.0)));
    assert!(illuminance(&lighting, radians(-10.0)).abs() < f32::EPSILON);
}

#[test]
fn the_night_is_dark_but_not_invisible() {
    let lighting = SunLighting::default();
    let night = ambient(&lighting, radians(-30.0));
    let brightness = f32_of(night.brightness);
    assert!(brightness > 0.0, "the night ambient must not be exactly zero");
    assert!(
        brightness < f32_of(lighting.daylight_ambient) * 0.5,
        "the night must be clearly darker than the day, got {brightness}"
    );
    assert!(
        f32_of(night.color.blue) > f32_of(night.color.red),
        "the night ambient should stay blue, got {:?}",
        night.color
    );
}

#[test]
fn the_ambient_light_rises_with_the_sun() {
    let lighting = SunLighting::default();
    let mut previous = f32::NEG_INFINITY;
    for degrees in [-30.0, -6.0, -3.0, 0.0, 3.0, 6.0, 45.0, 90.0] {
        let brightness = f32_of(ambient(&lighting, radians(degrees)).brightness);
        assert!(
            brightness >= previous,
            "{degrees}° gave {brightness}, below the previous {previous}"
        );
        previous = brightness;
    }
    assert!(
        (previous - f32_of(lighting.daylight_ambient)).abs() < f32::EPSILON,
        "the high sun should reach the full daylight ambient, got {previous}"
    );
}

#[test]
fn the_twilight_blend_has_no_step_in_it() {
    let lighting = SunLighting::default();
    let daylight = f32_of(lighting.daylight_ambient);
    let mut previous = f32_of(ambient(&lighting, radians(-20.0)).brightness);
    let mut degrees = -20.0;
    while degrees <= 20.0 {
        let brightness = f32_of(ambient(&lighting, radians(degrees)).brightness);
        assert!(
            (brightness - previous).abs() < daylight * 0.05,
            "the ambient jumps by {} at {degrees}°",
            (brightness - previous).abs()
        );
        previous = brightness;
        degrees += 0.25;
    }
}

#[test]
fn broken_elevations_do_not_produce_broken_light() {
    let lighting = SunLighting::default();
    for degrees in [f64::NAN, f64::INFINITY, f64::NEG_INFINITY, 1e9] {
        let brightness = f32_of(ambient(&lighting, radians(degrees)).brightness);
        assert!(
            brightness.is_finite() && brightness >= 0.0,
            "{degrees}° gave an ambient of {brightness}"
        );
        let illuminance = direct(radians(degrees), SunLighting::default().raw_illuminance);
        assert!(illuminance.is_finite() && illuminance >= 0.0);
    }
}

fn clock_at(hour: u8) -> TimeOfDay {
    TimeOfDay::at_local_mean_solar_time(at_time(2026, 6, 21, hour, 0, 0.0), tokyo().longitude)
}

fn sun_of(clock: &TimeOfDay) -> SunDirection {
    SunDirection::from(solar_position(clock.utc, tokyo()))
}

#[test]
fn the_light_follows_the_clock() {
    let towards = sun_of(&clock_at(12));
    let elevation = degrees(towards.elevation);
    assert!(elevation > 70.0, "the midsummer noon sun should be high, got {elevation:.1}°");
    let forward = light_forward(towards);
    assert!(-f32_of(forward.y) > 0.9, "a high sun should light downward, got {forward:?}");
    let lighting = SunLighting::default();
    let light = illuminance(&lighting, towards.elevation);
    assert!(
        (light - 130_000.0).abs() < f32::EPSILON,
        "the atmosphere wants the unfiltered illuminance, got {light}"
    );
    let brightness = f32_of(ambient(&lighting, towards.elevation).brightness);
    assert!(
        brightness > f32_of(lighting.daylight_ambient) * 0.95,
        "daylight should be close to the full ambient, got {brightness}"
    );
}

#[test]
fn the_night_turns_the_scene_down_but_not_off() {
    let towards = sun_of(&clock_at(0));
    assert!(
        f(towards.elevation) < 0.0,
        "local midnight should put the sun below the horizon, got {towards:?}"
    );
    let forward = light_forward(towards);
    assert!(
        f32_of(forward.y) > 0.5,
        "a sun below the horizon should light upward, got {forward:?}"
    );
    let lighting = SunLighting::default();
    let brightness = f32_of(ambient(&lighting, towards.elevation).brightness);
    assert!(
        brightness > 0.0 && brightness <= f32_of(lighting.night_ambient),
        "the night ambient should sit at the floor, got {brightness}"
    );
}

#[test]
fn the_sun_moves_when_time_passes() {
    let mut clock = TimeOfDay { rate: TimeRate::fastest(), ..clock_at(6) };
    let start = sun_of(&clock).elevation;
    let start_time = clock.utc;
    for _ in 0..5 {
        assert!(clock.advance_time_of_day(single(0.02)));
    }
    let moved = f(clock.utc.get()) - f(start_time.get());
    assert!(moved > 0.0, "the clock did not advance");
    let now = sun_of(&clock).elevation;
    assert!(
        f(now) > f(start),
        "the morning sun should climb, went from {:.3}° to {:.3}°",
        degrees(start),
        degrees(now)
    );
}

#[test]
fn a_paused_clock_freezes_the_light() {
    let mut clock = clock_at(9);
    clock.rate = TimeRate::paused();
    let frozen = clock.utc;
    for _ in 0..3 {
        assert!(!clock.advance_time_of_day(single(0.01)));
    }
    assert_eq!(clock.utc, frozen, "a paused clock moved");
}

#[test]
fn a_broken_clock_does_not_break_the_light() {
    let mut clock = clock_at(12);
    clock.rate = TimeRate(d(f64::NAN));
    clock.advance(d(f64::NAN));
    assert!(!clock.advance_time_of_day(single(0.01)));
    assert!(clock.utc.is_finite());
    let towards = sun_of(&clock);
    let forward = light_forward(towards);
    assert!(forward.x.is_finite() && forward.y.is_finite() && forward.z.is_finite());
    assert!(ambient(&SunLighting::default(), towards.elevation).brightness.is_finite());
}

#[test]
fn a_frame_without_a_usable_length_leaves_the_clock_alone() {
    let mut clock = clock_at(9);
    let before = clock.utc;
    assert!(clock.advance_time_of_day(single(f32::NAN)));
    assert_eq!(clock.utc, before);
}

#[test]
fn the_default_clock_shows_its_date() {
    let civil = TimeOfDay::default().utc_date_time();
    assert_eq!((civil.year, civil.month, civil.day), (2026, 6, 21));
    assert_eq!((civil.hour, civil.minute), (0, 30));
}

#[test]
fn every_midnight_of_four_centuries_comes_back() {
    for year in [-1000, 1, 400, 1582, 1900, 2000, 2001, 2100, 9999] {
        let leap = year % 4 == 0 && (year % 100 != 0 || year % 400 == 0);
        let lengths = [31, if leap { 29 } else { 28 }, 31, 30, 31, 30, 31, 31, 30, 31, 30, 31];
        for month in 1..=12_u8 {
            for day in [1, 15, lengths[usize::from(month) - 1]] {
                let civil = UtcDateTime::midnight(year, month, day);
                let back = civil.to_julian_date().to_utc_date_time();
                assert_eq!(back, civil);
            }
        }
    }
}

#[test]
fn the_shares_of_day_are_exact_at_their_ends() {
    assert_eq!(f32_of(daylight::daylight_fraction(radians(-6.5))), 0.0);
    assert_eq!(f32_of(daylight::daylight_fraction(radians(0.0))), 0.5);
    assert_eq!(f32_of(daylight::daylight_fraction(radians(6.5))), 1.0);
    assert_eq!(f32_of(daylight::daylight_fraction(d(f64::NAN))), 0.0);
    assert_eq!(f32_of(daylight::skylight_fraction(d(0.25))), 0.5);
    assert_eq!(f32_of(daylight::skylight_fraction(d(-0.5))), 0.0);
}

#[test]
fn a_time_survives_the_round_trip_to_the_millisecond() {
    let dates = [(2026, 2, 28), (2028, 2, 29), (9999, 12, 31), (1, 1, 1), (-4712, 1, 1), (18_000, 7, 4)];
    let times = [(0, 0, 0), (0, 0, 1), (11, 59, 59_999), (12, 0, 0), (23, 0, 7), (23, 59, 59_999)];
    for (year, month, day) in dates {
        for (hour, minute, milliseconds) in times {
            let civil = at_time(year, month, day, hour, minute, f64::from(milliseconds) / 1_000.0);
            assert_eq!(civil.to_julian_date().to_utc_date_time(), civil);
        }
    }
}

#[test]
fn sunlight_has_a_direction_of_length_one() {
    for azimuth in 0..36 {
        for elevation in -9..=9 {
            let (a, e) = (radians(f64::from(azimuth) * 10.0), radians(f64::from(elevation) * 10.0));
            let v = scene::sun_light_direction(sin_cos(a), sin_cos(e));
            let (x, y, z) = (f32_of(v.x), f32_of(v.y), f32_of(v.z));
            let square = [x, y, z].iter().map(|&c| f64::from(c) * f64::from(c)).sum::<f64>();
            assert!((square - 1.0).abs() <= 1.0 / 524_288.0, "the square is {square}");
        }
    }
}
