use flightsim::angle::{self, SinCos};
use flightsim::binary64::Binary64;
use flightsim::fdm::aero::{self, AeroAngles, AeroCoefficientSet, BodyLoads};
use flightsim::fdm::aircraft::{
    AircraftConfig, EngineConfig, Geometry, LandingGearConfig, MassProperties,
};
use flightsim::fdm::atmosphere::{self, Atmosphere, AtmosphereSample, PressureLaw};
use flightsim::fdm::controls::ControlInputs;
use flightsim::fdm::gravity;
use flightsim::fdm::landing_gear::{self, ContactPlane, Sliding};
use flightsim::fdm::state::LocalFrame;
use flightsim::fdm::turbulence::Turbulence;
use flightsim::geodetic::Geodetic;
use flightsim::vector::DVec3;

fn d(x: f64) -> Binary64 {
    Binary64::from_bits(x.to_bits())
}

fn f(x: Binary64) -> f64 {
    f64::from_bits(x.to_bits())
}

fn vec(x: f64, y: f64, z: f64) -> DVec3 {
    DVec3::new(d(x), d(y), d(z))
}

fn radians(degrees: f64) -> Binary64 {
    angle::to_radians(d(degrees))
}

fn sin_cos(x: Binary64) -> SinCos {
    let (sin, cos) = f(x).sin_cos();
    SinCos { sin: d(sin), cos: d(cos) }
}

fn relative(actual: f64, expected: f64, tolerance: f64) {
    assert!(
        (actual - expected).abs() <= expected.abs() * tolerance,
        "expected {actual} ≈ {expected} (within {}%)",
        tolerance * 100.0
    );
}

fn config() -> AircraftConfig {
    AircraftConfig::light_single()
}

fn aero_angles(x: f64, y: f64, z: f64) -> AeroAngles {
    let airspeed = vec(x, y, z);
    match aero::angle_request(airspeed) {
        Some(request) => aero::aero_angles(
            airspeed,
            d(f(request.rise).atan2(f(request.run))),
            d(f(request.slip).asin()),
        ),
        None => aero::aero_angles(airspeed, d(0.0), d(0.0)),
    }
}

fn blend(alpha: Binary64, stall: Binary64, rate: f64) -> Binary64 {
    let decay = |x: Binary64| d(f(aero::decay_exponent(x)).exp());
    aero::stall_blend(
        alpha,
        stall,
        d(rate),
        decay(aero::falling_argument(alpha, stall, d(rate))),
        decay(aero::rising_argument(alpha, stall, d(rate))),
    )
}

fn angles_at(alpha: Binary64, speed: f64) -> AeroAngles {
    AeroAngles { angle_of_attack: alpha, sideslip: d(0.0), true_airspeed: d(speed) }
}

fn coefficients_at(alpha_degrees: f64) -> AeroCoefficientSet {
    let c = config();
    let alpha = radians(alpha_degrees);
    aero::coefficients(
        c.aero,
        c.geometry,
        angles_at(alpha, 50.0),
        sin_cos(alpha),
        blend(alpha, c.aero.stall_angle, f(c.aero.stall_blend_rate)),
        DVec3::zero(),
        aero::surfaces_of(ControlInputs::neutral()),
    )
}

fn loads_at(angles: AeroAngles, rates: DVec3, controls: ControlInputs) -> BodyLoads {
    let c = config();
    aero::body_force_and_moment(
        c.aero,
        c.geometry,
        angles,
        sin_cos(angles.angle_of_attack),
        blend(angles.angle_of_attack, c.aero.stall_angle, f(c.aero.stall_blend_rate)),
        rates,
        aero::surfaces_of(controls),
        d(1.225),
    )
}

#[test]
fn angle_of_attack_is_positive_when_the_relative_wind_comes_from_below() {
    let angles = aero_angles(50.0, 0.0, 5.0);
    assert!(f(angles.angle_of_attack) > 0.0);
    assert!((f(angles.angle_of_attack).to_degrees() - 5.71).abs() < 0.01);
}

#[test]
fn sideslip_is_positive_when_the_relative_wind_comes_from_the_right() {
    assert!(f(aero_angles(50.0, 5.0, 0.0).sideslip) > 0.0);
}

#[test]
fn true_airspeed_is_the_vector_magnitude() {
    assert!((f(aero_angles(30.0, 40.0, 0.0).true_airspeed) - 50.0).abs() < 1e-12);
}

#[test]
fn zero_airspeed_produces_zero_angles_not_nan() {
    for (x, y, z) in [(0.0, 0.0, 0.0), (1e-12, 0.0, 0.0), (1e-15, 1e-15, 1e-15)] {
        let angles = aero_angles(x, y, z);
        assert!(angles.is_finite(), "aero angles went non-finite for {x} {y} {z}");
    }
}

#[test]
fn non_finite_velocity_does_not_produce_nan_angles() {
    let angles = aero_angles(f64::NAN, 0.0, 0.0);
    assert!(angles.is_finite(), "a NaN velocity leaked into the aero angles");
}

#[test]
fn stall_blend_is_zero_below_stall_and_one_above() {
    let stall = radians(16.0);
    assert!(f(blend(radians(0.0), stall, 50.0)) < 1e-3);
    assert!(f(blend(radians(5.0), stall, 50.0)) < 1e-2);
    assert!(f(blend(radians(40.0), stall, 50.0)) > 0.99);
    assert!(f(blend(radians(-40.0), stall, 50.0)) > 0.99);
}

#[test]
fn stall_blend_is_one_half_at_the_stall_angle() {
    let stall = radians(16.0);
    let sigma = f(blend(stall, stall, 50.0));
    assert!((sigma - 0.5).abs() < 1e-6, "blend at the stall angle was {sigma}");
}

#[test]
fn zero_blend_rate_disables_the_stall_model() {
    for alpha in [-90.0, -20.0, 0.0, 20.0, 90.0] {
        for rate in [0.0, -1.0, -100.0] {
            let sigma = f(blend(radians(alpha), radians(16.0), rate));
            assert!(
                sigma.abs() < f64::EPSILON,
                "blend rate {rate} should disable the stall model, but σ was {sigma} at α={alpha}°"
            );
        }
    }
    assert!(
        f(blend(d(0.2), d(0.28), f64::NAN)).abs() < f64::EPSILON,
        "a NaN blend rate must not leak into the coefficients"
    );
}

#[test]
fn stall_blend_never_overflows() {
    for rate in [1.0, 50.0, 500.0, 5_000.0] {
        for alpha in [-180.0, -90.0, 0.0, 90.0, 180.0] {
            let sigma = f(blend(radians(alpha), radians(16.0), rate));
            assert!(sigma.is_finite(), "stall blend returned {sigma} for α={alpha}°, rate={rate}");
            assert!(
                (0.0..=1.0).contains(&sigma),
                "stall blend {sigma} left [0, 1] for α={alpha}°, rate={rate}"
            );
        }
    }
}

#[test]
fn lift_peaks_near_the_stall_angle_then_falls() {
    let mut peak_lift = f64::NEG_INFINITY;
    let mut peak_alpha = 0.0;
    for tenth_degree in 0..=400 {
        let alpha = f64::from(tenth_degree) * 0.1;
        let lift = f(coefficients_at(alpha).lift);
        if lift > peak_lift {
            peak_lift = lift;
            peak_alpha = alpha;
        }
    }
    assert!(
        (10.0..20.0).contains(&peak_alpha),
        "maximum lift occurred at {peak_alpha}°, expected near the 16° stall angle"
    );
    let post_stall = f(coefficients_at(30.0).lift);
    assert!(
        post_stall < peak_lift * 0.9,
        "lift barely dropped after the stall: peak {peak_lift}, at 30° {post_stall}"
    );
}

#[test]
fn drag_rises_sharply_after_the_stall() {
    let cruise = f(coefficients_at(3.0).drag);
    let stalled = f(coefficients_at(35.0).drag);
    assert!(
        stalled > cruise * 5.0,
        "post-stall drag ({stalled}) should be far above cruise drag ({cruise})"
    );
}

#[test]
fn coefficients_stay_finite_across_the_whole_angle_range() {
    for alpha in -180..=180 {
        let c = coefficients_at(f64::from(alpha));
        for value in [c.lift, c.drag, c.side, c.roll, c.pitch, c.yaw] {
            assert!(value.is_finite(), "a coefficient was {} at α={alpha}°", f(value));
        }
    }
}

#[test]
fn drag_is_never_negative() {
    for alpha in -180..=180 {
        let drag = f(coefficients_at(f64::from(alpha)).drag);
        assert!(drag >= 0.0, "drag was {drag} at α={alpha}°");
    }
}

#[test]
fn lift_acts_upward_in_body_axes_at_zero_alpha() {
    let loads = loads_at(angles_at(d(0.0), 50.0), DVec3::zero(), ControlInputs::neutral());
    assert!(f(loads.force.z) < 0.0, "lift must produce a negative body-Z force");
    assert!(f(loads.force.x) < 0.0, "drag must produce a negative body-X force");
}

#[test]
fn dynamic_pressure_scales_forces_with_the_square_of_speed() {
    let force_at = |speed: f64| {
        f(loads_at(angles_at(radians(2.0), speed), DVec3::zero(), ControlInputs::neutral()).force.z)
    };
    let ratio = force_at(80.0) / force_at(40.0);
    assert!((ratio - 4.0).abs() < 1e-9, "force ratio was {ratio}, expected 4");
}

#[test]
fn elevator_input_produces_a_nose_up_moment() {
    let moment_for = |elevator: f64| {
        let controls = ControlInputs::neutral().with_elevator(d(elevator));
        f(loads_at(angles_at(d(0.0), 50.0), DVec3::zero(), controls).moment.y)
    };
    assert!(moment_for(1.0) > moment_for(0.0));
    assert!(moment_for(-1.0) < moment_for(0.0));
}

#[test]
fn aileron_input_produces_a_right_roll_moment() {
    let controls = ControlInputs::neutral().with_aileron(d(1.0));
    let moment = loads_at(angles_at(d(0.0), 50.0), DVec3::zero(), controls).moment;
    assert!(f(moment.x) > 0.0, "positive aileron must roll right");
    assert!(f(moment.z) < 0.0, "adverse yaw should oppose the turn");
}

#[test]
fn angular_rates_produce_damping_moments() {
    let moment = |x: f64, y: f64, z: f64| {
        loads_at(angles_at(d(0.0), 50.0), vec(x, y, z), ControlInputs::neutral()).moment
    };
    assert!(f(moment(1.0, 0.0, 0.0).x) < 0.0, "roll damping missing");
    assert!(f(moment(0.0, 1.0, 0.0).y) < 0.0, "pitch damping missing");
    assert!(f(moment(0.0, 0.0, 1.0).z) < 0.0, "yaw damping missing");
}

#[test]
fn zero_airspeed_produces_zero_aerodynamic_force() {
    let one = d(1.0);
    let controls = ControlInputs::new(one, one, one, one, one);
    let loads = loads_at(aero_angles(0.0, 0.0, 0.0), vec(1.0, 1.0, 1.0), controls);
    assert!(f(loads.force.length()) < 1e-9, "stationary aircraft had aerodynamic force");
    assert!(f(loads.moment.length()) < 1e-9, "stationary aircraft had aerodynamic moment");
}

#[test]
fn static_stability_opposes_an_increase_in_angle_of_attack() {
    let low = f(coefficients_at(2.0).pitch);
    let high = f(coefficients_at(8.0).pitch);
    assert!(high < low, "pitching moment did not become more nose-down as α increased");
}

#[test]
fn aspect_ratio_matches_the_definition() {
    let geometry =
        Geometry { wing_area: d(16.17), wing_span: d(11.0), mean_chord: d(1.49) };
    assert!((f(geometry.aspect_ratio()) - 7.483).abs() < 0.01);
}

fn mass(kilograms: f64, xx: f64, yy: f64, zz: f64, xz: f64) -> MassProperties {
    assert!(MassProperties::possible(d(kilograms), d(xx), d(yy), d(zz), d(xz)));
    MassProperties::new(d(kilograms), d(xx), d(yy), d(zz), d(xz))
}

#[test]
fn inertia_inverse_is_a_true_inverse() {
    let mass = mass(1_043.0, 1_285.0, 1_825.0, 2_667.0, 120.0);
    for axis in [vec(1.0, 0.0, 0.0), vec(0.0, 1.0, 0.0), vec(0.0, 0.0, 1.0)] {
        let column = mass.inertia().apply(mass.inverse_inertia().apply(axis));
        assert!(
            f(column.minus(axis).length()) < 1e-9,
            "I · I⁻¹ is not the identity: {column:?} vs {axis:?}"
        );
    }
}

#[test]
fn inertia_tensor_is_symmetric() {
    let i = mass(1_000.0, 1_200.0, 1_800.0, 2_600.0, 90.0).inertia();
    assert!((f(i.x_axis.z) - f(i.z_axis.x)).abs() < 1e-12);
    assert!((f(i.x_axis.y) - f(i.y_axis.x)).abs() < 1e-12);
    assert!((f(i.y_axis.z) - f(i.z_axis.y)).abs() < 1e-12);
}

#[test]
fn impossible_bodies_are_told_apart() {
    let possible = |m: f64, xx: f64| MassProperties::possible(d(m), d(xx), d(1.0), d(1.0), d(0.0));
    assert!(possible(1.0, 1.0));
    assert!(!possible(0.0, 1.0));
    assert!(!possible(1.0, 0.0));
    assert!(!possible(f64::NAN, 1.0));
}

#[test]
fn default_landing_gear_is_symmetric_about_the_longitudinal_axis() {
    let gear = LandingGearConfig::light_single();
    let left = gear.legs()[1].contact_point().as_vec();
    let right = gear.legs()[2].contact_point().as_vec();
    assert!((f(left.x) - f(right.x)).abs() < f64::EPSILON);
    assert!((f(left.y) + f(right.y)).abs() < f64::EPSILON);
    assert!((f(left.z) - f(right.z)).abs() < f64::EPSILON);
}

fn engine() -> EngineConfig {
    config().engine
}

fn thrust(throttle: f64, airspeed: f64, density_ratio: f64) -> f64 {
    f(engine().thrust(d(throttle), d(airspeed), d(density_ratio)))
}

#[test]
fn thrust_is_capped_at_static_thrust_when_stationary() {
    let stationary = thrust(1.0, 0.0, 1.0);
    assert!(stationary.is_finite(), "thrust diverged at zero airspeed");
    assert!(
        stationary <= f(engine().static_thrust) + 1e-6,
        "static thrust cap was exceeded: {stationary}"
    );
    assert!(stationary > 0.0);
}

#[test]
fn thrust_decreases_with_airspeed() {
    assert!(thrust(1.0, 70.0, 1.0) < thrust(1.0, 30.0, 1.0));
}

#[test]
fn thrust_decreases_with_altitude() {
    assert!(thrust(1.0, 50.0, 0.7) < thrust(1.0, 50.0, 1.0));
}

#[test]
fn idle_throttle_produces_no_thrust() {
    assert!(thrust(0.0, 50.0, 1.0).abs() < 1e-9);
}

#[test]
fn thrust_never_goes_negative_or_nan() {
    for throttle in [-1.0, 0.0, 0.5, 1.0, 2.0] {
        for airspeed in [0.0, 1e-12, 50.0, 1e6] {
            for density_ratio in [0.0, 0.1, 1.0, 1.5] {
                let t = thrust(throttle, airspeed, density_ratio);
                assert!(
                    t.is_finite() && t >= 0.0,
                    "thrust {t} for throttle {throttle}, airspeed {airspeed}, density {density_ratio}"
                );
            }
        }
    }
}

#[test]
fn default_coefficients_describe_a_stable_aircraft() {
    let aero = config().aero;
    assert!(f(aero.pitch_alpha) < 0.0, "pitch_alpha must be negative for static stability");
    assert!(f(aero.yaw_beta) > 0.0, "yaw_beta must be positive for weathercock stability");
    assert!(f(aero.roll_beta) < 0.0, "roll_beta must be negative for dihedral effect");
    assert!(f(aero.roll_rate_p) < 0.0, "roll damping must be negative");
    assert!(f(aero.pitch_rate_q) < 0.0, "pitch damping must be negative");
    assert!(f(aero.yaw_rate_r) < 0.0, "yaw damping must be negative");
    assert!(f(aero.roll_aileron) > 0.0);
    assert!(f(aero.pitch_elevator) > 0.0);
    assert!(f(aero.yaw_rudder) > 0.0);
    assert!(f(aero.yaw_aileron) < 0.0, "adverse yaw should be present");
}

fn factor(law: PressureLaw) -> Binary64 {
    match law {
        PressureLaw::Exponential(x) => d(f(x).exp()),
        PressureLaw::Power { base, exponent } => d(f(base).powf(f(exponent))),
    }
}

fn sample(atmosphere: Atmosphere, altitude: f64) -> AtmosphereSample {
    atmosphere.sample(d(altitude), factor(Atmosphere::pressure_law(d(altitude))))
}

fn standard(altitude: f64) -> AtmosphereSample {
    sample(Atmosphere::standard(), altitude)
}

#[test]
fn sea_level_matches_isa_definition() {
    let s = standard(0.0);
    relative(f(s.temperature), 288.15, 1e-9);
    relative(f(s.pressure), 101_325.0, 1e-9);
    relative(f(s.density), 1.225, 1e-3);
    relative(f(s.speed_of_sound), 340.294, 1e-4);
    relative(f(s.temperature) - 273.15, 15.0, 1e-9);
}

#[test]
fn tropopause_matches_isa_definition() {
    let s = standard(11_019.0);
    relative(f(s.temperature) - 273.15, -56.5, 1e-3);
    relative(f(s.pressure), 22_632.06, 1e-3);
}

#[test]
fn standard_table_values_across_the_troposphere() {
    let table = [
        (2_000.0, 275.15, 79_495.0),
        (5_000.0, 255.65, 54_020.0),
        (8_000.0, 236.15, 35_600.0),
        (10_000.0, 223.15, 26_436.0),
    ];
    for (altitude, temperature, pressure) in table {
        let s = standard(altitude);
        relative(f(s.temperature), temperature, 5e-3);
        relative(f(s.pressure), pressure, 5e-3);
    }
}

#[test]
fn cruise_altitude_density_is_about_a_third_of_sea_level() {
    let ratio = f(standard(10_668.0).density_ratio());
    assert!(
        (0.30..0.40).contains(&ratio),
        "density ratio at FL350 was {ratio}, expected roughly 1/3"
    );
}

#[test]
fn layer_boundaries_are_continuous() {
    for i in 0..6 {
        let (lower, upper) = (atmosphere::layer(i), atmosphere::layer(i + 1));
        let top = atmosphere::layer_temperature(lower, upper.base_altitude);
        relative(f(top), f(upper.base_temperature), 1e-9);
        let law = atmosphere::layer_law(lower, upper.base_altitude, top);
        let pressure_at_top = f(lower.base_pressure * factor(law));
        relative(pressure_at_top, f(upper.base_pressure), 1e-4);
    }
}

#[test]
fn geopotential_conversion_is_negligible_at_low_altitude_and_significant_high_up() {
    relative(f(atmosphere::geopotential_altitude(d(100.0))), 100.0, 1e-4);
    let difference = 11_000.0 - f(atmosphere::geopotential_altitude(d(11_000.0)));
    assert!(
        (18.0..21.0).contains(&difference),
        "geopotential offset at 11 km was {difference} m, expected about 19 m"
    );
}

#[test]
fn pressure_and_density_decrease_monotonically_with_altitude() {
    let lowest = -5_000.0;
    let mut previous = standard(lowest);
    for step in 1..=860 {
        let altitude = lowest + f64::from(step) * 100.0;
        let current = standard(altitude);
        assert!(
            f(current.pressure) < f(previous.pressure),
            "pressure increased with altitude at {altitude}"
        );
        assert!(
            f(current.density) < f(previous.density),
            "density increased with altitude at {altitude}"
        );
        previous = current;
    }
}

#[test]
fn temperature_offset_shifts_temperature_and_density_but_not_pressure() {
    let standard = standard(1_500.0);
    let hot = sample(Atmosphere::with_temperature_offset(d(20.0)), 1_500.0);
    relative(f(hot.temperature), f(standard.temperature) + 20.0, 1e-9);
    relative(f(hot.pressure), f(standard.pressure), 1e-12);
    assert!(
        f(hot.density) < f(standard.density),
        "a hotter day must produce thinner air"
    );
}

#[test]
fn extreme_temperature_offset_does_not_produce_negative_density() {
    for offset in [-1_000.0, -300.0, 300.0, 1_000.0] {
        let s = sample(Atmosphere::with_temperature_offset(d(offset)), 3_000.0);
        assert!(s.is_finite(), "offset {offset} produced a non-finite sample");
        assert!(f(s.density) > 0.0, "offset {offset} produced density {}", f(s.density));
        assert!(f(s.temperature) > 0.0);
        assert!(f(s.speed_of_sound) > 0.0);
    }
}

#[test]
fn out_of_range_altitudes_are_clamped_without_nan() {
    for altitude in [-1e9, -100_000.0, 1e6, 1e9, f64::MAX] {
        let s = standard(altitude);
        assert!(s.is_finite(), "altitude {altitude} produced a non-finite sample");
        assert!(f(s.density) > 0.0);
    }
}

#[test]
fn nan_altitude_does_not_propagate_into_the_sample() {
    assert!(standard(f64::NAN).is_finite(), "a NaN altitude leaked into the atmosphere sample");
}

#[test]
fn sampling_is_deterministic() {
    let atmosphere = Atmosphere::with_temperature_offset(d(7.5));
    for altitude in [0.0, 1_234.5, 11_000.0, 30_000.0] {
        assert_eq!(sample(atmosphere, altitude), sample(atmosphere, altitude));
    }
}

#[test]
fn mach_number_is_one_at_the_speed_of_sound() {
    let s = standard(0.0);
    relative(f(s.mach(s.speed_of_sound)), 1.0, 1e-12);
}

fn surface(latitude: f64) -> f64 {
    f(gravity::surface_gravity(d(latitude.sin())))
}

fn magnitude(latitude_degrees: f64, altitude: f64) -> f64 {
    f(gravity::magnitude(d(latitude_degrees.to_radians().sin()), d(altitude)))
}

#[test]
fn surface_gravity_matches_published_values() {
    relative(surface(0.0), 9.780_325_335_9, 1e-12);
    relative(surface(core::f64::consts::FRAC_PI_2), 9.832_184_937_8, 1e-9);
    relative(surface(45.0_f64.to_radians()), 9.806_199, 1e-6);
}

#[test]
fn gravity_is_stronger_at_the_poles() {
    let equator = surface(0.0);
    let pole = surface(core::f64::consts::FRAC_PI_2);
    assert!(pole > equator);
    relative((pole - equator) / equator, 0.0053, 0.02);
}

#[test]
fn gravity_decreases_with_altitude() {
    let sea_level = magnitude(45.0, 0.0);
    let cruise = magnitude(45.0, 11_000.0);
    assert!(cruise < sea_level);
    relative((sea_level - cruise) / sea_level, 0.0034, 0.05);
}

/// North, east and down at a place, in degrees.
fn frame_at(latitude: f64, longitude: f64) -> LocalFrame {
    let (sin_lat, cos_lat) = latitude.to_radians().sin_cos();
    let (sin_lon, cos_lon) = longitude.to_radians().sin_cos();
    LocalFrame {
        origin: DVec3::zero(),
        north: vec(-sin_lat * cos_lon, -sin_lat * sin_lon, cos_lat),
        east: vec(-sin_lon, cos_lon, 0.0),
        down: vec(-cos_lat * cos_lon, -cos_lat * sin_lon, -sin_lat),
    }
}

#[test]
fn gravity_points_straight_down_in_the_local_frame() {
    for latitude in [-80.0, -45.0, 0.0, 23.5, 60.0] {
        let frame = frame_at(latitude, 137.0);
        let sine = d(latitude.to_radians().sin());
        let g = gravity::acceleration_ecef(sine, d(2_000.0), frame.up());
        let ned = frame.ecef_to_ned(g);
        assert!(f(ned.x).abs() < 1e-9, "gravity has a north component: {}", f(ned.x));
        assert!(f(ned.y).abs() < 1e-9, "gravity has an east component: {}", f(ned.y));
        assert!(f(ned.z) > 0.0, "gravity must point down (NED Z positive)");
        relative(f(ned.z), magnitude(latitude, 2_000.0), 1e-12);
    }
}

#[test]
fn magnitude_stays_in_a_physically_sane_range() {
    for latitude in (-90..=90).step_by(5) {
        for altitude in [0.0, 1_000.0, 12_000.0, 30_000.0] {
            let g = magnitude(f64::from(latitude), altitude);
            assert!(
                (9.5..9.9).contains(&g),
                "gravity {g} m/s² at lat {latitude} alt {altitude} is outside the plausible range"
            );
        }
    }
}

#[test]
fn extreme_altitude_does_not_produce_negative_gravity() {
    for altitude in [1e6, 1e7, 1e9] {
        let g = f(gravity::magnitude(d(0.5_f64.sin()), d(altitude)));
        assert!(g >= 0.0, "gravity went negative ({g}) at altitude {altitude}");
        assert!(g.is_finite());
    }
}

fn place(latitude: f64, longitude: f64, altitude: f64) -> Geodetic {
    Geodetic { latitude: radians(latitude), longitude: radians(longitude), altitude: d(altitude) }
}

fn somewhere() -> Geodetic {
    place(35.55, 139.78, 500.0)
}

/// North, east and down of the gust.
fn gust(turbulence: Turbulence, time: f64, at: Geodetic) -> [f64; 3] {
    let g = turbulence.gust_at(d(time), at, d(f(at.latitude).cos()));
    [f(g.x), f(g.y), f(g.z)]
}

#[test]
fn the_same_input_gives_bit_identical_output() {
    let turbulence = Turbulence::moderate(12_345);
    for step in 0..2000 {
        let time = f64::from(step) / 120.0;
        let first = gust(turbulence, time, somewhere());
        let second = gust(turbulence, time, somewhere());
        assert_eq!(first.map(f64::to_bits), second.map(f64::to_bits), "different bits at t={time}");
    }
}

#[test]
fn a_different_seed_gives_a_different_atmosphere() {
    let a = gust(Turbulence::moderate(1), 10.0, somewhere());
    let b = gust(Turbulence::moderate(2), 10.0, somewhere());
    let difference = (a[0] - b[0]).abs() + (a[1] - b[1]).abs();
    assert!(difference > 0.01, "two seeds produced nearly the same gust: {difference}");
}

#[test]
fn calm_air_is_exactly_still() {
    for step in 0..500 {
        let gust = gust(Turbulence::calm(), f64::from(step) * 0.1, somewhere());
        assert_eq!(gust, [0.0, 0.0, 0.0]);
    }
}

#[test]
fn the_gust_does_not_jump_between_physics_steps() {
    let turbulence = Turbulence::severe(7);
    let mut previous = gust(turbulence, 0.0, somewhere());
    let mut worst: f64 = 0.0;
    for step in 1..2400 {
        let now = gust(turbulence, f64::from(step) / 120.0, somewhere());
        for axis in 0..3 {
            worst = worst.max((now[axis] - previous[axis]).abs());
        }
        previous = now;
    }
    assert!(worst < 0.2, "the gust jumped by {worst:.3} m/s within one physics step");
}

#[test]
fn the_field_is_smooth_in_space_too() {
    let turbulence = Turbulence::severe(7);
    let base = somewhere();
    // A metre north in radians of latitude at this place.
    let per_metre = 1.0 / 6_357_000.0;
    let moved = |metres: f64| Geodetic {
        latitude: d(f(base.latitude) + metres * per_metre),
        ..base
    };
    let mut worst: f64 = 0.0;
    for step in 0..2000 {
        let metres = f64::from(step) * 0.42;
        let a = gust(turbulence, 0.0, moved(metres));
        let b = gust(turbulence, 0.0, moved(metres + 0.42));
        worst = worst.max((a[0] - b[0]).abs().max((a[2] - b[2]).abs()));
    }
    assert!(worst < 0.2, "the gust jumped by {worst:.3} m/s over 0.42 m of travel");
}

#[test]
fn the_gust_stays_within_the_requested_intensity() {
    for turbulence in [Turbulence::light(1), Turbulence::moderate(2), Turbulence::severe(3)] {
        let limit = f(turbulence.intensity);
        for step in 0..5000 {
            for value in gust(turbulence, f64::from(step) * 0.05, somewhere()) {
                assert!(
                    value.abs() <= limit * 1.01,
                    "gust {value} exceeded the intensity {limit}"
                );
            }
        }
    }
}

#[test]
fn the_typical_gust_is_a_meaningful_fraction_of_the_intensity() {
    let turbulence = Turbulence::moderate(99);
    let mut sum_squares = 0.0;
    let samples = 4000;
    for step in 0..samples {
        let down = gust(turbulence, f64::from(step) * 0.05, somewhere())[2];
        sum_squares += down * down;
    }
    let rms = (sum_squares / f64::from(samples)).sqrt();
    let intensity = f(turbulence.intensity);
    assert!(
        rms > intensity * 0.05 && rms < intensity,
        "the vertical RMS {rms:.3} is not a sensible fraction of {intensity}"
    );
}

#[test]
fn broken_inputs_do_not_poison_the_air() {
    let turbulence = Turbulence::severe(5);
    for at in [
        place(f64::NAN, 139.0, 100.0),
        place(35.0, f64::INFINITY, 100.0),
        place(35.0, 139.0, f64::NAN),
    ] {
        assert!(gust(turbulence, 1.0, at).iter().all(|x| x.is_finite()));
    }
    for time in [f64::NAN, f64::INFINITY] {
        assert!(gust(turbulence, time, somewhere()).iter().all(|x| x.is_finite()));
    }
    let broken = Turbulence { intensity: d(f64::NAN), seed: 1 };
    assert_eq!(
        gust(broken, 1.0, somewhere()),
        [0.0, 0.0, 0.0],
        "a broken intensity must fall back to exactly still air"
    );
}

#[test]
fn a_still_aircraft_still_feels_the_air_move() {
    let turbulence = Turbulence::moderate(11);
    let first = gust(turbulence, 0.0, somewhere());
    let later = gust(turbulence, 8.0, somewhere());
    let change = (first[2] - later[2]).abs();
    assert!(change > 0.05, "a parked aircraft never felt the air change: {change}");
}

fn plane(limit: f64) -> ContactPlane {
    ContactPlane {
        normal: vec(0.0, 0.0, 1.0),
        has_ways: true,
        forward: vec(1.0, 0.0, 0.0),
        lateral: vec(0.0, 1.0, 0.0),
        scale: d(1.0),
        forward_coefficient: d(limit),
        lateral_coefficient: d(limit),
        friction_limit: d(limit),
        transition_speed: d(0.5),
    }
}

#[test]
fn tyres_hold_no_more_than_their_limit() {
    for limit in [1e-9, 0.02, 0.8, 1.0] {
        for (along, across) in [(1.0, 1.0), (-1.0, 0.25), (0.5, 0.0), (0.0, 0.0), (1e-300, -1e-300)] {
            let held = landing_gear::friction(plane(limit), Sliding { forward: d(along), lateral: d(across) });
            let size = f(held.length());
            assert!(size <= limit * (1.0 + 1e-15), "{size} exceeds {limit}");
        }
    }
    let held = landing_gear::friction(plane(0.8), Sliding { forward: d(1.0), lateral: d(1.0) });
    relative(f(held.x), -0.8 / 2.0_f64.sqrt(), 1e-15);
    relative(f(held.y), -0.8 / 2.0_f64.sqrt(), 1e-15);
    let free = landing_gear::friction(plane(0.8), Sliding { forward: d(0.5), lateral: d(0.0) });
    assert_eq!(f(free.x), -0.4);
}

#[test]
fn a_normalised_direction_has_length_one() {
    for v in [vec(3.0, 4.0, 12.0), vec(1e-100, -2e-100, 0.0), vec(1e140, 1.0, -1e139)] {
        relative(f(v.normalized().length()), 1.0, 1e-14);
    }
    assert_eq!(f(vec(0.0, -7.0, 0.0).normalized().y), -1.0);
}

#[test]
fn left_and_right_are_alike() {
    let controls = |side: f64| {
        ControlInputs::neutral()
            .with_elevator(d(0.2))
            .with_aileron(d(0.4 * side))
            .with_rudder(d(-0.3 * side))
    };
    let loads = |side: f64| {
        let mut angles = angles_at(radians(7.0), 55.0);
        angles.sideslip = d(0.05 * side);
        loads_at(angles, vec(0.1 * side, 0.2, -0.3 * side), controls(side))
    };
    let (right, left) = (loads(1.0), loads(-1.0));
    assert!(f(right.force.y) != 0.0 && f(right.moment.x) != 0.0 && f(right.moment.z) != 0.0);
    assert_eq!(f(left.force.x), f(right.force.x));
    assert_eq!(f(left.force.y), -f(right.force.y));
    assert_eq!(f(left.force.z), f(right.force.z));
    assert_eq!(f(left.moment.x), -f(right.moment.x));
    assert_eq!(f(left.moment.y), f(right.moment.y));
    assert_eq!(f(left.moment.z), -f(right.moment.z));
}

#[test]
fn a_deeper_wheel_is_never_pushed_less() {
    let leg = config().landing_gear.legs()[0];
    let push = |depth: f64, rate: f64| f(landing_gear::normal_force(&leg, d(depth), d(rate)));
    for rate in [-0.4, 0.0, 1.5] {
        let mut previous = 0.0;
        for step in 1..200 {
            let current = push(f64::from(step) / 250.0, rate);
            assert!(current >= previous, "the push fell at step {step}");
            previous = current;
        }
        assert_eq!(push(5.0, rate), push(500.0, rate));
    }
}

#[test]
fn all_legs_together_stay_within_the_friction_cone() {
    let legs = [(1.0, 0.2, 3_000.0), (-0.4, 1.0, 4_500.0), (0.9, 0.9, 0.0)];
    let (mut along, mut across, mut push) = (0.0, 0.0, 0.0);
    for (forward, lateral, weight) in legs {
        let held = landing_gear::friction(
            plane(0.8),
            Sliding { forward: d(forward), lateral: d(lateral) },
        );
        along += weight * f(held.x);
        across += weight * f(held.y);
        push += weight;
    }
    assert!(along.hypot(across) <= 0.8 * push * (1.0 + 1e-13));
    assert!(along.hypot(across) > 0.0);
}

#[test]
fn the_pressure_law_moves_one_way_on_the_way_up() {
    for (low, high) in [(1_000.0, 5_000.0), (12_000.0, 19_000.0), (21_000.0, 30_000.0)] {
        match (Atmosphere::pressure_law(d(low)), Atmosphere::pressure_law(d(high))) {
            (PressureLaw::Exponential(a), PressureLaw::Exponential(b)) => assert!(f(b) < f(a)),
            (
                PressureLaw::Power { base: a, exponent: e },
                PressureLaw::Power { base: b, exponent: g },
            ) => {
                assert_eq!(f(e), f(g));
                assert!((f(b) - f(a)) * f(e) < 0.0);
            }
            _ => panic!("one layer has two laws"),
        }
    }
}

#[test]
fn a_wheel_above_the_ground_is_pushed_least() {
    let leg = config().landing_gear.legs()[0];
    for rate in [-1.0, 0.0, 2.0] {
        let mut previous = 0.0;
        for step in -100..100 {
            let current = f(landing_gear::normal_force(&leg, d(f64::from(step) / 250.0), d(rate)));
            assert!(current >= previous, "the push fell at step {step}");
            previous = current;
        }
    }
}

#[test]
fn inertia_times_its_inverse_is_one() {
    let mass = mass(12.0, 0.25, 3.5, 1.75, -0.5);
    let (i, j) = (mass.inertia(), mass.inverse_inertia());
    let rows = |v: DVec3| [f(v.x), f(v.y), f(v.z)];
    let (columns, other) = ([i.x_axis, i.y_axis, i.z_axis], [j.x_axis, j.y_axis, j.z_axis]);
    for row in 0..3 {
        for column in 0..3 {
            let entry: f64 =
                (0..3).map(|k| rows(columns[k])[row] * rows(other[column])[k]).sum();
            let one = if row == column { 1.0 } else { 0.0 };
            assert!((entry - one).abs() < 1e-12, "entry {row}, {column} is {entry}");
        }
    }
    assert_eq!(f(j.y_axis.y), 1.0 / 3.5);
}

#[test]
fn the_air_thins_where_its_factor_falls() {
    for altitude in [0.0, 10_990.0, 19_990.0, 31_990.0, 46_990.0, 50_990.0, 70_990.0] {
        let (low, high) = (standard(altitude), standard(altitude + 20.0));
        assert!(f(high.pressure) < f(low.pressure) && f(high.density) < f(low.density));
        assert!(low.is_finite() && high.is_finite());
        assert!(f(high.density) > 0.0 && f(high.pressure) > 0.0);
    }
    let lower = Atmosphere::standard().sample(d(500.0), d(0.5));
    let higher = Atmosphere::standard().sample(d(500.0), d(0.25));
    assert_eq!(f(higher.pressure) * 2.0, f(lower.pressure));
    assert_eq!(f(higher.density) * 2.0, f(lower.density));
}

#[test]
fn gravity_grows_towards_the_poles() {
    for height in [0.0, 12_000.0, 400_000.0] {
        let mut previous = 0.0;
        for step in 0..=90 {
            let sine = f64::from(step).to_radians().sin();
            let here = f(gravity::magnitude(d(sine), d(height)));
            assert!(here > previous, "gravity fell at latitude {step}");
            assert_eq!(f(gravity::magnitude(d(-sine), d(height))), here);
            previous = here;
        }
    }
}

#[test]
fn gravity_is_weaker_higher_up() {
    for sine in [0.0, 0.5, 1.0] {
        let mut previous = f64::INFINITY;
        for step in -1_000..1_000 {
            let here = f(gravity::magnitude(d(sine), d(f64::from(step) * 1_000.0)));
            assert!(here < previous, "gravity grew at step {step}");
            previous = here;
        }
        let near = |height: f64| f(gravity::magnitude(d(sine), d(height)));
        assert!(near(100.001) < near(100.0));
    }
}
