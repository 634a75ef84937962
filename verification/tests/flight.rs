use flightsim::angle::{self, SinCos};
use flightsim::binary64::Binary64;
use flightsim::fdm::aero::{self, AeroAngles, BodyLoads};
use flightsim::fdm::aircraft::{AeroCoefficients, AircraftConfig, LandingGearLeg, MassProperties};
use flightsim::fdm::atmosphere::{Atmosphere, PressureLaw};
use flightsim::fdm::controls::ControlInputs;
use flightsim::fdm::dynamics::{self, FlightDynamics, FlightStep, Measures, MAX_SUBSTEPS};
use flightsim::fdm::environment::{Environment, GroundSlope};
use flightsim::fdm::gravity;
use flightsim::fdm::landing_gear::{
    self, ContactPlane, LegMeasure, Sliding, BOTTOM_OUT_STIFFNESS_MULTIPLIER,
};
use flightsim::fdm::state::{self, LocalFrame, RigidBodyState, StateDerivative};
use flightsim::geodetic::Geodetic;
use flightsim::rotation::{DQuat, DVec4};
use flightsim::vector::DVec3;

fn d(x: f64) -> Binary64 {
    Binary64::from_bits(x.to_bits())
}

fn f(x: Binary64) -> f64 {
    f64::from_bits(x.to_bits())
}

fn vec(x: f64, y: f64, z: f64) -> DVec3 {
    DVec3::new(d(x), d(y), d(z))
}

const SEMI_MAJOR: f64 = 6_378_137.0;
const FLATTENING: f64 = 1.0 / 298.257_223_563;
const ECCENTRICITY_SQUARED: f64 = FLATTENING * (2.0 - FLATTENING);

/// Latitude and longitude in radians, and metres.
#[derive(Clone, Copy)]
struct Place {
    latitude: f64,
    longitude: f64,
    altitude: f64,
}

fn place(latitude: f64, longitude: f64, altitude: f64) -> Place {
    Place { latitude: latitude.to_radians(), longitude: longitude.to_radians(), altitude }
}

fn geodetic(p: Place) -> Geodetic {
    Geodetic { latitude: d(p.latitude), longitude: d(p.longitude), altitude: d(p.altitude) }
}

fn to_ecef(p: Place) -> DVec3 {
    let (sin_lat, cos_lat) = p.latitude.sin_cos();
    let (sin_lon, cos_lon) = p.longitude.sin_cos();
    let n = SEMI_MAJOR / (1.0 - ECCENTRICITY_SQUARED * sin_lat * sin_lat).sqrt();
    vec(
        (n + p.altitude) * cos_lat * cos_lon,
        (n + p.altitude) * cos_lat * sin_lon,
        (n * (1.0 - ECCENTRICITY_SQUARED) + p.altitude) * sin_lat,
    )
}

fn to_place(v: DVec3) -> Place {
    let (x, y, z) = (f(v.x), f(v.y), f(v.z));
    let p = x.hypot(y);
    let longitude = y.atan2(x);
    let mut latitude = z.atan2(p * (1.0 - ECCENTRICITY_SQUARED));
    for _ in 0..6 {
        let sin_lat = latitude.sin();
        let n = SEMI_MAJOR / (1.0 - ECCENTRICITY_SQUARED * sin_lat * sin_lat).sqrt();
        latitude = (z + ECCENTRICITY_SQUARED * n * sin_lat).atan2(p);
    }
    let (sin_lat, cos_lat) = latitude.sin_cos();
    let n = SEMI_MAJOR / (1.0 - ECCENTRICITY_SQUARED * sin_lat * sin_lat).sqrt();
    let altitude = p * cos_lat + z * sin_lat - n * (1.0 - ECCENTRICITY_SQUARED * sin_lat * sin_lat);
    Place { latitude, longitude, altitude }
}

fn frame_at(p: Place) -> LocalFrame {
    let (sin_lat, cos_lat) = p.latitude.sin_cos();
    let (sin_lon, cos_lon) = p.longitude.sin_cos();
    LocalFrame {
        origin: to_ecef(p),
        north: vec(-sin_lat * cos_lon, -sin_lat * sin_lon, cos_lat),
        east: vec(-sin_lon, cos_lon, 0.0),
        down: vec(-cos_lat * cos_lon, -cos_lat * sin_lon, -sin_lat),
    }
}

/// A turn by an angle about an axis.
fn turn(x: f64, y: f64, z: f64, angle: f64) -> DQuat {
    let (sin, cos) = (angle / 2.0).sin_cos();
    DQuat { x: d(x * sin), y: d(y * sin), z: d(z * sin), w: d(cos) }
}

/// From north, east and down to earth-fixed axes.
fn frame_turn(p: Place) -> DQuat {
    let tilt = turn(0.0, 1.0, 0.0, -core::f64::consts::FRAC_PI_2 - p.latitude);
    turn(0.0, 0.0, 1.0, p.longitude).after(tilt)
}

/// Roll, pitch and heading as a turn from body axes to north, east and down.
fn attitude_turn(roll: f64, pitch: f64, yaw: f64) -> DQuat {
    turn(0.0, 0.0, 1.0, yaw)
        .after(turn(0.0, 1.0, 0.0, pitch))
        .after(turn(1.0, 0.0, 0.0, roll))
}

fn state_at(p: Place, attitude: [f64; 3], velocity: [f64; 3]) -> RigidBodyState {
    RigidBodyState::from_geodetic(
        frame_at(p),
        frame_turn(p),
        attitude_turn(attitude[0], attitude[1], attitude[2]),
        vec(velocity[0], velocity[1], velocity[2]),
    )
}

/// Roll, pitch and heading of a state.
fn attitude_of(state: &RigidBodyState) -> [f64; 3] {
    let frame = frame_at(to_place(state.position));
    let axis = |x: f64, y: f64, z: f64| frame.ecef_to_ned(state.orientation.rotate(vec(x, y, z)));
    let (nose, right, down) = (axis(1.0, 0.0, 0.0), axis(0.0, 1.0, 0.0), axis(0.0, 0.0, 1.0));
    [
        f(right.z).atan2(f(down.z)),
        (-f(nose.z)).clamp(-1.0, 1.0).asin(),
        f(nose.y).atan2(f(nose.x)),
    ]
}

fn altitude_of(state: &RigidBodyState) -> f64 {
    to_place(state.position).altitude
}

fn frame_of(state: &RigidBodyState) -> LocalFrame {
    frame_at(to_place(state.position))
}

fn ground_frame(state: &RigidBodyState, environment: &Environment) -> LocalFrame {
    let ground = environment.ground_place(geodetic(to_place(state.position)));
    frame_at(Place {
        latitude: f(ground.latitude),
        longitude: f(ground.longitude),
        altitude: f(ground.altitude),
    })
}

/// What a state's attitude makes of a direction along the body axes.
fn turned(state: &RigidBodyState, v: [f64; 3]) -> [f64; 3] {
    let q = state.orientation;
    let (u, w) = ([f(q.x), f(q.y), f(q.z)], f(q.w));
    let t = cross(u, v).map(|x| 2.0 * x);
    let s = cross(u, t);
    [v[0] + w * t[0] + s[0], v[1] + w * t[1] + s[1], v[2] + w * t[2] + s[2]]
}

fn cross(a: [f64; 3], b: [f64; 3]) -> [f64; 3] {
    [a[1] * b[2] - a[2] * b[1], a[2] * b[0] - a[0] * b[2], a[0] * b[1] - a[1] * b[0]]
}

fn parts(v: DVec3) -> [f64; 3] {
    [f(v.x), f(v.y), f(v.z)]
}

fn leg_altitude(state: &RigidBodyState, leg: LandingGearLeg) -> f64 {
    let arm = turned(state, parts(leg.contact_point().as_vec()));
    let p = parts(state.position);
    to_place(vec(p[0] + arm[0], p[1] + arm[1], p[2] + arm[2])).altitude
}

/// How a leg slides over the ground.
fn slide(plane: &ContactPlane, state: &RigidBodyState, leg: LandingGearLeg) -> [f64; 2] {
    let spin = cross(parts(state.angular_velocity), parts(leg.contact_point().as_vec()));
    let arm = turned(state, spin);
    let v = parts(state.velocity);
    let along = |way: DVec3| {
        let w = parts(way);
        (0..3).map(|i| (v[i] + arm[i]) * w[i]).sum::<f64>() / f(plane.transition_speed)
    };
    [along(plane.forward), along(plane.lateral)]
}

fn leg_measure(plane: &ContactPlane, state: &RigidBodyState, leg: LandingGearLeg) -> LegMeasure {
    let [forward, lateral] = slide(plane, state, leg);
    LegMeasure {
        altitude: d(leg_altitude(state, leg)),
        grip: Sliding { forward: d(forward.tanh()), lateral: d(lateral.tanh()) },
    }
}

#[test]
fn contact_points_are_measured_where_the_legs_are() {
    let mut state = state_at(place(35.0, 139.0, 0.9), [0.1, -0.2, 0.7], [20.0, 3.0, -1.0]);
    state.angular_velocity = vec(0.1, 0.3, -0.2);
    let environment = Environment::still_air();
    let gear = AircraftConfig::light_single().landing_gear;
    let ground = ground_frame(&state, &environment);
    let plane = landing_gear::contact_plane(&gear, &state, d(0.5), &environment, ground);
    for leg in gear.legs() {
        let exact = to_place(landing_gear::contact_ecef(state, leg)).altitude;
        assert!((exact - leg_altitude(&state, leg)).abs() < 1e-6);
        let sliding = landing_gear::sliding_of(plane, state, leg);
        let [forward, lateral] = slide(&plane, &state, leg);
        assert!((f(sliding.forward) - forward).abs() < 1e-6);
        assert!((f(sliding.lateral) - lateral).abs() < 1e-6);
    }
}

fn angles_of(airspeed: DVec3) -> AeroAngles {
    match aero::angle_request(airspeed) {
        Some(request) => aero::aero_angles(
            airspeed,
            d(f(request.rise).atan2(f(request.run))),
            d(f(request.slip).asin()),
        ),
        None => aero::aero_angles(airspeed, d(0.0), d(0.0)),
    }
}

fn measure(
    config: &AircraftConfig,
    state: &RigidBodyState,
    controls: ControlInputs,
    environment: &Environment,
) -> Measures {
    let here = to_place(state.position);
    let ground = ground_frame(state, environment);
    let pressure_factor = match Atmosphere::pressure_law(d(here.altitude)) {
        PressureLaw::Exponential(x) => d(f(x).exp()),
        PressureLaw::Power { base, exponent } => d(f(base).powf(f(exponent))),
    };
    let angles = angles_of(dynamics::body_airspeed(*state, *environment));
    let alpha = angles.angle_of_attack;
    let (sin, cos) = f(alpha).sin_cos();
    let decay = |x: Binary64| d(f(aero::decay_exponent(x)).exp());
    let (stall, rate) = (config.aero.stall_angle, config.aero.stall_blend_rate);
    let gear = &config.landing_gear;
    let plane = landing_gear::contact_plane(gear, state, controls.brakes(), environment, ground);
    let legs = gear.legs();
    Measures {
        altitude: d(here.altitude),
        sin_latitude: d(here.latitude.sin()),
        frame: frame_at(here),
        ground_frame: ground,
        pressure_factor,
        angle_of_attack: alpha,
        sideslip: angles.sideslip,
        attack: SinCos { sin: d(sin), cos: d(cos) },
        falling_decay: decay(aero::falling_argument(alpha, stall, rate)),
        rising_decay: decay(aero::rising_argument(alpha, stall, rate)),
        nose: leg_measure(&plane, state, legs[0]),
        left: leg_measure(&plane, state, legs[1]),
        right: leg_measure(&plane, state, legs[2]),
    }
}

fn substeps(fdm: &FlightDynamics, dt: f64, environment: &Environment) -> u32 {
    let state = fdm.state();
    let altitudes = fdm.config().landing_gear.legs().map(|leg| d(leg_altitude(&state, leg)));
    fdm.required_substeps(d(dt), environment, ground_frame(&state, environment), altitudes)
}

/// One step of the simulation.
fn step(fdm: &mut FlightDynamics, dt: f64, controls: ControlInputs, environment: &Environment) {
    let state = fdm.state();
    let altitudes = fdm.config().landing_gear.legs().map(|leg| d(leg_altitude(&state, leg)));
    let mut step =
        fdm.begin_step(d(dt), environment, ground_frame(&state, environment), altitudes);
    while let Some(point) = step.wanted() {
        let measures = measure(fdm.config(), &point, controls, environment);
        fdm.feed(&mut step, controls, environment, &measures);
    }
}

const FIXED_DT: f64 = 1.0 / 120.0;

fn fly(fdm: &mut FlightDynamics, controls: ControlInputs, environment: &Environment, seconds: f64) {
    for _ in 0..(seconds / FIXED_DT).round() as usize {
        step(fdm, FIXED_DT, controls, environment);
    }
}

fn cruising_state(altitude: f64, speed: f64) -> RigidBodyState {
    state_at(place(35.0, 139.0, altitude), [0.0; 3], [speed, 0.0, 0.0])
}

fn cruising() -> FlightDynamics {
    FlightDynamics::new(AircraftConfig::light_single(), cruising_state(2_000.0, 55.0))
}

fn neutral() -> ControlInputs {
    ControlInputs::neutral()
}

fn gear_loads(state: &RigidBodyState, controls: ControlInputs, environment: &Environment) -> BodyLoads {
    let config = AircraftConfig::light_single();
    let measures = measure(&config, state, controls, environment);
    landing_gear::loads(
        &config.landing_gear,
        state,
        controls.brakes(),
        environment,
        measures.ground_frame,
        [measures.nose, measures.left, measures.right],
    )
}

fn at_altitude(altitude: f64, velocity: [f64; 3]) -> RigidBodyState {
    state_at(place(0.0, 0.0, altitude), [0.0; 3], velocity)
}

#[test]
fn no_contact_produces_no_load() {
    let loads = gear_loads(&at_altitude(10.0, [0.0; 3]), neutral(), &Environment::still_air());
    assert_eq!(f(loads.force.length()), 0.0);
    assert_eq!(f(loads.moment.length()), 0.0);
}

#[test]
fn known_penetration_matches_hookes_law_and_is_symmetric() {
    let config = AircraftConfig::light_single();
    let environment = Environment::still_air();
    let penetration = 0.02;
    let loads = gear_loads(&at_altitude(1.0 - penetration, [0.0; 3]), neutral(), &environment);
    let expected = 3.0 * 120_000.0 * penetration;
    let z = f(loads.force.z);
    assert!((z + expected).abs() < 0.1, "vertical force was {z}, expected {}", -expected);
    assert!(f(loads.force.x).abs() < 1.0e-9);
    assert!(f(loads.force.y).abs() < 1.0e-9);
    assert!(f(loads.moment.x).abs() < 0.1);
    assert!(f(loads.moment.y).abs() < 0.1);
    assert!(f(loads.moment.z).abs() < 0.1);

    let rebounding = at_altitude(1.0 - penetration, [0.0, 0.0, -10.0]);
    let rebound = gear_loads(&rebounding, neutral(), &environment);
    assert_eq!(
        f(rebound.force.length()),
        0.0,
        "damping must not make the ground pull a rebounding aircraft downward"
    );

    let leg = config.landing_gear.legs()[0];
    let (stroke, travel) = (f(leg.max_stroke()), f(leg.bottom_stop_travel()));
    let multiplier = BOTTOM_OUT_STIFFNESS_MULTIPLIER as f64;
    let part_way = stroke + travel * 0.5;
    let bottoming = gear_loads(&at_altitude(1.0 - part_way, [0.0; 3]), neutral(), &environment);
    let expected_bottoming = 3.0 * 120_000.0 * (stroke + multiplier * travel * 0.5);
    assert!(
        (f(bottoming.force.z) + expected_bottoming).abs() < 1.0,
        "bottom-stop force was {}, expected {}",
        f(bottoming.force.z),
        -expected_bottoming
    );

    let saturated = 3.0 * 120_000.0 * (stroke + multiplier * travel);
    for depth in [stroke + travel, 0.5, 5.0, 500.0] {
        let deep = gear_loads(&at_altitude(1.0 - depth, [0.0; 3]), neutral(), &environment);
        assert!(
            (f(deep.force.z) + saturated).abs() < 1.0,
            "elastic force at {depth} m of penetration was {}, expected the saturated {}",
            f(deep.force.z),
            -saturated
        );
    }
}

fn normal_force(leg: &LandingGearLeg, penetration: f64, rate: f64) -> f64 {
    f(landing_gear::normal_force(leg, d(penetration), d(rate)))
}

#[test]
fn the_elastic_force_fades_out_above_the_recoil_speed_limit() {
    let leg = AircraftConfig::light_single().landing_gear.legs()[0];
    let deep = 1.0;
    let limit = f(leg.max_recoil_speed());
    let static_force = normal_force(&leg, deep, 0.0);
    assert!(static_force > 0.0);
    let half = normal_force(&leg, deep, -limit * 0.5);
    assert!(half < static_force * 0.5 + 1.0e-9);
    assert!(half > 0.0, "the gear must still push while it is recoiling");
    for speed in [limit, limit * 2.0, 1.0e6] {
        let faded = normal_force(&leg, deep, -speed);
        assert!(faded == 0.0, "the gear kept pushing at {speed} m/s of recoil: {faded} N");
    }
    let compressing = normal_force(&leg, 0.02, 1.0);
    assert!(
        (compressing - (120_000.0 * 0.02 + 13_000.0)).abs() < 1.0e-6,
        "compression-side force changed: {compressing}"
    );
}

#[test]
fn a_non_finite_penetration_rate_does_not_produce_a_non_finite_force() {
    let leg = AircraftConfig::light_single().landing_gear.legs()[0];
    for rate in [f64::NAN, f64::INFINITY, f64::NEG_INFINITY] {
        let force = normal_force(&leg, 0.1, rate);
        assert!(force.is_finite(), "penetration rate {rate} produced {force}");
        assert!(force >= 0.0);
    }
}

#[test]
fn brakes_oppose_forward_motion_without_exceeding_friction_limit() {
    let environment = Environment::still_air();
    let loads = |velocity: [f64; 3], controls: ControlInputs| {
        gear_loads(&at_altitude(0.98, velocity), controls, &environment).force
    };
    let free = loads([10.0, 0.0, 0.0], neutral());
    let braking = loads([10.0, 0.0, 0.0], neutral().with_brakes(d(1.0)));
    assert!(f(braking.x) < f(free.x));
    assert!(f(braking.x) < 0.0);
    assert!(f(braking.x).abs() <= -f(braking.z) * 0.8 + 1.0e-9);
    let reverse = loads([-10.0, 0.0, 0.0], neutral().with_brakes(d(1.0)));
    assert!(f(reverse.x) > 0.0, "friction must oppose reverse motion");
    let sideways = loads([0.0, 10.0, 0.0], neutral());
    assert!(f(sideways.y) < 0.0, "lateral friction had the wrong sign");
    let slow_forward = f(loads([1.0e-6, 0.0, 0.0], neutral()).x);
    let slow_reverse = f(loads([-1.0e-6, 0.0, 0.0], neutral()).x);
    assert!(slow_forward < 0.0);
    assert!(slow_reverse > 0.0);
    assert!(
        (slow_forward + slow_reverse).abs() < 1.0e-9,
        "regularized friction must be continuous and antisymmetric around rest"
    );
    assert!(
        slow_forward.abs() < f(braking.x).abs() * 1.0e-4,
        "near-zero friction did not enter the linearized region"
    );
}

#[test]
fn slope_changes_the_load_between_front_and_main_gear() {
    let state = at_altitude(0.98, [0.0; 3]);
    let environment = Environment::still_air().with_ground_plane(
        geodetic(to_place(state.position)),
        d(0.0),
        GroundSlope::new(d(0.05), d(0.0)),
    );
    let result = gear_loads(&state, neutral(), &environment);
    assert!(
        f(result.moment.y) > 1.0,
        "uphill nose gear should create a nose-up moment"
    );
    assert!(result.force.is_finite() && result.moment.is_finite());
    let mut uphill = state;
    let frame = frame_of(&state);
    uphill.position = frame.origin.plus(frame.ned_to_ecef(vec(1.0, 0.0, 0.0)));
    let moved = gear_loads(&uphill, neutral(), &environment);
    assert!(
        f(moved.force.length()) > f(result.force.length()),
        "the fixed ground reference did not make an uphill move increase penetration"
    );
}

#[test]
fn contact_loads_stay_finite_at_poles_and_the_dateline() {
    let environment = Environment::still_air();
    for (latitude, longitude) in [
        (-90.0, -180.0),
        (-90.0, 180.0),
        (0.0, -180.0),
        (0.0, 180.0),
        (90.0, -180.0),
        (90.0, 180.0),
    ] {
        let state = state_at(place(latitude, longitude, 0.98), [0.0; 3], [0.0; 3]);
        let result = gear_loads(&state, neutral(), &environment);
        assert!(
            result.force.is_finite() && result.moment.is_finite(),
            "non-finite contact load at ({latitude}, {longitude})"
        );
        assert!(
            f(result.force.length()) > 0.0,
            "gear did not contact at ({latitude}, {longitude})"
        );
    }
}

#[test]
fn a_single_step_leaves_the_state_finite() {
    let mut fdm = cruising();
    let controls = neutral().with_throttle(d(0.6));
    step(&mut fdm, FIXED_DT, controls, &Environment::still_air());
    assert!(fdm.state().is_finite());
}

#[test]
fn the_fixed_step_is_a_hundred_and_twentieth_of_a_second() {
    assert_eq!(f(dynamics::recommended_fixed_dt()), FIXED_DT);
    assert_eq!(f(dynamics::max_rotation_per_substep()), 0.05);
    assert_eq!(f(FlightDynamics::substep_length(d(1.0), 8)), 0.125);
}

fn spin(fdm: &mut FlightDynamics, x: f64, y: f64, z: f64) {
    let mut state = fdm.state();
    state.angular_velocity = vec(x, y, z);
    fdm.set_state(state);
}

#[test]
fn substep_count_grows_with_angular_velocity_and_stays_bounded() {
    let environment = Environment::still_air();
    let mut fdm = cruising();
    assert_eq!(substeps(&fdm, FIXED_DT, &environment), 1);
    spin(&mut fdm, 12.0, 0.0, 0.0);
    assert!(substeps(&fdm, FIXED_DT, &environment) > 1);
    spin(&mut fdm, 1.0e6, 1.0e6, 1.0e6);
    assert_eq!(substeps(&fdm, FIXED_DT, &environment), MAX_SUBSTEPS);
}

#[test]
fn substep_count_is_one_for_a_corrupted_angular_velocity() {
    let mut fdm = cruising();
    spin(&mut fdm, f64::NAN, 0.0, 0.0);
    assert_eq!(substeps(&fdm, FIXED_DT, &Environment::still_air()), 1);
}

#[test]
fn landing_gear_stiffness_requests_substeps_during_contact() {
    let fdm = FlightDynamics::new(AircraftConfig::light_single(), at_altitude(0.98, [0.0; 3]));
    assert!(
        substeps(&fdm, FIXED_DT, &Environment::still_air()) > 1,
        "gear contact must refine the fixed step even at zero angular velocity"
    );
}

#[test]
fn bottomed_landing_gear_uses_the_substep_limit() {
    let environment = Environment::still_air();
    let fdm = FlightDynamics::new(AircraftConfig::light_single(), at_altitude(0.5, [0.0; 3]));
    let parts = substeps(&fdm, FIXED_DT, &environment);
    assert_eq!(
        parts, MAX_SUBSTEPS,
        "the higher bump-stop stiffness must be reflected in step refinement"
    );
    let state = fdm.state();
    let frequency = f(landing_gear::maximum_natural_frequency(
        fdm.config().landing_gear,
        fdm.config().mass_properties,
        state,
        environment,
        ground_frame(&state, &environment),
    ));
    let phase = frequency * FIXED_DT / f64::from(parts);
    assert!(
        phase <= f(landing_gear::max_gear_phase_per_substep()),
        "gear phase advance {phase} rad exceeded the stability limit"
    );
}

fn wind(p: Place, north: f64) -> Environment {
    Environment::with_wind_ned(Atmosphere::standard(), frame_at(p), vec(north, 0.0, 0.0))
}

#[test]
fn wind_changes_the_resulting_state() {
    let headwind = wind(place(35.0, 139.0, 2_000.0), -20.0);
    let mut with_wind = cruising();
    let mut without_wind = cruising();
    let controls = neutral().with_throttle(d(0.6));
    step(&mut with_wind, FIXED_DT, controls, &headwind);
    step(&mut without_wind, FIXED_DT, controls, &Environment::still_air());
    assert_ne!(with_wind.state().velocity, without_wind.state().velocity);
    assert!(with_wind.state().is_finite());
}

#[test]
fn gravity_alone_produces_free_fall_acceleration() {
    let mut fdm =
        FlightDynamics::new(AircraftConfig::light_single(), at_altitude(10_000.0, [0.0; 3]));
    step(&mut fdm, FIXED_DT, neutral(), &Environment::still_air());
    let state = fdm.state();
    let descent_rate = -f(state.vertical_speed(frame_of(&state)));
    let expected = f(gravity::magnitude(d(0.0), d(10_000.0))) * FIXED_DT;
    assert!(
        (descent_rate - expected).abs() < 1e-3,
        "descent rate after one step was {descent_rate} m/s, expected {expected}"
    );
}

fn wrapped(angle: f64) -> f64 {
    let turned = angle.rem_euclid(core::f64::consts::TAU);
    turned.min(core::f64::consts::TAU - turned)
}

#[test]
fn construction_round_trips_through_local_quantities() {
    let attitude = [10.0_f64, 5.0, 120.0].map(f64::to_radians);
    let position = place(-12.5, -75.25, 3_400.0);
    let state = state_at(position, attitude, [60.0, 20.0, -3.0]);
    let back = to_place(state.position);
    assert!((back.latitude.to_degrees() - (-12.5)).abs() < 1e-9);
    assert!((back.longitude.to_degrees() - (-75.25)).abs() < 1e-9);
    assert!((back.altitude - 3_400.0).abs() < 1e-4);
    let recovered = attitude_of(&state);
    assert!((recovered[0] - attitude[0]).abs() < 1e-9);
    assert!((recovered[1] - attitude[1]).abs() < 1e-9);
    assert!(wrapped(recovered[2] - attitude[2]) < 1e-9);
    let velocity = state.velocity_ned(frame_at(back));
    assert!(f(velocity.minus(vec(60.0, 20.0, -3.0)).length()) < 1e-9);
}

#[test]
fn body_velocity_equals_airspeed_axis_when_level_and_pointing_north() {
    let body = cruising_state(1_000.0, 55.0).body_velocity();
    assert!((f(body.x) - 55.0).abs() < 1e-9, "forward speed was {}", f(body.x));
    assert!(f(body.y).abs() < 1e-9);
    assert!(f(body.z).abs() < 1e-9);
}

#[test]
fn vertical_speed_is_positive_when_climbing() {
    let state = at_altitude(500.0, [50.0, 0.0, -5.0]);
    let frame = frame_of(&state);
    assert!((f(state.vertical_speed(frame)) - 5.0).abs() < 1e-9);
    assert!((f(state.ground_speed(frame)) - 50.0).abs() < 1e-9);
}

#[test]
fn orientation_rate_is_zero_when_not_rotating() {
    let rate = state::orientation_rate(cruising_state(1_000.0, 50.0).orientation, DVec3::zero());
    assert!(f(rate.dot(rate)).sqrt() < 1e-15);
}

/// Only the attitude moves.
fn turning(state: &RigidBodyState) -> StateDerivative {
    StateDerivative {
        orientation_rate: state::orientation_rate(state.orientation, state.angular_velocity),
        ..StateDerivative::zero()
    }
}

#[test]
fn orientation_rate_integrates_into_the_expected_rotation() {
    let mut state = at_altitude(3_000.0, [50.0, 0.0, 0.0]);
    state.angular_velocity = vec(30.0_f64.to_radians(), 0.0, 0.0);
    for _ in 0..1_000 {
        state = state::offset(state, turning(&state), d(1.0 / 1_000.0));
    }
    let roll = attitude_of(&state)[0].to_degrees();
    assert!((roll - 30.0).abs() < 0.05, "roll after one second was {roll}°");
}

#[test]
fn offset_keeps_the_quaternion_normalised() {
    let mut state = cruising_state(2_000.0, 60.0);
    state.angular_velocity = vec(0.5, -0.3, 0.2);
    for _ in 0..100_000 {
        state = state::offset(state, turning(&state), d(1.0 / 120.0));
    }
    let q = state.orientation.to_vec4();
    let norm = f(q.dot(q)).sqrt();
    assert!(
        (norm - 1.0).abs() < 1e-9,
        "quaternion norm drifted to {norm} after 100k steps"
    );
    assert!(state.is_finite());
}

#[test]
fn derivative_arithmetic_is_component_wise() {
    let half = d(0.5);
    let a = StateDerivative {
        velocity: vec(1.0, 2.0, 3.0),
        acceleration: vec(1.0, 1.0, 1.0),
        orientation_rate: DVec4 { x: half, y: half, z: half, w: half },
        angular_acceleration: vec(2.0, 2.0, 2.0),
    };
    let sum = a.plus(a);
    assert_eq!(sum, a.scaled(d(2.0)));
    assert!(f(sum.velocity.minus(vec(2.0, 4.0, 6.0)).length()) < 1e-15);
}

#[test]
fn is_finite_detects_corrupted_state() {
    let mut state = cruising_state(1_000.0, 50.0);
    assert!(state.is_finite());
    state.velocity = vec(f64::NAN, 0.0, 0.0);
    assert!(!state.is_finite(), "a NaN velocity must be detected");
}

#[test]
fn attitude_is_relative_to_the_local_horizon_not_the_earth_axis() {
    for (latitude, longitude) in [(0.0, 0.0), (45.0, 90.0), (-60.0, -170.0), (80.0, 30.0)] {
        let state = state_at(place(latitude, longitude, 5_000.0), [0.0; 3], [70.0, 0.0, 0.0]);
        let [roll, pitch, yaw] = attitude_of(&state);
        assert!(
            roll.abs() < 1e-9 && pitch.abs() < 1e-9,
            "level attitude was not preserved at ({latitude}, {longitude})"
        );
        assert!(yaw.abs() < 1e-9, "heading drifted at ({latitude}, {longitude}): {yaw}");
    }
}

#[test]
fn identical_inputs_produce_bit_identical_trajectories() {
    let run = || {
        let mut fdm = cruising();
        let environment = Environment::still_air();
        let mut samples = Vec::new();
        for i in 0..2_400 {
            let phase = f64::from(i) * 0.01;
            let controls = ControlInputs::new(
                d(0.3 * phase.sin()),
                d(0.2 * phase.cos()),
                d(0.1 * (phase * 0.5).sin()),
                d(0.7),
                d(0.0),
            );
            step(&mut fdm, FIXED_DT, controls, &environment);
            if i % 100 == 0 {
                samples.push(fdm.state());
            }
        }
        samples
    };
    assert_eq!(run(), run(), "the FDM is not deterministic");
}

#[test]
fn simulation_does_not_depend_on_how_many_times_step_is_called_per_second() {
    let environment = Environment::still_air();
    let controls = neutral().with_throttle(d(0.6)).with_elevator(d(0.1));
    let mut reference = cruising();
    step(&mut reference, FIXED_DT, controls, &environment);
    for _ in 0..10 {
        let mut fdm = cruising();
        step(&mut fdm, FIXED_DT, controls, &environment);
        assert_eq!(fdm.state(), reference.state());
    }
}

/// No force of the air at all.
fn ballistic_config() -> AircraftConfig {
    let mut config = AircraftConfig::light_single();
    let (zero, one) = (d(0.0), d(1.0));
    config.mass_properties =
        MassProperties::new(config.mass_properties.mass(), one, one, one, zero);
    config.aero = AeroCoefficients {
        lift_zero: zero,
        lift_alpha: zero,
        lift_flaps: zero,
        stall_angle: one,
        stall_blend_rate: zero,
        drag_min: zero,
        oswald_efficiency: one,
        drag_flaps: zero,
        side_beta: zero,
        side_rudder: zero,
        roll_beta: zero,
        roll_rate_p: zero,
        roll_rate_r: zero,
        roll_aileron: zero,
        roll_rudder: zero,
        pitch_zero: zero,
        pitch_alpha: zero,
        pitch_rate_q: zero,
        pitch_elevator: zero,
        pitch_flaps: zero,
        yaw_beta: zero,
        yaw_rate_p: zero,
        yaw_rate_r: zero,
        yaw_aileron: zero,
        yaw_rudder: zero,
    };
    config
}

#[test]
fn ballistic_motion_conserves_energy() {
    let state = at_altitude(5_000.0, [0.0, 0.0, -50.0]);
    let mut fdm = FlightDynamics::new(ballistic_config(), state);
    let g = f(gravity::magnitude(d(0.0), d(5_000.0)));
    let specific_energy = |s: &RigidBodyState| {
        let speed = f(s.velocity.length());
        0.5 * speed * speed + g * altitude_of(s)
    };
    let initial = specific_energy(&fdm.state());
    for _ in 0..1_200 {
        step(&mut fdm, FIXED_DT, neutral(), &Environment::still_air());
        let error = (specific_energy(&fdm.state()) - initial).abs() / initial;
        assert!(
            error < 1e-4,
            "specific energy drifted by {error:.3e} (relative); the integrator is leaking energy"
        );
    }
    assert!(fdm.state().is_finite());
}

#[test]
fn ballistic_motion_matches_the_analytic_solution() {
    let launch_speed = 50.0;
    let state = at_altitude(5_000.0, [0.0, 0.0, -launch_speed]);
    let mut fdm = FlightDynamics::new(ballistic_config(), state);
    let g = f(gravity::magnitude(d(0.0), d(5_000.0)));
    let duration = 5.0;
    fly(&mut fdm, neutral(), &Environment::still_air(), duration);
    let expected = 5_000.0 + launch_speed * duration - 0.5 * g * duration * duration;
    let actual = altitude_of(&fdm.state());
    assert!(
        (actual - expected).abs() < 0.1,
        "ballistic altitude was {actual:.3} m, analytic solution gives {expected:.3} m"
    );
}

#[test]
fn halving_the_timestep_converges_to_the_same_trajectory() {
    let environment = Environment::still_air();
    let controls = neutral().with_throttle(d(0.7)).with_elevator(d(0.05));
    let duration = 30.0;
    let run_at = |dt: f64| {
        let mut fdm = cruising();
        for _ in 0..(duration / dt).round() as usize {
            step(&mut fdm, dt, controls, &environment);
        }
        fdm.state()
    };
    let coarse = run_at(FIXED_DT);
    let fine = run_at(FIXED_DT / 2.0);
    let separation = f(coarse.position.minus(fine.position).length());
    assert!(
        separation < 1.0,
        "halving the timestep moved the aircraft {separation:.3} m after {duration} s"
    );
}

#[test]
fn full_back_elevator_leads_to_a_stall_without_numerical_breakdown() {
    let mut fdm = cruising();
    let environment = Environment::still_air();
    let controls = neutral().with_throttle(d(0.3)).with_elevator(d(1.0));
    let mut peak: f64 = 0.0;
    for _ in 0..(20.0 / FIXED_DT).round() as usize {
        step(&mut fdm, FIXED_DT, controls, &environment);
        assert!(fdm.state().is_finite(), "the stall produced a non-finite state");
        peak = peak.max(f(angles_of(fdm.state().body_velocity()).angle_of_attack));
    }
    let stall_angle = f(fdm.config().aero.stall_angle);
    assert!(
        peak > stall_angle,
        "pulling full back never reached the stall angle ({:.1}° vs {:.1}°)",
        peak.to_degrees(),
        stall_angle.to_degrees()
    );
}

#[test]
fn aileron_input_rolls_the_aircraft_and_changes_heading() {
    let mut fdm = cruising();
    let environment = Environment::still_air();
    let initial_heading = attitude_of(&fdm.state())[2];
    let controls = neutral().with_throttle(d(0.7));
    fly(&mut fdm, controls.with_aileron(d(0.4)), &environment, 0.8);
    let bank = attitude_of(&fdm.state())[0].to_degrees();
    assert!(
        (5.0..60.0).contains(&bank),
        "0.8 s of right aileron produced {bank:.1}° of bank, expected a moderate right bank"
    );
    fly(&mut fdm, controls, &environment, 8.0);
    let mut change = attitude_of(&fdm.state())[2] - initial_heading;
    if change > core::f64::consts::PI {
        change -= core::f64::consts::TAU;
    }
    if change < -core::f64::consts::PI {
        change += core::f64::consts::TAU;
    }
    assert!(
        change > 0.0,
        "a right bank should turn the aircraft right, but heading changed by {:.1}°",
        change.to_degrees()
    );
}

#[test]
fn full_aileron_roll_rate_is_physically_plausible() {
    let mut fdm = cruising();
    let controls = neutral().with_throttle(d(0.7)).with_aileron(d(1.0));
    fly(&mut fdm, controls, &Environment::still_air(), 1.5);
    let roll_rate = f(fdm.state().angular_velocity.x).to_degrees();
    assert!(
        (40.0..110.0).contains(&roll_rate),
        "full aileron produced a steady roll rate of {roll_rate:.0}°/s"
    );
}

#[test]
fn cutting_the_throttle_starts_a_descent() {
    let environment = Environment::still_air();
    let mut powered = cruising();
    let mut gliding = cruising();
    fly(&mut powered, neutral().with_throttle(d(0.75)), &environment, 20.0);
    fly(&mut gliding, neutral().with_throttle(d(0.0)), &environment, 20.0);
    let (low, high) = (altitude_of(&gliding.state()), altitude_of(&powered.state()));
    assert!(
        low < high,
        "the glider ({low:.0} m) should be lower than the powered aircraft ({high:.0} m)"
    );
    let state = gliding.state();
    assert!(
        f(state.vertical_speed(frame_of(&state))) < 0.0,
        "the glider should be descending"
    );
}

#[test]
fn a_steady_headwind_reduces_ground_speed_relative_to_airspeed() {
    let environment = wind(place(35.0, 139.0, 2_000.0), -15.0);
    let mut fdm = cruising();
    fly(&mut fdm, neutral().with_throttle(d(0.7)), &environment, 5.0);
    let state = fdm.state();
    let ground_speed = f(state.ground_speed(frame_of(&state)));
    let airspeed = f(angles_of(dynamics::body_airspeed(state, environment)).true_airspeed);
    assert!(
        airspeed > ground_speed + 10.0,
        "with a 15 m/s headwind, airspeed ({airspeed:.1}) should clearly exceed \
         ground speed ({ground_speed:.1})"
    );
}

#[test]
fn the_aircraft_flies_correctly_anywhere_on_the_globe() {
    let environment = Environment::still_air();
    let controls = neutral().with_throttle(d(0.7));
    let heading = 45.0_f64.to_radians();
    let mut vertical_speeds = Vec::new();
    for (latitude, longitude) in [
        (0.0, 0.0),
        (35.0, 139.0),
        (-33.0, 151.0),
        (0.0, 179.99),
        (0.0, -179.99),
        (89.0, 0.0),
        (-89.0, 45.0),
    ] {
        let start = state_at(
            place(latitude, longitude, 2_000.0),
            [0.0, 0.0, heading],
            [55.0 * heading.cos(), 55.0 * heading.sin(), 0.0],
        );
        let mut fdm = FlightDynamics::new(AircraftConfig::light_single(), start);
        fly(&mut fdm, controls, &environment, 30.0);
        let state = fdm.state();
        assert!(
            state.is_finite(),
            "flight at ({latitude}, {longitude}) produced a non-finite state"
        );
        vertical_speeds.push(f(state.vertical_speed(frame_of(&state))));
    }
    let min = vertical_speeds.iter().copied().fold(f64::INFINITY, f64::min);
    let max = vertical_speeds.iter().copied().fold(f64::NEG_INFINITY, f64::max);
    assert!(
        (max - min).abs() < 5.0,
        "vertical speed varied from {min:.2} to {max:.2} m/s across the globe"
    );
}

#[test]
fn zero_airspeed_start_does_not_break_the_simulation() {
    let state = state_at(place(35.0, 139.0, 100.0), [0.0; 3], [0.0; 3]);
    let mut fdm = FlightDynamics::new(AircraftConfig::light_single(), state);
    fly(&mut fdm, neutral().with_throttle(d(1.0)), &Environment::still_air(), 5.0);
    assert!(fdm.state().is_finite(), "starting from rest broke the simulation");
    assert!(f(fdm.state().velocity.length()) > 0.0);
}

#[test]
fn wind_moves_a_stationary_aircraft_in_the_wind_direction() {
    let position = place(0.0, 0.0, 3_000.0);
    let environment = wind(position, 25.0);
    let mut fdm =
        FlightDynamics::new(AircraftConfig::light_single(), state_at(position, [0.0; 3], [0.0; 3]));
    fly(&mut fdm, neutral(), &environment, 3.0);
    let state = fdm.state();
    let north = f(state.velocity_ned(frame_of(&state)).x);
    assert!(
        north > 0.0,
        "a northward wind should push the aircraft north, but its north velocity is {north:.2} m/s"
    );
}

#[test]
fn gyroscopic_coupling_is_present() {
    let mut state = cruising_state(3_000.0, 60.0);
    state.angular_velocity = vec(2.0, 1.5, 0.0);
    let mut fdm = FlightDynamics::new(AircraftConfig::light_single(), state);
    step(&mut fdm, FIXED_DT, neutral(), &Environment::still_air());
    let yaw_rate = f(fdm.state().angular_velocity.z);
    assert!(
        yaw_rate.abs() > 1e-6,
        "no yaw rate appeared from combined roll and pitch; \
         the ω × (Iω) coupling term is probably missing"
    );
}

#[test]
fn extreme_control_inputs_never_produce_nan() {
    let mut fdm = cruising();
    let environment = Environment::still_air();
    for i in 0..12_000 {
        let phase = f64::from(i) * 0.05;
        let controls = ControlInputs::new(
            d(phase.sin().signum()),
            d((phase * 1.3).cos().signum()),
            d((phase * 0.7).sin().signum()),
            d(if phase.sin() > 0.0 { 1.0 } else { 0.0 }),
            d(if (phase * 0.1).sin() > 0.0 { 1.0 } else { 0.0 }),
        );
        step(&mut fdm, FIXED_DT, controls, &environment);
        assert!(
            fdm.state().is_finite(),
            "violent control inputs produced a non-finite state at step {i}"
        );
    }
}

const SPAWN_LATITUDE: f64 = 35.55;
const SPAWN_LONGITUDE: f64 = 139.33;
const SPAWN_ELEVATION: f64 = 1_400.0;
const MAXIMUM_EXCURSION: f64 = 30.0;

fn gear_height(config: &AircraftConfig) -> f64 {
    config
        .landing_gear
        .legs()
        .iter()
        .map(|leg| f(leg.contact_point().as_vec().z))
        .fold(f64::NEG_INFINITY, f64::max)
}

/// Level, with the wheels at the height of the ground below.
fn parked(config: &AircraftConfig, heading_degrees: f64) -> RigidBodyState {
    state_at(
        place(SPAWN_LATITUDE, SPAWN_LONGITUDE, SPAWN_ELEVATION + gear_height(config)),
        [0.0, 0.0, heading_degrees.to_radians()],
        [0.0; 3],
    )
}

fn sloped_ground(slope_degrees: f64, bearing_degrees: f64) -> Environment {
    let tangent = slope_degrees.to_radians().tan();
    let bearing = bearing_degrees.to_radians();
    Environment::still_air().with_ground_plane(
        geodetic(place(SPAWN_LATITUDE, SPAWN_LONGITUDE, 0.0)),
        d(SPAWN_ELEVATION),
        GroundSlope::new(d(tangent * bearing.cos()), d(tangent * bearing.sin())),
    )
}

struct Excursion {
    bank: f64,
    pitch: f64,
    tilt: f64,
    height: f64,
}

fn settle(slope: f64, bearing: f64, controls: ControlInputs, seconds: f64) -> Excursion {
    let config = AircraftConfig::light_single();
    let initial = parked(&config, 0.0);
    let environment = sloped_ground(slope, bearing);
    let plane = ground_frame(&initial, &environment);
    let mut fdm = FlightDynamics::new(config, initial);
    let mut worst = Excursion { bank: 0.0, pitch: 0.0, tilt: 0.0, height: f64::NEG_INFINITY };
    for i in 0..(seconds / FIXED_DT).round() as u32 {
        step(&mut fdm, FIXED_DT, controls, &environment);
        let state = fdm.state();
        assert!(state.is_finite(), "state became non-finite at step {i} on a {slope}° slope");
        let [roll, pitch, _] = attitude_of(&state);
        worst.bank = worst.bank.max(roll.to_degrees().abs());
        worst.pitch = worst.pitch.max(pitch.to_degrees().abs());
        let down = frame_of(&state).ecef_to_ned(state.orientation.rotate(vec(0.0, 0.0, 1.0)));
        worst.tilt = worst.tilt.max(f(down.z).clamp(-1.0, 1.0).acos().to_degrees());
        let offset = plane.position_to_ned(state.position);
        let slope_here = environment.ground_slope();
        let ground_here = f(environment.ground_elevation)
            + f(slope_here.north()) * f(offset.x)
            + f(slope_here.east()) * f(offset.y);
        worst.height = worst.height.max(altitude_of(&state) - ground_here);
    }
    worst
}

fn assert_upright(worst: &Excursion, what: &str) {
    assert!(worst.bank < MAXIMUM_EXCURSION, "{what}: banked to {:.1}°", worst.bank);
    assert!(worst.pitch < MAXIMUM_EXCURSION, "{what}: pitched to {:.1}°", worst.pitch);
    assert!(worst.tilt < MAXIMUM_EXCURSION, "{what}: tilted {:.1}°", worst.tilt);
}

fn parking_brake() -> ControlInputs {
    neutral().with_brakes(d(1.0))
}

#[test]
fn spawning_across_a_fifteen_degree_slope_does_not_flip_the_aircraft() {
    assert_upright(&settle(15.0, 90.0, parking_brake(), 10.0), "across a 15° slope");
}

#[test]
fn spawning_along_a_fifteen_degree_slope_does_not_flip_the_aircraft() {
    assert_upright(&settle(15.0, 0.0, parking_brake(), 10.0), "along a 15° slope");
}

#[test]
fn a_brakeless_spawn_on_a_slope_rolls_away_instead_of_tumbling() {
    for slope in [15.0, 25.0] {
        let worst = settle(slope, 0.0, neutral(), 3.0);
        assert_upright(&worst, &format!("brakeless {slope}° slope"));
    }
}

#[test]
fn a_level_ground_plane_still_settles_at_the_static_compression() {
    let config = AircraftConfig::light_single();
    let gear = gear_height(&config);
    let expected = 0.028_4;
    let mut fdm = FlightDynamics::new(config, at_altitude(gear - expected, [0.0; 3]));
    for _ in 0..(10 * 120) {
        step(&mut fdm, FIXED_DT, parking_brake(), &Environment::still_air());
    }
    let compression = gear - altitude_of(&fdm.state());
    assert!(
        (compression - expected).abs() < 1.0e-3,
        "static compression drifted to {compression:.5} m"
    );
}

#[test]
fn angles_convert_both_ways() {
    assert_eq!(f(angle::to_radians(d(180.0))), core::f64::consts::PI);
    assert_eq!(f(angle::to_degrees(angle::pi())), 180.0);
    assert!((f(angle::wrap_positive(d(-1.0))) - (core::f64::consts::TAU - 1.0)).abs() < 1e-12);
}

#[test]
fn ten_minutes_of_flight_does_not_diverge() {
    let mut fdm = cruising();
    let environment = Environment::still_air();
    let controls = neutral().with_throttle(d(0.65));
    for i in 0..(600.0 / FIXED_DT).round() as u32 {
        step(&mut fdm, FIXED_DT, controls, &environment);
        let state = fdm.state();
        let seconds = f64::from(i) * FIXED_DT;
        assert!(state.is_finite(), "state went non-finite after {seconds:.1} s");
        let altitude = altitude_of(&state);
        assert!(
            (-1_000.0..30_000.0).contains(&altitude),
            "altitude reached {altitude:.0} m after {seconds:.1} s — the simulation diverged"
        );
        let speed = f(state.velocity.length());
        assert!(
            speed < 500.0,
            "speed reached {speed:.0} m/s after {seconds:.1} s — the simulation diverged"
        );
    }
}

#[test]
fn the_attitude_keeps_its_length_through_manoeuvres() {
    let mut fdm = cruising();
    let controls =
        neutral().with_throttle(d(0.7)).with_aileron(d(0.15)).with_rudder(d(0.05));
    fly(&mut fdm, controls, &Environment::still_air(), 40.0);
    let q = fdm.state().orientation.to_vec4();
    let norm = f(q.dot(q)).sqrt();
    assert!((norm - 1.0).abs() < 1e-9, "quaternion norm drifted to {norm}");
}

const ASPECTS: [f64; 8] = [0.0, 45.0, 90.0, 135.0, 180.0, 225.0, 270.0, 315.0];

#[test]
fn spawning_on_a_fifteen_degree_slope_never_flips_whatever_the_aspect() {
    for bearing in ASPECTS {
        let worst = settle(15.0, bearing, parking_brake(), 10.0);
        assert_upright(&worst, &format!("15° slope rising toward {bearing}°"));
    }
}

#[test]
fn spawning_on_a_twenty_five_degree_slope_does_not_flip_the_aircraft() {
    for bearing in ASPECTS {
        let worst = settle(25.0, bearing, parking_brake(), 10.0);
        assert_upright(&worst, &format!("25° slope rising toward {bearing}°"));
    }
}

#[test]
fn a_slope_spawn_never_launches_the_aircraft_off_the_ground() {
    let limit = gear_height(&AircraftConfig::light_single()) + 0.25;
    for bearing in [0.0, 90.0, 180.0, 270.0] {
        for slope in [15.0, 25.0] {
            let worst = settle(slope, bearing, parking_brake(), 10.0);
            assert!(
                worst.height < limit,
                "a {slope}° slope rising toward {bearing}° launched the aircraft to \
                 {:.2} m above the plane (limit {limit:.2} m)",
                worst.height
            );
        }
    }
}

#[test]
fn the_slope_spawn_is_deterministic() {
    let run = || {
        let config = AircraftConfig::light_single();
        let initial = parked(&config, 30.0);
        let environment = sloped_ground(15.0, 60.0);
        let mut fdm = FlightDynamics::new(config, initial);
        let mut samples = Vec::new();
        for i in 0..1_200 {
            step(&mut fdm, FIXED_DT, parking_brake(), &environment);
            if i % 60 == 0 {
                samples.push(fdm.state());
            }
        }
        samples
    };
    assert_eq!(run(), run(), "the sloped-contact path is not deterministic");
}

#[test]
fn a_deeply_buried_spawn_climbs_out_instead_of_being_launched() {
    let config = AircraftConfig::light_single();
    let recoil_limit = f(config.landing_gear.legs()[0].max_recoil_speed());
    let depth = SPAWN_ELEVATION + gear_height(&config) - 5.0;
    let initial = state_at(place(SPAWN_LATITUDE, SPAWN_LONGITUDE, depth), [0.0; 3], [0.0; 3]);
    let environment = sloped_ground(15.0, 45.0);
    let mut fdm = FlightDynamics::new(config, initial);
    let mut fastest = f64::NEG_INFINITY;
    for i in 0..(30 * 120) {
        step(&mut fdm, FIXED_DT, parking_brake(), &environment);
        let state = fdm.state();
        assert!(state.is_finite(), "state became non-finite at step {i}");
        fastest = fastest.max(f(state.vertical_speed(frame_of(&state))));
        let [roll, pitch, _] = attitude_of(&state).map(f64::to_degrees);
        assert!(
            roll.abs() < MAXIMUM_EXCURSION && pitch.abs() < MAXIMUM_EXCURSION,
            "a buried spawn threw the aircraft to roll {roll:.1}° / pitch {pitch:.1}° at step {i}"
        );
    }
    assert!(
        fastest < recoil_limit * 2.0,
        "climbing out of a 5 m burial reached {fastest:.2} m/s, \
         which is not bounded by the {recoil_limit:.2} m/s recoil limit"
    );
}

#[test]
fn a_step_flies_its_parts() {
    let environment = Environment::still_air();
    let controls = neutral().with_throttle(d(0.6));
    let mut whole = cruising();
    spin(&mut whole, 12.0, 0.0, 0.0);
    let mut parts = FlightDynamics::new(AircraftConfig::light_single(), whole.state());
    let count = substeps(&whole, FIXED_DT, &environment);
    assert!(count > 1);
    step(&mut whole, FIXED_DT, controls, &environment);
    let h = FlightDynamics::substep_length(d(FIXED_DT), count);
    for _ in 0..count {
        let mut part = FlightStep::new(parts.state(), h, 1);
        while let Some(point) = part.wanted() {
            let measures = measure(parts.config(), &point, controls, &environment);
            parts.feed(&mut part, controls, &environment, &measures);
        }
    }
    assert_eq!(whole.state(), parts.state());
}

#[test]
fn the_force_on_the_body_stays_within_the_friction_cone() {
    let gear = AircraftConfig::light_single().landing_gear;
    let environment = Environment::still_air();
    for (attitude, velocity, brakes) in [
        ([0.0, 0.0, 0.0], [10.0, 0.0, 0.0], 1.0),
        ([0.02, 0.04, 1.2], [6.0, 7.0, 0.1], 0.5),
        ([-0.03, -0.02, -2.5], [0.0, 12.0, 0.3], 0.0),
    ] {
        let state = state_at(place(0.6, 2.4, 0.9), attitude, velocity);
        let force = parts(gear_loads(&state, neutral().with_brakes(d(brakes)), &environment).force);
        let normal = environment.ground_normal_ecef(ground_frame(&state, &environment));
        let up = parts(state.orientation.inverse().rotate(normal));
        let push: f64 = (0..3).map(|i| force[i] * up[i]).sum();
        let beside: f64 =
            (0..3).map(|i| (force[i] - push * up[i]).powi(2)).sum::<f64>().sqrt();
        let along = f(gear.rolling_friction_coefficient)
            + brakes * f(gear.braking_friction_coefficient);
        let limit = along.max(f(gear.lateral_friction_coefficient));
        assert!(push > 1_000.0, "the wheels do not touch: {push}");
        assert!(beside > 1.0, "nothing slides: {beside}");
        assert!(beside <= limit * push * (1.0 + 1e-9), "{beside} against {push}");
    }
}

#[test]
fn the_ways_lie_along_the_ground() {
    let gear = AircraftConfig::light_single().landing_gear;
    let environment = Environment::still_air();
    for attitude in [[0.0, 0.0, 0.0], [0.4, -0.7, 2.0], [0.0, 1.5707, -1.0]] {
        let state = state_at(place(-0.4, 1.1, 3.0), attitude, [1.0, 2.0, 3.0]);
        let frame = ground_frame(&state, &environment);
        let plane = landing_gear::contact_plane(&gear, &state, d(0.5), &environment, frame);
        assert!(plane.has_ways);
        assert!((f(plane.forward.length()) - 1.0).abs() < 1e-13);
        assert!((f(plane.lateral.length()) - 1.0).abs() < 1e-13);
        assert!(f(plane.forward.dot(plane.normal)).abs() < 1e-9);
        assert!(f(plane.lateral.dot(plane.normal)).abs() < 1e-15);
    }
}
