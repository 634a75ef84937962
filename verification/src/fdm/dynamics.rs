//! How an aircraft moves: forces to accelerations, and accelerations to the
//! next state.
//!
//! Where on the earth a state is, and every sine, exponential and the like,
//! comes in from outside as measures of that state. The same state, inputs and
//! measures always give the same next state.
use crate::angle::SinCos;
use crate::binary64;
use crate::binary64::Binary64;
use crate::fdm::aero;
use crate::fdm::aero::{AeroAngles, BodyLoads};
use crate::fdm::aircraft::AircraftConfig;
use crate::fdm::atmosphere;
use crate::fdm::atmosphere::AtmosphereSample;
use crate::fdm::controls::ControlInputs;
use crate::fdm::environment::Environment;
use crate::fdm::gravity;
use crate::fdm::landing_gear;
use crate::fdm::landing_gear::LegMeasure;
use crate::fdm::state;
use crate::fdm::state::{LocalFrame, RigidBodyState, StateDerivative};
use crate::norm;
use crate::rotation::DVec4;
use crate::vector::DVec3;
use vstd::prelude::*;

verus! {

/// The most parts that a step is cut into, so that a broken aircraft does not
/// eat up the time of a frame.
pub const MAX_SUBSTEPS: u32 = 8;

pub open spec fn spec_recommended_fixed_dt() -> Binary64 {
    Binary64::of(1) / Binary64::of(120)
}

/// The step to go by, in seconds.
#[verifier::when_used_as_spec(spec_recommended_fixed_dt)]
pub fn recommended_fixed_dt() -> (r: Binary64)
    ensures
        r == recommended_fixed_dt(),
{
    Binary64::of(1) / Binary64::of(120)
}

pub open spec fn spec_max_rotation_per_substep() -> Binary64 {
    Binary64::ratio(5, 100)
}

/// How far an aircraft may turn in a part of a step, in radians.
#[verifier::when_used_as_spec(spec_max_rotation_per_substep)]
pub fn max_rotation_per_substep() -> (r: Binary64)
    ensures
        r == max_rotation_per_substep(),
{
    Binary64::ratio(5, 100)
}

/// What comes in from outside for a state.
#[derive(Clone, Copy, PartialEq, Eq, Debug, Structural)]
pub struct Measures {
    /// Its height over the ellipsoid, in metres.
    pub altitude: Binary64,
    /// The sine of its latitude.
    pub sin_latitude: Binary64,
    /// North, east and down there.
    pub frame: LocalFrame,
    /// North, east and down where the ground is known.
    pub ground_frame: LocalFrame,
    /// What the pressure law of its height comes to.
    pub pressure_factor: Binary64,
    /// What the angles of its airspeed come to.
    pub angle_of_attack: Binary64,
    pub sideslip: Binary64,
    /// The sine and cosine of the angle of attack that is used.
    pub attack: SinCos,
    /// The exponentials that the stall blend wants.
    pub falling_decay: Binary64,
    pub rising_decay: Binary64,
    /// The legs, nose, left and right.
    pub nose: LegMeasure,
    pub left: LegMeasure,
    pub right: LegMeasure,
}

pub open spec fn spec_body_airspeed(state: RigidBodyState, environment: Environment) -> DVec3 {
    state.orientation.inverse().rotate(state.velocity.minus(environment.wind_ecef))
}

/// The airspeed along the body axes: velocity less wind.
#[verifier::when_used_as_spec(spec_body_airspeed)]
pub fn body_airspeed(state: RigidBodyState, environment: Environment) -> (r: DVec3)
    ensures
        r == body_airspeed(state, environment),
{
    state.orientation.inverse().rotate(state.velocity.minus(environment.wind_ecef))
}

/// The air at the state's height.
pub open spec fn air_spec(environment: Environment, measures: Measures) -> AtmosphereSample {
    let h = atmosphere::model_height(measures.altitude);
    let layer = atmosphere::layer_from(0, h);
    atmosphere::sample_spec(
        layer,
        atmosphere::layer_temperature(layer, h),
        environment.atmosphere.temperature_offset,
        measures.pressure_factor,
    )
}

/// The angles at which air meets the aircraft.
pub open spec fn flow_spec(
    state: RigidBodyState,
    environment: Environment,
    measures: Measures,
) -> AeroAngles {
    aero::angles_spec(
        body_airspeed(state, environment),
        measures.angle_of_attack,
        measures.sideslip,
    )
}

/// The force and moment of the air.
pub open spec fn air_loads_spec(
    config: AircraftConfig,
    state: RigidBodyState,
    controls: ControlInputs,
    environment: Environment,
    measures: Measures,
) -> BodyLoads {
    let angles = flow_spec(state, environment, measures);
    let sigma = aero::stall_spec(
        angles.angle_of_attack,
        config.aero.stall_angle,
        config.aero.stall_blend_rate,
        measures.falling_decay,
        measures.rising_decay,
    );
    aero::body_force_and_moment(
        config.aero,
        config.geometry,
        angles,
        measures.attack,
        sigma,
        state.angular_velocity,
        aero::Surfaces {
            aileron: controls.aileron(),
            elevator: controls.elevator(),
            rudder: controls.rudder(),
            flaps: controls.flaps(),
        },
        air_spec(environment, measures).density,
    )
}

/// All force and moment along the body axes but gravity: air, engine, ground.
pub open spec fn all_loads_spec(
    config: AircraftConfig,
    state: RigidBodyState,
    controls: ControlInputs,
    environment: Environment,
    measures: Measures,
) -> BodyLoads {
    let air = air_loads_spec(config, state, controls, environment, measures);
    let thrust = config.engine.thrust_spec(
        controls.throttle(),
        flow_spec(state, environment, measures).true_airspeed,
        air_spec(environment, measures).density_ratio(),
    );
    let ground = landing_gear::loads_spec(
        config.landing_gear,
        state,
        controls.brakes(),
        environment,
        measures.ground_frame,
        seq![measures.nose, measures.left, measures.right],
    );
    BodyLoads {
        force: air.force.plus(landing_gear::forward_axis().scaled(thrust)).plus(ground.force),
        moment: air.moment.plus(ground.moment),
    }
}

/// The rate of change under loads: Newton's law with gravity, and Euler's
/// equation with the gyroscopic term.
pub open spec fn motion_spec(
    config: AircraftConfig,
    state: RigidBodyState,
    loads: BodyLoads,
    measures: Measures,
) -> StateDerivative {
    let mass = config.mass_properties;
    let momentum = mass.inertia.apply(state.angular_velocity);
    StateDerivative {
        velocity: state.velocity,
        acceleration: state.orientation.rotate(loads.force.divided(mass.mass)).plus(
            gravity::acceleration_ecef(
                measures.sin_latitude,
                measures.altitude,
                measures.frame.up(),
            ),
        ),
        orientation_rate: state::orientation_rate(state.orientation, state.angular_velocity),
        angular_acceleration: mass.inverse_inertia.apply(
            loads.moment.minus(state.angular_velocity.cross(momentum)),
        ),
    }
}

/// The rate of change of a state.
pub open spec fn derivative_spec(
    config: AircraftConfig,
    state: RigidBodyState,
    controls: ControlInputs,
    environment: Environment,
    measures: Measures,
) -> StateDerivative {
    motion_spec(
        config,
        state,
        all_loads_spec(config, state, controls, environment, measures),
        measures,
    )
}

/// The rate of change of a state, from the measures that were taken of it.
pub fn derivative(
    config: &AircraftConfig,
    state: &RigidBodyState,
    controls: ControlInputs,
    environment: &Environment,
    measures: &Measures,
) -> (r: StateDerivative)
    requires
        config.landing_gear.well_formed(),
    ensures
        r == derivative_spec(*config, *state, controls, *environment, *measures),
{
    let air = environment.atmosphere.sample(measures.altitude, measures.pressure_factor);
    let airspeed = body_airspeed(*state, *environment);
    let angles = aero::aero_angles(airspeed, measures.angle_of_attack, measures.sideslip);
    let sigma = aero::stall_blend(
        angles.angle_of_attack,
        config.aero.stall_angle,
        config.aero.stall_blend_rate,
        measures.falling_decay,
        measures.rising_decay,
    );
    let air_loads = aero::body_force_and_moment(
        config.aero,
        config.geometry,
        angles,
        measures.attack,
        sigma,
        state.angular_velocity,
        aero::surfaces_of(controls),
        air.density,
    );
    let thrust = config.engine.thrust(
        controls.throttle(),
        angles.true_airspeed,
        air.density_ratio(),
    );
    let legs = [measures.nose, measures.left, measures.right];
    assert(legs@ =~= seq![measures.nose, measures.left, measures.right]);
    let ground = landing_gear::loads(
        &config.landing_gear,
        state,
        controls.brakes(),
        environment,
        measures.ground_frame,
        legs,
    );
    let force = air_loads.force.plus(landing_gear::forward_axis().scaled(thrust)).plus(
        ground.force,
    );
    let moment = air_loads.moment.plus(ground.moment);
    let mass = config.mass_properties;
    let acceleration = state.orientation.rotate(force.divided(mass.mass)).plus(
        gravity::acceleration_ecef(
            measures.sin_latitude,
            measures.altitude,
            measures.frame.up(),
        ),
    );
    let momentum = mass.inertia.apply(state.angular_velocity);
    StateDerivative {
        velocity: state.velocity,
        acceleration,
        orientation_rate: state::orientation_rate(state.orientation, state.angular_velocity),
        angular_acceleration: mass.inverse_inertia.apply(
            moment.minus(state.angular_velocity.cross(momentum)),
        ),
    }
}

/// The four rates weighed together: the middle ones twice.
pub open spec fn weighted_spec(
    k1: StateDerivative,
    k2: StateDerivative,
    k3: StateDerivative,
    k4: StateDerivative,
) -> StateDerivative {
    let two = Binary64::of(2);
    k1.plus(k2.scaled(two)).plus(k3.scaled(two)).plus(k4).scaled(Binary64::of(1) / Binary64::of(6))
}

/// Where the step goes from the four rates.
pub open spec fn rk4_result(
    start: RigidBodyState,
    h: Binary64,
    k1: StateDerivative,
    k2: StateDerivative,
    k3: StateDerivative,
    k4: StateDerivative,
) -> RigidBodyState {
    state::offset(start, weighted_spec(k1, k2, k3, k4), h)
}

/// A step of the classic fourth-order method while it goes on: how many rates
/// are in, and what they are.
#[derive(Clone, Copy, PartialEq, Eq, Debug, Structural)]
pub struct RungeKutta {
    pub start: RigidBodyState,
    pub h: Binary64,
    pub rates: u8,
    pub k1: StateDerivative,
    pub k2: StateDerivative,
    pub k3: StateDerivative,
}

impl RungeKutta {
    /// The state whose rate is wanted next: the start, twice the middle, then
    /// the end.
    pub open spec fn spec_point(self) -> RigidBodyState {
        let half = self.h * Binary64::ratio(1, 2);
        if self.rates == 0 {
            self.start
        } else if self.rates == 1 {
            state::offset(self.start, self.k1, half)
        } else if self.rates == 2 {
            state::offset(self.start, self.k2, half)
        } else {
            state::offset(self.start, self.k3, self.h)
        }
    }

    /// The step before any rate is in.
    pub open spec fn spec_new(start: RigidBodyState, h: Binary64) -> RungeKutta {
        let none = StateDerivative::zero();
        RungeKutta { start, h, rates: 0, k1: none, k2: none, k3: none }
    }

    /// The step before any rate is in.
    #[verifier::when_used_as_spec(spec_new)]
    pub fn new(start: RigidBodyState, h: Binary64) -> (r: RungeKutta)
        ensures
            r == RungeKutta::new(start, h),
    {
        let none = StateDerivative::zero();
        RungeKutta { start, h, rates: 0, k1: none, k2: none, k3: none }
    }

    /// The state whose rate is wanted next.
    pub fn point(&self) -> (r: RigidBodyState)
        ensures
            r == self.spec_point(),
    {
        let half = self.h * Binary64::ratio(1, 2);
        if self.rates == 0 {
            self.start
        } else if self.rates == 1 {
            state::offset(self.start, self.k1, half)
        } else if self.rates == 2 {
            state::offset(self.start, self.k2, half)
        } else {
            state::offset(self.start, self.k3, self.h)
        }
    }

    /// The step with one more rate in.
    pub open spec fn fed(self, rate: StateDerivative) -> RungeKutta {
        if self.rates == 0 {
            RungeKutta { rates: 1, k1: rate, ..self }
        } else if self.rates == 1 {
            RungeKutta { rates: 2, k2: rate, ..self }
        } else if self.rates == 2 {
            RungeKutta { rates: 3, k3: rate, ..self }
        } else {
            self
        }
    }

    /// Takes the rate at the wanted state; the fourth gives the result.
    pub fn feed(&mut self, rate: StateDerivative) -> (r: Option<RigidBodyState>)
        ensures
            *final(self) == old(self).fed(rate),
            r == if old(self).rates < 3 {
                None
            } else {
                Some(
                    rk4_result(
                        old(self).start,
                        old(self).h,
                        old(self).k1,
                        old(self).k2,
                        old(self).k3,
                        rate,
                    ),
                )
            },
    {
        if self.rates == 0 {
            self.k1 = rate;
            self.rates = 1;
            None
        } else if self.rates == 1 {
            self.k2 = rate;
            self.rates = 2;
            None
        } else if self.rates == 2 {
            self.k3 = rate;
            self.rates = 3;
            None
        } else {
            let two = Binary64::of(2);
            let weighted = self.k1.plus(self.k2.scaled(two)).plus(self.k3.scaled(two)).plus(
                rate,
            ).scaled(Binary64::of(1) / Binary64::of(6));
            Some(state::offset(self.start, weighted, self.h))
        }
    }
}

/// Feeding the four rates in turn gives the step of the fourth-order method.
pub proof fn four_rates_make_a_step(
    start: RungeKutta,
    k1: StateDerivative,
    k2: StateDerivative,
    k3: StateDerivative,
    k4: StateDerivative,
)
    requires
        start.rates == 0,
    ensures
        ({
            let half = start.h * Binary64::ratio(1, 2);
            let third = start.fed(k1).fed(k2).fed(k3);
            &&& start.spec_point() == start.start
            &&& start.fed(k1).spec_point() == state::offset(start.start, k1, half)
            &&& start.fed(k1).fed(k2).spec_point() == state::offset(start.start, k2, half)
            &&& third.spec_point() == state::offset(start.start, k3, start.h)
            &&& third.rates == 3
            &&& rk4_result(third.start, third.h, third.k1, third.k2, third.k3, k4) == rk4_result(
                start.start,
                start.h,
                k1,
                k2,
                k3,
                k4,
            )
        }),
{
}

/// What the turn changes to within a part of a step, before it is brought to
/// length one.
pub open spec fn turn_reached(
    start: RigidBodyState,
    h: Binary64,
    k1: StateDerivative,
    k2: StateDerivative,
    k3: StateDerivative,
    k4: StateDerivative,
) -> DVec4 {
    start.orientation.to_vec4().plus(weighted_spec(k1, k2, k3, k4).orientation_rate.scaled(h))
}

/// A part of a step leaves the turn at length one but for rounding, however it
/// changes within it, as long as it changes to something of a length.
pub proof fn a_step_keeps_the_turn_at_length_one(
    start: RigidBodyState,
    h: Binary64,
    k1: StateDerivative,
    k2: StateDerivative,
    k3: StateDerivative,
    k4: StateDerivative,
)
    requires
        norm::ordinary(turn_reached(start, h, k1, k2, k3, k4)),
    ensures
        norm::near_unit(rk4_result(start, h, k1, k2, k3, k4).orientation.to_vec4()),
{
    state::a_changing_turn_keeps_length_one(start, weighted_spec(k1, k2, k3, k4), h);
}

/// A step of the simulation while it goes on: parts of equal length, each a
/// step of the fourth-order method from where the one before it ended.
#[derive(Clone, Copy, PartialEq, Eq, Debug, Structural)]
pub struct FlightStep {
    /// The parts that are not done, the one going on counted.
    pub parts_left: u32,
    /// How long each part is.
    pub h: Binary64,
    pub method: RungeKutta,
}

impl FlightStep {
    /// A step of so many parts from a state.
    pub open spec fn spec_new(state: RigidBodyState, dt: Binary64, parts: u32) -> FlightStep {
        let h = FlightDynamics::substep_length(dt, parts);
        FlightStep { parts_left: parts, h, method: RungeKutta::new(state, h) }
    }

    /// A step of so many parts from a state.
    #[verifier::when_used_as_spec(spec_new)]
    pub fn new(state: RigidBodyState, dt: Binary64, parts: u32) -> (r: FlightStep)
        ensures
            r == FlightStep::new(state, dt, parts),
    {
        let h = FlightDynamics::substep_length(dt, parts);
        FlightStep { parts_left: parts, h, method: RungeKutta::new(state, h) }
    }

    /// The step with one more rate in: the fourth rate of a part ends it.
    pub open spec fn fed(self, rate: StateDerivative) -> FlightStep {
        let m = self.method;
        if m.rates < 3 {
            FlightStep { method: m.fed(rate), ..self }
        } else {
            FlightStep {
                parts_left: (self.parts_left - 1) as u32,
                h: self.h,
                method: RungeKutta::new(
                    rk4_result(m.start, m.h, m.k1, m.k2, m.k3, rate),
                    self.h,
                ),
            }
        }
    }

    /// The state whose rate is wanted next; none where the step is over.
    pub fn wanted(&self) -> (r: Option<RigidBodyState>)
        ensures
            r == if self.parts_left > 0 {
                Some(self.method.spec_point())
            } else {
                None
            },
    {
        if self.parts_left > 0 {
            Some(self.method.point())
        } else {
            None
        }
    }

    /// Takes the rate at the wanted state.
    pub fn feed(&mut self, rate: StateDerivative)
        requires
            old(self).parts_left > 0,
        ensures
            *final(self) == old(self).fed(rate),
    {
        if let Some(next) = self.method.feed(rate) {
            self.parts_left = self.parts_left - 1;
            self.method = RungeKutta::new(next, self.h);
        }
    }
}

/// One part of a step, with the rates that a law gives.
pub open spec fn part_flown(
    law: spec_fn(RigidBodyState) -> StateDerivative,
    start: RigidBodyState,
    h: Binary64,
) -> RigidBodyState {
    let half = h * Binary64::ratio(1, 2);
    let k1 = law(start);
    let k2 = law(state::offset(start, k1, half));
    let k3 = law(state::offset(start, k2, half));
    let k4 = law(state::offset(start, k3, h));
    rk4_result(start, h, k1, k2, k3, k4)
}

/// So many parts of a step, one after the other.
pub open spec fn parts_flown(
    law: spec_fn(RigidBodyState) -> StateDerivative,
    start: RigidBodyState,
    h: Binary64,
    parts: nat,
) -> RigidBodyState
    decreases parts,
{
    if parts == 0 {
        start
    } else {
        parts_flown(law, part_flown(law, start, h), h, (parts - 1) as nat)
    }
}

/// The step once it has been fed so often, each time with the rate of the
/// state that it wants.
pub open spec fn fed_by(
    law: spec_fn(RigidBodyState) -> StateDerivative,
    step: FlightStep,
    times: nat,
) -> FlightStep
    decreases times,
{
    if times == 0 {
        step
    } else {
        fed_by(law, step.fed(law(step.method.spec_point())), (times - 1) as nat)
    }
}

/// A step is over after four rates for each part, and has then flown all its
/// parts: where it ends depends on its start, the length and number of its
/// parts and the law alone.
pub proof fn a_step_flies_its_parts(
    law: spec_fn(RigidBodyState) -> StateDerivative,
    step: FlightStep,
)
    requires
        step.method == RungeKutta::new(step.method.start, step.h),
    ensures
        ({
            let done = fed_by(law, step, 4 * step.parts_left as nat);
            &&& done.parts_left == 0
            &&& done.h == step.h
            &&& done.method.start == parts_flown(
                law,
                step.method.start,
                step.h,
                step.parts_left as nat,
            )
        }),
    decreases step.parts_left,
{
    if step.parts_left > 0 {
        let one = step.fed(law(step.method.spec_point()));
        let two = one.fed(law(one.method.spec_point()));
        let three = two.fed(law(two.method.spec_point()));
        let four = three.fed(law(three.method.spec_point()));
        let times = 4 * step.parts_left as nat;
        assert(fed_by(law, step, times) == fed_by(law, one, (times - 1) as nat));
        assert(fed_by(law, one, (times - 1) as nat) == fed_by(law, two, (times - 2) as nat));
        assert(fed_by(law, two, (times - 2) as nat) == fed_by(law, three, (times - 3) as nat));
        assert(fed_by(law, three, (times - 3) as nat) == fed_by(law, four, (times - 4) as nat));
        assert(four.method.start == part_flown(law, step.method.start, step.h));
        a_step_flies_its_parts(law, four);
    }
}

/// What the turn changes to within one part has a length.
pub open spec fn part_can_be_normalised(
    law: spec_fn(RigidBodyState) -> StateDerivative,
    start: RigidBodyState,
    h: Binary64,
) -> bool {
    let half = h * Binary64::ratio(1, 2);
    let k1 = law(start);
    let k2 = law(state::offset(start, k1, half));
    let k3 = law(state::offset(start, k2, half));
    let k4 = law(state::offset(start, k3, h));
    norm::ordinary(turn_reached(start, h, k1, k2, k3, k4))
}

/// What the turn changes to within each of so many parts has a length.
pub open spec fn parts_can_be_normalised(
    law: spec_fn(RigidBodyState) -> StateDerivative,
    start: RigidBodyState,
    h: Binary64,
    parts: nat,
) -> bool
    decreases parts,
{
    parts > 0 ==> part_can_be_normalised(law, start, h) && parts_can_be_normalised(
        law,
        part_flown(law, start, h),
        h,
        (parts - 1) as nat,
    )
}

/// Any number of parts leaves the turn at length one but for rounding, however
/// it changes within each of them, as long as that has a length.
pub proof fn all_parts_keep_the_turn_at_length_one(
    law: spec_fn(RigidBodyState) -> StateDerivative,
    start: RigidBodyState,
    h: Binary64,
    parts: nat,
)
    requires
        norm::near_unit(start.orientation.to_vec4()),
        parts_can_be_normalised(law, start, h, parts),
    ensures
        norm::near_unit(parts_flown(law, start, h, parts).orientation.to_vec4()),
    decreases parts,
{
    if parts > 0 {
        let half = h * Binary64::ratio(1, 2);
        let k1 = law(start);
        let k2 = law(state::offset(start, k1, half));
        let k3 = law(state::offset(start, k2, half));
        let k4 = law(state::offset(start, k3, h));
        a_step_keeps_the_turn_at_length_one(start, h, k1, k2, k3, k4);
        all_parts_keep_the_turn_at_length_one(
            law,
            part_flown(law, start, h),
            h,
            (parts - 1) as nat,
        );
    }
}

/// The parts that turning alone asks for.
pub open spec fn rotation_parts(state: RigidBodyState, dt: Binary64) -> Binary64 {
    let rotation = state.angular_velocity.length() * dt;
    if rotation.is_finite() {
        (rotation / max_rotation_per_substep()).ceil().max(Binary64::of(1))
    } else {
        Binary64::of(1)
    }
}

/// The parts that the gear alone asks for.
pub open spec fn gear_parts(
    config: AircraftConfig,
    state: RigidBodyState,
    environment: Environment,
    ground_frame: LocalFrame,
    altitudes: Seq<Binary64>,
    dt: Binary64,
) -> Binary64 {
    if landing_gear::contact_spec(
        config.landing_gear,
        state,
        environment,
        ground_frame,
        altitudes,
        dt,
    ) {
        (landing_gear::maximum_natural_frequency(
            config.landing_gear,
            config.mass_properties,
            state,
            environment,
            ground_frame,
        ) * dt / landing_gear::max_gear_phase_per_substep()).ceil().max(Binary64::of(1))
    } else {
        Binary64::of(1)
    }
}

/// How many parts two demands come to.
pub open spec fn parts_spec(rotation: Binary64, gear: Binary64) -> u32 {
    rotation.max(gear).clamp(Binary64::of(1), Binary64::of(8)).to_integer(0, i64::MAX) as u32
}

/// The model of one aircraft.
pub struct FlightDynamics {
    pub config: AircraftConfig,
    pub state: RigidBodyState,
}

impl FlightDynamics {
    pub fn new(config: AircraftConfig, state: RigidBodyState) -> (r: FlightDynamics)
        ensures
            r.config == config,
            r.state == state,
    {
        FlightDynamics { config, state }
    }

    pub fn state(&self) -> (r: RigidBodyState)
        ensures
            r == self.state,
    {
        self.state
    }

    pub fn config(&self) -> (r: &AircraftConfig)
        ensures
            *r == self.config,
    {
        &self.config
    }

    /// Puts another state in place, as for a replay.
    pub fn set_state(&mut self, state: RigidBodyState)
        ensures
            final(self).state == state,
            final(self).config == old(self).config,
    {
        self.state = state;
    }

    /// How many parts a step is cut into: more where the aircraft turns fast or
    /// its stiff gear touches. `altitudes` are the heights of the contact
    /// points of nose, left and right leg.
    pub fn required_substeps(
        &self,
        dt: Binary64,
        environment: &Environment,
        ground_frame: LocalFrame,
        altitudes: [Binary64; 3],
    ) -> (r: u32)
        ensures
            r == parts_spec(
                rotation_parts(self.state, dt),
                gear_parts(
                    self.config,
                    self.state,
                    *environment,
                    ground_frame,
                    altitudes@,
                    dt,
                ),
            ),
            1 <= r <= MAX_SUBSTEPS,
    {
        let one = Binary64::of(1);
        let eight = Binary64::of(8);
        let rotation = self.state.angular_velocity.length() * dt;
        let rotation_substeps = if rotation.is_finite() {
            (rotation / max_rotation_per_substep()).ceil().max(one)
        } else {
            one
        };
        let gear_substeps = if landing_gear::contact_is_active_or_imminent(
            &self.config.landing_gear,
            &self.state,
            environment,
            ground_frame,
            altitudes,
            dt,
        ) {
            let frequency = landing_gear::maximum_natural_frequency(
                self.config.landing_gear,
                self.config.mass_properties,
                self.state,
                *environment,
                ground_frame,
            );
            (frequency * dt / landing_gear::max_gear_phase_per_substep()).ceil().max(one)
        } else {
            one
        };
        proof {
            binary64::lemma_of(1);
            let turns = (rotation / max_rotation_per_substep()).ceil();
            binary64::lemma_order(turns, one);
            binary64::lemma_order(one, turns);
            binary64::lemma_order(one, one);
            a_step_has_between_one_and_eight_parts(
                rotation_parts(self.state, dt),
                gear_substeps,
            );
        }
        rotation_substeps.max(gear_substeps).clamp(one, eight).to_integer(0, i64::MAX) as u32
    }

    /// Begins a step of `dt` seconds, in as many parts as it needs.
    pub fn begin_step(
        &self,
        dt: Binary64,
        environment: &Environment,
        ground_frame: LocalFrame,
        altitudes: [Binary64; 3],
    ) -> (r: FlightStep)
        ensures
            r == FlightStep::new(
                self.state,
                dt,
                parts_spec(
                    rotation_parts(self.state, dt),
                    gear_parts(
                        self.config,
                        self.state,
                        *environment,
                        ground_frame,
                        altitudes@,
                        dt,
                    ),
                ),
            ),
            1 <= r.parts_left <= MAX_SUBSTEPS,
    {
        let parts = self.required_substeps(dt, environment, ground_frame, altitudes);
        FlightStep::new(self.state, dt, parts)
    }

    /// Goes on with a step, given what is measured at the state that it wants.
    /// The aircraft is where the parts that are done have brought it.
    pub fn feed(
        &mut self,
        step: &mut FlightStep,
        controls: ControlInputs,
        environment: &Environment,
        measures: &Measures,
    )
        requires
            old(self).config.landing_gear.well_formed(),
            old(step).parts_left > 0,
        ensures
            *final(step) == old(step).fed(
                derivative_spec(
                    old(self).config,
                    old(step).method.spec_point(),
                    controls,
                    *environment,
                    *measures,
                ),
            ),
            final(self).state == final(step).method.start,
            final(self).config == old(self).config,
    {
        let point = step.method.point();
        let rate = derivative(&self.config, &point, controls, environment, measures);
        step.feed(rate);
        self.state = step.method.start;
    }

    pub open spec fn spec_substep_length(dt: Binary64, parts: u32) -> Binary64 {
        dt / Binary64::of(parts as i64)
    }

    /// How long each of so many parts of a step is.
    #[verifier::when_used_as_spec(spec_substep_length)]
    pub fn substep_length(dt: Binary64, parts: u32) -> (r: Binary64)
        ensures
            r == FlightDynamics::substep_length(dt, parts),
    {
        dt / Binary64::of(parts as i64)
    }
}

/// Demands of at least one part each come to between one and eight parts, even
/// where a demand is infinite.
pub proof fn a_step_has_between_one_and_eight_parts(rotation: Binary64, gear: Binary64)
    requires
        rotation >= Binary64::of(1),
    ensures
        1 <= parts_spec(rotation, gear) <= 8,
        Binary64::of(1) <= Binary64::of(8),
{
    let one = Binary64::of(1);
    let eight = Binary64::of(8);
    let o = Binary64::one();
    binary64::lemma_of(1);
    binary64::lemma_of(8);
    assert(o <= 8 * o) by (nonlinear_arith)
        requires
            o > 0,
    ;
    binary64::lemma_order(one, eight);
    binary64::lemma_order(one, rotation);
    binary64::lemma_order(rotation, gear);
    binary64::lemma_order(gear, rotation);
    let most = rotation.max(gear);
    binary64::lemma_order(most, one);
    binary64::lemma_order(eight, most);
    let held = most.clamp(one, eight);
    binary64::lemma_finite_below(held, eight);
    binary64::lemma_to_integer(held, 1, 8);
}

} // verus!
