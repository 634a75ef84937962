//! How a body is moved: by all the forces on it, against its mass, and by
//! gravity.
use crate::binary64;
use crate::binary64::Binary64;
use crate::fdm::aero::BodyLoads;
use crate::fdm::aircraft::AircraftConfig;
use crate::fdm::cone;
use crate::fdm::controls::ControlInputs;
use crate::fdm::dynamics;
use crate::fdm::dynamics::Measures;
use crate::fdm::environment::Environment;
use crate::fdm::gravity;
use crate::fdm::landing_gear;
use crate::fdm::spin;
use crate::fdm::state::RigidBodyState;
use crate::inverse;
use crate::norm;
use crate::number;
use crate::rotation::DQuat;
use crate::track;
use crate::vector::DVec3;
use vstd::arithmetic::power2::*;
use vstd::prelude::*;

verus! {

/// One axis of a moved body.
proof fn lemma_moved(turned: Binary64, exact: int, pull: Binary64, scale: int, h: nat)
    requires
        track::tracked_by(turned, exact, scale, h + 14, 47),
        pull.is_finite(),
        number::magnitude_of(pull.value()) <= pow2(h),
        100 <= h <= 1800,
    ensures
        ({
            let r = turned + pull;
            &&& r.is_finite()
            &&& -(pow2(h) * scale) <= 0x80000000 * (r.value() * scale - pull.value() * scale - exact)
                <= pow2(h) * scale
        }),
{
    let s = scale;
    let v = pull.value();
    lemma_pow2_strictly_increases(h, h + 14);
    spin::lemma_scaled_itself(pull, s, h + 14, 47);
    track::lemma_plus(turned, pull, exact, v * s, s, h + 14, 47);
    lemma_pow2_adds(h, 16);
    lemma2_to64();
    lemma2_to64_rest();
    let r = (turned + pull).value();
    let e = r * s - (exact + v * s);
    let p = pow2(h) as int;
    assert(pow2(h + 16) * s == 0x10000 * (p * s)) by (nonlinear_arith)
        requires
            pow2(h + 16) == p * 0x10000,
    ;
    assert(-(0x10000 * (p * s)) <= 0x800000000000 * e <= 0x10000 * (p * s));
}

/// Newton's law: the mass times the acceleration beyond gravity is the force on
/// the body, turned from its axes to the earth's, along every axis and but for
/// rounding.
pub proof fn force_is_mass_times_acceleration(
    config: AircraftConfig,
    state: RigidBodyState,
    loads: BodyLoads,
    measures: Measures,
    power: nat,
    most: nat,
    axis: int,
)
    requires
        norm::near_unit(state.orientation.to_vec4()),
        inverse::at_most(loads.force, power),
        config.mass_properties.mass.is_finite(),
        config.mass_properties.mass.value() > 0,
        100 <= most <= 1800,
        2 * (pow2(power) * Binary64::one()) <= pow2(most) * config.mass_properties.mass.value(),
        inverse::at_most(
            gravity::acceleration_ecef(
                measures.sin_latitude,
                measures.altitude,
                measures.frame.up(),
            ),
            most,
        ),
        0 <= axis < 3,
    ensures
        ({
            let o = Binary64::one() as int;
            let f = loads.force;
            let mass = config.mass_properties.mass.value();
            let pulled = gravity::acceleration_ecef(
                measures.sin_latitude,
                measures.altitude,
                measures.frame.up(),
            );
            let moved = dynamics::motion_spec(config, state, loads, measures).acceleration;
            let pushed = cone::turned(
                state.orientation,
                f.x.value(),
                f.y.value(),
                f.z.value(),
                axis,
            );
            let beyond = inverse::along(moved, axis) - inverse::along(pulled, axis);
            let off = (mass * beyond) * (o * o) - pushed * o;
            &&& moved.is_finite()
            &&& -(pow2(most) * (o * (o * mass))) <= 0x80000000 * off <= pow2(most) * (o * (o * mass))
        }),
{
    let o = Binary64::one() as int;
    let q = state.orientation;
    let f = loads.force;
    let m = config.mass_properties.mass;
    let mass = m.value();
    let g = gravity::acceleration_ecef(measures.sin_latitude, measures.altitude, measures.frame.up());
    let share = f.divided(m);
    let s = o * (o * mass);
    cone::lemma_turn_of_length_one(q);
    track::lemma_itself(f.x, power, 51);
    track::lemma_itself(f.y, power, 51);
    track::lemma_itself(f.z, power, 51);
    let (x, y, z) = (f.x.value(), f.y.value(), f.z.value());
    track::lemma_over(f.x, m, x, 1, power, most, 51);
    track::lemma_over(f.y, m, y, 1, power, most, 51);
    track::lemma_over(f.z, m, z, 1, power, most, 51);
    assert(1 * mass == mass);
    cone::lemma_turn(q, share, x * o, y * o, z * o, mass, most);
    cone::lemma_turned_multiple(q, x, y, z, o, 0);
    cone::lemma_turned_multiple(q, x, y, z, o, 1);
    cone::lemma_turned_multiple(q, x, y, z, o, 2);
    let turned = q.rotate(share);
    let (a, b, c) = (
        cone::turned(q, x, y, z, 0),
        cone::turned(q, x, y, z, 1),
        cone::turned(q, x, y, z, 2),
    );
    lemma_moved(turned.x, o * a, g.x, s, most);
    lemma_moved(turned.y, o * b, g.y, s, most);
    lemma_moved(turned.z, o * c, g.z, s, most);
    let r = turned.plus(g);
    lemma_beyond(r.x.value(), g.x.value(), a, mass, o, s);
    lemma_beyond(r.y.value(), g.y.value(), b, mass, o, s);
    lemma_beyond(r.z.value(), g.z.value(), c, mass, o, s);
}

proof fn lemma_beyond(r: int, g: int, a: int, mass: int, o: int, s: int)
    requires
        s == o * (o * mass),
    ensures
        (mass * (r - g)) * (o * o) - a * o == r * s - g * s - o * a,
{
    let d = r - g;
    assert((mass * d) * (o * o) == d * (o * (o * mass))) by (nonlinear_arith);
    assert(d * s == r * s - g * s) by (nonlinear_arith)
        requires
            d == r - g,
    ;
    assert(a * o == o * a) by (nonlinear_arith);
}

/// What the body sees of an earth-fixed vector along one of its axes, without
/// rounding: its product with that axis as the attitude turns it.
pub open spec fn seen(q: DQuat, x: int, y: int, z: int, axis: int) -> int {
    let (i, j, k) = if axis == 0 {
        (1int, 0int, 0int)
    } else if axis == 1 {
        (0int, 1int, 0int)
    } else {
        (0int, 0int, 1int)
    };
    x * cone::turned(q, i, j, k, 0) + y * cone::turned(q, i, j, k, 1) + z * cone::turned(
        q,
        i,
        j,
        k,
        2,
    )
}

/// Turning back gives what the axes see.
pub proof fn lemma_seen(q: DQuat, x: int, y: int, z: int, axis: int)
    requires
        0 <= axis < 3,
        q.x.is_finite() && q.y.is_finite() && q.z.is_finite(),
    ensures
        cone::turned(q.inverse(), x, y, z, axis) == seen(q, x, y, z, axis),
{
    let (a, b, c, w) = (q.x.value(), q.y.value(), q.z.value(), q.w.value());
    binary64::lemma_negate(q.x);
    binary64::lemma_negate(q.y);
    binary64::lemma_negate(q.z);
    let keep = w * w - (a * a + b * b + c * c);
    assert((-a) * (-a) == a * a && (-b) * (-b) == b * b && (-c) * (-c) == c * c)
        by (nonlinear_arith);
    assert(x * (-a) == -(x * a) && y * (-b) == -(y * b) && z * (-c) == -(z * c)) by (nonlinear_arith);
    let s = x * a + y * b + z * c;
    assert(2 * (x * (-a) + y * (-b) + z * (-c)) == -(2 * s));
    assert(1 * a == a && 0 * a == 0 && 1 * b == b && 0 * b == 0 && 1 * c == c && 0 * c == 0);
    if axis == 0 {
        lemma_seen_axis(x, y, z, a, b, c, w, keep, s);
    } else if axis == 1 {
        assert(s == y * b + z * c + x * a);
        lemma_seen_axis(y, z, x, b, c, a, w, keep, s);
    } else {
        assert(s == z * c + x * a + y * b);
        lemma_seen_axis(z, x, y, c, a, b, w, keep, s);
    }
}

proof fn lemma_seen_axis(x: int, y: int, z: int, a: int, b: int, c: int, w: int, keep: int, s: int)
    requires
        s == x * a + y * b + z * c,
    ensures
        x * keep + (-a) * (-(2 * s)) + ((-b) * z - y * (-c)) * (2 * w) == x * (keep + a * (2 * a)
            + (b * 0 - 0 * c) * (2 * w)) + y * (0 * keep + b * (2 * a) + (c * 1 - 0 * a) * (2 * w))
            + z * (0 * keep + c * (2 * a) + (a * 0 - 1 * b) * (2 * w)),
        x * (1 * keep + a * (2 * a) + (b * 0 - 0 * c) * (2 * w)) == x * (keep + a * (2 * a) + (b * 0
            - 0 * c) * (2 * w)),
{
    let n = 2 * w;
    assert((-a) * (-(2 * s)) == 2 * (a * s)) by (nonlinear_arith);
    assert(((-b) * z - y * (-c)) * n == (y * c) * n - (z * b) * n) by (nonlinear_arith);
    assert(b * 0 == 0 && 0 * c == 0 && 0 * n == 0 && 0 * keep == 0 && a * 0 == 0 && 1 * b == b && 0
        * a == 0 && c * 1 == c);
    assert(x * (keep + a * (2 * a) + 0) == x * keep + 2 * (a * (x * a))) by (nonlinear_arith);
    assert(y * (0 + b * (2 * a) + c * n) == 2 * (a * (y * b)) + (y * c) * n) by (nonlinear_arith);
    assert(z * (0 + c * (2 * a) + (-b) * n) == 2 * (a * (z * c)) - (z * b) * n) by (nonlinear_arith);
    let (p, q, r) = (x * a, y * b, z * c);
    assert(a * (p + q + r) == a * p + a * q + a * r) by (nonlinear_arith);
}

/// The airspeed along a body axis is what that axis sees of the velocity less
/// the wind, but for rounding.
pub proof fn the_airspeed_is_the_velocity_less_the_wind(
    state: RigidBodyState,
    environment: Environment,
    power: nat,
    axis: int,
)
    requires
        norm::near_unit(state.orientation.to_vec4()),
        inverse::at_most(state.velocity, power),
        inverse::at_most(environment.wind_ecef, power),
        100 <= power <= 1700,
        0 <= axis < 3,
    ensures
        ({
            let o = Binary64::one() as int;
            let (v, w) = (state.velocity, environment.wind_ecef);
            let felt = dynamics::body_airspeed(state, environment);
            let off = inverse::along(felt, axis) * (o * o) - seen(
                state.orientation,
                v.x.value() - w.x.value(),
                v.y.value() - w.y.value(),
                v.z.value() - w.z.value(),
                axis,
            );
            &&& felt.is_finite()
            &&& -(pow2(power) * (o * o)) <= 0x40000000 * off <= pow2(power) * (o * o)
        }),
{
    let o = Binary64::one() as int;
    let q = state.orientation;
    let (v, w) = (state.velocity, environment.wind_ecef);
    let d = v.minus(w);
    let (x, y, z) = (
        v.x.value() - w.x.value(),
        v.y.value() - w.y.value(),
        v.z.value() - w.z.value(),
    );
    cone::lemma_turn_of_length_one(q);
    lemma_apart(v.x, w.x, power);
    lemma_apart(v.y, w.y, power);
    lemma_apart(v.z, w.z, power);
    cone::lemma_turn(q.inverse(), d, x, y, z, 1, power + 2);
    lemma_seen(q, x, y, z, 0);
    lemma_seen(q, x, y, z, 1);
    lemma_seen(q, x, y, z, 2);
    assert(o * (o * 1) == o * o);
    lemma_pow2_adds(power, 16);
    lemma2_to64();
    lemma2_to64_rest();
    let felt = q.inverse().rotate(d);
    let u = o * o;
    let p = pow2(power) as int;
    assert(pow2(power + 16) * u == 0x10000 * (p * u)) by (nonlinear_arith)
        requires
            pow2(power + 16) == p * 0x10000,
    ;
    lemma_felt(felt.x, seen(q, x, y, z, 0), u, power);
    lemma_felt(felt.y, seen(q, x, y, z, 1), u, power);
    lemma_felt(felt.z, seen(q, x, y, z, 2), u, power);
}

pub proof fn lemma_felt(x: Binary64, exact: int, u: int, power: nat)
    requires
        track::tracked_by(x, exact, u, power + 16, 47),
    ensures
        -(pow2(power) * u) <= 0x40000000 * (x.value() * u - exact) <= pow2(power) * u,
{
    let e = x.value() * u - exact;
    let p = pow2(power) as int;
    lemma_pow2_adds(power, 16);
    lemma2_to64();
    lemma2_to64_rest();
    assert(pow2(power + 16) * u == 0x10000 * (p * u)) by (nonlinear_arith)
        requires
            pow2(power + 16) == p * 0x10000,
    ;
    assert(-(0x10000 * (p * u)) <= 0x800000000000 * e <= 0x10000 * (p * u));
    assert(p * u >= 0) by (nonlinear_arith)
        requires
            p >= 0,
            u > 0,
    ;
}

proof fn lemma_apart(x: Binary64, y: Binary64, power: nat)
    requires
        x.is_finite() && number::magnitude_of(x.value()) <= pow2(power),
        y.is_finite() && number::magnitude_of(y.value()) <= pow2(power),
        100 <= power <= 1700,
    ensures
        track::tracked_by(x - y, x.value() - y.value(), 1, power + 2, 50),
{
    track::lemma_itself(x, power, 50);
    track::lemma_itself(y, power, 50);
    track::lemma_minus(x, y, x.value(), y.value(), 1, power, 50);
}

/// A sum of three, but for rounding.
spec fn sums_to(r: Binary64, exact: int, power: nat) -> bool {
    &&& r.is_finite()
    &&& -pow2(power) <= 0x800000000000 * (r.value() - exact) <= pow2(power)
}

proof fn lemma_three(a: Binary64, b: Binary64, c: Binary64, power: nat)
    requires
        a.is_finite() && number::magnitude_of(a.value()) <= pow2(power),
        b.is_finite() && number::magnitude_of(b.value()) <= pow2(power),
        c.is_finite() && number::magnitude_of(c.value()) <= pow2(power),
        100 <= power <= 1700,
    ensures
        sums_to(a + b + c, a.value() + b.value() + c.value(), power),
{
    track::lemma_itself(a, power, 51);
    track::lemma_itself(b, power, 51);
    lemma_pow2_strictly_increases(power, power + 2);
    track::lemma_itself(c, power + 2, 51);
    track::lemma_plus(a, b, a.value(), b.value(), 1, power, 51);
    track::lemma_plus(a + b, c, a.value() + b.value(), c.value(), 1, power + 2, 51);
    lemma_pow2_adds(power, 4);
    lemma2_to64();
    lemma2_to64_rest();
}

/// Nothing of a finite number.
proof fn lemma_of_nothing(x: Binary64)
    requires
        x.is_finite(),
    ensures
        (Binary64::of(0) * x).is_finite(),
        (Binary64::of(0) * x).value() == 0,
        (Binary64::of(1) * x).is_finite(),
        (Binary64::of(1) * x).value() == x.value(),
{
    let one = Binary64::of(1);
    binary64::lemma_of(0);
    binary64::lemma_of(1);
    binary64::lemma_zero_factor(Binary64::of(0), x);
    assert(one.value() * x.value() == x.value() * Binary64::one()) by (nonlinear_arith)
        requires
            one.value() == Binary64::one(),
    ;
    binary64::lemma_product_between(one, x, x, x);
}

/// All that pushes and turns an aircraft: along the nose the air, the thrust and
/// the ground together, along the other two axes the air and the ground, and
/// about all three the moments of the air and the ground. The engine turns
/// nothing. All but for rounding.
pub proof fn air_engine_and_ground_make_the_loads(
    config: AircraftConfig,
    state: RigidBodyState,
    controls: ControlInputs,
    environment: Environment,
    measures: Measures,
    thrust: Binary64,
    ground: BodyLoads,
    power: nat,
)
    requires
        thrust == config.engine.thrust_spec(
            controls.throttle(),
            dynamics::flow_spec(state, environment, measures).true_airspeed,
            dynamics::air_spec(environment, measures).density_ratio(),
        ),
        ground == landing_gear::loads_spec(
            config.landing_gear,
            state,
            controls.brakes(),
            environment,
            measures.ground_frame,
            seq![measures.nose, measures.left, measures.right],
        ),
        100 <= power <= 1700,
        thrust.is_finite() && number::magnitude_of(thrust.value()) <= pow2(power),
        inverse::at_most(ground.force, power),
        inverse::at_most(ground.moment, power),
        inverse::at_most(
            dynamics::air_loads_spec(config, state, controls, environment, measures).force,
            power,
        ),
        inverse::at_most(
            dynamics::air_loads_spec(config, state, controls, environment, measures).moment,
            power,
        ),
    ensures
        ({
            let air = dynamics::air_loads_spec(config, state, controls, environment, measures);
            let all = dynamics::all_loads_spec(config, state, controls, environment, measures);
            let (a, g) = (air.force, ground.force);
            let (m, n) = (air.moment, ground.moment);
            let near = |x: Binary64, exact: int|
                -pow2(power) <= 0x800000000000 * (x.value() - exact) <= pow2(power);
            &&& near(all.force.x, a.x.value() + thrust.value() + g.x.value())
            &&& near(all.force.y, a.y.value() + g.y.value())
            &&& near(all.force.z, a.z.value() + g.z.value())
            &&& near(all.moment.x, m.x.value() + n.x.value())
            &&& near(all.moment.y, m.y.value() + n.y.value())
            &&& near(all.moment.z, m.z.value() + n.z.value())
        }),
{
    let air = dynamics::air_loads_spec(config, state, controls, environment, measures);
    let (a, g) = (air.force, ground.force);
    let (m, n) = (air.moment, ground.moment);
    lemma_of_nothing(thrust);
    lemma_pow2_pos(power);
    lemma_three(a.x, Binary64::of(1) * thrust, g.x, power);
    lemma_three(a.y, Binary64::of(0) * thrust, g.y, power);
    lemma_three(a.z, Binary64::of(0) * thrust, g.z, power);
    lemma_two(m.x, n.x, power);
    lemma_two(m.y, n.y, power);
    lemma_two(m.z, n.z, power);
}

proof fn lemma_two(a: Binary64, b: Binary64, power: nat)
    requires
        a.is_finite() && number::magnitude_of(a.value()) <= pow2(power),
        b.is_finite() && number::magnitude_of(b.value()) <= pow2(power),
        100 <= power <= 1700,
    ensures
        sums_to(a + b, a.value() + b.value(), power),
{
    track::lemma_itself(a, power, 51);
    track::lemma_itself(b, power, 51);
    track::lemma_plus(a, b, a.value(), b.value(), 1, power, 51);
    lemma_pow2_adds(power, 2);
    lemma2_to64();
    lemma2_to64_rest();
}

/// Gravity pulls down: along every axis its acceleration is the way up, turned
/// round, times its strength, but for rounding.
pub proof fn gravity_pulls_down(sin_latitude: Binary64, altitude: Binary64, up: DVec3, axis: int)
    requires
        inverse::at_most(up, 1075),
        gravity::magnitude(sin_latitude, altitude).is_finite(),
        number::magnitude_of(gravity::magnitude(sin_latitude, altitude).value()) <= pow2(1078),
        0 <= axis < 3,
    ensures
        ({
            let o = Binary64::one() as int;
            let pull = gravity::acceleration_ecef(sin_latitude, altitude, up);
            let strength = gravity::magnitude(sin_latitude, altitude).value();
            let off = inverse::along(pull, axis) * o + inverse::along(up, axis) * strength;
            &&& inverse::at_most(pull, 1080)
            &&& -(o * o) <= 0x100000000000 * off <= o * o
        }),
{
    let m = gravity::magnitude(sin_latitude, altitude);
    lemma_down(up.x, m);
    lemma_down(up.y, m);
    lemma_down(up.z, m);
}

proof fn lemma_down(up: Binary64, m: Binary64)
    requires
        up.is_finite() && number::magnitude_of(up.value()) <= pow2(1075),
        m.is_finite() && number::magnitude_of(m.value()) <= pow2(1078),
    ensures
        ({
            let o = Binary64::one() as int;
            let r = up.negate() * m;
            let off = r.value() * o + up.value() * m.value();
            &&& r.is_finite() && number::magnitude_of(r.value()) <= pow2(1080)
            &&& -(o * o) <= 0x100000000000 * off <= o * o
        }),
{
    let o = Binary64::one() as int;
    let (a, b) = (up.value(), m.value());
    binary64::lemma_negate(up);
    lemma_pow2_pos(1074);
    track::lemma_itself(up.negate(), 1075, 51);
    track::lemma_itself(m, 1078, 51);
    track::lemma_times(up.negate(), m, -a, b, 1, 1, 1075, 1078, 51);
    assert(o * (1 * 1) == o);
    assert((-a) * b == -(a * b)) by (nonlinear_arith);
    lemma_pow2_adds(1074, 6);
    lemma2_to64();
    lemma2_to64_rest();
    assert(pow2(1080) * o == 64 * (o * o)) by (nonlinear_arith)
        requires
            pow2(1080) == o * 64,
    ;
    let r = (up.negate() * m).value();
    let off = r * o + a * b;
    assert(pow2(50) * off == 0x4000000000000 * off) by (nonlinear_arith)
        requires
            pow2(50) == 0x4000000000000,
    ;
}

} // verus!
