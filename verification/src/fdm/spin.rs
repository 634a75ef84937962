//! How a body turns: its angular momentum changes by the moment on it alone.
use crate::binary64;
use crate::binary64::Binary64;
use crate::fdm::aero::BodyLoads;
use crate::fdm::aircraft;
use crate::fdm::aircraft::AircraftConfig;
use crate::fdm::cone;
use crate::fdm::controls::ControlInputs;
use crate::fdm::dynamics;
use crate::fdm::dynamics::Measures;
use crate::fdm::environment::Environment;
use crate::fdm::state::RigidBodyState;
use crate::inverse;
use crate::number;
use crate::rotation::DMat3;
use crate::track;
use crate::vector::DVec3;
use vstd::arithmetic::power2::*;
use vstd::prelude::*;

verus! {

/// What a matrix makes of a vector along one axis, in counts and without
/// rounding.
pub open spec fn applied(m: DMat3, v: DVec3, axis: int) -> int {
    inverse::along(m.x_axis, axis) * v.x.value() + inverse::along(m.y_axis, axis) * v.y.value()
        + inverse::along(m.z_axis, axis) * v.z.value()
}

/// What turning makes of the angular momentum along one axis, in counts and
/// without rounding: the cross product of the angular velocity with it.
pub open spec fn carried(inertia: DMat3, w: DVec3, axis: int) -> int {
    let (x, y, z) = (applied(inertia, w, 0), applied(inertia, w, 1), applied(inertia, w, 2));
    if axis == 0 {
        w.y.value() * z - y * w.z.value()
    } else if axis == 1 {
        w.z.value() * x - z * w.x.value()
    } else {
        w.x.value() * y - x * w.y.value()
    }
}

/// A body and a state whose sizes are known: no moment of inertia above a power
/// of two, no flatter than so, turning no faster than a power of two, and no
/// moment above one, which is large enough for what the turning takes.
pub open spec fn turns_within(
    inertia: DMat3,
    w: DVec3,
    moment: DVec3,
    power: nat,
    flatness: nat,
    speed: nat,
    most: nat,
) -> bool {
    &&& inverse::steep(inertia, power, flatness)
    &&& 900 <= power <= 1200
    &&& inverse::at_most(w, speed)
    &&& 900 <= speed <= 1200
    &&& inverse::at_most(moment, most)
    &&& power + 2 * speed <= most + 2140
    &&& 1074 <= most <= 1400
}

proof fn lemma_scales(o: int)
    ensures
        o * (1 * 1) == o,
        o * (1 * o) == o * o,
        o * (1 * (o * o)) == o * (o * o),
{
    assert(1 * o == o && 1 * (o * o) == o * o && o * 1 == o);
}

/// A number in the scale of longer products.
pub proof fn lemma_scaled_itself(x: Binary64, scale: int, power: nat, digits: nat)
    requires
        x.is_finite(),
        number::magnitude_of(x.value()) <= pow2(power),
        scale > 0,
    ensures
        track::tracked_by(x, x.value() * scale, scale, power, digits),
{
    let (v, g) = (x.value(), pow2(digits) as int);
    lemma_pow2_pos(power);
    assert(g * (v * scale - v * scale) == 0) by (nonlinear_arith);
    assert(pow2(power) * scale >= 0) by (nonlinear_arith)
        requires
            scale > 0,
    ;
}

/// One axis of a matrix times a vector.
proof fn lemma_row(
    a: Binary64,
    b: Binary64,
    c: Binary64,
    x: Binary64,
    y: Binary64,
    z: Binary64,
    ex: int,
    ey: int,
    ez: int,
    scale: int,
    p: nat,
    q: nat,
    digits: nat,
)
    requires
        a.is_finite() && number::magnitude_of(a.value()) <= pow2(p),
        b.is_finite() && number::magnitude_of(b.value()) <= pow2(p),
        c.is_finite() && number::magnitude_of(c.value()) <= pow2(p),
        track::tracked_by(x, ex, scale, q, digits),
        track::tracked_by(y, ey, scale, q, digits),
        track::tracked_by(z, ez, scale, q, digits),
        2 <= digits <= 51,
        1140 <= p + q <= 2990,
    ensures
        track::tracked_by(
            a * x + b * y + c * z,
            a.value() * ex + b.value() * ey + c.value() * ez,
            Binary64::one() * (1 * scale),
            (p + q - 1069) as nat,
            (digits - 1) as nat,
        ),
{
    let o = Binary64::one() as int;
    let (d, e, f) = (a.value(), b.value(), c.value());
    let t = o * (1 * scale);
    let k = (p + q - 1073) as nat;
    let g = (digits - 1) as nat;
    track::lemma_itself(a, p, digits);
    track::lemma_itself(b, p, digits);
    track::lemma_itself(c, p, digits);
    track::lemma_times(a, x, d, ex, 1, scale, p, q, digits);
    track::lemma_times(b, y, e, ey, 1, scale, p, q, digits);
    track::lemma_times(c, z, f, ez, 1, scale, p, q, digits);
    track::lemma_plus(a * x, b * y, d * ex, e * ey, t, k, g);
    track::lemma_looser(c * z, f * ez, t, k, g, k + 2, g);
    track::lemma_plus(a * x + b * y, c * z, d * ex + e * ey, f * ez, t, k + 2, g);
}

/// The vector follows three counts.
spec fn follows(v: DVec3, x: int, y: int, z: int, scale: int, power: nat, digits: nat) -> bool {
    &&& track::tracked_by(v.x, x, scale, power, digits)
    &&& track::tracked_by(v.y, y, scale, power, digits)
    &&& track::tracked_by(v.z, z, scale, power, digits)
}

/// The angular momentum as it is computed.
proof fn lemma_momentum(inertia: DMat3, w: DVec3, power: nat, speed: nat)
    requires
        inverse::at_most(inertia.x_axis, power),
        inverse::at_most(inertia.y_axis, power),
        inverse::at_most(inertia.z_axis, power),
        inverse::at_most(w, speed),
        900 <= power <= 1200,
        900 <= speed <= 1200,
    ensures
        follows(
            inertia.apply(w),
            applied(inertia, w, 0),
            applied(inertia, w, 1),
            applied(inertia, w, 2),
            Binary64::one() as int,
            (power + speed - 1069) as nat,
            50,
        ),
{
    let o = Binary64::one() as int;
    let (a, b, c) = (inertia.x_axis, inertia.y_axis, inertia.z_axis);
    lemma_scales(o);
    track::lemma_itself(w.x, speed, 51);
    track::lemma_itself(w.y, speed, 51);
    track::lemma_itself(w.z, speed, 51);
    let (x, y, z) = (w.x.value(), w.y.value(), w.z.value());
    lemma_row(a.x, b.x, c.x, w.x, w.y, w.z, x, y, z, 1, power, speed, 51);
    lemma_row(a.y, b.y, c.y, w.x, w.y, w.z, x, y, z, 1, power, speed, 51);
    lemma_row(a.z, b.z, c.z, w.x, w.y, w.z, x, y, z, 1, power, speed, 51);
}

/// One axis of the moment that is left after the turning has taken its part.
proof fn lemma_left_over(
    moment: Binary64,
    w1: Binary64,
    l2: Binary64,
    l1: Binary64,
    w2: Binary64,
    e2: int,
    e1: int,
    power: nat,
    speed: nat,
    most: nat,
)
    requires
        moment.is_finite() && number::magnitude_of(moment.value()) <= pow2(most),
        w1.is_finite() && number::magnitude_of(w1.value()) <= pow2(speed),
        w2.is_finite() && number::magnitude_of(w2.value()) <= pow2(speed),
        track::tracked_by(l1, e1, Binary64::one() as int, (power + speed - 1069) as nat, 50),
        track::tracked_by(l2, e2, Binary64::one() as int, (power + speed - 1069) as nat, 50),
        900 <= power <= 1200,
        900 <= speed <= 1200,
        power + 2 * speed <= most + 2140,
        1074 <= most <= 1400,
        power + 2 * speed >= 2300,
    ensures
        track::tracked_by(
            moment - (w1 * l2 - l1 * w2),
            moment.value() * (Binary64::one() * Binary64::one()) - (w1.value() * e2 - e1
                * w2.value()),
            (Binary64::one() * Binary64::one()) as int,
            most + 2,
            49,
        ),
{
    let o = Binary64::one() as int;
    let u = o * o;
    let lp = (power + speed - 1069) as nat;
    let q = (power + 2 * speed - 2142) as nat;
    lemma_scales(o);
    lemma_pow2_pos(1074);
    cone::lemma_positive(o);
    track::lemma_itself(w1, speed, 50);
    track::lemma_itself(w2, speed, 50);
    track::lemma_times(w1, l2, w1.value(), e2, 1, o, speed, lp, 50);
    track::lemma_times(l1, w2, e1, w2.value(), o, 1, lp, speed, 50);
    assert(o * (o * 1) == u);
    track::lemma_minus(w1 * l2, l1 * w2, w1.value() * e2, e1 * w2.value(), u, q, 49);
    let c = w1 * l2 - l1 * w2;
    let ce = w1.value() * e2 - e1 * w2.value();
    track::lemma_looser(c, ce, u, q + 2, 49, most, 49);
    lemma_scaled_itself(moment, u, most, 49);
    track::lemma_minus(moment, c, moment.value() * u, ce, u, most, 49);
}

/// How much is off after a matrix has undone its inverse.
proof fn lemma_undone(
    a: int,
    b: int,
    c: int,
    x: int,
    y: int,
    z: int,
    e0: int,
    e1: int,
    e2: int,
    m0: int,
    m1: int,
    m2: int,
    n0: int,
    n1: int,
    n2: int,
    goal: int,
    t: int,
    l: int,
    bound: int,
    flat: int,
    top: int,
)
    requires
        t > 0,
        l >= 0,
        bound >= 0,
        flat >= 0,
        top >= 0,
        -l <= a <= l,
        -l <= b <= l,
        -l <= c <= l,
        -bound <= 0x1000000000000 * (x * t - e0) <= bound,
        -bound <= 0x1000000000000 * (y * t - e1) <= bound,
        -bound <= 0x1000000000000 * (z * t - e2) <= bound,
        a * e0 + b * e1 + c * e2 == goal + n0 * m0 + n1 * m1 + n2 * m2,
        -flat <= 0x40000000000 * n0 <= flat,
        -flat <= 0x40000000000 * n1 <= flat,
        -flat <= 0x40000000000 * n2 <= flat,
        -top <= m0 <= top,
        -top <= m1 <= top,
        -top <= m2 <= top,
    ensures
        -(3 * (l * bound) + 192 * (flat * top)) <= 0x1000000000000 * ((a * x + b * y + c * z) * t
            - goal) <= 3 * (l * bound) + 192 * (flat * top),
{
    let (f0, f1, f2) = (x * t - e0, y * t - e1, z * t - e2);
    lemma_bounded(a, 0x1000000000000 * f0, l, bound);
    lemma_bounded(b, 0x1000000000000 * f1, l, bound);
    lemma_bounded(c, 0x1000000000000 * f2, l, bound);
    lemma_bounded(0x40000000000 * n0, m0, flat, top);
    lemma_bounded(0x40000000000 * n1, m1, flat, top);
    lemma_bounded(0x40000000000 * n2, m2, flat, top);
    lemma_pulled(a, f0, 0x1000000000000);
    lemma_pulled(b, f1, 0x1000000000000);
    lemma_pulled(c, f2, 0x1000000000000);
    lemma_pulled(m0, n0, 0x40000000000);
    lemma_pulled(m1, n1, 0x40000000000);
    lemma_pulled(m2, n2, 0x40000000000);
    assert(m0 * (0x40000000000 * n0) == (0x40000000000 * n0) * m0 && m0 * n0 == n0 * m0)
        by (nonlinear_arith);
    assert(m1 * (0x40000000000 * n1) == (0x40000000000 * n1) * m1 && m1 * n1 == n1 * m1)
        by (nonlinear_arith);
    assert(m2 * (0x40000000000 * n2) == (0x40000000000 * n2) * m2 && m2 * n2 == n2 * m2)
        by (nonlinear_arith);
    lemma_part(a, x, t, e0);
    lemma_part(b, y, t, e1);
    lemma_part(c, z, t, e2);
    let (i, j, k) = (a * x, b * y, c * z);
    assert((i + j + k) * t == i * t + j * t + k * t) by (nonlinear_arith);
}

proof fn lemma_part(a: int, x: int, t: int, e: int)
    ensures
        a * (x * t - e) == (a * x) * t - a * e,
{
    let y = x * t;
    assert(a * (y - e) == a * y - a * e) by (nonlinear_arith);
    assert(a * (x * t) == (a * x) * t) by (nonlinear_arith);
}

proof fn lemma_pulled(a: int, f: int, k: int)
    ensures
        a * (k * f) == k * (a * f),
{
    assert(a * (k * f) == k * (a * f)) by (nonlinear_arith);
}

proof fn lemma_bounded(a: int, b: int, p: int, q: int)
    requires
        -p <= a <= p,
        -q <= b <= q,
    ensures
        -(p * q) <= a * b <= p * q,
{
    assert(-(p * q) <= a * b <= p * q) by (nonlinear_arith)
        requires
            -p <= a <= p,
            -q <= b <= q,
    ;
}

/// Rows of one matrix with columns of another.
proof fn lemma_entries(
    a: int,
    b: int,
    c: int,
    p: (int, int, int),
    q: (int, int, int),
    r: (int, int, int),
    x: int,
    y: int,
    z: int,
)
    ensures
        a * (p.0 * x + q.0 * y + r.0 * z) + b * (p.1 * x + q.1 * y + r.1 * z) + c * (p.2 * x + q.2
            * y + r.2 * z) == (a * p.0 + b * p.1 + c * p.2) * x + (a * q.0 + b * q.1 + c * q.2) * y
            + (a * r.0 + b * r.1 + c * r.2) * z,
{
    lemma_three(a, p.0, x, q.0, y, r.0, z);
    lemma_three(b, p.1, x, q.1, y, r.1, z);
    lemma_three(c, p.2, x, q.2, y, r.2, z);
    lemma_sum_times(a * p.0, b * p.1, c * p.2, x);
    lemma_sum_times(a * q.0, b * q.1, c * q.2, y);
    lemma_sum_times(a * r.0, b * r.1, c * r.2, z);
}

proof fn lemma_three(a: int, p: int, x: int, q: int, y: int, r: int, z: int)
    ensures
        a * (p * x + q * y + r * z) == (a * p) * x + (a * q) * y + (a * r) * z,
{
    let (i, j, k) = (p * x, q * y, r * z);
    assert(a * (i + j + k) == a * i + a * j + a * k) by (nonlinear_arith);
    assert(a * (p * x) == (a * p) * x) by (nonlinear_arith);
    assert(a * (q * y) == (a * q) * y) by (nonlinear_arith);
    assert(a * (r * z) == (a * r) * z) by (nonlinear_arith);
}

proof fn lemma_sum_times(a: int, b: int, c: int, x: int)
    ensures
        (a + b + c) * x == a * x + b * x + c * x,
{
    assert((a + b + c) * x == a * x + b * x + c * x) by (nonlinear_arith);
}

/// What a moment comes to without rounding, and how large it is.
proof fn lemma_top(x: Binary64, exact: int, u: int, most: nat)
    requires
        track::tracked_by(x, exact, u, most + 2, 49),
        u > 0,
    ensures
        -(8 * (pow2(most) * u)) <= exact <= 8 * (pow2(most) * u),
{
    let v = x.value();
    lemma_pow2_adds(most, 2);
    lemma_pow2_pos(most);
    lemma2_to64();
    lemma2_to64_rest();
    let (p, pu) = (pow2(most) as int, pow2(most) * u);
    assert(pow2(most + 2) * u == 4 * pu) by (nonlinear_arith)
        requires
            pow2(most + 2) == p * 4,
            pu == p * u,
    ;
    assert(-(4 * pu) <= v * u <= 4 * pu) by (nonlinear_arith)
        requires
            -(4 * p) <= v <= 4 * p,
            pu == p * u,
            u > 0,
    ;
}

/// Euler's equation: the rate at which turning changes the angular momentum of a
/// body, `inertia` times the angular acceleration, and what it carries along,
/// the cross product of the angular velocity with the momentum, come to the
/// moment on the body, about every axis and but for rounding.
pub proof fn the_moment_changes_the_angular_momentum(
    config: AircraftConfig,
    state: RigidBodyState,
    loads: BodyLoads,
    measures: Measures,
    power: nat,
    flatness: nat,
    speed: nat,
    most: nat,
    axis: int,
)
    requires
        config.mass_properties.inverse_inertia == config.mass_properties.inertia.inverse(),
        turns_within(
            config.mass_properties.inertia,
            state.angular_velocity,
            loads.moment,
            power,
            flatness,
            speed,
            most,
        ),
        0 <= axis < 3,
    ensures
        ({
            let o = Binary64::one() as int;
            let inertia = config.mass_properties.inertia;
            let w = state.angular_velocity;
            let turning = dynamics::motion_spec(config, state, loads, measures).angular_acceleration;
            let off = applied(inertia, turning, axis) * o + carried(inertia, w, axis)
                - inverse::along(loads.moment, axis) * (o * o);
            &&& turning.is_finite()
            &&& -(pow2(most + flatness) * (o * o)) <= 0x400000000 * off <= pow2(most + flatness) * (o
                * o)
        }),
{
    let inertia = config.mass_properties.inertia;
    lemma_turning(inertia, state.angular_velocity, loads.moment, power, flatness, speed, most);
    lemma_balance(inertia, state.angular_velocity, loads.moment, power, flatness, speed, most, axis);
}

/// The moment along an axis less what turning takes, in counts and without
/// rounding.
spec fn left_over(inertia: DMat3, w: DVec3, moment: DVec3, axis: int) -> int {
    let o = Binary64::one() as int;
    inverse::along(moment, axis) * (o * o) - carried(inertia, w, axis)
}

/// One axis of the inverse times that, in counts.
spec fn sped_up(inertia: DMat3, w: DVec3, moment: DVec3, axis: int) -> int {
    let j = inertia.inverse();
    inverse::along(j.x_axis, axis) * left_over(inertia, w, moment, 0) + inverse::along(
        j.y_axis,
        axis,
    ) * left_over(inertia, w, moment, 1) + inverse::along(j.z_axis, axis) * left_over(
        inertia,
        w,
        moment,
        2,
    )
}

/// The moment that is left, as it is computed.
spec fn rest_of(inertia: DMat3, w: DVec3, moment: DVec3) -> DVec3 {
    moment.minus(w.cross(inertia.apply(w)))
}

proof fn lemma_rest(
    inertia: DMat3,
    w: DVec3,
    moment: DVec3,
    power: nat,
    flatness: nat,
    speed: nat,
    most: nat,
)
    requires
        turns_within(inertia, w, moment, power, flatness, speed, most),
    ensures
        follows(
            rest_of(inertia, w, moment),
            left_over(inertia, w, moment, 0),
            left_over(inertia, w, moment, 1),
            left_over(inertia, w, moment, 2),
            (Binary64::one() * Binary64::one()) as int,
            most + 2,
            49,
        ),
{
    let l = inertia.apply(w);
    lemma_momentum(inertia, w, power, speed);
    let (l0, l1, l2) = (applied(inertia, w, 0), applied(inertia, w, 1), applied(inertia, w, 2));
    lemma_left_over(moment.x, w.y, l.z, l.y, w.z, l2, l1, power, speed, most);
    lemma_left_over(moment.y, w.z, l.x, l.z, w.x, l0, l2, power, speed, most);
    lemma_left_over(moment.z, w.x, l.y, l.x, w.y, l1, l0, power, speed, most);
}

/// The angular acceleration as it is computed.
proof fn lemma_turning(
    inertia: DMat3,
    w: DVec3,
    moment: DVec3,
    power: nat,
    flatness: nat,
    speed: nat,
    most: nat,
)
    requires
        turns_within(inertia, w, moment, power, flatness, speed, most),
    ensures
        follows(
            inertia.inverse().apply(rest_of(inertia, w, moment)),
            sped_up(inertia, w, moment, 0),
            sped_up(inertia, w, moment, 1),
            sped_up(inertia, w, moment, 2),
            cone::cube(),
            (1086 + flatness + most - power) as nat,
            48,
        ),
{
    let o = Binary64::one() as int;
    let u = o * o;
    let j = inertia.inverse();
    let m = rest_of(inertia, w, moment);
    let jp = (2153 + flatness - power) as nat;
    lemma_scales(o);
    lemma_rest(inertia, w, moment, power, flatness, speed, most);
    let (m0, m1, m2) = (
        left_over(inertia, w, moment, 0),
        left_over(inertia, w, moment, 1),
        left_over(inertia, w, moment, 2),
    );
    inverse::a_matrix_times_its_inverse_is_one(inertia, power, flatness, 0, 0);
    inverse::a_matrix_times_its_inverse_is_one(inertia, power, flatness, 0, 1);
    inverse::a_matrix_times_its_inverse_is_one(inertia, power, flatness, 0, 2);
    let (p, q, r) = (j.x_axis, j.y_axis, j.z_axis);
    assert((jp + (most + 2) - 1069) as nat == (1086 + flatness + most - power) as nat);
    lemma_row(p.x, q.x, r.x, m.x, m.y, m.z, m0, m1, m2, u, jp, most + 2, 49);
    lemma_row(p.y, q.y, r.y, m.x, m.y, m.z, m0, m1, m2, u, jp, most + 2, 49);
    lemma_row(p.z, q.z, r.z, m.x, m.y, m.z, m0, m1, m2, u, jp, most + 2, 49);
}

/// The rows of the inertia with what the inverse made.
proof fn lemma_made_whole(inertia: DMat3, w: DVec3, moment: DVec3, axis: int)
    requires
        0 <= axis < 3,
    ensures
        ({
            let o = Binary64::one() as int;
            let j = inertia.inverse();
            inverse::along(inertia.x_axis, axis) * sped_up(inertia, w, moment, 0)
                + inverse::along(inertia.y_axis, axis) * sped_up(inertia, w, moment, 1)
                + inverse::along(inertia.z_axis, axis) * sped_up(inertia, w, moment, 2) == (o * o)
                * left_over(inertia, w, moment, axis) + (inverse::entry(inertia, j, axis, 0)
                - inverse::one_there(axis, 0)) * left_over(inertia, w, moment, 0) + (
            inverse::entry(inertia, j, axis, 1) - inverse::one_there(axis, 1)) * left_over(
                inertia,
                w,
                moment,
                1,
            ) + (inverse::entry(inertia, j, axis, 2) - inverse::one_there(axis, 2)) * left_over(
                inertia,
                w,
                moment,
                2,
            )
        }),
{
    let j = inertia.inverse();
    let (m0, m1, m2) = (
        left_over(inertia, w, moment, 0),
        left_over(inertia, w, moment, 1),
        left_over(inertia, w, moment, 2),
    );
    let (p, q, r) = (j.x_axis, j.y_axis, j.z_axis);
    let (a, b, c) = (
        inverse::along(inertia.x_axis, axis),
        inverse::along(inertia.y_axis, axis),
        inverse::along(inertia.z_axis, axis),
    );
    lemma_entries(
        a,
        b,
        c,
        (p.x.value(), p.y.value(), p.z.value()),
        (q.x.value(), q.y.value(), q.z.value()),
        (r.x.value(), r.y.value(), r.z.value()),
        m0,
        m1,
        m2,
    );
    lemma_difference_times(inverse::entry(inertia, j, axis, 0), inverse::one_there(axis, 0), m0);
    lemma_difference_times(inverse::entry(inertia, j, axis, 1), inverse::one_there(axis, 1), m1);
    lemma_difference_times(inverse::entry(inertia, j, axis, 2), inverse::one_there(axis, 2), m2);
    assert(0 * m0 == 0 && 0 * m1 == 0 && 0 * m2 == 0);
}

/// What following a count means.
proof fn lemma_followed(x: Binary64, exact: int, t: int, top: nat)
    requires
        track::tracked_by(x, exact, t, top, 48),
    ensures
        -(pow2(top) * t) <= 0x1000000000000 * (x.value() * t - exact) <= pow2(top) * t,
{
    lemma2_to64_rest();
}

/// Both sides of the balance, each in its own size.
proof fn lemma_sizes(power: nat, flatness: nat, most: nat)
    requires
        900 <= power <= 1200,
        flatness <= 40,
        1074 <= most <= 1400,
    ensures
        ({
            let top = (1086 + flatness + most - power) as nat;
            let z = pow2(most + flatness);
            &&& pow2(power) * pow2(top) == z * (Binary64::one() * 0x1000)
            &&& pow2(flatness) * pow2(most) == z
            &&& pow2(power) > 0 && pow2(top) > 0 && pow2(flatness) > 0 && pow2(most) > 0 && z > 0
        }),
{
    let top = (1086 + flatness + most - power) as nat;
    lemma2_to64();
    lemma_pow2_adds(power, top);
    lemma_pow2_adds(flatness, most);
    lemma_pow2_adds(most + flatness, 1086);
    lemma_pow2_adds(1074, 12);
    lemma_pow2_pos(power);
    lemma_pow2_pos(flatness);
    lemma_pow2_pos(most);
    lemma_pow2_pos(top);
    lemma_pow2_pos(most + flatness);
}

#[verifier::spinoff_prover]
#[verifier::rlimit(60)]
proof fn lemma_balance(
    inertia: DMat3,
    w: DVec3,
    moment: DVec3,
    power: nat,
    flatness: nat,
    speed: nat,
    most: nat,
    axis: int,
)
    requires
        turns_within(inertia, w, moment, power, flatness, speed, most),
        0 <= axis < 3,
    ensures
        ({
            let o = Binary64::one() as int;
            let turning = inertia.inverse().apply(rest_of(inertia, w, moment));
            let off = applied(inertia, turning, axis) * o - left_over(inertia, w, moment, axis);
            -(pow2(most + flatness) * (o * o)) <= 0x400000000 * off <= pow2(most + flatness) * (o
                * o)
        }),
{
    let o = Binary64::one() as int;
    let u = o * o;
    let t = o * u;
    let j = inertia.inverse();
    let turning = j.apply(rest_of(inertia, w, moment));
    lemma_pow2_pos(1074);
    cone::lemma_positive(o);
    lemma_turning(inertia, w, moment, power, flatness, speed, most);
    lemma_rest(inertia, w, moment, power, flatness, speed, most);
    lemma_made_whole(inertia, w, moment, axis);
    inverse::a_matrix_times_its_inverse_is_one(inertia, power, flatness, axis, 0);
    inverse::a_matrix_times_its_inverse_is_one(inertia, power, flatness, axis, 1);
    inverse::a_matrix_times_its_inverse_is_one(inertia, power, flatness, axis, 2);
    let (m0, m1, m2) = (
        left_over(inertia, w, moment, 0),
        left_over(inertia, w, moment, 1),
        left_over(inertia, w, moment, 2),
    );
    let m = rest_of(inertia, w, moment);
    lemma_top(m.x, m0, u, most);
    lemma_top(m.y, m1, u, most);
    lemma_top(m.z, m2, u, most);
    let (a, b, c) = (
        inverse::along(inertia.x_axis, axis),
        inverse::along(inertia.y_axis, axis),
        inverse::along(inertia.z_axis, axis),
    );
    let top = (1086 + flatness + most - power) as nat;
    let (lp, k, high, tp) = (
        pow2(power) as int,
        pow2(flatness) as int,
        pow2(most) as int,
        pow2(top) as int,
    );
    lemma_sizes(power, flatness, most);
    lemma_followed(turning.x, sped_up(inertia, w, moment, 0), t, top);
    lemma_followed(turning.y, sped_up(inertia, w, moment, 1), t, top);
    lemma_followed(turning.z, sped_up(inertia, w, moment, 2), t, top);
    lemma_not_negative(o, u);
    lemma_not_negative(tp, t);
    lemma_not_negative(k, u);
    lemma_not_negative(high, u);
    let mk = left_over(inertia, w, moment, axis);
    let n0 = inverse::entry(inertia, j, axis, 0) - inverse::one_there(axis, 0);
    let n1 = inverse::entry(inertia, j, axis, 1) - inverse::one_there(axis, 1);
    let n2 = inverse::entry(inertia, j, axis, 2) - inverse::one_there(axis, 2);
    lemma_undone(
        a,
        b,
        c,
        turning.x.value(),
        turning.y.value(),
        turning.z.value(),
        sped_up(inertia, w, moment, 0),
        sped_up(inertia, w, moment, 1),
        sped_up(inertia, w, moment, 2),
        m0,
        m1,
        m2,
        n0,
        n1,
        n2,
        u * mk,
        t,
        lp,
        tp * t,
        k * u,
        8 * (high * u),
    );
    lemma_last(applied(inertia, turning, axis), mk, o, u, t, lp, tp, k, high, pow2(most + flatness) as int);
}

proof fn lemma_not_negative(a: int, b: int)
    requires
        a > 0,
        b > 0,
    ensures
        a * b > 0,
{
    assert(a * b > 0) by (nonlinear_arith)
        requires
            a > 0,
            b > 0,
    ;
}

proof fn lemma_difference_times(n: int, d: int, m: int)
    ensures
        n * m == d * m + (n - d) * m,
{
    assert(n * m == d * m + (n - d) * m) by (nonlinear_arith);
}

proof fn lemma_last(
    s: int,
    m: int,
    o: int,
    u: int,
    t: int,
    l: int,
    top: int,
    k: int,
    high: int,
    z: int,
)
    requires
        o > 0,
        u == o * o,
        t == o * u,
        u > 0,
        z > 0,
        l * top == z * (o * 0x1000),
        k * high == z,
        -(3 * (l * (top * t)) + 192 * ((k * u) * (8 * (high * u)))) <= 0x1000000000000 * (s * t - u
            * m) <= 3 * (l * (top * t)) + 192 * ((k * u) * (8 * (high * u))),
    ensures
        -(z * u) <= 0x400000000 * (s * o - m) <= z * u,
{
    let uu = u * u;
    let zuu = z * uu;
    assert(l * (top * t) == 0x1000 * zuu) by (nonlinear_arith)
        requires
            l * top == z * (o * 0x1000),
            t == o * u,
            u == o * o,
            uu == u * u,
            zuu == z * uu,
    {
        assert(l * (top * t) == (l * top) * t) by (nonlinear_arith);
        assert((z * (o * 0x1000)) * (o * u) == 0x1000 * (z * ((o * o) * u))) by (nonlinear_arith);
    }
    assert((k * u) * (8 * (high * u)) == 8 * zuu) by (nonlinear_arith)
        requires
            k * high == z,
            uu == u * u,
            zuu == z * uu,
    {
        assert((k * u) * (8 * (high * u)) == 8 * ((k * high) * (u * u))) by (nonlinear_arith);
    }
    let d = s * o - m;
    assert(s * t - u * m == u * d) by (nonlinear_arith)
        requires
            t == o * u,
            d == s * o - m,
    {
        assert(s * (o * u) == u * (s * o)) by (nonlinear_arith);
        let y = s * o;
        assert(u * (y - m) == u * y - u * m) by (nonlinear_arith);
    }
    let ud = u * d;
    assert(zuu > 0) by (nonlinear_arith)
        requires
            zuu == z * uu,
            uu == u * u,
            z > 0,
            u > 0,
    {
        assert(u * u > 0) by (nonlinear_arith)
            requires
                u > 0,
        ;
        assert(z * uu > 0) by (nonlinear_arith)
            requires
                z > 0,
                uu > 0,
        ;
    }
    assert(-zuu <= 0x400000000 * ud <= zuu);
    let (e, zu) = (0x400000000 * d, z * u);
    assert(e * u == 0x400000000 * ud && zu * u == zuu) by (nonlinear_arith)
        requires
            e == 0x400000000 * d,
            ud == u * d,
            zu == z * u,
            zuu == z * uu,
            uu == u * u,
    ;
    assert(-zu <= e <= zu) by (nonlinear_arith)
        requires
            -(zu * u) <= e * u <= zu * u,
            u > 0,
    ;
}

/// What a vector of three counts comes to along another vector.
pub open spec fn along_of(w: DVec3, x: int, y: int, z: int) -> int {
    w.x.value() * x + w.y.value() * y + w.z.value() * z
}

/// The power of the moment goes into the energy of turning and nowhere else: the
/// angular velocity times what changes the angular momentum is the angular
/// velocity times the moment, but for rounding. A body that no moment acts on
/// keeps its energy of rotation.
pub proof fn turning_takes_its_energy_from_the_moment(
    config: AircraftConfig,
    state: RigidBodyState,
    loads: BodyLoads,
    measures: Measures,
    power: nat,
    flatness: nat,
    speed: nat,
    most: nat,
)
    requires
        config.mass_properties.inverse_inertia == config.mass_properties.inertia.inverse(),
        turns_within(
            config.mass_properties.inertia,
            state.angular_velocity,
            loads.moment,
            power,
            flatness,
            speed,
            most,
        ),
    ensures
        ({
            let o = Binary64::one() as int;
            let inertia = config.mass_properties.inertia;
            let w = state.angular_velocity;
            let turning = dynamics::motion_spec(config, state, loads, measures).angular_acceleration;
            let m = loads.moment;
            let gained = along_of(
                w,
                applied(inertia, turning, 0),
                applied(inertia, turning, 1),
                applied(inertia, turning, 2),
            ) * o;
            let given = along_of(w, m.x.value(), m.y.value(), m.z.value()) * (o * o);
            let slack = 3 * (pow2(speed) * (pow2(most + flatness) * (o * o)));
            -slack <= 0x400000000 * (gained - given) <= slack
        }),
{
    let o = Binary64::one() as int;
    let u = o * o;
    let inertia = config.mass_properties.inertia;
    let w = state.angular_velocity;
    let m = loads.moment;
    let turning = dynamics::motion_spec(config, state, loads, measures).angular_acceleration;
    the_moment_changes_the_angular_momentum(config, state, loads, measures, power, flatness, speed, most, 0);
    the_moment_changes_the_angular_momentum(config, state, loads, measures, power, flatness, speed, most, 1);
    the_moment_changes_the_angular_momentum(config, state, loads, measures, power, flatness, speed, most, 2);
    let (x, y, z) = (w.x.value(), w.y.value(), w.z.value());
    let (a, b, c) = (
        applied(inertia, turning, 0),
        applied(inertia, turning, 1),
        applied(inertia, turning, 2),
    );
    let (l0, l1, l2) = (applied(inertia, w, 0), applied(inertia, w, 1), applied(inertia, w, 2));
    cone::lemma_upright(x, y, z, l0, l1, l2);
    let (c0, c1, c2) = (carried(inertia, w, 0), carried(inertia, w, 1), carried(inertia, w, 2));
    assert(x * c0 + y * c1 + z * c2 == 0);
    let (e0, e1, e2) = (
        a * o + c0 - m.x.value() * u,
        b * o + c1 - m.y.value() * u,
        c * o + c2 - m.z.value() * u,
    );
    let big = pow2(most + flatness) * u;
    let s = pow2(speed) as int;
    lemma_bounded(x, 0x400000000 * e0, s, big);
    lemma_bounded(y, 0x400000000 * e1, s, big);
    lemma_bounded(z, 0x400000000 * e2, s, big);
    lemma_pulled(x, e0, 0x400000000);
    lemma_pulled(y, e1, 0x400000000);
    lemma_pulled(z, e2, 0x400000000);
    lemma_spread(x, a, o, c0, m.x.value(), u);
    lemma_spread(y, b, o, c1, m.y.value(), u);
    lemma_spread(z, c, o, c2, m.z.value(), u);
    lemma_sum_times(x * a, y * b, z * c, o);
    lemma_sum_times(x * m.x.value(), y * m.y.value(), z * m.z.value(), u);
}

proof fn lemma_spread(x: int, a: int, o: int, c: int, m: int, u: int)
    ensures
        x * (a * o + c - m * u) == (x * a) * o + x * c - (x * m) * u,
{
    let (p, q) = (a * o, m * u);
    assert(x * (p + c - q) == x * p + x * c - x * q) by (nonlinear_arith);
    assert(x * (a * o) == (x * a) * o && x * (m * u) == (x * m) * u) by (nonlinear_arith);
}

/// Euler's equation holds of the rate of change that a flight is flown by, with
/// the moments of the air and of the ground together.
pub proof fn a_flight_turns_by_its_moments(
    config: AircraftConfig,
    state: RigidBodyState,
    controls: ControlInputs,
    environment: Environment,
    measures: Measures,
    power: nat,
    flatness: nat,
    speed: nat,
    most: nat,
    axis: int,
)
    requires
        config.mass_properties.inverse_inertia == config.mass_properties.inertia.inverse(),
        turns_within(
            config.mass_properties.inertia,
            state.angular_velocity,
            dynamics::all_loads_spec(config, state, controls, environment, measures).moment,
            power,
            flatness,
            speed,
            most,
        ),
        0 <= axis < 3,
    ensures
        ({
            let o = Binary64::one() as int;
            let inertia = config.mass_properties.inertia;
            let moment = dynamics::all_loads_spec(config, state, controls, environment, measures).moment;
            let turning = dynamics::derivative_spec(
                config,
                state,
                controls,
                environment,
                measures,
            ).angular_acceleration;
            let off = applied(inertia, turning, axis) * o + carried(
                inertia,
                state.angular_velocity,
                axis,
            ) - inverse::along(moment, axis) * (o * o);
            -(pow2(most + flatness) * (o * o)) <= 0x400000000 * off <= pow2(most + flatness) * (o
                * o)
        }),
{
    the_moment_changes_the_angular_momentum(
        config,
        state,
        dynamics::all_loads_spec(config, state, controls, environment, measures),
        measures,
        power,
        flatness,
        speed,
        most,
        axis,
    );
}

/// A body the same left and right has the energy of its moments of inertia, less
/// that of the product: turning about the axes ahead and down together it has
/// less the larger the product is. The sum is over the axes, without rounding.
pub proof fn the_product_of_inertia_takes_from_the_energy(
    moment_xx: Binary64,
    moment_yy: Binary64,
    moment_zz: Binary64,
    product_xz: Binary64,
    w: DVec3,
)
    requires
        product_xz.is_finite(),
    ensures
        ({
            let i = aircraft::inertia_tensor(moment_xx, moment_yy, moment_zz, product_xz);
            let (x, y, z) = (w.x.value(), w.y.value(), w.z.value());
            along_of(w, applied(i, w, 0), applied(i, w, 1), applied(i, w, 2)) == moment_xx.value() * (
            x * x) + moment_yy.value() * (y * y) + moment_zz.value() * (z * z) - 2 * (
            product_xz.value() * (x * z))
        }),
{
    let (x, y, z) = (w.x.value(), w.y.value(), w.z.value());
    let (a, b, c, e) = (
        moment_xx.value(),
        moment_yy.value(),
        moment_zz.value(),
        product_xz.value(),
    );
    binary64::lemma_of(0);
    binary64::lemma_negate(product_xz);
    assert(0 * x == 0 && 0 * y == 0 && 0 * z == 0);
    assert(x * (a * x + 0 + (-e) * z) == a * (x * x) - e * (x * z)) by (nonlinear_arith);
    assert(y * (0 + b * y + 0) == b * (y * y)) by (nonlinear_arith);
    assert(z * ((-e) * x + 0 + c * z) == c * (z * z) - e * (x * z)) by (nonlinear_arith);
}

} // verus!
