//! How rates carry a state on: over a time, weighed together, and in the turn of
//! the body.
use crate::binary64;
use crate::binary64::Binary64;
use crate::fdm::aircraft::AircraftConfig;
use crate::fdm::cone;
use crate::fdm::controls::ControlInputs;
use crate::fdm::dynamics;
use crate::fdm::dynamics::{Measures, RungeKutta};
use crate::fdm::environment::Environment;
use crate::fdm::spin;
use crate::fdm::state;
use crate::fdm::state::{RigidBodyState, StateDerivative};
use crate::inverse;
use crate::norm;
use crate::number;
use crate::rotation::{DQuat, DVec4};
use crate::track;
use crate::vector::DVec3;
use vstd::arithmetic::power2::*;
use vstd::prelude::*;

verus! {

/// Each part of the four numbers is finite and at most a power of two.
pub open spec fn four_at_most(v: DVec4, power: nat) -> bool {
    &&& v.x.is_finite() && number::magnitude_of(v.x.value()) <= pow2(power)
    &&& v.y.is_finite() && number::magnitude_of(v.y.value()) <= pow2(power)
    &&& v.z.is_finite() && number::magnitude_of(v.z.value()) <= pow2(power)
    &&& v.w.is_finite() && number::magnitude_of(v.w.value()) <= pow2(power)
}

/// All parts of the rate are finite and at most a power of two.
pub open spec fn rate_at_most(k: StateDerivative, power: nat) -> bool {
    &&& inverse::at_most(k.velocity, power)
    &&& inverse::at_most(k.acceleration, power)
    &&& four_at_most(k.orientation_rate, power)
    &&& inverse::at_most(k.angular_acceleration, power)
}

/// The number is a sixth of the first and last and twice the middle two
/// together, but for rounding.
pub open spec fn weighs(w: Binary64, a: Binary64, b: Binary64, c: Binary64, d: Binary64, power: nat) -> bool {
    let all = a.value() + 2 * b.value() + 2 * c.value() + d.value();
    &&& w.is_finite()
    &&& -pow2(power) <= 0x2000000000 * (6 * w.value() - all) <= pow2(power)
}

/// The vector is that, along each axis.
pub open spec fn weighs_each(w: DVec3, a: DVec3, b: DVec3, c: DVec3, d: DVec3, power: nat) -> bool {
    &&& weighs(w.x, a.x, b.x, c.x, d.x, power)
    &&& weighs(w.y, a.y, b.y, c.y, d.y, power)
    &&& weighs(w.z, a.z, b.z, c.z, d.z, power)
}

proof fn lemma_weighs(a: Binary64, b: Binary64, c: Binary64, d: Binary64, power: nat)
    requires
        a.is_finite() && number::magnitude_of(a.value()) <= pow2(power),
        b.is_finite() && number::magnitude_of(b.value()) <= pow2(power),
        c.is_finite() && number::magnitude_of(c.value()) <= pow2(power),
        d.is_finite() && number::magnitude_of(d.value()) <= pow2(power),
        100 <= power <= 1700,
    ensures
        weighs(
            (a + b * Binary64::of(2) + c * Binary64::of(2) + d) * (Binary64::of(1) / Binary64::of(6)),
            a,
            b,
            c,
            d,
            power,
        ),
{
    let o = Binary64::one() as int;
    let two = Binary64::of(2);
    let (one, six) = (Binary64::of(1), Binary64::of(6));
    let (x, y, z, t) = (a.value(), b.value(), c.value(), d.value());
    let all = x + 2 * y + 2 * z + t;
    binary64::lemma_of(1);
    binary64::lemma_of(6);
    track::lemma_itself(a, power, 51);
    track::lemma_itself(b, power, 51);
    track::lemma_itself(c, power, 51);
    track::lemma_itself(d, power, 51);
    track::lemma_twice(b, y, 1, power, 51);
    track::lemma_twice(c, z, 1, power, 51);
    track::lemma_looser(a, x, 1, power, 51, power + 2, 50);
    track::lemma_plus(a, b * two, x, 2 * y, 1, power + 2, 50);
    track::lemma_looser(c * two, 2 * z, 1, power + 2, 50, power + 4, 50);
    track::lemma_plus(a + b * two, c * two, x + 2 * y, 2 * z, 1, power + 4, 50);
    track::lemma_looser(d, t, 1, power, 51, power + 6, 50);
    track::lemma_plus(a + b * two + c * two, d, x + 2 * y + 2 * z, t, 1, power + 6, 50);
    track::lemma_itself(one, 1074, 51);
    let u = o * o;
    assert(pow2(1074) * six.value() == 6 * (pow2(1074) * o)) by (nonlinear_arith)
        requires
            six.value() == 6 * o,
    ;
    assert(pow2(1074) * o >= 0) by (nonlinear_arith)
        requires
            o >= 0,
    ;
    track::lemma_over(one, six, o, 1, 1074, 1074, 51);
    let sum = a + b * two + c * two + d;
    let sixth = one / six;
    track::lemma_times(sum, sixth, all, o * o, 1, 1 * six.value(), power + 8, 1074, 50);
    let scale = o * (1 * (1 * six.value()));
    let w = (sum * sixth).value();
    assert(scale == 6 * u) by (nonlinear_arith)
        requires
            scale == o * (1 * (1 * six.value())),
            six.value() == 6 * o,
            u == o * o,
    ;
    assert(w * scale - all * u == u * (6 * w - all)) by (nonlinear_arith)
        requires
            scale == 6 * u,
    ;
    assert(u > 0) by (nonlinear_arith)
        requires
            u == o * o,
            o > 0,
    ;
    lemma_pow2_adds(power, 9);
    lemma2_to64();
    lemma2_to64_rest();
    let e = 6 * w - all;
    let p = pow2(power) as int;
    assert(-(3072 * p) <= 0x2000000000000 * e <= 3072 * p) by (nonlinear_arith)
        requires
            -((512 * p) * (6 * u)) <= 0x2000000000000 * (u * e) <= (512 * p) * (6 * u),
            u > 0,
    {
        assert((512 * p) * (6 * u) == u * (3072 * p)) by (nonlinear_arith);
        assert(0x2000000000000 * (u * e) == u * (0x2000000000000 * e)) by (nonlinear_arith);
        let (q, f) = (3072 * p, 0x2000000000000 * e);
        assert(u * (-q) == -(u * q)) by (nonlinear_arith);
        assert(-q <= f <= q) by (nonlinear_arith)
            requires
                u * (-q) <= u * f <= u * q,
                u > 0,
        ;
    }
}

/// A step of the fourth-order method goes by the rates at its start and at its
/// end once and by the two at its middle twice, in every part of the state and
/// but for rounding.
pub proof fn the_middle_rates_count_twice(
    k1: StateDerivative,
    k2: StateDerivative,
    k3: StateDerivative,
    k4: StateDerivative,
    power: nat,
)
    requires
        rate_at_most(k1, power),
        rate_at_most(k2, power),
        rate_at_most(k3, power),
        rate_at_most(k4, power),
        100 <= power <= 1700,
    ensures
        ({
            let w = dynamics::weighted_spec(k1, k2, k3, k4);
            let (q, a, b, c, d) = (
                w.orientation_rate,
                k1.orientation_rate,
                k2.orientation_rate,
                k3.orientation_rate,
                k4.orientation_rate,
            );
            &&& weighs_each(w.velocity, k1.velocity, k2.velocity, k3.velocity, k4.velocity, power)
            &&& weighs_each(
                w.acceleration,
                k1.acceleration,
                k2.acceleration,
                k3.acceleration,
                k4.acceleration,
                power,
            )
            &&& weighs_each(
                w.angular_acceleration,
                k1.angular_acceleration,
                k2.angular_acceleration,
                k3.angular_acceleration,
                k4.angular_acceleration,
                power,
            )
            &&& weighs(q.x, a.x, b.x, c.x, d.x, power)
            &&& weighs(q.y, a.y, b.y, c.y, d.y, power)
            &&& weighs(q.z, a.z, b.z, c.z, d.z, power)
            &&& weighs(q.w, a.w, b.w, c.w, d.w, power)
        }),
{
    lemma_weighs_each(k1.velocity, k2.velocity, k3.velocity, k4.velocity, power);
    lemma_weighs_each(k1.acceleration, k2.acceleration, k3.acceleration, k4.acceleration, power);
    lemma_weighs_each(
        k1.angular_acceleration,
        k2.angular_acceleration,
        k3.angular_acceleration,
        k4.angular_acceleration,
        power,
    );
    let (a, b, c, d) = (
        k1.orientation_rate,
        k2.orientation_rate,
        k3.orientation_rate,
        k4.orientation_rate,
    );
    lemma_weighs(a.x, b.x, c.x, d.x, power);
    lemma_weighs(a.y, b.y, c.y, d.y, power);
    lemma_weighs(a.z, b.z, c.z, d.z, power);
    lemma_weighs(a.w, b.w, c.w, d.w, power);
}

proof fn lemma_weighs_each(a: DVec3, b: DVec3, c: DVec3, d: DVec3, power: nat)
    requires
        inverse::at_most(a, power),
        inverse::at_most(b, power),
        inverse::at_most(c, power),
        inverse::at_most(d, power),
        100 <= power <= 1700,
    ensures
        ({
            let two = Binary64::of(2);
            weighs_each(
                a.plus(b.scaled(two)).plus(c.scaled(two)).plus(d).scaled(
                    Binary64::of(1) / Binary64::of(6),
                ),
                a,
                b,
                c,
                d,
                power,
            )
        }),
{
    lemma_weighs(a.x, b.x, c.x, d.x, power);
    lemma_weighs(a.y, b.y, c.y, d.y, power);
    lemma_weighs(a.z, b.z, c.z, d.z, power);
}

/// The number went on from where it was by so many times its rate and that
/// time, but for rounding.
pub open spec fn went_on(
    now: Binary64,
    was: Binary64,
    rate: Binary64,
    h: Binary64,
    parts: int,
    power: nat,
) -> bool {
    let o = Binary64::one() as int;
    let off = parts * (now.value() - was.value()) * o - rate.value() * h.value();
    &&& now.is_finite()
    &&& -(pow2(power) * o) <= 0x4000000000 * off <= pow2(power) * o
}

/// The vector went on, along each axis.
pub open spec fn each_went_on(
    now: DVec3,
    was: DVec3,
    rate: DVec3,
    h: Binary64,
    parts: int,
    power: nat,
) -> bool {
    &&& went_on(now.x, was.x, rate.x, h, parts, power)
    &&& went_on(now.y, was.y, rate.y, h, parts, power)
    &&& went_on(now.z, was.z, rate.z, h, parts, power)
}

/// The rates of the state act on it: the velocity on the position, the
/// acceleration on the velocity, the angular acceleration on the angular
/// velocity.
pub open spec fn state_went_on(
    now: RigidBodyState,
    was: RigidBodyState,
    rate: StateDerivative,
    h: Binary64,
    parts: int,
    power: nat,
) -> bool {
    &&& each_went_on(now.position, was.position, rate.velocity, h, parts, power)
    &&& each_went_on(now.velocity, was.velocity, rate.acceleration, h, parts, power)
    &&& each_went_on(
        now.angular_velocity,
        was.angular_velocity,
        rate.angular_acceleration,
        h,
        parts,
        power,
    )
}

/// The state's vectors are finite and at most a power of two.
pub open spec fn state_at_most(s: RigidBodyState, power: nat) -> bool {
    &&& inverse::at_most(s.position, power)
    &&& inverse::at_most(s.velocity, power)
    &&& inverse::at_most(s.angular_velocity, power)
}

/// A time followed beside its exact share of `h`.
proof fn lemma_went_on(x: Binary64, v: Binary64, t: Binary64, h: Binary64, parts: int, power: nat)
    requires
        x.is_finite() && number::magnitude_of(x.value()) <= pow2(power),
        v.is_finite() && number::magnitude_of(v.value()) <= pow2(power),
        1 <= parts <= 2,
        100 <= power <= 1700,
        parts == 1 ==> t == h && h.is_finite() && number::magnitude_of(h.value()) <= pow2(1076),
        parts == 2 ==> track::tracked_by(
            t,
            h.value() * Binary64::one(),
            Binary64::one() as int * 2,
            1077,
            50,
        ),
    ensures
        went_on(x + v * t, x, v, h, parts, power),
{
    let o = Binary64::one() as int;
    let (a, b, c) = (x.value(), v.value(), h.value());
    lemma_pow2_pos(1074);
    lemma_pow2_strictly_increases(1076, 1077);
    track::lemma_itself(v, power, 50);
    let r = (x + v * t).value();
    let p = pow2(power) as int;
    lemma_pow2_adds(power, 6);
    lemma2_to64();
    lemma2_to64_rest();
    let off = parts * (r - a) * o - b * c;
    if parts == 1 {
        track::lemma_itself(t, 1077, 50);
        track::lemma_times(v, t, b, c, 1, 1, power, 1077, 50);
        assert(o * (1 * 1) == o);
        lemma_pow2_strictly_increases(power, power + 4);
        spin::lemma_scaled_itself(x, o, power + 4, 49);
        track::lemma_plus(x, v * t, a * o, b * c, o, power + 4, 49);
        assert(off == r * o - (a * o + b * c)) by (nonlinear_arith)
            requires
                off == 1 * (r - a) * o - b * c,
        ;
        assert(pow2(power + 6) * o == 64 * (p * o)) by (nonlinear_arith)
            requires
                pow2(power + 6) == p * 64,
        ;
        assert(p * o >= 0) by (nonlinear_arith)
            requires
                p >= 0,
                o >= 0,
        ;
    } else {
        let co = c * o;
        let s = o * (1 * (o * 2));
        track::lemma_times(v, t, b, co, 1, o * 2, power, 1077, 50);
        lemma_pow2_strictly_increases(power, power + 4);
        assert(s > 0) by (nonlinear_arith)
            requires
                s == o * (1 * (o * 2)),
                o > 0,
        ;
        spin::lemma_scaled_itself(x, s, power + 4, 49);
        track::lemma_plus(x, v * t, a * s, b * co, s, power + 4, 49);
        let e = r * s - (a * s + b * co);
        assert(e == o * off) by (nonlinear_arith)
            requires
                e == r * s - (a * s + b * co),
                off == 2 * (r - a) * o - b * c,
                s == o * (1 * (o * 2)),
                co == c * o,
        {
            let d = r - a;
            assert(r * s - a * s == d * s) by (nonlinear_arith)
                requires
                    d == r - a,
            ;
            assert(d * s == o * (2 * d * o)) by (nonlinear_arith)
                requires
                    s == o * (1 * (o * 2)),
            ;
            assert(b * co == o * (b * c)) by (nonlinear_arith)
                requires
                    co == c * o,
            ;
            let (m, n) = (2 * d * o, b * c);
            assert(o * (m - n) == o * m - o * n) by (nonlinear_arith);
        }
        let po = p * o;
        assert(pow2(power + 6) * s == o * (128 * po)) by (nonlinear_arith)
            requires
                pow2(power + 6) == p * 64,
                s == o * (1 * (o * 2)),
                po == p * o,
        ;
        assert(-(128 * po) <= 0x2000000000000 * off <= 128 * po) by (nonlinear_arith)
            requires
                -(o * (128 * po)) <= 0x2000000000000 * (o * off) <= o * (128 * po),
                o > 0,
        {
            let (q, f) = (128 * po, 0x2000000000000 * off);
            assert(0x2000000000000 * (o * off) == o * f) by (nonlinear_arith)
                requires
                    f == 0x2000000000000 * off,
            ;
            assert(o * (-q) == -(o * q)) by (nonlinear_arith);
            assert(-q <= f <= q) by (nonlinear_arith)
                requires
                    o * (-q) <= o * f <= o * q,
                    o > 0,
            ;
        }
        assert(po >= 0) by (nonlinear_arith)
            requires
                po == p * o,
                p >= 0,
                o >= 0,
        ;
    }
}

proof fn lemma_each_went_on(x: DVec3, v: DVec3, t: Binary64, h: Binary64, parts: int, power: nat)
    requires
        inverse::at_most(x, power),
        inverse::at_most(v, power),
        1 <= parts <= 2,
        100 <= power <= 1700,
        parts == 1 ==> t == h && h.is_finite() && number::magnitude_of(h.value()) <= pow2(1076),
        parts == 2 ==> track::tracked_by(
            t,
            h.value() * Binary64::one(),
            Binary64::one() as int * 2,
            1077,
            50,
        ),
    ensures
        each_went_on(x.plus(v.scaled(t)), x, v, h, parts, power),
{
    lemma_went_on(x.x, v.x, t, h, parts, power);
    lemma_went_on(x.y, v.y, t, h, parts, power);
    lemma_went_on(x.z, v.z, t, h, parts, power);
}

/// Over a time of four seconds at most, each part of the state goes on by its
/// own rate times that time, but for rounding.
pub proof fn a_state_goes_on_by_its_rates(
    start: RigidBodyState,
    rate: StateDerivative,
    h: Binary64,
    power: nat,
)
    requires
        state_at_most(start, power),
        rate_at_most(rate, power),
        h.is_finite() && number::magnitude_of(h.value()) <= pow2(1076),
        100 <= power <= 1700,
    ensures
        state_went_on(state::offset(start, rate, h), start, rate, h, 1, power),
{
    lemma_each_went_on(start.position, rate.velocity, h, h, 1, power);
    lemma_each_went_on(start.velocity, rate.acceleration, h, h, 1, power);
    lemma_each_went_on(start.angular_velocity, rate.angular_acceleration, h, h, 1, power);
}

/// The points at which a step of the fourth-order method asks for rates: the
/// start, the middle by the first rate, the middle by the second, and the end by
/// the third.
pub proof fn rates_are_asked_for_at_the_start_twice_the_middle_and_the_end(
    step: RungeKutta,
    power: nat,
)
    requires
        state_at_most(step.start, power),
        rate_at_most(step.k1, power),
        rate_at_most(step.k2, power),
        rate_at_most(step.k3, power),
        step.h.is_finite() && number::magnitude_of(step.h.value()) <= pow2(1076),
        100 <= power <= 1700,
    ensures
        step.rates == 0 ==> step.spec_point() == step.start,
        step.rates == 1 ==> state_went_on(step.spec_point(), step.start, step.k1, step.h, 2, power),
        step.rates == 2 ==> state_went_on(step.spec_point(), step.start, step.k2, step.h, 2, power),
        step.rates == 3 ==> state_went_on(step.spec_point(), step.start, step.k3, step.h, 1, power),
{
    let h = step.h;
    let half = h * Binary64::ratio(1, 2);
    let s = step.start;
    track::lemma_itself(h, 1076, 51);
    track::lemma_share(1, 2);
    track::lemma_times(h, Binary64::ratio(1, 2), h.value(), Binary64::one() as int, 1, 2, 1076, 1074, 51);
    assert(Binary64::one() * (1 * 2) == Binary64::one() * 2);
    assert(1 * Binary64::one() == Binary64::one());
    if step.rates == 1 {
        lemma_each_went_on(s.position, step.k1.velocity, half, h, 2, power);
        lemma_each_went_on(s.velocity, step.k1.acceleration, half, h, 2, power);
        lemma_each_went_on(s.angular_velocity, step.k1.angular_acceleration, half, h, 2, power);
    } else if step.rates == 2 {
        lemma_each_went_on(s.position, step.k2.velocity, half, h, 2, power);
        lemma_each_went_on(s.velocity, step.k2.acceleration, half, h, 2, power);
        lemma_each_went_on(s.angular_velocity, step.k2.angular_acceleration, half, h, 2, power);
    } else if step.rates == 3 {
        a_state_goes_on_by_its_rates(s, step.k3, h, power);
    }
}

/// Half of three products together, followed beside twice the sum.
proof fn lemma_half_of(total: Binary64, exact: int, power: nat)
    requires
        track::tracked_by(total, exact, Binary64::one() as int, power + 6, 50),
        100 <= power <= 1700,
    ensures
        ({
            let o = Binary64::one() as int;
            let half = Binary64::ratio(1, 2) * total;
            let off = 2 * half.value() * o - exact;
            &&& half.is_finite()
            &&& -(pow2(power) * o) <= 0x20000000000 * off <= pow2(power) * o
        }),
{
    let o = Binary64::one() as int;
    let p = pow2(power) as int;
    let half = Binary64::ratio(1, 2) * total;
    let h = half.value();
    lemma_pow2_pos(1074);
    track::lemma_share(1, 2);
    assert(1 * o == o);
    track::lemma_looser(Binary64::ratio(1, 2), o, 2, 1074, 51, 1074, 50);
    track::lemma_times(Binary64::ratio(1, 2), total, o, exact, 2, o, 1074, power + 6, 50);
    lemma_pow2_adds(power, 7);
    lemma2_to64();
    lemma2_to64_rest();
    let s = o * (2 * o);
    let off = 2 * h * o - exact;
    assert(h * s - o * exact == o * off) by (nonlinear_arith)
        requires
            s == o * (2 * o),
            off == 2 * h * o - exact,
    ;
    let po = p * o;
    assert(pow2(power + 7) * s == o * (256 * po)) by (nonlinear_arith)
        requires
            pow2(power + 7) == p * 128,
            s == o * (2 * o),
            po == p * o,
    ;
    assert(-(256 * po) <= 0x2000000000000 * off <= 256 * po) by (nonlinear_arith)
        requires
            -(o * (256 * po)) <= 0x2000000000000 * (o * off) <= o * (256 * po),
            o > 0,
    {
        let (q, f) = (256 * po, 0x2000000000000 * off);
        assert(0x2000000000000 * (o * off) == o * f) by (nonlinear_arith)
            requires
                f == 0x2000000000000 * off,
        ;
        assert(o * (-q) == -(o * q)) by (nonlinear_arith);
        assert(-q <= f <= q) by (nonlinear_arith)
            requires
                o * (-q) <= o * f <= o * q,
                o > 0,
        ;
    }
}

/// A product of a part of a turn and a rate.
proof fn lemma_part(q: Binary64, w: Binary64, power: nat)
    requires
        q.is_finite() && number::magnitude_of(q.value()) <= pow2(1075),
        w.is_finite() && number::magnitude_of(w.value()) <= pow2(power),
        100 <= power <= 1700,
    ensures
        track::tracked_by(q * w, q.value() * w.value(), Binary64::one() as int, power + 2, 50),
        track::tracked_by(q * w, q.value() * w.value(), Binary64::one() as int, power + 4, 50),
{
    let o = Binary64::one() as int;
    track::lemma_itself(q, 1075, 51);
    track::lemma_itself(w, power, 51);
    track::lemma_times(q, w, q.value(), w.value(), 1, 1, 1075, power, 51);
    assert(o * (1 * 1) == o);
    track::lemma_looser(q * w, q.value() * w.value(), o, power + 2, 50, power + 4, 50);
}

/// The four sums that a rotation makes of a turn, before they are halved.
proof fn lemma_sums(q: DQuat, w: DVec3, power: nat)
    requires
        cone::is_turn(q),
        inverse::at_most(w, power),
        100 <= power <= 1700,
    ensures
        ({
            let o = Binary64::one() as int;
            let (a, b, c, d) = (q.x.value(), q.y.value(), q.z.value(), q.w.value());
            let (p, r, t) = (w.x.value(), w.y.value(), w.z.value());
            let m = power + 6;
            &&& track::tracked_by(q.w * w.x + q.y * w.z - q.z * w.y, d * p + b * t - c * r, o, m, 50)
            &&& track::tracked_by(q.w * w.y - q.x * w.z + q.z * w.x, d * r - a * t + c * p, o, m, 50)
            &&& track::tracked_by(q.w * w.z + q.x * w.y - q.y * w.x, d * t + a * r - b * p, o, m, 50)
            &&& track::tracked_by(
                q.x.negate() * w.x - q.y * w.y - q.z * w.z,
                -(a * p) - b * r - c * t,
                o,
                m,
                50,
            )
        }),
{
    let o = Binary64::one() as int;
    let (a, b, c, d) = (q.x.value(), q.y.value(), q.z.value(), q.w.value());
    let (p, r, t) = (w.x.value(), w.y.value(), w.z.value());
    let n = power + 2;
    let m = power + 4;
    binary64::lemma_negate(q.x);
    lemma_part(q.w, w.x, power);
    lemma_part(q.w, w.y, power);
    lemma_part(q.w, w.z, power);
    lemma_part(q.x, w.y, power);
    lemma_part(q.x, w.z, power);
    lemma_part(q.y, w.x, power);
    lemma_part(q.y, w.y, power);
    lemma_part(q.y, w.z, power);
    lemma_part(q.z, w.x, power);
    lemma_part(q.z, w.y, power);
    lemma_part(q.z, w.z, power);
    lemma_part(q.x.negate(), w.x, power);
    assert((-a) * p == -(a * p)) by (nonlinear_arith);
    track::lemma_plus(q.w * w.x, q.y * w.z, d * p, b * t, o, n, 50);
    track::lemma_minus(q.w * w.x + q.y * w.z, q.z * w.y, d * p + b * t, c * r, o, m, 50);
    track::lemma_minus(q.w * w.y, q.x * w.z, d * r, a * t, o, n, 50);
    track::lemma_plus(q.w * w.y - q.x * w.z, q.z * w.x, d * r - a * t, c * p, o, m, 50);
    track::lemma_plus(q.w * w.z, q.x * w.y, d * t, a * r, o, n, 50);
    track::lemma_minus(q.w * w.z + q.x * w.y, q.y * w.x, d * t + a * r, b * p, o, m, 50);
    let e = q.x.negate() * w.x;
    track::lemma_minus(e, q.y * w.y, -(a * p), b * r, o, n, 50);
    track::lemma_minus(e - q.y * w.y, q.z * w.z, -(a * p) - b * r, c * t, o, m, 50);
}

/// The rate of a turn read as a rotation about an axis of the body: the turn
/// taken back from its rate.
pub open spec fn rotation_about(q: DQuat, rate: DVec4, axis: int) -> int {
    let (a, b, c, d) = (q.x.value(), q.y.value(), q.z.value(), q.w.value());
    let (i, j, k, l) = (rate.x.value(), rate.y.value(), rate.z.value(), rate.w.value());
    if axis == 0 {
        d * i - a * l - (b * k - c * j)
    } else if axis == 1 {
        d * j - b * l - (c * i - a * k)
    } else {
        d * k - c * l - (a * j - b * i)
    }
}

/// Four errors, each weighed by a part of a turn.
proof fn lemma_four_errors(
    a: int,
    b: int,
    c: int,
    d: int,
    e: int,
    f: int,
    g: int,
    h: int,
    o: int,
    most: int,
)
    requires
        o > 0,
        most >= 0,
        -(2 * o) <= a <= 2 * o,
        -(2 * o) <= b <= 2 * o,
        -(2 * o) <= c <= 2 * o,
        -(2 * o) <= d <= 2 * o,
        -most <= e <= most,
        -most <= f <= most,
        -most <= g <= most,
        -most <= h <= most,
    ensures
        -(8 * (most * o)) <= a * e + b * f + c * g + d * h <= 8 * (most * o),
        -(8 * (most * o)) <= a * e - b * f - c * g + d * h <= 8 * (most * o),
{
    lemma_one_error(a, e, o, most);
    lemma_one_error(b, f, o, most);
    lemma_one_error(c, g, o, most);
    lemma_one_error(d, h, o, most);
}

proof fn lemma_one_error(a: int, e: int, o: int, most: int)
    requires
        o > 0,
        most >= 0,
        -(2 * o) <= a <= 2 * o,
        -most <= e <= most,
    ensures
        -(2 * (most * o)) <= a * e <= 2 * (most * o),
{
    assert(-(2 * (most * o)) <= a * e <= 2 * (most * o)) by (nonlinear_arith)
        requires
            o > 0,
            most >= 0,
            -(2 * o) <= a <= 2 * o,
            -most <= e <= most,
    {
        if a >= 0 {
            assert(-(a * most) <= a * e <= a * most) by (nonlinear_arith)
                requires
                    a >= 0,
                    -most <= e <= most,
            ;
            assert(a * most <= (2 * o) * most) by (nonlinear_arith)
                requires
                    a <= 2 * o,
                    most >= 0,
            ;
        } else {
            let n = -a;
            assert(-(n * most) <= n * e <= n * most) by (nonlinear_arith)
                requires
                    n >= 0,
                    -most <= e <= most,
            ;
            assert(n * most <= (2 * o) * most) by (nonlinear_arith)
                requires
                    n <= 2 * o,
                    most >= 0,
            ;
            assert(n * e == -(a * e)) by (nonlinear_arith)
                requires
                    n == -a,
            ;
        }
        assert((2 * o) * most == 2 * (most * o)) by (nonlinear_arith);
    }
}

/// Taking a turn back from its rate leaves the rotation times the square of the
/// turn's length.
proof fn lemma_taken_back(a: int, b: int, c: int, d: int, p: int, r: int, t: int)
    ensures
        d * (d * p + b * t - c * r) - a * (-(a * p) - b * r - c * t) - b * (d * t + a * r - b * p)
            + c * (d * r - a * t + c * p) == (a * a + b * b + c * c + d * d) * p,
{
    assert(d * (d * p + b * t - c * r) == (d * d) * p + d * (b * t) - d * (c * r))
        by (nonlinear_arith);
    assert(a * (-(a * p) - b * r - c * t) == -((a * a) * p) - a * (b * r) - a * (c * t))
        by (nonlinear_arith);
    assert(b * (d * t + a * r - b * p) == b * (d * t) + b * (a * r) - (b * b) * p)
        by (nonlinear_arith);
    assert(c * (d * r - a * t + c * p) == c * (d * r) - c * (a * t) + (c * c) * p)
        by (nonlinear_arith);
    assert(d * (b * t) == b * (d * t)) by (nonlinear_arith);
    assert(d * (c * r) == c * (d * r)) by (nonlinear_arith);
    assert(a * (b * r) == b * (a * r)) by (nonlinear_arith);
    assert(a * (c * t) == c * (a * t)) by (nonlinear_arith);
    let (e, f, g, h) = (a * a, b * b, c * c, d * d);
    assert((e + f + g + h) * p == e * p + f * p + g * p + h * p) by (nonlinear_arith);
}

/// A rotation changes a turn square to the turn.
proof fn lemma_square_to_itself(a: int, b: int, c: int, d: int, p: int, r: int, t: int)
    ensures
        a * (d * p + b * t - c * r) + b * (d * r - a * t + c * p) + c * (d * t + a * r - b * p) + d
            * (-(a * p) - b * r - c * t) == 0,
{
    assert(a * (d * p + b * t - c * r) == a * (d * p) + a * (b * t) - a * (c * r))
        by (nonlinear_arith);
    assert(b * (d * r - a * t + c * p) == b * (d * r) - b * (a * t) + b * (c * p))
        by (nonlinear_arith);
    assert(c * (d * t + a * r - b * p) == c * (d * t) + c * (a * r) - c * (b * p))
        by (nonlinear_arith);
    assert(d * (-(a * p) - b * r - c * t) == -(d * (a * p)) - d * (b * r) - d * (c * t))
        by (nonlinear_arith);
    assert(a * (d * p) == d * (a * p)) by (nonlinear_arith);
    assert(a * (b * t) == b * (a * t)) by (nonlinear_arith);
    assert(a * (c * r) == c * (a * r)) by (nonlinear_arith);
    assert(b * (d * r) == d * (b * r)) by (nonlinear_arith);
    assert(b * (c * p) == c * (b * p)) by (nonlinear_arith);
    assert(c * (d * t) == d * (c * t)) by (nonlinear_arith);
}

/// Twice a product, off by what its second factor is off.
proof fn lemma_off(a: int, i: int, o: int, sum: int)
    ensures
        2 * (a * i) * o == a * sum + a * (2 * i * o - sum),
{
    let (m, n) = (2 * i * o, sum);
    assert(a * (m - n) == a * m - a * n) by (nonlinear_arith);
    assert(2 * (a * i) * o == a * (2 * i * o)) by (nonlinear_arith);
}

/// Four of them, as they stand in the rotation about an axis.
proof fn lemma_off_about(a: int, b: int, c: int, d: int, i: int, j: int, k: int, l: int, o: int, x: int, y: int, z: int, w: int)
    ensures
        2 * (d * i - a * l - (b * k - c * j)) * o == (d * x - a * w - b * z + c * y) + (d * (2 * i
            * o - x) - a * (2 * l * o - w) - b * (2 * k * o - z) + c * (2 * j * o - y)),
        2 * (a * i + b * j + c * k + d * l) * o == (a * x + b * y + c * z + d * w) + (a * (2 * i * o
            - x) + b * (2 * j * o - y) + c * (2 * k * o - z) + d * (2 * l * o - w)),
{
    lemma_off(d, i, o, x);
    lemma_off(a, l, o, w);
    lemma_off(b, k, o, z);
    lemma_off(c, j, o, y);
    let (e, f, g, h) = (d * i, a * l, b * k, c * j);
    assert(2 * (e - f - (g - h)) * o == 2 * e * o - 2 * f * o - 2 * g * o + 2 * h * o)
        by (nonlinear_arith);
    lemma_off(a, i, o, x);
    lemma_off(b, j, o, y);
    lemma_off(c, k, o, z);
    lemma_off(d, l, o, w);
    let (m, n, q, r) = (a * i, b * j, c * k, d * l);
    assert(2 * (m + n + q + r) * o == 2 * m * o + 2 * n * o + 2 * q * o + 2 * r * o)
        by (nonlinear_arith);
}

/// While the body rotates, its turn changes by half the angular velocity about
/// the axes of the body: the turn taken back from twice its rate is the angular
/// velocity, along every axis, and nothing of the rate goes into the turn's
/// length. Both but for rounding.
pub proof fn a_turn_changes_by_the_angular_velocity(q: DQuat, w: DVec3, power: nat, axis: int)
    requires
        norm::near_unit(q.to_vec4()),
        inverse::at_most(w, power),
        100 <= power <= 1700,
        0 <= axis < 3,
    ensures
        ({
            let o = Binary64::one() as int;
            let r = state::orientation_rate(q, w);
            let length = norm::length_squared(q.to_vec4());
            let off = 2 * rotation_about(q, r, axis) * o - length * inverse::along(w, axis);
            let along = q.x.value() * r.x.value() + q.y.value() * r.y.value() + q.z.value()
                * r.z.value() + q.w.value() * r.w.value();
            &&& -(pow2(power) * (o * o)) <= 0x4000000000 * off <= pow2(power) * (o * o)
            &&& -(pow2(power) * (o * o)) <= 0x4000000000 * (2 * along * o) <= pow2(power) * (o * o)
        }),
{
    let o = Binary64::one() as int;
    let h = state::orientation_rate(q, w);
    let (a, b, c, d) = (q.x.value(), q.y.value(), q.z.value(), q.w.value());
    let (p, r, t) = (w.x.value(), w.y.value(), w.z.value());
    let (i, j, k, l) = (h.x.value(), h.y.value(), h.z.value(), h.w.value());
    cone::lemma_turn_of_length_one(q);
    lemma_sums(q, w, power);
    let x = d * p + b * t - c * r;
    let y = d * r - a * t + c * p;
    let z = d * t + a * r - b * p;
    let n = -(a * p) - b * r - c * t;
    lemma_half_of(q.w * w.x + q.y * w.z - q.z * w.y, x, power);
    lemma_half_of(q.w * w.y - q.x * w.z + q.z * w.x, y, power);
    lemma_half_of(q.w * w.z + q.x * w.y - q.y * w.x, z, power);
    lemma_half_of(q.x.negate() * w.x - q.y * w.y - q.z * w.z, n, power);
    let (e, f, g, m) = (2 * i * o - x, 2 * j * o - y, 2 * k * o - z, 2 * l * o - n);
    let most = pow2(power) * o;
    let big = 0x20000000000int;
    lemma_pow2_pos(1074);
    lemma_pow2_adds(1074, 1);
    lemma2_to64();
    assert(most >= 0) by (nonlinear_arith)
        requires
            most == pow2(power) * o,
            o > 0,
    ;
    assert(most * o == pow2(power) * (o * o)) by (nonlinear_arith)
        requires
            most == pow2(power) * o,
    ;
    lemma_square_to_itself(a, b, c, d, p, r, t);
    lemma_off_about(a, b, c, d, i, j, k, l, o, x, y, z, n);
    lemma_four_errors(a, b, c, d, big * e, big * f, big * g, big * m, o, most);
    lemma_big(a, e, b, f, c, g, d, m);
    if axis == 0 {
        lemma_taken_back(a, b, c, d, p, r, t);
        lemma_four_errors(d, a, b, c, big * e, big * m, big * g, big * f, o, most);
        lemma_big(d, e, a, m, b, g, c, f);
    } else if axis == 1 {
        lemma_taken_back(b, c, a, d, r, t, p);
        lemma_off_about(b, c, a, d, j, k, i, l, o, y, z, x, n);
        lemma_four_errors(d, b, c, a, big * f, big * m, big * e, big * g, o, most);
        lemma_big(d, f, b, m, c, e, a, g);
    } else {
        lemma_taken_back(c, a, b, d, t, p, r);
        lemma_off_about(c, a, b, d, k, i, j, l, o, z, x, y, n);
        lemma_four_errors(d, c, a, b, big * g, big * m, big * f, big * e, o, most);
        lemma_big(d, g, c, m, a, f, b, e);
    }
}

proof fn lemma_big(a: int, e: int, b: int, f: int, c: int, g: int, d: int, h: int)
    ensures
        ({
            let big = 0x20000000000int;
            &&& a * (big * e) + b * (big * f) + c * (big * g) + d * (big * h) == big * (a * e + b
                * f + c * g + d * h)
            &&& a * (big * e) - b * (big * f) - c * (big * g) + d * (big * h) == big * (a * e - b
                * f - c * g + d * h)
        }),
{
    let big = 0x20000000000int;
    assert(a * (big * e) == big * (a * e)) by (nonlinear_arith);
    assert(b * (big * f) == big * (b * f)) by (nonlinear_arith);
    assert(c * (big * g) == big * (c * g)) by (nonlinear_arith);
    assert(d * (big * h) == big * (d * h)) by (nonlinear_arith);
}

/// A flight moves with its velocity and turns with its angular velocity: its
/// place changes at exactly the velocity, and its turn, taken back from twice
/// its rate, is the angular velocity along every axis, but for rounding.
pub proof fn a_flight_goes_where_it_moves_and_turns(
    config: AircraftConfig,
    state: RigidBodyState,
    controls: ControlInputs,
    environment: Environment,
    measures: Measures,
    power: nat,
    axis: int,
)
    requires
        norm::near_unit(state.orientation.to_vec4()),
        inverse::at_most(state.angular_velocity, power),
        100 <= power <= 1700,
        0 <= axis < 3,
    ensures
        ({
            let o = Binary64::one() as int;
            let rate = dynamics::derivative_spec(config, state, controls, environment, measures);
            let length = norm::length_squared(state.orientation.to_vec4());
            let off = 2 * rotation_about(state.orientation, rate.orientation_rate, axis) * o - length
                * inverse::along(state.angular_velocity, axis);
            &&& rate.velocity == state.velocity
            &&& -(pow2(power) * (o * o)) <= 0x4000000000 * off <= pow2(power) * (o * o)
        }),
{
    a_turn_changes_by_the_angular_velocity(state.orientation, state.angular_velocity, power, axis);
}

} // verus!
