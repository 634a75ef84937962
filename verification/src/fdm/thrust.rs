//! How the engine pulls, and which way the light single answers.
use crate::binary64;
use crate::binary64::Binary64;
use crate::fdm::aircraft;
use crate::fdm::aircraft::EngineConfig;
use crate::near;
use crate::number;
use crate::track;
use vstd::arithmetic::power2::*;
use vstd::prelude::*;

verus! {

/// The engine gives its power to the air: the thrust times the speed that the
/// power is divided by is the power times the density ratio, but for rounding.
/// That speed is the airspeed or more; it is the airspeed itself where that is
/// not below the speed at which the power comes to the static thrust.
pub proof fn the_engine_gives_its_power_to_the_air(
    engine: EngineConfig,
    throttle: Binary64,
    true_airspeed: Binary64,
    density_ratio: Binary64,
    power: nat,
    top: nat,
)
    requires
        engine.available_power(throttle).is_finite(),
        number::magnitude_of(engine.available_power(throttle).value()) <= pow2(power),
        true_airspeed.is_finite(),
        (engine.available_power(throttle) / engine.static_thrust.max(
            Binary64::ratio(1, 0x10000000000000),
        )).is_finite(),
        density_ratio.is_finite(),
        0 <= density_ratio.value() <= pow2(1075),
        60 <= top <= 1900,
        2 * (pow2(power) * Binary64::one()) <= pow2(top) * engine.effective_speed(
            engine.available_power(throttle),
            true_airspeed,
        ).value(),
    ensures
        ({
            let p = engine.available_power(throttle);
            let slow = p / engine.static_thrust.max(Binary64::ratio(1, 0x10000000000000));
            let speed = engine.effective_speed(p, true_airspeed).value();
            let pull = engine.thrust_spec(throttle, true_airspeed, density_ratio);
            let off = pull.value() * speed - p.value() * density_ratio.value();
            &&& pull.is_finite()
            &&& -(pow2(top + 2) * speed) <= 0x2000000000000 * off <= pow2(top + 2) * speed
            &&& speed >= true_airspeed.value()
            &&& speed >= slow.value()
            &&& true_airspeed.value() >= slow.value() && true_airspeed.value()
                >= Binary64::ratio(1, 0x10000000000000).value() ==> speed == true_airspeed.value()
        }),
{
    let o = Binary64::one() as int;
    let p = engine.available_power(throttle);
    let epsilon = Binary64::ratio(1, 0x10000000000000);
    let zero = Binary64::of(0);
    binary64::lemma_of(0);
    binary64::lemma_ratio_share(1, 0x10000000000000);
    let slow = p / engine.static_thrust.max(epsilon);
    let first = true_airspeed.max(slow);
    binary64::lemma_order(true_airspeed, slow);
    binary64::lemma_order(first, epsilon);
    let speed = engine.effective_speed(p, true_airspeed);
    let v = speed.value();
    assert(speed == true_airspeed || speed == slow || speed == epsilon);
    assert(v > 0);
    track::lemma_itself(p, power, 51);
    track::lemma_over(p, speed, p.value(), 1, power, top, 51);
    let ratio = density_ratio.max(zero);
    binary64::lemma_order(density_ratio, zero);
    let r = density_ratio.value();
    assert(ratio.is_finite() && ratio.value() == r);
    track::lemma_itself(ratio, 1075, 50);
    assert(1 * v == v);
    track::lemma_times(p / speed, ratio, p.value() * o, r, v, 1, top, 1075, 50);
    let t = (p / speed * ratio).value();
    let w = p.value();
    let off = t * v - w * r;
    lemma2_to64_rest();
    lemma_pow2_pos(1074);
    let s = o * (v * 1);
    assert(t * s - (w * o) * r == o * off) by (nonlinear_arith)
        requires
            s == o * (v * 1),
            off == t * v - w * r,
    ;
    let m = pow2(top + 2) as int;
    assert(m * s == o * (m * v)) by (nonlinear_arith)
        requires
            s == o * (v * 1),
    ;
    let (q, f) = (m * v, 0x2000000000000 * off);
    assert(0x2000000000000 * (o * off) == o * f) by (nonlinear_arith)
        requires
            f == 0x2000000000000 * off,
    ;
    assert(o * (-q) == -(o * q)) by (nonlinear_arith);
    assert(-q <= f <= q) by (nonlinear_arith)
        requires
            o * (-q) <= o * f <= o * q,
            o > 0,
    ;
}

/// Thicker air never lets the engine pull less, and a faster flight never more,
/// where it pulls at all.
pub proof fn thicker_air_and_slower_flight_pull_no_less(
    engine: EngineConfig,
    throttle: Binary64,
    slower: Binary64,
    faster: Binary64,
    thinner: Binary64,
    thicker: Binary64,
)
    requires
        engine.available_power(throttle).is_finite(),
        engine.available_power(throttle).value() >= 0,
        (engine.available_power(throttle) / engine.static_thrust.max(
            Binary64::ratio(1, 0x10000000000000),
        )).is_finite(),
        slower.is_finite(),
        faster.is_finite(),
        slower.value() <= faster.value(),
        thinner.is_finite(),
        thicker.is_finite(),
        0 <= thinner.value() <= thicker.value(),
        (engine.available_power(throttle) / engine.effective_speed(
            engine.available_power(throttle),
            slower,
        )).is_finite(),
    ensures
        engine.thrust_spec(throttle, faster, thinner).value() <= engine.thrust_spec(
            throttle,
            faster,
            thicker,
        ).value(),
        engine.thrust_spec(throttle, faster, thicker).value() <= engine.thrust_spec(
            throttle,
            slower,
            thicker,
        ).value(),
{
    let p = engine.available_power(throttle);
    let epsilon = Binary64::ratio(1, 0x10000000000000);
    let zero = Binary64::of(0);
    binary64::lemma_of(0);
    binary64::lemma_ratio_share(1, 0x10000000000000);
    let slow = p / engine.static_thrust.max(epsilon);
    binary64::lemma_order(slower, slow);
    binary64::lemma_order(faster, slow);
    binary64::lemma_order(slower.max(slow), epsilon);
    binary64::lemma_order(faster.max(slow), epsilon);
    let (a, b) = (engine.effective_speed(p, slower), engine.effective_speed(p, faster));
    assert(0 < a.value() <= b.value());
    binary64::lemma_order(thinner, zero);
    binary64::lemma_order(thicker, zero);
    near::lemma_quotient_falls(p, a, b);
    let (x, y) = (p / a, p / b);
    binary64::lemma_div(p, b);
    let o = Binary64::one() as int;
    assert(p.value() * o >= 0) by (nonlinear_arith)
        requires
            p.value() >= 0,
            o >= 0,
    ;
    binary64::lemma_round_exact(zero, b.value() as nat);
    assert(0 * b.value() == 0);
    binary64::lemma_round_monotone(0, p.value() * o, b.value() as nat);
    binary64::lemma_between_finite(y, zero, x);
    near::lemma_product_grows(thinner.max(zero), thicker.max(zero), y);
    near::lemma_product_grows(y, x, thicker.max(zero));
}

/// A throttle beyond either stop counts as at the stop.
pub proof fn the_throttle_has_stops(engine: EngineConfig, throttle: Binary64)
    requires
        throttle.is_finite(),
    ensures
        throttle.value() > Binary64::one() ==> engine.available_power(throttle)
            == engine.available_power(Binary64::of(1)),
        throttle.value() < 0 ==> engine.available_power(throttle) == engine.available_power(
            Binary64::of(0),
        ),
{
    let (zero, one) = (Binary64::of(0), Binary64::of(1));
    binary64::lemma_of(0);
    binary64::lemma_of(1);
    binary64::lemma_order(throttle, zero);
    binary64::lemma_order(one, throttle);
    binary64::lemma_order(one, zero);
    binary64::lemma_order(one, one);
    binary64::lemma_order(zero, zero);
}

/// A ratio in its place among the grains.
proof fn lemma_share_of_one(n: u64, d: u64)
    requires
        0 < d <= 100_000,
        n < 2 * d,
        300 * n >= d,
    ensures
        near::sized(Binary64::ratio(n, d), 2),
        Binary64::ratio(n, d).value() >= 0x700000 * near::grain(),
        16 * n >= d ==> Binary64::ratio(n, d).value() >= 0x7000000 * near::grain(),
{
    let g = near::grain() as int;
    near::lemma_grain();
    near::lemma_small_ratio(n, d, 2);
    near::lemma_ratio(n, d);
    let x = Binary64::ratio(n, d).value();
    assert(x * d >= n * (0x100000000 * g) - d * g);
    assert(x > 0xd00000 * g) by (nonlinear_arith)
        requires
            x * d >= n * (0x100000000 * g) - d * g,
            300 * n >= d,
            d > 0,
            g > 0,
    {
        assert(300 * (n * (0x100000000 * g)) >= d * (0x100000000 * g)) by (nonlinear_arith)
            requires
                300 * n >= d,
                g > 0,
        ;
    }
    if 16 * n >= d {
        assert(x > 0xf000000 * g) by (nonlinear_arith)
            requires
                x * d >= n * (0x100000000 * g) - d * g,
                16 * n >= d,
                d > 0,
                g > 0,
        {
            assert(16 * (n * (0x100000000 * g)) >= d * (0x100000000 * g)) by (nonlinear_arith)
                requires
                    16 * n >= d,
                    g > 0,
            ;
        }
    }
}

/// The light single answers as an aircraft does. It lifts more at a greater
/// angle and with flaps, drags more with flaps, and flaps push the nose down.
/// Slipping to the right it is pushed to the left, rolls left and turns into the
/// wind; rolling is damped and turns it the other way, yawing is damped and
/// rolls it the same way, pitching is damped and a greater angle pushes the nose
/// down. The rudder turns it, pushes it aside and rolls it a little, the
/// elevator pitches it and the ailerons roll it and yaw it the other way.
pub proof fn the_light_single_answers_as_an_aircraft_does()
    ensures
        ({
            let a = aircraft::light_aero();
            &&& a.lift_zero.value() > 0 && a.lift_alpha.value() > 0 && a.lift_flaps.value() > 0
            &&& a.drag_min.value() > 0 && a.drag_flaps.value() > 0
            &&& 0 < a.oswald_efficiency.value() <= Binary64::one()
            &&& a.side_beta.value() < 0 && a.side_rudder.value() > 0
            &&& a.roll_beta.value() < 0 && a.roll_rate_p.value() < 0 && a.roll_rate_r.value() > 0
            &&& a.roll_aileron.value() > 0 && a.roll_rudder.value() > 0
            &&& a.pitch_alpha.value() < 0 && a.pitch_rate_q.value() < 0
            &&& a.pitch_elevator.value() > 0 && a.pitch_flaps.value() < 0
            &&& a.yaw_beta.value() > 0 && a.yaw_rate_p.value() < 0 && a.yaw_rate_r.value() < 0
            &&& a.yaw_aileron.value() < 0 && a.yaw_rudder.value() > 0
        }),
{
    let a = aircraft::light_aero();
    near::lemma_grain();
    binary64::lemma_ratio_positive(31, 100);
    binary64::lemma_ratio_positive(5_143, 1_000);
    binary64::lemma_ratio_positive(65, 100);
    binary64::lemma_ratio_positive(31, 1_000);
    binary64::lemma_ratio_share(75, 100);
    binary64::lemma_ratio_positive(6, 100);
    binary64::lemma_negate(Binary64::ratio(31, 100));
    binary64::lemma_ratio_positive(89, 1_000);
    binary64::lemma_negate(Binary64::ratio(89, 1_000));
    binary64::lemma_ratio_positive(47, 100);
    binary64::lemma_negate(Binary64::ratio(47, 100));
    binary64::lemma_ratio_positive(96, 1_000);
    binary64::lemma_ratio_positive(89, 100);
    binary64::lemma_negate(Binary64::ratio(89, 100));
    binary64::lemma_ratio_positive(124, 10);
    binary64::lemma_negate(Binary64::ratio(124, 10));
    binary64::lemma_ratio_positive(12, 100);
    binary64::lemma_negate(Binary64::ratio(12, 100));
    binary64::lemma_ratio_positive(65, 1_000);
    binary64::lemma_ratio_positive(3, 100);
    binary64::lemma_negate(Binary64::ratio(3, 100));
    binary64::lemma_ratio_positive(99, 1_000);
    binary64::lemma_negate(Binary64::ratio(99, 1_000));
    lemma_products();
}

proof fn lemma_products()
    ensures
        ({
            let a = aircraft::light_aero();
            &&& a.side_rudder.value() > 0 && a.roll_aileron.value() > 0 && a.roll_rudder.value() > 0
            &&& a.pitch_elevator.value() > 0 && a.yaw_rudder.value() > 0
            &&& a.yaw_aileron.value() < 0
        }),
{
    lemma_positive_product(187, 1_000, 419, 1_000);
    lemma_positive_product(178, 1_000, 349, 1_000);
    lemma_positive_product(147, 10_000, 419, 1_000);
    lemma_positive_product(128, 100, 436, 1_000);
    lemma_positive_product(657, 10_000, 419, 1_000);
    lemma_positive_product(53, 10_000, 349, 1_000);
    binary64::lemma_ratio_positive(53, 10_000);
    binary64::lemma_ratio_positive(349, 1_000);
    near::lemma_opposite_product(Binary64::ratio(53, 10_000), Binary64::ratio(349, 1_000));
}

/// A product of two ratios is positive.
proof fn lemma_positive_product(n: u64, d: u64, m: u64, e: u64)
    requires
        0 < d <= 100_000,
        0 < e <= 100_000,
        n < 2 * d,
        300 * n >= d,
        m < 2 * e,
        16 * m >= e,
    ensures
        (Binary64::ratio(n, d) * Binary64::ratio(m, e)).value() > 0,
{
    let (a, b) = (Binary64::ratio(n, d), Binary64::ratio(m, e));
    let o = Binary64::one() as int;
    let g = near::grain() as int;
    near::lemma_grain();
    lemma_share_of_one(n, d);
    lemma_share_of_one(m, e);
    near::lemma_small_product(a, b, 2, 2);
    let (x, y, p) = (a.value(), b.value(), (a * b).value());
    assert(x >= 0x700000 * g && y >= 0x7000000 * g);
    assert(x * y >= 2 * (g * o)) by (nonlinear_arith)
        requires
            x >= 0x700000 * g,
            y >= 0x7000000 * g,
            o == 0x100000000 * g,
            g > 0,
    {
        assert(x * y >= (0x700000 * g) * (0x7000000 * g)) by (nonlinear_arith)
            requires
                x >= 0x700000 * g,
                y >= 0x7000000 * g,
                g > 0,
        ;
        assert((0x700000 * g) * (0x7000000 * g) >= 2 * (g * (0x100000000 * g))) by (nonlinear_arith);
    }
    assert(p * o >= g * o);
    assert(p > 0) by (nonlinear_arith)
        requires
            p * o >= g * o,
            g > 0,
            o > 0,
    ;
}

} // verus!
