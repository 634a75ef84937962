//! How the numbers of an air sample hang together.
use crate::binary64;
use crate::binary64::Binary64;
use crate::fdm::atmosphere;
use crate::fdm::atmosphere::Layer;
use crate::near;
use crate::norm;
use crate::number;
use crate::track;
use vstd::arithmetic::power2::*;
use vstd::prelude::*;

verus! {

/// Air obeys the gas law: its density times the gas constant times its
/// temperature is its pressure, and the square of its speed of sound is the
/// ratio of its heat capacities times the gas constant times its temperature.
/// Both but for rounding.
pub proof fn the_air_obeys_the_gas_law(
    layer: Layer,
    standard: Binary64,
    offset: Binary64,
    factor: Binary64,
)
    requires
        ({
            let air = atmosphere::sample_spec(layer, standard, offset, factor);
            let heat = atmosphere::specific_gas_constant() * air.temperature;
            let sound = atmosphere::heat_capacity_ratio() * atmosphere::specific_gas_constant()
                * air.temperature;
            &&& air.pressure.is_finite()
            &&& number::magnitude_of(air.pressure.value()) <= pow2(1091)
            &&& heat.is_finite()
            &&& heat.value() >= Binary64::one()
            &&& sound.is_finite()
            &&& pow2(72) <= sound.value() <= pow2(2078)
        }),
    ensures
        ({
            let o = Binary64::one() as int;
            let air = atmosphere::sample_spec(layer, standard, offset, factor);
            let heat = (atmosphere::specific_gas_constant() * air.temperature).value();
            let w = (atmosphere::heat_capacity_ratio() * atmosphere::specific_gas_constant()
                * air.temperature).value() * o;
            let off = air.density.value() * heat - air.pressure.value() * o;
            let a = air.speed_of_sound.value();
            &&& -(o * heat) <= 0x18000000 * off <= o * heat
            &&& a > 0
            &&& -w <= 0x1800000000 * (a * a - w) <= w
        }),
{
    let o = Binary64::one() as int;
    let air = atmosphere::sample_spec(layer, standard, offset, factor);
    let d = atmosphere::specific_gas_constant() * air.temperature;
    let (p, h) = (air.pressure.value(), d.value());
    lemma_pow2_pos(1074);
    lemma_pow2_adds(1091, 1);
    lemma2_to64();
    lemma2_to64_rest();
    track::lemma_itself(air.pressure, 1091, 51);
    assert(2 * (pow2(1091) * o) <= pow2(1092) * h) by (nonlinear_arith)
        requires
            pow2(1092) == pow2(1091) * 2,
            h >= o,
            pow2(1091) >= 0,
    ;
    track::lemma_over(air.pressure, d, p, 1, 1091, 1092, 51);
    assert(1 * h == h);
    lemma_pow2_adds(1074, 18);
    assert(pow2(1092) * h == 0x40000 * (o * h)) by (nonlinear_arith)
        requires
            pow2(1092) == o * 0x40000,
    ;
    let off = air.density.value() * h - p * o;
    assert(pow2(50) * off == 0x4000000000000 * off) by (nonlinear_arith)
        requires
            pow2(50) == 0x4000000000000,
    ;
    norm::lemma_root_squared(
        atmosphere::heat_capacity_ratio() * atmosphere::specific_gas_constant() * air.temperature,
    );
}

/// Warmer air at the same height is never denser, carries sound no slower and
/// presses the same.
pub proof fn warmer_air_is_no_denser(
    layer: Layer,
    standard: Binary64,
    colder: Binary64,
    warmer: Binary64,
    factor: Binary64,
)
    requires
        near::sized(standard, 0x180),
        near::sized(colder, 0x180),
        near::sized(warmer, 0x180),
        colder.value() <= warmer.value(),
        (layer.base_pressure * factor).is_finite(),
        (layer.base_pressure * factor).value() >= 0,
    ensures
        ({
            let cold = atmosphere::sample_spec(layer, standard, colder, factor);
            let warm = atmosphere::sample_spec(layer, standard, warmer, factor);
            &&& cold.temperature.value() <= warm.temperature.value()
            &&& warm.density.value() <= cold.density.value()
            &&& cold.speed_of_sound.value() <= warm.speed_of_sound.value()
            &&& cold.pressure == warm.pressure
        }),
{
    let cold = atmosphere::sample_spec(layer, standard, colder, factor);
    let warm = atmosphere::sample_spec(layer, standard, warmer, factor);
    let one = Binary64::of(1);
    let (r, k) = (atmosphere::specific_gas_constant(), atmosphere::heat_capacity_ratio());
    near::lemma_grain();
    near::lemma_small_of(1, 1);
    binary64::lemma_of(1);
    near::lemma_small_sum(standard, colder, 0x180, 0x180);
    near::lemma_small_sum(standard, warmer, 0x180, 0x180);
    binary64::lemma_add(standard, colder);
    binary64::lemma_add(standard, warmer);
    binary64::lemma_round_monotone(
        standard.value() + colder.value(),
        standard.value() + warmer.value(),
        1,
    );
    binary64::lemma_order(standard + colder, one);
    binary64::lemma_order(standard + warmer, one);
    let (s, t) = (cold.temperature, warm.temperature);
    assert(near::sized(s, 0x301) && near::sized(t, 0x301));
    near::lemma_small_ratio(287_052_874, 1_000_000, 0x200);
    binary64::lemma_ratio_positive(287_052_874, 1_000_000);
    near::lemma_small_ratio(14, 10, 2);
    near::lemma_small_product(r, s, 0x200, 0x301);
    near::lemma_small_product(r, t, 0x200, 0x301);
    near::lemma_product_grows(s, t, r);
    lemma_at_least(r, s);
    near::lemma_quotient_falls(cold.pressure, r * s, r * t);
    near::lemma_small_product(k, r, 2, 0x200);
    near::lemma_small_product(k * r, s, 0x401, 0x301);
    near::lemma_small_product(k * r, t, 0x401, 0x301);
    near::lemma_product_grows(s, t, k * r);
    binary64::lemma_sqrt_monotone(k * r * s, k * r * t);
}

/// A number times one or more is no less.
proof fn lemma_at_least(r: Binary64, s: Binary64)
    requires
        r.is_finite(),
        s.is_finite(),
        (r * s).is_finite(),
        r.value() > 0,
        s.value() >= Binary64::one(),
    ensures
        (r * s).value() >= r.value(),
{
    let (a, b, o) = (r.value(), s.value(), Binary64::one() as int);
    assert(a * o <= a * b) by (nonlinear_arith)
        requires
            a > 0,
            o <= b,
    ;
    binary64::lemma_mul(r, s);
    binary64::lemma_order(r, r);
    binary64::lemma_round_exact(r, Binary64::one());
    binary64::lemma_round_monotone(a * o, a * b, Binary64::one());
}

} // verus!
