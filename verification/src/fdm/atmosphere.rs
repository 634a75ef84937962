//! The standard atmosphere of 1976, with a temperature that may be off.
//!
//! Heights from five kilometres below the sea to eighty-six above it; others
//! are held to these limits and a height that is no number counts as sea level,
//! so that a broken aircraft does not spread what is broken.
use crate::binary64;
use crate::binary64::Binary64;
use crate::exact;
use crate::near;
use crate::norm;
use crate::root;
use crate::rounding::Format;
use crate::sign;
use vstd::arithmetic::power2::*;
use vstd::prelude::*;

verus! {

pub open spec fn spec_standard_gravity() -> Binary64 {
    Binary64::ratio(980_665, 100_000)
}

/// Standard gravity in metres per second squared.
#[verifier::when_used_as_spec(spec_standard_gravity)]
pub fn standard_gravity() -> (r: Binary64)
    ensures
        r == standard_gravity(),
{
    Binary64::ratio(980_665, 100_000)
}

pub open spec fn spec_specific_gas_constant() -> Binary64 {
    Binary64::ratio(287_052_874, 1_000_000)
}

/// The gas constant of dry air in joules per kilogram and kelvin.
#[verifier::when_used_as_spec(spec_specific_gas_constant)]
pub fn specific_gas_constant() -> (r: Binary64)
    ensures
        r == specific_gas_constant(),
{
    Binary64::ratio(287_052_874, 1_000_000)
}

pub open spec fn spec_heat_capacity_ratio() -> Binary64 {
    Binary64::ratio(14, 10)
}

/// The ratio of the heat capacities of air.
#[verifier::when_used_as_spec(spec_heat_capacity_ratio)]
pub fn heat_capacity_ratio() -> (r: Binary64)
    ensures
        r == heat_capacity_ratio(),
{
    Binary64::ratio(14, 10)
}

pub open spec fn spec_effective_earth_radius() -> Binary64 {
    Binary64::of(6_356_766)
}

/// The radius by which heights are made geopotential, in metres.
#[verifier::when_used_as_spec(spec_effective_earth_radius)]
pub fn effective_earth_radius() -> (r: Binary64)
    ensures
        r == effective_earth_radius(),
{
    Binary64::of(6_356_766)
}

pub open spec fn spec_sea_level_pressure() -> Binary64 {
    Binary64::of(101_325)
}

/// The pressure at sea level in pascals.
#[verifier::when_used_as_spec(spec_sea_level_pressure)]
pub fn sea_level_pressure() -> (r: Binary64)
    ensures
        r == sea_level_pressure(),
{
    Binary64::of(101_325)
}

pub open spec fn spec_sea_level_temperature() -> Binary64 {
    Binary64::ratio(28_815, 100)
}

/// The temperature at sea level in kelvins.
#[verifier::when_used_as_spec(spec_sea_level_temperature)]
pub fn sea_level_temperature() -> (r: Binary64)
    ensures
        r == sea_level_temperature(),
{
    Binary64::ratio(28_815, 100)
}

pub open spec fn spec_sea_level_density() -> Binary64 {
    sea_level_pressure() / (specific_gas_constant() * sea_level_temperature())
}

/// The density at sea level in kilograms per cubic metre.
#[verifier::when_used_as_spec(spec_sea_level_density)]
pub fn sea_level_density() -> (r: Binary64)
    ensures
        r == sea_level_density(),
{
    sea_level_pressure() / (specific_gas_constant() * sea_level_temperature())
}

/// A layer of the atmosphere, by what holds at its bottom.
#[derive(Clone, Copy, PartialEq, Eq, Debug, Structural)]
pub struct Layer {
    /// The geopotential height in metres.
    pub base_altitude: Binary64,
    /// The temperature in kelvins.
    pub base_temperature: Binary64,
    /// The pressure in pascals.
    pub base_pressure: Binary64,
    /// The change of temperature in kelvins per metre.
    pub lapse_rate: Binary64,
}

pub open spec fn spec_layer(i: int) -> Layer {
    if i <= 0 {
        Layer {
            base_altitude: Binary64::of(0),
            base_temperature: Binary64::ratio(28_815, 100),
            base_pressure: Binary64::of(101_325),
            lapse_rate: Binary64::ratio(65, 10_000).negate(),
        }
    } else if i == 1 {
        Layer {
            base_altitude: Binary64::of(11_000),
            base_temperature: Binary64::ratio(21_665, 100),
            base_pressure: Binary64::ratio(2_263_206, 100),
            lapse_rate: Binary64::of(0),
        }
    } else if i == 2 {
        Layer {
            base_altitude: Binary64::of(20_000),
            base_temperature: Binary64::ratio(21_665, 100),
            base_pressure: Binary64::ratio(5_474_889, 1_000),
            lapse_rate: Binary64::ratio(1, 1_000),
        }
    } else if i == 3 {
        Layer {
            base_altitude: Binary64::of(32_000),
            base_temperature: Binary64::ratio(22_865, 100),
            base_pressure: Binary64::ratio(8_680_187, 10_000),
            lapse_rate: Binary64::ratio(28, 10_000),
        }
    } else if i == 4 {
        Layer {
            base_altitude: Binary64::of(47_000),
            base_temperature: Binary64::ratio(27_065, 100),
            base_pressure: Binary64::ratio(1_109_063, 10_000),
            lapse_rate: Binary64::of(0),
        }
    } else if i == 5 {
        Layer {
            base_altitude: Binary64::of(51_000),
            base_temperature: Binary64::ratio(27_065, 100),
            base_pressure: Binary64::ratio(6_693_887, 100_000),
            lapse_rate: Binary64::ratio(28, 10_000).negate(),
        }
    } else {
        Layer {
            base_altitude: Binary64::of(71_000),
            base_temperature: Binary64::ratio(21_465, 100),
            base_pressure: Binary64::ratio(3_956_420, 1_000_000),
            lapse_rate: Binary64::ratio(2, 1_000).negate(),
        }
    }
}

/// The layers from the ground up.
pub fn layer(i: usize) -> (r: Layer)
    ensures
        r == spec_layer(i as int),
{
    match i {
        0 => Layer {
            base_altitude: Binary64::of(0),
            base_temperature: Binary64::ratio(28_815, 100),
            base_pressure: Binary64::of(101_325),
            lapse_rate: Binary64::ratio(65, 10_000).negate(),
        },
        1 => Layer {
            base_altitude: Binary64::of(11_000),
            base_temperature: Binary64::ratio(21_665, 100),
            base_pressure: Binary64::ratio(2_263_206, 100),
            lapse_rate: Binary64::of(0),
        },
        2 => Layer {
            base_altitude: Binary64::of(20_000),
            base_temperature: Binary64::ratio(21_665, 100),
            base_pressure: Binary64::ratio(5_474_889, 1_000),
            lapse_rate: Binary64::ratio(1, 1_000),
        },
        3 => Layer {
            base_altitude: Binary64::of(32_000),
            base_temperature: Binary64::ratio(22_865, 100),
            base_pressure: Binary64::ratio(8_680_187, 10_000),
            lapse_rate: Binary64::ratio(28, 10_000),
        },
        4 => Layer {
            base_altitude: Binary64::of(47_000),
            base_temperature: Binary64::ratio(27_065, 100),
            base_pressure: Binary64::ratio(1_109_063, 10_000),
            lapse_rate: Binary64::of(0),
        },
        5 => Layer {
            base_altitude: Binary64::of(51_000),
            base_temperature: Binary64::ratio(27_065, 100),
            base_pressure: Binary64::ratio(6_693_887, 100_000),
            lapse_rate: Binary64::ratio(28, 10_000).negate(),
        },
        _ => Layer {
            base_altitude: Binary64::of(71_000),
            base_temperature: Binary64::ratio(21_465, 100),
            base_pressure: Binary64::ratio(3_956_420, 1_000_000),
            lapse_rate: Binary64::ratio(2, 1_000).negate(),
        },
    }
}

/// The highest layer from `i` on whose bottom, and those of all between, are
/// not above the height.
pub open spec fn layer_from(i: int, geopotential: Binary64) -> Layer
    decreases 6 - i,
{
    if i < 6 && geopotential >= spec_layer(i + 1).base_altitude {
        layer_from(i + 1, geopotential)
    } else {
        spec_layer(i)
    }
}

/// The layer that a geopotential height lies in; below all it is the lowest.
pub fn layer_for(geopotential: Binary64) -> (r: Layer)
    ensures
        r == layer_from(0, geopotential),
{
    let mut i: usize = 0;
    while i < 6 && geopotential.ge(layer(i + 1).base_altitude)
        invariant
            i <= 6,
            layer_from(0, geopotential) == layer_from(i as int, geopotential),
        decreases 6 - i,
    {
        i = i + 1;
    }
    layer(i)
}

pub open spec fn spec_geopotential_altitude(geometric: Binary64) -> Binary64 {
    effective_earth_radius() * geometric / (effective_earth_radius() + geometric)
}

/// The height that gravity weakening with height is folded into.
#[verifier::when_used_as_spec(spec_geopotential_altitude)]
pub fn geopotential_altitude(geometric: Binary64) -> (r: Binary64)
    ensures
        r == geopotential_altitude(geometric),
{
    effective_earth_radius() * geometric / (effective_earth_radius() + geometric)
}

/// A height within the limits of the model.
pub open spec fn held_altitude(geometric: Binary64) -> Binary64 {
    if geometric.is_nan() {
        Binary64::of(0)
    } else {
        geometric.clamp(Binary64::of(5_000).negate(), Binary64::of(86_000))
    }
}

/// A height within the limits of the model.
fn hold_altitude(geometric: Binary64) -> (r: Binary64)
    ensures
        r == held_altitude(geometric),
{
    proof {
        no_height_is_out_of_reach(geometric);
    }
    if geometric.is_nan() {
        Binary64::of(0)
    } else {
        geometric.clamp(Binary64::of(5_000).negate(), Binary64::of(86_000))
    }
}

pub open spec fn spec_layer_temperature(layer: Layer, geopotential: Binary64) -> Binary64 {
    layer.base_temperature + layer.lapse_rate * (geopotential - layer.base_altitude)
}

/// The standard temperature of a layer at a geopotential height.
#[verifier::when_used_as_spec(spec_layer_temperature)]
pub fn layer_temperature(layer: Layer, geopotential: Binary64) -> (r: Binary64)
    ensures
        r == layer_temperature(layer, geopotential),
{
    layer.base_temperature + layer.lapse_rate * (geopotential - layer.base_altitude)
}

/// What the pressure at the bottom of a layer is multiplied by.
#[derive(Clone, Copy, PartialEq, Eq, Debug, Structural)]
pub enum PressureLaw {
    /// The exponential of this, where the temperature stays the same.
    Exponential(Binary64),
    /// This base to the power of this exponent, where it changes.
    Power { base: Binary64, exponent: Binary64 },
}

pub open spec fn spec_layer_law(layer: Layer, geopotential: Binary64, temperature: Binary64) -> PressureLaw {
    if layer.lapse_rate.abs() < Binary64::ratio(1, 0x10000000000000) {
        PressureLaw::Exponential(
            standard_gravity().negate() * (geopotential - layer.base_altitude) / (
            specific_gas_constant() * layer.base_temperature),
        )
    } else {
        PressureLaw::Power {
            base: layer.base_temperature / temperature,
            exponent: standard_gravity() / (specific_gas_constant() * layer.lapse_rate),
        }
    }
}

/// How the pressure changes through a layer.
#[verifier::when_used_as_spec(spec_layer_law)]
pub fn layer_law(layer: Layer, geopotential: Binary64, temperature: Binary64) -> (r: PressureLaw)
    ensures
        r == layer_law(layer, geopotential, temperature),
{
    if layer.lapse_rate.abs().lt(Binary64::ratio(1, 0x10000000000000)) {
        PressureLaw::Exponential(
            standard_gravity().negate() * (geopotential - layer.base_altitude) / (
            specific_gas_constant() * layer.base_temperature),
        )
    } else {
        PressureLaw::Power {
            base: layer.base_temperature / temperature,
            exponent: standard_gravity() / (specific_gas_constant() * layer.lapse_rate),
        }
    }
}

/// The air at some height.
#[derive(Clone, Copy, PartialEq, Eq, Debug, Structural)]
pub struct AtmosphereSample {
    /// In kelvins.
    pub temperature: Binary64,
    /// In pascals.
    pub pressure: Binary64,
    /// In kilograms per cubic metre.
    pub density: Binary64,
    /// In metres per second.
    pub speed_of_sound: Binary64,
}

impl AtmosphereSample {
    pub open spec fn spec_density_ratio(self) -> Binary64 {
        self.density / sea_level_density()
    }

    /// The density over that at sea level.
    #[verifier::when_used_as_spec(spec_density_ratio)]
    pub fn density_ratio(self) -> (r: Binary64)
        ensures
            r == self.density_ratio(),
    {
        self.density / sea_level_density()
    }

    pub open spec fn spec_mach(self, true_airspeed: Binary64) -> Binary64 {
        true_airspeed / self.speed_of_sound
    }

    /// An airspeed over that of sound.
    #[verifier::when_used_as_spec(spec_mach)]
    pub fn mach(self, true_airspeed: Binary64) -> (r: Binary64)
        ensures
            r == self.mach(true_airspeed),
    {
        true_airspeed / self.speed_of_sound
    }

    pub open spec fn spec_is_finite(self) -> bool {
        self.temperature.is_finite() && self.pressure.is_finite() && self.density.is_finite()
            && self.speed_of_sound.is_finite()
    }

    #[verifier::when_used_as_spec(spec_is_finite)]
    pub fn is_finite(self) -> (r: bool)
        ensures
            r == self.is_finite(),
    {
        self.temperature.is_finite() && self.pressure.is_finite() && self.density.is_finite()
            && self.speed_of_sound.is_finite()
    }
}

/// The atmosphere, so many kelvins off the standard.
#[derive(Clone, Copy, PartialEq, Eq, Debug, Structural)]
pub struct Atmosphere {
    pub temperature_offset: Binary64,
}

/// The air for the pressure factor of its height: the pressure is always the
/// standard one, and the temperature never falls below one kelvin.
pub open spec fn sample_spec(layer: Layer, standard: Binary64, offset: Binary64, factor: Binary64) -> AtmosphereSample {
    let pressure = layer.base_pressure * factor;
    let temperature = (standard + offset).max(Binary64::of(1));
    AtmosphereSample {
        temperature,
        pressure,
        density: pressure / (specific_gas_constant() * temperature),
        speed_of_sound: (heat_capacity_ratio() * specific_gas_constant() * temperature).sqrt(),
    }
}

/// The geopotential height that stands for a geometric one.
pub open spec fn model_height(geometric: Binary64) -> Binary64 {
    geopotential_altitude(held_altitude(geometric))
}

impl Atmosphere {
    pub open spec fn spec_standard() -> Atmosphere {
        Atmosphere { temperature_offset: Binary64::of(0) }
    }

    /// The standard atmosphere.
    #[verifier::when_used_as_spec(spec_standard)]
    pub fn standard() -> (r: Atmosphere)
        ensures
            r == Atmosphere::standard(),
    {
        Atmosphere { temperature_offset: Binary64::of(0) }
    }

    pub open spec fn spec_with_temperature_offset(offset: Binary64) -> Atmosphere {
        Atmosphere { temperature_offset: offset }
    }

    /// An atmosphere so many kelvins off the standard.
    #[verifier::when_used_as_spec(spec_with_temperature_offset)]
    pub fn with_temperature_offset(offset: Binary64) -> (r: Atmosphere)
        ensures
            r == Atmosphere::with_temperature_offset(offset),
    {
        Atmosphere { temperature_offset: offset }
    }

    /// How many kelvins it is off the standard.
    pub fn temperature_offset(self) -> (r: Binary64)
        ensures
            r == self.temperature_offset,
    {
        self.temperature_offset
    }

    /// What the pressure at a geometric height asks for.
    pub fn pressure_law(geometric_altitude: Binary64) -> (r: PressureLaw)
        ensures
            ({
                let h = model_height(geometric_altitude);
                let layer = layer_from(0, h);
                r == layer_law(layer, h, layer_temperature(layer, h))
            }),
    {
        let h = geopotential_altitude(hold_altitude(geometric_altitude));
        let layer = layer_for(h);
        layer_law(layer, h, layer_temperature(layer, h))
    }

    /// The air at a geometric height; `factor` is what its pressure law comes
    /// to.
    pub fn sample(self, geometric_altitude: Binary64, factor: Binary64) -> (r: AtmosphereSample)
        ensures
            ({
                let h = model_height(geometric_altitude);
                let layer = layer_from(0, h);
                r == sample_spec(
                    layer,
                    layer_temperature(layer, h),
                    self.temperature_offset,
                    factor,
                )
            }),
    {
        let h = geopotential_altitude(hold_altitude(geometric_altitude));
        let layer = layer_for(h);
        let pressure = layer.base_pressure * factor;
        let temperature = (layer_temperature(layer, h) + self.temperature_offset).max(
            Binary64::of(1),
        );
        AtmosphereSample {
            temperature,
            pressure,
            density: pressure / (specific_gas_constant() * temperature),
            speed_of_sound: (heat_capacity_ratio() * specific_gas_constant() * temperature).sqrt(),
        }
    }
}

impl Default for Atmosphere {
    fn default() -> (r: Atmosphere)
        ensures
            r == Atmosphere::standard(),
    {
        Atmosphere::standard()
    }
}

/// Every height, even one that is no number, is held to a finite one within the
/// limits of the model.
pub proof fn no_height_is_out_of_reach(geometric: Binary64)
    ensures
        held_altitude(geometric).is_finite(),
        Binary64::of(5_000).negate() <= held_altitude(geometric),
        held_altitude(geometric) <= Binary64::of(86_000),
        Binary64::of(5_000).negate() <= Binary64::of(86_000),
{
    let low = Binary64::of(5_000).negate();
    let high = Binary64::of(86_000);
    let one = Binary64::one();
    binary64::lemma_of(0);
    binary64::lemma_of(5_000);
    binary64::lemma_of(86_000);
    binary64::lemma_negate(Binary64::of(5_000));
    assert(-(5_000 * one) <= 0 <= 86_000 * one && 5_000 * one <= 86_000 * one) by (nonlinear_arith)
        requires
            one > 0,
    ;
    binary64::lemma_order(low, high);
    binary64::lemma_order(low, low);
    binary64::lemma_order(high, high);
    binary64::lemma_order(low, Binary64::of(0));
    binary64::lemma_order(Binary64::of(0), high);
    binary64::lemma_order(geometric, low);
    binary64::lemma_order(high, geometric);
    binary64::lemma_order(low, geometric);
    binary64::lemma_order(geometric, high);
    if !geometric.is_nan() {
        binary64::lemma_finite_below(held_altitude(geometric), high);
    }
}

/// However far off the temperature is said to be, it is never below one kelvin,
/// so the density cannot change its sign.
pub proof fn the_temperature_stays_above_absolute_zero(
    layer: Layer,
    standard: Binary64,
    offset: Binary64,
    factor: Binary64,
)
    ensures
        sample_spec(layer, standard, offset, factor).temperature >= Binary64::of(1),
{
    let warm = standard + offset;
    let one = Binary64::of(1);
    binary64::lemma_of(1);
    binary64::lemma_order(warm, one);
    binary64::lemma_order(one, warm);
    binary64::lemma_order(one, one);
}

/// Warmer or colder than the standard, the pressure is the same.
pub proof fn an_offset_leaves_the_pressure_alone(
    layer: Layer,
    standard: Binary64,
    offset: Binary64,
    factor: Binary64,
)
    ensures
        sample_spec(layer, standard, offset, factor).pressure == sample_spec(
            layer,
            standard,
            Binary64::of(0),
            factor,
        ).pressure,
{
}

/// Whatever the temperature is said to be, air never weighs less than nothing.
pub proof fn the_density_is_never_negative(
    layer: Layer,
    standard: Binary64,
    offset: Binary64,
    factor: Binary64,
)
    requires
        layer.base_pressure.value() >= 0,
        factor.value() >= 0,
    ensures
        !(sample_spec(layer, standard, offset, factor).pressure < Binary64::of(0)),
        !(sample_spec(layer, standard, offset, factor).density < Binary64::of(0)),
{
    let zero = Binary64::of(0);
    let sample = sample_spec(layer, standard, offset, factor);
    let gas = specific_gas_constant();
    binary64::lemma_of(0);
    binary64::lemma_of(1);
    the_temperature_stays_above_absolute_zero(layer, standard, offset, factor);
    binary64::lemma_order(Binary64::of(1), sample.temperature);
    sign::lemma_product(layer.base_pressure, factor);
    binary64::lemma_ratio_bounds(287_052_874, 1_000_000, 287, 288);
    assert(287 * Binary64::one() > 0) by (nonlinear_arith)
        requires
            Binary64::one() > 0,
    ;
    sign::lemma_product_sign(gas, sample.temperature);
    sign::lemma_quotient(sample.pressure, gas * sample.temperature);
    binary64::lemma_order(sample.pressure, zero);
    binary64::lemma_order(sample.density, zero);
}

/// The layer and a height in it give ordinary numbers, and air that is warmer
/// than absolute zero.
pub open spec fn sound(layer: Layer, geopotential: Binary64) -> bool {
    let up = geopotential - layer.base_altitude;
    &&& geopotential.is_finite()
    &&& layer.base_altitude.is_finite()
    &&& layer.lapse_rate.is_finite()
    &&& layer.base_temperature.is_finite()
    &&& layer.base_temperature.value() > 0
    &&& up.is_finite()
    &&& (layer.lapse_rate * up).is_finite()
    &&& (standard_gravity().negate() * up).is_finite()
    &&& (specific_gas_constant() * layer.base_temperature).is_finite()
    &&& (specific_gas_constant() * layer.base_temperature).value() > 0
    &&& layer_temperature(layer, geopotential).is_finite()
    &&& layer_temperature(layer, geopotential).value() > 0
}

/// How the factor of the pressure moves on the way up through a layer: the
/// exponential is of no more where the air keeps its temperature; else the
/// exponent stays, and its base does not fall where the air cools and does not
/// rise where it warms.
pub proof fn the_pressure_law_moves_one_way_on_the_way_up(layer: Layer, low: Binary64, high: Binary64)
    requires
        sound(layer, low),
        sound(layer, high),
        low.value() <= high.value(),
    ensures
        match (
            layer_law(layer, low, layer_temperature(layer, low)),
            layer_law(layer, high, layer_temperature(layer, high)),
        ) {
            (PressureLaw::Exponential(a), PressureLaw::Exponential(b)) => b.value() <= a.value(),
            (
                PressureLaw::Power { base: a, exponent: e },
                PressureLaw::Power { base: b, exponent: f },
            ) => {
                &&& e == f
                &&& layer.lapse_rate.value() < 0 ==> a.value() <= b.value()
                &&& layer.lapse_rate.value() > 0 ==> b.value() <= a.value()
            },
            _ => false,
        },
{
    let base = layer.base_altitude.negate();
    binary64::lemma_negate(layer.base_altitude);
    let (p, q) = (low - layer.base_altitude, high - layer.base_altitude);
    near::lemma_sum_grows(low, high, base);
    assert(p == low + base && q == high + base);
    binary64::lemma_ratio_positive(980_665, 100_000);
    let g = standard_gravity();
    binary64::lemma_negate(g);
    near::lemma_product_grows(p, q, g);
    near::lemma_opposite_product(g, p);
    near::lemma_opposite_product(g, q);
    let r = specific_gas_constant() * layer.base_temperature;
    let (v, w) = (g.negate() * p, g.negate() * q);
    binary64::lemma_div(v, r);
    binary64::lemma_div(w, r);
    let one = Binary64::one() as int;
    assert(w.value() * one <= v.value() * one) by (nonlinear_arith)
        requires
            w.value() <= v.value(),
            one >= 0,
    ;
    binary64::lemma_round_monotone(w.value() * one, v.value() * one, r.value() as nat);
    let lapse = layer.lapse_rate;
    let (s, t) = (lapse * p, lapse * q);
    let (cold, warm) = (layer_temperature(layer, low), layer_temperature(layer, high));
    sign::lemma_sum_commutes(layer.base_temperature, s);
    sign::lemma_sum_commutes(layer.base_temperature, t);
    if lapse.value() > 0 {
        near::lemma_product_grows(p, q, lapse);
        near::lemma_sum_grows(s, t, layer.base_temperature);
        near::lemma_quotient_falls(layer.base_temperature, cold, warm);
    } else if lapse.value() < 0 {
        let back = lapse.negate();
        binary64::lemma_negate(lapse);
        near::lemma_product_grows(p, q, back);
        near::lemma_opposite_product(lapse, p);
        near::lemma_opposite_product(lapse, q);
        near::lemma_sum_grows(t, s, layer.base_temperature);
        near::lemma_quotient_falls(layer.base_temperature, warm, cold);
    }
}

/// Where the factor of a height is no more, neither is the pressure, nor the
/// density of air as warm.
pub proof fn a_smaller_factor_gives_no_denser_air(
    layer: Layer,
    standard: Binary64,
    offset: Binary64,
    less: Binary64,
    more: Binary64,
)
    requires
        layer.base_pressure.is_finite(),
        layer.base_pressure.value() >= 0,
        less.is_finite(),
        more.is_finite(),
        less.value() <= more.value(),
        sample_spec(layer, standard, offset, less).pressure.is_finite(),
        sample_spec(layer, standard, offset, more).pressure.is_finite(),
        (specific_gas_constant() * sample_spec(
            layer,
            standard,
            offset,
            less,
        ).temperature).is_finite(),
        (specific_gas_constant() * sample_spec(layer, standard, offset, less).temperature).value()
            > 0,
    ensures
        sample_spec(layer, standard, offset, less).pressure.value() <= sample_spec(
            layer,
            standard,
            offset,
            more,
        ).pressure.value(),
        sample_spec(layer, standard, offset, less).density.value() <= sample_spec(
            layer,
            standard,
            offset,
            more,
        ).density.value(),
{
    near::lemma_product_grows(less, more, layer.base_pressure);
    let (a, b) = (layer.base_pressure * less, layer.base_pressure * more);
    let r = specific_gas_constant() * sample_spec(layer, standard, offset, less).temperature;
    binary64::lemma_div(a, r);
    binary64::lemma_div(b, r);
    let one = Binary64::one() as int;
    assert(a.value() * one <= b.value() * one) by (nonlinear_arith)
        requires
            a.value() <= b.value(),
            one >= 0,
    ;
    binary64::lemma_round_monotone(a.value() * one, b.value() * one, r.value() as nat);
}

/// The first number is less than the second by one in so many parts of it, or
/// more.
pub open spec fn falls_by(less: int, more: int, parts: int) -> bool {
    less * parts <= more * (parts - 1)
}

/// Air as there is on earth, and far beyond: pressures of a layer, a factor of
/// them, and temperatures.
pub open spec fn is_air(layer: Layer, standard: Binary64, offset: Binary64, factor: Binary64) -> bool {
    &&& near::sized(layer.base_pressure, 0x20000)
    &&& layer.base_pressure.value() >= Binary64::one()
    &&& near::sized(factor, 8)
    &&& 0x400 * factor.value() >= Binary64::one()
    &&& near::sized(standard, 2048)
    &&& near::sized(offset, 1024)
}

/// Each layer of the atmosphere begins with such a pressure.
pub proof fn every_layer_has_a_pressure(i: int)
    ensures
        near::sized(spec_layer(i).base_pressure, 0x20000),
        spec_layer(i).base_pressure.value() >= Binary64::one(),
{
    let o = Binary64::one() as int;
    near::lemma_grain();
    near::lemma_small_of(101_325, 0x20000);
    near::lemma_small_ratio(2_263_206, 100, 0x20000);
    near::lemma_small_ratio(5_474_889, 1_000, 0x20000);
    near::lemma_small_ratio(8_680_187, 10_000, 0x20000);
    near::lemma_small_ratio(1_109_063, 10_000, 0x20000);
    near::lemma_small_ratio(6_693_887, 100_000, 0x20000);
    near::lemma_small_ratio(3_956_420, 1_000_000, 0x20000);
    near::lemma_ratio(2_263_206, 100);
    near::lemma_ratio(5_474_889, 1_000);
    near::lemma_ratio(8_680_187, 10_000);
    near::lemma_ratio(1_109_063, 10_000);
    near::lemma_ratio(6_693_887, 100_000);
    near::lemma_ratio(3_956_420, 1_000_000);
}

/// How high a height is in the model.
proof fn lemma_height(geometric: Binary64)
    ensures
        near::sized(model_height(geometric), 0x20000),
{
    let o = Binary64::one() as int;
    let r = effective_earth_radius();
    let x = held_altitude(geometric);
    let most = Binary64::of(550_000_000_000);
    let high = Binary64::of(0x20000);
    let (least, low) = (most.negate(), high.negate());
    no_height_is_out_of_reach(geometric);
    near::lemma_grain();
    binary64::lemma_of(5_000);
    binary64::lemma_of(86_000);
    binary64::lemma_negate(Binary64::of(5_000));
    binary64::lemma_order(Binary64::of(5_000).negate(), x);
    binary64::lemma_order(x, Binary64::of(86_000));
    binary64::lemma_of(6_356_766);
    binary64::lemma_of(550_000_000_000);
    binary64::lemma_of(0x20000);
    binary64::lemma_negate(most);
    binary64::lemma_negate(high);
    let v = x.value();
    assert(-(5_000 * o) <= v <= 86_000 * o);
    let (a, b) = (r * x, r + x);
    let rv = r.value();
    assert((-(550_000_000_000 * o)) * o <= rv * v <= (550_000_000_000 * o) * o) by (nonlinear_arith)
        requires
            rv == 6_356_766 * o,
            -(5_000 * o) <= v <= 86_000 * o,
            o > 0,
    ;
    binary64::lemma_product_between(r, x, least, most);
    lemma_pow2_adds(1074, 23);
    lemma2_to64();
    near::lemma_sum(r, x, 1097);
    lemma_pow2_strictly_increases(1045, 1074);
    let (p, q) = (a.value(), b.value());
    assert(6_351_765 * o <= q);
    assert((-(0x20000 * o)) * q <= p * o <= (0x20000 * o) * q) by (nonlinear_arith)
        requires
            -550_000_000_000 * o <= p <= 550_000_000_000 * o,
            6_351_765 * o <= q,
            o > 0,
    {
        let (s, t) = (p * o, q * o);
        assert(-550_000_000_000 * (o * o) <= s <= 550_000_000_000 * (o * o)) by (nonlinear_arith)
            requires
                -550_000_000_000 * o <= p <= 550_000_000_000 * o,
                s == p * o,
                o > 0,
        ;
        assert(6_351_765 * (o * o) <= t) by (nonlinear_arith)
            requires
                6_351_765 * o <= q,
                t == q * o,
                o > 0,
        ;
        assert((-(0x20000 * o)) * q == -0x20000 * t && (0x20000 * o) * q == 0x20000 * t)
            by (nonlinear_arith)
            requires
                t == q * o,
        ;
        assert(o * o > 0) by (nonlinear_arith)
            requires
                o > 0,
        ;
    }
    binary64::lemma_quotient_between(a, b, low, high);
}

/// What a layer is made of is small.
proof fn lemma_layer_parts(i: int)
    ensures
        ({
            let layer = spec_layer(i);
            &&& near::sized(layer.base_altitude, 71_001)
            &&& near::sized(layer.base_temperature, 289)
            &&& near::sized(layer.lapse_rate, 1)
            &&& -(Binary64::one() as int) <= 128 * layer.lapse_rate.value() <= Binary64::one()
        }),
{
    near::lemma_grain();
    near::lemma_small_of(0, 71_001);
    near::lemma_small_of(11_000, 71_001);
    near::lemma_small_of(20_000, 71_001);
    near::lemma_small_of(32_000, 71_001);
    near::lemma_small_of(47_000, 71_001);
    near::lemma_small_of(51_000, 71_001);
    near::lemma_small_of(71_000, 71_001);
    near::lemma_small_ratio(28_815, 100, 289);
    near::lemma_small_ratio(21_665, 100, 289);
    near::lemma_small_ratio(22_865, 100, 289);
    near::lemma_small_ratio(27_065, 100, 289);
    near::lemma_small_ratio(21_465, 100, 289);
    near::lemma_small_of(0, 1);
    near::lemma_small_ratio(65, 10_000, 1);
    near::lemma_small_ratio(1, 1_000, 1);
    near::lemma_small_ratio(28, 10_000, 1);
    near::lemma_small_ratio(2, 1_000, 1);
    near::lemma_ratio(65, 10_000);
    near::lemma_ratio(1, 1_000);
    near::lemma_ratio(28, 10_000);
    near::lemma_ratio(2, 1_000);
    binary64::lemma_of(0);
    binary64::lemma_negate(Binary64::ratio(65, 10_000));
    binary64::lemma_negate(Binary64::ratio(28, 10_000));
    binary64::lemma_negate(Binary64::ratio(2, 1_000));
}

/// The layer for a height is one of the layers.
proof fn lemma_layer_from(i: int, h: Binary64) -> (j: int)
    requires
        0 <= i <= 6,
    ensures
        layer_from(i, h) == spec_layer(j),
    decreases 6 - i,
{
    if i < 6 && h >= spec_layer(i + 1).base_altitude {
        lemma_layer_from(i + 1, h)
    } else {
        i
    }
}

/// Every height, even one that is no number, has such air, whatever factor and
/// offset the day comes with.
pub proof fn every_height_has_such_air(geometric: Binary64, offset: Binary64, factor: Binary64)
    requires
        near::sized(offset, 1024),
        near::sized(factor, 8),
        0x400 * factor.value() >= Binary64::one(),
    ensures
        ({
            let h = model_height(geometric);
            let layer = layer_from(0, h);
            is_air(layer, layer_temperature(layer, h), offset, factor)
        }),
{
    let o = Binary64::one() as int;
    let g = near::grain() as int;
    let h = model_height(geometric);
    let layer = layer_from(0, h);
    let j = lemma_layer_from(0, h);
    near::lemma_grain();
    lemma_height(geometric);
    every_layer_has_a_pressure(j);
    lemma_layer_parts(j);
    let d = h - layer.base_altitude;
    near::lemma_small_difference(h, layer.base_altitude, 0x20000, 71_001);
    near::lemma_small_product(layer.lapse_rate, d, 1, 202_074);
    let m = layer.lapse_rate * d;
    let (l, e, p) = (layer.lapse_rate.value(), d.value(), m.value());
    assert(-(1_600 * o) <= p <= 1_600 * o) by (nonlinear_arith)
        requires
            -(g * o) <= p * o - l * e <= g * o,
            -o <= 128 * l <= o,
            -(202_074 * o) <= e <= 202_074 * o,
            o == 0x100000000 * g,
            g > 0,
    {
        let w = 128 * l;
        assert(-(o * (202_074 * o)) <= w * e <= o * (202_074 * o)) by (nonlinear_arith)
            requires
                -o <= w <= o,
                -(202_074 * o) <= e <= 202_074 * o,
        ;
        let (le, oo, po, go) = (l * e, o * o, p * o, g * o);
        assert(w * e == 128 * le && o * (202_074 * o) == 202_074 * oo) by (nonlinear_arith)
            requires
                w == 128 * l,
                le == l * e,
                oo == o * o,
        ;
        assert(oo == 0x100000000 * go && go > 0) by (nonlinear_arith)
            requires
                oo == o * o,
                go == g * o,
                o == 0x100000000 * g,
                g > 0,
        ;
        assert(-(1_600 * oo) <= po <= 1_600 * oo);
        assert(-(1_600 * o) <= p <= 1_600 * o) by (nonlinear_arith)
            requires
                -(1_600 * (o * o)) <= p * o <= 1_600 * (o * o),
                o > 0,
        ;
    }
    near::lemma_small_sum(layer.base_temperature, m, 289, 1_600);
    near::lemma_larger(layer.base_temperature + m, 1_890, 2048);
}

/// The pressure, the temperature and what they are divided by.
proof fn lemma_air(layer: Layer, standard: Binary64, offset: Binary64, factor: Binary64)
    requires
        is_air(layer, standard, offset, factor),
    ensures
        ({
            let o = Binary64::one() as int;
            let s = sample_spec(layer, standard, offset, factor);
            let r = specific_gas_constant() * s.temperature;
            &&& near::sized(s.pressure, 0x100001)
            &&& 0x800 * s.pressure.value() >= o
            &&& near::sized(s.temperature, 3073)
            &&& s.temperature.value() >= o
            &&& near::sized(r, 0x100000)
            &&& r.value() >= 200 * o
        }),
{
    let o = Binary64::one() as int;
    let g = near::grain() as int;
    let (p, k) = (layer.base_pressure, specific_gas_constant());
    near::lemma_grain();
    near::lemma_small_product(p, factor, 0x20000, 8);
    let q = (p * factor).value();
    assert(0x800 * q >= o) by (nonlinear_arith)
        requires
            p.value() * factor.value() - q * o <= g * o,
            p.value() >= o,
            0x400 * factor.value() >= o,
            o == 0x100000000 * g,
            g > 0,
    ;
    near::lemma_small_sum(standard, offset, 2048, 1024);
    let warm = standard + offset;
    let one = Binary64::of(1);
    near::lemma_small_of(1, 3073);
    binary64::lemma_order(warm, one);
    binary64::lemma_order(one, warm);
    let t = warm.max(one);
    near::lemma_small_ratio(287_052_874, 1_000_000, 288);
    near::lemma_ratio(287_052_874, 1_000_000);
    near::lemma_small_product(k, t, 288, 3073);
    near::lemma_larger(k * t, 885025, 0x100000);
    let (kv, tv, r) = (k.value(), t.value(), (k * t).value());
    assert(287 * o <= kv);
    assert(r >= 200 * o) by (nonlinear_arith)
        requires
            kv * tv - r * o <= g * o,
            287 * o <= kv,
            o <= tv,
            o == 0x100000000 * g,
            g > 0,
    ;
}

/// There is air at every height: all that a sample holds is finite, and
/// pressure and density are above nothing.
pub proof fn there_is_air_everywhere(
    layer: Layer,
    standard: Binary64,
    offset: Binary64,
    factor: Binary64,
)
    requires
        is_air(layer, standard, offset, factor),
    ensures
        sample_spec(layer, standard, offset, factor).is_finite(),
        sample_spec(layer, standard, offset, factor).pressure.value() > 0,
        sample_spec(layer, standard, offset, factor).density.value() > 0,
{
    let o = Binary64::one() as int;
    let g = near::grain() as int;
    let s = sample_spec(layer, standard, offset, factor);
    let r = specific_gas_constant() * s.temperature;
    near::lemma_grain();
    lemma_air(layer, standard, offset, factor);
    let (p, q) = (s.pressure, r.value());
    let v = p.value();
    binary64::lemma_div(p, r);
    let zero = Binary64::of(0);
    let most = Binary64::of(0x100001);
    let least = exact::lemma_number(1, 40);
    exact::lemma_step(40);
    lemma2_to64_rest();
    binary64::lemma_of(0x100001);
    let e = exact::step(40) as int;
    assert(e * q <= v * o && v * o <= (0x100001 * o) * q) by (nonlinear_arith)
        requires
            e * 0x10000000000 == o,
            q <= 0x100000 * o,
            0x800 * v >= o,
            v <= 0x100001 * o,
            q >= 200 * o,
            o > 0,
            e > 0,
    ;
    assert(1 * e == e);
    binary64::lemma_quotient_between(p, r, least, most);
    let (h, k, t) = (heat_capacity_ratio(), specific_gas_constant(), s.temperature);
    near::lemma_small_ratio(14, 10, 2);
    near::lemma_small_ratio(287_052_874, 1_000_000, 288);
    near::lemma_small_product(h, k, 2, 288);
    lemma_sound(h, k, t);
}

/// The speed of sound is finite.
proof fn lemma_sound(h: Binary64, k: Binary64, t: Binary64)
    requires
        near::sized(h * k, 577),
        (h * k).value() >= 0,
        near::sized(t, 3073),
        t.value() >= 0,
    ensures
        (h * k * t).sqrt().is_finite(),
{
    let o = Binary64::one() as int;
    let x = h * k * t;
    let most = Binary64::of(0x10000000000);
    let (zero, root) = (Binary64::of(0), Binary64::of(0x100000));
    near::lemma_grain();
    binary64::lemma_of(0);
    binary64::lemma_of(0x10000000000);
    binary64::lemma_of(0x100000);
    let (a, b) = ((h * k).value(), t.value());
    assert(0 <= a * b <= (0x10000000000 * o) * o && 0 * o == 0) by (nonlinear_arith)
        requires
            0 <= a <= 577 * o,
            0 <= b <= 3073 * o,
            o > 0,
    ;
    binary64::lemma_product_between(h * k, t, zero, most);
    binary64::lemma_sqrt_monotone(x, most);
    binary64::lemma_sqrt(most);
    let s = 0x100000 * o;
    assert((0x10000000000 * o) * o == s * s) by (nonlinear_arith)
        requires
            s == 0x100000 * o,
    ;
    root::lemma_root_of_square(s as nat);
    binary64::lemma_order(root, root);
    binary64::lemma_round_exact(root, 2);
    binary64::lemma_finite_below(x.sqrt(), root);
}

/// A product is off by one part in two to the fifty-two of it at most.
proof fn lemma_product_off(a: Binary64, b: Binary64)
    requires
        near::sized(a, 0x20000),
        near::sized(b, 0x1000),
        0 <= a.value(),
        0 <= b.value(),
        Binary64::one() * Binary64::one() <= 0x400 * (a.value() * b.value()),
    ensures
        ({
            let (n, r) = (a.value() * b.value(), (a * b).value() * Binary64::one());
            -n <= (r - n) * 0x10000000000000 <= n
        }),
{
    let o = Binary64::one();
    let f = Format::Double;
    near::lemma_grain();
    lemma2_to64();
    lemma2_to64_rest();
    binary64::lemma_mul(a, b);
    let (u, v) = (a.value(), b.value());
    let n = (u * v) as nat;
    assert(0 < u * v) by (nonlinear_arith)
        requires
            o * o <= 0x400 * (u * v),
            o > 0,
    ;
    assert(u * v <= 0x20000000 * (o * o)) by (nonlinear_arith)
        requires
            0 <= u <= 0x20000 * o,
            0 <= v <= 0x1000 * o,
            o > 0,
    ;
    lemma_pow2_adds(1074, 1023);
    lemma_pow2_strictly_increases(63, 1023);
    let big = pow2(1023);
    assert(u * v < o * (o * big)) by (nonlinear_arith)
        requires
            u * v <= 0x20000000 * (o * o),
            0x40000000 <= big,
            o > 0,
    ;
    norm::lemma_rounding(n, o);
    let r = f.round(n, o) as int;
    lemma_pow2_strictly_increases(63, 1074);
    assert(0x8000000000000000 * o <= 0x400 * n) by (nonlinear_arith)
        requires
            o * o <= 0x400 * n,
            0x8000000000000000 <= o,
    ;
    let d = r * o - n;
    assert(-n <= d * 0x10000000000000 <= n);
}

/// Rounding does not close a gap of one in two to the fifty parts.
proof fn lemma_gap(x: int, y: int, p: int, q: int)
    requires
        x >= 0,
        y > 0,
        falls_by(x, y, 0x4000000000000),
        -x <= (p - x) * 0x10000000000000 <= x,
        -y <= (q - y) * 0x10000000000000 <= y,
    ensures
        p < q,
{
}

/// Higher up there is less pressure and thinner air, strictly, over the factors
/// that the laws of two heights come to: where base pressure times factor has
/// fallen by one part in two to the fifty, so that rounding cannot hide it, the
/// pressure is less; and where pressure over temperature has fallen by one part
/// in two to the forty-eight, the air is less dense. The two heights may lie in
/// different layers.
pub proof fn the_air_thins_where_its_factor_falls(
    low: Layer,
    low_standard: Binary64,
    low_factor: Binary64,
    high: Layer,
    high_standard: Binary64,
    high_factor: Binary64,
    offset: Binary64,
)
    requires
        is_air(low, low_standard, offset, low_factor),
        is_air(high, high_standard, offset, high_factor),
    ensures
        ({
            let a = sample_spec(low, low_standard, offset, low_factor);
            let b = sample_spec(high, high_standard, offset, high_factor);
            &&& falls_by(
                high.base_pressure.value() * high_factor.value(),
                low.base_pressure.value() * low_factor.value(),
                0x4000000000000,
            ) ==> b.pressure.value() < a.pressure.value()
            &&& falls_by(
                b.pressure.value() * a.temperature.value(),
                a.pressure.value() * b.temperature.value(),
                0x1000000000000,
            ) ==> b.density.value() < a.density.value()
        }),
{
    let o = Binary64::one() as int;
    let a = sample_spec(low, low_standard, offset, low_factor);
    let b = sample_spec(high, high_standard, offset, high_factor);
    near::lemma_grain();
    lemma_air(low, low_standard, offset, low_factor);
    lemma_air(high, high_standard, offset, high_factor);
    lemma_pressure_size(low, low_factor);
    lemma_pressure_size(high, high_factor);
    let (x, y) = (
        high.base_pressure.value() * high_factor.value(),
        low.base_pressure.value() * low_factor.value(),
    );
    let (p, q) = (b.pressure.value(), a.pressure.value());
    if falls_by(x, y, 0x4000000000000) {
        assert(x >= 0 && y > 0) by (nonlinear_arith)
            requires
                o * o <= 0x400 * x,
                o * o <= 0x400 * y,
                o > 0,
        ;
        lemma_gap(x, y, p * o, q * o);
        assert(p < q) by (nonlinear_arith)
            requires
                p * o < q * o,
                o > 0,
        ;
    }
    if falls_by(p * a.temperature.value(), q * b.temperature.value(), 0x1000000000000) {
        lemma_thinner(a, b);
    }
}

proof fn lemma_pressure_size(layer: Layer, factor: Binary64)
    requires
        near::sized(layer.base_pressure, 0x20000),
        layer.base_pressure.value() >= Binary64::one(),
        near::sized(factor, 8),
        0x400 * factor.value() >= Binary64::one(),
    ensures
        ({
            let n = layer.base_pressure.value() * factor.value();
            let r = (layer.base_pressure * factor).value() * Binary64::one();
            &&& Binary64::one() * Binary64::one() <= 0x400 * n
            &&& -n <= (r - n) * 0x10000000000000 <= n
        }),
{
    let o = Binary64::one() as int;
    let (u, v) = (layer.base_pressure.value(), factor.value());
    near::lemma_grain();
    assert(o * o <= 0x400 * (u * v)) by (nonlinear_arith)
        requires
            u >= o,
            0x400 * v >= o,
            o > 0,
    ;
    near::lemma_larger(factor, 8, 0x1000);
    lemma_product_off(layer.base_pressure, factor);
}

/// What the pressure is divided by, but for rounding.
proof fn lemma_divisor(t: Binary64)
    requires
        near::sized(t, 3073),
        t.value() >= Binary64::one(),
    ensures
        ({
            let n = specific_gas_constant().value() * t.value();
            let r = (specific_gas_constant() * t).value() * Binary64::one();
            &&& n > 0
            &&& -n <= (r - n) * 0x10000000000000 <= n
        }),
{
    let o = Binary64::one() as int;
    let k = specific_gas_constant();
    near::lemma_grain();
    near::lemma_small_ratio(287_052_874, 1_000_000, 288);
    near::lemma_ratio(287_052_874, 1_000_000);
    near::lemma_larger(k, 288, 0x20000);
    near::lemma_larger(t, 3073, 0x1000);
    let (u, v) = (k.value(), t.value());
    assert(287 * o <= u);
    assert(o * o <= 0x400 * (u * v) && u * v > 0) by (nonlinear_arith)
        requires
            u >= 287 * o,
            v >= o,
            o > 0,
    ;
    lemma_product_off(k, t);
}

/// Pressure over temperature that has fallen makes thinner air.
proof fn lemma_thinner(a: AtmosphereSample, b: AtmosphereSample)
    requires
        near::sized(a.pressure, 0x100001),
        near::sized(b.pressure, 0x100001),
        0x800 * a.pressure.value() >= Binary64::one(),
        0x800 * b.pressure.value() >= Binary64::one(),
        near::sized(a.temperature, 3073),
        near::sized(b.temperature, 3073),
        a.temperature.value() >= Binary64::one(),
        b.temperature.value() >= Binary64::one(),
        near::sized(specific_gas_constant() * a.temperature, 0x100000),
        near::sized(specific_gas_constant() * b.temperature, 0x100000),
        (specific_gas_constant() * a.temperature).value() >= 200 * Binary64::one(),
        (specific_gas_constant() * b.temperature).value() >= 200 * Binary64::one(),
        a.density == a.pressure / (specific_gas_constant() * a.temperature),
        b.density == b.pressure / (specific_gas_constant() * b.temperature),
        falls_by(
            b.pressure.value() * a.temperature.value(),
            a.pressure.value() * b.temperature.value(),
            0x1000000000000,
        ),
    ensures
        b.density.value() < a.density.value(),
{
    let o = Binary64::one() as int;
    near::lemma_grain();
    lemma_divisor(a.temperature);
    lemma_divisor(b.temperature);
    let k = specific_gas_constant().value();
    let (r, s) = (
        specific_gas_constant() * a.temperature,
        specific_gas_constant() * b.temperature,
    );
    let (p, q) = (b.pressure.value(), a.pressure.value());
    let (u, v) = (a.temperature.value(), b.temperature.value());
    near::lemma_small_ratio(287_052_874, 1_000_000, 288);
    lemma_cross(o, k, p, q, u, v, r.value(), s.value());
    lemma_quotient_off(a.pressure, r);
    lemma_quotient_off(b.pressure, s);
    lemma_less(
        o,
        p,
        q,
        r.value(),
        s.value(),
        b.density.value(),
        a.density.value(),
    );
}

/// A quotient is off by one part in two to the fifty-two of it at most.
proof fn lemma_quotient_off(p: Binary64, r: Binary64)
    requires
        near::sized(p, 0x100001),
        0x800 * p.value() >= Binary64::one(),
        near::sized(r, 0x100000),
        r.value() >= 200 * Binary64::one(),
    ensures
        ({
            let (n, d) = (p.value() * Binary64::one(), (p / r).value() * r.value());
            -n <= (d - n) * 0x10000000000000 <= n
        }),
{
    let o = Binary64::one() as int;
    let f = Format::Double;
    near::lemma_grain();
    lemma2_to64();
    lemma2_to64_rest();
    binary64::lemma_div(p, r);
    let (u, d) = (p.value(), r.value());
    let n = u * o;
    assert(n >= 0) by (nonlinear_arith)
        requires
            n == u * o,
            u >= 0,
            o > 0,
    ;
    lemma_pow2_adds(1074, 1023);
    lemma_pow2_strictly_increases(63, 1023);
    let big = pow2(1023) as int;
    assert(n < d * (o * big)) by (nonlinear_arith)
        requires
            n == u * o,
            u <= 0x100001 * o,
            d >= 200 * o,
            big >= 0x100001,
            o > 0,
    ;
    norm::lemma_rounding(n as nat, d as nat);
    let q = f.round(n as nat, d as nat) as int;
    lemma_pow2_strictly_increases(62, 1074);
    lemma_pow2_adds(62, 1012);
    lemma_pow2_strictly_increases(62, 1012);
    let (c, e) = (pow2(62) as int, pow2(1012) as int);
    assert(o >= 0x10000000000000000000000) by (nonlinear_arith)
        requires
            o == c * e,
            c == 0x4000000000000000,
            e > c,
    ;
    assert(0x20000000000000 * d <= n) by (nonlinear_arith)
        requires
            n == u * o,
            d <= 0x100000 * o,
            0x800 * u >= o,
            o >= 0x10000000000000000000000,
    ;
    let e = q * d - n;
    assert(-n <= e * 0x10000000000000 <= n);
}

/// Pressures times the other's divisor.
proof fn lemma_cross(o: int, k: int, p: int, q: int, u: int, v: int, r: int, s: int)
    requires
        o > 0,
        k >= 0,
        p >= 0,
        q >= 0,
        u >= 0,
        v >= 0,
        falls_by(p * u, q * v, 0x1000000000000),
        -(k * u) <= (r * o - k * u) * 0x10000000000000 <= k * u,
        -(k * v) <= (s * o - k * v) * 0x10000000000000 <= k * v,
    ensures
        falls_by(p * r, q * s, 0x2000000000000),
{
    let (x, y) = (p * r, q * s);
    let (a, b) = (p * u, q * v);
    let n = 0x10000000000000int;
    assert((x * o) * n <= (k * a) * (n + 1)) by (nonlinear_arith)
        requires
            (r * o - k * u) * n <= k * u,
            x == p * r,
            a == p * u,
            p >= 0,
    ;
    assert((y * o) * n >= (k * b) * (n - 1)) by (nonlinear_arith)
        requires
            (s * o - k * v) * n >= -(k * v),
            y == q * s,
            b == q * v,
            q >= 0,
    ;
    let (c, d) = (k * a, k * b);
    let m = 0x1000000000000int;
    assert(c * m <= d * (m - 1) && d >= 0) by (nonlinear_arith)
        requires
            a * m <= b * (m - 1),
            c == k * a,
            d == k * b,
            k >= 0,
            b >= 0,
    {
        assert(b >= 0);
    }
    let (z, w) = (x * o, y * o);
    assert(z * n <= c * (n + 1) && w * n >= d * (n - 1));
    assert(z * 0x2000000000000 <= w * 0x1ffffffffffff);
    assert(x * 0x2000000000000 <= y * 0x1ffffffffffff) by (nonlinear_arith)
        requires
            z * 0x2000000000000 <= w * 0x1ffffffffffff,
            z == x * o,
            w == y * o,
            o > 0,
    ;
}

/// The quotients keep the order.
proof fn lemma_less(o: int, p: int, q: int, r: int, s: int, x: int, y: int)
    requires
        o > 0,
        p >= 0,
        q > 0,
        r > 0,
        s > 0,
        falls_by(p * r, q * s, 0x2000000000000),
        -(q * o) <= (y * r - q * o) * 0x10000000000000 <= q * o,
        -(p * o) <= (x * s - p * o) * 0x10000000000000 <= p * o,
    ensures
        x < y,
{
    let n = 0x10000000000000int;
    let (a, b) = (p * r, q * s);
    let t = r * s;
    assert((x * t) * n <= (a * o) * (n + 1)) by (nonlinear_arith)
        requires
            (x * s - p * o) * n <= p * o,
            a == p * r,
            t == r * s,
            r > 0,
    ;
    assert((y * t) * n >= (b * o) * (n - 1)) by (nonlinear_arith)
        requires
            (y * r - q * o) * n >= -(q * o),
            b == q * s,
            t == r * s,
            s > 0,
    ;
    let (c, d) = (a * o, b * o);
    assert(c * 0x2000000000000 <= d * 0x1ffffffffffff && d > 0) by (nonlinear_arith)
        requires
            a * 0x2000000000000 <= b * 0x1ffffffffffff,
            c == a * o,
            d == b * o,
            o > 0,
            b == q * s,
            q > 0,
            s > 0,
    ;
    let (z, w) = (x * t, y * t);
    assert(z * n <= c * (n + 1) && w * n >= d * (n - 1));
    assert(z < w);
    assert(x < y) by (nonlinear_arith)
        requires
            x * t < y * t,
            t == r * s,
            r > 0,
            s > 0,
    ;
}

} // verus!
