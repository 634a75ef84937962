//! A cloud layer that depends on nothing but its seed, the place and the time.
//!
//! Clouds are drawn as two decks, at the base and at the top of the layer. They
//! are lit like everything else and so do not glow at night. Inside the layer,
//! fog takes contrast away by Koschmieder's formula with a threshold of five
//! percent.
use crate::angle;
use crate::binary32;
use crate::binary32::Binary32;
use crate::binary64;
use crate::binary64::Binary64;
use crate::fold;
use crate::hash;
use crate::render::daylight::{AmbientLight, SunLighting, TimeOfDay};
use crate::render::surface::{Geodetic, Rgb, Rgba};
use crate::rounding;
use crate::rounding::Format;
use crate::smooth;
use vstd::arithmetic::power2::*;
use vstd::prelude::*;

verus! {

/// The edge of a deck in metres, enough for the horizon at cruise.
pub const CLOUD_DECK_SIZE_METRES: i64 = 600_000;

/// Pixels along an edge of the mask image.
pub const CLOUD_TEXTURE_SIZE: u32 = 256;

/// Cells of the coarsest noise along one repeat of the pattern.
pub const CLOUD_NOISE_PERIOD: u64 = 8;

/// The bit pattern of the double nearest to minus the logarithm of 0.05.
pub const CONTRAST_LOGARITHM_BITS: u64 = 0x4007f7427b73e391;

/// How a cloud layer is drawn.
#[derive(Clone, Copy, PartialEq, Eq, Debug, Structural)]
pub struct CloudLayer {
    /// From zero, clear, to one, overcast.
    pub cover: Binary32,
    /// The height of the base in metres.
    pub base: Binary64,
    /// The height of the top in metres.
    pub top: Binary64,
    /// How far one sees inside, in metres.
    pub visibility: Binary64,
    /// What the pattern grows from.
    pub seed: u64,
}

/// Why a cloud layer cannot be drawn.
#[derive(Clone, Copy, PartialEq, Eq, Debug, Structural)]
pub enum CloudLayerError {
    NonFiniteCover,
    CoverOutOfRange(Binary32),
    NonFiniteBase,
    NegativeBase(Binary64),
    NonFiniteTop,
    TopNotAboveBase { base: Binary64, top: Binary64 },
    NonFiniteVisibility,
    NonPositiveVisibility(Binary64),
}

impl CloudLayerError {
    /// The words for numbers that read `shown` and, for a top, `top`.
    pub open spec fn spec_message(self, shown: Seq<char>, top: Seq<char>) -> Seq<char> {
        match self {
            CloudLayerError::NonFiniteCover => "cloud cover must be finite"@,
            CloudLayerError::CoverOutOfRange(_) => "cloud cover must be between 0 and 1, got "@
                + shown,
            CloudLayerError::NonFiniteBase => "cloud base must be finite"@,
            CloudLayerError::NegativeBase(_) => "cloud base must not be negative, got "@ + shown,
            CloudLayerError::NonFiniteTop => "cloud top must be finite"@,
            CloudLayerError::TopNotAboveBase { base: _, top: _ } => "cloud top "@ + top
                + " must be above cloud base "@ + shown,
            CloudLayerError::NonFiniteVisibility => "cloud visibility must be finite"@,
            CloudLayerError::NonPositiveVisibility(_) => "cloud visibility must be positive, got "@
                + shown,
        }
    }

    /// What is wrong, in words. `shown` is how the rejected number reads, the
    /// base where there are two, and `top` how the top does; digits are written
    /// outside.
    pub fn message(&self, shown: &str, top: &str) -> (r: String)
        ensures
            r@ == self.spec_message(shown@, top@),
    {
        match self {
            CloudLayerError::NonFiniteCover => "cloud cover must be finite".to_owned(),
            CloudLayerError::CoverOutOfRange(_) => {
                let mut text: String = "cloud cover must be between 0 and 1, got ".to_owned();
                text.append(shown);
                text
            },
            CloudLayerError::NonFiniteBase => "cloud base must be finite".to_owned(),
            CloudLayerError::NegativeBase(_) => {
                let mut text: String = "cloud base must not be negative, got ".to_owned();
                text.append(shown);
                text
            },
            CloudLayerError::NonFiniteTop => "cloud top must be finite".to_owned(),
            CloudLayerError::TopNotAboveBase { base: _, top: _ } => {
                let mut text: String = "cloud top ".to_owned();
                text.append(top);
                text.append(" must be above cloud base ");
                text.append(shown);
                text
            },
            CloudLayerError::NonFiniteVisibility => "cloud visibility must be finite".to_owned(),
            CloudLayerError::NonPositiveVisibility(_) => {
                let mut text: String = "cloud visibility must be positive, got ".to_owned();
                text.append(shown);
                text
            },
        }
    }
}

impl CloudLayer {
    /// The first thing that is wrong with the layer.
    pub open spec fn flaw(self) -> Option<CloudLayerError> {
        if !self.cover.is_finite() {
            Some(CloudLayerError::NonFiniteCover)
        } else if !(Binary32::of(0) <= self.cover && self.cover <= Binary32::of(1)) {
            Some(CloudLayerError::CoverOutOfRange(self.cover))
        } else if !self.base.is_finite() {
            Some(CloudLayerError::NonFiniteBase)
        } else if self.base < Binary64::of(0) {
            Some(CloudLayerError::NegativeBase(self.base))
        } else if !self.top.is_finite() {
            Some(CloudLayerError::NonFiniteTop)
        } else if self.top <= self.base {
            Some(CloudLayerError::TopNotAboveBase { base: self.base, top: self.top })
        } else if !self.visibility.is_finite() {
            Some(CloudLayerError::NonFiniteVisibility)
        } else if self.visibility <= Binary64::of(0) {
            Some(CloudLayerError::NonPositiveVisibility(self.visibility))
        } else {
            None
        }
    }

    /// A layer that can be drawn, or the first thing that is wrong with it.
    pub fn try_new(
        cover: Binary32,
        base: Binary64,
        top: Binary64,
        visibility: Binary64,
        seed: u64,
    ) -> (r: Result<CloudLayer, CloudLayerError>)
        ensures
            ({
                let layer = CloudLayer { cover, base, top, visibility, seed };
                r == match layer.flaw() {
                    None => Ok(layer),
                    Some(flaw) => Err(flaw),
                }
            }),
    {
        let layer = CloudLayer { cover, base, top, visibility, seed };
        match layer.validate() {
            Ok(()) => Ok(layer),
            Err(flaw) => Err(flaw),
        }
    }

    /// Whether the layer can be drawn as it is now.
    pub fn validate(self) -> (r: Result<(), CloudLayerError>)
        ensures
            r == match self.flaw() {
                None => Ok(()),
                Some(flaw) => Err::<(), CloudLayerError>(flaw),
            },
    {
        if !self.cover.is_finite() {
            return Err(CloudLayerError::NonFiniteCover);
        }
        if !(Binary32::of(0).le(self.cover) && self.cover.le(Binary32::of(1))) {
            return Err(CloudLayerError::CoverOutOfRange(self.cover));
        }
        if !self.base.is_finite() {
            return Err(CloudLayerError::NonFiniteBase);
        }
        if self.base.lt(Binary64::of(0)) {
            return Err(CloudLayerError::NegativeBase(self.base));
        }
        if !self.top.is_finite() {
            return Err(CloudLayerError::NonFiniteTop);
        }
        if self.top.le(self.base) {
            return Err(CloudLayerError::TopNotAboveBase { base: self.base, top: self.top });
        }
        if !self.visibility.is_finite() {
            return Err(CloudLayerError::NonFiniteVisibility);
        }
        if self.visibility.le(Binary64::of(0)) {
            return Err(CloudLayerError::NonPositiveVisibility(self.visibility));
        }
        Ok(())
    }

    pub open spec fn clear_spec(self) -> bool {
        self.flaw() is Some || self.cover <= Binary32::of(0)
    }

    /// There are no clouds; a layer that cannot be drawn has none.
    pub fn is_clear(self) -> (r: bool)
        ensures
            r == self.clear_spec(),
    {
        self.validate().is_err() || self.cover.le(Binary32::of(0))
    }
}

impl Default for CloudLayer {
    fn default() -> (r: CloudLayer)
        ensures
            r == (CloudLayer {
                cover: Binary32::of(0),
                base: Binary64::of(1_000),
                top: Binary64::of(2_000),
                visibility: Binary64::of(300),
                seed: 1,
            }),
    {
        CloudLayer {
            cover: Binary32::of(0),
            base: Binary64::of(1_000),
            top: Binary64::of(2_000),
            visibility: Binary64::of(300),
            seed: 1,
        }
    }
}

/// One of the two decks.
#[derive(Clone, Copy, PartialEq, Eq, Debug, Structural)]
pub enum CloudDeckSurface {
    Base,
    Top,
}

impl CloudDeckSurface {
    pub open spec fn spec_altitude(self, layer: CloudLayer) -> Binary64 {
        match self {
            CloudDeckSurface::Base => layer.base,
            CloudDeckSurface::Top => layer.top,
        }
    }

    /// The height of the deck.
    #[verifier::when_used_as_spec(spec_altitude)]
    pub fn altitude(self, layer: CloudLayer) -> (r: Binary64)
        ensures
            r == self.altitude(layer),
    {
        match self {
            CloudDeckSurface::Base => layer.base,
            CloudDeckSurface::Top => layer.top,
        }
    }

    /// Where the deck is centred: over the camera, at its own height.
    pub fn centre(self, layer: CloudLayer, camera: Geodetic) -> (r: Geodetic)
        ensures
            r == (Geodetic { altitude: self.altitude(layer), ..camera }),
    {
        Geodetic {
            latitude: camera.latitude,
            longitude: camera.longitude,
            altitude: self.altitude(layer),
        }
    }

    /// What the deck is called.
    pub fn name(self) -> (r: &'static str)
        ensures
            r@ == match self {
                CloudDeckSurface::Base => "cloud base"@,
                CloudDeckSurface::Top => "cloud top"@,
            },
    {
        match self {
            CloudDeckSurface::Base => "cloud base",
            CloudDeckSurface::Top => "cloud top",
        }
    }
}

/// A share of the way from `low` to `high`, held between zero and one.
pub open spec fn ramp64(low: Binary64, high: Binary64, value: Binary64) -> Binary64 {
    ((value - low) / (high - low)).clamp(Binary64::of(0), Binary64::of(1))
}

pub open spec fn spec_smoothstep_f64(low: Binary64, high: Binary64, value: Binary64) -> Binary64 {
    smooth::smooth64(ramp64(low, high, value))
}

/// A smooth step from zero at `low` to one at `high`.
#[verifier::when_used_as_spec(spec_smoothstep_f64)]
pub fn smoothstep_f64(low: Binary64, high: Binary64, value: Binary64) -> (r: Binary64)
    ensures
        r == smoothstep_f64(low, high, value),
{
    proof {
        binary64::lemma_of(0);
        binary64::lemma_of(1);
        binary64::lemma_order(Binary64::of(0), Binary64::of(1));
    }
    smooth::smooth64(
        ((value - low) / (high - low)).clamp(Binary64::of(0), Binary64::of(1)),
    )
}

/// A share of the way from `low` to `high`, held between zero and one.
pub open spec fn ramp32(low: Binary32, high: Binary32, value: Binary32) -> Binary32 {
    ((value - low) / (high - low)).clamp(Binary32::of(0), Binary32::of(1))
}

pub open spec fn spec_smoothstep_f32(low: Binary32, high: Binary32, value: Binary32) -> Binary32 {
    smooth::smooth32(ramp32(low, high, value))
}

/// A smooth step from zero at `low` to one at `high`.
#[verifier::when_used_as_spec(spec_smoothstep_f32)]
pub fn smoothstep_f32(low: Binary32, high: Binary32, value: Binary32) -> (r: Binary32)
    ensures
        r == smoothstep_f32(low, high, value),
{
    proof {
        binary32::lemma_of(0);
        binary32::lemma_of(1);
        binary32::lemma_order(Binary32::of(0), Binary32::of(1));
    }
    smooth::smooth32(
        ((value - low) / (high - low)).clamp(Binary32::of(0), Binary32::of(1)),
    )
}

pub open spec fn spec_lattice(seed: u64, x: u64, y: u64) -> Binary64 {
    hash::height(hash::mixed(hash::mixed(seed, x), y))
}

/// The height of the noise at a grid point, from minus one up to one.
#[verifier::when_used_as_spec(spec_lattice)]
pub fn lattice(seed: u64, x: u64, y: u64) -> (r: Binary64)
    ensures
        r == lattice(seed, x, y),
{
    hash::height(hash::mixed(hash::mixed(seed, x), y))
}

/// The point a share `s` of the way from `a` to `b`.
pub open spec fn between(a: Binary64, b: Binary64, s: Binary64) -> Binary64 {
    a + (b - a) * s
}

/// The grid cell that a coordinate of the repeating noise lies in.
pub open spec fn cell(x: Binary64) -> u64 {
    x.floor().to_integer(0, 64) as u64
}

/// How far into its cell a coordinate lies, smoothed.
pub open spec fn cell_share(x: Binary64) -> Binary64 {
    smoothstep_f64(Binary64::of(0), Binary64::of(1), x - x.floor())
}

/// The noise over coordinates already folded into one repeat.
pub open spec fn noise_in_repeat(seed: u64, x: Binary64, y: Binary64, period: u64) -> Binary64 {
    let x0 = cell(x) % period;
    let x1 = (cell(x) + 1) as u64 % period;
    let y0 = cell(y) % period;
    let y1 = (cell(y) + 1) as u64 % period;
    let low = between(lattice(seed, x0, y0), lattice(seed, x1, y0), cell_share(x));
    let high = between(lattice(seed, x0, y1), lattice(seed, x1, y1), cell_share(x));
    between(low, high, cell_share(y))
}

/// Noise that repeats after `period` cells in both directions.
pub open spec fn noise_spec(seed: u64, x: Binary64, y: Binary64, period: u64) -> Binary64 {
    noise_in_repeat(
        seed,
        x.rem_euclid(Binary64::of(period as i64)),
        y.rem_euclid(Binary64::of(period as i64)),
        period,
    )
}

/// Noise that repeats after `period` cells in both directions. The coordinates
/// are folded into one repeat first, so even a huge one picks a cell.
pub fn value_noise_periodic(seed: u64, x: Binary64, y: Binary64, period: u64) -> (r: Binary64)
    requires
        0 < period <= 32,
    ensures
        r == noise_spec(seed, x, y, period),
{
    let size = Binary64::of(period as i64);
    let x = x.rem_euclid(size);
    let y = y.rem_euclid(size);
    let column: u64 = x.floor().to_integer(0, 64) as u64;
    let row: u64 = y.floor().to_integer(0, 64) as u64;
    let zero = Binary64::of(0);
    let one = Binary64::of(1);
    let sx = smoothstep_f64(zero, one, x - x.floor());
    let sy = smoothstep_f64(zero, one, y - y.floor());
    proof {
        binary64::lemma_to_integer_range(x.floor(), 0, 64);
        binary64::lemma_to_integer_range(y.floor(), 0, 64);
    }
    let x0: u64 = column % period;
    let x1: u64 = (column + 1) % period;
    let y0: u64 = row % period;
    let y1: u64 = (row + 1) % period;
    let near = lattice(seed, x0, y0);
    let far = lattice(seed, x0, y1);
    let low = near + (lattice(seed, x1, y0) - near) * sx;
    let high = far + (lattice(seed, x1, y1) - far) * sx;
    low + (high - low) * sy
}

/// The seed of one of the three layers of noise.
pub open spec fn spec_octave_seed(seed: u64, octave: u64) -> u64 {
    seed ^ 0x9E37_79B9_7F4A_7C15u64.wrapping_mul((octave + 1) as u64)
}

/// The seed of one of the three layers of noise.
#[verifier::when_used_as_spec(spec_octave_seed)]
fn octave_seed(seed: u64, octave: u64) -> (r: u64)
    requires
        octave < 3,
    ensures
        r == spec_octave_seed(seed, octave),
{
    seed ^ 0x9E37_79B9_7F4A_7C15u64.wrapping_mul(octave + 1)
}

/// One layer of noise, its cells so many along one repeat.
pub open spec fn octave_spec(
    seed: u64,
    u: Binary64,
    v: Binary64,
    octave: u64,
    period: u64,
) -> Binary64 {
    let size = Binary64::of(period as i64);
    noise_spec(spec_octave_seed(seed, octave), u * size, v * size, period)
}

/// Three layers of noise, each twice as fine and half as strong as the last.
pub open spec fn fractal_spec(seed: u64, u: Binary64, v: Binary64) -> Binary64 {
    let first = Binary64::of(0) + Binary64::of(1) * octave_spec(seed, u, v, 0, 8);
    let second = first + Binary64::ratio(1, 2) * octave_spec(seed, u, v, 1, 16);
    let third = second + Binary64::ratio(1, 4) * octave_spec(seed, u, v, 2, 32);
    third / Binary64::ratio(7, 4)
}

/// Three layers of noise, each twice as fine and half as strong as the last.
pub fn fractal_noise(seed: u64, u: Binary64, v: Binary64) -> (r: Binary64)
    ensures
        r == fractal_spec(seed, u, v),
{
    let coarse: u64 = CLOUD_NOISE_PERIOD;
    let middle: u64 = CLOUD_NOISE_PERIOD * 2;
    let fine: u64 = CLOUD_NOISE_PERIOD * 4;
    let a = Binary64::of(coarse as i64);
    let b = Binary64::of(middle as i64);
    let c = Binary64::of(fine as i64);
    let total = Binary64::of(0) + Binary64::of(1) * value_noise_periodic(
        octave_seed(seed, 0),
        u * a,
        v * a,
        coarse,
    );
    let total = total + Binary64::ratio(1, 2) * value_noise_periodic(
        octave_seed(seed, 1),
        u * b,
        v * b,
        middle,
    );
    let total = total + Binary64::ratio(1, 4) * value_noise_periodic(
        octave_seed(seed, 2),
        u * c,
        v * c,
        fine,
    );
    total / Binary64::ratio(7, 4)
}

/// The mask for a height of the noise, where the cover is neither none nor all.
pub open spec fn mask_of(noise: Binary64, cover: Binary32) -> Binary32 {
    let height = (noise * Binary64::ratio(1, 2) + Binary64::ratio(1, 2)).to_binary32();
    let threshold = Binary32::of(1) - cover;
    smoothstep_f32(
        threshold - Binary32::ratio(8, 100),
        threshold + Binary32::ratio(8, 100),
        height,
    )
}

/// How much cloud there is, from zero to one.
pub open spec fn mask_spec(seed: u64, u: Binary64, v: Binary64, cover: Binary32) -> Binary32 {
    if !u.is_finite() || !v.is_finite() || !cover.is_finite() || cover <= Binary32::of(0) {
        Binary32::of(0)
    } else if cover >= Binary32::of(1) {
        Binary32::of(1)
    } else if !fractal_spec(seed, u, v).is_finite() {
        Binary32::of(0)
    } else {
        mask_of(fractal_spec(seed, u, v), cover)
    }
}

/// How much cloud there is at a place of the pattern, which repeats after one
/// in both directions: from zero to one, none where a number is broken.
pub fn cloud_mask(seed: u64, u: Binary64, v: Binary64, cover: Binary32) -> (r: Binary32)
    ensures
        r == mask_spec(seed, u, v, cover),
{
    if !u.is_finite() || !v.is_finite() || !cover.is_finite() || cover.le(Binary32::of(0)) {
        return Binary32::of(0);
    }
    if cover.ge(Binary32::of(1)) {
        return Binary32::of(1);
    }
    let noise = fractal_noise(seed, u, v);
    if !noise.is_finite() {
        return Binary32::of(0);
    }
    let half = Binary64::ratio(1, 2);
    let height = (noise * half + half).to_binary32();
    let threshold = Binary32::of(1) - cover;
    let softness = Binary32::ratio(8, 100);
    smoothstep_f32(threshold - softness, threshold + softness, height)
}

/// The noise is the same whole repeats away.
proof fn lemma_octave_repeats(
    seed: u64,
    u: Binary64,
    v: Binary64,
    across: Binary64,
    along: Binary64,
    octave: u64,
    period: u64,
    a: nat,
    i: int,
    j: int,
)
    requires
        fold::moderate(u),
        fold::moderate(v),
        fold::moderate(across),
        fold::moderate(along),
        across.value() == u.value() + i * Binary64::one(),
        along.value() == v.value() + j * Binary64::one(),
        period == pow2(a),
        a <= 5,
        period <= 32,
    ensures
        octave_spec(seed, across, along, octave, period) == octave_spec(seed, u, v, octave, period),
{
    let p = period as i64;
    let size = Binary64::of(p);
    let one = Binary64::one() as int;
    fold::lemma_times_power(u, p, a);
    fold::lemma_times_power(v, p, a);
    fold::lemma_times_power(across, p, a);
    fold::lemma_times_power(along, p, a);
    assert((u.value() + i * one) * p == u.value() * p + i * (p * one)) by (nonlinear_arith);
    assert((v.value() + j * one) * p == v.value() * p + j * (p * one)) by (nonlinear_arith);
    fold::lemma_fold(u * size, across * size, p, a, i);
    fold::lemma_fold(v * size, along * size, p, a, j);
    fold::lemma_same_cell((u * size).rem_euclid(size), (across * size).rem_euclid(size));
    fold::lemma_same_cell((v * size).rem_euclid(size), (along * size).rem_euclid(size));
}

/// Where a coordinate is no number there is no way through its cell.
proof fn lemma_no_share(x: Binary64)
    requires
        x.is_nan(),
    ensures
        cell_share(x).is_nan(),
{
    let (zero, one) = (Binary64::of(0), Binary64::of(1));
    let inside = x - x.floor();
    fold::lemma_no_number(x, x.floor());
    fold::lemma_no_number(inside, zero);
    fold::lemma_no_number(inside - zero, one - zero);
    let share = (inside - zero) / (one - zero);
    binary64::lemma_order(share, zero);
    binary64::lemma_order(one, share);
    fold::lemma_no_number(share, share);
    fold::lemma_no_number(share * share, Binary64::of(3) - Binary64::of(2) * share);
}

/// The noise past all bounds is no number.
proof fn lemma_no_noise(seed: u64, u: Binary64, v: Binary64)
    requires
        u.is_finite(),
        v.is_finite(),
        !fold::moderate(u) || !fold::moderate(v),
    ensures
        !fractal_spec(seed, u, v).is_finite(),
{
    let size = Binary64::of(32);
    let s = spec_octave_seed(seed, 2);
    let (x, y) = ((u * size).rem_euclid(size), (v * size).rem_euclid(size));
    let (x0, x1) = (cell(x) % 32, (cell(x) + 1) as u64 % 32);
    let (y0, y1) = (cell(y) % 32, (cell(y) + 1) as u64 % 32);
    let (a, b) = (lattice(s, x0, y0), lattice(s, x1, y0));
    let low = between(a, b, cell_share(x));
    let high = between(lattice(s, x0, y1), lattice(s, x1, y1), cell_share(x));
    if !fold::moderate(u) {
        fold::lemma_overflows(u);
        fold::lemma_fold_of_infinity(u * size, size);
        lemma_no_share(x);
        fold::lemma_no_number(cell_share(x), b - a);
        fold::lemma_no_number((b - a) * cell_share(x), a);
        fold::lemma_no_number(low, (high - low) * cell_share(y));
    } else {
        fold::lemma_overflows(v);
        fold::lemma_fold_of_infinity(v * size, size);
        lemma_no_share(y);
        fold::lemma_no_number(cell_share(y), high - low);
        fold::lemma_no_number((high - low) * cell_share(y), low);
    }
    let fine = octave_spec(seed, u, v, 2, 32);
    assert(fine == between(low, high, cell_share(y)));
    assert(fine.is_nan());
    let first = Binary64::of(0) + Binary64::of(1) * octave_spec(seed, u, v, 0, 8);
    let second = first + Binary64::ratio(1, 2) * octave_spec(seed, u, v, 1, 16);
    let quarter = Binary64::ratio(1, 4);
    fold::lemma_no_number(fine, quarter);
    fold::lemma_no_number(quarter * fine, second);
    fold::lemma_no_number(second + quarter * fine, Binary64::ratio(7, 4));
    fold::lemma_no_number(fractal_spec(seed, u, v), second);
}

/// The pattern of the clouds repeats after one in both directions: places that
/// are whole numbers apart have the same cloud, to the bit. The one exception is
/// a place that is too far off to be multiplied by the cells of the pattern,
/// where there are no clouds, and one that is not.
pub proof fn the_mask_repeats_after_one(
    seed: u64,
    u: Binary64,
    v: Binary64,
    across: Binary64,
    along: Binary64,
    cover: Binary32,
    i: int,
    j: int,
)
    requires
        u.is_finite(),
        v.is_finite(),
        across.is_finite(),
        along.is_finite(),
        across.value() == u.value() + i * Binary64::one(),
        along.value() == v.value() + j * Binary64::one(),
        (fold::moderate(u) && fold::moderate(v)) == (fold::moderate(across) && fold::moderate(
            along,
        )),
    ensures
        mask_spec(seed, across, along, cover) == mask_spec(seed, u, v, cover),
{
    lemma2_to64();
    if fold::moderate(u) && fold::moderate(v) {
        lemma_octave_repeats(seed, u, v, across, along, 0, 8, 3, i, j);
        lemma_octave_repeats(seed, u, v, across, along, 1, 16, 4, i, j);
        lemma_octave_repeats(seed, u, v, across, along, 2, 32, 5, i, j);
    } else {
        lemma_no_noise(seed, u, v);
        lemma_no_noise(seed, across, along);
    }
}

/// The height over which a deck fades in and out.
pub open spec fn edge_fade(base: Binary64, top: Binary64) -> Binary64 {
    Binary64::of(100).min((top - base) * Binary64::ratio(1, 4)).max(
        Binary64::ratio(1, 0x10000000000000),
    )
}

/// How dense the layer is at a height.
pub open spec fn vertical_spec(altitude: Binary64, base: Binary64, top: Binary64) -> Binary32 {
    if !(altitude.is_finite() && base.is_finite() && top.is_finite() && top > base) {
        Binary32::of(0)
    } else if altitude <= base || altitude >= top {
        Binary32::of(0)
    } else {
        let fade = edge_fade(base, top);
        (smoothstep_f64(Binary64::of(0), fade, altitude - base) * smoothstep_f64(
            Binary64::of(0),
            fade,
            top - altitude,
        )).to_binary32()
    }
}

/// How dense the layer is at a height: none from the edges outwards, all well
/// inside. A thin layer fades over a quarter of its thickness.
pub fn vertical_cloud_density(altitude: Binary64, base: Binary64, top: Binary64) -> (r: Binary32)
    ensures
        r == vertical_spec(altitude, base, top),
{
    if !(altitude.is_finite() && base.is_finite() && top.is_finite() && top.gt(base)) {
        return Binary32::of(0);
    }
    if altitude.le(base) || altitude.ge(top) {
        return Binary32::of(0);
    }
    let fade = Binary64::of(100).min((top - base) * Binary64::ratio(1, 4)).max(
        Binary64::ratio(1, 0x10000000000000),
    );
    let from_base = smoothstep_f64(Binary64::of(0), fade, altitude - base);
    let from_top = smoothstep_f64(Binary64::of(0), fade, top - altitude);
    (from_base * from_top).to_binary32()
}

pub open spec fn spec_cloud_pattern_metres() -> Binary64 {
    Binary64::of(2) * angle::pi() * Binary64::of(6_371_000) / Binary64::of(1024)
}

/// The size of one repeat: the girth of the earth holds a whole number of them,
/// so the pattern meets itself at the antimeridian.
#[verifier::when_used_as_spec(spec_cloud_pattern_metres)]
pub fn cloud_pattern_metres() -> (r: Binary64)
    ensures
        r == cloud_pattern_metres(),
{
    Binary64::of(2) * angle::pi() * Binary64::of(6_371_000) / Binary64::of(1024)
}

/// Where in the pattern a place lies at a time; the pattern drifts east and a
/// little north.
pub open spec fn coordinates_spec(clock: TimeOfDay, position: Geodetic) -> Option<
    (Binary64, Binary64),
> {
    let time = clock.utc.days_since_j2000() * Binary64::of(86_400);
    if position.latitude.is_finite() && position.longitude.is_finite()
        && position.altitude.is_finite() && time.is_finite() {
        let radius = Binary64::of(6_371_000);
        let east = position.longitude * radius + time * Binary64::of(8);
        let north = position.latitude * radius + time * Binary64::of(2);
        Some((east / cloud_pattern_metres(), north / cloud_pattern_metres()))
    } else {
        None
    }
}

/// Where in the pattern a place lies at a time; none where a number is broken.
pub fn cloud_field_coordinates(clock: TimeOfDay, position: Geodetic) -> (r: Option<
    (Binary64, Binary64),
>)
    ensures
        r == coordinates_spec(clock, position),
{
    let time = clock.utc.days_since_j2000() * Binary64::of(86_400);
    if !(position.latitude.is_finite() && position.longitude.is_finite()
        && position.altitude.is_finite() && time.is_finite()) {
        return None;
    }
    let radius = Binary64::of(6_371_000);
    let east = position.longitude * radius + time * Binary64::of(8);
    let north = position.latitude * radius + time * Binary64::of(2);
    let pattern = cloud_pattern_metres();
    Some((east / pattern, north / pattern))
}

/// How dense the clouds are at a place and time.
pub open spec fn density_spec(layer: CloudLayer, clock: TimeOfDay, position: Geodetic) -> Binary32 {
    match (layer.flaw(), coordinates_spec(clock, position)) {
        (None, Some((u, v))) => mask_spec(layer.seed, u, v, layer.cover) * vertical_spec(
            position.altitude,
            layer.base,
            layer.top,
        ),
        _ => Binary32::of(0),
    }
}

/// How dense the clouds are at a place and time; none where a number is broken.
pub fn cloud_density_at(layer: CloudLayer, clock: TimeOfDay, position: Geodetic) -> (r: Binary32)
    ensures
        r == density_spec(layer, clock, position),
{
    if layer.validate().is_err() {
        return Binary32::of(0);
    }
    match cloud_field_coordinates(clock, position) {
        None => Binary32::of(0),
        Some((u, v)) => cloud_mask(layer.seed, u, v, layer.cover) * vertical_cloud_density(
            position.altitude,
            layer.base,
            layer.top,
        ),
    }
}

pub open spec fn spec_fog_extinction(visibility: Binary64) -> Binary32 {
    if !visibility.is_finite() || visibility <= Binary64::of(0) {
        Binary32::of(0)
    } else {
        (Binary64 { bits: CONTRAST_LOGARITHM_BITS } / visibility).to_binary32()
    }
}

/// The extinction at which contrast falls to five percent over the distance one
/// can see; none where that is no distance.
#[verifier::when_used_as_spec(spec_fog_extinction)]
pub fn fog_extinction(visibility: Binary64) -> (r: Binary32)
    ensures
        r == fog_extinction(visibility),
{
    if !visibility.is_finite() || visibility.le(Binary64::of(0)) {
        return Binary32::of(0);
    }
    (Binary64 { bits: CONTRAST_LOGARITHM_BITS } / visibility).to_binary32()
}

/// The share of day that a brightness stands for.
pub open spec fn fog_daylight(lighting: SunLighting, brightness: Binary32) -> Binary32 {
    let span = lighting.daylight_ambient - lighting.night_ambient;
    if span.is_finite() && span.abs() > Binary32::ratio(1, 0x800000) {
        ((brightness - lighting.night_ambient) / span).clamp(Binary32::of(0), Binary32::of(1))
    } else {
        Binary32::of(0)
    }
}

/// The grey of the fog for a share of day: nearly black by night.
pub open spec fn fog_value(daylight: Binary32) -> Binary32 {
    Binary32::ratio(4, 1000) + (Binary32::ratio(58, 100) - Binary32::ratio(4, 1000)) * daylight
}

pub open spec fn spec_cloud_fog_color(
    lighting: SunLighting,
    ambient: AmbientLight,
    density: Binary32,
) -> Rgba {
    let value = fog_value(fog_daylight(lighting, ambient.brightness));
    Rgba {
        red: ambient.color.red * value,
        green: ambient.color.green * value,
        blue: ambient.color.blue * value,
        alpha: density,
    }
}

/// The colour of the fog under the light from all sides.
#[verifier::when_used_as_spec(spec_cloud_fog_color)]
pub fn cloud_fog_color(lighting: SunLighting, ambient: AmbientLight, density: Binary32) -> (r:
    Rgba)
    ensures
        r == cloud_fog_color(lighting, ambient, density),
{
    let span = lighting.daylight_ambient - lighting.night_ambient;
    proof {
        binary32::lemma_of(0);
        binary32::lemma_of(1);
        binary32::lemma_order(Binary32::of(0), Binary32::of(1));
    }
    let daylight = if span.is_finite() && span.abs().gt(Binary32::ratio(1, 0x800000)) {
        ((ambient.brightness - lighting.night_ambient) / span).clamp(
            Binary32::of(0),
            Binary32::of(1),
        )
    } else {
        Binary32::of(0)
    };
    let value = Binary32::ratio(4, 1000) + (Binary32::ratio(58, 100) - Binary32::ratio(4, 1000))
        * daylight;
    Rgba {
        red: ambient.color.red * value,
        green: ambient.color.green * value,
        blue: ambient.color.blue * value,
        alpha: density,
    }
}

/// The fog a camera is given: its colour and how fast it thickens. Sunlight
/// adds no glow to it.
#[derive(Clone, Copy, PartialEq, Eq, Debug, Structural)]
pub struct CloudFog {
    pub color: Rgba,
    pub extinction: Binary32,
}

/// A density that the fog can take.
pub open spec fn usable_density(density: Binary32) -> Binary32 {
    if density.is_finite() {
        density.clamp(Binary32::of(0), Binary32::of(1))
    } else {
        Binary32::of(0)
    }
}

/// The fog that stands for what one sees inside the clouds.
pub fn cloud_distance_fog(
    layer: CloudLayer,
    local_density: Binary32,
    lighting: SunLighting,
    ambient: AmbientLight,
) -> (r: CloudFog)
    ensures
        r.color == cloud_fog_color(lighting, ambient, usable_density(local_density)),
        r.extinction == fog_extinction(layer.visibility),
{
    proof {
        binary32::lemma_of(0);
        binary32::lemma_of(1);
        binary32::lemma_order(Binary32::of(0), Binary32::of(1));
    }
    let density = if local_density.is_finite() {
        local_density.clamp(Binary32::of(0), Binary32::of(1))
    } else {
        Binary32::of(0)
    };
    CloudFog {
        color: cloud_fog_color(lighting, ambient, density),
        extinction: fog_extinction(layer.visibility),
    }
}

/// A camera's place, where it is one.
pub fn camera_geodetic(position: Geodetic) -> (r: Option<Geodetic>)
    ensures
        r == if position.latitude.is_finite() && position.longitude.is_finite()
            && position.altitude.is_finite() {
            Some(position)
        } else {
            None::<Geodetic>
        },
{
    if position.latitude.is_finite() && position.longitude.is_finite()
        && position.altitude.is_finite() {
        Some(position)
    } else {
        None
    }
}

/// What becomes of the cloud decks in a frame.
#[derive(Clone, Copy, PartialEq, Eq, Debug, Structural)]
pub enum CloudSync {
    /// They stay as they are.
    Keep,
    /// There is nothing to draw them with; whether that settles the matter.
    Wait { settled: bool },
    /// They are taken away.
    Clear,
    /// They are taken away and made anew.
    Rebuild,
}

/// What becomes of the cloud decks in a frame.
pub open spec fn sync_spec(
    layer: CloudLayer,
    initialised: bool,
    changed: bool,
    can_draw: bool,
) -> CloudSync {
    if initialised && !changed {
        CloudSync::Keep
    } else if !can_draw {
        CloudSync::Wait { settled: layer.clear_spec() }
    } else if layer.clear_spec() {
        CloudSync::Clear
    } else {
        CloudSync::Rebuild
    }
}

/// What becomes of the cloud decks in a frame: nothing unless the layer has
/// changed or they were never made. Without anything to draw them with a clear
/// sky is settled, and clouds are tried again.
pub fn sync_cloud_visuals(
    layer: CloudLayer,
    initialised: bool,
    changed: bool,
    can_draw: bool,
) -> (r: CloudSync)
    ensures
        r == sync_spec(layer, initialised, changed, can_draw),
{
    if initialised && !changed {
        return CloudSync::Keep;
    }
    if !can_draw {
        return CloudSync::Wait { settled: layer.is_clear() };
    }
    if layer.is_clear() {
        CloudSync::Clear
    } else {
        CloudSync::Rebuild
    }
}

/// The two decks of a layer by the names that the scene knows them by.
#[derive(Clone, Copy, PartialEq, Eq, Debug, Structural)]
pub struct DeckPair {
    pub base: u64,
    pub top: u64,
}

/// Which decks are in the scene: two or none.
#[derive(Clone, Copy, PartialEq, Eq, Debug, Structural)]
pub struct CloudDecks {
    /// The decks have been made for a layer, or there are none to make.
    pub initialised: bool,
    pub decks: Option<DeckPair>,
}

/// What the decks are painted with.
#[derive(Clone, Copy, PartialEq, Eq, Debug, Structural)]
pub struct DeckMaterial {
    pub base_color: Rgb,
    pub roughness: Binary32,
    pub metallic: Binary32,
    /// Light falls on the decks, so they do not glow at night.
    pub lit: bool,
    /// They are seen from above and from below.
    pub double_sided: bool,
    /// Where the mask image is less opaque than this there is a hole.
    pub cutoff: Binary32,
    /// How often the image repeats, east and south.
    pub repeats: Binary32,
    pub repeats_south: Binary32,
}

/// Two decks to be made, level squares that share one shape and one material.
#[derive(Clone, Copy, PartialEq, Eq, Debug, Structural)]
pub struct DeckPlan {
    pub first: CloudDeckSurface,
    pub second: CloudDeckSurface,
    /// The edge of both in metres.
    pub edge: i64,
    /// The paint of both.
    pub material: DeckMaterial,
}

pub open spec fn spec_deck_plan() -> DeckPlan {
    DeckPlan {
        first: CloudDeckSurface::Base,
        second: CloudDeckSurface::Top,
        edge: CLOUD_DECK_SIZE_METRES,
        material: DeckMaterial {
            base_color: Rgb::thousandths(920, 940, 980),
            roughness: Binary32::of(1),
            metallic: Binary32::of(0),
            lit: true,
            double_sided: true,
            cutoff: Binary32::ratio(1, 2),
            repeats: cloud_texture_repeats(),
            repeats_south: cloud_texture_repeats().negate(),
        },
    }
}

/// The decks of a layer of clouds.
#[verifier::when_used_as_spec(spec_deck_plan)]
pub fn deck_plan() -> (r: DeckPlan)
    ensures
        r == deck_plan(),
{
    DeckPlan {
        first: CloudDeckSurface::Base,
        second: CloudDeckSurface::Top,
        edge: CLOUD_DECK_SIZE_METRES,
        material: DeckMaterial {
            base_color: Rgb::thousandths(920, 940, 980),
            roughness: Binary32::of(1),
            metallic: Binary32::of(0),
            lit: true,
            double_sided: true,
            cutoff: Binary32::ratio(1, 2),
            repeats: cloud_texture_repeats(),
            repeats_south: cloud_texture_repeats().negate(),
        },
    }
}

/// What to do in the scene: take decks away, and make others.
#[derive(Clone, Copy, PartialEq, Eq, Debug, Structural)]
pub struct DeckChange {
    pub remove: Option<DeckPair>,
    pub make: Option<DeckPlan>,
}

impl CloudDecks {
    /// Before the first frame.
    pub fn new() -> (r: CloudDecks)
        ensures
            !r.initialised,
            r.decks is None,
    {
        CloudDecks { initialised: false, decks: None }
    }

    /// The record once a frame has been planned.
    pub open spec fn planned(self, layer: CloudLayer, changed: bool, can_draw: bool) -> CloudDecks {
        match sync_spec(layer, self.initialised, changed, can_draw) {
            CloudSync::Keep => self,
            CloudSync::Wait { settled } => CloudDecks {
                initialised: self.initialised || settled,
                ..self
            },
            CloudSync::Clear => CloudDecks { initialised: true, decks: None },
            CloudSync::Rebuild => CloudDecks { initialised: true, decks: None },
        }
    }

    /// What a frame does in the scene.
    pub open spec fn change(self, layer: CloudLayer, changed: bool, can_draw: bool) -> DeckChange {
        match sync_spec(layer, self.initialised, changed, can_draw) {
            CloudSync::Clear => DeckChange { remove: self.decks, make: None },
            CloudSync::Rebuild => DeckChange { remove: self.decks, make: Some(deck_plan()) },
            _ => DeckChange { remove: None, make: None },
        }
    }

    /// Plans a frame: which decks go, and whether others come, which are then
    /// to be recorded.
    pub fn plan(&mut self, layer: CloudLayer, changed: bool, can_draw: bool) -> (r: DeckChange)
        ensures
            *final(self) == old(self).planned(layer, changed, can_draw),
            r == old(self).change(layer, changed, can_draw),
    {
        match sync_cloud_visuals(layer, self.initialised, changed, can_draw) {
            CloudSync::Keep => DeckChange { remove: None, make: None },
            CloudSync::Wait { settled } => {
                self.initialised = self.initialised || settled;
                DeckChange { remove: None, make: None }
            },
            CloudSync::Clear => {
                let remove = self.decks;
                self.initialised = true;
                self.decks = None;
                DeckChange { remove, make: None }
            },
            CloudSync::Rebuild => {
                let remove = self.decks;
                self.initialised = true;
                self.decks = None;
                DeckChange { remove, make: Some(deck_plan()) }
            },
        }
    }

    /// Records the decks that were made.
    pub fn record(&mut self, made: DeckPair)
        ensures
            *final(self) == (CloudDecks { decks: Some(made), ..*old(self) }),
    {
        self.decks = Some(made);
    }
}

/// After a change of the weather that can be drawn, all decks of before are
/// gone, and there are two for clouds, a base and a top of one shape and one
/// material that is lit, seen from both sides and cut out by the mask, and none
/// for a clear sky.
pub proof fn a_change_of_weather_leaves_two_decks_or_none(
    before: CloudDecks,
    layer: CloudLayer,
    made: DeckPair,
)
    ensures
        ({
            let change = before.change(layer, true, true);
            let planned = before.planned(layer, true, true);
            let after = if change.make is Some {
                CloudDecks { decks: Some(made), ..planned }
            } else {
                planned
            };
            &&& change.remove == before.decks
            &&& planned.decks is None
            &&& after.initialised
            &&& after.decks == if layer.clear_spec() {
                None
            } else {
                Some(made)
            }
            &&& change.make == if layer.clear_spec() {
                None
            } else {
                Some(deck_plan())
            }
            &&& deck_plan().first == CloudDeckSurface::Base
            &&& deck_plan().second == CloudDeckSurface::Top
            &&& deck_plan().material.lit
            &&& deck_plan().material.double_sided
            &&& deck_plan().material.cutoff == Binary32::ratio(1, 2)
        }),
{
}

/// Without a change, and once they are made, decks are left alone.
pub proof fn settled_decks_are_left_alone(before: CloudDecks, layer: CloudLayer, can_draw: bool)
    requires
        before.initialised,
    ensures
        before.planned(layer, false, can_draw) == before,
        before.change(layer, false, can_draw) == (DeckChange { remove: None, make: None }),
{
}

/// The opacity of a pixel of the mask image.
pub open spec fn spec_pixel_alpha(layer: CloudLayer, x: u32, y: u32) -> u8 {
    let mask = mask_spec(
        layer.seed,
        Binary64::of(x as i64) / Binary64::of(256),
        Binary64::of(y as i64) / Binary64::of(256),
        layer.cover,
    );
    (mask * Binary32::of(255)).round().to_integer(0, 255) as u8
}

/// The opacity of a pixel of the mask image.
pub fn pixel_alpha(layer: CloudLayer, x: u32, y: u32) -> (r: u8)
    ensures
        r == spec_pixel_alpha(layer, x, y),
{
    let size = Binary64::of(256);
    let mask = cloud_mask(
        layer.seed,
        Binary64::of(x as i64) / size,
        Binary64::of(y as i64) / size,
        layer.cover,
    );
    (mask * Binary32::of(255)).round().to_integer(0, 255) as u8
}

/// The bytes of the mask image, row by row: white, and as opaque as the clouds
/// are dense there.
pub open spec fn image_bytes(layer: CloudLayer) -> Seq<u8> {
    Seq::new(
        256 * 256 * 4,
        |i: int|
            if i % 4 == 3 {
                spec_pixel_alpha(layer, (i / 4 % 256) as u32, (i / 4 / 256) as u32)
            } else {
                255u8
            },
    )
}

/// The bytes of the mask image, row by row.
#[verifier::spinoff_prover]
#[verifier::rlimit(40)]
pub fn cloud_mask_image(layer: CloudLayer) -> (r: Vec<u8>)
    ensures
        r@ == image_bytes(layer),
{
    let mut data: Vec<u8> = Vec::new();
    let ghost whole = image_bytes(layer);
    let mut pixel: u32 = 0;
    while pixel < 65536
        invariant
            pixel <= 65536,
            data@.len() == 4 * pixel,
            whole == image_bytes(layer),
            forall|i: int| 0 <= i < data@.len() ==> data@[i] == whole[i],
        decreases 65536 - pixel,
    {
        let alpha: u8 = pixel_alpha(
            layer,
            pixel % CLOUD_TEXTURE_SIZE,
            pixel / CLOUD_TEXTURE_SIZE,
        );
        data.push(255);
        data.push(255);
        data.push(255);
        data.push(alpha);
        proof {
            let b = 4 * pixel as int;
            assert((b + 3) / 4 == pixel && (b + 3) % 4 == 3);
            assert(b % 4 == 0 && (b + 1) % 4 == 1 && (b + 2) % 4 == 2);
        }
        pixel = pixel + 1;
    }
    assert(data@ =~= whole);
    data
}

pub open spec fn spec_cloud_texture_repeats() -> Binary32 {
    Binary32::of(CLOUD_DECK_SIZE_METRES) / cloud_pattern_metres().to_binary32()
}

/// How often the pattern repeats along a deck.
#[verifier::when_used_as_spec(spec_cloud_texture_repeats)]
pub fn cloud_texture_repeats() -> (r: Binary32)
    ensures
        r == cloud_texture_repeats(),
{
    Binary32::of(CLOUD_DECK_SIZE_METRES) / cloud_pattern_metres().to_binary32()
}

/// A scaling and a shift of texture coordinates.
#[derive(Clone, Copy, PartialEq, Eq, Debug, Structural)]
pub struct UvTransform {
    pub scale_u: Binary32,
    pub scale_v: Binary32,
    pub shift_u: Binary32,
    pub shift_v: Binary32,
}

/// A coordinate's place within its repeat, less half of what the deck spans.
pub open spec fn uv_shift(coordinate: Binary64, scale: Binary32) -> Binary32 {
    coordinate.rem_euclid(Binary64::of(1)).to_binary32() - scale * Binary32::ratio(1, 2)
}

/// What keeps the pattern in place while the deck follows the camera. North is
/// towards smaller texture rows, so the rows run backwards.
pub fn cloud_uv_transform(u: Binary64, v: Binary64) -> (r: UvTransform)
    ensures
        r.scale_u == cloud_texture_repeats(),
        r.scale_v == cloud_texture_repeats().negate(),
        r.shift_u == uv_shift(u, r.scale_u),
        r.shift_v == uv_shift(v, r.scale_v),
{
    let repeats = cloud_texture_repeats();
    let back = repeats.negate();
    let one = Binary64::of(1);
    let half = Binary32::ratio(1, 2);
    UvTransform {
        scale_u: repeats,
        scale_v: back,
        shift_u: u.rem_euclid(one).to_binary32() - repeats * half,
        shift_v: v.rem_euclid(one).to_binary32() - back * half,
    }
}

/// A share of the way is between none and all of it.
pub proof fn lemma_ramp_share(low: Binary32, high: Binary32, value: Binary32)
    requires
        !value.is_nan(),
        low.is_finite(),
        (high - low).is_finite(),
        (high - low).value() > 0,
    ensures
        ramp32(low, high, value).is_finite(),
        0 <= ramp32(low, high, value).value() <= Binary32::one(),
{
    let zero = Binary32::of(0);
    let one = Binary32::of(1);
    binary32::lemma_of(0);
    binary32::lemma_of(1);
    binary32::lemma_negate(low);
    let gap = value - low;
    assert(gap == value + low.negate());
    if value.is_finite() {
        binary32::lemma_add(value, low.negate());
    } else {
        binary32::lemma_add_infinite(value, low.negate());
    }
    if gap.is_finite() {
        binary32::lemma_div(gap, high - low);
    } else {
        binary32::lemma_div_infinite(gap, high - low);
    }
    let share = gap / (high - low);
    binary32::lemma_order(share, zero);
    binary32::lemma_order(one, share);
    binary32::lemma_finite_below(share.clamp(zero, one), one);
}

proof fn lemma_step32(low: Binary32, high: Binary32, value: Binary32)
    requires
        !value.is_nan(),
        low.is_finite(),
        (high - low).is_finite(),
        (high - low).value() > 0,
    ensures
        smoothstep_f32(low, high, value).is_finite(),
        0 <= smoothstep_f32(low, high, value).value() <= Binary32::one(),
{
    lemma_ramp_share(low, high, value);
    smooth::the_single_curve_stays_between_zero_and_one(ramp32(low, high, value));
}

pub proof fn lemma_step64(high: Binary64, value: Binary64)
    requires
        !value.is_nan(),
        high.is_finite(),
        high.value() > 0,
    ensures
        smoothstep_f64(Binary64::of(0), high, value).is_finite(),
        0 <= smoothstep_f64(Binary64::of(0), high, value).value() <= Binary64::one(),
{
    let zero = Binary64::of(0);
    let one = Binary64::of(1);
    binary64::lemma_of(0);
    binary64::lemma_of(1);
    binary64::lemma_negate(zero);
    let none = zero.negate();
    let gap = value - zero;
    let width = high - zero;
    assert(gap == value + none && width == high + none);
    binary64::lemma_add(high, none);
    binary64::lemma_order(high, high);
    binary64::lemma_round_exact(high, 1);
    binary64::lemma_finite_below(width, high);
    if value.is_finite() {
        binary64::lemma_add(value, none);
    } else {
        binary64::lemma_add_infinite(value, none);
    }
    if gap.is_finite() {
        binary64::lemma_div(gap, width);
    } else {
        binary64::lemma_div_infinite(gap, width);
    }
    let share = gap / width;
    binary64::lemma_order(share, zero);
    binary64::lemma_order(one, share);
    binary64::lemma_finite_below(share.clamp(zero, one), one);
    smooth::the_curve_stays_between_zero_and_one(share.clamp(zero, one));
}

/// The soft edge around a threshold has some width.
proof fn lemma_soft_edge(cover: Binary32)
    requires
        cover.is_finite(),
        0 < cover.value() < Binary32::one(),
    ensures
        ({
            let threshold = Binary32::of(1) - cover;
            let low = threshold - Binary32::ratio(8, 100);
            let high = threshold + Binary32::ratio(8, 100);
            &&& low.is_finite()
            &&& (high - low).is_finite()
            &&& (high - low).value() > 0
        }),
{
    let f = Format::Single;
    let one = Binary32::of(1);
    let two = Binary32::of(2);
    let four = Binary32::of(4);
    let o = Binary32::one();
    let soft = Binary32::ratio(8, 100);
    let threshold = one - cover;
    let low = threshold - soft;
    let high = threshold + soft;
    binary32::lemma_of(0);
    binary32::lemma_of(1);
    binary32::lemma_of(2);
    binary32::lemma_of(4);
    let zero = Binary32::of(0);
    binary32::lemma_order(one, one);
    binary32::lemma_order(zero, zero);
    binary32::lemma_order(two, four);
    binary32::lemma_round_exact(one, 1);
    binary32::lemma_round_exact(zero, 1);
    binary32::lemma_round_exact(two, 1);
    binary32::lemma_round_exact(four, 1);
    binary32::lemma_negate(cover);
    binary32::lemma_negate(one);
    assert(threshold == one + cover.negate());
    binary32::lemma_add(one, cover.negate());
    binary32::lemma_round_monotone(0, one.value() - cover.value(), 1);
    binary32::lemma_round_monotone(one.value() - cover.value(), one.value(), 1);
    binary32::lemma_finite_below(threshold, one);
    binary32::lemma_ratio_share(8, 100);
    binary32::lemma_negate(soft);
    assert(low == threshold + soft.negate());
    binary32::lemma_add(threshold, soft.negate());
    binary32::lemma_add(threshold, soft);
    let down = threshold.value() - soft.value();
    let up = threshold.value() + soft.value();
    binary32::lemma_round_monotone(-o, down, 1);
    binary32::lemma_round_monotone(down, o as int, 1);
    binary32::lemma_round_monotone(up, two.value(), 1);
    binary32::lemma_round_monotone(0, up, 1);
    binary32::lemma_round_exact(one.negate(), 1);
    binary32::lemma_order(one.negate(), one);
    binary32::lemma_finite_below(low, one);
    binary32::lemma_finite_below(high, two);
    // Rounding moves either end by less than the softness.
    let step = pow2((f.unit() + 2 - f.precision()) as nat);
    lemma_pow2_unfold(f.unit() + 1);
    lemma_pow2_unfold(f.unit() + 2);
    assert(1 * pow2(f.unit() + 2) == pow2(f.unit() + 2));
    assert(1 * step == step);
    if down >= 0 {
        rounding::lemma_round_error(f, down as nat, 1, f.unit() + 2);
    } else {
        rounding::lemma_round_error(f, (-down) as nat, 1, f.unit() + 2);
    }
    rounding::lemma_round_error(f, up as nat, 1, f.unit() + 2);
    assert(soft.value() > step) by {
        let q = (f.unit() - 4) as nat;
        lemma_pow2_adds(4, q);
        lemma2_to64();
        lemma_pow2_strictly_increases((f.unit() + 2 - f.precision()) as nat, q);
        binary32::lemma_sixteenth_below(8, 100);
    }
    assert(high.value() - low.value() >= soft.value());
    binary32::lemma_negate(low);
    assert(high - low == high + low.negate());
    binary32::lemma_add(high, low.negate());
    binary32::lemma_order(soft, soft);
    binary32::lemma_round_exact(soft, 1);
    binary32::lemma_round_monotone(soft.value(), high.value() - low.value(), 1);
    binary32::lemma_round_monotone(high.value() - low.value(), four.value(), 1);
    binary32::lemma_finite_below(high - low, four);
}

/// However much is asked for, there is between no cloud and all of it.
pub proof fn the_mask_is_a_share(seed: u64, u: Binary64, v: Binary64, cover: Binary32)
    ensures
        mask_spec(seed, u, v, cover).is_finite(),
        0 <= mask_spec(seed, u, v, cover).value() <= Binary32::one(),
{
    let zero = Binary32::of(0);
    let one = Binary32::of(1);
    binary32::lemma_of(0);
    binary32::lemma_of(1);
    binary32::lemma_order(cover, zero);
    binary32::lemma_order(one, cover);
    let noise = fractal_spec(seed, u, v);
    if cover.is_finite() && 0 < cover.value() < Binary32::one() && noise.is_finite() {
        let half = Binary64::ratio(1, 2);
        binary64::lemma_ratio_share(1, 2);
        binary64::lemma_mul(noise, half);
        binary64::lemma_half_finite(noise);
        binary64::lemma_add(noise * half, half);
        binary64::lemma_narrow_number(noise * half + half);
        lemma_soft_edge(cover);
        let threshold = one - cover;
        lemma_step32(
            threshold - Binary32::ratio(8, 100),
            threshold + Binary32::ratio(8, 100),
            (noise * half + half).to_binary32(),
        );
    }
}

/// No more cover than none clears the sky everywhere, and full cover closes it
/// everywhere.
pub proof fn the_extremes_of_cover_hold_everywhere(
    seed: u64,
    u: Binary64,
    v: Binary64,
    cover: Binary32,
)
    requires
        u.is_finite(),
        v.is_finite(),
        cover.is_finite(),
    ensures
        cover <= Binary32::of(0) ==> mask_spec(seed, u, v, cover) == Binary32::of(0),
        cover >= Binary32::of(1) ==> mask_spec(seed, u, v, cover) == Binary32::of(1),
{
    binary32::lemma_of(0);
    binary32::lemma_of(1);
    binary32::lemma_order(cover, Binary32::of(0));
    binary32::lemma_order(Binary32::of(1), cover);
}

/// At every height the layer is between absent and full.
pub proof fn the_vertical_density_is_a_share(altitude: Binary64, base: Binary64, top: Binary64)
    ensures
        vertical_spec(altitude, base, top).is_finite(),
        0 <= vertical_spec(altitude, base, top).value() <= Binary32::one(),
{
    binary32::lemma_of(0);
    binary32::lemma_of(1);
    let zero = Binary64::of(0);
    let hundred = Binary64::of(100);
    let quarter = Binary64::ratio(1, 4);
    let tiny = Binary64::ratio(1, 0x10000000000000);
    let fade = edge_fade(base, top);
    if altitude.is_finite() && base.is_finite() && top.is_finite() && top > base {
        binary64::lemma_of(100);
        binary64::lemma_ratio_share(1, 4);
        binary64::lemma_ratio_share(1, 0x10000000000000);
        let part = (top - base) * quarter;
        binary64::lemma_order(hundred, part);
        binary64::lemma_order(part, hundred);
        let least = hundred.min(part);
        binary64::lemma_order(least, tiny);
        binary64::lemma_order(tiny, least);
        assert(hundred.value() > 0) by (nonlinear_arith)
            requires
                hundred.value() == 100 * Binary64::one(),
                Binary64::one() > 0,
        ;
        lemma_fade(part);
        binary64::lemma_negate(base);
        binary64::lemma_negate(altitude);
        assert(altitude - base == altitude + base.negate());
        assert(top - altitude == top + altitude.negate());
        binary64::lemma_add(altitude, base.negate());
        binary64::lemma_add(top, altitude.negate());
        lemma_step64(fade, altitude - base);
        lemma_step64(fade, top - altitude);
        let below = smoothstep_f64(zero, fade, altitude - base);
        let above = smoothstep_f64(zero, fade, top - altitude);
        binary64::lemma_product_below(below, above);
        binary64::lemma_narrow_share(below * above);
    }
}

/// Whatever a quarter of the thickness comes to, the fade is some height.
proof fn lemma_fade(part: Binary64)
    ensures
        ({
            let fade = Binary64::of(100).min(part).max(Binary64::ratio(1, 0x10000000000000));
            &&& fade.is_finite()
            &&& fade.value() > 0
        }),
{
    let hundred = Binary64::of(100);
    let tiny = Binary64::ratio(1, 0x10000000000000);
    let least = hundred.min(part);
    let fade = least.max(tiny);
    binary64::lemma_of(100);
    binary64::lemma_of(1);
    binary64::lemma_ratio_share(1, 0x10000000000000);
    assert(hundred.value() > Binary64::one()) by (nonlinear_arith)
        requires
            hundred.value() == 100 * Binary64::one(),
            Binary64::one() > 0,
    ;
    binary64::lemma_order(hundred, part);
    binary64::lemma_order(part, hundred);
    binary64::lemma_order(least, tiny);
    binary64::lemma_order(tiny, least);
    binary64::lemma_finite_below(fade, hundred);
}

/// On its edges and outside, the layer is absent.
pub proof fn outside_the_layer_there_is_no_cloud(
    altitude: Binary64,
    base: Binary64,
    top: Binary64,
)
    requires
        altitude <= base || altitude >= top || !altitude.is_finite(),
    ensures
        vertical_spec(altitude, base, top) == Binary32::of(0),
{
}

/// The density at any place and time is between none and full.
pub proof fn the_density_is_a_share(layer: CloudLayer, clock: TimeOfDay, position: Geodetic)
    ensures
        density_spec(layer, clock, position).is_finite(),
        0 <= density_spec(layer, clock, position).value() <= Binary32::one(),
{
    binary32::lemma_of(0);
    binary32::lemma_of(1);
    match (layer.flaw(), coordinates_spec(clock, position)) {
        (None, Some((u, v))) => {
            the_mask_is_a_share(layer.seed, u, v, layer.cover);
            the_vertical_density_is_a_share(position.altitude, layer.base, layer.top);
            binary32::lemma_product_below(
                mask_spec(layer.seed, u, v, layer.cover),
                vertical_spec(position.altitude, layer.base, layer.top),
            );
        },
        _ => {},
    }
}

/// The end of the curve is one.
proof fn lemma_curve_end(t: Binary64)
    requires
        t.is_finite(),
        t.value() == Binary64::one(),
    ensures
        smooth::smooth64(t).is_finite(),
        smooth::smooth64(t).value() == Binary64::one(),
{
    let o = Binary64::one() as int;
    let (one, two, three) = (Binary64::of(1), Binary64::of(2), Binary64::of(3));
    binary64::lemma_of(1);
    binary64::lemma_of(2);
    binary64::lemma_of(3);
    binary64::lemma_product_between(t, t, one, one);
    assert((2 * o) * o == two.value() * t.value()) by (nonlinear_arith)
        requires
            two.value() == 2 * o,
            t.value() == o,
    ;
    binary64::lemma_product_between(two, t, two, two);
    let twice = two * t;
    binary64::lemma_negate(twice);
    assert(three - twice == three + twice.negate());
    binary64::lemma_sum_between(three, twice.negate(), one, one);
    binary64::lemma_product_between(t * t, three - twice, one, one);
}

/// A smooth step is over where it ends.
proof fn lemma_step_over(high: Binary64, value: Binary64)
    requires
        high.is_finite(),
        value.is_finite(),
        0 < high.value() <= value.value(),
    ensures
        smoothstep_f64(Binary64::of(0), high, value).is_finite(),
        smoothstep_f64(Binary64::of(0), high, value).value() == Binary64::one(),
{
    let (zero, one) = (Binary64::of(0), Binary64::of(1));
    let o = Binary64::one() as int;
    binary64::lemma_of(0);
    binary64::lemma_of(1);
    binary64::lemma_negate(zero);
    binary64::lemma_sum_between(value, zero.negate(), value, value);
    binary64::lemma_sum_between(high, zero.negate(), high, high);
    let (gap, width) = (value - zero, high - zero);
    assert(gap == value + zero.negate() && width == high + zero.negate());
    let share = gap / width;
    binary64::lemma_div(gap, width);
    let d = width.value() as nat;
    binary64::lemma_round_exact(one, d);
    assert(o * d <= gap.value() * o) by (nonlinear_arith)
        requires
            d <= gap.value(),
            o > 0,
    ;
    binary64::lemma_round_monotone(o * d, gap.value() * o, d);
    binary64::lemma_order(share, zero);
    binary64::lemma_order(one, share);
    let held = share.clamp(zero, one);
    assert(held.value() == o);
    binary64::lemma_finite_below(held, one);
    lemma_curve_end(held);
}

/// A layer is whole at a hundred metres and more from both of its edges.
pub proof fn well_inside_the_layer_is_whole(altitude: Binary64, base: Binary64, top: Binary64)
    requires
        altitude.is_finite(),
        base.is_finite(),
        top.is_finite(),
        base.value() + 100 * Binary64::one() <= altitude.value(),
        altitude.value() + 100 * Binary64::one() <= top.value(),
        (top - base).is_finite(),
    ensures
        vertical_spec(altitude, base, top).is_finite(),
        vertical_spec(altitude, base, top).value() == Binary32::one(),
{
    let o = Binary64::one() as int;
    let hundred = Binary64::of(100);
    let (zero, one) = (Binary64::of(0), Binary64::of(1));
    let part = (top - base) * Binary64::ratio(1, 4);
    let fade = edge_fade(base, top);
    binary64::lemma_of(0);
    binary64::lemma_of(1);
    binary64::lemma_of(100);
    lemma_fade(part);
    binary64::lemma_ratio_share(1, 0x10000000000000);
    let tiny = Binary64::ratio(1, 0x10000000000000);
    binary64::lemma_order(hundred, part);
    binary64::lemma_order(part, hundred);
    binary64::lemma_order(hundred.min(part), tiny);
    binary64::lemma_order(tiny, hundred.min(part));
    binary64::lemma_order(altitude, base);
    binary64::lemma_order(top, altitude);
    binary64::lemma_order(base, top);
    binary64::lemma_order(top, top);
    assert(fade.value() <= 100 * o);
    binary64::lemma_negate(base);
    binary64::lemma_negate(altitude);
    let (low, high) = (altitude - base, top - altitude);
    assert(low == altitude + base.negate() && high == top + altitude.negate());
    let whole = top - base;
    assert(whole == top + base.negate());
    binary64::lemma_add(top, base.negate());
    binary64::lemma_add(altitude, base.negate());
    binary64::lemma_add(top, altitude.negate());
    binary64::lemma_round_exact(hundred, 1);
    binary64::lemma_round_monotone(100 * o, altitude.value() - base.value(), 1);
    binary64::lemma_round_monotone(100 * o, top.value() - altitude.value(), 1);
    binary64::lemma_round_monotone(altitude.value() - base.value(), top.value() - base.value(), 1);
    binary64::lemma_round_monotone(top.value() - altitude.value(), top.value() - base.value(), 1);
    binary64::lemma_between_finite(low, zero, whole);
    binary64::lemma_between_finite(high, zero, whole);
    lemma_step_over(fade, low);
    lemma_step_over(fade, high);
    let (below, above) = (smoothstep_f64(zero, fade, low), smoothstep_f64(zero, fade, high));
    binary64::lemma_product_between(below, above, one, one);
    binary64::lemma_narrow_one(below * above);
}

/// Weather without cover has no cloud anywhere, at any height or time.
pub proof fn clear_weather_has_no_cloud(layer: CloudLayer, clock: TimeOfDay, position: Geodetic)
    requires
        layer.cover.value() <= 0 || layer.cover.is_nan(),
    ensures
        density_spec(layer, clock, position).is_finite(),
        density_spec(layer, clock, position).value() == 0,
{
    let zero = Binary32::of(0);
    binary32::lemma_of(0);
    binary32::lemma_order(layer.cover, zero);
    match (layer.flaw(), coordinates_spec(clock, position)) {
        (None, Some((u, v))) => {
            the_vertical_density_is_a_share(position.altitude, layer.base, layer.top);
            binary32::lemma_product_below(
                zero,
                vertical_spec(position.altitude, layer.base, layer.top),
            );
        },
        _ => {},
    }
}

/// Inside the clouds is what is drawn of them: nowhere is the density above the
/// mask of the pattern at that place and time, so that a gap in the clouds is
/// clear; a hundred metres and more from the edges of the layer it is the mask;
/// and outside the edges there is none.
pub proof fn the_density_is_that_of_the_clouds_drawn(
    layer: CloudLayer,
    clock: TimeOfDay,
    position: Geodetic,
)
    requires
        coordinates_spec(clock, position) is Some,
    ensures
        ({
            let (u, v) = coordinates_spec(clock, position)->0;
            let mask = mask_spec(layer.seed, u, v, layer.cover);
            let density = density_spec(layer, clock, position);
            let high = position.altitude.value();
            let (base, top) = (layer.base.value(), layer.top.value());
            let edge = 100 * Binary64::one();
            &&& density.value() <= mask.value()
            &&& layer.flaw() is None && base + edge <= high && high + edge <= top && (layer.top
                - layer.base).is_finite() ==> density.value() == mask.value()
            &&& layer.flaw() is None && (high <= base || high >= top) ==> density.value() == 0
        }),
{
    let (u, v) = coordinates_spec(clock, position)->0;
    let mask = mask_spec(layer.seed, u, v, layer.cover);
    let h = position.altitude;
    let vertical = vertical_spec(h, layer.base, layer.top);
    binary32::lemma_of(0);
    binary32::lemma_of(1);
    the_mask_is_a_share(layer.seed, u, v, layer.cover);
    the_vertical_density_is_a_share(h, layer.base, layer.top);
    if layer.flaw() is None {
        binary32::lemma_product_below(mask, vertical);
        binary64::lemma_order(h, layer.base);
        binary64::lemma_order(layer.top, h);
        let edge = 100 * Binary64::one();
        if layer.base.value() + edge <= h.value() && h.value() + edge <= layer.top.value() && (
        layer.top - layer.base).is_finite() {
            well_inside_the_layer_is_whole(h, layer.base, layer.top);
            binary32::lemma_mul(mask, vertical);
            binary32::lemma_order(mask, mask);
            binary32::lemma_round_exact(mask, Binary32::one());
        }
        if h.value() <= layer.base.value() || h.value() >= layer.top.value() {
            outside_the_layer_there_is_no_cloud(h, layer.base, layer.top);
            lemma_nothing_left(mask, vertical);
        }
    }
}

proof fn lemma_nothing_left(a: Binary32, b: Binary32)
    requires
        a.is_finite(),
        b.is_finite(),
        a.value() >= 0,
        b.value() == 0,
    ensures
        (a * b).value() == 0,
{
    binary32::lemma_mul(a, b);
    assert(a.value() * 0 == 0);
    binary32::lemma_of(0);
    binary32::lemma_round_exact(Binary32::of(0), Binary32::one());
}

} // verus!
