//! Gusts.
//!
//! A replay must give the same flight, so gusts are no random numbers but a
//! smooth field over place and time that grows from a seed. Drawing a new
//! number at every step would not shake the aircraft but make it twitch; here
//! the field changes over a length and a time, and a fast aircraft feels it
//! change faster.
use crate::binary64;
use crate::binary64::Binary64;
use crate::exact;
use crate::fdm::state::LocalFrame;
use crate::geodetic::Geodetic;
use crate::hash;
use crate::number;
use crate::rounding;
use crate::rounding::Format;
use crate::smooth;
use crate::vector::DVec3;
use vstd::arithmetic::power2::*;
use vstd::prelude::*;

verus! {

/// How strong the gusts are, and which air it is.
#[derive(Clone, Copy, PartialEq, Eq, Debug, Structural)]
pub struct Turbulence {
    /// The strength in metres per second; none where it is zero.
    pub intensity: Binary64,
    /// What the field grows from.
    pub seed: u64,
}

/// The whole part of a coordinate, held to what grid points are counted by.
pub open spec fn grid_index(value: Binary64) -> i64 {
    value.floor().to_integer(-1_000_000_000_000_000i64 as i64, 1_000_000_000_000_000)
}

/// How far a coordinate lies into its cell, smoothed.
pub open spec fn grid_share(value: Binary64) -> Binary64 {
    smooth::smooth64((value - value.floor()).clamp(Binary64::of(0), Binary64::of(1)))
}

/// The weight of one end of a cell.
pub open spec fn blend(share: Binary64, far: bool) -> Binary64 {
    if far {
        share
    } else {
        Binary64::of(1) - share
    }
}

/// A place in the field: three coordinates and the time, in cells.
#[derive(Clone, Copy, PartialEq, Eq, Debug, Structural)]
pub struct FieldPoint {
    pub x: Binary64,
    pub y: Binary64,
    pub z: Binary64,
    pub w: Binary64,
}

/// The grid point that a coordinate's cell begins or ends at, as a hash takes
/// it.
pub open spec fn end_bits(value: Binary64, far: bool) -> u64 {
    (grid_index(value) + if far {
        1int
    } else {
        0
    }) as i64 as u64
}

/// One of the sixteen corners: which of its four sides are the far ones.
pub open spec fn far_side(corner: int, axis: int) -> bool {
    if axis == 0 {
        corner % 2 == 1
    } else if axis == 1 {
        corner / 2 % 2 == 1
    } else if axis == 2 {
        corner / 4 % 2 == 1
    } else {
        corner / 8 % 2 == 1
    }
}

/// The weight of a corner.
pub open spec fn corner_weight(point: FieldPoint, corner: int) -> Binary64 {
    blend(grid_share(point.x), far_side(corner, 0)) * blend(
        grid_share(point.y),
        far_side(corner, 1),
    ) * blend(grid_share(point.z), far_side(corner, 2)) * blend(
        grid_share(point.w),
        far_side(corner, 3),
    )
}

/// The height of the field at a corner.
pub open spec fn corner_height(seed: u64, point: FieldPoint, corner: int) -> Binary64 {
    let a = hash::mixed(seed, end_bits(point.x, far_side(corner, 0)));
    let b = hash::mixed(a, end_bits(point.y, far_side(corner, 1)));
    let c = hash::mixed(b, end_bits(point.z, far_side(corner, 2)));
    hash::height(hash::mixed(c, end_bits(point.w, far_side(corner, 3))))
}

/// The weighted heights of the first so many corners, those of no weight left
/// out.
pub open spec fn noise_of(seed: u64, point: FieldPoint, corners: int) -> Binary64
    decreases corners,
{
    if corners <= 0 {
        Binary64::of(0)
    } else {
        let before = noise_of(seed, point, corners - 1);
        let weight = corner_weight(point, corners - 1);
        if weight.same(Binary64::of(0)) {
            before
        } else {
            before + weight * corner_height(seed, point, corners - 1)
        }
    }
}

/// A coordinate split for the noise: its cell and how far it lies into it.
struct Split {
    index: i64,
    share: Binary64,
}

fn split(value: Binary64) -> (r: Split)
    ensures
        r.index == grid_index(value),
        r.share == grid_share(value),
        -1_000_000_000_000_000 <= r.index <= 1_000_000_000_000_000,
{
    proof {
        binary64::lemma_of(0);
        binary64::lemma_of(1);
        binary64::lemma_order(Binary64::of(0), Binary64::of(1));
        binary64::lemma_to_integer_range(
            value.floor(),
            -1_000_000_000_000_000i64 as i64,
            1_000_000_000_000_000,
        );
    }
    let floor = value.floor();
    Split {
        index: floor.to_integer(-1_000_000_000_000_000, 1_000_000_000_000_000),
        share: smooth::smooth64((value - floor).clamp(Binary64::of(0), Binary64::of(1))),
    }
}

impl Split {
    fn bits(&self, far: bool) -> (r: u64)
        requires
            -1_000_000_000_000_000 <= self.index <= 1_000_000_000_000_000,
        ensures
            r == (self.index + if far {
                1int
            } else {
                0
            }) as i64 as u64,
    {
        let end: i64 = if far {
            self.index + 1
        } else {
            self.index
        };
        end as u64
    }

    fn weight(&self, far: bool) -> (r: Binary64)
        ensures
            r == blend(self.share, far),
    {
        if far {
            self.share
        } else {
            Binary64::of(1) - self.share
        }
    }
}

/// Noise over four coordinates, about between minus one and one: the same
/// coordinates always give the same, and near ones nearly the same.
pub fn noise4(seed: u64, point: FieldPoint) -> (r: Binary64)
    ensures
        r == noise_of(seed, point, 16),
{
    let x = split(point.x);
    let y = split(point.y);
    let z = split(point.z);
    let w = split(point.w);
    let mut total = Binary64::of(0);
    let mut corner: u32 = 0;
    while corner < 16
        invariant
            corner <= 16,
            total == noise_of(seed, point, corner as int),
            x.index == grid_index(point.x),
            x.share == grid_share(point.x),
            y.index == grid_index(point.y),
            y.share == grid_share(point.y),
            z.index == grid_index(point.z),
            z.share == grid_share(point.z),
            w.index == grid_index(point.w),
            w.share == grid_share(point.w),
            -1_000_000_000_000_000 <= x.index <= 1_000_000_000_000_000,
            -1_000_000_000_000_000 <= y.index <= 1_000_000_000_000_000,
            -1_000_000_000_000_000 <= z.index <= 1_000_000_000_000_000,
            -1_000_000_000_000_000 <= w.index <= 1_000_000_000_000_000,
        decreases 16 - corner,
    {
        let dx: bool = corner % 2 == 1;
        let dy: bool = corner / 2 % 2 == 1;
        let dz: bool = corner / 4 % 2 == 1;
        let dw: bool = corner / 8 % 2 == 1;
        let weight = x.weight(dx) * y.weight(dy) * z.weight(dz) * w.weight(dw);
        if !weight.same(Binary64::of(0)) {
            let a: u64 = hash::mixed(seed, x.bits(dx));
            let b: u64 = hash::mixed(a, y.bits(dy));
            let c: u64 = hash::mixed(b, z.bits(dz));
            let d: u64 = hash::mixed(c, w.bits(dw));
            total = total + weight * hash::height(d);
        }
        corner = corner + 1;
    }
    total
}

/// The place in the field for a time and a position.
pub open spec fn spec_field_point(
    elapsed: Binary64,
    position: Geodetic,
    cos_latitude: Binary64,
) -> FieldPoint {
    let radius = Binary64::of(6_371_000);
    let length = Binary64::of(150);
    FieldPoint {
        x: position.latitude * radius / length,
        y: position.longitude * radius * cos_latitude / length,
        z: position.altitude / length,
        w: elapsed / Binary64::of(4),
    }
}

/// The gusts can be worked out from what is given.
pub open spec fn field_is_defined(
    turbulence: Turbulence,
    elapsed: Binary64,
    position: Geodetic,
) -> bool {
    &&& !turbulence.is_calm()
    &&& elapsed.is_finite()
    &&& position.latitude.is_finite()
    &&& position.longitude.is_finite()
    &&& position.altitude.is_finite()
}

impl Turbulence {
    pub open spec fn spec_calm() -> Turbulence {
        Turbulence { intensity: Binary64::of(0), seed: 0 }
    }

    /// Still air.
    #[verifier::when_used_as_spec(spec_calm)]
    pub fn calm() -> (r: Turbulence)
        ensures
            r == Turbulence::calm(),
    {
        Turbulence { intensity: Binary64::of(0), seed: 0 }
    }

    /// A nudge now and then at cruise.
    pub fn light(seed: u64) -> (r: Turbulence)
        ensures
            r == (Turbulence { intensity: Binary64::ratio(15, 10), seed }),
    {
        Turbulence { intensity: Binary64::ratio(15, 10), seed }
    }

    /// A landing takes some steering.
    pub fn moderate(seed: u64) -> (r: Turbulence)
        ensures
            r == (Turbulence { intensity: Binary64::of(3), seed }),
    {
        Turbulence { intensity: Binary64::of(3), seed }
    }

    /// Holding the attitude is hard.
    pub fn severe(seed: u64) -> (r: Turbulence)
        ensures
            r == (Turbulence { intensity: Binary64::of(6), seed }),
    {
        Turbulence { intensity: Binary64::of(6), seed }
    }

    pub open spec fn spec_is_calm(self) -> bool {
        !self.intensity.is_finite() || self.intensity <= Binary64::of(0)
    }

    /// There are no gusts; a strength that is no number counts as none.
    #[verifier::when_used_as_spec(spec_is_calm)]
    pub fn is_calm(self) -> (r: bool)
        ensures
            r == self.is_calm(),
    {
        !self.intensity.is_finite() || self.intensity.le(Binary64::of(0))
    }

    /// The gust over the place in the field: each axis from its own seed, the
    /// vertical one weaker.
    pub open spec fn gust_in_field(self, point: FieldPoint) -> DVec3 {
        let vertical = self.intensity * Binary64::ratio(7, 10);
        DVec3 {
            x: self.intensity * noise_of(self.seed ^ 0x9E37_79B9_7F4A_7C15, point, 16),
            y: self.intensity * noise_of(self.seed ^ 0xBF58_476D_1CE4_E5B9, point, 16),
            z: vertical * noise_of(self.seed ^ 0x94D0_49BB_1331_11EB, point, 16),
        }
    }

    pub open spec fn gust_spec(
        self,
        elapsed: Binary64,
        position: Geodetic,
        cos_latitude: Binary64,
    ) -> DVec3 {
        if field_is_defined(self, elapsed, position) {
            self.gust_in_field(spec_field_point(elapsed, position, cos_latitude))
        } else {
            DVec3::zero()
        }
    }

    /// The gust at a time and place, north, east and down, to be added to the
    /// wind; none where something is no number.
    pub fn gust_at(self, elapsed: Binary64, position: Geodetic, cos_latitude: Binary64) -> (r:
        DVec3)
        ensures
            r == self.gust_spec(elapsed, position, cos_latitude),
    {
        if self.is_calm() {
            return DVec3::zero();
        }
        if !(elapsed.is_finite() && position.latitude.is_finite()
            && position.longitude.is_finite() && position.altitude.is_finite()) {
            return DVec3::zero();
        }
        let radius = Binary64::of(6_371_000);
        let length = Binary64::of(150);
        let point = FieldPoint {
            x: position.latitude * radius / length,
            y: position.longitude * radius * cos_latitude / length,
            z: position.altitude / length,
            w: elapsed / Binary64::of(4),
        };
        let horizontal = self.intensity;
        let vertical = self.intensity * Binary64::ratio(7, 10);
        DVec3 {
            x: horizontal * noise4(self.seed ^ 0x9E37_79B9_7F4A_7C15, point),
            y: horizontal * noise4(self.seed ^ 0xBF58_476D_1CE4_E5B9, point),
            z: vertical * noise4(self.seed ^ 0x94D0_49BB_1331_11EB, point),
        }
    }

    /// What a gust adds to the wind in earth-fixed axes: nothing in still air,
    /// and nothing that is broken.
    pub open spec fn wind_with_gust(
        self,
        wind: DVec3,
        elapsed: Binary64,
        position: Geodetic,
        cos_latitude: Binary64,
        frame: LocalFrame,
    ) -> DVec3 {
        let gust = frame.ned_to_ecef(self.gust_spec(elapsed, position, cos_latitude));
        if self.is_calm() || !gust.is_finite() {
            wind
        } else {
            wind.plus(gust)
        }
    }
}

impl Default for Turbulence {
    fn default() -> (r: Turbulence)
        ensures
            r == Turbulence::calm(),
    {
        Turbulence::calm()
    }
}

/// Still air has no gusts at any time and place, to the last bit.
pub proof fn calm_air_is_exactly_still(
    turbulence: Turbulence,
    elapsed: Binary64,
    position: Geodetic,
    cos_latitude: Binary64,
)
    requires
        turbulence.is_calm(),
    ensures
        turbulence.gust_spec(elapsed, position, cos_latitude) == DVec3::zero(),
{
}

/// A broken strength is still air, and a broken time or place has no gust.
pub proof fn broken_inputs_do_not_poison_the_air(
    turbulence: Turbulence,
    elapsed: Binary64,
    position: Geodetic,
    cos_latitude: Binary64,
)
    requires
        !turbulence.intensity.is_finite() || !elapsed.is_finite()
            || !position.latitude.is_finite() || !position.longitude.is_finite()
            || !position.altitude.is_finite(),
    ensures
        turbulence.gust_spec(elapsed, position, cos_latitude) == DVec3::zero(),
{
}

/// A share of one with its rest: the weights of a cell's two ends.
spec fn ends(near: Binary64, far: Binary64) -> bool {
    &&& near.is_finite() && 0 <= near.value() <= Binary64::one()
    &&& far.is_finite() && 0 <= far.value() <= Binary64::one()
    &&& near.value() + far.value() <= Binary64::one() + exact::step(53)
}

/// How far a coordinate lies into its cell is a share of one.
proof fn lemma_grid_share(value: Binary64)
    requires
        value.is_finite(),
    ensures
        ends(blend(grid_share(value), false), blend(grid_share(value), true)),
{
    let zero = Binary64::of(0);
    let one = Binary64::of(1);
    let o = Binary64::one();
    binary64::lemma_of(0);
    binary64::lemma_of(1);
    exact::lemma_floor_finite(value);
    let floor = value.floor();
    binary64::lemma_negate(floor);
    assert(value - floor == value + floor.negate());
    binary64::lemma_add(value, floor.negate());
    let part = (value - floor).clamp(zero, one);
    binary64::lemma_order(value - floor, zero);
    binary64::lemma_order(one, value - floor);
    binary64::lemma_between_finite(part, zero, one);
    smooth::the_curve_stays_between_zero_and_one(part);
    let share = grid_share(value);
    let rest = one - share;
    binary64::lemma_negate(share);
    assert(rest == one + share.negate());
    binary64::lemma_sum_between(one, share.negate(), zero, one);
    lemma_sum_error(one, share.negate());
}

/// A sum below two is off by half a step at most.
proof fn lemma_sum_error(a: Binary64, b: Binary64)
    requires
        a.is_finite(),
        b.is_finite(),
        -2 * Binary64::one() < a.value() + b.value() < 2 * Binary64::one(),
    ensures
        (a + b).is_finite(),
        a.value() + b.value() - exact::step(53) <= (a + b).value() <= a.value() + b.value()
            + exact::step(53),
{
    let f = Format::Double;
    let sum = a.value() + b.value();
    let two = Binary64::of(2);
    binary64::lemma_of(2);
    binary64::lemma_negate(two);
    binary64::lemma_add(a, b);
    binary64::lemma_sum_between(a, b, two.negate(), two);
    lemma_pow2_unfold(1075);
    lemma_pow2_unfold(1022);
    rounding::lemma_round_error(f, number::magnitude_of(sum), 1, 1075);
}

/// A product of shares is a share, and off by half a step at most.
proof fn lemma_product_error(a: Binary64, b: Binary64)
    requires
        a.is_finite(),
        b.is_finite(),
        0 <= a.value() <= Binary64::one(),
        0 <= b.value() <= Binary64::one(),
    ensures
        (a * b).is_finite(),
        0 <= (a * b).value() <= Binary64::one(),
        (a * b).value() * Binary64::one() <= a.value() * b.value() + exact::step(53)
            * Binary64::one(),
{
    let f = Format::Double;
    let one = Binary64::one();
    let (x, y) = (a.value(), b.value());
    binary64::lemma_product_below(a, b);
    binary64::lemma_mul(a, b);
    lemma_pow2_unfold(1075);
    lemma_pow2_unfold(1022);
    assert(0 <= x * y < one * (2 * one)) by (nonlinear_arith)
        requires
            0 <= x <= one,
            0 <= y <= one,
            one > 0,
    ;
    rounding::lemma_round_error(f, (x * y) as nat, one, 1075);
    assert(one * pow2(1022) == 2 * (exact::step(53) * one)) by (nonlinear_arith)
        requires
            pow2(1022) == 2 * exact::step(53),
    ;
}

/// What the two ends of a cell leave of a weight is hardly more than it.
proof fn lemma_ends_share(weight: Binary64, near: Binary64, far: Binary64)
    requires
        weight.is_finite(),
        0 <= weight.value() <= Binary64::one(),
        ends(near, far),
    ensures
        (weight * near).is_finite(),
        (weight * far).is_finite(),
        0 <= (weight * near).value() <= Binary64::one(),
        0 <= (weight * far).value() <= Binary64::one(),
        (weight * near).value() + (weight * far).value() <= weight.value() + 3 * exact::step(53),
{
    lemma_product_error(weight, near);
    lemma_product_error(weight, far);
    let one = Binary64::one() as int;
    let e = exact::step(53) as int;
    let (r, n, m) = (weight.value(), near.value(), far.value());
    let sum = (weight * near).value() + (weight * far).value();
    exact::lemma_step(53);
    exact::lemma_step(0);
    let (p, q) = ((weight * near).value(), (weight * far).value());
    assert(sum * one == p * one + q * one) by (nonlinear_arith)
        requires
            sum == p + q,
    ;
    assert(sum <= r + 3 * e) by (nonlinear_arith)
        requires
            sum * one <= r * n + r * m + 2 * (e * one),
            n + m <= one + e,
            0 <= r <= one,
            e > 0,
            one > 0,
    {
        assert(r * n + r * m <= r * (one + e));
        assert(r * (one + e) <= r * one + one * e);
        assert(sum * one <= (r + 3 * e) * one);
    }
}

/// The weight of a corner before its later sides are counted.
spec fn edge(point: FieldPoint, corner: int) -> Binary64 {
    blend(grid_share(point.x), far_side(corner, 0)) * blend(
        grid_share(point.y),
        far_side(corner, 1),
    )
}

spec fn face(point: FieldPoint, corner: int) -> Binary64 {
    edge(point, corner) * blend(grid_share(point.z), far_side(corner, 2))
}

/// The place can be counted in cells.
pub open spec fn point_is_finite(point: FieldPoint) -> bool {
    &&& point.x.is_finite()
    &&& point.y.is_finite()
    &&& point.z.is_finite()
    &&& point.w.is_finite()
}

/// The weights of a corner and of the one across the last side.
proof fn lemma_corner_pair(point: FieldPoint, corner: int)
    requires
        point_is_finite(point),
        0 <= corner < 8,
        face(point, corner).is_finite(),
        0 <= face(point, corner).value() <= Binary64::one(),
    ensures
        corner_weight(point, corner).is_finite(),
        corner_weight(point, corner + 8).is_finite(),
        0 <= corner_weight(point, corner).value() <= Binary64::one(),
        0 <= corner_weight(point, corner + 8).value() <= Binary64::one(),
        corner_weight(point, corner).value() + corner_weight(point, corner + 8).value() <= face(
            point,
            corner,
        ).value() + 3 * exact::step(53),
{
    let share = grid_share(point.w);
    lemma_grid_share(point.w);
    lemma_ends_share(face(point, corner), blend(share, false), blend(share, true));
}

/// The same across the third side.
proof fn lemma_face_pair(point: FieldPoint, corner: int)
    requires
        point_is_finite(point),
        0 <= corner < 4,
        edge(point, corner).is_finite(),
        0 <= edge(point, corner).value() <= Binary64::one(),
    ensures
        face(point, corner).is_finite(),
        face(point, corner + 4).is_finite(),
        0 <= face(point, corner).value() <= Binary64::one(),
        0 <= face(point, corner + 4).value() <= Binary64::one(),
        face(point, corner).value() + face(point, corner + 4).value() <= edge(
            point,
            corner,
        ).value() + 3 * exact::step(53),
{
    let share = grid_share(point.z);
    lemma_grid_share(point.z);
    lemma_ends_share(edge(point, corner), blend(share, false), blend(share, true));
}

/// The weights of the first so many corners, added up exactly.
spec fn weight_sum(point: FieldPoint, corners: int) -> int
    decreases corners,
{
    if corners <= 0 {
        0
    } else {
        weight_sum(point, corners - 1) + corner_weight(point, corners - 1).value()
    }
}

/// The weights are shares that add up to hardly more than one.
proof fn lemma_weights(point: FieldPoint)
    requires
        point_is_finite(point),
    ensures
        forall|corner: int|
            0 <= corner < 16 ==> (#[trigger] corner_weight(point, corner)).is_finite() && 0
                <= corner_weight(point, corner).value() <= Binary64::one(),
        weight_sum(point, 16) <= Binary64::one() + 43 * exact::step(53),
{
    let x = grid_share(point.x);
    let y = grid_share(point.y);
    lemma_grid_share(point.x);
    lemma_grid_share(point.y);
    lemma_ends_share(blend(x, false), blend(y, false), blend(y, true));
    lemma_ends_share(blend(x, true), blend(y, false), blend(y, true));
    assert(edge(point, 0) == blend(x, false) * blend(y, false));
    assert(edge(point, 1) == blend(x, true) * blend(y, false));
    assert(edge(point, 2) == blend(x, false) * blend(y, true));
    assert(edge(point, 3) == blend(x, true) * blend(y, true));
    lemma_face_pair(point, 0);
    lemma_face_pair(point, 1);
    lemma_face_pair(point, 2);
    lemma_face_pair(point, 3);
    lemma_corner_pair(point, 0);
    lemma_corner_pair(point, 1);
    lemma_corner_pair(point, 2);
    lemma_corner_pair(point, 3);
    lemma_corner_pair(point, 4);
    lemma_corner_pair(point, 5);
    lemma_corner_pair(point, 6);
    lemma_corner_pair(point, 7);
    reveal_with_fuel(weight_sum, 17);
}

/// Fewer corners weigh no more.
proof fn lemma_weight_sum_grows(point: FieldPoint, corners: int)
    requires
        point_is_finite(point),
        0 <= corners <= 16,
    ensures
        weight_sum(point, corners) <= weight_sum(point, 16),
    decreases 16 - corners,
{
    if corners < 16 {
        lemma_weights(point);
        lemma_weight_sum_grows(point, corners + 1);
        assert(corner_weight(point, corners).value() >= 0);
    }
}

/// The noise over the first so many corners stays within their weights but for
/// the rounding of the sums.
proof fn lemma_noise(seed: u64, point: FieldPoint, corners: int)
    requires
        point_is_finite(point),
        0 <= corners <= 16,
    ensures
        noise_of(seed, point, corners).is_finite(),
        -weight_sum(point, corners) - corners * exact::step(53) <= noise_of(
            seed,
            point,
            corners,
        ).value() <= weight_sum(point, corners) + corners * exact::step(53),
    decreases corners,
{
    let e = exact::step(53) as int;
    binary64::lemma_of(0);
    exact::lemma_step(53);
    if corners > 0 {
        let last = corners - 1;
        lemma_noise(seed, point, last);
        lemma_weights(point);
        lemma_weight_sum_grows(point, corners);
        let before = noise_of(seed, point, last);
        let weight = corner_weight(point, last);
        let height = corner_height(seed, point, last);
        let a = hash::mixed(seed, end_bits(point.x, far_side(last, 0)));
        let b = hash::mixed(a, end_bits(point.y, far_side(last, 1)));
        let c = hash::mixed(b, end_bits(point.z, far_side(last, 2)));
        hash::heights_are_between_minus_one_and_one(
            hash::mixed(c, end_bits(point.w, far_side(last, 3))),
        );
        let one = Binary64::one() as int;
        let (w, h) = (weight.value(), height.value());
        binary64::lemma_negate(weight);
        assert((-w) * one <= w * h <= w * one) by (nonlinear_arith)
            requires
                0 <= w,
                -one <= h <= one,
        ;
        binary64::lemma_product_between(weight, height, weight.negate(), weight);
        assert(corners * e == last * e + e) by (nonlinear_arith)
            requires
                corners == last + 1,
        ;
        assert(corners * e <= 16 * e) by (nonlinear_arith)
            requires
                corners <= 16,
                e > 0,
        ;
        lemma2_to64();
        lemma2_to64_rest();
        lemma_sum_error(before, weight * height);
    }
}

/// What the strength may be exceeded by for rounding: about one part in a
/// hundred million million.
pub open spec fn spec_slack() -> Binary64 {
    Binary64::ratio(0x8000_0000_0001, 0x8000_0000_0000)
}

/// The noise of the field is between minus one and one, but for rounding.
pub proof fn the_noise_is_between_minus_one_and_one(seed: u64, point: FieldPoint)
    requires
        point_is_finite(point),
    ensures
        noise_of(seed, point, 16).is_finite(),
        noise_of(seed, point, 16).abs() <= spec_slack(),
{
    let noise = noise_of(seed, point, 16);
    lemma_noise(seed, point, 16);
    lemma_weights(point);
    lemma2_to64();
    lemma2_to64_rest();
    exact::lemma_ratio(0x8000_0000_0001, 0x8000_0000_0000, 47);
    exact::lemma_step(47);
    exact::lemma_step(53);
    lemma_pow2_adds(1021, 6);
    binary64::lemma_abs(noise);
    binary64::lemma_order(noise.abs(), spec_slack());
    let one = Binary64::one() as int;
    let s = exact::step(47) as int;
    assert(0x8000_0000_0001 * s == one + s) by (nonlinear_arith)
        requires
            s * 0x8000_0000_0000 == one,
    ;
}

/// A strength times a share of it, but for rounding, is no more than the
/// strength.
proof fn lemma_scaled_noise(intensity: Binary64, noise: Binary64)
    requires
        intensity.is_finite(),
        intensity.value() >= 0,
        noise.is_finite(),
        noise.abs() <= spec_slack(),
    ensures
        (intensity * noise).abs() <= intensity * spec_slack(),
{
    let limit = spec_slack();
    let one = Binary64::one();
    lemma2_to64();
    lemma2_to64_rest();
    exact::lemma_ratio(0x8000_0000_0001, 0x8000_0000_0000, 47);
    binary64::lemma_order(noise.abs(), limit);
    binary64::lemma_abs(noise);
    binary64::lemma_mul(intensity, noise);
    binary64::lemma_mul(intensity, limit);
    let (i, n, l) = (intensity.value(), noise.value(), limit.value());
    assert(-(i * l) <= i * n <= i * l) by (nonlinear_arith)
        requires
            i >= 0,
            -l <= n <= l,
    ;
    binary64::lemma_round_monotone(i * n, i * l, one);
    binary64::lemma_round_monotone(-(i * n), i * l, one);
    binary64::lemma_abs(intensity * noise);
    binary64::lemma_order((intensity * noise).abs(), intensity * limit);
}

/// No gust is stronger than the strength asked for, but for rounding, and the
/// vertical one is weaker by its share.
pub proof fn the_gust_stays_within_the_intensity(turbulence: Turbulence, point: FieldPoint)
    requires
        !turbulence.is_calm(),
        point_is_finite(point),
    ensures
        turbulence.gust_in_field(point).x.abs() <= turbulence.intensity * spec_slack(),
        turbulence.gust_in_field(point).y.abs() <= turbulence.intensity * spec_slack(),
        turbulence.gust_in_field(point).z.abs() <= turbulence.intensity * Binary64::ratio(7, 10)
            * spec_slack(),
{
    let seed = turbulence.seed;
    let intensity = turbulence.intensity;
    binary64::lemma_of(0);
    binary64::lemma_order(intensity, Binary64::of(0));
    the_noise_is_between_minus_one_and_one(seed ^ 0x9E37_79B9_7F4A_7C15, point);
    the_noise_is_between_minus_one_and_one(seed ^ 0xBF58_476D_1CE4_E5B9, point);
    the_noise_is_between_minus_one_and_one(seed ^ 0x94D0_49BB_1331_11EB, point);
    lemma_scaled_noise(intensity, noise_of(seed ^ 0x9E37_79B9_7F4A_7C15, point, 16));
    lemma_scaled_noise(intensity, noise_of(seed ^ 0xBF58_476D_1CE4_E5B9, point, 16));
    binary64::lemma_ratio_share(7, 10);
    binary64::lemma_product_below(intensity, Binary64::ratio(7, 10));
    lemma_scaled_noise(
        intensity * Binary64::ratio(7, 10),
        noise_of(seed ^ 0x94D0_49BB_1331_11EB, point, 16),
    );
}

} // verus!
