//! Which way the light falls and which way the camera looks.
use crate::angle;
use crate::angle::SinCos;
use crate::binary32;
use crate::binary32::Binary32;
use crate::binary64;
use crate::binary64::Binary64;
use crate::fine;
use crate::near;
use crate::render::facing;
use crate::render::sun::SolarPosition;
use crate::vector::Vec3;
use vstd::arithmetic::power2::*;
use vstd::prelude::*;

verus! {

/// Where the sun stands: the bearing from true north and the height over the
/// horizon, in radians.
#[derive(Clone, Copy, PartialEq, Eq, Debug, Structural)]
pub struct SunDirection {
    pub azimuth: Binary64,
    pub elevation: Binary64,
}

impl Default for SunDirection {
    /// South-southwest at half height; the first frame replaces it.
    fn default() -> (r: SunDirection)
        ensures
            r == (SunDirection {
                azimuth: angle::to_radians(Binary64::of(200)),
                elevation: angle::to_radians(Binary64::of(45)),
            }),
    {
        SunDirection {
            azimuth: angle::to_radians(Binary64::of(200)),
            elevation: angle::to_radians(Binary64::of(45)),
        }
    }
}

impl From<SolarPosition> for SunDirection {
    fn from(position: SolarPosition) -> (r: SunDirection) {
        SunDirection { azimuth: position.azimuth, elevation: position.elevation }
    }
}

impl vstd::std_specs::convert::FromSpecImpl<SolarPosition> for SunDirection {
    open spec fn obeys_from_spec() -> bool {
        true
    }

    open spec fn from_spec(position: SolarPosition) -> SunDirection {
        SunDirection { azimuth: position.azimuth, elevation: position.elevation }
    }
}

/// Towards the sun in drawing axes: east, up and south.
pub open spec fn spec_to_sun(azimuth: SinCos, elevation: SinCos) -> Vec3 {
    Vec3 {
        x: (elevation.cos * azimuth.sin).to_binary32(),
        y: elevation.sin.to_binary32(),
        z: (elevation.cos * azimuth.cos).negate().to_binary32(),
    }
}

/// The way sunlight travels in drawing axes: away from the sun.
pub fn sun_light_direction(azimuth: SinCos, elevation: SinCos) -> (r: Vec3)
    ensures
        r == spec_to_sun(azimuth, elevation).normalized().opposite(),
{
    let north = elevation.cos * azimuth.cos;
    let east = elevation.cos * azimuth.sin;
    let up = elevation.sin;
    let to_sun = Vec3 {
        x: east.to_binary32(),
        y: up.to_binary32(),
        z: north.negate().to_binary32(),
    };
    to_sun.normalized().opposite()
}

/// The sine and cosine of an angle, but for rounding.
pub open spec fn is_angle(a: SinCos) -> bool {
    let unit = Binary64::one() * Binary64::one();
    let square = a.sin.value() * a.sin.value() + a.cos.value() * a.cos.value();
    &&& near::sized(a.sin, 1)
    &&& near::sized(a.cos, 1)
    &&& -unit <= (square - unit) * 0x10000 <= unit
}

/// Sunlight travels in a direction of length one, but for rounding: the square
/// of its length is off by one part in two to the nineteen at most.
pub proof fn sunlight_has_a_direction_of_length_one(azimuth: SinCos, elevation: SinCos)
    requires
        is_angle(azimuth),
        is_angle(elevation),
    ensures
        ({
            let unit = Binary32::one() * Binary32::one();
            let way = spec_to_sun(azimuth, elevation).normalized().opposite();
            &&& way.is_finite()
            &&& -unit <= (fine::length_squared(way) - unit) * 0x80000 <= unit
        }),
{
    let v = spec_to_sun(azimuth, elevation);
    lemma_to_sun(azimuth, elevation);
    fine::a_normalised_single_direction_has_length_one(v);
    let n = v.normalized();
    binary32::lemma_negate(n.x);
    binary32::lemma_negate(n.y);
    binary32::lemma_negate(n.z);
    let (x, y, z) = (n.x.value(), n.y.value(), n.z.value());
    assert((-x) * (-x) == x * x && (-y) * (-y) == y * y && (-z) * (-z) == z * z) by (nonlinear_arith);
}

/// A number of at most two in single precision, counted in the smallest double.
proof fn lemma_part(a: Binary64)
    requires
        near::sized(a, 2),
    ensures
        a.to_binary32().is_finite(),
        near::within(a.to_binary32().value() * near::single_step(), a.value(), pow2(1054)),
{
    near::lemma_larger(a, 2, 16);
    near::lemma_narrowed(a);
    let s = near::single_step() as int;
    let p = Binary32::one() as int;
    let o = Binary64::one() as int;
    near::lemma_grain();
    lemma_pow2_pos(925);
    lemma_pow2_adds(925, 149);
    lemma_pow2_strictly_increases(1054, 1074);
    binary32::lemma_of(3);
    binary64::lemma_order(a, a);
    binary64::lemma_narrow_number(a);
    let v = a.to_binary32().value();
    assert(-(3 * p) <= v <= 3 * p) by (nonlinear_arith)
        requires
            -(3 * o) <= v * s <= 3 * o,
            o == s * p,
            s > 0,
    ;
    binary32::lemma_finite_below(a.to_binary32(), Binary32::of(3));
}

/// The way to the sun has nearly length one before it is brought to it.
proof fn lemma_to_sun(azimuth: SinCos, elevation: SinCos)
    requires
        is_angle(azimuth),
        is_angle(elevation),
    ensures
        ({
            let v = spec_to_sun(azimuth, elevation);
            let unit = Binary32::one() * Binary32::one();
            &&& v.is_finite()
            &&& 63 * unit <= 64 * fine::length_squared(v)
            &&& 64 * fine::length_squared(v) <= 65 * unit
        }),
{
    let o = Binary64::one() as int;
    let g = near::grain() as int;
    let v = spec_to_sun(azimuth, elevation);
    near::lemma_grain();
    near::lemma_small_product(elevation.cos, azimuth.sin, 1, 1);
    near::lemma_small_product(elevation.cos, azimuth.cos, 1, 1);
    near::lemma_larger(elevation.sin, 1, 2);
    let (east, north) = (elevation.cos * azimuth.sin, elevation.cos * azimuth.cos);
    binary64::lemma_negate(north);
    lemma_part(east);
    lemma_part(elevation.sin);
    lemma_part(north.negate());
    let s = near::single_step() as int;
    let q = pow2(1054) as int;
    lemma_pow2_pos(925);
    lemma_pow2_adds(925, 149);
    lemma_pow2_adds(1054, 20);
    lemma_pow2_adds(1042, 12);
    lemma2_to64();
    let p = Binary32::one() as int;
    assert(o == s * p);
    assert(o == 0x100000 * q);
    assert(q == 0x1000 * g);
    let (x, y, z) = (v.x.value(), v.y.value(), v.z.value());
    let (c, d, a, b) = (
        elevation.cos.value(),
        elevation.sin.value(),
        azimuth.sin.value(),
        azimuth.cos.value(),
    );
    assert(q * o == 0x1000 * (g * o)) by (nonlinear_arith)
        requires
            q == 0x1000 * g,
    ;
    assert((-(z * s)) == (-z) * s) by (nonlinear_arith);
    lemma_corner(o, q, x * s, c, a, east.value());
    lemma_corner(o, q, -(z * s), c, b, north.value());
    lemma_sun_length(o, q, s, p, (x, y, z), (c, d, a, b));
}

/// A product that was rounded twice is off by little.
proof fn lemma_corner(o: int, q: int, x: int, c: int, a: int, e: int)
    requires
        o == 0x100000 * q,
        q > 0,
        -q <= x - e <= q,
        -(q * o) <= 0x1000 * (e * o - c * a) <= q * o,
    ensures
        -(2 * (q * o)) <= x * o - c * a <= 2 * (q * o),
{
    assert(-(q * o) <= x * o - e * o <= q * o) by (nonlinear_arith)
        requires
            -q <= x - e <= q,
            o > 0,
    ;
}

/// The squares add up to nearly one.
proof fn lemma_sun_length(
    o: int,
    q: int,
    s: int,
    p: int,
    v: (int, int, int),
    t: (int, int, int, int),
)
    requires
        o == 0x100000 * q,
        q > 0,
        s > 0,
        p > 0,
        o == s * p,
        -o <= t.0 <= o,
        -o <= t.1 <= o,
        -o <= t.2 <= o,
        -o <= t.3 <= o,
        -(o * o) <= (t.0 * t.0 + t.1 * t.1 - o * o) * 0x10000 <= o * o,
        -(o * o) <= (t.2 * t.2 + t.3 * t.3 - o * o) * 0x10000 <= o * o,
        -(2 * (q * o)) <= (v.0 * s) * o - t.0 * t.2 <= 2 * (q * o),
        -q <= v.1 * s - t.1 <= q,
        -(2 * (q * o)) <= (-(v.2 * s)) * o - t.0 * t.3 <= 2 * (q * o),
    ensures
        63 * (p * p) <= 64 * (v.0 * v.0 + v.1 * v.1 + v.2 * v.2),
        64 * (v.0 * v.0 + v.1 * v.1 + v.2 * v.2) <= 65 * (p * p),
{
    let unit = o * o;
    let (c, d, a, b) = t;
    let (x, y, z) = (v.0 * s, v.1 * s, -(v.2 * s));
    // Everything times one squared, in sixteenths of a thousandth of it.
    facing::lemma_size(c, a, o, o);
    facing::lemma_size(c, b, o, o);
    facing::lemma_size(d, o, o, o);
    lemma_near_square(o, q, x, c * a);
    lemma_near_square(o, q, z, c * b);
    assert(unit * (y * y) == (y * o) * (y * o)) by (nonlinear_arith)
        requires
            unit == o * o,
    ;
    assert(-(2 * (q * o)) <= y * o - d * o <= 2 * (q * o)) by (nonlinear_arith)
        requires
            -q <= y - d <= q,
            o > 0,
            q > 0,
    ;
    lemma_near_square(o, q, y, d * o);
    let e = unit * unit;
    let (l, m) = (c * c + d * d, a * a + b * b);
    let k = c * c;
    assert((c * a) * (c * a) + (c * b) * (c * b) == k * m) by (nonlinear_arith)
        requires
            k == c * c,
            m == a * a + b * b,
    ;
    assert((d * o) * (d * o) == unit * (d * d)) by (nonlinear_arith)
        requires
            unit == o * o,
    ;
    assert(0 <= k <= unit) by (nonlinear_arith)
        requires
            k == c * c,
            unit == o * o,
            -o <= c <= o,
    ;
    assert(-e <= (k * (m - unit)) * 0x10000 <= e) by (nonlinear_arith)
        requires
            0 <= k <= unit,
            -unit <= (m - unit) * 0x10000 <= unit,
            e == unit * unit,
    ;
    assert(-e <= (unit * (l - unit)) * 0x10000 <= e) by (nonlinear_arith)
        requires
            -unit <= (l - unit) * 0x10000 <= unit,
            e == unit * unit,
            unit >= 0,
    ;
    assert(k * m + unit * (d * d) == k * (m - unit) + unit * (l - unit) + e) by (nonlinear_arith)
        requires
            l == k + d * d,
            e == unit * unit,
    ;
    let g = x * x + y * y + z * z;
    assert(unit * g == unit * (x * x) + unit * (y * y) + unit * (z * z)) by (nonlinear_arith)
        requires
            g == x * x + y * y + z * z,
    ;
    assert(-e <= (unit * g - e) * 0x1000 <= e);
    assert(unit > 0) by (nonlinear_arith)
        requires
            unit == o * o,
            o > 0,
    ;
    assert(-unit <= (g - unit) * 0x1000 <= unit) by (nonlinear_arith)
        requires
            -e <= (unit * g - e) * 0x1000 <= e,
            e == unit * unit,
            unit > 0,
    ;
    let h = v.0 * v.0 + v.1 * v.1 + v.2 * v.2;
    let (a0, b0, c0) = v;
    assert(x * x == (s * s) * (a0 * a0)) by (nonlinear_arith)
        requires
            x == a0 * s,
    ;
    assert(y * y == (s * s) * (b0 * b0)) by (nonlinear_arith)
        requires
            y == b0 * s,
    ;
    assert(z * z == (s * s) * (c0 * c0)) by (nonlinear_arith)
        requires
            z == -(c0 * s),
    ;
    assert((s * s) * h == (s * s) * (a0 * a0) + (s * s) * (b0 * b0) + (s * s) * (c0 * c0))
        by (nonlinear_arith)
        requires
            h == a0 * a0 + b0 * b0 + c0 * c0,
    ;
    assert((s * p) * (s * p) == (s * s) * (p * p)) by (nonlinear_arith);
    let f = s * s;
    assert(f > 0) by (nonlinear_arith)
        requires
            f == s * s,
            s > 0,
    ;
    let w = p * p;
    assert(63 * w <= 64 * h && 64 * h <= 65 * w) by (nonlinear_arith)
        requires
            g == f * h,
            unit == f * w,
            -unit <= (g - unit) * 0x1000 <= unit,
            f > 0,
            w >= 0,
    ;
}

/// The square of what is off by little.
proof fn lemma_near_square(o: int, q: int, x: int, y: int)
    requires
        o == 0x100000 * q,
        q > 0,
        -(2 * (q * o)) <= x * o - y <= 2 * (q * o),
        -(o * o) <= y <= o * o,
    ensures
        ({
            let e = (o * o) * (o * o);
            -e <= ((o * o) * (x * x) - y * y) * 0x10000 <= e
        }),
{
    let unit = o * o;
    let d = x * o - y;
    assert(unit * (x * x) == (x * o) * (x * o)) by (nonlinear_arith)
        requires
            unit == o * o,
    ;
    assert((y + d) * (y + d) == y * y + 2 * (y * d) + d * d) by (nonlinear_arith);
    assert(-unit <= d * 0x80000 <= unit) by (nonlinear_arith)
        requires
            -(2 * (q * o)) <= d <= 2 * (q * o),
            unit == o * o,
            o == 0x100000 * q,
    ;
    assert(-(unit * unit) <= (y * d) * 0x80000 <= unit * unit) by (nonlinear_arith)
        requires
            -unit <= d * 0x80000 <= unit,
            -unit <= y <= unit,
    ;
    assert(0 <= (d * d) * 0x80000 <= unit * unit) by (nonlinear_arith)
        requires
            -unit <= d * 0x80000 <= unit,
    ;
}

/// A turn in space.
#[derive(Clone, Copy, PartialEq, Eq, Debug, Structural)]
pub struct Quat {
    pub x: Binary32,
    pub y: Binary32,
    pub z: Binary32,
    pub w: Binary32,
}

/// Four whole numbers that stand for twice a turn of length one.
pub struct DoubledTurn {
    pub x: int,
    pub y: int,
    pub z: int,
    pub w: int,
}

/// Half of a whole number.
pub open spec fn half(n: int) -> Binary32 {
    if n < 0 {
        Binary32::ratio((-n) as u64, 2).negate()
    } else {
        Binary32::ratio(n as u64, 2)
    }
}

/// Twice the turn from camera axes to body axes.
pub open spec fn camera_turn() -> DoubledTurn {
    DoubledTurn { x: 1, y: 1, z: -1, w: -1 }
}

/// The turn from camera axes to body axes: the camera looks along its own minus
/// Z with Y up, the aircraft along X with Z down.
pub fn body_to_camera_rotation() -> (r: Quat)
    ensures
        r.x == half(camera_turn().x),
        r.y == half(camera_turn().y),
        r.z == half(camera_turn().z),
        r.w == half(camera_turn().w),
{
    let part = Binary32::ratio(1, 2);
    Quat { x: part, y: part, z: part.negate(), w: part.negate() }
}

/// Four times what a turn makes of a vector of whole numbers.
pub open spec fn turned(q: DoubledTurn, v: (int, int, int)) -> (int, int, int) {
    let (a, b, c) = v;
    (
        (q.w * q.w + q.x * q.x - q.y * q.y - q.z * q.z) * a + 2 * (q.x * q.y - q.w * q.z) * b + 2
            * (q.x * q.z + q.w * q.y) * c,
        2 * (q.x * q.y + q.w * q.z) * a + (q.w * q.w - q.x * q.x + q.y * q.y - q.z * q.z) * b + 2
            * (q.y * q.z - q.w * q.x) * c,
        2 * (q.x * q.z - q.w * q.y) * a + 2 * (q.y * q.z + q.w * q.x) * b + (q.w * q.w - q.x * q.x
            - q.y * q.y + q.z * q.z) * c,
    )
}

/// The camera looks where the aircraft points: its view along minus Z is the
/// nose, its Y is the aircraft's up and its X the aircraft's right.
pub proof fn the_camera_looks_where_the_aircraft_points()
    ensures
        turned(camera_turn(), (0, 0, -1)) == (4int, 0int, 0int),
        turned(camera_turn(), (0, 1, 0)) == (0int, 0int, -4int),
        turned(camera_turn(), (1, 0, 0)) == (0int, 4int, 0int),
        camera_turn().x * camera_turn().x + camera_turn().y * camera_turn().y + camera_turn().z
            * camera_turn().z + camera_turn().w * camera_turn().w == 4,
{
    let q = camera_turn();
    assert(turned(q, (0, 0, -1)) == (4int, 0int, 0int)) by (nonlinear_arith)
        requires
            q == (DoubledTurn { x: 1, y: 1, z: -1, w: -1 }),
    ;
    assert(turned(q, (0, 1, 0)) == (0int, 0int, -4int)) by (nonlinear_arith)
        requires
            q == (DoubledTurn { x: 1, y: 1, z: -1, w: -1 }),
    ;
    assert(turned(q, (1, 0, 0)) == (0int, 4int, 0int)) by (nonlinear_arith)
        requires
            q == (DoubledTurn { x: 1, y: 1, z: -1, w: -1 }),
    ;
    assert(q.x * q.x + q.y * q.y + q.z * q.z + q.w * q.w == 4) by (nonlinear_arith)
        requires
            q == (DoubledTurn { x: 1, y: 1, z: -1, w: -1 }),
    ;
}

} // verus!
