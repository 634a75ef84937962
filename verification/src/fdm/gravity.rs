//! Normal gravity on the ellipsoid of WGS 84.
//!
//! It is half a percent stronger at the poles than at the equator and weakens
//! with height. It acts along the ellipsoid's normal, straight down.
use crate::binary64;
use crate::binary64::Binary64;
use crate::exact;
use crate::near;
use crate::number;
use crate::sign;
use crate::vector::DVec3;
use vstd::arithmetic::power2::*;
use vstd::prelude::*;

verus! {

pub open spec fn spec_equatorial_gravity() -> Binary64 {
    Binary64::ratio(97_803_253_359, 10_000_000_000)
}

/// Gravity at the equator in metres per second squared.
#[verifier::when_used_as_spec(spec_equatorial_gravity)]
pub fn equatorial_gravity() -> (r: Binary64)
    ensures
        r == equatorial_gravity(),
{
    Binary64::ratio(97_803_253_359, 10_000_000_000)
}

pub open spec fn spec_somigliana_constant() -> Binary64 {
    Binary64::ratio(1_931_852_652_458, 1_000_000_000_000_000)
}

/// The constant of Somigliana's formula.
#[verifier::when_used_as_spec(spec_somigliana_constant)]
pub fn somigliana_constant() -> (r: Binary64)
    ensures
        r == somigliana_constant(),
{
    Binary64::ratio(1_931_852_652_458, 1_000_000_000_000_000)
}

pub open spec fn spec_gravity_ratio_m() -> Binary64 {
    Binary64::ratio(344_978_650_684, 100_000_000_000_000)
}

/// Centrifugal force over gravity at the equator.
#[verifier::when_used_as_spec(spec_gravity_ratio_m)]
pub fn gravity_ratio_m() -> (r: Binary64)
    ensures
        r == gravity_ratio_m(),
{
    Binary64::ratio(344_978_650_684, 100_000_000_000_000)
}

pub open spec fn spec_semi_major_axis() -> Binary64 {
    Binary64::of(6_378_137)
}

/// The semi-major axis of the ellipsoid in metres.
#[verifier::when_used_as_spec(spec_semi_major_axis)]
pub fn semi_major_axis() -> (r: Binary64)
    ensures
        r == semi_major_axis(),
{
    Binary64::of(6_378_137)
}

pub open spec fn spec_flattening() -> Binary64 {
    Binary64::of(1) / Binary64::ratio(298_257_223_563, 1_000_000_000)
}

/// The flattening of the ellipsoid.
#[verifier::when_used_as_spec(spec_flattening)]
pub fn flattening() -> (r: Binary64)
    ensures
        r == flattening(),
{
    Binary64::of(1) / Binary64::ratio(298_257_223_563, 1_000_000_000)
}

pub open spec fn spec_eccentricity_sq() -> Binary64 {
    flattening() * (Binary64::of(2) - flattening())
}

/// The square of the eccentricity of the ellipsoid.
#[verifier::when_used_as_spec(spec_eccentricity_sq)]
pub fn eccentricity_sq() -> (r: Binary64)
    ensures
        r == eccentricity_sq(),
{
    flattening() * (Binary64::of(2) - flattening())
}

pub open spec fn spec_surface_gravity(sin_latitude: Binary64) -> Binary64 {
    let square = sin_latitude * sin_latitude;
    let one = Binary64::of(1);
    equatorial_gravity() * (one + somigliana_constant() * square) / (one - eccentricity_sq()
        * square).sqrt()
}

/// Gravity on the ellipsoid for the sine of the latitude.
#[verifier::when_used_as_spec(spec_surface_gravity)]
pub fn surface_gravity(sin_latitude: Binary64) -> (r: Binary64)
    ensures
        r == surface_gravity(sin_latitude),
{
    let square = sin_latitude * sin_latitude;
    let one = Binary64::of(1);
    equatorial_gravity() * (one + somigliana_constant() * square) / (one - eccentricity_sq()
        * square).sqrt()
}

pub open spec fn spec_height_correction(sin_latitude: Binary64, height: Binary64) -> Binary64 {
    let square = sin_latitude * sin_latitude;
    let one = Binary64::of(1);
    let two = Binary64::of(2);
    let a = semi_major_axis();
    let f = flattening();
    one - two / a * (one + f + gravity_ratio_m() - two * f * square) * height + Binary64::of(3) / (a
        * a) * height * height
}

/// The share of gravity that is left at a height, which may come out below zero.
#[verifier::when_used_as_spec(spec_height_correction)]
pub fn height_correction(sin_latitude: Binary64, height: Binary64) -> (r: Binary64)
    ensures
        r == height_correction(sin_latitude, height),
{
    let square = sin_latitude * sin_latitude;
    let one = Binary64::of(1);
    let two = Binary64::of(2);
    let a = semi_major_axis();
    let f = flattening();
    one - two / a * (one + f + gravity_ratio_m() - two * f * square) * height + Binary64::of(3) / (a
        * a) * height * height
}

pub open spec fn spec_magnitude(sin_latitude: Binary64, height: Binary64) -> Binary64 {
    surface_gravity(sin_latitude) * height_correction(sin_latitude, height).max(Binary64::of(0))
}

/// Gravity at a height over the ellipsoid, never below zero.
#[verifier::when_used_as_spec(spec_magnitude)]
pub fn magnitude(sin_latitude: Binary64, height: Binary64) -> (r: Binary64)
    ensures
        r == magnitude(sin_latitude, height),
{
    surface_gravity(sin_latitude) * height_correction(sin_latitude, height).max(Binary64::of(0))
}

pub open spec fn spec_acceleration_ecef(sin_latitude: Binary64, height: Binary64, up: DVec3) -> DVec3 {
    up.opposite().scaled(magnitude(sin_latitude, height))
}

/// The acceleration of gravity, `up` being the way up.
#[verifier::when_used_as_spec(spec_acceleration_ecef)]
pub fn acceleration_ecef(sin_latitude: Binary64, height: Binary64, up: DVec3) -> (r: DVec3)
    ensures
        r == acceleration_ecef(sin_latitude, height, up),
{
    up.opposite().scaled(magnitude(sin_latitude, height))
}

/// On the ground there is gravity at every latitude.
pub proof fn there_is_gravity_everywhere(sin_latitude: Binary64)
    requires
        sin_latitude.is_finite(),
        -Binary64::one() <= sin_latitude.value() <= Binary64::one(),
    ensures
        surface_gravity(sin_latitude).is_finite(),
        surface_gravity(sin_latitude).value() >= Binary64::one(),
{
    let o = Binary64::one();
    let zero = Binary64::of(0);
    let one = Binary64::of(1);
    let two = Binary64::of(2);
    let twenty = Binary64::of(20);
    let forty = Binary64::of(40);
    binary64::lemma_of(0);
    binary64::lemma_of(1);
    binary64::lemma_of(2);
    binary64::lemma_of(20);
    binary64::lemma_of(40);
    let square = sin_latitude * sin_latitude;
    let x = sin_latitude.value();
    assert(0 * o <= x * x <= o * o) by (nonlinear_arith)
        requires
            -o <= x <= o,
            o > 0,
    ;
    binary64::lemma_product_between(sin_latitude, sin_latitude, zero, one);
    // The numerator.
    let k = somigliana_constant();
    binary64::lemma_ratio_share(1_931_852_652_458, 1_000_000_000_000_000);
    binary64::lemma_product_below(k, square);
    let bulge = one + k * square;
    binary64::lemma_sum_between(one, k * square, one, two);
    let g = equatorial_gravity();
    binary64::lemma_ratio_positive(97_803_253_359, 10_000_000_000);
    lemma_equatorial();
    assert(o * o <= g.value() * bulge.value() <= (20 * o) * o) by (nonlinear_arith)
        requires
            o <= g.value() <= 10 * o,
            o <= bulge.value() <= 2 * o,
            o > 0,
    ;
    binary64::lemma_product_between(g, bulge, one, twenty);
    let above = g * bulge;
    // The denominator.
    let e = eccentricity_sq();
    lemma_eccentricity();
    binary64::lemma_product_below(e, square);
    let part = e * square;
    binary64::lemma_negate(part);
    let half = Binary64::ratio(1, 2);
    binary64::lemma_halves(1);
    let rest = one - part;
    assert(rest == one + part.negate());
    binary64::lemma_sum_between(one, part.negate(), half, one);
    binary64::lemma_sqrt_half(rest);
    let below = rest.sqrt();
    assert(o * below.value() <= above.value() * o) by (nonlinear_arith)
        requires
            below.value() <= o <= above.value(),
            o > 0,
    ;
    assert(above.value() * o <= (40 * o) * below.value()) by (nonlinear_arith)
        requires
            above.value() <= 20 * o,
            o <= 2 * below.value(),
            o > 0,
    ;
    binary64::lemma_quotient_between(above, below, one, forty);
}

proof fn lemma_equatorial()
    ensures
        Binary64::one() <= equatorial_gravity().value() <= 10 * Binary64::one(),
{
    binary64::lemma_ratio_bounds(97_803_253_359, 10_000_000_000, 1, 10);
}

/// The square of the eccentricity is less than one half.
proof fn lemma_eccentricity()
    ensures
        eccentricity_sq().is_finite(),
        0 <= eccentricity_sq().value(),
        2 * eccentricity_sq().value() <= Binary64::one(),
{
    let o = Binary64::one();
    let zero = Binary64::of(0);
    let one = Binary64::of(1);
    let two = Binary64::of(2);
    binary64::lemma_of(0);
    binary64::lemma_of(1);
    binary64::lemma_of(2);
    let d = Binary64::ratio(298_257_223_563, 1_000_000_000);
    binary64::lemma_ratio_positive(298_257_223_563, 1_000_000_000);
    binary64::lemma_ratio_bounds(298_257_223_563, 1_000_000_000, 4, 300);
    let quarter = Binary64::ratio(1, 4);
    binary64::lemma_quarter();
    let half = Binary64::ratio(1, 2);
    binary64::lemma_halves(1);
    assert(0 * d.value() <= o * o <= quarter.value() * d.value()) by (nonlinear_arith)
        requires
            4 * o <= d.value(),
            4 * quarter.value() == o,
            o > 0,
    ;
    let f = flattening();
    binary64::lemma_quotient_between(one, d, zero, quarter);
    binary64::lemma_negate(f);
    assert(two - f == two + f.negate());
    binary64::lemma_sum_between(two, f.negate(), one, two);
    let rest = two - f;
    let (a, b, c) = (f.value(), rest.value(), quarter.value());
    assert(0 <= a * b <= c * (2 * o)) by (nonlinear_arith)
        requires
            0 <= a <= c,
            0 <= b <= 2 * o,
    ;
    assert(c * (2 * o) == half.value() * o) by (nonlinear_arith)
        requires
            half.value() == 2 * c,
    ;
    assert(0 * o == 0);
    binary64::lemma_product_between(f, rest, zero, half);
}

/// Whatever the height, gravity does not pull up.
pub proof fn gravity_never_pulls_up(sin_latitude: Binary64, height: Binary64)
    requires
        sin_latitude.is_finite(),
        -Binary64::one() <= sin_latitude.value() <= Binary64::one(),
    ensures
        !magnitude(sin_latitude, height).is_nan(),
        magnitude(sin_latitude, height).value() >= 0,
{
    let g = surface_gravity(sin_latitude);
    there_is_gravity_everywhere(sin_latitude);
    let correction = height_correction(sin_latitude, height);
    let zero = Binary64::of(0);
    binary64::lemma_of(0);
    binary64::lemma_of(1);
    binary64::lemma_order(correction, zero);
    binary64::lemma_order(zero, correction);
    let share = correction.max(zero);
    if share.is_finite() {
        binary64::lemma_mul(g, share);
        assert(g.value() * share.value() >= 0) by (nonlinear_arith)
            requires
                g.value() >= 0,
                share.value() >= 0,
        ;
        binary64::lemma_round_monotone(0, g.value() * share.value(), Binary64::one());
        binary64::lemma_round_exact(zero, Binary64::one());
        assert(0 * Binary64::one() == 0);
    } else {
        binary64::lemma_infinite_value(share);
        binary64::lemma_mul_infinite(g, share);
    }
}

/// The square of a greater sine is no less, and a share of one.
proof fn lemma_square_grows(a: Binary64, b: Binary64)
    requires
        a.is_finite(),
        b.is_finite(),
        number::magnitude_of(a.value()) <= number::magnitude_of(b.value()),
        number::magnitude_of(b.value()) <= Binary64::one(),
    ensures
        (a * a).is_finite(),
        (b * b).is_finite(),
        0 <= (a * a).value() <= (b * b).value() <= Binary64::one(),
{
    let o = Binary64::one();
    let (zero, one) = (Binary64::of(0), Binary64::of(1));
    binary64::lemma_of(0);
    binary64::lemma_of(1);
    let (x, y) = (a.value(), b.value());
    let (m, n) = (number::magnitude_of(x) as int, number::magnitude_of(y) as int);
    assert(x * x == m * m && y * y == n * n) by (nonlinear_arith)
        requires
            m == x || m == -x,
            n == y || n == -y,
    ;
    assert(0 <= m * m <= n * n && n * n <= o * o) by (nonlinear_arith)
        requires
            0 <= m <= n <= o,
    ;
    assert(0 * o == 0);
    binary64::lemma_product_between(a, a, zero, one);
    binary64::lemma_product_between(b, b, zero, one);
    binary64::lemma_mul(a, a);
    binary64::lemma_mul(b, b);
    binary64::lemma_round_monotone(x * x, y * y, o);
}

/// What is taken away from one, of a share of a square.
proof fn lemma_rest_falls(s: Binary64, t: Binary64)
    requires
        s.is_finite(),
        t.is_finite(),
        0 <= s.value() <= t.value() <= Binary64::one(),
    ensures
        ({
            let one = Binary64::of(1);
            let e = eccentricity_sq();
            let (p, q) = (one - e * s, one - e * t);
            &&& p.is_finite()
            &&& q.is_finite()
            &&& Binary64::one() <= 2 * q.value()
            &&& q.value() <= p.value() <= Binary64::one()
        }),
{
    let (one, half) = (Binary64::of(1), Binary64::ratio(1, 2));
    let e = eccentricity_sq();
    binary64::lemma_of(1);
    binary64::lemma_halves(1);
    lemma_eccentricity();
    binary64::lemma_product_below(e, s);
    binary64::lemma_product_below(e, t);
    near::lemma_product_grows(s, t, e);
    let (u, v) = (e * s, e * t);
    binary64::lemma_negate(u);
    binary64::lemma_negate(v);
    assert(one - u == one + u.negate() && one - v == one + v.negate());
    binary64::lemma_sum_between(one, u.negate(), half, one);
    binary64::lemma_sum_between(one, v.negate(), half, one);
    near::lemma_sum_grows(v.negate(), u.negate(), one);
    sign::lemma_sum_commutes(v.negate(), one);
    sign::lemma_sum_commutes(u.negate(), one);
}

/// On the ground, gravity is no weaker where the sine of the latitude is
/// greater: it grows from the equator to the poles.
pub proof fn gravity_grows_towards_the_poles(near_equator: Binary64, near_pole: Binary64)
    requires
        near_equator.is_finite(),
        near_pole.is_finite(),
        number::magnitude_of(near_equator.value()) <= number::magnitude_of(near_pole.value()),
        number::magnitude_of(near_pole.value()) <= Binary64::one(),
    ensures
        surface_gravity(near_equator).value() <= surface_gravity(near_pole).value(),
{
    let one = Binary64::of(1);
    let (a, b) = (near_equator, near_pole);
    let (s, t) = (a * a, b * b);
    binary64::lemma_of(1);
    lemma_square_grows(a, b);
    let k = somigliana_constant();
    binary64::lemma_ratio_share(1_931_852_652_458, 1_000_000_000_000_000);
    binary64::lemma_product_below(k, s);
    binary64::lemma_product_below(k, t);
    near::lemma_product_grows(s, t, k);
    near::lemma_sum_grows(k * s, k * t, one);
    sign::lemma_sum_commutes(k * s, one);
    sign::lemma_sum_commutes(k * t, one);
    let (p, q) = (one + k * s, one + k * t);
    binary64::lemma_of(2);
    binary64::lemma_sum_between(one, k * s, one, Binary64::of(2));
    binary64::lemma_sum_between(one, k * t, one, Binary64::of(2));
    let g = equatorial_gravity();
    lemma_equatorial();
    binary64::lemma_ratio_positive(97_803_253_359, 10_000_000_000);
    near::lemma_product_grows(p, q, g);
    lemma_rest_falls(s, t);
    let e = eccentricity_sq();
    let (c, d) = (one - e * s, one - e * t);
    binary64::lemma_sqrt_half(c);
    binary64::lemma_sqrt_half(d);
    binary64::lemma_sqrt_monotone(d, c);
    let o = Binary64::one() as int;
    binary64::lemma_of(20);
    assert(o * o <= g.value() * p.value() <= (20 * o) * o && o * o <= g.value() * q.value() <= (20
        * o) * o) by (nonlinear_arith)
        requires
            o <= g.value() <= 10 * o,
            o <= p.value() <= 2 * o,
            o <= q.value() <= 2 * o,
            o > 0,
    ;
    binary64::lemma_product_between(g, p, one, Binary64::of(20));
    binary64::lemma_product_between(g, q, one, Binary64::of(20));
    near::lemma_quotient_falls(g * p, d.sqrt(), c.sqrt());
    near::lemma_quotient_grows(g * p, g * q, d.sqrt());
}

/// What gravity loses with each metre, and what it loses less with its square.
spec fn first_loss(sin_latitude: Binary64) -> Binary64 {
    let square = sin_latitude * sin_latitude;
    let one = Binary64::of(1);
    let two = Binary64::of(2);
    two / semi_major_axis() * (one + flattening() + gravity_ratio_m() - two * flattening() * square)
}

spec fn second_loss() -> Binary64 {
    Binary64::of(3) / (semi_major_axis() * semi_major_axis())
}

/// The square loses less than one in two to the forty-three.
proof fn lemma_second_loss()
    ensures
        second_loss().is_finite(),
        0 <= second_loss().value() * 0x80000000000 <= Binary64::one(),
{
    let a = semi_major_axis();
    binary64::lemma_of(3);
    binary64::lemma_of(0);
    binary64::lemma_of(6_378_137);
    exact::lemma_step(0);
    exact::lemma_step(43);
    lemma2_to64_rest();
    let o = Binary64::one() as int;
    exact::lemma_product(a, 6_378_137, 0, a, 6_378_137, 0);
    let square = a * a;
    let high = exact::lemma_number(1, 43);
    let s = exact::step(43) as int;
    assert(square.value() == 40_680_631_590_769 * o);
    assert((3 * o) * o <= s * (40_680_631_590_769 * o)) by (nonlinear_arith)
        requires
            s * 0x80000000000 == o,
            s > 0,
            o > 0,
    ;
    assert(0 * square.value() == 0);
    assert(0 <= (3 * o) * o) by (nonlinear_arith)
        requires
            o > 0,
    ;
    binary64::lemma_quotient_between(Binary64::of(3), square, Binary64::of(0), high);
}

/// The flattening, to a grain.
proof fn lemma_flattening()
    ensures
        near::sized(flattening(), 1),
        3_352_000 * Binary64::one() <= 1_000_000_000 * flattening().value(),
        1_000_000_000 * flattening().value() <= 3_353_000 * Binary64::one(),
{
    let o = Binary64::one() as int;
    let g = near::grain() as int;
    let d = Binary64::ratio(298_257_223_563, 1_000_000_000);
    near::lemma_grain();
    near::lemma_small_of(1, 1);
    near::lemma_ratio(298_257_223_563, 1_000_000_000);
    let v = d.value();
    assert(298_257 * o <= 1000 * v && 1000 * v <= 298_258 * o) by {
        assert(v * 1_000_000_000 - 298_257_223_563 * o <= 1_000_000_000 * g);
        assert(298_257_223_563 * o - v * 1_000_000_000 <= 1_000_000_000 * g);
    }
    near::lemma_small_quotient(Binary64::of(1), d, 1);
    near::lemma_small_quotient_near(Binary64::of(1), d, 1);
    let f = flattening().value();
    assert(3_352_000 * o <= 1_000_000_000 * f && 1_000_000_000 * f <= 3_353_000 * o)
        by (nonlinear_arith)
        requires
            f * v - o * o <= g * v,
            o * o - f * v <= g * v,
            298_257 * o <= 1000 * v,
            1000 * v <= 298_258 * o,
            o == 0x100000000 * g,
            g > 0,
            f >= 0,
    ;
}

/// Each metre loses between five parts in two to the twenty-four and one in two
/// to the twenty-one.
proof fn lemma_first_loss(sin_latitude: Binary64)
    requires
        sin_latitude.is_finite(),
        number::magnitude_of(sin_latitude.value()) <= Binary64::one(),
    ensures
        first_loss(sin_latitude).is_finite(),
        5 * Binary64::one() <= first_loss(sin_latitude).value() * 0x1000000,
        first_loss(sin_latitude).value() * 0x200000 <= Binary64::one(),
{
    let o = Binary64::one() as int;
    let g = near::grain() as int;
    let square = sin_latitude * sin_latitude;
    let (one, two) = (Binary64::of(1), Binary64::of(2));
    let (f, m) = (flattening(), gravity_ratio_m());
    near::lemma_grain();
    lemma_square_grows(sin_latitude, sin_latitude);
    assert(near::sized(square, 1)) by {
        assert(1 * o == o);
    }
    lemma_flattening();
    near::lemma_ratio(344_978_650_684, 100_000_000_000_000);
    near::lemma_small_ratio(344_978_650_684, 100_000_000_000_000, 1);
    near::lemma_small_of(1, 1);
    near::lemma_small_of(2, 2);
    near::lemma_small_sum(one, f, 1, 1);
    near::lemma_small_sum(one + f, m, 3, 1);
    near::lemma_small_product(two, f, 2, 1);
    near::lemma_small_product(two * f, square, 3, 1);
    let bulge = two * f * square;
    near::lemma_small_difference(one + f + m, bulge, 5, 4);
    let inner = one + f + m - bulge;
    let (fv, mv, tv, bv, iv) = (
        f.value(),
        m.value(),
        (two * f).value(),
        bulge.value(),
        inner.value(),
    );
    assert(tv - 2 * fv <= g && 2 * fv - tv <= g) by (nonlinear_arith)
        requires
            tv * o - (2 * o) * fv <= g * o,
            (2 * o) * fv - tv * o <= g * o,
            o > 0,
    ;
    let sv = square.value();
    assert(0 <= bv && bv <= tv + g) by (nonlinear_arith)
        requires
            0 <= bv,
            bv * o - tv * sv <= g * o,
            0 <= sv <= o,
            0 <= tv,
            o > 0,
    ;
    assert(3_449_000 * o <= 1_000_000_000 * mv && 1_000_000_000 * mv <= 3_450_000 * o) by {
        assert(mv * 100_000_000_000_000 - 344_978_650_684 * o <= 100_000_000_000_000 * g);
        assert(344_978_650_684 * o - mv * 100_000_000_000_000 <= 100_000_000_000_000 * g);
    }
    assert(o <= iv <= 2 * o);
    // The share per metre.
    let a = semi_major_axis();
    binary64::lemma_of(6_378_137);
    let low = exact::lemma_number(5, 24);
    let high = exact::lemma_number(6, 24);
    let top = exact::lemma_number(1, 21);
    exact::lemma_step(24);
    exact::lemma_step(21);
    lemma2_to64();
    let s = exact::step(24) as int;
    assert(5 * s * (6_378_137 * o) <= (2 * o) * o <= 6 * s * (6_378_137 * o)) by (nonlinear_arith)
        requires
            s * 0x1000000 == o,
            s > 0,
            o > 0,
    ;
    binary64::lemma_quotient_between(two, a, low, high);
    let k = two / a;
    let kv = k.value();
    assert(exact::step(21) == 8 * s);
    assert(5 * s * o <= kv * iv <= (8 * s) * o) by (nonlinear_arith)
        requires
            5 * s <= kv <= 6 * s,
            o <= iv,
            3 * iv <= 4 * o,
            s > 0,
            o > 0,
    ;
    binary64::lemma_product_between(k, inner, low, top);
}

/// The share of gravity left at a height, but for rounding.
proof fn lemma_correction(sin_latitude: Binary64, height: Binary64)
    requires
        sin_latitude.is_finite(),
        number::magnitude_of(sin_latitude.value()) <= Binary64::one(),
        near::sized(height, 0x100000),
    ensures
        ({
            let o = Binary64::one() as int;
            let (a, b, h) = (
                first_loss(sin_latitude).value(),
                second_loss().value(),
                height.value(),
            );
            let c = height_correction(sin_latitude, height);
            &&& c.is_finite()
            &&& near::within(
                c.value() * (o * o),
                o * (o * o) - (a * h) * o + (b * h) * h,
                pow2(1026) * (Binary64::one() * Binary64::one()),
            )
            &&& 0 <= c.value() <= 2 * o
        }),
{
    let o = Binary64::one() as int;
    let (a, b) = (first_loss(sin_latitude), second_loss());
    let h = height.value();
    let (av, bv) = (a.value(), b.value());
    let m = number::magnitude_of(h) as int;
    lemma_first_loss(sin_latitude);
    lemma_second_loss();
    near::lemma_grain();
    binary64::lemma_of(1);
    let p20 = 0x100000 * o;
    assert(m <= p20);
    lemma_scales();
    assert(2 * (pow2(1073) * o) == o * o && 0x800000 * (pow2(1051) * o) == o * o && 4 * (pow2(1072)
        * o) == o * o) by (nonlinear_arith)
        requires
            pow2(1073) * 2 == o,
            pow2(1051) * 0x800000 == o,
            pow2(1072) * 4 == o,
    ;
    // What is lost.
    lemma_bound(o, av, h, 0x200000);
    near::lemma_product(a, height, 1073);
    let lost = a * height;
    let l = lost.value();
    // What is lost less.
    lemma_bound(o, bv, h, 0x80000000000);
    near::lemma_product(b, height, 1051);
    let less = b * height;
    let q = less.value();
    let size = number::magnitude_of(q) as int;
    lemma_bound(o, size, h, 0x400000);
    assert(number::magnitude_of(q * h) == number::magnitude_of(size * h)) by (nonlinear_arith)
        requires
            size == q || size == -q,
    ;
    near::lemma_product(less, height, 1072);
    let back = less * height;
    let r = back.value();
    let one = Binary64::of(1);
    near::lemma_difference(one, lost, 1075);
    let left = one - lost;
    near::lemma_sum(left, back, 1076);
    let c = (left + back).value();
    assert(height_correction(sin_latitude, height) == left + back);
    lemma_correction_count(o, av, bv, h, l, q, r, left.value(), c);
}

/// A share of a height of at most two to the twenty metres.
proof fn lemma_bound(o: int, a: int, h: int, n: int)
    requires
        o > 0,
        n > 0,
        0 <= a,
        a * n <= o,
        -(0x100000 * o) <= h <= 0x100000 * o,
    ensures
        n * number::magnitude_of(a * h) <= 0x100000 * (o * o),
{
    let m = number::magnitude_of(h) as int;
    assert(a * h == a * m || a * h == -(a * m)) by (nonlinear_arith)
        requires
            m == h || m == -h,
    ;
    assert(0 <= a * m) by (nonlinear_arith)
        requires
            0 <= a,
            0 <= m,
    ;
    assert(n * (a * m) <= 0x100000 * (o * o)) by (nonlinear_arith)
        requires
            a * n <= o,
            0 <= m <= 0x100000 * o,
            o > 0,
    ;
}

/// Powers of two that the errors are counted in.
proof fn lemma_scales()
    ensures
        Binary64::one() == 0x1000000000000 * pow2(1026),
        pow2(1073) * 2 == Binary64::one(),
        pow2(1072) * 4 == Binary64::one(),
        pow2(1051) * 0x800000 == Binary64::one(),
        pow2(1052) * 0x400000 == Binary64::one(),
        pow2(1075) == 2 * Binary64::one(),
        pow2(1076) == 4 * Binary64::one(),
        pow2(1021) * 0x20 == pow2(1026),
        pow2(1020) * 0x40 == pow2(1026),
        pow2(1023) * 8 == pow2(1026),
        pow2(1024) * 4 == pow2(1026),
        pow2(999) * 0x8000000 == pow2(1026),
        pow2(999) > 0,
{
    lemma2_to64();
    lemma2_to64_rest();
    lemma_pow2_adds(1026, 48);
    lemma_pow2_adds(1073, 1);
    lemma_pow2_adds(1072, 2);
    lemma_pow2_adds(1051, 23);
    lemma_pow2_adds(1052, 22);
    lemma_pow2_adds(1074, 1);
    lemma_pow2_adds(1074, 2);
    lemma_pow2_adds(1021, 5);
    lemma_pow2_adds(1020, 6);
    lemma_pow2_adds(1023, 3);
    lemma_pow2_adds(1024, 2);
    lemma_pow2_adds(999, 27);
    lemma_pow2_pos(999);
}

/// The errors add up.
proof fn lemma_correction_count(
    o: int,
    a: int,
    b: int,
    h: int,
    l: int,
    q: int,
    r: int,
    left: int,
    c: int,
)
    requires
        o == 0x1000000000000 * pow2(1026),
        o == Binary64::one(),
        pow2(1021) * 0x20 == pow2(1026),
        pow2(1020) * 0x40 == pow2(1026),
        pow2(1023) * 8 == pow2(1026),
        pow2(1024) * 4 == pow2(1026),
        pow2(999) * 0x8000000 == pow2(1026),
        pow2(999) > 0,
        -(0x100000 * o) <= h <= 0x100000 * o,
        near::within(l * o, a * h, pow2(1021) * Binary64::one()),
        near::within(q * o, b * h, pow2(999) * Binary64::one()),
        near::within(r * o, q * h, pow2(1020) * Binary64::one()),
        near::within(left, o - l, pow2(1023)),
        near::within(c, left + r, pow2(1024)),
        2 * number::magnitude_of(a * h) <= o * o,
        4 * number::magnitude_of(q * h) <= o * o,
    ensures
        near::within(
            c * (o * o),
            o * (o * o) - (a * h) * o + (b * h) * h,
            pow2(1026) * (Binary64::one() * Binary64::one()),
        ),
        0 <= c <= 2 * o,
{
    let e = pow2(1026) as int;
    let t = e * o;
    // In thirty-seconds of `e`.
    assert(-(o * e) <= 32 * (l * o - a * h) <= o * e) by (nonlinear_arith)
        requires
            -(pow2(1021) * o) <= l * o - a * h <= pow2(1021) * o,
            pow2(1021) * 0x20 == e,
    ;
    assert(-(o * e) <= 64 * (r * o - q * h) <= o * e) by (nonlinear_arith)
        requires
            -(pow2(1020) * o) <= r * o - q * h <= pow2(1020) * o,
            pow2(1020) * 0x40 == e,
    ;
    assert(-(o * e) <= 0x8000000 * (q * o - b * h) <= o * e) by (nonlinear_arith)
        requires
            -(pow2(999) * o) <= q * o - b * h <= pow2(999) * o,
            pow2(999) * 0x8000000 == e,
    ;
    let d = q * o - b * h;
    let u = o * o;
    assert(d * h == (q * h) * o - (b * h) * h) by (nonlinear_arith)
        requires
            d == q * o - b * h,
    ;
    let v = e * u;
    assert(-v <= 0x80 * (d * h) <= v) by (nonlinear_arith)
        requires
            -(o * e) <= 0x8000000 * d <= o * e,
            -(0x100000 * o) <= h <= 0x100000 * o,
            v == e * u,
            u == o * o,
            e > 0,
            o > 0,
    ;
    let x = (l * o - a * h) * o;
    assert(x == l * u - (a * h) * o) by (nonlinear_arith)
        requires
            x == (l * o - a * h) * o,
            u == o * o,
    ;
    assert(-v <= 32 * x <= v) by (nonlinear_arith)
        requires
            -(o * e) <= 32 * (l * o - a * h) <= o * e,
            x == (l * o - a * h) * o,
            v == e * u,
            u == o * o,
            o > 0,
    ;
    let y = (r * o - q * h) * o;
    assert(y == r * u - (q * h) * o) by (nonlinear_arith)
        requires
            y == (r * o - q * h) * o,
            u == o * o,
    ;
    assert(-v <= 64 * y <= v) by (nonlinear_arith)
        requires
            -(o * e) <= 64 * (r * o - q * h) <= o * e,
            y == (r * o - q * h) * o,
            v == e * u,
            u == o * o,
            o > 0,
    ;
    let z = c - (o - l + r);
    assert(-(3 * e) <= 8 * z <= 3 * e);
    assert(u > 0) by (nonlinear_arith)
        requires
            u == o * o,
            o > 0,
    ;
    assert(-(3 * v) <= 8 * (z * u) <= 3 * v) by (nonlinear_arith)
        requires
            -(3 * e) <= 8 * z <= 3 * e,
            v == e * u,
            u > 0,
    ;
    assert(c * u == o * u - l * u + r * u + z * u) by (nonlinear_arith)
        requires
            z == c - (o - l + r),
    ;
    assert(o * u == o * (o * o));
    assert(0 <= c <= 2 * o) by (nonlinear_arith)
        requires
            -(3 * e) <= 8 * z <= 3 * e,
            z == c - (o - l + r),
            -(o * e) <= 32 * (l * o - a * h) <= o * e,
            -(o * e) <= 64 * (r * o - q * h) <= o * e,
            -(o * o) <= 2 * (a * h) <= o * o,
            -(o * o) <= 4 * (q * h) <= o * o,
            o == 0x1000000000000 * e,
            e > 0,
    ;
}

/// Gravity is weaker higher up, by a millimetre or more, over all heights to a
/// thousand kilometres. Far above that the formula turns round.
pub proof fn gravity_is_weaker_higher_up(sin_latitude: Binary64, low: Binary64, high: Binary64)
    requires
        sin_latitude.is_finite(),
        number::magnitude_of(sin_latitude.value()) <= Binary64::one(),
        near::sized(low, 0x100000),
        near::sized(high, 0x100000),
        0x400 * (high.value() - low.value()) >= Binary64::one(),
    ensures
        magnitude(sin_latitude, high).value() < magnitude(sin_latitude, low).value(),
{
    let o = Binary64::one() as int;
    let g = surface_gravity(sin_latitude);
    there_is_gravity_everywhere(sin_latitude);
    lemma_surface_bound(sin_latitude);
    lemma_first_loss(sin_latitude);
    lemma_second_loss();
    lemma_correction(sin_latitude, low);
    lemma_correction(sin_latitude, high);
    lemma_scales();
    let (p, q) = (
        height_correction(sin_latitude, high),
        height_correction(sin_latitude, low),
    );
    lemma_fall(
        o,
        pow2(1026) as int,
        first_loss(sin_latitude).value(),
        second_loss().value(),
        low.value(),
        high.value(),
        q.value(),
        p.value(),
    );
    let zero = Binary64::of(0);
    binary64::lemma_of(0);
    binary64::lemma_order(p, zero);
    binary64::lemma_order(zero, p);
    binary64::lemma_order(q, zero);
    binary64::lemma_order(zero, q);
    assert(p.max(zero).value() == p.value() && q.max(zero).value() == q.value());
    let (s, t) = (p.max(zero), q.max(zero));
    lemma2_to64();
    lemma_pow2_adds(1074, 7);
    lemma_pow2_adds(1029, 45);
    lemma_pow2_adds(1026, 3);
    lemma2_to64_rest();
    let v = g.value();
    assert(0 <= v * s.value() <= 128 * (o * o) && 0 <= v * t.value() <= 128 * (o * o))
        by (nonlinear_arith)
        requires
            0 <= v <= 40 * o,
            0 <= s.value() <= 2 * o,
            0 <= t.value() <= 2 * o,
            o > 0,
    ;
    assert(pow2(1081) * Binary64::one() == 128 * (o * o)) by (nonlinear_arith)
        requires
            pow2(1081) == 128 * o,
            o == Binary64::one(),
    ;
    near::lemma_product(g, s, 1081);
    near::lemma_product(g, t, 1081);
    let e = pow2(1029) as int;
    let (x, y) = ((g * s).value(), (g * t).value());
    assert(x < y) by (nonlinear_arith)
        requires
            x * o - v * s.value() <= e * o,
            v * t.value() - y * o <= e * o,
            v >= o,
            t.value() - s.value() >= 4 * e,
            o > 0,
            e > 0,
    ;
}

/// Gravity on the ground is below forty.
proof fn lemma_surface_bound(sin_latitude: Binary64)
    requires
        sin_latitude.is_finite(),
        number::magnitude_of(sin_latitude.value()) <= Binary64::one(),
    ensures
        surface_gravity(sin_latitude).value() <= 40 * Binary64::one(),
{
    let o = Binary64::one() as int;
    let one = Binary64::of(1);
    let square = sin_latitude * sin_latitude;
    binary64::lemma_of(1);
    binary64::lemma_of(2);
    binary64::lemma_of(20);
    binary64::lemma_of(40);
    lemma_square_grows(sin_latitude, sin_latitude);
    let k = somigliana_constant();
    binary64::lemma_ratio_share(1_931_852_652_458, 1_000_000_000_000_000);
    binary64::lemma_product_below(k, square);
    binary64::lemma_sum_between(one, k * square, one, Binary64::of(2));
    let bulge = one + k * square;
    let g = equatorial_gravity();
    lemma_equatorial();
    binary64::lemma_ratio_positive(97_803_253_359, 10_000_000_000);
    assert(o * o <= g.value() * bulge.value() <= (20 * o) * o) by (nonlinear_arith)
        requires
            o <= g.value() <= 10 * o,
            o <= bulge.value() <= 2 * o,
            o > 0,
    ;
    binary64::lemma_product_between(g, bulge, one, Binary64::of(20));
    lemma_rest_falls(square, square);
    let rest = one - eccentricity_sq() * square;
    binary64::lemma_sqrt_half(rest);
    let below = rest.sqrt();
    let above = g * bulge;
    assert(o * below.value() <= above.value() * o && above.value() * o <= (40 * o) * below.value())
        by (nonlinear_arith)
        requires
            o <= above.value() <= 20 * o,
            below.value() <= o <= 2 * below.value(),
            o > 0,
    ;
    binary64::lemma_quotient_between(above, below, one, Binary64::of(40));
}

/// The share left falls by more than rounding.
proof fn lemma_fall(o: int, e: int, a: int, b: int, h: int, k: int, q: int, p: int)
    requires
        o == 0x1000000000000 * e,
        e > 0,
        5 * o <= a * 0x1000000,
        0 <= b,
        b * 0x80000000000 <= o,
        -(0x100000 * o) <= h <= 0x100000 * o,
        -(0x100000 * o) <= k <= 0x100000 * o,
        0x400 * (k - h) >= o,
        near::within(
            q * (o * o),
            o * (o * o) - (a * h) * o + (b * h) * h,
            (e * (o * o)) as nat,
        ),
        near::within(
            p * (o * o),
            o * (o * o) - (a * k) * o + (b * k) * k,
            (e * (o * o)) as nat,
        ),
    ensures
        q - p >= 32 * e,
{
    let d = k - h;
    let s = h + k;
    let u = o * o;
    assert(u > 0 && e * u >= 0) by (nonlinear_arith)
        requires
            u == o * o,
            o > 0,
            e > 0,
    ;
    let x = (a * o - b * s) * d;
    assert((a * k) * o - (a * h) * o == (a * o) * d) by (nonlinear_arith)
        requires
            d == k - h,
    ;
    assert((b * k) * k - (b * h) * h == (b * s) * d) by (nonlinear_arith)
        requires
            d == k - h,
            s == h + k,
    ;
    assert(x == (a * o) * d - (b * s) * d) by (nonlinear_arith)
        requires
            x == (a * o - b * s) * d,
    ;
    assert(b * s * 0x400000 <= u) by (nonlinear_arith)
        requires
            0 <= b,
            b * 0x80000000000 <= o,
            s <= 0x200000 * o,
            u == o * o,
            o > 0,
    ;
    assert(5 * u <= (a * o) * 0x1000000) by (nonlinear_arith)
        requires
            5 * o <= a * 0x1000000,
            u == o * o,
            o > 0,
    ;
    let slope = a * o - b * s;
    assert(u <= slope * 0x1000000);
    assert(u * o <= (x * 0x1000000) * 0x400) by (nonlinear_arith)
        requires
            u <= slope * 0x1000000,
            o <= 0x400 * d,
            x == slope * d,
            u > 0,
            o > 0,
    ;
    assert(u * o == 0x1000000000000 * (e * u)) by (nonlinear_arith)
        requires
            o == 0x1000000000000 * e,
    ;
    assert((q - p) * u == q * u - p * u) by (nonlinear_arith);
    assert((q - p) * u >= 32 * (e * u));
    assert(q - p >= 32 * e) by (nonlinear_arith)
        requires
            (q - p) * u >= 32 * (e * u),
            u > 0,
    ;
}

/// Less is lost with height near the poles.
proof fn lemma_loss_falls(a: Binary64, b: Binary64)
    requires
        a.is_finite(),
        b.is_finite(),
        number::magnitude_of(a.value()) <= number::magnitude_of(b.value()),
        number::magnitude_of(b.value()) <= Binary64::one(),
    ensures
        first_loss(b).value() <= first_loss(a).value(),
{
    let (one, two) = (Binary64::of(1), Binary64::of(2));
    let (f, m) = (flattening(), gravity_ratio_m());
    let (s, t) = (a * a, b * b);
    near::lemma_grain();
    lemma_square_grows(a, b);
    lemma_flattening();
    near::lemma_small_ratio(344_978_650_684, 100_000_000_000_000, 1);
    near::lemma_small_of(1, 1);
    near::lemma_small_of(2, 2);
    near::lemma_small_sum(one, f, 1, 1);
    near::lemma_small_sum(one + f, m, 3, 1);
    near::lemma_small_product(two, f, 2, 1);
    assert(near::sized(s, 1) && near::sized(t, 1)) by {
        assert(1 * Binary64::one() == Binary64::one());
    }
    near::lemma_small_product(two * f, s, 3, 1);
    near::lemma_small_product(two * f, t, 3, 1);
    near::lemma_product_grows(s, t, two * f);
    let whole = one + f + m;
    let (u, v) = (two * f * s, two * f * t);
    near::lemma_small_difference(whole, u, 5, 4);
    near::lemma_small_difference(whole, v, 5, 4);
    binary64::lemma_negate(u);
    binary64::lemma_negate(v);
    near::lemma_sum_grows(v.negate(), u.negate(), whole);
    sign::lemma_sum_commutes(v.negate(), whole);
    sign::lemma_sum_commutes(u.negate(), whole);
    assert(whole - u == whole + u.negate() && whole - v == whole + v.negate());
    binary64::lemma_of(6_378_137);
    let o = Binary64::one() as int;
    assert(6_378_137 * o >= o) by (nonlinear_arith)
        requires
            o > 0,
    ;
    near::lemma_small_quotient(two, semi_major_axis(), 2);
    near::lemma_small_quotient_near(two, semi_major_axis(), 2);
    near::lemma_product_grows(whole - v, whole - u, two / semi_major_axis());
}

/// At any height up to a thousand kilometres, too, gravity grows towards the
/// poles, or stays as it is.
pub proof fn gravity_grows_towards_the_poles_at_height(
    near_equator: Binary64,
    near_pole: Binary64,
    height: Binary64,
)
    requires
        near_equator.is_finite(),
        near_pole.is_finite(),
        number::magnitude_of(near_equator.value()) <= number::magnitude_of(near_pole.value()),
        number::magnitude_of(near_pole.value()) <= Binary64::one(),
        near::sized(height, 0x100000),
        height.value() >= 0,
    ensures
        magnitude(near_equator, height).value() <= magnitude(near_pole, height).value(),
{
    let (a, b) = (near_equator, near_pole);
    let (one, zero) = (Binary64::of(1), Binary64::of(0));
    let o = Binary64::one() as int;
    binary64::lemma_of(0);
    binary64::lemma_of(1);
    near::lemma_grain();
    there_is_gravity_everywhere(a);
    there_is_gravity_everywhere(b);
    gravity_grows_towards_the_poles(a, b);
    lemma_loss_falls(a, b);
    lemma_first_loss(a);
    lemma_first_loss(b);
    lemma_second_loss();
    lemma_correction(a, height);
    lemma_correction(b, height);
    let (x, y) = (first_loss(a), first_loss(b));
    near::lemma_product_grows(y, x, height);
    let (u, v) = (x * height, y * height);
    lemma_loss_size(x, height);
    lemma_loss_size(y, height);
    binary64::lemma_negate(u);
    binary64::lemma_negate(v);
    near::lemma_sum_grows(u.negate(), v.negate(), one);
    sign::lemma_sum_commutes(u.negate(), one);
    sign::lemma_sum_commutes(v.negate(), one);
    assert(one - u == one + u.negate() && one - v == one + v.negate());
    near::lemma_small_difference(one, u, 1, 2);
    near::lemma_small_difference(one, v, 1, 2);
    let back = second_loss() * height * height;
    lemma_back_finite(height);
    near::lemma_sum_grows(one - u, one - v, back);
    let (p, q) = (height_correction(a, height), height_correction(b, height));
    assert(p == one - u + back && q == one - v + back);
    binary64::lemma_order(p, zero);
    binary64::lemma_order(zero, p);
    binary64::lemma_order(q, zero);
    binary64::lemma_order(zero, q);
    let (s, t) = (p.max(zero), q.max(zero));
    let (g, h) = (surface_gravity(a), surface_gravity(b));
    near::lemma_product_grows(s, t, g);
    near::lemma_product_grows(g, h, t);
}

/// What is lost at a height is less than all.
proof fn lemma_loss_size(x: Binary64, height: Binary64)
    requires
        x.is_finite(),
        0 <= x.value(),
        x.value() * 0x200000 <= Binary64::one(),
        near::sized(height, 0x100000),
    ensures
        near::sized(x * height, 2),
{
    let o = Binary64::one() as int;
    near::lemma_grain();
    lemma_bound(o, x.value(), height.value(), 0x200000);
    lemma_scales();
    assert(2 * (pow2(1073) * o) == o * o) by (nonlinear_arith)
        requires
            pow2(1073) * 2 == o,
    ;
    near::lemma_product(x, height, 1073);
    lemma_pow2_adds(1073, 1);
    lemma2_to64();
}

/// What is lost less at a height is finite.
proof fn lemma_back_finite(height: Binary64)
    requires
        near::sized(height, 0x100000),
    ensures
        (second_loss() * height * height).is_finite(),
{
    let o = Binary64::one() as int;
    let b = second_loss();
    near::lemma_grain();
    lemma_second_loss();
    lemma_scales();
    lemma_bound(o, b.value(), height.value(), 0x80000000000);
    assert(0x800000 * (pow2(1051) * o) == o * o && 4 * (pow2(1072) * o) == o * o)
        by (nonlinear_arith)
        requires
            pow2(1051) * 0x800000 == o,
            pow2(1072) * 4 == o,
    ;
    near::lemma_product(b, height, 1051);
    let q = (b * height).value();
    let size = number::magnitude_of(q) as int;
    lemma_bound(o, size, height.value(), 0x400000);
    let h = height.value();
    assert(number::magnitude_of(q * h) == number::magnitude_of(size * h)) by (nonlinear_arith)
        requires
            size == q || size == -q,
    ;
    near::lemma_product(b * height, height, 1072);
}

} // verus!
