//! Angles.
use crate::binary64;
use crate::binary64::Binary64;
use crate::number;
use crate::rounding;
use crate::rounding::Format;
use vstd::arithmetic::power2::*;
use vstd::prelude::*;

verus! {

/// The bit pattern of the double nearest to half a turn in radians.
pub const PI_BITS: u64 = 0x400921fb54442d18;

/// The bit pattern of the double nearest to a quarter turn in radians.
pub const HALF_PI_BITS: u64 = 0x3ff921fb54442d18;

/// Sine and cosine of an angle.
#[derive(Clone, Copy, PartialEq, Eq, Debug, Structural)]
pub struct SinCos {
    pub sin: Binary64,
    pub cos: Binary64,
}

/// Half a turn.
pub open spec fn spec_pi() -> Binary64 {
    Binary64 { bits: PI_BITS }
}

/// Half a turn.
#[verifier::when_used_as_spec(spec_pi)]
pub fn pi() -> (r: Binary64)
    ensures
        r == pi(),
{
    Binary64 { bits: PI_BITS }
}

/// A quarter turn.
pub open spec fn spec_half_pi() -> Binary64 {
    Binary64 { bits: HALF_PI_BITS }
}

/// A quarter turn.
#[verifier::when_used_as_spec(spec_half_pi)]
pub fn half_pi() -> (r: Binary64)
    ensures
        r == half_pi(),
{
    Binary64 { bits: HALF_PI_BITS }
}

/// Degrees in radians.
pub open spec fn spec_to_radians(degrees: Binary64) -> Binary64 {
    degrees * (pi() / Binary64::of(180))
}

/// Degrees in radians.
#[verifier::when_used_as_spec(spec_to_radians)]
pub fn to_radians(degrees: Binary64) -> (r: Binary64)
    ensures
        r == to_radians(degrees),
{
    degrees * (pi() / Binary64::of(180))
}

/// Radians in degrees.
pub open spec fn spec_to_degrees(radians: Binary64) -> Binary64 {
    radians * (Binary64::of(180) / pi())
}

/// Radians in degrees.
#[verifier::when_used_as_spec(spec_to_degrees)]
pub fn to_degrees(radians: Binary64) -> (r: Binary64)
    ensures
        r == to_degrees(radians),
{
    radians * (Binary64::of(180) / pi())
}

/// The same angle, zero or more and at most a full turn.
pub open spec fn spec_wrap_positive(radians: Binary64) -> Binary64 {
    radians.rem_euclid(Binary64::of(2) * pi())
}

/// The same angle, zero or more and at most a full turn.
#[verifier::when_used_as_spec(spec_wrap_positive)]
pub fn wrap_positive(radians: Binary64) -> (r: Binary64)
    ensures
        r == wrap_positive(radians),
{
    radians.rem_euclid(Binary64::of(2) * pi())
}

/// Half a turn lies between two and four.
pub proof fn lemma_pi()
    ensures
        pi().is_finite(),
        2 * Binary64::one() <= pi().value() <= 4 * Binary64::one(),
        Binary64::one() > 0,
{
    reveal(Binary64::spec_is_finite);
    let f = Format::Double;
    number::lemma_constants(f);
    binary64::lemma_of(1);
    lemma2_to64();
    lemma_pow2_unfold(1075);
    lemma_pow2_unfold(1076);
    lemma_pow2_adds(52, 1023);
    lemma_pow2_adds(52, 1024);
    rounding::lemma_decode_packs(f, 1023, 0x10000000000000);
    rounding::lemma_decode_packs(f, 1024, 0x10000000000000);
    rounding::lemma_decode_monotone(f, 1024 * 0x10000000000000, PI_BITS as nat);
    rounding::lemma_decode_monotone(f, PI_BITS as nat, 1025 * 0x10000000000000);
}

/// Twice half a turn is a finite number above zero.
proof fn lemma_full_turn()
    ensures
        (Binary64::of(2) * pi()).is_finite(),
        (Binary64::of(2) * pi()).value() > 0,
{
    let two = Binary64::of(2);
    let ten = Binary64::of(10);
    binary64::lemma_of(2);
    binary64::lemma_of(10);
    lemma_pi();
    let one = Binary64::one() as int;
    let p = pi().value();
    assert(p * one <= (2 * one) * p <= (10 * one) * one) by (nonlinear_arith)
        requires
            0 < p <= 5 * one,
            one > 0,
    ;
    binary64::lemma_product_between(two, pi(), pi(), ten);
}

/// A finite angle wrapped is not below zero and not above a full turn.
pub proof fn a_wrapped_angle_is_within_a_turn(radians: Binary64)
    requires
        radians.is_finite(),
    ensures
        wrap_positive(radians).is_finite(),
        Binary64::of(0) <= wrap_positive(radians),
        wrap_positive(radians) <= Binary64::of(2) * pi(),
{
    let f = Format::Double;
    let zero = Binary64::of(0);
    let turn = Binary64::of(2) * pi();
    binary64::lemma_of(0);
    lemma_full_turn();
    binary64::lemma_abs(turn);
    let left = radians.remainder(turn);
    assert(!left.is_nan() && -turn.value() <= left.value() <= turn.value()) by {
        reveal(Binary64::spec_remainder);
        reveal(Binary64::spec_is_nan);
        reveal(Binary64::spec_is_finite);
        number::lemma_constants(f);
        rounding::lemma_decode_packs(f, 0, 0);
        let d = turn.number().magnitude(f);
        let m = radians.number().magnitude(f) % d;
        number::lemma_rounded(f, radians.number().negative, m, 1);
        binary64::lemma_round_exact(turn, 1);
        binary64::lemma_round_monotone(m as int, d as int, 1);
    }
    binary64::lemma_finite_below(left, turn);
    binary64::lemma_order(left, zero);
    binary64::lemma_order(zero, left);
    binary64::lemma_order(left, turn);
    if left.value() < 0 {
        binary64::lemma_sum_between(left, turn.abs(), zero, turn);
        binary64::lemma_order(zero, left + turn.abs());
        binary64::lemma_order(left + turn.abs(), turn);
    }
}

} // verus!
