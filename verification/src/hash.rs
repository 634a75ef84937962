//! Numbers that look random and are not: the same whole numbers always give the
//! same height, on every machine.
use crate::binary64;
use crate::binary64::Binary64;
use vstd::prelude::*;

verus! {

pub open spec fn spec_mixed(hash: u64, component: u64) -> u64 {
    let a = hash.wrapping_add(component).wrapping_mul(0xBF58_476D_1CE4_E5B9);
    let b = (a ^ (a >> 31)).wrapping_mul(0x94D0_49BB_1331_11EB);
    b ^ (b >> 29)
}

/// A hash with one more component stirred in.
#[verifier::when_used_as_spec(spec_mixed)]
pub fn mixed(hash: u64, component: u64) -> (r: u64)
    ensures
        r == mixed(hash, component),
{
    let a: u64 = hash.wrapping_add(component).wrapping_mul(0xBF58_476D_1CE4_E5B9);
    let b: u64 = (a ^ (a >> 31u64)).wrapping_mul(0x94D0_49BB_1331_11EB);
    b ^ (b >> 29u64)
}

pub open spec fn spec_height(hash: u64) -> Binary64 {
    Binary64::ratio(hash >> 11, 0x20_0000_0000_0000) * Binary64::of(2) - Binary64::of(1)
}

/// The height that a hash stands for, from minus one up to one.
#[verifier::when_used_as_spec(spec_height)]
pub fn height(hash: u64) -> (r: Binary64)
    ensures
        r == height(hash),
{
    Binary64::ratio(hash >> 11u64, 0x20_0000_0000_0000) * Binary64::of(2) - Binary64::of(1)
}

/// Every height is between minus one and one.
pub proof fn heights_are_between_minus_one_and_one(hash: u64)
    ensures
        height(hash).is_finite(),
        -Binary64::one() <= height(hash).value() <= Binary64::one(),
{
    let n: u64 = hash >> 11;
    assert(hash >> 11 <= 0x20_0000_0000_0000) by (bit_vector);
    let unit = Binary64::ratio(n, 0x20_0000_0000_0000);
    let one = Binary64::of(1);
    let two = Binary64::of(2);
    binary64::lemma_of(1);
    binary64::lemma_of(2);
    if n > 0 {
        binary64::lemma_ratio_share(n, 0x20_0000_0000_0000);
    } else {
        binary64::lemma_ratio_zero(0x20_0000_0000_0000);
    }
    binary64::lemma_product_below(two, unit);
    binary64::lemma_mul(unit, two);
    binary64::lemma_mul(two, unit);
    assert(unit.value() * two.value() == two.value() * unit.value()) by (nonlinear_arith);
    binary64::lemma_finite_below(unit * two, two);
    let twice = unit * two;
    binary64::lemma_negate(one);
    assert(twice - one == twice + one.negate());
    binary64::lemma_sum_between(twice, one.negate(), one.negate(), one);
}

} // verus!
