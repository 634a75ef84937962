//! Into how many parts a step is cut.
use crate::binary64;
use crate::binary64::Binary64;
use crate::fdm::dynamics;
use crate::fdm::state::RigidBodyState;
use crate::near;
use crate::track;
use vstd::arithmetic::div_mod::lemma_fundamental_div_mod;
use vstd::arithmetic::power2::*;
use vstd::prelude::*;

verus! {

/// A step is cut into as many parts as the greater of two demands asks for, up
/// to eight, and into no more.
pub proof fn a_step_has_parts_enough_and_no_more(rotation: Binary64, gear: Binary64)
    requires
        rotation.is_finite(),
        gear.is_finite(),
        rotation.value() >= Binary64::one(),
        gear.value() >= Binary64::one(),
    ensures
        ({
            let o = Binary64::one() as int;
            let parts = dynamics::parts_spec(rotation, gear) as int;
            &&& parts * o <= rotation.value() || parts * o <= gear.value()
            &&& parts < 8 ==> rotation.value() < (parts + 1) * o && gear.value() < (parts + 1) * o
        }),
{
    let (one, eight) = (Binary64::of(1), Binary64::of(8));
    let o = Binary64::one() as int;
    binary64::lemma_of(1);
    binary64::lemma_of(8);
    binary64::lemma_order(rotation, gear);
    let most = rotation.max(gear);
    binary64::lemma_order(most, one);
    binary64::lemma_order(eight, most);
    let held = most.clamp(one, eight);
    assert(1 * o == o);
    binary64::lemma_to_integer(held, 1, 8);
    let n = held.value() / o;
    lemma_fundamental_div_mod(held.value(), o);
    assert(o * n == n * o) by (nonlinear_arith);
    assert((n + 1) * o == n * o + o) by (nonlinear_arith);
    if most.value() > 8 * o {
        assert(n == 8) by (nonlinear_arith)
            requires
                8 * o == o * n + (8 * o) % o,
                0 <= (8 * o) % o < o,
                o > 0,
        ;
    }
}

/// No part of a step turns the aircraft further than it may: the turn of the
/// step is at most the limit times the parts that turning asks for, but for
/// rounding, and they are fewer than one more than it takes.
pub proof fn no_part_turns_too_far(state: RigidBodyState, dt: Binary64)
    requires
        ({
            let rotation = state.angular_velocity.length() * dt;
            rotation.is_finite() && 0 <= rotation.value() <= pow2(1076)
        }),
    ensures
        ({
            let o = Binary64::one() as int;
            let rotation = (state.angular_velocity.length() * dt).value();
            let limit = dynamics::max_rotation_per_substep().value();
            let parts = dynamics::rotation_parts(state, dt);
            &&& parts.is_finite()
            &&& parts.value() >= o
            &&& 0x10000000000 * (rotation * o - parts.value() * limit) <= o * limit
            &&& parts.value() > o ==> 0x10000000000 * ((parts.value() - o) * limit - rotation * o)
                <= o * limit
        }),
{
    let o = Binary64::one() as int;
    let (zero, one) = (Binary64::of(0), Binary64::of(1));
    let rotation = state.angular_velocity.length() * dt;
    let limit = dynamics::max_rotation_per_substep();
    let (t, l) = (rotation.value(), limit.value());
    binary64::lemma_of(0);
    binary64::lemma_of(1);
    near::lemma_grain();
    near::lemma_small_ratio(5, 100, 1);
    near::lemma_ratio(5, 100);
    assert(32 * l >= o);
    lemma_pow2_pos(1074);
    lemma_pow2_adds(1076, 6);
    lemma_pow2_adds(1074, 8);
    lemma2_to64();
    lemma2_to64_rest();
    assert(2 * (pow2(1076) * o) <= pow2(1082) * l) by (nonlinear_arith)
        requires
            pow2(1082) == pow2(1076) * 64,
            32 * l >= o,
            pow2(1076) >= 0,
    ;
    track::lemma_itself(rotation, 1076, 51);
    track::lemma_over(rotation, limit, t, 1, 1076, 1082, 51);
    let share = rotation / limit;
    let s = share.value();
    assert(0 * l == 0);
    binary64::lemma_quotient_between(zero, limit, zero, zero);
    near::lemma_quotient_grows(zero, rotation, limit);
    binary64::lemma_ceil(share, 256);
    let whole = share.ceil();
    binary64::lemma_order(whole, one);
    let parts = whole.max(one);
    let (p, off) = (parts.value(), s * l - t * o);
    assert(1 * l == l);
    assert(pow2(50) * off == 0x4000000000000 * off) by (nonlinear_arith)
        requires
            pow2(50) == 0x4000000000000,
    ;
    assert(pow2(1082) * l == 256 * (o * l)) by (nonlinear_arith)
        requires
            pow2(1082) == o * 256,
    ;
    assert(s * l <= p * l) by (nonlinear_arith)
        requires
            s <= p,
            l >= 0,
    ;
    assert(o * l >= 0) by (nonlinear_arith)
        requires
            o >= 0,
            l >= 0,
    ;
    if p > o {
        assert((p - o) * l <= s * l) by (nonlinear_arith)
            requires
                p - o <= s,
                l >= 0,
        ;
    }
}

} // verus!
