//! How little a body turns within a part of a step.
use crate::binary64;
use crate::binary64::Binary64;
use crate::fdm::dynamics;
use crate::fdm::state;
use crate::fdm::state::{RigidBodyState, StateDerivative};
use crate::near;
use crate::norm;
use crate::number;
use crate::rotation::DQuat;
use crate::vector::DVec3;
use vstd::prelude::*;

verus! {

/// The number is no larger than that, in counts.
spec fn at_most(x: Binary64, most: int) -> bool {
    x.is_finite() && -most <= x.value() <= most
}

/// An attitude, and a body that turns about no axis faster than that.
pub open spec fn turns_at_most(attitude: DQuat, rate: DVec3, most: int) -> bool {
    &&& norm::near_unit(attitude.to_vec4())
    &&& rate.x.is_finite() && -most <= rate.x.value() <= most
    &&& rate.y.is_finite() && -most <= rate.y.value() <= most
    &&& rate.z.is_finite() && -most <= rate.z.value() <= most
}

/// A component of something of length one.
proof fn lemma_component(x: int, rest: int, unit: int)
    requires
        unit >= 1,
        rest >= 0,
        (x * x + rest - unit * unit) * 0x200000000000 <= unit * unit,
    ensures
        64 * x <= 65 * unit,
        -(64 * x) <= 65 * unit,
{
    let m = number::magnitude_of(x) as int;
    assert(m * m == x * x) by (nonlinear_arith)
        requires
            m == x || m == -x,
    ;
    if 64 * m > 65 * unit {
        assert(4096 * (m * m) >= 4225 * (unit * unit)) by (nonlinear_arith)
            requires
                64 * m > 65 * unit,
                unit >= 1,
        ;
        assert(unit * unit >= 1) by (nonlinear_arith)
            requires
                unit >= 1,
        ;
    }
}

proof fn lemma_attitude(q: DQuat)
    requires
        norm::near_unit(q.to_vec4()),
    ensures
        64 * number::magnitude_of(q.x.value()) <= 65 * Binary64::one(),
        64 * number::magnitude_of(q.y.value()) <= 65 * Binary64::one(),
        64 * number::magnitude_of(q.z.value()) <= 65 * Binary64::one(),
        64 * number::magnitude_of(q.w.value()) <= 65 * Binary64::one(),
        q.x.is_finite(),
        q.y.is_finite(),
        q.z.is_finite(),
        q.w.is_finite(),
{
    near::lemma_grain();
    let o = Binary64::one() as int;
    let (x, y, z, w) = (q.x.value(), q.y.value(), q.z.value(), q.w.value());
    assert(x * x >= 0 && y * y >= 0 && z * z >= 0 && w * w >= 0) by (nonlinear_arith);
    lemma_component(x, y * y + z * z + w * w, o);
    lemma_component(y, x * x + z * z + w * w, o);
    lemma_component(z, x * x + y * y + w * w, o);
    lemma_component(w, x * x + y * y + z * z, o);
}

/// A component of an attitude times a rate.
proof fn lemma_term(a: Binary64, p: Binary64, most: int)
    requires
        a.is_finite(),
        64 * number::magnitude_of(a.value()) <= 65 * Binary64::one(),
        at_most(p, most),
        0 <= most <= 1000 * Binary64::one(),
    ensures
        near::sized(a * p, 2001),
        64 * number::magnitude_of((a * p).value()) <= 65 * most + 64 * near::grain(),
{
    let o = Binary64::one() as int;
    let g = near::grain() as int;
    near::lemma_grain();
    assert(2 * o >= 0 && 1000 * o >= most);
    near::lemma_small_product(a, p, 2, 1000);
    let (x, y, r) = (a.value(), p.value(), (a * p).value());
    let (m, n) = (number::magnitude_of(x) as int, number::magnitude_of(y) as int);
    let s = number::magnitude_of(r) as int;
    assert(-(m * n) <= x * y <= m * n) by (nonlinear_arith)
        requires
            m == x || m == -x,
            n == y || n == -y,
            m >= 0,
            n >= 0,
    ;
    assert(64 * (m * n) <= 65 * (most * o)) by (nonlinear_arith)
        requires
            64 * m <= 65 * o,
            0 <= n <= most,
            0 <= m,
            o > 0,
    ;
    assert(64 * s <= 65 * most + 64 * g) by (nonlinear_arith)
        requires
            r * o - x * y <= g * o,
            x * y - r * o <= g * o,
            -(m * n) <= x * y <= m * n,
            64 * (m * n) <= 65 * (most * o),
            s == r || s == -r,
            o > 0,
    ;
}

/// Half of a sum of three terms.
proof fn lemma_part(u: Binary64, v: Binary64, w: Binary64, most: int)
    requires
        near::sized(u, 2001),
        near::sized(v, 2001),
        near::sized(w, 2001),
        64 * number::magnitude_of(u.value()) <= 65 * most + 64 * near::grain(),
        64 * number::magnitude_of(v.value()) <= 65 * most + 64 * near::grain(),
        64 * number::magnitude_of(w.value()) <= 65 * most + 64 * near::grain(),
    ensures
        near::sized(Binary64::ratio(1, 2) * (u + v + w), 6006),
        128 * number::magnitude_of((Binary64::ratio(1, 2) * (u + v + w)).value()) <= 195 * most
            + 448 * near::grain(),
{
    let o = Binary64::one() as int;
    let g = near::grain() as int;
    let half = Binary64::ratio(1, 2);
    near::lemma_grain();
    near::lemma_small_sum(u, v, 2001, 2001);
    near::lemma_small_sum(u + v, w, 4003, 2001);
    binary64::lemma_halves(1);
    near::lemma_small_ratio(1, 2, 1);
    let sum = u + v + w;
    near::lemma_small_product(half, sum, 1, 6005);
    let (t, r) = (sum.value(), (half * sum).value());
    assert(2 * (r * o) - t * o <= 2 * (g * o) && t * o - 2 * (r * o) <= 2 * (g * o))
        by (nonlinear_arith)
        requires
            r * o - half.value() * t <= g * o,
            half.value() * t - r * o <= g * o,
            2 * half.value() == o,
    ;
    assert(2 * r - t <= 2 * g && t - 2 * r <= 2 * g) by (nonlinear_arith)
        requires
            2 * (r * o) - t * o <= 2 * (g * o),
            t * o - 2 * (r * o) <= 2 * (g * o),
            o > 0,
    ;
}

/// A rate of change of one number of the attitude.
spec fn rate_at_most(x: Binary64, most: int) -> bool {
    &&& near::sized(x, 6006)
    &&& 128 * number::magnitude_of(x.value()) <= 195 * most + 448 * near::grain()
}

/// How fast an attitude changes while its body turns.
proof fn lemma_rate(q: DQuat, v: DVec3, most: int)
    requires
        turns_at_most(q, v, most),
        0 <= most <= 1000 * Binary64::one(),
    ensures
        rate_at_most(state::orientation_rate(q, v).x, most),
        rate_at_most(state::orientation_rate(q, v).y, most),
        rate_at_most(state::orientation_rate(q, v).z, most),
        rate_at_most(state::orientation_rate(q, v).w, most),
{
    lemma_attitude(q);
    let (w, x, y, z) = (q.w, q.x, q.y, q.z);
    lemma_terms(w, v, most);
    lemma_terms(x, v, most);
    lemma_terms(y, v, most);
    lemma_terms(z, v, most);
    binary64::lemma_negate(x);
    lemma_terms(x.negate(), v, most);
    lemma_part(w * v.x, y * v.z, (z * v.y).negate(), most);
    lemma_part(w * v.y, (x * v.z).negate(), z * v.x, most);
    lemma_part(w * v.z, x * v.y, (y * v.x).negate(), most);
    lemma_part(x.negate() * v.x, (y * v.y).negate(), (z * v.z).negate(), most);
    near::lemma_grain();
}

/// One number of an attitude times all rates, either way round.
proof fn lemma_terms(a: Binary64, v: DVec3, most: int)
    requires
        a.is_finite(),
        64 * number::magnitude_of(a.value()) <= 65 * Binary64::one(),
        at_most(v.x, most),
        at_most(v.y, most),
        at_most(v.z, most),
        0 <= most <= 1000 * Binary64::one(),
    ensures
        term(a * v.x, most),
        term(a * v.y, most),
        term(a * v.z, most),
        term((a * v.x).negate(), most),
        term((a * v.y).negate(), most),
        term((a * v.z).negate(), most),
{
    lemma_term(a, v.x, most);
    lemma_term(a, v.y, most);
    lemma_term(a, v.z, most);
    binary64::lemma_negate(a * v.x);
    binary64::lemma_negate(a * v.y);
    binary64::lemma_negate(a * v.z);
}

spec fn term(x: Binary64, most: int) -> bool {
    &&& near::sized(x, 2001)
    &&& 64 * number::magnitude_of(x.value()) <= 65 * most + 64 * near::grain()
}

/// The mean rate, as the fourth-order method weighs it, over the time.
proof fn lemma_mean(
    a: Binary64,
    b: Binary64,
    c: Binary64,
    d: Binary64,
    h: Binary64,
    most: int,
)
    requires
        rate_at_most(a, most),
        rate_at_most(b, most),
        rate_at_most(c, most),
        rate_at_most(d, most),
        near::sized(h, 1),
        h.value() >= 0,
        0 <= most,
        16 * (most * h.value()) <= Binary64::one() * Binary64::one(),
    ensures
        ({
            let two = Binary64::of(2);
            let mean = (a + b * two + c * two + d) * (Binary64::of(1) / Binary64::of(6));
            &&& (mean * h).is_finite()
            &&& 8 * number::magnitude_of((mean * h).value()) <= Binary64::one()
        }),
{
    let o = Binary64::one() as int;
    let g = near::grain() as int;
    let two = Binary64::of(2);
    let sixth = Binary64::of(1) / Binary64::of(6);
    near::lemma_grain();
    near::lemma_small_of(2, 2);
    near::lemma_small_of(1, 1);
    near::lemma_small_of(6, 6);
    lemma_twice(b);
    lemma_twice(c);
    near::lemma_small_sum(a, b * two, 6006, 12013);
    near::lemma_small_sum(a + b * two, c * two, 18020, 12013);
    near::lemma_small_sum(a + b * two + c * two, d, 30034, 6006);
    let sum = a + b * two + c * two + d;
    let t = sum.value();
    assert(6 * o >= o);
    near::lemma_small_quotient(Binary64::of(1), Binary64::of(6), 1);
    near::lemma_small_quotient_near(Binary64::of(1), Binary64::of(6), 1);
    let s = sixth.value();
    assert(0 <= 5 * s <= o) by (nonlinear_arith)
        requires
            s >= 0,
            s * (6 * o) - o * o <= g * (6 * o),
            o == 0x100000000 * g,
            g > 0,
    ;
    near::lemma_small_product(sum, sixth, 36041, 1);
    let mean = sum * sixth;
    let m = mean.value();
    let bound = 1170 * most + 3328 * g;
    assert(128 * number::magnitude_of(t) <= bound);
    lemma_sixth(o, g, t, s, m, bound);
    near::lemma_small_product(mean, h, 36042, 1);
    lemma_over_time(o, g, m, h.value(), (mean * h).value(), most);
}

proof fn lemma_twice(b: Binary64)
    requires
        near::sized(b, 6006),
    ensures
        near::sized(b * Binary64::of(2), 12013),
        near::within((b * Binary64::of(2)).value(), 2 * b.value(), near::grain()),
{
    let o = Binary64::one() as int;
    let g = near::grain() as int;
    near::lemma_grain();
    near::lemma_small_of(2, 2);
    near::lemma_small_product(b, Binary64::of(2), 6006, 2);
    let (x, r) = (b.value(), (b * Binary64::of(2)).value());
    assert(r - 2 * x <= g && 2 * x - r <= g) by (nonlinear_arith)
        requires
            r * o - x * (2 * o) <= g * o,
            x * (2 * o) - r * o <= g * o,
            o > 0,
    ;
}

proof fn lemma_sixth(o: int, g: int, t: int, s: int, m: int, bound: int)
    requires
        o > 0,
        g > 0,
        0 <= 5 * s <= o,
        -bound <= 128 * t <= bound,
        -(g * o) <= m * o - t * s <= g * o,
    ensures
        -(bound + 640 * g) <= 640 * m <= bound + 640 * g,
{
    assert(-(bound * o) <= 640 * (t * s) <= bound * o) by (nonlinear_arith)
        requires
            0 <= 5 * s <= o,
            -bound <= 128 * t <= bound,
    ;
    assert(-(bound + 640 * g) <= 640 * m <= bound + 640 * g) by (nonlinear_arith)
        requires
            -(bound * o) <= 640 * (t * s) <= bound * o,
            -(g * o) <= m * o - t * s <= g * o,
            o > 0,
    ;
}

proof fn lemma_over_time(o: int, g: int, m: int, h: int, r: int, most: int)
    requires
        o == 0x100000000 * g,
        g > 0,
        0 <= h <= o,
        0 <= most,
        16 * (most * h) <= o * o,
        -(1170 * most + 3968 * g) <= 640 * m <= 1170 * most + 3968 * g,
        -(g * o) <= r * o - m * h <= g * o,
    ensures
        -o <= 8 * r <= o,
{
    let (k, e) = (m * h, most * h);
    assert(-(1170 * e + 3968 * (g * o)) <= 640 * k <= 1170 * e + 3968 * (g * o)) by (nonlinear_arith)
        requires
            -(1170 * most + 3968 * g) <= 640 * m <= 1170 * most + 3968 * g,
            0 <= h <= o,
            k == m * h,
            e == most * h,
            g > 0,
    ;
    assert(o * o == 0x100000000 * (g * o)) by (nonlinear_arith)
        requires
            o == 0x100000000 * g,
    ;
    assert(-(o * o) <= 8 * (r * o) <= o * o);
    assert(-o <= 8 * r <= o) by (nonlinear_arith)
        requires
            -(o * o) <= 8 * (r * o) <= o * o,
            o > 0,
    ;
}

/// Where a body turns by no more than a sixteenth of a radian about any axis
/// within a part of a step, the turn changes by little, and what it changes to
/// can be brought to length one.
pub proof fn turning_slowly_turns_little(
    start: RigidBodyState,
    h: Binary64,
    attitudes: (DQuat, DQuat, DQuat, DQuat),
    rates: (DVec3, DVec3, DVec3, DVec3),
    k: (StateDerivative, StateDerivative, StateDerivative, StateDerivative),
    most: int,
)
    requires
        norm::near_unit(start.orientation.to_vec4()),
        turns_at_most(attitudes.0, rates.0, most),
        turns_at_most(attitudes.1, rates.1, most),
        turns_at_most(attitudes.2, rates.2, most),
        turns_at_most(attitudes.3, rates.3, most),
        k.0.orientation_rate == state::orientation_rate(attitudes.0, rates.0),
        k.1.orientation_rate == state::orientation_rate(attitudes.1, rates.1),
        k.2.orientation_rate == state::orientation_rate(attitudes.2, rates.2),
        k.3.orientation_rate == state::orientation_rate(attitudes.3, rates.3),
        0 <= most <= 1000 * Binary64::one(),
        h.is_finite(),
        0 <= h.value() <= Binary64::one(),
        16 * (most * h.value()) <= Binary64::one() * Binary64::one(),
    ensures
        norm::ordinary(dynamics::turn_reached(start, h, k.0, k.1, k.2, k.3)),
        norm::small_change(
            dynamics::weighted_spec(k.0, k.1, k.2, k.3).orientation_rate.scaled(h),
        ),
{
    lemma_rate(attitudes.0, rates.0, most);
    lemma_rate(attitudes.1, rates.1, most);
    lemma_rate(attitudes.2, rates.2, most);
    lemma_rate(attitudes.3, rates.3, most);
    let (a, b, c, d) = (
        k.0.orientation_rate,
        k.1.orientation_rate,
        k.2.orientation_rate,
        k.3.orientation_rate,
    );
    assert(near::sized(h, 1)) by {
        assert(1 * Binary64::one() == Binary64::one());
    }
    lemma_mean(a.x, b.x, c.x, d.x, h, most);
    lemma_mean(a.y, b.y, c.y, d.y, h, most);
    lemma_mean(a.z, b.z, c.z, d.z, h, most);
    lemma_mean(a.w, b.w, c.w, d.w, h, most);
    norm::a_small_change_can_be_normalised(
        start.orientation.to_vec4(),
        dynamics::weighted_spec(k.0, k.1, k.2, k.3).orientation_rate.scaled(h),
    );
}

} // verus!
