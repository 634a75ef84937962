//! The curve that runs from zero to one without a kink at either end, and
//! straight mixing.
use crate::binary32;
use crate::binary32::Binary32;
use crate::binary64;
use crate::binary64::Binary64;
use crate::number;
use crate::rounding;
use crate::rounding::Format;
use vstd::arithmetic::div_mod::*;
use vstd::arithmetic::power2::*;
use vstd::prelude::*;

verus! {

pub open spec fn spec_smooth64(t: Binary64) -> Binary64 {
    t * t * (Binary64::of(3) - Binary64::of(2) * t)
}

/// The curve's height over `t`.
#[verifier::when_used_as_spec(spec_smooth64)]
pub fn smooth64(t: Binary64) -> (r: Binary64)
    ensures
        r == smooth64(t),
{
    t * t * (Binary64::of(3) - Binary64::of(2) * t)
}

pub open spec fn spec_smooth32(t: Binary32) -> Binary32 {
    t * t * (Binary32::of(3) - Binary32::of(2) * t)
}

/// The curve's height over `t`.
#[verifier::when_used_as_spec(spec_smooth32)]
pub fn smooth32(t: Binary32) -> (r: Binary32)
    ensures
        r == smooth32(t),
{
    t * t * (Binary32::of(3) - Binary32::of(2) * t)
}

/// From one half to one, numbers are whole multiples of the spacing there.
proof fn lemma_upper_half(f: Format, bits: nat) -> (n: nat)
    requires
        pow2(f.unit()) <= 2 * f.decode(bits),
        f.decode(bits) <= pow2(f.unit()),
    ensures
        f.decode(bits) == n * pow2((f.unit() - f.precision()) as nat),
        pow2((f.precision() - 1) as nat) <= n <= pow2(f.precision()),
{
    let u = f.unit();
    let p = f.precision();
    let g = (u - p) as nat;
    let t = f.decode(bits);
    let (k, m) = rounding::lemma_unpack(f, bits);
    lemma_pow2_adds(g, p);
    lemma_pow2_adds(g, (p - 1) as nat);
    lemma_pow2_unfold(u);
    lemma_pow2_pos(g);
    lemma_pow2_pos(k);
    if k < g {
        if k + 1 < g {
            lemma_pow2_strictly_increases(k + 1, g);
        }
        lemma_pow2_unfold(k + 1);
        assert(false) by (nonlinear_arith)
            requires
                t == m * pow2(k),
                m < pow2(p),
                2 * pow2(k) <= pow2(g),
                pow2(u) == pow2(g) * pow2(p),
                pow2(u) <= 2 * t,
                pow2(k) > 0,
        ;
    }
    let j = (k - g) as nat;
    lemma_pow2_adds(g, j);
    let n = m * pow2(j);
    assert(t == n * pow2(g)) by (nonlinear_arith)
        requires
            t == m * pow2(k),
            pow2(k) == pow2(g) * pow2(j),
            n == m * pow2(j),
    ;
    assert(pow2((p - 1) as nat) <= n <= pow2(p)) by (nonlinear_arith)
        requires
            t == n * pow2(g),
            pow2(g) * pow2(p) <= 2 * t,
            t <= pow2(g) * pow2(p),
            pow2(g) * pow2((p - 1) as nat) * 2 == pow2(g) * pow2(p),
            pow2(g) > 0,
    ;
    n
}

/// In the upper half both terms of the linear factor are exact.
proof fn lemma_linear_factor(f: Format, bits: nat)
    requires
        pow2(f.unit()) <= 2 * f.decode(bits),
        f.decode(bits) <= pow2(f.unit()),
    ensures
        f.round(2 * f.decode(bits), 1) == 2 * f.decode(bits),
        f.round((3 * pow2(f.unit()) - 2 * f.decode(bits)) as nat, 1) == 3 * pow2(f.unit()) - 2
            * f.decode(bits),
{
    let u = f.unit();
    let p = f.precision();
    let g = (u - p) as nat;
    let s = g + 1;
    let t = f.decode(bits);
    let n = lemma_upper_half(f, bits);
    lemma_pow2_unfold(s);
    lemma_pow2_unfold(p);
    lemma_pow2_adds(g, p);
    assert(2 * t == n * pow2(s)) by (nonlinear_arith)
        requires
            t == n * pow2(g),
            pow2(s) == 2 * pow2(g),
    ;
    let half = pow2((p - 1) as nat);
    let rest = (3 * half - n) as nat;
    assert(3 * pow2(u) - 2 * t == rest * pow2(s)) by (nonlinear_arith)
        requires
            2 * t == n * pow2(s),
            pow2(u) == pow2(g) * (2 * half),
            pow2(s) == 2 * pow2(g),
            rest == 3 * half - n,
    ;
    number::lemma_scaled_exact(f, n, s);
    number::lemma_scaled_exact(f, rest, s);
}

/// A square of at most one is rounded up by no more than half the spacing
/// below one.
proof fn lemma_square_error(f: Format, t: nat)
    requires
        t < pow2(f.unit()),
    ensures
        f.round(t * t, pow2(f.unit())) * pow2(f.unit()) <= t * t + pow2(f.unit()) * pow2(
            (f.unit() - f.precision() - 1) as nat,
        ),
{
    let o = pow2(f.unit());
    lemma_pow2_pos(f.unit());
    assert(t * t < o * o) by (nonlinear_arith)
        requires
            0 <= t < o,
    ;
    rounding::lemma_round_error(f, t * t, o, f.unit());
    let half = pow2((f.unit() - f.precision() - 1) as nat);
    lemma_pow2_unfold((f.unit() - f.precision()) as nat);
    assert(o * (2 * half) == 2 * (o * half)) by (nonlinear_arith);
}

/// Halfway from one to the next number rounds to one.
proof fn lemma_tie_above_one(f: Format)
    ensures
        f.round(
            pow2(f.unit()) * pow2(f.unit()) + pow2(f.unit()) * pow2(
                (f.unit() - f.precision()) as nat,
            ),
            pow2(f.unit()),
        ) == pow2(f.unit()),
{
    let u = f.unit();
    let p = f.precision();
    let o = pow2(u);
    let e = pow2((u - p) as nat);
    let n = o * o + o * e;
    lemma_pow2_pos(u);
    lemma_pow2_pos((u - p) as nat);
    assert(n == (o + e) * o) by (nonlinear_arith)
        requires
            n == o * o + o * e,
    ;
    lemma_fundamental_div_mod_converse(n as int, o as int, (o + e) as int, 0);
    let whole = n / o;
    lemma_pow2_strictly_increases((u - p) as nat, u);
    lemma_pow2_unfold(u + 1);
    rounding::lemma_bit_length_unique(whole, u + 1);
    let k = f.shift_of(whole);
    assert(k == u + 1 - p);
    lemma_pow2_unfold(k);
    let lead = f.lead();
    lemma_pow2_adds((p - 1) as nat, k);
    let d = o * pow2(k);
    assert(n == lead * d + o * e && 2 * (o * e) == d && 0 < d) by (nonlinear_arith)
        requires
            n == o * o + o * e,
            o == lead * pow2(k),
            d == o * pow2(k),
            pow2(k) == 2 * e,
            o > 0,
            e > 0,
    ;
    lemma_fundamental_div_mod_converse(n as int, d as int, lead as int, (o * e) as int);
    lemma_pow2_unfold((p - 1) as nat);
    assert(lead % 2 == 0);
    assert(rounding::nearest_even(n, d) == lead);
    number::lemma_constants(f);
    lemma_pow2_strictly_increases(u, (f.precision() + f.top() - 2) as nat);
}

/// The curve's top is one, in exact counts.
proof fn lemma_curve_top(f: Format, bits: nat)
    requires
        f.decode(bits) <= pow2(f.unit()),
    ensures
        ({
            let o = pow2(f.unit());
            let t = f.decode(bits);
            let square = f.round(t * t, o);
            let twice = f.round(2 * t, 1);
            let rest = f.round((3 * o - twice) as nat, 1);
            &&& twice <= 2 * o
            &&& o <= rest <= 3 * o
            &&& square <= o
            &&& f.round(square * rest, o) <= o
        }),
{
    let o = pow2(f.unit());
    let t = f.decode(bits);
    let square = f.round(t * t, o);
    let twice = f.round(2 * t, 1);
    let rest = f.round((3 * o - twice) as nat, 1);
    lemma_pow2_pos(f.unit());
    assert(1 * o == o && 2 * o == 2 * o);
    lemma2_to64();
    lemma_pow2_strictly_increases(2, f.precision());
    number::lemma_scaled_exact(f, 1, f.unit());
    number::lemma_scaled_exact(f, 2, f.unit());
    number::lemma_scaled_exact(f, 3, f.unit());
    rounding::lemma_round_monotone(f, 2 * t, 2 * o, 1);
    rounding::lemma_round_monotone(f, o, (3 * o - twice) as nat, 1);
    rounding::lemma_round_monotone(f, (3 * o - twice) as nat, 3 * o, 1);
    let one = f.encode(o);
    rounding::lemma_round_exact(f, one, o);
    assert(t * t <= o * o) by (nonlinear_arith)
        requires
            0 <= t <= o,
    ;
    rounding::lemma_round_monotone(f, t * t, o * o, o);
    if 2 * t < o {
        let q = (f.unit() - 2) as nat;
        lemma_pow2_adds(2, q);
        let quarter = pow2(q);
        assert(1 * quarter == quarter);
        number::lemma_scaled_exact(f, 1, q);
        rounding::lemma_round_exact(f, f.encode(quarter), o);
        assert(t * t <= quarter * o) by (nonlinear_arith)
            requires
                2 * t < o,
                o == 4 * quarter,
                t >= 0,
        ;
        rounding::lemma_round_monotone(f, t * t, quarter * o, o);
        assert(square * rest <= o * o) by (nonlinear_arith)
            requires
                0 <= square <= quarter,
                0 <= rest <= 3 * o,
                o == 4 * quarter,
        ;
        rounding::lemma_round_monotone(f, square * rest, o * o, o);
    } else if t == o {
        lemma_linear_factor(f, bits);
        assert(square * rest <= o * o) by (nonlinear_arith)
            requires
                0 <= square <= o,
                rest == o,
        ;
        rounding::lemma_round_monotone(f, square * rest, o * o, o);
    } else {
        lemma_linear_factor(f, bits);
        lemma_square_error(f, t);
        lemma_tie_above_one(f);
        let half = pow2((f.unit() - f.precision() - 1) as nat);
        let step = pow2((f.unit() - f.precision()) as nat);
        lemma_pow2_unfold((f.unit() - f.precision()) as nat);
        let d = (o - t) as nat;
        assert((t * t) * (o + 2 * d) <= o * (o * o)) by (nonlinear_arith)
            requires
                t + d == o,
                t >= 0,
                d >= 0,
        ;
        assert((o * half) * (o + 2 * d) <= (o * half) * (2 * o)) by (nonlinear_arith)
            requires
                2 * d <= o,
                o > 0,
                half >= 0,
        ;
        assert((square * o) * rest <= (t * t + o * half) * rest) by (nonlinear_arith)
            requires
                square * o <= t * t + o * half,
                rest >= 0,
        ;
        assert(square * rest <= o * o + o * step) by (nonlinear_arith)
            requires
                (square * o) * rest <= (t * t + o * half) * rest,
                rest == o + 2 * d,
                (t * t) * (o + 2 * d) <= o * (o * o),
                (o * half) * (o + 2 * d) <= (o * half) * (2 * o),
                step == 2 * half,
                o > 0,
        ;
        rounding::lemma_round_monotone(f, square * rest, o * o + o * step, o);
    }
}

/// Over a share of one the curve's height is a share of one.
pub proof fn the_curve_stays_between_zero_and_one(t: Binary64)
    requires
        t.is_finite(),
        0 <= t.value() <= Binary64::one(),
    ensures
        smooth64(t).is_finite(),
        0 <= smooth64(t).value() <= Binary64::one(),
{
    let f = Format::Double;
    let one = Binary64::of(1);
    let two = Binary64::of(2);
    let three = Binary64::of(3);
    let o = Binary64::one();
    binary64::lemma_of(1);
    binary64::lemma_of(2);
    binary64::lemma_of(3);
    lemma_curve_top(f, t.number().bits as nat);
    let square = t * t;
    binary64::lemma_mul(t, t);
    assert(t.value() * t.value() >= 0) by (nonlinear_arith);
    let m = t.number().magnitude(f);
    assert(t.value() == m || (m == 0 && t.value() == 0));
    binary64::lemma_finite_below(square, one);
    let twice = two * t;
    binary64::lemma_mul(two, t);
    assert((2 * o) * t.value() == (2 * m) * o) by (nonlinear_arith)
        requires
            t.value() == m,
    ;
    rounding::lemma_round_scale(f, 2 * m, 1, o);
    assert(1 * o == o);
    binary64::lemma_finite_below(twice, two);
    binary64::lemma_negate(twice);
    let rest = three - twice;
    assert(rest == three + twice.negate());
    binary64::lemma_add(three, twice.negate());
    binary64::lemma_finite_below(rest, three);
    binary64::lemma_mul(square, rest);
    assert(square.value() * rest.value() >= 0) by (nonlinear_arith)
        requires
            square.value() >= 0,
            rest.value() >= 0,
    ;
    binary64::lemma_finite_below(square * rest, one);
}

/// The same in single precision.
pub proof fn the_single_curve_stays_between_zero_and_one(t: Binary32)
    requires
        t.is_finite(),
        0 <= t.value() <= Binary32::one(),
    ensures
        smooth32(t).is_finite(),
        0 <= smooth32(t).value() <= Binary32::one(),
{
    let f = Format::Single;
    let one = Binary32::of(1);
    let two = Binary32::of(2);
    let three = Binary32::of(3);
    let o = Binary32::one();
    binary32::lemma_of(1);
    binary32::lemma_of(2);
    binary32::lemma_of(3);
    lemma_curve_top(f, t.number().bits as nat);
    let square = t * t;
    binary32::lemma_mul(t, t);
    assert(t.value() * t.value() >= 0) by (nonlinear_arith);
    let m = t.number().magnitude(f);
    assert(t.value() == m || (m == 0 && t.value() == 0));
    binary32::lemma_finite_below(square, one);
    let twice = two * t;
    binary32::lemma_mul(two, t);
    assert((2 * o) * t.value() == (2 * m) * o) by (nonlinear_arith)
        requires
            t.value() == m,
    ;
    rounding::lemma_round_scale(f, 2 * m, 1, o);
    assert(1 * o == o);
    binary32::lemma_finite_below(twice, two);
    binary32::lemma_negate(twice);
    let rest = three - twice;
    assert(rest == three + twice.negate());
    binary32::lemma_add(three, twice.negate());
    binary32::lemma_finite_below(rest, three);
    binary32::lemma_mul(square, rest);
    assert(square.value() * rest.value() >= 0) by (nonlinear_arith)
        requires
            square.value() >= 0,
            rest.value() >= 0,
    ;
    binary32::lemma_finite_below(square * rest, one);
}

pub open spec fn spec_mix32(a: Binary32, b: Binary32, t: Binary32) -> Binary32 {
    a + (b - a) * t
}

/// What lies a share `t` of the way from `a` to `b`.
#[verifier::when_used_as_spec(spec_mix32)]
pub fn mix32(a: Binary32, b: Binary32, t: Binary32) -> (r: Binary32)
    ensures
        r == mix32(a, b, t),
{
    a + (b - a) * t
}

/// A count of less than one and the rounded rest up to one come to no more
/// than one when they are rounded together.
proof fn lemma_rest_to_one(a: Binary32)
    requires
        a.is_finite(),
        0 <= a.value() <= Binary32::one(),
    ensures
        binary32::round_value(
            a.value() + binary32::round_value(Binary32::one() - a.value(), 1),
            1,
        ) <= Binary32::one(),
{
    let f = Format::Single;
    let o = Binary32::one();
    let one = Binary32::of(1);
    binary32::lemma_of(1);
    binary32::lemma_order(one, one);
    binary32::lemma_order(a, a);
    binary32::lemma_round_exact(one, 1);
    let rest = (o - a.value()) as nat;
    let rounded = f.round(rest, 1);
    if a.value() == 0 {
    } else {
        assert(1 * pow2(f.unit()) == o);
        rounding::lemma_round_error(f, rest, 1, f.unit());
        let step = pow2((f.unit() - f.precision()) as nat);
        assert(1 * step == step);
        let n = (a.value() + rounded) as nat;
        assert(2 * n <= 2 * o + step);
        lemma_tie_above_one(f);
        assert((o + step) * o == o * o + o * step) by (nonlinear_arith);
        rounding::lemma_round_scale(f, o + step, 1, o);
        assert(1 * o == o);
        rounding::lemma_round_monotone(f, n, o + step, 1);
    }
}

/// Mixing shares of one gives a share of one.
pub proof fn mixing_shares_gives_a_share(a: Binary32, b: Binary32, t: Binary32)
    requires
        a.is_finite(),
        b.is_finite(),
        t.is_finite(),
        0 <= a.value() <= Binary32::one(),
        0 <= b.value() <= Binary32::one(),
        0 <= t.value() <= Binary32::one(),
    ensures
        mix32(a, b, t).is_finite(),
        0 <= mix32(a, b, t).value() <= Binary32::one(),
{
    let o = Binary32::one();
    let one = Binary32::of(1);
    let zero = Binary32::of(0);
    binary32::lemma_of(0);
    binary32::lemma_of(1);
    binary32::lemma_order(one, zero);
    binary32::lemma_order(a, b);
    binary32::lemma_negate(a);
    binary32::lemma_negate(one);
    let gap = b - a;
    assert(gap == b + a.negate());
    binary32::lemma_add(b, a.negate());
    binary32::lemma_round_exact(a.negate(), 1);
    binary32::lemma_round_exact(one, 1);
    binary32::lemma_round_exact(one.negate(), 1);
    binary32::lemma_round_exact(zero, 1);
    let top = binary32::round_value(o - a.value(), 1);
    binary32::lemma_round_monotone(-a.value(), b.value() - a.value(), 1);
    binary32::lemma_round_monotone(b.value() - a.value(), o - a.value(), 1);
    binary32::lemma_round_monotone(o - a.value(), o as int, 1);
    binary32::lemma_round_monotone(0, o - a.value(), 1);
    binary32::lemma_finite_below(gap, one);
    let part = gap * t;
    binary32::lemma_mul(gap, t);
    assert(-a.value() * o <= gap.value() * t.value() <= top * o) by (nonlinear_arith)
        requires
            -a.value() <= gap.value() <= top,
            0 <= t.value() <= o,
            top >= 0,
            a.value() >= 0,
    ;
    binary32::lemma_round_exact(a.negate(), o);
    binary32::lemma_round_monotone(a.negate().value() * o, gap.value() * t.value(), o);
    lemma_rounded_twice(o - a.value(), o);
    binary32::lemma_round_monotone(gap.value() * t.value(), top * o, o);
    assert(-a.value() <= part.value() <= top);
    binary32::lemma_finite_below(part, one);
    let r = a + part;
    binary32::lemma_add(a, part);
    lemma_rest_to_one(a);
    binary32::lemma_round_monotone(0, a.value() + part.value(), 1);
    binary32::lemma_round_monotone(a.value() + part.value(), a.value() + top, 1);
    binary32::lemma_finite_below(r, one);
}

/// A rounded count rounds to itself.
proof fn lemma_rounded_twice(n: int, d: nat)
    requires
        n >= 0,
        d > 0,
    ensures
        binary32::round_value(binary32::round_value(n, 1) * d, d) == binary32::round_value(n, 1),
{
    let f = Format::Single;
    let bits = f.encode(f.round(n as nat, 1));
    number::lemma_rounded(f, false, n as nat, 1);
    rounding::lemma_round_packs(f, n as nat, 1);
    rounding::lemma_round_exact(f, bits, d);
}

} // verus!
