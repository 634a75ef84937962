//! How the clouds answer to the cover that is asked for.
use crate::binary32;
use crate::binary32::Binary32;
use crate::binary64;
use crate::binary64::Binary64;
use crate::fine;
use crate::fine::crumb;
use crate::number;
use crate::render::weather;
use crate::rounding;
use crate::rounding::Format;
use vstd::arithmetic::power2::*;
use vstd::prelude::*;

verus! {

/// Where the soft step is certain.
proof fn lemma_sides(low: Binary32, high: Binary32, value: Binary32)
    requires
        !value.is_nan(),
        low.is_finite(),
        high.is_finite(),
        (high - low).is_finite(),
        (high - low).value() > 0,
    ensures
        value.value() <= low.value() ==> weather::ramp32(low, high, value).is_finite()
            && weather::ramp32(low, high, value).value() == 0,
        value.value() >= high.value() ==> weather::ramp32(low, high, value).is_finite()
            && weather::ramp32(low, high, value).value() == Binary32::one(),
{
    let (zero, one) = (Binary32::of(0), Binary32::of(1));
    let o = Binary32::one() as int;
    binary32::lemma_of(0);
    binary32::lemma_of(1);
    binary32::lemma_order(zero, one);
    binary32::lemma_negate(low);
    let gap = value - low;
    let width = high - low;
    assert(gap == value + low.negate());
    assert(width == high + low.negate());
    binary32::lemma_add(high, low.negate());
    rounding::lemma_round_zero(Format::Single, 1);
    let d = width.value();
    if value.is_finite() {
        binary32::lemma_add(value, low.negate());
        if value.value() <= low.value() {
            binary32::lemma_round_monotone(value.value() - low.value(), 0, 1);
        }
        if value.value() >= high.value() {
            binary32::lemma_round_monotone(
                high.value() - low.value(),
                value.value() - low.value(),
                1,
            );
        }
    } else {
        binary32::lemma_add_infinite(value, low.negate());
        binary32::lemma_abs(low);
        binary32::lemma_abs(high);
        if -low.abs().value() <= value.value() <= low.abs().value() {
            binary32::lemma_finite_below(value, low.abs());
        }
        if -high.abs().value() <= value.value() <= high.abs().value() {
            binary32::lemma_finite_below(value, high.abs());
        }
    }
    let q = gap / width;
    if gap.is_finite() {
        binary32::lemma_div(gap, width);
        rounding::lemma_round_zero(Format::Single, d as nat);
        binary32::lemma_round_exact(one, d as nat);
        if gap.value() <= 0 {
            assert(gap.value() * o <= 0) by (nonlinear_arith)
                requires
                    gap.value() <= 0,
                    o > 0,
            ;
            binary32::lemma_round_monotone(gap.value() * o, 0, d as nat);
        }
        if gap.value() >= d {
            assert(o * d <= gap.value() * o) by (nonlinear_arith)
                requires
                    gap.value() >= d,
                    o > 0,
            ;
            binary32::lemma_round_monotone(o * d, gap.value() * o, d as nat);
        }
    } else {
        binary32::lemma_div_infinite(gap, width);
        if 0 <= gap.value() <= o {
            binary32::lemma_finite_below(gap, one);
        }
    }
    binary32::lemma_order(q, zero);
    binary32::lemma_order(one, q);
    if value.value() <= low.value() && q.value() == 0 {
        binary32::lemma_finite_below(q, one);
    }
    if value.value() >= high.value() && q.value() == o {
        binary32::lemma_finite_below(q, one);
    }
}

/// The soft step follows the straight one.
proof fn lemma_ramp(low: Binary32, high: Binary32, value: Binary32)
    requires
        (value - low).is_finite(),
        (high - low).is_finite(),
        (high - low).value() > 0,
    ensures
        ({
            let x = weather::ramp32(low, high, value).value();
            let n = (value - low).value();
            let d = (high - low).value();
            let o = Binary32::one() as int;
            &&& weather::ramp32(low, high, value).is_finite()
            &&& 0 <= x <= o
            &&& n <= 0 ==> x == 0
            &&& n > 0 ==> x * d <= n * o + crumb() * d
            &&& x == o || x * d >= n * o - crumb() * d
        }),
{
    let f = Format::Single;
    let (zero, one) = (Binary32::of(0), Binary32::of(1));
    let o = Binary32::one() as int;
    let c = crumb();
    let n = (value - low).value();
    let d = (high - low).value();
    fine::lemma_crumb();
    number::lemma_constants(f);
    binary32::lemma_of(0);
    binary32::lemma_of(1);
    binary32::lemma_order(zero, one);
    let q = (value - low) / (high - low);
    binary32::lemma_div(value - low, high - low);
    rounding::lemma_round_zero(f, d as nat);
    binary32::lemma_round_exact(one, d as nat);
    binary32::lemma_order(q, zero);
    binary32::lemma_order(one, q);
    assert(c * d > 0) by (nonlinear_arith)
        requires
            c > 0,
            d > 0,
    ;
    if n <= 0 {
        assert(n * o <= 0) by (nonlinear_arith)
            requires
                n <= 0,
                o > 0,
        ;
        binary32::lemma_round_monotone(n * o, 0, d as nat);
        if q.value() == 0 {
            binary32::lemma_finite_below(q, one);
        }
        assert(0 * d == 0);
    } else if n >= d {
        assert(o * d <= n * o) by (nonlinear_arith)
            requires
                n >= d,
                o > 0,
        ;
        binary32::lemma_round_monotone(o * d, n * o, d as nat);
        if q.value() == o {
            binary32::lemma_finite_below(q, one);
        }
    } else {
        assert(0 < n * o < o * d && n * o < d * pow2(150)) by (nonlinear_arith)
            requires
                0 < n < d,
                o > 0,
                pow2(150) == 2 * o,
        ;
        rounding::lemma_round_error(f, (n * o) as nat, d as nat, 150);
        assert(d * pow2(126) == 2 * (c * d)) by (nonlinear_arith)
            requires
                pow2(126) == 2 * c,
        ;
        binary32::lemma_round_monotone(n * o, o * d, d as nat);
        binary32::lemma_round_monotone(0, n * o, d as nat);
        binary32::lemma_finite_below(q, one);
    }
}

/// Steps whose widths differ by crumbs lie close together.
proof fn lemma_ramps(o: int, c: int, n1: int, d1: int, x1: int, n2: int, d2: int, x2: int)
    requires
        o == 0x1000000 * c,
        c > 0,
        0 <= x1 <= o,
        0 <= x2 <= o,
        n1 <= 0 ==> x1 == 0,
        n1 > 0 ==> x1 * d1 <= n1 * o + c * d1,
        x2 == o || x2 * d2 >= n2 * o - c * d2,
        n1 <= n2,
        -(6 * c) <= d2 - d1 <= 6 * c,
        159 * o <= 1000 * d2,
    ensures
        x1 <= x2 + 40 * c,
{
    if n1 > 0 && x2 != o && x1 > x2 + 40 * c {
        let m = c * o;
        assert(x1 * (d2 - d1) <= 6 * m) by (nonlinear_arith)
            requires
                d2 - d1 <= 6 * c,
                0 <= x1 <= o,
                m == c * o,
                c > 0,
        ;
        assert(x1 * d2 == x1 * d1 + x1 * (d2 - d1)) by (nonlinear_arith);
        assert(n2 * o >= n1 * o) by (nonlinear_arith)
            requires
                n2 >= n1,
                o > 0,
        ;
        assert(c * d1 <= c * d2 + m) by (nonlinear_arith)
            requires
                d1 <= d2 + 6 * c,
                6 * c <= o,
                m == c * o,
                c > 0,
        ;
        let k = x1 - x2;
        assert(k * d2 == x1 * d2 - x2 * d2) by (nonlinear_arith)
            requires
                k == x1 - x2,
        ;
        let w = c * d2;
        assert(k * d2 >= 40 * w && 1000 * w >= 159 * m) by (nonlinear_arith)
            requires
                k >= 40 * c,
                159 * o <= 1000 * d2,
                w == c * d2,
                m == c * o,
                o > 0,
                c > 0,
        ;
        assert(k * d2 <= 6 * m + c * d1 + w);
        assert(c * d1 <= w + 6 * (c * c)) by (nonlinear_arith)
            requires
                d1 <= d2 + 6 * c,
                w == c * d2,
                c > 0,
        ;
        assert(1000 * (6 * (c * c)) <= m) by (nonlinear_arith)
            requires
                m == c * o,
                o == 0x1000000 * c,
                c > 0,
        ;
        assert(m > 0) by (nonlinear_arith)
            requires
                m == c * o,
                c > 0,
                o > 0,
        ;
    }
}

/// Half the width of the soft edge, in crumbs.
proof fn lemma_softness()
    ensures
        Binary32::ratio(8, 100).is_finite(),
        8 * Binary32::one() - 100 * crumb() <= 100 * Binary32::ratio(8, 100).value() <= 8
            * Binary32::one() + 100 * crumb(),
{
    reveal(Binary32::spec_ratio);
    let f = Format::Single;
    let o = Binary32::one();
    fine::lemma_crumb();
    number::lemma_constants(f);
    binary32::lemma_ratio_share(8, 100);
    number::lemma_rounded(f, false, 8 * o, 100);
    rounding::lemma_round_error(f, 8 * o, 100, 150);
}

/// The edge of the clouds under some cover.
proof fn lemma_edge(cover: Binary32)
    requires
        cover.is_finite(),
        0 < cover.value() < Binary32::one(),
    ensures
        ({
            let o = Binary32::one() as int;
            let s = Binary32::ratio(8, 100);
            let t = Binary32::of(1) - cover;
            let (low, high) = (t - s, t + s);
            &&& t.is_finite()
            &&& 0 <= t.value() <= o
            &&& low.is_finite()
            &&& high.is_finite()
            &&& (high - low).is_finite()
            &&& -o <= low.value() <= o
            &&& 0 <= high.value() <= 2 * o
            &&& fine::near((high - low).value(), 2 * s.value(), 3)
            &&& 159 * o <= 1000 * (high - low).value()
        }),
{
    let one = Binary32::of(1);
    let s = Binary32::ratio(8, 100);
    fine::lemma_crumb();
    lemma_softness();
    binary32::lemma_of(0);
    binary32::lemma_of(1);
    binary32::lemma_order(one, Binary32::of(0));
    binary32::lemma_negate(cover);
    let t = one - cover;
    assert(t == one + cover.negate());
    binary32::lemma_add(one, cover.negate());
    binary32::lemma_round_exact(one, 1);
    binary32::lemma_round_exact(Binary32::of(0), 1);
    binary32::lemma_round_monotone(0, one.value() - cover.value(), 1);
    binary32::lemma_round_monotone(one.value() - cover.value(), one.value(), 1);
    binary32::lemma_finite_below(t, one);
    fine::lemma_difference(t, s);
    fine::lemma_sum(t, s);
    fine::lemma_difference(t + s, t - s);
}

/// Taking away less leaves no less.
proof fn lemma_left(a: Binary32, b: Binary32, c: Binary32)
    requires
        a.is_finite(),
        b.is_finite(),
        c.is_finite(),
        b.value() <= c.value(),
    ensures
        (a - c).value() <= (a - b).value(),
{
    binary32::lemma_negate(b);
    binary32::lemma_negate(c);
    binary32::lemma_add(a, b.negate());
    binary32::lemma_add(a, c.negate());
    assert(a - b == a + b.negate() && a - c == a + c.negate());
    binary32::lemma_round_monotone(a.value() - c.value(), a.value() - b.value(), 1);
}

/// What a greater cover can leave less of some noise, by rounding alone.
proof fn lemma_mask(noise: Binary64, less: Binary32, more: Binary32)
    requires
        noise.is_finite(),
        less.is_finite(),
        more.is_finite(),
        0 < less.value() <= more.value() < Binary32::one(),
    ensures
        weather::mask_of(noise, less).value() <= weather::mask_of(noise, more).value() + 74
            * crumb(),
{
    let half = Binary64::ratio(1, 2);
    binary64::lemma_ratio_share(1, 2);
    binary64::lemma_mul(noise, half);
    binary64::lemma_half_finite(noise);
    binary64::lemma_add(noise * half, half);
    binary64::lemma_narrow_number(noise * half + half);
    let height = (noise * half + half).to_binary32();
    let o = Binary32::one() as int;
    let c = crumb();
    let one = Binary32::of(1);
    let s = Binary32::ratio(8, 100);
    let (t1, t2) = (one - less, one - more);
    let (low1, high1, low2, high2) = (t1 - s, t1 + s, t2 - s, t2 + s);
    fine::lemma_crumb();
    lemma_softness();
    lemma_edge(less);
    lemma_edge(more);
    binary32::lemma_of(1);
    lemma_left(one, less, more);
    binary32::lemma_negate(s);
    binary32::lemma_add(t1, s.negate());
    binary32::lemma_add(t2, s.negate());
    assert(low1 == t1 + s.negate() && low2 == t2 + s.negate());
    binary32::lemma_round_monotone(t2.value() - s.value(), t1.value() - s.value(), 1);
    lemma_sides(low1, high1, height);
    lemma_sides(low2, high2, height);
    let (r1, r2) = (
        weather::ramp32(low1, high1, height),
        weather::ramp32(low2, high2, height),
    );
    let h = height.value();
    if low1.value() < h < high2.value() {
        binary32::lemma_of(4);
        binary32::lemma_finite_below(height, Binary32::of(4));
        fine::lemma_difference(height, low1);
        fine::lemma_difference(height, low2);
        lemma_left(height, low2, low1);
        lemma_ramp(low1, high1, height);
        lemma_ramp(low2, high2, height);
        lemma_ramps(
            o,
            c,
            (height - low1).value(),
            (high1 - low1).value(),
            r1.value(),
            (height - low2).value(),
            (high2 - low2).value(),
            r2.value(),
        );
    } else {
        weather::lemma_ramp_share(low1, high1, height);
        weather::lemma_ramp_share(low2, high2, height);
    }
    fine::lemma_curve_rises(r1, r2, 40 * c);
}

/// A greater cover takes no cloud away, at no place. Every step of the mask is
/// rounded, so it may still come out lower by what that can do, and by no more:
/// seventy-four parts in two to the twenty-four of full cloud.
pub proof fn a_greater_cover_takes_no_cloud_away(
    seed: u64,
    u: Binary64,
    v: Binary64,
    less: Binary32,
    more: Binary32,
)
    requires
        less.is_finite(),
        more.is_finite(),
        less.value() <= more.value(),
    ensures
        weather::mask_spec(seed, u, v, less).value() * 0x1000000 <= weather::mask_spec(
            seed,
            u,
            v,
            more,
        ).value() * 0x1000000 + 74 * Binary32::one(),
{
    let (zero, one) = (Binary32::of(0), Binary32::of(1));
    fine::lemma_crumb();
    binary32::lemma_of(0);
    binary32::lemma_of(1);
    binary32::lemma_order(less, zero);
    binary32::lemma_order(more, zero);
    binary32::lemma_order(one, less);
    binary32::lemma_order(one, more);
    weather::the_mask_is_a_share(seed, u, v, less);
    weather::the_mask_is_a_share(seed, u, v, more);
    let noise = weather::fractal_spec(seed, u, v);
    if 0 < less.value() && more.value() < Binary32::one() && noise.is_finite() {
        lemma_mask(noise, less, more);
    }
}

} // verus!
