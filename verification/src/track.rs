//! Sums and products followed beside what they would be without rounding.
use crate::binary64;
use crate::binary64::Binary64;
use crate::near;
use crate::norm;
use crate::number;
use crate::rounding::Format;
use vstd::arithmetic::power2::*;
use vstd::prelude::*;

verus! {

/// The number is at most a power of two, and off from an exact count over a
/// scale by one part in two to the digits of that power at most.
pub open spec fn tracked_by(x: Binary64, exact: int, scale: int, power: nat, digits: nat) -> bool {
    &&& x.is_finite()
    &&& number::magnitude_of(x.value()) <= pow2(power)
    &&& scale > 0
    &&& -(pow2(power) * scale) <= pow2(digits) * (x.value() * scale - exact) <= pow2(power) * scale
}

/// A number follows itself.
pub proof fn lemma_itself(x: Binary64, power: nat, digits: nat)
    requires
        x.is_finite(),
        number::magnitude_of(x.value()) <= pow2(power),
    ensures
        tracked_by(x, x.value(), 1, power, digits),
{
    let (v, g) = (x.value(), pow2(digits) as int);
    lemma_pow2_pos(power);
    assert(g * (v * 1 - v) == 0) by (nonlinear_arith);
}

/// What is known with more digits is known with fewer, and with a larger bound.
pub proof fn lemma_looser(
    x: Binary64,
    exact: int,
    scale: int,
    power: nat,
    digits: nat,
    more: nat,
    fewer: nat,
)
    requires
        tracked_by(x, exact, scale, power, digits),
        power <= more,
        fewer <= digits,
    ensures
        tracked_by(x, exact, scale, more, fewer),
{
    if power < more {
        lemma_pow2_strictly_increases(power, more);
    }
    if fewer < digits {
        lemma_pow2_strictly_increases(fewer, digits);
    }
    lemma_pow2_pos(fewer);
    let (p, m, g, f) = (
        pow2(power) as int,
        pow2(more) as int,
        pow2(digits) as int,
        pow2(fewer) as int,
    );
    let e = x.value() * scale - exact;
    assert(p * scale <= m * scale) by (nonlinear_arith)
        requires
            p <= m,
            scale > 0,
    ;
    if e >= 0 {
        assert(0 <= f * e <= g * e) by (nonlinear_arith)
            requires
                0 < f <= g,
                e >= 0,
        ;
    } else {
        assert(g * e <= f * e <= 0) by (nonlinear_arith)
            requires
                0 < f <= g,
                e < 0,
        ;
    }
}

/// A sum follows the sum.
pub proof fn lemma_plus(x: Binary64, y: Binary64, a: int, b: int, scale: int, power: nat, digits: nat)
    requires
        tracked_by(x, a, scale, power, digits),
        tracked_by(y, b, scale, power, digits),
        digits <= 51,
        53 <= power <= 1990,
    ensures
        tracked_by(x + y, a + b, scale, power + 2, digits),
{
    lemma_pow2_adds(power, 1);
    lemma_pow2_adds(power, 2);
    lemma_pow2_adds((power - 51) as nat, 51);
    lemma2_to64();
    lemma2_to64_rest();
    if digits < 51 {
        lemma_pow2_strictly_increases(digits, 51);
    }
    lemma_pow2_pos(digits);
    lemma_pow2_pos((power - 51) as nat);
    near::lemma_sum(x, y, power + 1);
    let (p, u, g) = (pow2(power) as int, pow2((power - 51) as nat) as int, pow2(digits) as int);
    let (v, w, r) = (x.value(), y.value(), (x + y).value());
    let (e, f, h) = (v * scale - a, w * scale - b, r - (v + w));
    assert(g * u <= p) by (nonlinear_arith)
        requires
            0 < g <= 0x8000000000000,
            p == u * 0x8000000000000,
            u > 0,
    ;
    assert(-(g * u) <= g * h <= g * u) by (nonlinear_arith)
        requires
            -u <= h <= u,
            g > 0,
    ;
    let k = g * h;
    assert(-(p * scale) <= k * scale <= p * scale) by (nonlinear_arith)
        requires
            -p <= k <= p,
            scale > 0,
    ;
    assert(g * (r * scale - (a + b)) == k * scale + g * e + g * f) by (nonlinear_arith)
        requires
            k == g * h,
            h == r - (v + w),
            e == v * scale - a,
            f == w * scale - b,
    {
        assert(r * scale - (a + b) == h * scale + e + f) by (nonlinear_arith)
            requires
                h == r - (v + w),
                e == v * scale - a,
                f == w * scale - b,
        ;
        let z = h * scale;
        assert(g * (z + e + f) == g * z + g * e + g * f) by (nonlinear_arith);
        assert(g * (h * scale) == (g * h) * scale) by (nonlinear_arith);
    }
    assert((p * 4) * scale == 4 * (p * scale) && p * scale >= 0) by (nonlinear_arith)
        requires
            p > 0,
            scale > 0,
    ;
}

/// The opposite follows the opposite.
pub proof fn lemma_opposite(x: Binary64, a: int, scale: int, power: nat, digits: nat)
    requires
        tracked_by(x, a, scale, power, digits),
    ensures
        tracked_by(x.negate(), -a, scale, power, digits),
{
    let (v, g) = (x.value(), pow2(digits) as int);
    binary64::lemma_negate(x);
    assert(g * ((-v) * scale - (-a)) == -(g * (v * scale - a))) by (nonlinear_arith);
}

/// A difference follows the difference.
pub proof fn lemma_minus(
    x: Binary64,
    y: Binary64,
    a: int,
    b: int,
    scale: int,
    power: nat,
    digits: nat,
)
    requires
        tracked_by(x, a, scale, power, digits),
        tracked_by(y, b, scale, power, digits),
        digits <= 51,
        53 <= power <= 1990,
    ensures
        tracked_by(x - y, a - b, scale, power + 2, digits),
{
    lemma_opposite(y, b, scale, power, digits);
    lemma_plus(x, y.negate(), a, -b, scale, power, digits);
    assert(x - y == x + y.negate());
}

/// A product follows the product, over both scales and one.
pub proof fn lemma_times(
    x: Binary64,
    y: Binary64,
    a: int,
    b: int,
    scale: int,
    other: int,
    power: nat,
    second: nat,
    digits: nat,
)
    requires
        tracked_by(x, a, scale, power, digits),
        tracked_by(y, b, other, second, digits),
        1 <= digits <= 51,
        1130 <= power + second <= 3000,
    ensures
        tracked_by(
            x * y,
            a * b,
            Binary64::one() * (scale * other),
            (power + second - 1073) as nat,
            (digits - 1) as nat,
        ),
{
    let o = Binary64::one() as int;
    let top = (power + second - 1074) as nat;
    let (v, w) = (x.value(), y.value());
    let (p, q, m) = (pow2(power) as int, pow2(second) as int, pow2(top) as int);
    lemma_pow2_adds(power, second);
    lemma_pow2_adds(top, 1074);
    lemma_pow2_adds(top, 1);
    lemma_pow2_adds((top - 52) as nat, 52);
    lemma_pow2_adds((digits - 1) as nat, 1);
    lemma2_to64();
    lemma2_to64_rest();
    lemma_pow2_pos(1074);
    lemma_pow2_pos((top - 52) as nat);
    lemma_pow2_pos((digits - 1) as nat);
    lemma_pow2_pos(power);
    lemma_pow2_pos(second);
    if digits < 51 {
        lemma_pow2_strictly_increases(digits, 51);
    }
    assert(-(m * o) <= v * w <= m * o) by (nonlinear_arith)
        requires
            -p <= v <= p,
            -q <= w <= q,
            p * q == m * o,
    {
        assert(-(p * q) <= v * w <= p * q) by (nonlinear_arith)
            requires
                -p <= v <= p,
                -q <= w <= q,
        ;
    }
    near::lemma_product(x, y, top);
    let r = (x * y).value();
    let (u, h) = (pow2((top - 52) as nat) as int, pow2((digits - 1) as nat) as int);
    let g = 2 * h;
    assert(pow2(digits) == g);
    let (e, f) = (v * scale - a, w * other - b);
    let (c, d) = (p * scale, q * other);
    lemma_bounds(v, scale, p);
    lemma_bounds(w, other, q);
    lemma_errors(v * scale, w * other, a, b, c, d, g);
    let t = scale * other;
    assert(t > 0) by (nonlinear_arith)
        requires
            scale > 0,
            other > 0,
            t == scale * other,
    ;
    let all = m * (o * t);
    assert(c * d == all) by (nonlinear_arith)
        requires
            c == p * scale,
            d == q * other,
            p * q == m * o,
            t == scale * other,
            all == m * (o * t),
    {
        assert((p * scale) * (q * other) == (p * q) * (scale * other)) by (nonlinear_arith);
        assert((m * o) * t == m * (o * t)) by (nonlinear_arith);
    }
    let z = r * o - v * w;
    assert(-all <= (4 * h) * (z * t) <= all) by (nonlinear_arith)
        requires
            -(u * o) <= z <= u * o,
            0 < 2 * h <= 0x8000000000000,
            m == u * 0x10000000000000,
            u > 0,
            o > 0,
            t > 0,
            all == m * (o * t),
    {
        let y = u * o;
        assert(y > 0) by (nonlinear_arith)
            requires
                y == u * o,
                u > 0,
                o > 0,
        ;
        assert(-(y * t) <= z * t <= y * t) by (nonlinear_arith)
            requires
                -y <= z <= y,
                t > 0,
        ;
        let (k, n) = (z * t, y * t);
        assert(n > 0) by (nonlinear_arith)
            requires
                n == y * t,
                y > 0,
                t > 0,
        ;
        assert(-((4 * h) * n) <= (4 * h) * k <= (4 * h) * n) by (nonlinear_arith)
            requires
                -n <= k <= n,
                h > 0,
        ;
        assert((4 * h) * n <= 0x10000000000000 * n) by (nonlinear_arith)
            requires
                2 * h <= 0x8000000000000,
                n > 0,
        ;
        assert(all == 0x10000000000000 * n) by (nonlinear_arith)
            requires
                all == m * (o * t),
                m == u * 0x10000000000000,
                n == (u * o) * t,
        ;
    }
    let whole = (v * scale) * (w * other) - a * b;
    assert(r * (o * t) - a * b == z * t + whole) by (nonlinear_arith)
        requires
            z == r * o - v * w,
            whole == (v * scale) * (w * other) - a * b,
            t == scale * other,
    {
        assert((v * scale) * (w * other) == (v * w) * (scale * other)) by (nonlinear_arith);
        assert((r * o - v * w) * t == (r * o) * t - (v * w) * t) by (nonlinear_arith);
        assert((r * o) * t == r * (o * t)) by (nonlinear_arith);
    }
    let last = r * (o * t) - a * b;
    let zt = z * t;
    assert(4 * (h * last) == (4 * h) * zt + 2 * (g * whole)) by (nonlinear_arith)
        requires
            last == zt + whole,
            g == 2 * h,
    ;
    assert((m * 2) * (o * t) == 2 * all) by (nonlinear_arith)
        requires
            all == m * (o * t),
    ;
    assert(o * t > 0) by (nonlinear_arith)
        requires
            o > 0,
            t > 0,
    ;
    assert((power + second - 1073) as nat == top + 1);
    assert(pow2(top + 1) * (o * t) == 2 * all);
    assert(-(8 * all) <= 4 * (h * last) <= 8 * all);
    assert(h * ((x * y).value() * (o * t) - a * b) == h * last);
}

proof fn lemma_bounds(v: int, scale: int, p: int)
    requires
        -p <= v <= p,
        scale > 0,
        p > 0,
    ensures
        -(p * scale) <= v * scale <= p * scale,
        p * scale > 0,
{
    assert(-(p * scale) <= v * scale <= p * scale) by (nonlinear_arith)
        requires
            -p <= v <= p,
            scale > 0,
    ;
    assert(p * scale > 0) by (nonlinear_arith)
        requires
            p > 0,
            scale > 0,
    ;
}

/// How far a product of two numbers that are off is off.
proof fn lemma_errors(v: int, w: int, a: int, b: int, c: int, d: int, g: int)
    requires
        c > 0,
        d > 0,
        g >= 1,
        -c <= v <= c,
        -d <= w <= d,
        -c <= g * (v - a) <= c,
        -d <= g * (w - b) <= d,
    ensures
        -(3 * (c * d)) <= g * (v * w - a * b) <= 3 * (c * d),
{
    let (e, f) = (v - a, w - b);
    let (x, y) = (g * e, g * f);
    assert(-(c * d) <= v * y <= c * d) by (nonlinear_arith)
        requires
            -c <= v <= c,
            -d <= y <= d,
    ;
    assert(-(c * d) <= x * w <= c * d) by (nonlinear_arith)
        requires
            -c <= x <= c,
            -d <= w <= d,
    ;
    assert(-d <= f <= d) by (nonlinear_arith)
        requires
            -d <= g * f <= d,
            g >= 1,
            d > 0,
    ;
    assert(-(c * d) <= x * f <= c * d) by (nonlinear_arith)
        requires
            -c <= x <= c,
            -d <= f <= d,
    ;
    assert(v * w - a * b == v * f + e * w - e * f) by (nonlinear_arith)
        requires
            e == v - a,
            f == w - b,
    ;
    let (i, j, k) = (v * f, e * w, e * f);
    assert(g * (i + j - k) == g * i + g * j - g * k) by (nonlinear_arith);
    assert(g * (v * f) == v * (g * f) && g * (e * w) == (g * e) * w && g * (e * f) == (g * e) * f)
        by (nonlinear_arith);
}

/// Twice a number follows twice the count.
pub proof fn lemma_twice(x: Binary64, a: int, scale: int, power: nat, digits: nat)
    requires
        tracked_by(x, a, scale, power, digits),
        1 <= digits <= 51,
        60 <= power <= 1900,
    ensures
        tracked_by(x * Binary64::of(2), 2 * a, scale, power + 2, (digits - 1) as nat),
{
    let o = Binary64::one() as int;
    let two = Binary64::of(2);
    binary64::lemma_of(2);
    lemma_pow2_adds(1074, 1);
    lemma2_to64();
    assert(two.value() == 2 * o);
    lemma_itself(two, 1075, digits);
    lemma_times(x, two, a, 2 * o, scale, 1, power, 1075, digits);
    let (r, h, p) = (
        (x * two).value(),
        pow2((digits - 1) as nat) as int,
        pow2(power + 2) as int,
    );
    assert((power + 1075 - 1073) as nat == power + 2);
    let e = r * scale - 2 * a;
    assert(r * (o * (scale * 1)) - a * (2 * o) == e * o) by (nonlinear_arith)
        requires
            e == r * scale - 2 * a,
    ;
    assert(p * (o * (scale * 1)) == (p * scale) * o) by (nonlinear_arith);
    assert(h * (e * o) == (h * e) * o) by (nonlinear_arith);
    let (x, y) = (h * e, p * scale);
    assert(-y <= x <= y) by (nonlinear_arith)
        requires
            -(y * o) <= x * o <= y * o,
            o > 0,
    ;
}

/// The same over a larger scale.
pub proof fn lemma_rescaled(x: Binary64, a: int, scale: int, times: int, power: nat, digits: nat)
    requires
        tracked_by(x, a, scale, power, digits),
        times > 0,
    ensures
        tracked_by(x, a * times, scale * times, power, digits),
{
    let (v, m, g) = (x.value(), pow2(power) as int, pow2(digits) as int);
    let e = v * scale - a;
    assert(scale * times > 0) by (nonlinear_arith)
        requires
            scale > 0,
            times > 0,
    ;
    assert(v * (scale * times) - a * times == e * times) by (nonlinear_arith)
        requires
            e == v * scale - a,
    ;
    assert(g * (e * times) == (g * e) * times) by (nonlinear_arith);
    assert(m * (scale * times) == (m * scale) * times) by (nonlinear_arith);
    assert(-((m * scale) * times) <= (g * e) * times <= (m * scale) * times) by (nonlinear_arith)
        requires
            -(m * scale) <= g * e <= m * scale,
            times > 0,
    ;
}

/// A share follows the share.
pub proof fn lemma_share(n: u64, d: u64)
    requires
        0 < n <= d,
    ensures
        tracked_by(Binary64::ratio(n, d), n * Binary64::one(), d as int, 1074, 51),
{
    let o = Binary64::one() as int;
    let no = n as nat * Binary64::one();
    let r = Binary64::ratio(n, d).value();
    binary64::lemma_ratio_share(n, d);
    binary64::lemma_ratio_value(n, d);
    lemma2_to64();
    lemma2_to64_rest();
    lemma_pow2_strictly_increases(53, 1074);
    lemma_pow2_strictly_increases(1074, 2097);
    assert(no <= d * o) by (nonlinear_arith)
        requires
            no == n * o,
            n <= d,
            o > 0,
    ;
    assert(no < d as nat * pow2(2097)) by (nonlinear_arith)
        requires
            no <= d * o,
            o < pow2(2097),
            d > 0,
    ;
    assert(no >= 0);
    norm::lemma_rounding(no, d as nat);
    assert(0x20000000000000 * d <= d * o) by (nonlinear_arith)
        requires
            0x20000000000000 <= o,
            d > 0,
    ;
    assert(o * d == d * o) by (nonlinear_arith);
}

/// A quotient follows the quotient: the count is over the divisor too.
pub proof fn lemma_over(x: Binary64, d: Binary64, a: int, scale: int, power: nat, top: nat, digits: nat)
    requires
        tracked_by(x, a, scale, power, digits),
        d.is_finite(),
        d.value() > 0,
        1 <= digits <= 51,
        60 <= top <= 2000,
        2 * (pow2(power) * Binary64::one()) <= pow2(top) * d.value(),
    ensures
        tracked_by(x / d, a * Binary64::one(), scale * d.value(), top, (digits - 1) as nat),
{
    let o = Binary64::one() as int;
    let (v, e) = (x.value(), d.value());
    let (p, m, h) = (pow2(power) as int, pow2(top) as int, pow2((digits - 1) as nat) as int);
    let n = number::magnitude_of(v * o);
    lemma_pow2_pos(1074);
    lemma_pow2_pos(power);
    lemma_pow2_pos((digits - 1) as nat);
    lemma2_to64();
    lemma2_to64_rest();
    lemma_pow2_adds((digits - 1) as nat, 1);
    lemma_pow2_strictly_increases(59, top);
    lemma_pow2_strictly_increases(top, 2097);
    lemma_pow2_strictly_increases(top, 2098);
    if digits < 51 {
        lemma_pow2_strictly_increases(digits, 51);
    }
    binary64::lemma_div(x, d);
    assert(-(p * o) <= v * o <= p * o) by (nonlinear_arith)
        requires
            -p <= v <= p,
            o > 0,
    ;
    assert(n < e * pow2(2097)) by (nonlinear_arith)
        requires
            n <= p * o,
            2 * (p * o) <= m * e,
            m < pow2(2097),
            e > 0,
            p > 0,
            o > 0,
    {
        assert(m * e < pow2(2097) * e) by (nonlinear_arith)
            requires
                m < pow2(2097),
                e > 0,
        ;
        assert(p * o > 0) by (nonlinear_arith)
            requires
                p > 0,
                o > 0,
        ;
    }
    norm::lemma_rounding(n, e as nat);
    let r = Format::Double.round(n, e as nat) as int;
    let y = (x / d).value();
    let f = y * e - v * o;
    assert(-(m * e + 0x40000000000000 * e) <= 0x40000000000000 * f <= m * e + 0x40000000000000 * e)
        by {
        let re = r * e;
        if v * o < 0 {
            assert(y * e == -(r * e)) by (nonlinear_arith)
                requires
                    y == -r,
            ;
        }
    }
    assert(-m <= y <= m) by (nonlinear_arith)
        requires
            -(m * e + 0x40000000000000 * e) <= 0x40000000000000 * (y * e - v * o) <= m * e
                + 0x40000000000000 * e,
            -(p * o) <= v * o <= p * o,
            2 * (p * o) <= m * e,
            e > 0,
            m >= 0x400000000000000,
    {
        let (ye, me) = (y * e, m * e);
        assert(0x400000000000000 * e <= me) by (nonlinear_arith)
            requires
                me == m * e,
                m >= 0x400000000000000,
                e > 0,
        ;
        assert(-me <= ye <= me);
        assert(-m <= y <= m) by (nonlinear_arith)
            requires
                -(m * e) <= y * e <= m * e,
                e > 0,
        ;
    }
    norm::lemma_finite(x / d);
    let g = v * scale - a;
    let se = scale * e;
    assert(se > 0) by (nonlinear_arith)
        requires
            se == scale * e,
            scale > 0,
            e > 0,
    ;
    assert(y * se - a * o == scale * f + o * g) by (nonlinear_arith)
        requires
            f == y * e - v * o,
            g == v * scale - a,
            se == scale * e,
    {
        assert(y * (scale * e) == scale * (y * e)) by (nonlinear_arith);
        let (b, c) = (y * e, v * o);
        assert(scale * (b - c) == scale * b - scale * c) by (nonlinear_arith);
        assert(scale * (v * o) == o * (v * scale)) by (nonlinear_arith);
        let k = v * scale;
        assert(o * (k - a) == o * k - o * a) by (nonlinear_arith);
        assert(o * a == a * o) by (nonlinear_arith);
    }
    lemma_quotient_errors(f, g, h, m, e, p, o, scale);
}

proof fn lemma_quotient_errors(f: int, g: int, h: int, m: int, e: int, p: int, o: int, scale: int)
    requires
        0 < 2 * h <= 0x8000000000000,
        e > 0,
        o > 0,
        p > 0,
        scale > 0,
        m >= 0x400000000000000,
        2 * (p * o) <= m * e,
        -(m * e + 0x40000000000000 * e) <= 0x40000000000000 * f <= m * e + 0x40000000000000 * e,
        -(p * scale) <= (2 * h) * g <= p * scale,
    ensures
        -(m * (scale * e)) <= h * (scale * f + o * g) <= m * (scale * e),
{
    let me = m * e;
    assert(0x400000000000000 * e <= me) by (nonlinear_arith)
        requires
            me == m * e,
            m >= 0x400000000000000,
            e > 0,
    ;
    let b = me + 0x40000000000000 * e;
    assert(-(h * b) <= 0x40000000000000 * (h * f) <= h * b) by (nonlinear_arith)
        requires
            -b <= 0x40000000000000 * f <= b,
            h > 0,
    ;
    assert(h * b <= 0x4000000000000 * b) by (nonlinear_arith)
        requires
            2 * h <= 0x8000000000000,
            b > 0,
    ;
    let hf = h * f;
    assert(-me <= 4 * hf <= me);
    let smf = scale * me;
    assert(-smf <= 4 * (scale * hf) <= smf) by (nonlinear_arith)
        requires
            -me <= 4 * hf <= me,
            smf == scale * me,
            scale > 0,
    ;
    assert(h * (scale * f) == scale * (h * f)) by (nonlinear_arith);
    let q = (2 * h) * g;
    assert(-((p * scale) * o) <= q * o <= (p * scale) * o) by (nonlinear_arith)
        requires
            -(p * scale) <= q <= p * scale,
            o > 0,
    ;
    assert(2 * ((p * scale) * o) <= smf) by (nonlinear_arith)
        requires
            2 * (p * o) <= me,
            smf == scale * me,
            scale > 0,
    {
        let po = p * o;
        assert((p * scale) * o == scale * (p * o)) by (nonlinear_arith);
        assert(scale * (2 * po) <= scale * me) by (nonlinear_arith)
            requires
                2 * po <= me,
                scale > 0,
        ;
        assert(scale * (2 * po) == 2 * (scale * po)) by (nonlinear_arith);
    }
    let og = o * g;
    assert(q * o == 2 * (h * og)) by (nonlinear_arith)
        requires
            q == (2 * h) * g,
            og == o * g,
    ;
    let sf = scale * f;
    assert(h * (sf + og) == h * sf + h * og) by (nonlinear_arith);
    assert(m * (scale * e) == smf) by (nonlinear_arith)
        requires
            smf == scale * me,
            me == m * e,
    ;
}

} // verus!
