//! Bringing vectors to length one or down to a limit: how near the length comes
//! when every step is rounded.
use crate::binary64;
use crate::binary64::Binary64;
use crate::exact;
use crate::number;
use crate::root;
use crate::rotation::DVec4;
use crate::rounding;
use crate::rounding::Format;
use crate::vector::DVec3;
use vstd::arithmetic::div_mod::*;
use vstd::arithmetic::power2::*;
use vstd::prelude::*;

verus! {

/// What the shares below are counted in.
spec fn grain() -> int {
    0x4000000000000
}

/// The first number is the second but for `k` parts in two to the fifty.
spec fn near(x: int, y: int, k: int) -> bool {
    &&& 0 <= y
    &&& 0 <= k <= 1000
    &&& y * (grain() - k) <= x * grain() <= y * (grain() + k)
}

/// Numbers this close are near.
proof fn lemma_near(x: int, y: int, k: int)
    requires
        0 <= y,
        0 <= k <= 1000,
        (x - y) * grain() <= k * y,
        (y - x) * grain() <= k * y,
    ensures
        near(x, y, k),
{
    let g = grain();
    assert(y * (g - k) == y * g - k * y && y * (g + k) == y * g + k * y) by (nonlinear_arith);
    assert((x - y) * g == x * g - y * g && (y - x) * g == y * g - x * g) by (nonlinear_arith);
}

proof fn lemma_near_sign(x: int, y: int, k: int)
    requires
        near(x, y, k),
    ensures
        0 <= x <= 2 * y,
        y <= 2 * x,
{
    let g = grain();
    assert(0 <= x <= 2 * y && y <= 2 * x) by (nonlinear_arith)
        requires
            y * (g - k) <= x * g <= y * (g + k),
            0 <= y,
            0 <= k <= 1000,
            g == 0x4000000000000,
    ;
}

/// A factor on both sides changes nothing.
proof fn lemma_near_scale(x: int, y: int, k: int, w: int)
    requires
        near(x, y, k),
        w >= 0,
    ensures
        near(x * w, y * w, k),
{
    let g = grain();
    let (low, mid, high) = (y * (g - k), x * g, y * (g + k));
    assert(low * w <= mid * w <= high * w && 0 <= y * w) by (nonlinear_arith)
        requires
            low <= mid <= high,
            w >= 0,
            y >= 0,
    ;
    assert((y * w) * (g - k) == (y * (g - k)) * w) by (nonlinear_arith);
    assert((y * w) * (g + k) == (y * (g + k)) * w) by (nonlinear_arith);
    assert((x * w) * g == (x * g) * w) by (nonlinear_arith);
}

/// What is near to what is near is near.
proof fn lemma_near_trans(x: int, y: int, z: int, k: int, l: int)
    requires
        near(x, y, k),
        near(y, z, l),
        k + l <= 900,
    ensures
        near(x, z, k + l + 1),
{
    let g = grain();
    let m = k + l + 1;
    assert(x * g * g <= z * ((g + l) * (g + k))) by (nonlinear_arith)
        requires
            x * g <= y * (g + k),
            y * g <= z * (g + l),
            g > 0,
            k >= 0,
    {
        assert(x * g * g <= y * (g + k) * g);
        assert(y * (g + k) * g == (y * g) * (g + k));
        assert((y * g) * (g + k) <= z * (g + l) * (g + k));
        assert(z * (g + l) * (g + k) == z * ((g + l) * (g + k)));
    }
    assert(z * ((g - l) * (g - k)) <= x * g * g) by (nonlinear_arith)
        requires
            y * (g - k) <= x * g,
            z * (g - l) <= y * g,
            g > 0,
            0 <= k < g,
    {
        assert(y * (g - k) * g <= x * g * g);
        assert(y * (g - k) * g == (y * g) * (g - k));
        assert(z * (g - l) * (g - k) <= (y * g) * (g - k));
        assert(z * (g - l) * (g - k) == z * ((g - l) * (g - k)));
    }
    lemma_grains(k, l);
    let (up, down) = ((g + l) * (g + k), (g - l) * (g - k));
    assert(z * up <= z * (g * (g + m)) && z * (g * (g - m)) <= z * down) by (nonlinear_arith)
        requires
            up <= g * (g + m),
            g * (g - m) <= down,
            z >= 0,
    ;
    assert(x * g <= z * (g + m)) by (nonlinear_arith)
        requires
            x * g * g <= z * (g * (g + m)),
            g == 0x4000000000000,
    ;
    assert(z * (g - m) <= x * g) by (nonlinear_arith)
        requires
            z * (g * (g - m)) <= x * g * g,
            g == 0x4000000000000,
    ;
}

proof fn lemma_grains(k: int, l: int)
    requires
        0 <= k,
        0 <= l,
        k + l <= 900,
    ensures
        ({
            let g = grain();
            &&& (g + l) * (g + k) <= g * (g + (k + l + 1))
            &&& g * (g - (k + l + 1)) <= (g - l) * (g - k)
        }),
{
    let g = grain();
    assert(0 <= k * l <= 900 * 900) by (nonlinear_arith)
        requires
            0 <= k <= 900,
            0 <= l <= 900,
    ;
    assert((g + l) * (g + k) == g * g + g * (k + l) + k * l) by (nonlinear_arith);
    assert((g - l) * (g - k) == g * g - g * (k + l) + k * l) by (nonlinear_arith);
    assert(g * (g + (k + l + 1)) == g * g + g * (k + l) + g) by (nonlinear_arith);
    assert(g * (g - (k + l + 1)) == g * g - g * (k + l) - g) by (nonlinear_arith);
}

/// Products of what is near are near.
proof fn lemma_near_product(x: int, y: int, k: int, u: int, v: int, l: int)
    requires
        near(x, y, k),
        near(u, v, l),
        k + l <= 900,
    ensures
        near(x * u, y * v, k + l + 1),
{
    lemma_near_sign(x, y, k);
    lemma_near_sign(u, v, l);
    lemma_near_scale(x, y, k, u);
    lemma_near_scale(u, v, l, y);
    assert(u * y == y * u && v * y == y * v) by (nonlinear_arith);
    lemma_near_trans(x * u, y * u, y * v, k, l);
}

/// Being near goes both ways.
proof fn lemma_near_flip(x: int, y: int, k: int)
    requires
        near(x, y, k),
        k <= 900,
    ensures
        near(y, x, k + 1),
{
    let g = grain();
    lemma_near_sign(x, y, k);
    assert(k * k <= 900 * 900) by (nonlinear_arith)
        requires
            0 <= k <= 900,
    ;
    assert((g - k) * (g + k + 1) == g * g + g - k * k - k) by (nonlinear_arith);
    assert((g + k) * (g - k - 1) == g * g - g - k * k - k) by (nonlinear_arith);
    let (a, b) = (g - k, g + k);
    assert(y * g <= x * (g + (k + 1))) by (nonlinear_arith)
        requires
            y * a <= x * g,
            g * g <= a * (g + k + 1),
            a > 0,
            g > 0,
            y >= 0,
            x >= 0,
    {
        assert((y * g) * a <= (x * g) * g);
        assert((x * g) * g == x * (g * g));
        assert(x * (g * g) <= x * (a * (g + k + 1)));
        assert(x * (a * (g + k + 1)) == (x * (g + k + 1)) * a);
    }
    assert(x * (g - (k + 1)) <= y * g) by (nonlinear_arith)
        requires
            x * g <= y * b,
            b * (g - k - 1) <= g * g,
            b > 0,
            g - k - 1 > 0,
            g > 0,
            y >= 0,
            x >= 0,
    {
        assert((x * g) * (g - k - 1) <= (y * b) * (g - k - 1));
        assert((y * b) * (g - k - 1) == y * (b * (g - k - 1)));
        assert(y * (b * (g - k - 1)) <= y * (g * g));
        assert((x * (g - k - 1)) * g <= (y * g) * g);
    }
}

/// Rounding moves a number by half a part in two to the fifty-three, or by
/// half the smallest number.
pub proof fn lemma_rounding(n: nat, d: nat)
    requires
        d > 0,
        n < d * pow2(2097),
    ensures
        0x20000000000000 * (Format::Double.round(n, d) * d - n) <= n + 0x20000000000000 * d,
        0x20000000000000 * (n - Format::Double.round(n, d) * d) <= n + 0x20000000000000 * d,
{
    let f = Format::Double;
    let whole = n / d;
    lemma2_to64();
    lemma2_to64_rest();
    lemma_fundamental_div_mod(n as int, d as int);
    assert(whole < pow2(2097)) by (nonlinear_arith)
        requires
            n == d * whole + n % d,
            n % d >= 0,
            n < d * pow2(2097),
            d > 0,
    ;
    let length = rounding::bit_length(whole);
    rounding::lemma_bit_length_upper(whole, 2097);
    let e = f.round(n, d) * d;
    if length <= 53 {
        if length < 53 {
            lemma_pow2_strictly_increases(length, 53);
        }
        if whole > 0 {
            rounding::lemma_bit_length(whole);
        }
        assert(n < d * pow2(53)) by (nonlinear_arith)
            requires
                n == d * whole + n % d,
                n % d < d,
                whole + 1 <= pow2(53),
                d > 0,
        ;
        rounding::lemma_round_error(f, n, d, 53);
        assert(d * pow2(0) == d);
    } else {
        rounding::lemma_bit_length(whole);
        assert(n < d * pow2(length)) by (nonlinear_arith)
            requires
                n == d * whole + n % d,
                n % d < d,
                whole + 1 <= pow2(length),
                d > 0,
        ;
        rounding::lemma_round_error(f, n, d, length);
        lemma_pow2_adds((length - 53) as nat, 52);
        let step = d * pow2((length - 53) as nat);
        assert(step * 0x10000000000000 <= n) by (nonlinear_arith)
            requires
                step == d * pow2((length - 53) as nat),
                pow2((length - 53) as nat) * 0x10000000000000 <= whole,
                n == d * whole + n % d,
                n % d >= 0,
                d > 0,
        ;
    }
}

/// A number with a value below infinity's is finite.
pub proof fn lemma_finite(x: Binary64)
    requires
        !x.is_nan(),
        number::magnitude_of(x.value()) < pow2(2098),
    ensures
        x.is_finite(),
{
    reveal(Binary64::spec_is_nan);
    reveal(Binary64::spec_is_finite);
    let f = Format::Double;
    number::lemma_constants(f);
    rounding::lemma_decode_packs(f, 2046, f.lead());
    lemma_pow2_adds(52, 2046);
    rounding::lemma_decode_monotone(f, x.number().bits as nat, f.infinity_bits());
}

/// A square, and what rounding does to it.
proof fn lemma_square(a: Binary64)
    requires
        a.is_finite(),
        number::magnitude_of(a.value()) <= pow2(1574),
    ensures
        (a * a).is_finite(),
        0 <= (a * a).value() <= pow2(2075),
        0x20000000000000 * ((a * a).value() * Binary64::one() - a.value() * a.value()) <= a.value()
            * a.value() + 0x20000000000000 * Binary64::one(),
        0x20000000000000 * (a.value() * a.value() - (a * a).value() * Binary64::one()) <= a.value()
            * a.value() + 0x20000000000000 * Binary64::one(),
{
    let one = Binary64::one();
    let v = a.value();
    let m = number::magnitude_of(v);
    let f = Format::Double;
    lemma_pow2_pos(1574);
    lemma_pow2_adds(1574, 1574);
    lemma_pow2_adds(1074, 2074);
    lemma_pow2_adds(2, 2072);
    lemma_pow2_pos(2072);
    lemma_pow2_adds(2074, 1);
    lemma_pow2_adds(2075, 22);
    lemma_pow2_adds(2097, 1);
    lemma_pow2_pos(1074);
    lemma_pow2_pos(2074);
    lemma2_to64();
    assert(0 <= v * v <= pow2(1574) * pow2(1574)) by (nonlinear_arith)
        requires
            m == v || m == -v,
            0 <= m <= pow2(1574),
    ;
    assert(one * pow2(2074) < one * pow2(2097)) by (nonlinear_arith)
        requires
            0 < pow2(2074) < pow2(2097),
            one > 0,
    ;
    binary64::lemma_mul(a, a);
    let n = (v * v) as nat;
    lemma_rounding(n, one);
    let r = f.round(n, one);
    assert(r <= 2 * pow2(2074)) by (nonlinear_arith)
        requires
            0x20000000000000 * (r * one - n) <= n + 0x20000000000000 * one,
            n <= one * pow2(2074),
            pow2(2074) >= 4,
            one > 0,
    {
        assert(0x20000000000000 * (r * one) <= 0x20000000000001 * (one * pow2(2074))
            + 0x20000000000000 * one);
        assert(0x20000000000001 * (one * pow2(2074)) + 0x20000000000000 * one <= 0x20000000000000 * (
        2 * (one * pow2(2074)))) by (nonlinear_arith)
            requires
                pow2(2074) >= 4,
                one > 0,
        ;
        assert(r * one <= (2 * pow2(2074)) * one);
    }
    lemma_finite(a * a);
}

/// A sum of numbers not below zero, and what rounding does to it.
proof fn lemma_plus(a: Binary64, b: Binary64)
    requires
        a.is_finite(),
        b.is_finite(),
        a.value() >= 0,
        b.value() >= 0,
        a.value() + b.value() <= pow2(2096),
    ensures
        (a + b).is_finite(),
        (a + b).value() >= 0,
        0x20000000000000 * ((a + b).value() - (a.value() + b.value())) <= a.value() + b.value()
            + 0x20000000000000,
        0x20000000000000 * ((a.value() + b.value()) - (a + b).value()) <= a.value() + b.value()
            + 0x20000000000000,
{
    let t = (a.value() + b.value()) as nat;
    lemma_pow2_adds(2096, 1);
    lemma_pow2_adds(2097, 1);
    lemma_pow2_adds(64, 2032);
    lemma_pow2_pos(2032);
    lemma2_to64();
    assert(pow2(2096) >= 0x10000000000000000) by (nonlinear_arith)
        requires
            pow2(2096) == 0x10000000000000000 * pow2(2032),
            pow2(2032) > 0,
    ;
    binary64::lemma_add(a, b);
    lemma_rounding(t, 1);
    lemma_finite(a + b);
}

/// Four numbers whose squares neither overflow nor vanish: none is too large
/// and one at least is not too small.
pub open spec fn ordinary(v: DVec4) -> bool {
    &&& v.is_finite()
    &&& number::magnitude_of(v.x.value()) <= pow2(1574)
    &&& number::magnitude_of(v.y.value()) <= pow2(1574)
    &&& number::magnitude_of(v.z.value()) <= pow2(1574)
    &&& number::magnitude_of(v.w.value()) <= pow2(1574)
    &&& {
        ||| number::magnitude_of(v.x.value()) >= pow2(574)
        ||| number::magnitude_of(v.y.value()) >= pow2(574)
        ||| number::magnitude_of(v.z.value()) >= pow2(574)
        ||| number::magnitude_of(v.w.value()) >= pow2(574)
    }
}

/// The square of the length, without rounding.
pub open spec fn length_squared(v: DVec4) -> int {
    v.x.value() * v.x.value() + v.y.value() * v.y.value() + v.z.value() * v.z.value()
        + v.w.value() * v.w.value()
}

/// The bounds of the square of the length.
proof fn lemma_length_bounds(v: DVec4)
    requires
        ordinary(v),
    ensures
        pow2(1148) <= length_squared(v) <= pow2(3150),
{
    lemma_pow2_adds(574, 574);
    lemma_pow2_adds(1574, 1574);
    lemma_pow2_adds(3148, 2);
    lemma2_to64();
    lemma_square_bounds(v.x.value());
    lemma_square_bounds(v.y.value());
    lemma_square_bounds(v.z.value());
    lemma_square_bounds(v.w.value());
}

proof fn lemma_square_bounds(n: int)
    requires
        number::magnitude_of(n) <= pow2(1574),
    ensures
        0 <= n * n <= pow2(1574) * pow2(1574),
        number::magnitude_of(n) >= pow2(574) ==> n * n >= pow2(574) * pow2(574),
{
    let m = number::magnitude_of(n);
    assert(n * n == m * m) by (nonlinear_arith)
        requires
            m == n || m == -n,
    ;
    assert(0 <= m * m <= pow2(1574) * pow2(1574)) by (nonlinear_arith)
        requires
            0 <= m <= pow2(1574),
    ;
    if m >= pow2(574) {
        assert(m * m >= pow2(574) * pow2(574)) by (nonlinear_arith)
            requires
                m >= pow2(574),
        ;
    }
}

/// The sum of the squares as it is computed.
proof fn lemma_dot(v: DVec4)
    requires
        ordinary(v),
    ensures
        v.dot(v).is_finite(),
        pow2(72) <= v.dot(v).value() <= pow2(2078),
        near(v.dot(v).value() * Binary64::one(), length_squared(v), 3),
{
    let one = Binary64::one() as int;
    let whole = length_squared(v);
    lemma_length_bounds(v);
    lemma_square(v.x);
    lemma_square(v.y);
    lemma_square(v.z);
    lemma_square(v.w);
    let (p1, p2, p3, p4) = (v.x * v.x, v.y * v.y, v.z * v.z, v.w * v.w);
    let p = p1.value() + p2.value() + p3.value() + p4.value();
    lemma_pow2_adds(1074, 74);
    lemma_pow2_adds(57, 17);
    lemma_pow2_adds(72, 2);
    lemma_pow2_adds(72, 1);
    lemma_pow2_adds(60, 12);
    lemma_pow2_adds(60, 13);
    lemma_pow2_adds(2075, 2);
    lemma_pow2_adds(2077, 1);
    lemma_pow2_adds(2078, 18);
    lemma_pow2_pos(2075);
    lemma_pow2_pos(1074);
    lemma2_to64();
    lemma2_to64_rest();
    assert(p * one == p1.value() * one + p2.value() * one + p3.value() * one + p4.value() * one)
        by (nonlinear_arith)
        requires
            p == p1.value() + p2.value() + p3.value() + p4.value(),
    ;
    assert(whole >= one * 0x200000000000000) by (nonlinear_arith)
        requires
            whole >= one * pow2(74),
            pow2(74) == 0x200000000000000 * pow2(17),
            pow2(17) >= 1,
            one > 0,
    ;
    assert((p * one - whole) * 0x4000000000000 <= whole && (whole - p * one) * 0x4000000000000
        <= whole);
    lemma_near(p * one, whole, 1);
    lemma_near_sign(p * one, whole, 1);
    assert(p >= pow2(73)) by (nonlinear_arith)
        requires
            2 * (p * one) >= one * pow2(74),
            pow2(74) == 2 * pow2(73),
            one > 0,
    ;
    lemma_plus(p1, p2);
    lemma_plus(p1 + p2, p3);
    lemma_plus((p1 + p2) + p3, p4);
    let s = v.dot(v).value();
    assert((s - p) * 0x4000000000000 <= p && (p - s) * 0x4000000000000 <= p);
    lemma_near(s, p, 1);
    lemma_near_sign(s, p, 1);
    lemma_near_scale(s, p, 1, one);
    lemma_near_trans(s * one, p * one, whole, 1, 1);
}

/// The root of a sum of squares, and its square.
proof fn lemma_root(s: Binary64)
    requires
        s.is_finite(),
        pow2(72) <= s.value() <= pow2(2078),
    ensures
        s.sqrt().is_finite(),
        0 < s.sqrt().value() <= pow2(1578),
        near(s.sqrt().value() * s.sqrt().value(), s.value() * Binary64::one(), 5),
{
    let one = Binary64::one() as int;
    let f = Format::Double;
    lemma_pow2_pos(1074);
    lemma_pow2_pos(72);
    lemma_pow2_adds(72, 1074);
    lemma_pow2_adds(573, 573);
    lemma_pow2_adds(2078, 1074);
    lemma_pow2_adds(1577, 1577);
    lemma_pow2_adds(3152, 2);
    lemma_pow2_adds(1577, 1);
    lemma_pow2_adds(1578, 519);
    lemma_pow2_adds(60, 513);
    lemma_pow2_pos(513);
    lemma_pow2_pos(3152);
    lemma_pow2_pos(1577);
    lemma_pow2_pos(519);
    lemma2_to64();
    lemma2_to64_rest();
    let w = s.value() * one;
    assert(pow2(72) * one <= w <= pow2(2078) * one) by (nonlinear_arith)
        requires
            pow2(72) <= s.value() <= pow2(2078),
            w == s.value() * one,
            one > 0,
    ;
    binary64::lemma_sqrt(s);
    root::lemma_whole_root(w as nat);
    let q = root::whole_root(w as nat) as int;
    let n = root::root_numerator(w as nat);
    assert(q >= 0x100000000000000) by (nonlinear_arith)
        requires
            pow2(573) * pow2(573) < (q + 1) * (q + 1),
            pow2(573) == 0x1000000000000000 * pow2(513),
            pow2(513) > 0,
            q >= 0,
    {
        if q + 1 <= pow2(573) {
            assert((q + 1) * (q + 1) <= pow2(573) * pow2(573)) by (nonlinear_arith)
                requires
                    0 <= q + 1 <= pow2(573),
            ;
        }
    }
    assert(q < pow2(1577)) by (nonlinear_arith)
        requires
            q * q < pow2(1577) * pow2(1577),
            q >= 0,
    ;
    assert(n == 2 * q || n == 2 * q + 1);
    lemma_pow2_strictly_increases(1578, 2097);
    lemma_rounding(n, 2);
    let r = s.sqrt().value();
    lemma_pow2_adds(2097, 1);
    lemma_finite(s.sqrt());
    assert((r - q) * 0x4000000000000 <= q && (q - r) * 0x4000000000000 <= q);
    lemma_near(r, q, 1);
    lemma_near_sign(r, q, 1);
    lemma_near_product(r, q, 1, r, q, 1);
    assert((w - q * q) * 0x4000000000000 <= w && q * q <= w) by (nonlinear_arith)
        requires
            q * q <= w < (q + 1) * (q + 1),
            q >= 0x100000000000000,
    ;
    lemma_near(q * q, w, 1);
    lemma_near_trans(r * r, q * q, w, 3, 1);
}

/// A limit over a length, which brings the length down to the limit.
proof fn lemma_share_of_length(limit: Binary64, r: Binary64)
    requires
        limit.is_finite(),
        pow2(600) <= limit.value() <= Binary64::one(),
        r.is_finite(),
        pow2(560) <= r.value() <= pow2(1578),
    ensures
        (limit / r).is_finite(),
        (limit / r).value() >= 0,
        near((limit / r).value() * r.value(), limit.value() * Binary64::one(), 1),
{
    let one = Binary64::one() as int;
    let (n, d) = (limit.value(), r.value());
    let k = limit / r;
    let whole = n * one;
    lemma_pow2_pos(560);
    lemma_pow2_pos(600);
    binary64::lemma_div(limit, r);
    lemma_pow2_pos(1074);
    lemma_pow2_adds(1074, 1074);
    lemma_pow2_adds(560, 1588);
    lemma_pow2_adds(600, 1074);
    lemma_pow2_adds(1578, 96);
    lemma_pow2_adds(64, 32);
    lemma_pow2_adds(1588, 1);
    lemma_pow2_pos(1578);
    lemma_pow2_pos(1588);
    lemma_pow2_strictly_increases(1588, 2097);
    lemma_pow2_strictly_increases(1589, 2098);
    lemma2_to64();
    assert(pow2(600) * one <= whole <= one * one && 0 < whole) by (nonlinear_arith)
        requires
            0 < pow2(600) <= n <= one,
            whole == n * one,
            one > 0,
    ;
    assert(whole < d * pow2(2097)) by (nonlinear_arith)
        requires
            whole <= pow2(560) * pow2(1588),
            pow2(560) <= d,
            0 < pow2(1588) < pow2(2097),
            pow2(560) > 0,
    {
        assert(pow2(560) * pow2(1588) < pow2(560) * pow2(2097)) by (nonlinear_arith)
            requires
                0 < pow2(1588) < pow2(2097),
                pow2(560) > 0,
        ;
        assert(pow2(560) * pow2(2097) <= d * pow2(2097)) by (nonlinear_arith)
            requires
                pow2(560) <= d,
                pow2(2097) > 0,
        ;
    }
    lemma_rounding(whole as nat, d as nat);
    let x = k.value();
    assert(0x20000000000000 * d <= whole) by (nonlinear_arith)
        requires
            d <= pow2(1578),
            whole >= pow2(1578) * pow2(96),
            pow2(96) == 0x10000000000000000 * 0x100000000,
            pow2(1578) > 0,
    ;
    assert((x * d - whole) * 0x4000000000000 <= whole && (whole - x * d) * 0x4000000000000
        <= whole);
    lemma_near(x * d, whole, 1);
    lemma_near_sign(x * d, whole, 1);
    assert(x <= 2 * pow2(1588)) by (nonlinear_arith)
        requires
            x * d <= 2 * (pow2(560) * pow2(1588)),
            pow2(560) <= d,
            pow2(560) > 0,
            pow2(1588) > 0,
    {
        if x > 2 * pow2(1588) {
            assert(x * d > 2 * pow2(1588) * d) by (nonlinear_arith)
                requires
                    x > 2 * pow2(1588),
                    d > 0,
            ;
            assert(2 * pow2(1588) * d >= 2 * (pow2(560) * pow2(1588))) by (nonlinear_arith)
                requires
                    d >= pow2(560),
                    pow2(1588) > 0,
            ;
        }
    }
    lemma_finite(k);
}

/// A product of numbers around one: how far its square is off.
pub proof fn lemma_component(a: Binary64, k: Binary64)
    requires
        a.is_finite(),
        k.is_finite(),
        (a.value() * k.value()) * (a.value() * k.value()) <= 2 * ((Binary64::one()
            * Binary64::one()) * (Binary64::one() * Binary64::one())),
    ensures
        (a * k).is_finite(),
        ({
            let one = Binary64::one() as int;
            let unit = (one * one) * (one * one);
            let c = (a * k).value();
            let w = a.value() * k.value();
            let off = (c * c) * (one * one) - w * w;
            -15 * unit <= off * 0x20000000000000 <= 15 * unit
        }),
{
    let one = Binary64::one() as int;
    let square = one * one;
    let c = (a * k).value();
    let w = a.value() * k.value();
    let m = number::magnitude_of(w) as int;
    lemma_pow2_pos(1074);
    lemma_pow2_adds(64, 1010);
    lemma_pow2_pos(1010);
    lemma_pow2_adds(1074, 1023);
    lemma_pow2_adds(1074, 1024);
    lemma_pow2_adds(1075, 1022);
    lemma_pow2_adds(1, 1074);
    lemma_pow2_adds(1, 1021);
    lemma_pow2_adds(2, 1022);
    lemma_pow2_pos(1021);
    lemma_pow2_pos(1022);
    lemma2_to64();
    lemma2_to64_rest();
    assert(m * m == w * w) by (nonlinear_arith)
        requires
            m == w || m == -w,
    ;
    assert(m <= 2 * square) by (nonlinear_arith)
        requires
            m * m <= 2 * (square * square),
            m >= 0,
            square >= 0,
    ;
    assert(square >= 0x20000000000000 * one && square > 0) by (nonlinear_arith)
        requires
            square == one * one,
            one == 0x10000000000000000 * pow2(1010),
            pow2(1010) > 0,
    ;
    binary64::lemma_mul(a, k);
    assert(m < one * pow2(2097)) by (nonlinear_arith)
        requires
            m <= 2 * (one * one),
            pow2(2097) == (2 * one) * pow2(1022),
            pow2(1022) >= 2,
            one > 0,
    {
        assert(pow2(2097) > 2 * one) by (nonlinear_arith)
            requires
                pow2(2097) == (2 * one) * pow2(1022),
                pow2(1022) >= 2,
                one > 0,
        ;
        assert(one * pow2(2097) > one * (2 * one)) by (nonlinear_arith)
            requires
                pow2(2097) > 2 * one,
                one > 0,
        ;
    }
    lemma_rounding(m as nat, one as nat);
    let r = Format::Double.round(m as nat, one as nat) as int;
    assert(c == r || c == -r);
    let u = r * one;
    assert(u <= 3 * square);
    assert(r <= 3 * one) by (nonlinear_arith)
        requires
            r * one <= 3 * (one * one),
            one > 0,
    ;
    assert(pow2(2098) > 3 * one) by (nonlinear_arith)
        requires
            pow2(2098) == one * pow2(1024),
            pow2(1024) >= 4,
            one > 0,
    ;
    lemma_finite(a * k);
    assert(c * c == r * r) by (nonlinear_arith)
        requires
            c == r || c == -r,
    ;
    assert((r * r) * square == u * u) by (nonlinear_arith)
        requires
            square == one * one,
            u == r * one,
    ;
    let d = u - m;
    assert(-3 * square <= 0x20000000000000 * d <= 3 * square);
    assert(u >= 0) by (nonlinear_arith)
        requires
            u == r * one,
            r >= 0,
            one > 0,
    ;
    let t = u + m;
    assert(u * u - m * m == d * t) by (nonlinear_arith)
        requires
            d == u - m,
            t == u + m,
    ;
    assert(-15 * (square * square) <= (d * t) * 0x20000000000000 <= 15 * (square * square))
        by (nonlinear_arith)
        requires
            -3 * square <= 0x20000000000000 * d <= 3 * square,
            0 <= t <= 5 * square,
            square > 0,
    {
        let e = 0x20000000000000 * d;
        assert((d * t) * 0x20000000000000 == e * t);
        assert(e * t <= (3 * square) * t);
        assert((-3 * square) * t <= e * t);
        assert((3 * square) * t <= (3 * square) * (5 * square));
    }
}

/// The length is one, but for less than four parts in a hundred million
/// million: the square of it is off by one part in two to the forty-five at
/// most.
pub open spec fn near_unit(v: DVec4) -> bool {
    let unit = Binary64::one() * Binary64::one();
    &&& v.is_finite()
    &&& -unit <= (length_squared(v) - unit) * 0x200000000000 <= unit
}

/// The square of a component's share is no more than that of the whole.
proof fn lemma_parts(v: DVec4, k: int)
    ensures
        ({
            let (x, y, z, w) = (
                v.x.value() * k,
                v.y.value() * k,
                v.z.value() * k,
                v.w.value() * k,
            );
            &&& x * x + y * y + z * z + w * w == length_squared(v) * (k * k)
            &&& x * x >= 0
            &&& y * y >= 0
            &&& z * z >= 0
            &&& w * w >= 0
        }),
{
    let (a, b, c, d) = (v.x.value(), v.y.value(), v.z.value(), v.w.value());
    let q = k * k;
    assert((a * k) * (a * k) == (a * a) * q) by (nonlinear_arith)
        requires
            q == k * k,
    ;
    assert((b * k) * (b * k) == (b * b) * q) by (nonlinear_arith)
        requires
            q == k * k,
    ;
    assert((c * k) * (c * k) == (c * c) * q) by (nonlinear_arith)
        requires
            q == k * k,
    ;
    assert((d * k) * (d * k) == (d * d) * q) by (nonlinear_arith)
        requires
            q == k * k,
    ;
    let (e, f, g, h) = (a * a, b * b, c * c, d * d);
    assert((e + f + g + h) * q == e * q + f * q + g * q + h * q) by (nonlinear_arith);
    assert((a * k) * (a * k) >= 0) by (nonlinear_arith);
    assert((b * k) * (b * k) >= 0) by (nonlinear_arith);
    assert((c * k) * (c * k) >= 0) by (nonlinear_arith);
    assert((d * k) * (d * k) >= 0) by (nonlinear_arith);
}

/// The length as it is computed, and its square.
proof fn lemma_length(v: DVec4)
    requires
        ordinary(v),
    ensures
        v.dot(v).sqrt().is_finite(),
        pow2(560) <= v.dot(v).sqrt().value() <= pow2(1578),
        near(v.dot(v).sqrt().value() * v.dot(v).sqrt().value(), length_squared(v), 9),
{
    let one = Binary64::one() as int;
    let s = v.dot(v);
    lemma_dot(v);
    lemma_root(s);
    let r = s.sqrt().value();
    let w = s.value() * one;
    lemma_near_trans(r * r, w, length_squared(v), 5, 3);
    lemma_near_sign(r * r, w, 5);
    lemma_pow2_pos(1074);
    lemma_pow2_adds(72, 1074);
    lemma_pow2_adds(560, 560);
    lemma_pow2_adds(1120, 26);
    lemma_pow2_pos(1120);
    lemma_pow2_pos(560);
    lemma2_to64();
    assert(w >= pow2(72) * one) by (nonlinear_arith)
        requires
            w == s.value() * one,
            s.value() >= pow2(72),
            one > 0,
    ;
    assert(r >= pow2(560)) by (nonlinear_arith)
        requires
            2 * (r * r) >= pow2(1120) * 0x4000000,
            pow2(1120) == pow2(560) * pow2(560),
            pow2(560) > 0,
            r > 0,
    {
        if r < pow2(560) {
            assert(r * r <= pow2(560) * pow2(560)) by (nonlinear_arith)
                requires
                    0 < r < pow2(560),
            ;
        }
    }
}

/// The square of a root is what the root is of, but for rounding.
pub proof fn lemma_root_squared(s: Binary64)
    requires
        s.is_finite(),
        pow2(72) <= s.value() <= pow2(2078),
    ensures
        ({
            let r = s.sqrt().value();
            let w = s.value() * Binary64::one();
            &&& s.sqrt().is_finite()
            &&& r > 0
            &&& -w <= 0x10000000000 * (r * r - w) <= w
        }),
{
    let r = s.sqrt().value();
    let w = s.value() * Binary64::one();
    lemma_root(s);
    lemma_near_apart(r * r, w, 5);
}

/// How far apart near numbers are.
proof fn lemma_near_apart(x: int, y: int, k: int)
    requires
        near(x, y, k),
        k <= 15,
    ensures
        -y <= 0x10000000000 * (x - y) <= y,
{
    let g = grain();
    assert(y * (g - k) == y * g - k * y && y * (g + k) == y * g + k * y) by (nonlinear_arith);
    assert(k * y <= 15 * y) by (nonlinear_arith)
        requires
            k <= 15,
            y >= 0,
    ;
}

/// One over a root: its square times what the root is of is one, but for
/// rounding.
pub proof fn lemma_one_over_root(s: Binary64)
    requires
        s.is_finite(),
        Binary64::one() <= s.value() <= pow2(2078),
    ensures
        ({
            let k = Binary64::of(1) / s.sqrt();
            let u = Binary64::one() as int * Binary64::one() as int;
            let w = s.value() * Binary64::one();
            &&& k.is_finite()
            &&& k.value() >= 0
            &&& -(u * u) <= 0x10000000000 * (w * (k.value() * k.value()) - u * u) <= u * u
        }),
{
    let o = Binary64::one() as int;
    let u = o * o;
    let w = s.value() * o;
    let size = s.sqrt();
    let r = size.value();
    lemma_pow2_strictly_increases(72, 1074);
    lemma_pow2_pos(1074);
    lemma_root(s);
    lemma_near_sign(r * r, w, 5);
    lemma_pow2_adds(560, 514);
    lemma_pow2_adds(1, 513);
    lemma_pow2_pos(513);
    lemma_pow2_pos(560);
    lemma2_to64();
    assert(w >= o * o) by (nonlinear_arith)
        requires
            w == s.value() * o,
            s.value() >= o,
            o > 0,
    ;
    assert(pow2(560) <= r) by {
        let (m, n) = (pow2(560) as int, pow2(513) as int);
        if r < m {
            assert(r * r < m * m) by (nonlinear_arith)
                requires
                    0 < r < m,
            ;
            assert(o * o >= 4 * (m * m)) by (nonlinear_arith)
                requires
                    o == m * (2 * n),
                    n >= 1,
                    m > 0,
            {
                assert(m * (2 * n) >= 2 * m) by (nonlinear_arith)
                    requires
                        n >= 1,
                        m > 0,
                ;
                assert(o * o >= (2 * m) * (2 * m)) by (nonlinear_arith)
                    requires
                        o >= 2 * m,
                        m > 0,
                ;
            }
        }
    }
    lemma_one_is_a_limit();
    lemma_share_of_length(Binary64::of(1), size);
    let k = (Binary64::of(1) / size).value();
    lemma_near_product(k * r, u, 1, k * r, u, 1);
    lemma_near_flip(r * r, w, 5);
    assert(k * k >= 0) by (nonlinear_arith);
    lemma_near_scale(w, r * r, 6, k * k);
    assert((r * r) * (k * k) == (k * r) * (k * r)) by (nonlinear_arith);
    lemma_near_trans(w * (k * k), (k * r) * (k * r), u * u, 6, 3);
    lemma_near_apart(w * (k * k), u * u, 10);
}

/// The square of the length brought down to a limit, before the products are
/// rounded.
proof fn lemma_scaled_length(v: DVec4, limit: Binary64)
    requires
        ordinary(v),
        limit.is_finite(),
        pow2(600) <= limit.value() <= Binary64::one(),
    ensures
        ({
            let k = limit / v.dot(v).sqrt();
            let whole = limit.value() * Binary64::one();
            &&& k.is_finite()
            &&& k.value() >= 0
            &&& near(length_squared(v) * (k.value() * k.value()), whole * whole, 14)
        }),
{
    let whole = limit.value() * Binary64::one();
    let l = length_squared(v);
    lemma_length(v);
    let size = v.dot(v).sqrt();
    let r = size.value();
    lemma_share_of_length(limit, size);
    let k = (limit / size).value();
    lemma_near_product(k * r, whole, 1, k * r, whole, 1);
    lemma_near_flip(r * r, l, 9);
    assert(k * k >= 0) by (nonlinear_arith);
    lemma_near_scale(l, r * r, 10, k * k);
    assert((r * r) * (k * k) == (k * r) * (k * r)) by (nonlinear_arith);
    lemma_near_trans(l * (k * k), (k * r) * (k * r), whole * whole, 10, 3);
}

/// One is a limit as a length can be brought down to.
proof fn lemma_one_is_a_limit()
    ensures
        Binary64::of(1).is_finite(),
        Binary64::of(1).value() == Binary64::one(),
        pow2(600) <= Binary64::one(),
{
    binary64::lemma_of(1);
    lemma_pow2_strictly_increases(600, 1074);
}

/// Four ordinary numbers brought to length one have that length, but for
/// rounding.
pub proof fn a_normalised_turn_has_length_one(v: DVec4)
    requires
        ordinary(v),
    ensures
        near_unit(v.normalized()),
{
    let one = Binary64::one() as int;
    let unit = one * one;
    let square = unit * unit;
    let k = Binary64::of(1) / v.dot(v).sqrt();
    let kv = k.value();
    let n = v.normalized();
    lemma_one_is_a_limit();
    lemma_scaled_length(v, Binary64::of(1));
    lemma_parts(v, kv);
    let whole = length_squared(v) * (kv * kv);
    lemma_near_sign(whole, square, 14);
    lemma_component(v.x, k);
    lemma_component(v.y, k);
    lemma_component(v.z, k);
    lemma_component(v.w, k);
    let g = grain();
    assert(square * (g - 14) == square * g - 14 * square && square * (g + 14) == square * g + 14
        * square) by (nonlinear_arith);
    let (x, y, z, w) = (n.x.value(), n.y.value(), n.z.value(), n.w.value());
    let l = length_squared(n);
    assert(l * unit == (x * x) * unit + (y * y) * unit + (z * z) * unit + (w * w) * unit)
        by (nonlinear_arith)
        requires
            l == x * x + y * y + z * z + w * w,
    ;
    let off = l - unit;
    assert(off * unit == l * unit - square) by (nonlinear_arith)
        requires
            off == l - unit,
            square == unit * unit,
    ;
    lemma_pow2_pos(1074);
    assert(unit > 0) by (nonlinear_arith)
        requires
            unit == one * one,
            one > 0,
    ;
    assert(-square <= (off * unit) * 0x200000000000 <= square);
    assert(-unit <= off * 0x200000000000 <= unit) by (nonlinear_arith)
        requires
            -square <= (off * unit) * 0x200000000000 <= square,
            square == unit * unit,
            unit > 0,
    {
        let e = off * 0x200000000000;
        assert((off * unit) * 0x200000000000 == e * unit);
        if e > unit {
            assert(e * unit > unit * unit);
        }
        if e < -unit {
            assert(e * unit < (-unit) * unit);
            assert((-unit) * unit == -(unit * unit));
        }
    }
}

/// A change of at most an eighth in each number.
pub open spec fn small_change(change: DVec4) -> bool {
    &&& change.is_finite()
    &&& 8 * number::magnitude_of(change.x.value()) <= Binary64::one()
    &&& 8 * number::magnitude_of(change.y.value()) <= Binary64::one()
    &&& 8 * number::magnitude_of(change.z.value()) <= Binary64::one()
    &&& 8 * number::magnitude_of(change.w.value()) <= Binary64::one()
}

/// One number after a small change.
proof fn lemma_changed(a: Binary64, b: Binary64)
    requires
        a.is_finite(),
        b.is_finite(),
        number::magnitude_of(a.value()) <= 2 * Binary64::one(),
        8 * number::magnitude_of(b.value()) <= Binary64::one(),
    ensures
        (a + b).is_finite(),
        number::magnitude_of((a + b).value()) <= pow2(1574),
        16 * number::magnitude_of(a.value()) >= 5 * Binary64::one() ==> number::magnitude_of(
            (a + b).value(),
        ) >= pow2(574),
{
    let one = Binary64::one() as int;
    let high = Binary64::of(4);
    binary64::lemma_of(4);
    binary64::lemma_negate(high);
    let low = exact::lemma_number(1, 3);
    binary64::lemma_negate(low);
    exact::lemma_step(3);
    lemma_pow2_pos(1074);
    lemma_pow2_adds(1074, 500);
    lemma_pow2_adds(2, 498);
    lemma_pow2_adds(574, 497);
    lemma_pow2_pos(498);
    lemma_pow2_pos(497);
    lemma_pow2_pos(574);
    lemma2_to64();
    assert(4 * one <= pow2(1574)) by (nonlinear_arith)
        requires
            pow2(1574) == one * pow2(500),
            pow2(500) >= 4,
            one > 0,
    ;
    assert(pow2(574) <= pow2(1071)) by (nonlinear_arith)
        requires
            pow2(1071) == pow2(574) * pow2(497),
            pow2(497) >= 1,
            pow2(574) > 0,
    ;
    binary64::lemma_sum_between(a, b, high.negate(), high);
    if 16 * number::magnitude_of(a.value()) >= 5 * one {
        if a.value() >= 0 {
            binary64::lemma_sum_between(a, b, low, high);
        } else {
            binary64::lemma_sum_between(a, b, high.negate(), low.negate());
        }
    }
}

/// Numbers of length one stay ordinary under a small change, so that bringing
/// them back to length one succeeds.
pub proof fn a_small_change_can_be_normalised(v: DVec4, change: DVec4)
    requires
        near_unit(v),
        small_change(change),
    ensures
        ordinary(v.plus(change)),
        near_unit(v.plus(change).normalized()),
{
    let one = Binary64::one() as int;
    let unit = one * one;
    let l = length_squared(v);
    lemma_pow2_pos(1074);
    assert(unit > 0) by (nonlinear_arith)
        requires
            unit == one * one,
            one > 0,
    ;
    assert(unit <= 2 * l && l <= 2 * unit);
    lemma_size(v.x.value(), one);
    lemma_size(v.y.value(), one);
    lemma_size(v.z.value(), one);
    lemma_size(v.w.value(), one);
    lemma_changed(v.x, change.x);
    lemma_changed(v.y, change.y);
    lemma_changed(v.z, change.z);
    lemma_changed(v.w, change.w);
    a_normalised_turn_has_length_one(v.plus(change));
}

/// How large a number is whose square is a share of one, and whose square is
/// not less than an eighth.
proof fn lemma_size(n: int, one: int)
    requires
        one > 0,
    ensures
        n * n >= 0,
        n * n <= 2 * (one * one) ==> number::magnitude_of(n) <= 2 * one,
        8 * (n * n) >= one * one ==> 16 * number::magnitude_of(n) >= 5 * one,
{
    let m = number::magnitude_of(n) as int;
    assert(n * n == m * m && n * n >= 0) by (nonlinear_arith)
        requires
            m == n || m == -n,
    ;
    if m > 2 * one {
        assert(m * m > 2 * (one * one)) by (nonlinear_arith)
            requires
                m > 2 * one,
                one > 0,
        ;
    }
    if 16 * m < 5 * one {
        assert(8 * (m * m) < one * one) by (nonlinear_arith)
            requires
                16 * m < 5 * one,
                m >= 0,
                one > 0,
        {
            assert((16 * m) * (16 * m) <= (5 * one) * (5 * one));
            assert((16 * m) * (16 * m) == 256 * (m * m));
            assert((5 * one) * (5 * one) == 25 * (one * one));
            assert(one * one > 0);
        }
    }
}

/// A vector as four numbers.
pub open spec fn flat(v: DVec3) -> DVec4 {
    DVec4 { x: v.x, y: v.y, z: v.z, w: Binary64::of(0) }
}

/// A fourth number that is zero changes nothing about the sum of the squares.
proof fn lemma_flat_dot(v: DVec3)
    requires
        ordinary(flat(v)),
    ensures
        flat(v).dot(flat(v)) == v.dot(v),
{
    let zero = Binary64::of(0);
    let whole = flat(v).dot(flat(v));
    binary64::lemma_of(0);
    binary64::lemma_zero_factor(zero, zero);
    lemma_dot(flat(v));
    lemma_pow2_pos(72);
    lemma_square(v.x);
    lemma_square(v.y);
    lemma_square(v.z);
    let (p, q, r) = (v.x * v.x, v.y * v.y, v.z * v.z);
    lemma_pow2_adds(2075, 2);
    lemma_pow2_adds(2077, 19);
    lemma_pow2_adds(64, 2011);
    lemma_pow2_pos(2011);
    lemma2_to64();
    assert(pow2(2075) >= 0x10000000000000000) by (nonlinear_arith)
        requires
            pow2(2075) == 0x10000000000000000 * pow2(2011),
            pow2(2011) > 0,
    ;
    lemma_plus(p, q);
    lemma_plus(p + q, r);
    let part = v.dot(v);
    binary64::lemma_order(part, part);
    binary64::lemma_order(whole, whole);
    binary64::lemma_add(part, zero * zero);
    binary64::lemma_round_exact(part, 1);
    binary64::lemma_value_determines_positive(part, whole);
}

/// A direction brought to length one has that length, but for rounding.
pub proof fn a_normalised_direction_has_length_one(v: DVec3)
    requires
        ordinary(flat(v)),
    ensures
        near_unit(flat(v.normalized())),
{
    let k = Binary64::of(1) / v.length();
    lemma_flat_dot(v);
    a_normalised_turn_has_length_one(flat(v));
    lemma_one_is_a_limit();
    lemma_scaled_length(flat(v), Binary64::of(1));
    binary64::lemma_of(0);
    binary64::lemma_zero_factor(Binary64::of(0), k);
    let (a, b) = (flat(v).normalized(), flat(v.normalized()));
    assert(a.x == b.x && a.y == b.y && a.z == b.z);
    assert(a.w.value() * a.w.value() == b.w.value() * b.w.value());
}

/// A vector brought down to a limit where it is longer.
pub open spec fn held_to(v: DVec3, limit: Binary64) -> DVec3 {
    if v.length() > limit {
        v.scaled(limit / v.length())
    } else {
        v
    }
}

/// A vector that is longer than its limit is brought down to it and keeps its
/// direction: all its parts are taken times one number that makes its length the
/// limit, but for rounding.
pub proof fn a_vector_too_long_is_brought_down_to_its_limit(v: DVec3, limit: Binary64)
    requires
        ordinary(flat(v)),
        limit.is_finite(),
        pow2(600) <= limit.value() <= Binary64::one(),
        v.length() > limit,
    ensures
        exists|k: Binary64|
            #![trigger v.scaled(k)]
            held_to(v, limit) == v.scaled(k) && k.is_finite() && k.value() >= 0 && ({
                let whole = limit.value() * Binary64::one();
                let square = length_squared(flat(v)) * (k.value() * k.value());
                -(whole * whole) <= 0x10000000000 * (square - whole * whole) <= whole * whole
            }),
{
    let k = limit / v.length();
    let whole = limit.value() * Binary64::one();
    lemma_flat_dot(v);
    lemma_scaled_length(flat(v), limit);
    lemma_near_apart(length_squared(flat(v)) * (k.value() * k.value()), whole * whole, 14);
    assert(held_to(v, limit) == v.scaled(k));
}

/// The square of the length exceeds that of the limit by no more than rounding:
/// one part in two to the forty-five of it, and of one.
pub open spec fn within(v: DVec3, limit: Binary64) -> bool {
    let unit = Binary64::one() * Binary64::one();
    let most = limit.value() * limit.value();
    &&& v.is_finite()
    &&& (length_squared(flat(v)) - most) * 0x200000000000 <= most + unit
}

/// A vector none of whose numbers is too large to be squared.
pub open spec fn not_too_long(v: DVec3) -> bool {
    &&& v.is_finite()
    &&& number::magnitude_of(v.x.value()) <= pow2(1574)
    &&& number::magnitude_of(v.y.value()) <= pow2(1574)
    &&& number::magnitude_of(v.z.value()) <= pow2(1574)
}

/// The square of a tiny number is tiny.
proof fn lemma_tiny_square(a: Binary64)
    requires
        a.is_finite(),
        number::magnitude_of(a.value()) <= pow2(574),
    ensures
        (a * a).is_finite(),
        0 <= (a * a).value() <= pow2(76),
        0 <= a.value() * a.value() <= pow2(1148),
{
    let one = Binary64::one() as int;
    let m = number::magnitude_of(a.value());
    let t = (a * a).value();
    lemma_pow2_strictly_increases(574, 1574);
    lemma_square(a);
    lemma_pow2_adds(574, 574);
    lemma_pow2_adds(1074, 74);
    lemma_pow2_adds(74, 2);
    lemma_pow2_pos(74);
    lemma_pow2_pos(1074);
    lemma2_to64();
    let n = a.value() * a.value();
    assert(0 <= n <= pow2(574) * pow2(574)) by (nonlinear_arith)
        requires
            m == a.value() || m == -a.value(),
            0 <= m <= pow2(574),
            n == a.value() * a.value(),
    ;
    assert(t <= 4 * pow2(74)) by (nonlinear_arith)
        requires
            0x20000000000000 * (t * one - n) <= n + 0x20000000000000 * one,
            n <= one * pow2(74),
            pow2(74) >= 1,
            one > 0,
    {
        assert(0x20000000000000 * (t * one) <= 0x20000000000001 * (one * pow2(74))
            + 0x20000000000000 * one);
        assert(0x20000000000001 * (one * pow2(74)) + 0x20000000000000 * one <= 0x20000000000000 * (4
            * (one * pow2(74)))) by (nonlinear_arith)
            requires
                pow2(74) >= 1,
                one > 0,
        ;
        assert(t * one <= (4 * pow2(74)) * one);
    }
}

/// A tiny vector is tiny as its length is computed, too.
proof fn lemma_tiny_length(v: DVec3)
    requires
        v.is_finite(),
        number::magnitude_of(v.x.value()) <= pow2(574),
        number::magnitude_of(v.y.value()) <= pow2(574),
        number::magnitude_of(v.z.value()) <= pow2(574),
    ensures
        v.length().is_finite(),
        0 <= v.length().value() < pow2(600),
        v.dot(v).value() <= pow2(80),
        0 <= length_squared(flat(v)) <= pow2(1150),
{
    let one = Binary64::one() as int;
    let s = v.dot(v);
    lemma_tiny_square(v.x);
    lemma_tiny_square(v.y);
    lemma_tiny_square(v.z);
    binary64::lemma_of(0);
    lemma_pow2_adds(1148, 2);
    lemma_pow2_pos(1148);
    lemma_pow2_adds(76, 4);
    lemma_pow2_adds(60, 16);
    lemma_pow2_adds(80, 2016);
    lemma_pow2_pos(2016);
    lemma2_to64();
    lemma2_to64_rest();
    assert(pow2(76) + pow2(76) + pow2(76) <= pow2(80) <= pow2(2096)) by (nonlinear_arith)
        requires
            pow2(80) == pow2(76) * 16,
            pow2(2096) == pow2(80) * pow2(2016),
            pow2(2016) > 0,
    ;
    lemma_plus(v.x * v.x, v.y * v.y);
    lemma_plus(v.x * v.x + v.y * v.y, v.z * v.z);
    assert(s.value() <= pow2(80));
    let w = s.value() * one;
    lemma_pow2_adds(80, 1074);
    lemma_pow2_adds(577, 577);
    lemma_pow2_pos(577);
    lemma_pow2_pos(1074);
    assert(0 <= w <= pow2(577) * pow2(577)) by (nonlinear_arith)
        requires
            0 <= s.value() <= pow2(80),
            w == s.value() * one,
            pow2(80) * one == pow2(577) * pow2(577),
            one > 0,
    ;
    binary64::lemma_sqrt(s);
    root::lemma_whole_root(w as nat);
    let q = root::whole_root(w as nat) as int;
    let n = root::root_numerator(w as nat);
    assert(q <= pow2(577)) by (nonlinear_arith)
        requires
            q * q <= pow2(577) * pow2(577),
            pow2(577) > 0,
            q >= 0,
    ;
    lemma_pow2_adds(577, 23);
    lemma_pow2_adds(600, 1498);
    lemma_pow2_pos(1498);
    lemma_pow2_strictly_increases(600, 2097);
    lemma_pow2_strictly_increases(600, 2098);
    lemma_rounding(n, 2);
    lemma_finite(v.length());
}

/// A vector whose square is computed to more than next to nothing has a length.
pub proof fn lemma_has_length(v: DVec3)
    requires
        not_too_long(v),
        v.dot(v).value() > pow2(80),
    ensures
        ordinary(flat(v)),
{
    binary64::lemma_of(0);
    if !ordinary(flat(v)) {
        lemma_tiny_length(v);
    }
}

/// What brings a vector to length one, and the square as it is computed.
pub proof fn lemma_direction_scale(v: DVec3)
    requires
        ordinary(flat(v)),
    ensures
        ({
            let k = Binary64::of(1) / v.length();
            let u = Binary64::one() * Binary64::one();
            let l = length_squared(flat(v));
            &&& k.is_finite()
            &&& k.value() >= 0
            &&& l > 0
            &&& l * (k.value() * k.value()) <= 2 * (u * u)
            &&& v.dot(v).value() * Binary64::one() <= 2 * l
        }),
{
    let one = Binary64::one() as int;
    let l = length_squared(flat(v));
    let k = (Binary64::of(1) / v.length()).value();
    let whole = one * one;
    lemma_flat_dot(v);
    lemma_one_is_a_limit();
    lemma_scaled_length(flat(v), Binary64::of(1));
    lemma_near_sign(l * (k * k), whole * whole, 14);
    lemma_dot(flat(v));
    lemma_near_sign(v.dot(v).value() * one, l, 3);
    lemma_length_bounds(flat(v));
    lemma_pow2_pos(1148);
}

/// A vector held to a limit is no longer than it, but for rounding.
pub proof fn a_held_vector_is_within_its_limit(v: DVec3, limit: Binary64)
    requires
        not_too_long(v),
        limit.is_finite(),
        limit.value() >= 0,
    ensures
        within(held_to(v, limit), limit),
{
    let one = Binary64::one() as int;
    let unit = one * one;
    let n = limit.value();
    let square = n * n;
    lemma_pow2_pos(1074);
    binary64::lemma_of(0);
    assert(square >= 0) by (nonlinear_arith)
        requires
            square == n * n,
    ;
    lemma_tiny_squares();
    if ordinary(flat(v)) {
        let size = v.length();
        lemma_flat_dot(v);
        lemma_length(flat(v));
        lemma_pow2_pos(560);
        binary64::lemma_order(limit, size);
        if n >= size.value() {
            lemma_short_enough(v, limit);
        } else if n >= pow2(600) {
            lemma_clipped(v, limit);
        } else {
            lemma_shrunk_to_little(v, limit);
        }
    } else {
        lemma_tiny_length(v);
        binary64::lemma_order(limit, v.length());
        if v.length() > limit {
            lemma_tiny_shrunk(v, limit);
        }
    }
}

/// Tiny squares are nothing against one.
proof fn lemma_tiny_squares()
    ensures
        pow2(1240) * 0x200000000000 <= Binary64::one() * Binary64::one(),
        pow2(1150) <= pow2(1240),
{
    lemma_pow2_adds(1074, 1074);
    lemma_pow2_adds(1240, 908);
    lemma2_to64_rest();
    lemma_pow2_strictly_increases(45, 908);
    lemma_pow2_strictly_increases(1150, 1240);
    lemma_pow2_pos(1240);
    assert(pow2(1240) * 0x200000000000 <= pow2(1240) * pow2(908)) by (nonlinear_arith)
        requires
            0x200000000000 <= pow2(908),
            pow2(1240) > 0,
    ;
}

/// A vector no longer than its limit, as its length is computed.
proof fn lemma_short_enough(v: DVec3, limit: Binary64)
    requires
        ordinary(flat(v)),
        limit.is_finite(),
        limit.value() >= v.length().value(),
    ensures
        within(v, limit),
{
    let one = Binary64::one() as int;
    let unit = one * one;
    let n = limit.value();
    let r = v.length().value();
    let l = length_squared(flat(v));
    lemma_flat_dot(v);
    lemma_length(flat(v));
    lemma_pow2_pos(560);
    binary64::lemma_of(0);
    lemma_near_flip(r * r, l, 9);
    assert(0 < r * r <= n * n) by (nonlinear_arith)
        requires
            0 < r <= n,
    ;
    assert(unit >= 0) by (nonlinear_arith)
        requires
            unit == one * one,
    ;
    let g = grain();
    let s = r * r;
    assert(s * (g + 10) == s * g + 10 * s) by (nonlinear_arith);
}

/// A tiny vector brought down stays tiny.
proof fn lemma_tiny_shrunk(v: DVec3, limit: Binary64)
    requires
        not_too_long(v),
        number::magnitude_of(v.x.value()) <= pow2(574),
        number::magnitude_of(v.y.value()) <= pow2(574),
        number::magnitude_of(v.z.value()) <= pow2(574),
        limit.is_finite(),
        0 <= limit.value() < v.length().value(),
        v.length().is_finite(),
    ensures
        v.scaled(limit / v.length()).is_finite(),
        length_squared(flat(v.scaled(limit / v.length()))) <= pow2(1150),
{
    let one = Binary64::one() as int;
    let (n, r) = (limit.value(), v.length().value());
    let k = limit / v.length();
    let zero = Binary64::of(0);
    binary64::lemma_of(0);
    binary64::lemma_of(1);
    assert(0 * r == 0 && 0 <= n * one <= one * r) by (nonlinear_arith)
        requires
            0 <= n < r,
            one > 0,
    ;
    binary64::lemma_quotient_between(limit, v.length(), zero, Binary64::of(1));
    lemma_no_larger(v.x, k);
    lemma_no_larger(v.y, k);
    lemma_no_larger(v.z, k);
    lemma_pow2_adds(574, 574);
    lemma_pow2_adds(1148, 2);
    lemma_pow2_pos(1148);
    lemma2_to64();
    lemma_square_at_most((v.x * k).value(), pow2(574) as int);
    lemma_square_at_most((v.y * k).value(), pow2(574) as int);
    lemma_square_at_most((v.z * k).value(), pow2(574) as int);
    assert(0 * 0 == 0);
}

proof fn lemma_square_at_most(a: int, m: int)
    requires
        -m <= a <= m,
    ensures
        0 <= a * a <= m * m,
{
    assert(0 <= a * a <= m * m) by (nonlinear_arith)
        requires
            -m <= a <= m,
    ;
}

/// A number times at most one is no larger.
proof fn lemma_no_larger(a: Binary64, k: Binary64)
    requires
        a.is_finite(),
        k.is_finite(),
        0 <= k.value() <= Binary64::one(),
    ensures
        (a * k).is_finite(),
        number::magnitude_of((a * k).value()) <= number::magnitude_of(a.value()),
{
    let one = Binary64::one() as int;
    let (x, y) = (a.value(), k.value());
    binary64::lemma_of(0);
    binary64::lemma_negate(a);
    lemma_pow2_pos(1074);
    if x >= 0 {
        assert(0 <= x * y <= x * one && 0 * one == 0) by (nonlinear_arith)
            requires
                x >= 0,
                0 <= y <= one,
        ;
        binary64::lemma_product_between(a, k, Binary64::of(0), a);
    } else {
        assert(x * one <= x * y <= 0 && 0 * one == 0) by (nonlinear_arith)
            requires
                x < 0,
                0 <= y <= one,
        ;
        binary64::lemma_product_between(a, k, a, Binary64::of(0));
    }
}

/// A limit over a longer length.
proof fn lemma_share_below(limit: Binary64, r: Binary64)
    requires
        limit.is_finite(),
        r.is_finite(),
        0 <= limit.value() < r.value(),
        pow2(560) <= r.value() <= pow2(1578),
    ensures
        (limit / r).is_finite(),
        0 <= (limit / r).value() <= Binary64::one(),
        0x20000000000000 * ((limit / r).value() * r.value() - limit.value() * Binary64::one())
            <= limit.value() * Binary64::one() + 0x20000000000000 * r.value(),
        limit.value() >= pow2(600) ==> near(
            (limit / r).value() * r.value(),
            limit.value() * Binary64::one(),
            1,
        ),
{
    let one = Binary64::one() as int;
    let (n, d) = (limit.value(), r.value());
    let whole = n * one;
    let k = limit / r;
    lemma_pow2_pos(1074);
    lemma_pow2_pos(560);
    binary64::lemma_of(0);
    binary64::lemma_of(1);
    assert(0 * d == 0 && 0 <= whole <= one * d) by (nonlinear_arith)
        requires
            0 <= n < d,
            whole == n * one,
            one > 0,
    ;
    binary64::lemma_quotient_between(limit, r, Binary64::of(0), Binary64::of(1));
    binary64::lemma_div(limit, r);
    lemma_pow2_strictly_increases(1074, 2097);
    assert(whole < d * pow2(2097)) by (nonlinear_arith)
        requires
            whole <= one * d,
            one < pow2(2097),
            d > 0,
    ;
    lemma_rounding(whole as nat, d as nat);
    let x = k.value();
    if n >= pow2(600) {
        lemma_pow2_adds(600, 1074);
        lemma_pow2_adds(1578, 96);
        lemma_pow2_adds(64, 32);
        lemma_pow2_pos(1578);
        lemma_pow2_pos(600);
        lemma2_to64();
        assert(whole >= pow2(600) * one) by (nonlinear_arith)
            requires
                n >= pow2(600),
                whole == n * one,
                one > 0,
        ;
        assert(0x20000000000000 * d <= whole) by (nonlinear_arith)
            requires
                d <= pow2(1578),
                whole >= pow2(1578) * pow2(96),
                pow2(96) == 0x10000000000000000 * 0x100000000,
                pow2(1578) > 0,
        ;
        assert((x * d - whole) * 0x4000000000000 <= whole && (whole - x * d) * 0x4000000000000
            <= whole);
        lemma_near(x * d, whole, 1);
    }
}

/// A longer vector after it was brought down to next to nothing.
proof fn lemma_shrunk_to_little(v: DVec3, limit: Binary64)
    requires
        ordinary(flat(v)),
        limit.is_finite(),
        0 <= limit.value() < pow2(600),
        limit.value() < v.length().value(),
    ensures
        within(v.scaled(limit / v.length()), limit),
{
    let one = Binary64::one() as int;
    let unit = one * one;
    let (n, r) = (limit.value(), v.length().value());
    let k = limit / v.length();
    lemma_flat_dot(v);
    lemma_length(flat(v));
    lemma_pow2_pos(1074);
    lemma_pow2_pos(560);
    lemma_share_below(limit, v.length());
    let l = length_squared(flat(v));
    lemma_near_flip(r * r, l, 9);
    binary64::lemma_of(0);
    assert(0 * 0 == 0);
    let g = grain();
    let s = r * r;
    assert(s * (g + 10) == s * g + 10 * s) by (nonlinear_arith);
    assert(s > 0) by (nonlinear_arith)
        requires
            s == r * r,
            r > 0,
    ;
    let (x, y, z) = (v.x.value(), v.y.value(), v.z.value());
    assert(x * x >= 0) by (nonlinear_arith);
    assert(y * y >= 0) by (nonlinear_arith);
    assert(z * z >= 0) by (nonlinear_arith);
    assert(l <= 4 * s);
    lemma_made_little(v.x, k, n, r);
    lemma_made_little(v.y, k, n, r);
    lemma_made_little(v.z, k, n, r);
    lemma_pow2_adds(610, 610);
    lemma_pow2_adds(1220, 20);
    lemma_pow2_pos(1220);
    lemma2_to64();
    lemma_square_at_most((v.x * k).value(), pow2(610) as int);
    lemma_square_at_most((v.y * k).value(), pow2(610) as int);
    lemma_square_at_most((v.z * k).value(), pow2(610) as int);
    lemma_tiny_squares();
    let most = n * n;
    assert(most >= 0) by (nonlinear_arith)
        requires
            most == n * n,
    ;
}

/// A part of a vector after it was brought down to next to nothing.
proof fn lemma_made_little(a: Binary64, k: Binary64, n: int, r: int)
    requires
        a.is_finite(),
        k.is_finite(),
        number::magnitude_of(a.value()) <= pow2(1574),
        0 <= k.value() <= Binary64::one(),
        a.value() * a.value() <= 4 * (r * r),
        0 <= n < pow2(600),
        0 < r <= pow2(1578),
        0x20000000000000 * (k.value() * r - n * Binary64::one()) <= n * Binary64::one()
            + 0x20000000000000 * r,
    ensures
        (a * k).is_finite(),
        number::magnitude_of((a * k).value()) <= pow2(610),
{
    let one = Binary64::one() as int;
    let m = number::magnitude_of(a.value()) as int;
    let y = k.value();
    lemma_pow2_pos(1074);
    lemma_pow2_adds(1074, 504);
    lemma_pow2_strictly_increases(504, 600);
    lemma_pow2_pos(600);
    assert(m * m == a.value() * a.value()) by (nonlinear_arith)
        requires
            m == a.value() || m == -a.value(),
    ;
    assert(m <= 2 * r) by (nonlinear_arith)
        requires
            m * m <= 4 * (r * r),
            r > 0,
            m >= 0,
    {
        if m > 2 * r {
            assert(m * m > (2 * r) * (2 * r)) by (nonlinear_arith)
                requires
                    m > 2 * r,
                    r > 0,
            ;
        }
    }
    assert(m * y <= 2 * (y * r)) by (nonlinear_arith)
        requires
            m <= 2 * r,
            y >= 0,
    ;
    assert(0 <= n * one <= pow2(600) * one && r <= pow2(600) * one) by (nonlinear_arith)
        requires
            0 <= n < pow2(600),
            r <= one * pow2(504),
            pow2(504) < pow2(600),
            one > 0,
    ;
    let big = pow2(600) * one;
    assert(m * y <= 16 * big);
    lemma_pow2_adds(600, 10);
    lemma_pow2_strictly_increases(610, 2097);
    lemma_pow2_strictly_increases(610, 2098);
    lemma2_to64();
    binary64::lemma_mul(a, k);
    let p = number::magnitude_of(a.value() * y);
    assert(p == m * y) by (nonlinear_arith)
        requires
            p == a.value() * y || p == -(a.value() * y),
            m == a.value() || m == -a.value(),
            m >= 0,
            y >= 0,
            p >= 0,
    ;
    assert(p < one * pow2(2097)) by (nonlinear_arith)
        requires
            p <= 16 * (pow2(600) * one),
            pow2(610) == pow2(600) * 0x400,
            pow2(610) < pow2(2097),
            one > 0,
            pow2(600) > 0,
    {
        assert(16 * (pow2(600) * one) <= pow2(610) * one) by (nonlinear_arith)
            requires
                pow2(610) == pow2(600) * 0x400,
                one > 0,
                pow2(600) > 0,
        ;
        assert(pow2(610) * one < pow2(2097) * one) by (nonlinear_arith)
            requires
                pow2(610) < pow2(2097),
                one > 0,
        ;
    }
    lemma_rounding(p, one as nat);
    let q = Format::Double.round(p, one as nat) as int;
    assert(q <= pow2(610)) by (nonlinear_arith)
        requires
            0x20000000000000 * (q * one - p) <= p + 0x20000000000000 * one,
            p <= 16 * (pow2(600) * one),
            pow2(610) == pow2(600) * 0x400,
            one > 0,
            pow2(600) >= 1,
    {
        assert(q * one <= 2 * p + one);
        let b = pow2(600) * one;
        assert((32 * pow2(600) + 1) * one == 32 * b + one) by (nonlinear_arith)
            requires
                b == pow2(600) * one,
        ;
        assert(q <= 32 * pow2(600) + 1) by (nonlinear_arith)
            requires
                q * one <= (32 * pow2(600) + 1) * one,
                one > 0,
        ;
    }
    lemma_finite(a * k);
}

/// A longer vector after it was brought down.
proof fn lemma_clipped(v: DVec3, limit: Binary64)
    requires
        ordinary(flat(v)),
        limit.is_finite(),
        pow2(600) <= limit.value() < v.length().value(),
    ensures
        within(v.scaled(limit / v.length()), limit),
{
    let one = Binary64::one() as int;
    let unit = one * one;
    let n = limit.value();
    let size = v.length();
    let r = size.value();
    let k = limit / size;
    let kv = k.value();
    let w = flat(v);
    let l = length_squared(w);
    lemma_flat_dot(v);
    lemma_length(w);
    lemma_pow2_pos(600);
    lemma_pow2_pos(1074);
    lemma_pow2_pos(560);
    binary64::lemma_of(0);
    lemma_share_below(limit, size);
    let top = n * one;
    lemma_near_product(kv * r, top, 1, kv * r, top, 1);
    lemma_near_flip(r * r, l, 9);
    assert(kv * kv >= 0) by (nonlinear_arith);
    lemma_near_scale(l, r * r, 10, kv * kv);
    assert((r * r) * (kv * kv) == (kv * r) * (kv * r)) by (nonlinear_arith);
    lemma_near_trans(l * (kv * kv), (kv * r) * (kv * r), top * top, 10, 3);
    lemma_parts(w, kv);
    assert(0 * kv == 0 && 0 * 0 == 0);
    let t = top * top;
    let g = grain();
    assert(t * (g + 14) == t * g + 14 * t) by (nonlinear_arith);
    assert(t >= 0) by (nonlinear_arith)
        requires
            t == top * top,
    ;
    let whole = l * (kv * kv);
    assert(whole <= 4 * t);
    lemma_brought_down(v.x, k, n);
    lemma_brought_down(v.y, k, n);
    lemma_brought_down(v.z, k, n);
    let s = v.scaled(k);
    let (x, y, z) = (s.x.value(), s.y.value(), s.z.value());
    let m = length_squared(flat(s));
    assert(m == x * x + y * y + z * z);
    lemma2_to64();
    lemma_pow2_strictly_increases(64, 1074);
    lemma_held(m, x * x, y * y, z * z, whole, n, one);
}

/// A part of a vector that was brought down, and its square.
proof fn lemma_brought_down(a: Binary64, k: Binary64, n: int)
    requires
        a.is_finite(),
        k.is_finite(),
        0 <= n <= pow2(1578),
        (a.value() * k.value()) * (a.value() * k.value()) <= 4 * ((n * Binary64::one()) * (n
            * Binary64::one())),
    ensures
        (a * k).is_finite(),
        0x4000000000000 * (((a * k).value() * (a * k).value()) * (Binary64::one()
            * Binary64::one())) <= 0x4000000000001 * ((a.value() * k.value()) * (a.value()
            * k.value())) + 0x4000000000000 * ((8 * n + 2) * (Binary64::one() * Binary64::one())),
{
    let one = Binary64::one() as int;
    let w = a.value() * k.value();
    let p = number::magnitude_of(w) as int;
    let top = n * one;
    lemma_pow2_pos(1074);
    assert(p * p == w * w) by (nonlinear_arith)
        requires
            p == w || p == -w,
    ;
    assert(top >= 0) by (nonlinear_arith)
        requires
            top == n * one,
            n >= 0,
            one > 0,
    ;
    assert(p <= 2 * top) by (nonlinear_arith)
        requires
            p * p <= 4 * (top * top),
            top >= 0,
            p >= 0,
    {
        if p > 2 * top {
            assert(p * p > (2 * top) * (2 * top)) by (nonlinear_arith)
                requires
                    p > 2 * top,
                    top >= 0,
            ;
        }
    }
    lemma_pow2_adds(1578, 2);
    lemma_pow2_strictly_increases(1580, 2097);
    lemma_pow2_pos(1578);
    lemma2_to64();
    assert(p < one * pow2(2097)) by (nonlinear_arith)
        requires
            p <= 2 * (n * one),
            n <= pow2(1578),
            pow2(1580) == pow2(1578) * 4,
            pow2(1580) < pow2(2097),
            pow2(1578) > 0,
            one > 0,
    {
        assert(2 * (n * one) <= pow2(1580) * one) by (nonlinear_arith)
            requires
                n <= pow2(1578),
                pow2(1580) == pow2(1578) * 4,
                pow2(1578) > 0,
                one > 0,
        ;
        assert(pow2(1580) * one < pow2(2097) * one) by (nonlinear_arith)
            requires
                pow2(1580) < pow2(2097),
                one > 0,
        ;
    }
    binary64::lemma_mul(a, k);
    lemma_rounding(p as nat, one as nat);
    let q = Format::Double.round(p as nat, one as nat) as int;
    let c = (a * k).value();
    assert(c * c == q * q) by (nonlinear_arith)
        requires
            c == q || c == -q,
    ;
    lemma_pow2_adds(2097, 1);
    assert(q < pow2(2098)) by (nonlinear_arith)
        requires
            p >= 0,
            0x20000000000000 * (q * one - p) <= p + 0x20000000000000 * one,
            p < one * pow2(2097),
            pow2(2098) == 2 * pow2(2097),
            pow2(2097) >= 4,
            one > 0,
    {
        let z = q * one;
        assert(0x20000000000000 * z <= 0x20000000000001 * p + 0x20000000000000 * one);
        assert(2 * (q * one) <= 3 * p + 2 * one);
        assert(2 * (q * one) < (3 * pow2(2097) + 2) * one) by (nonlinear_arith)
            requires
                2 * (q * one) <= 3 * p + 2 * one,
                p < one * pow2(2097),
        ;
        assert(2 * q < 3 * pow2(2097) + 2) by (nonlinear_arith)
            requires
                2 * (q * one) < (3 * pow2(2097) + 2) * one,
                one > 0,
        ;
    }
    lemma_finite(a * k);
    lemma_rounded_square(q, p, n, one);
}

/// The square of a rounded number.
proof fn lemma_rounded_square(q: int, p: int, n: int, one: int)
    requires
        one > 0,
        n >= 0,
        q >= 0,
        0 <= p <= 2 * (n * one),
        0x20000000000000 * (q * one - p) <= p + 0x20000000000000 * one,
    ensures
        0x4000000000000 * ((q * q) * (one * one)) <= 0x4000000000001 * (p * p) + 0x4000000000000 * ((8
            * n + 2) * (one * one)),
{
    let big = 0x20000000000000int;
    let (x, y) = (q * one, (big + 1) * p + big * one);
    assert(big * x <= y && 0 <= x) by (nonlinear_arith)
        requires
            x == q * one,
            y == (big + 1) * p + big * one,
            big * (q * one - p) <= p + big * one,
            q >= 0,
            one > 0,
    ;
    assert((big * x) * (big * x) <= y * y) by (nonlinear_arith)
        requires
            0 <= big * x <= y,
    ;
    let (pp, po, oo) = (p * p, p * one, one * one);
    let (a, b) = (0x20000000000001 * p, 0x20000000000000 * one);
    assert(y * y == a * a + 2 * (a * b) + b * b) by (nonlinear_arith)
        requires
            y == a + b,
    ;
    assert(a * a == 0x400000000000040000000000001 * pp) by (nonlinear_arith)
        requires
            a == 0x20000000000001 * p,
            pp == p * p,
    ;
    assert(a * b == 0x400000000000020000000000000 * po) by (nonlinear_arith)
        requires
            a == 0x20000000000001 * p,
            b == 0x20000000000000 * one,
            po == p * one,
    ;
    assert(b * b == 0x400000000000000000000000000 * oo) by (nonlinear_arith)
        requires
            b == 0x20000000000000 * one,
            oo == one * one,
    ;
    assert(0 <= po <= 2 * (n * oo)) by (nonlinear_arith)
        requires
            po == p * one,
            0 <= p <= 2 * (n * one),
            oo == one * one,
            one > 0,
    {
        assert(p * one <= (2 * (n * one)) * one) by (nonlinear_arith)
            requires
                p <= 2 * (n * one),
                one > 0,
        ;
        assert((2 * (n * one)) * one == 2 * (n * (one * one))) by (nonlinear_arith);
        assert(p * one >= 0) by (nonlinear_arith)
            requires
                p >= 0,
                one > 0,
        ;
    }
    assert(pp >= 0 && oo > 0 && n * oo >= 0) by (nonlinear_arith)
        requires
            pp == p * p,
            oo == one * one,
            one > 0,
            n >= 0,
    ;
    let xx = (q * q) * oo;
    assert((big * x) * (big * x) == (big * big) * xx) by (nonlinear_arith)
        requires
            x == q * one,
            xx == (q * q) * oo,
            oo == one * one,
    {
        assert((q * one) * (q * one) == (q * q) * (one * one)) by (nonlinear_arith);
    }
    assert((8 * n + 2) * oo == 8 * (n * oo) + 2 * oo) by (nonlinear_arith);
    let no = n * oo;
    assert(0x400000000000000000000000000 * xx <= 0x400000000000040000000000001 * pp
        + 0x800000000000040000000000000 * po + 0x400000000000000000000000000 * oo);
    assert(0x4000000000000 * xx <= 0x4000000000001 * pp + 0x4000000000000 * (8 * no + 2 * oo));
}

/// How far the squares of the parts are off together.
proof fn lemma_held(m: int, a: int, b: int, c: int, whole: int, n: int, one: int)
    requires
        m == a + b + c,
        one >= 0x10000000000000000,
        n >= 0,
        0 <= whole,
        0x4000000000000 * whole <= 0x400000000000e * ((n * one) * (n * one)),
        0x4000000000000 * (a * (one * one) + b * (one * one) + c * (one * one)) <= 0x4000000000001
            * whole + 0xc000000000000 * ((8 * n + 2) * (one * one)),
    ensures
        (m - n * n) * 0x200000000000 <= n * n + one * one,
{
    let unit = one * one;
    let square = n * n;
    let t = (n * one) * (n * one);
    assert(t == square * unit && unit > 0 && square >= 0) by (nonlinear_arith)
        requires
            t == (n * one) * (n * one),
            square == n * n,
            unit == one * one,
            one > 0,
    ;
    assert(t >= 0) by (nonlinear_arith)
        requires
            t == square * unit,
            square >= 0,
            unit > 0,
    ;
    assert(0x4000000000000 * whole <= 0x400000000000e * t);
    let (z, no) = (m * unit, n * unit);
    assert(z == a * unit + b * unit + c * unit) by (nonlinear_arith)
        requires
            z == m * unit,
            m == a + b + c,
    ;
    assert((8 * n + 2) * (one * one) == 8 * no + 2 * unit) by (nonlinear_arith)
        requires
            no == n * unit,
            unit == one * one,
    ;
    assert(0x4000000000000 * z <= 0x4000000000001 * whole + 0xc000000000000 * (8 * no + 2 * unit));
    assert(0x4000000000000 * z <= 0x4000000000010 * t + 0xc000000000000 * (8 * no + 2 * unit));
    let bound = 0x4000000000010 * square + 0xc000000000000 * (8 * n + 2);
    assert(bound * unit == 0x4000000000010 * t + 0xc000000000000 * (8 * no + 2 * unit))
        by (nonlinear_arith)
        requires
            bound == 0x4000000000010 * square + 0xc000000000000 * (8 * n + 2),
            t == square * unit,
            no == n * unit,
    ;
    let high = 0x4000000000000 * m;
    assert(high * unit == 0x4000000000000 * z) by (nonlinear_arith)
        requires
            high == 0x4000000000000 * m,
            z == m * unit,
    ;
    assert(high <= bound) by (nonlinear_arith)
        requires
            high * unit <= bound * unit,
            unit > 0,
    ;
    assert((24 * n + 6) * 0x20000000000000 <= square + unit) by (nonlinear_arith)
        requires
            square == n * n,
            unit == one * one,
            one >= 0x10000000000000000,
            n >= 0,
    {
        assert((n - one) * (n - one) >= 0) by (nonlinear_arith);
        assert((n - one) * (n - one) == square + unit - 2 * (n * one)) by (nonlinear_arith)
            requires
                square == n * n,
                unit == one * one,
        ;
        assert(n * one >= n * 0x10000000000000000) by (nonlinear_arith)
            requires
                one >= 0x10000000000000000,
                n >= 0,
        ;
        assert(unit >= 0x10000000000000000 * 0x10000000000000000) by (nonlinear_arith)
            requires
                unit == one * one,
                one >= 0x10000000000000000,
        ;
        assert(square >= 0) by (nonlinear_arith)
            requires
                square == n * n,
        ;
    }
}

} // verus!
