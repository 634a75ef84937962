//! How far off a sum or a product can be, for numbers of a known size.
use crate::binary64;
use crate::binary64::Binary64;
use crate::norm;
use crate::number;
use crate::number::Number;
use crate::rounding;
use crate::rounding::Format;
use vstd::arithmetic::power2::*;
use vstd::prelude::*;

verus! {

/// Two counts are no further apart than a third.
pub open spec fn within(a: int, b: int, most: nat) -> bool {
    -most <= a - b <= most
}

/// A sum of at most a power of two is off by one part in two to the fifty-two
/// of that power.
pub proof fn lemma_sum(a: Binary64, b: Binary64, k: nat)
    requires
        a.is_finite(),
        b.is_finite(),
        53 <= k <= 2000,
        number::magnitude_of(a.value() + b.value()) <= pow2(k),
    ensures
        (a + b).is_finite(),
        within((a + b).value(), a.value() + b.value(), pow2((k - 52) as nat)),
        number::magnitude_of((a + b).value()) <= pow2(k + 1),
{
    let m = number::magnitude_of(a.value() + b.value());
    binary64::lemma_add(a, b);
    lemma_sizes(k);
    norm::lemma_rounding(m, 1);
    let r = Format::Double.round(m, 1) as int;
    assert((a + b).value() == r || (a + b).value() == -r);
    assert(r * 1 == r);
    norm::lemma_finite(a + b);
}

/// A difference of at most a power of two is off by one part in two to the
/// fifty-two of that power.
pub proof fn lemma_difference(a: Binary64, b: Binary64, k: nat)
    requires
        a.is_finite(),
        b.is_finite(),
        53 <= k <= 2000,
        number::magnitude_of(a.value() - b.value()) <= pow2(k),
    ensures
        (a - b).is_finite(),
        within((a - b).value(), a.value() - b.value(), pow2((k - 52) as nat)),
        number::magnitude_of((a - b).value()) <= pow2(k + 1),
{
    binary64::lemma_negate(b);
    lemma_sum(a, b.negate(), k);
    assert(a - b == a + b.negate());
}

/// A product of at most a power of two is off by one part in two to the
/// fifty-two of that power.
pub proof fn lemma_product(a: Binary64, b: Binary64, k: nat)
    requires
        a.is_finite(),
        b.is_finite(),
        53 <= k <= 2000,
        number::magnitude_of(a.value() * b.value()) <= pow2(k) * Binary64::one(),
    ensures
        (a * b).is_finite(),
        within(
            (a * b).value() * Binary64::one(),
            a.value() * b.value(),
            pow2((k - 52) as nat) * Binary64::one(),
        ),
        number::magnitude_of((a * b).value()) <= pow2(k + 1),
{
    let one = Binary64::one();
    let m = number::magnitude_of(a.value() * b.value());
    binary64::lemma_mul(a, b);
    lemma_sizes(k);
    assert(m < one * pow2(2097)) by (nonlinear_arith)
        requires
            m <= pow2(k) * one,
            pow2(k) < pow2(2097),
            one > 0,
    ;
    norm::lemma_rounding(m, one);
    let r = Format::Double.round(m, one) as int;
    let p = pow2((k - 53) as nat) as int;
    let v = (a * b).value();
    if a.value() * b.value() < 0 {
        assert(v * one == -(r * one)) by (nonlinear_arith)
            requires
                v == -r,
        ;
    }
    assert(pow2(k) * one == 0x20000000000000 * (p * one) && (2 * p) * one == 2 * (p * one) && p
        * one >= one) by (nonlinear_arith)
        requires
            pow2(k) == p * 0x20000000000000,
            p >= 1,
            one > 0,
    ;
    assert(r <= 2 * pow2(k)) by (nonlinear_arith)
        requires
            r * one <= pow2(k) * one + 2 * (p * one),
            pow2(k) == p * 0x20000000000000,
            p >= 1,
            one > 0,
    {
        assert(r * one <= (pow2(k) + 2 * p) * one);
        assert(r <= pow2(k) + 2 * p) by (nonlinear_arith)
            requires
                r * one <= (pow2(k) + 2 * p) * one,
                one > 0,
        ;
    }
    norm::lemma_finite(a * b);
}

proof fn lemma_sizes(k: nat)
    requires
        53 <= k <= 2000,
    ensures
        pow2(k) == pow2((k - 53) as nat) * 0x20000000000000,
        pow2((k - 52) as nat) == 2 * pow2((k - 53) as nat),
        pow2((k - 53) as nat) >= 1,
        pow2(k + 1) == 2 * pow2(k),
        pow2(k) < pow2(2097),
        pow2(k + 1) < pow2(2098),
{
    lemma2_to64();
    lemma2_to64_rest();
    lemma_pow2_adds((k - 53) as nat, 53);
    lemma_pow2_adds((k - 53) as nat, 1);
    lemma_pow2_adds(k, 1);
    lemma_pow2_pos((k - 53) as nat);
    lemma_pow2_strictly_increases(k, 2097);
    lemma_pow2_strictly_increases(k + 1, 2098);
}

/// The grain that numbers up to a thousand kilometres are counted in here: two
/// to the thirty-second part of a metre.
pub open spec fn grain() -> nat {
    pow2(1042)
}

/// One in grains.
pub proof fn lemma_grain()
    ensures
        grain() >= 2,
        Binary64::one() == 0x100000000 * grain(),
        pow2(1094) == 0x10000000000000 * grain(),
        pow2(1050) == 0x100 * grain(),
{
    lemma2_to64();
    lemma2_to64_rest();
    lemma_pow2_pos(1041);
    lemma_pow2_adds(1041, 1);
    lemma_pow2_adds(1042, 32);
    lemma_pow2_adds(1042, 52);
    lemma_pow2_adds(1042, 8);
}

/// A fraction of a small size is within a grain of what it stands for.
pub proof fn lemma_ratio(n: u64, d: u64)
    requires
        0 < d,
        n <= 0x100000 * d,
    ensures
        Binary64::ratio(n, d).is_finite(),
        within(Binary64::ratio(n, d).value() * d, n * (0x100000000 * grain() as int), d as nat * grain()),
{
    let one = Binary64::one();
    let g = grain() as int;
    lemma_grain();
    let x = Binary64::ratio(n, d);
    if n == 0 {
        binary64::lemma_ratio_zero(d);
        assert(0 * d == 0 && 0 * (0x100000000 * g) == 0);
        assert(d as nat * grain() >= 0);
    } else {
        binary64::lemma_ratio_value(n, d);
        let m = n as nat * one;
        let (nn, dd, oo) = (n as int, d as int, one as int);
        lemma_pow2_strictly_increases(1094, 2097);
        lemma_pow2_strictly_increases(1095, 2098);
        lemma_pow2_adds(1094, 1);
        lemma2_to64();
        let dg = dd * g;
        assert(nn * oo <= (0x100000 * dd) * oo) by (nonlinear_arith)
            requires
                nn <= 0x100000 * dd,
                oo > 0,
        ;
        assert((0x100000 * dd) * oo == 0x10000000000000 * dg && pow2(1094) * dd == 0x10000000000000
            * dg && dg >= 2 * dd) by (nonlinear_arith)
            requires
                oo == 0x100000000 * g,
                pow2(1094) == 0x10000000000000 * g,
                dg == dd * g,
                g >= 2,
                dd > 0,
        ;
        assert(pow2(1094) * dd < dd * pow2(2097)) by (nonlinear_arith)
            requires
                pow2(1094) < pow2(2097),
                dd > 0,
        ;
        assert(m == nn * oo && n * (0x100000000 * g) == nn * oo);
        assert(d as nat * pow2(2097) == dd * pow2(2097) && d as nat * grain() == dg);
        norm::lemma_rounding(m, d as nat);
        let r = x.value();
        assert(Format::Double.round(m, d as nat) * d == r * dd);
        assert(r * dd - m <= dg && m - r * dd <= dg);
        assert(r <= pow2(1095)) by (nonlinear_arith)
            requires
                r * dd <= 0x10000000000000 * dg + dg,
                dg == dd * g,
                pow2(1094) == 0x10000000000000 * g,
                pow2(1095) == 2 * pow2(1094),
                g >= 2,
                dd > 0,
        {
            assert(r * dd <= (0x10000000000001 * g) * dd) by (nonlinear_arith)
                requires
                    r * dd <= 0x10000000000000 * dg + dg,
                    dg == dd * g,
            ;
            assert(r <= 0x10000000000001 * g) by (nonlinear_arith)
                requires
                    r * dd <= (0x10000000000001 * g) * dd,
                    dd > 0,
            ;
        }
        norm::lemma_finite(x);
    }
}

/// A product of numbers of known sizes, in grains.
pub proof fn lemma_product_between(
    a: Binary64,
    b: Binary64,
    a_low: int,
    a_high: int,
    b_low: int,
    b_high: int,
)
    requires
        a.is_finite(),
        b.is_finite(),
        0 <= a_low,
        0 <= b_low,
        a_low * grain() <= a.value() <= a_high * grain(),
        b_low * grain() <= b.value() <= b_high * grain(),
        a_high * b_high <= 0x1000000000000000000000,
    ensures
        (a * b).is_finite(),
        0x100000000 * ((a * b).value() + grain()) >= (a_low * b_low) * grain(),
        0x100000000 * ((a * b).value() - grain()) <= (a_high * b_high) * grain(),
{
    let g = grain() as int;
    let one = Binary64::one() as int;
    lemma_grain();
    let w = a.value() * b.value();
    let (low, high) = (a_low * b_low, a_high * b_high);
    let square = g * g;
    assert(low * square <= w <= high * square && w >= 0) by (nonlinear_arith)
        requires
            0 <= a_low * g <= a.value() <= a_high * g,
            0 <= b_low * g <= b.value() <= b_high * g,
            w == a.value() * b.value(),
            low == a_low * b_low,
            high == a_high * b_high,
            square == g * g,
    {
        let (p, q, r, s) = (a_low * g, a_high * g, b_low * g, b_high * g);
        assert(p * r <= w <= q * s) by (nonlinear_arith)
            requires
                0 <= p <= a.value() <= q,
                0 <= r <= b.value() <= s,
                w == a.value() * b.value(),
        ;
        assert(p * r == low * square) by (nonlinear_arith)
            requires
                p == a_low * g,
                r == b_low * g,
                low == a_low * b_low,
                square == g * g,
        ;
        assert(q * s == high * square) by (nonlinear_arith)
            requires
                q == a_high * g,
                s == b_high * g,
                high == a_high * b_high,
                square == g * g,
        ;
        assert(p * r >= 0) by (nonlinear_arith)
            requires
                p >= 0,
                r >= 0,
        ;
    }
    assert(w <= pow2(1094) * one) by (nonlinear_arith)
        requires
            w <= high * square,
            high <= 0x1000000000000000000000,
            square == g * g,
            pow2(1094) == 0x10000000000000 * g,
            one == 0x100000000 * g,
            g > 0,
    {
        assert(high * square <= 0x1000000000000000000000 * square) by (nonlinear_arith)
            requires
                high <= 0x1000000000000000000000,
                square == g * g,
        ;
        assert(pow2(1094) * one == 0x1000000000000000000000 * square) by (nonlinear_arith)
            requires
                pow2(1094) == 0x10000000000000 * g,
                one == 0x100000000 * g,
                square == g * g,
        ;
    }
    lemma_product(a, b, 1094);
    let v = (a * b).value();
    assert(0x100000000 * (v + g) >= low * g && 0x100000000 * (v - g) <= high * g)
        by (nonlinear_arith)
        requires
            -(g * one) <= v * one - w <= g * one,
            low * square <= w <= high * square,
            one == 0x100000000 * g,
            square == g * g,
            g > 0,
    {
        assert(v * one == (0x100000000 * v) * g) by (nonlinear_arith)
            requires
                one == 0x100000000 * g,
        ;
        assert(g * one == (0x100000000 * g) * g) by (nonlinear_arith)
            requires
                one == 0x100000000 * g,
        ;
        assert(low * square == (low * g) * g && high * square == (high * g) * g)
            by (nonlinear_arith)
            requires
                square == g * g,
        ;
        let (p, q) = (0x100000000 * v + 0x100000000 * g - low * g, high * g + 0x100000000 * g
            - 0x100000000 * v);
        assert(p * g >= 0 && q * g >= 0) by (nonlinear_arith)
            requires
                p == 0x100000000 * v + 0x100000000 * g - low * g,
                q == high * g + 0x100000000 * g - 0x100000000 * v,
                (low * g) * g <= (0x100000000 * v) * g + (0x100000000 * g) * g,
                (0x100000000 * v) * g <= (high * g) * g + (0x100000000 * g) * g,
        ;
        assert(p >= 0 && q >= 0) by (nonlinear_arith)
            requires
                p * g >= 0,
                q * g >= 0,
                g > 0,
        ;
    }
}

/// The number is finite and at most so many either way.
pub open spec fn sized(x: Binary64, m: int) -> bool {
    x.is_finite() && -(m * Binary64::one()) <= x.value() <= m * Binary64::one()
}

/// A sum of small numbers is within a grain.
pub proof fn lemma_small_sum(a: Binary64, b: Binary64, m: int, n: int)
    requires
        sized(a, m),
        sized(b, n),
        0 <= m,
        0 <= n,
        m + n <= 0x100000,
    ensures
        sized(a + b, m + n + 1),
        within((a + b).value(), a.value() + b.value(), grain()),
{
    let one = Binary64::one() as int;
    lemma_grain();
    assert((m + n) * one == m * one + n * one && (m + n + 1) * one == m * one + n * one + one && (m
        + n) * one <= 0x100000 * one) by (nonlinear_arith)
        requires
            m + n <= 0x100000,
            one > 0,
    ;
    lemma_sum(a, b, 1094);
}

/// A difference of small numbers is within a grain.
pub proof fn lemma_small_difference(a: Binary64, b: Binary64, m: int, n: int)
    requires
        sized(a, m),
        sized(b, n),
        0 <= m,
        0 <= n,
        m + n <= 0x100000,
    ensures
        sized(a - b, m + n + 1),
        within((a - b).value(), a.value() - b.value(), grain()),
{
    binary64::lemma_negate(b);
    lemma_small_sum(a, b.negate(), m, n);
    assert(a - b == a + b.negate());
}

/// A product of small numbers is within a grain.
pub proof fn lemma_small_product(a: Binary64, b: Binary64, m: int, n: int)
    requires
        sized(a, m),
        sized(b, n),
        0 <= m,
        0 <= n,
        m * n <= 0x100000,
    ensures
        sized(a * b, m * n + 1),
        within((a * b).value() * Binary64::one(), a.value() * b.value(), grain() * Binary64::one()),
        a.value() >= 0 && b.value() >= 0 ==> (a * b).value() >= 0,
{
    let one = Binary64::one() as int;
    let g = grain() as int;
    let w = a.value() * b.value();
    let mn = m * n;
    lemma_grain();
    let (p, q) = (number::magnitude_of(a.value()) as int, number::magnitude_of(b.value()) as int);
    assert(p * q <= (m * one) * (n * one)) by (nonlinear_arith)
        requires
            0 <= p <= m * one,
            0 <= q <= n * one,
    ;
    assert(w == p * q || w == -(p * q)) by (nonlinear_arith)
        requires
            a.value() == p || a.value() == -p,
            b.value() == q || b.value() == -q,
            w == a.value() * b.value(),
    ;
    assert((m * one) * (n * one) == (mn * one) * one) by (nonlinear_arith)
        requires
            mn == m * n,
    ;
    assert((mn * one) * one <= pow2(1094) * one) by (nonlinear_arith)
        requires
            mn <= 0x100000,
            pow2(1094) == 0x100000 * one,
            one > 0,
    ;
    assert(p * q >= 0) by (nonlinear_arith)
        requires
            p >= 0,
            q >= 0,
    ;
    lemma_product(a, b, 1094);
    binary64::lemma_mul(a, b);
    let v = (a * b).value();
    if a.value() >= 0 && b.value() >= 0 {
        assert(w >= 0) by (nonlinear_arith)
            requires
                a.value() >= 0,
                b.value() >= 0,
                w == a.value() * b.value(),
        ;
    }
    assert(-((mn + 1) * one) <= v <= (mn + 1) * one) by (nonlinear_arith)
        requires
            -(g * one) <= v * one - w <= g * one,
            -((mn * one) * one) <= w <= (mn * one) * one,
            one == 0x100000000 * g,
            g > 0,
    {
        let top = mn * one + g;
        assert(v * one <= top * one && -(top * one) <= v * one) by (nonlinear_arith)
            requires
                v * one <= (mn * one) * one + g * one,
                -((mn * one) * one) - g * one <= v * one,
                top == mn * one + g,
        ;
        assert(-top <= v <= top) by (nonlinear_arith)
            requires
                v * one <= top * one,
                -(top * one) <= v * one,
                one > 0,
        ;
        assert((mn + 1) * one == mn * one + one) by (nonlinear_arith);
    }
}

/// A small fraction is small.
pub proof fn lemma_small_ratio(n: u64, d: u64, m: int)
    requires
        0 < d,
        n < m * d,
        0 < m <= 0x100000,
    ensures
        sized(Binary64::ratio(n, d), m),
        Binary64::ratio(n, d).value() >= 0,
{
    let one = Binary64::one();
    let g = grain() as int;
    let x = Binary64::ratio(n, d);
    lemma_grain();
    assert(n <= 0x100000 * d) by (nonlinear_arith)
        requires
            n < m * d,
            m <= 0x100000,
            d > 0,
    ;
    lemma_ratio(n, d);
    if n == 0 {
        binary64::lemma_ratio_zero(d);
    } else {
        binary64::lemma_ratio_value(n, d);
        binary64::lemma_of(m as i64);
        binary64::lemma_order(Binary64::of(m as i64), Binary64::of(m as i64));
        binary64::lemma_round_exact(Binary64::of(m as i64), d as nat);
        assert(n * one <= (m * one) * d) by (nonlinear_arith)
            requires
                n < m * d,
                one > 0,
        ;
        binary64::lemma_round_monotone(n * one, (m * one) * d, d as nat);
        assert(n * one >= 0) by (nonlinear_arith)
            requires
                n >= 0,
                one > 0,
        ;
    }
    assert(m * one >= 0) by (nonlinear_arith)
        requires
            m > 0,
            one > 0,
    ;
}

/// A small whole number.
pub proof fn lemma_small_of(n: i64, m: int)
    requires
        -m <= n <= m,
        m <= 0x100000,
    ensures
        sized(Binary64::of(n), m),
        Binary64::of(n).value() == n * Binary64::one(),
{
    let one = Binary64::one();
    lemma_grain();
    binary64::lemma_of(n);
    binary64::lemma_order(Binary64::of(n), Binary64::of(n));
    assert(-(m * one) <= n * one <= m * one) by (nonlinear_arith)
        requires
            -m <= n <= m,
            one > 0,
    ;
}

/// What is small stays so in a wider bound.
pub proof fn lemma_larger(x: Binary64, m: int, n: int)
    requires
        sized(x, m),
        m <= n,
    ensures
        sized(x, n),
{
    let one = Binary64::one() as int;
    lemma_grain();
    assert(m * one <= n * one) by (nonlinear_arith)
        requires
            m <= n,
            one > 0,
    ;
}

/// A small number over one or more is small.
pub proof fn lemma_small_quotient(a: Binary64, b: Binary64, m: int)
    requires
        sized(a, m),
        b.is_finite(),
        b.value() >= Binary64::one(),
        0 <= m <= 0x100000,
    ensures
        sized(a / b, m),
{
    let one = Binary64::one() as int;
    let (low, high) = (Binary64::of((-m) as i64), Binary64::of(m as i64));
    lemma_small_of((-m) as i64, m);
    lemma_small_of(m as i64, m);
    lemma_grain();
    let (v, d) = (a.value(), b.value());
    assert((-m) * one == -(m * one)) by (nonlinear_arith);
    assert(low.value() * d <= v * one <= high.value() * d) by (nonlinear_arith)
        requires
            -(m * one) <= v <= m * one,
            low.value() == -(m * one),
            high.value() == m * one,
            d >= one,
            one > 0,
            m >= 0,
    {
        let t = m * one;
        assert(t >= 0) by (nonlinear_arith)
            requires
                t == m * one,
                m >= 0,
                one > 0,
        ;
        assert(v * one <= t * one && -(t * one) <= v * one) by (nonlinear_arith)
            requires
                -t <= v <= t,
                one > 0,
        ;
        assert(t * one <= t * d) by (nonlinear_arith)
            requires
                t >= 0,
                d >= one,
        ;
        assert((-t) * d == -(t * d)) by (nonlinear_arith);
    }
    binary64::lemma_quotient_between(a, b, low, high);
}

/// The opposite of a factor gives the opposite product.
pub proof fn lemma_opposite_product(a: Binary64, b: Binary64)
    requires
        a.is_finite(),
        b.is_finite(),
    ensures
        (a.negate() * b).value() == -(a * b).value(),
{
    binary64::lemma_negate(a);
    binary64::lemma_mul(a, b);
    binary64::lemma_mul(a.negate(), b);
    let (v, w) = (a.value(), b.value());
    assert((-v) * w == -(v * w)) by (nonlinear_arith);
    if v * w == 0 {
        rounding::lemma_round_zero(Format::Double, Binary64::one());
    }
}

/// A small number over one or more is within a grain.
pub proof fn lemma_small_quotient_near(a: Binary64, b: Binary64, m: int)
    requires
        sized(a, m),
        b.is_finite(),
        b.value() >= Binary64::one(),
        0 <= m <= 0x100000,
    ensures
        within(
            (a / b).value() * b.value(),
            a.value() * Binary64::one(),
            grain() * (b.value() as nat),
        ),
        a.value() >= 0 ==> (a / b).value() >= 0,
{
    let one = Binary64::one() as int;
    let g = grain() as int;
    let d = b.value();
    let v = a.value() * one;
    let n = number::magnitude_of(a.value()) as int * one;
    let w = number::magnitude_of(v);
    lemma_grain();
    binary64::lemma_div(a, b);
    lemma_pow2_strictly_increases(1094, 2097);
    assert(w == n) by (nonlinear_arith)
        requires
            n == number::magnitude_of(a.value()) as int * one,
            v == a.value() * one,
            w == number::magnitude_of(v),
            one > 0,
    ;
    let size = number::magnitude_of(a.value()) as int;
    let gd = g * d;
    assert(n <= 0x10000000000000 * gd && gd >= 2 * d && n < d * pow2(2097)) by (nonlinear_arith)
        requires
            n == size * one,
            0 <= size <= m * one,
            m <= 0x100000,
            one == 0x100000000 * g,
            pow2(1094) == 0x10000000000000 * g,
            pow2(1094) < pow2(2097),
            d >= one,
            g >= 2,
            gd == g * d,
    {
        let top = 0x10000000000000 * g;
        assert(m * one <= 0x100000 * one) by (nonlinear_arith)
            requires
                m <= 0x100000,
                one == 0x100000000 * g,
                g >= 2,
        ;
        assert(size <= top);
        assert(size * one <= top * d) by (nonlinear_arith)
            requires
                0 <= size <= top,
                0 <= one <= d,
        ;
        assert(top * d == 0x10000000000000 * gd) by (nonlinear_arith)
            requires
                top == 0x10000000000000 * g,
                gd == g * d,
        ;
        assert(top * d < d * pow2(2097)) by (nonlinear_arith)
            requires
                top < pow2(2097),
                d > 0,
        ;
        assert(gd >= 2 * d) by (nonlinear_arith)
            requires
                gd == g * d,
                g >= 2,
                d > 0,
        ;
    }
    norm::lemma_rounding(w, d as nat);
    let r = Format::Double.round(w, d as nat) as int;
    let q = (a / b).value();
    assert(-gd <= r * d - n <= gd);
    if v < 0 {
        assert(q == -r);
        assert(q * d == -(r * d)) by (nonlinear_arith)
            requires
                q == -r,
        ;
    } else {
        assert(q == r);
    }
    if a.value() >= 0 {
        assert(v >= 0) by (nonlinear_arith)
            requires
                a.value() >= 0,
                one > 0,
                v == a.value() * one,
        ;
    }
    assert(grain() * (b.value() as nat) == gd);
}

/// What the opposite of a number is made of.
proof fn lemma_negated_number(a: Binary64)
    ensures
        a.negate().number() == (Number { negative: !a.number().negative, bits: a.number().bits }),
{
    reveal(Binary64::spec_negate);
}

/// The opposite of either factor gives the same product.
pub proof fn lemma_sign_moves(a: Binary64, b: Binary64)
    ensures
        a * b.negate() == a.negate() * b,
{
    let f = Format::Double;
    lemma_negated_number(a);
    lemma_negated_number(b);
    assert(a.negate().number().magnitude(f) == a.number().magnitude(f));
    assert(b.negate().number().magnitude(f) == b.number().magnitude(f));
    assert(a.number().product_spec(b.negate().number(), f) == a.negate().number().product_spec(
        b.number(),
        f,
    ));
    reveal(Binary64::spec_mul);
}

/// How many of the smallest double numbers make the smallest single one.
pub open spec fn single_step() -> nat {
    pow2(925)
}

proof fn lemma_below(a: int, b: int, c: int)
    requires
        a <= b,
        c >= 0,
    ensures
        a * c <= b * c,
{
    assert(a * c <= b * c) by (nonlinear_arith)
        requires
            a <= b,
            c >= 0,
    ;
}

/// A count near another in a finer scale is near it in the coarser one.
proof fn lemma_divided(r: int, m: int, u: int, w: int, s: int, half: int)
    requires
        2 * (r * u) <= 2 * (m * w) + u * (2 * half),
        2 * (m * w) <= 2 * (r * u) + u * (2 * half),
        u == w * s,
        w > 0,
    ensures
        -(s * half) <= r * s - m <= s * half,
{
    let (t, h) = (r * s - m, s * half);
    assert(r * u == (r * s) * w) by (nonlinear_arith)
        requires
            u == w * s,
    ;
    assert(u * (2 * half) == 2 * (h * w)) by (nonlinear_arith)
        requires
            u == w * s,
            h == s * half,
    ;
    let p = r * s;
    assert((p - m) * w == p * w - m * w) by (nonlinear_arith);
    assert(-h <= t <= h) by (nonlinear_arith)
        requires
            -(h * w) <= t * w <= h * w,
            w > 0,
    ;
}

/// In single precision a number of at most sixteen is off by two to the
/// twentieth part of one.
pub proof fn lemma_narrowed(x: Binary64)
    requires
        sized(x, 16),
    ensures
        within(x.to_binary32().value() * single_step(), x.value(), pow2(1054)),
{
    reveal(Binary64::spec_to_binary32);
    reveal(Binary64::spec_is_finite);
    let f = Format::Single;
    let u = pow2(1074);
    let w = pow2(149);
    let m = x.number().magnitude(Format::Double);
    let s = single_step() as int;
    number::lemma_constants(f);
    number::lemma_constants(Format::Double);
    lemma_pow2_pos(1074);
    lemma_pow2_pos(149);
    lemma_pow2_pos(925);
    lemma_pow2_adds(149, 925);
    lemma_pow2_adds(149, 5);
    lemma_pow2_adds(925, 130);
    lemma_pow2_adds(925, 129);
    lemma_pow2_adds(129, 1);
    lemma2_to64();
    number::lemma_rounded(f, x.number().negative, m * w, u);
    lemma_below(m as int, 16 * u as int, w as int);
    assert((16 * u as int) * w == 16 * (u * w) && u * (w * 32) == 32 * (u * w) && u * w > 0)
        by (nonlinear_arith)
        requires
            u > 0,
            w > 0,
    ;
    rounding::lemma_round_error(f, m * w, u, 154);
    let r = f.round(m * w, u) as int;
    let p = pow2(130) as int;
    let half = pow2(129) as int;
    lemma_divided(r, m as int, u as int, w as int, s, half);
    let v = x.to_binary32().value();
    if x.number().negative {
        assert(v == -r);
        assert(v * s == -(r * s)) by (nonlinear_arith)
            requires
                v == -r,
        ;
    } else {
        assert(v == r);
    }
}

/// The second is as far from the first as is said, but for so many grains.
pub open spec fn moved(a: Binary64, b: Binary64, d: int, m: int, k: int) -> bool {
    &&& sized(a, m)
    &&& sized(b, m)
    &&& within(b.value() - a.value(), d, (k * grain()) as nat)
    &&& 0 <= k
}

/// What is added to both does not change how far they are apart.
pub proof fn lemma_moved_sum(a: Binary64, b: Binary64, d: int, m: int, k: int, c: Binary64, n: int)
    requires
        moved(a, b, d, m, k),
        sized(c, n),
        0 <= m,
        0 <= n,
        m + n <= 0x1000,
    ensures
        moved(a + c, b + c, d, m + n + 1, k + 2),
{
    let g = grain() as int;
    lemma_grain();
    lemma_small_sum(a, c, m, n);
    lemma_small_sum(b, c, m, n);
    assert((k + 2) * g == k * g + 2 * g) by (nonlinear_arith);
    assert(k * g >= 0) by (nonlinear_arith)
        requires
            k >= 0,
            g >= 0,
    ;
}

/// What is taken from both does not change how far they are apart.
pub proof fn lemma_moved_difference(
    a: Binary64,
    b: Binary64,
    d: int,
    m: int,
    k: int,
    c: Binary64,
    n: int,
)
    requires
        moved(a, b, d, m, k),
        sized(c, n),
        0 <= m,
        0 <= n,
        m + n <= 0x1000,
    ensures
        moved(a - c, b - c, d, m + n + 1, k + 2),
{
    binary64::lemma_negate(c);
    lemma_moved_sum(a, b, d, m, k, c.negate(), n);
    assert(a - c == a + c.negate());
    assert(b - c == b + c.negate());
}

/// In single precision they are that far apart too, but for rounding.
pub proof fn lemma_moved_narrowed(a: Binary64, b: Binary64, d: int, m: int, k: int)
    requires
        moved(a, b, d, m, k),
        0 <= m <= 16,
        k <= 0x100,
    ensures
        within(
            (b.to_binary32().value() - a.to_binary32().value()) * single_step(),
            d,
            pow2(1056),
        ),
{
    let g = grain() as int;
    let s = single_step() as int;
    lemma_grain();
    lemma_larger(a, m, 16);
    lemma_larger(b, m, 16);
    lemma_narrowed(a);
    lemma_narrowed(b);
    lemma_pow2_adds(1042, 12);
    lemma_pow2_adds(1042, 14);
    lemma2_to64();
    let (p, q) = (b.to_binary32().value(), a.to_binary32().value());
    assert((p - q) * s == p * s - q * s) by (nonlinear_arith);
    assert(0 <= k * g <= 0x100 * g) by (nonlinear_arith)
        requires
            0 <= k <= 0x100,
            g > 0,
    ;
}

/// More, with the same added, is no less.
pub proof fn lemma_sum_grows(a: Binary64, b: Binary64, c: Binary64)
    requires
        a.is_finite(),
        b.is_finite(),
        c.is_finite(),
        a.value() <= b.value(),
    ensures
        !(a + c).is_nan(),
        !(b + c).is_nan(),
        (a + c).value() <= (b + c).value(),
{
    binary64::lemma_add(a, c);
    binary64::lemma_add(b, c);
    binary64::lemma_round_monotone(a.value() + c.value(), b.value() + c.value(), 1);
}

/// More of what is not negative is no less.
pub proof fn lemma_product_grows(a: Binary64, b: Binary64, k: Binary64)
    requires
        a.is_finite(),
        b.is_finite(),
        k.is_finite(),
        a.value() <= b.value(),
        k.value() >= 0,
    ensures
        !(a * k).is_nan(),
        !(b * k).is_nan(),
        (a * k).value() <= (b * k).value(),
        !(k * a).is_nan(),
        !(k * b).is_nan(),
        (k * a).value() <= (k * b).value(),
        a.value() >= 0 ==> (a * k).value() >= 0 && (k * a).value() >= 0,
{
    let (v, w, t) = (a.value(), b.value(), k.value());
    binary64::lemma_mul(a, k);
    binary64::lemma_mul(b, k);
    binary64::lemma_mul(k, a);
    binary64::lemma_mul(k, b);
    assert(v * t <= w * t && t * v <= t * w) by (nonlinear_arith)
        requires
            v <= w,
            t >= 0,
    ;
    binary64::lemma_round_monotone(v * t, w * t, Binary64::one());
    binary64::lemma_round_monotone(t * v, t * w, Binary64::one());
    if v >= 0 {
        assert(v * t >= 0 && t * v >= 0) by (nonlinear_arith)
            requires
                v >= 0,
                t >= 0,
        ;
    }
}

/// A quotient by more is no more.
pub proof fn lemma_quotient_falls(a: Binary64, b: Binary64, c: Binary64)
    requires
        a.is_finite(),
        a.value() >= 0,
        b.is_finite(),
        c.is_finite(),
        0 < b.value() <= c.value(),
    ensures
        (a / c).value() <= (a / b).value(),
{
    binary64::lemma_div(a, b);
    binary64::lemma_div(a, c);
    let n = a.value() * Binary64::one();
    let (d, e) = (b.value() as nat, c.value() as nat);
    assert(n >= 0) by (nonlinear_arith)
        requires
            n == a.value() * Binary64::one(),
            a.value() >= 0,
            Binary64::one() >= 0,
    ;
    assert(0 <= n * d <= n * e && e * d == d * e) by (nonlinear_arith)
        requires
            n >= 0,
            0 < d <= e,
    ;
    rounding::lemma_round_scale(Format::Double, n as nat, e, d);
    rounding::lemma_round_scale(Format::Double, n as nat, d, e);
    rounding::lemma_round_monotone(Format::Double, (n * d) as nat, (n * e) as nat, e * d);
}

/// More, divided by the same, is no less.
pub proof fn lemma_quotient_grows(a: Binary64, b: Binary64, c: Binary64)
    requires
        a.is_finite(),
        b.is_finite(),
        c.is_finite(),
        c.value() > 0,
        a.value() <= b.value(),
    ensures
        !(a / c).is_nan(),
        !(b / c).is_nan(),
        (a / c).value() <= (b / c).value(),
{
    let o = Binary64::one() as int;
    binary64::lemma_div(a, c);
    binary64::lemma_div(b, c);
    assert(a.value() * o <= b.value() * o) by (nonlinear_arith)
        requires
            a.value() <= b.value(),
            o >= 0,
    ;
    binary64::lemma_round_monotone(a.value() * o, b.value() * o, c.value() as nat);
}

} // verus!
