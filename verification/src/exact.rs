//! Doubles that are so many steps of a binary fraction, and when sums,
//! products, quotients and whole parts of them come out exactly.
use crate::binary64;
use crate::binary64::Binary64;
use crate::number;
use crate::number::Number;
use crate::rounding;
use crate::rounding::Format;
use vstd::arithmetic::div_mod::*;
use vstd::arithmetic::power2::*;
use vstd::prelude::*;

verus! {

/// One over two to the power of `j`, counted in the smallest positive number.
pub open spec fn step(j: nat) -> nat {
    pow2((1074 - j) as nat)
}

/// The number is `m` steps.
pub open spec fn steps(x: Binary64, m: int, j: nat) -> bool {
    x.is_finite() && x.value() == m * step(j)
}

/// So many steps fit a significand.
pub open spec fn fits(m: int) -> bool {
    -0x20000000000000 <= m <= 0x20000000000000
}

pub proof fn lemma_step(j: nat)
    requires
        j <= 1074,
    ensures
        step(j) > 0,
        step(0) == Binary64::one(),
        step(j) * pow2(j) == Binary64::one(),
{
    lemma_pow2_pos((1074 - j) as nat);
    lemma_pow2_adds((1074 - j) as nat, j);
}

/// There is a number of so many steps.
pub proof fn lemma_number(m: int, j: nat) -> (x: Binary64)
    requires
        fits(m),
        j <= 1000,
    ensures
        steps(x, m, j),
        !x.is_nan(),
{
    reveal(Binary64::spec_is_finite);
    reveal(Binary64::spec_is_nan);
    number::lemma_constants(Format::Double);
    let size: nat = number::magnitude_of(m);
    let s = (1074 - j) as nat;
    number::lemma_scaled_exact(Format::Double, size, s);
    let bits = Format::Double.encode(size * pow2(s));
    let x = Binary64::of_number(Number { negative: m < 0, bits: bits as u64 });
    assert(x.number() == (Number { negative: m < 0, bits: bits as u64 }));
    assert((-(size as int)) * pow2(s) == -(size * pow2(s))) by (nonlinear_arith);
    x
}

/// A sum of steps.
pub proof fn lemma_sum(a: Binary64, p: int, b: Binary64, r: int, j: nat)
    requires
        steps(a, p, j),
        steps(b, r, j),
        fits(p + r),
        j <= 1000,
    ensures
        steps(a + b, p + r, j),
{
    let x = lemma_number(p + r, j);
    assert((p + r) * step(j) == p * step(j) + r * step(j)) by (nonlinear_arith);
    binary64::lemma_sum_between(a, b, x, x);
}

/// A difference of steps.
pub proof fn lemma_difference(a: Binary64, p: int, b: Binary64, r: int, j: nat)
    requires
        steps(a, p, j),
        steps(b, r, j),
        fits(p - r),
        j <= 1000,
    ensures
        steps(a - b, p - r, j),
{
    binary64::lemma_negate(b);
    assert((-r) * step(j) == -(r * step(j))) by (nonlinear_arith);
    lemma_sum(a, p, b.negate(), -r, j);
    assert(a - b == a + b.negate());
}

proof fn lemma_steps_multiply(i: nat, j: nat)
    requires
        i + j <= 1000,
    ensures
        step(i) * step(j) == step(i + j) * Binary64::one(),
{
    lemma_pow2_adds((1074 - i) as nat, (1074 - j) as nat);
    lemma_pow2_adds((1074 - (i + j)) as nat, 1074);
}

/// A product of steps.
pub proof fn lemma_product(a: Binary64, p: int, i: nat, b: Binary64, r: int, j: nat)
    requires
        steps(a, p, i),
        steps(b, r, j),
        fits(p * r),
        i + j <= 1000,
    ensures
        steps(a * b, p * r, i + j),
{
    let x = lemma_number(p * r, i + j);
    let one = Binary64::one();
    let (s, t, u) = (step(i) as int, step(j) as int, step(i + j) as int);
    lemma_steps_multiply(i, j);
    assert((p * s) * (r * t) == ((p * r) * u) * one) by (nonlinear_arith)
        requires
            s * t == u * one,
    ;
    binary64::lemma_product_between(a, b, x, x);
}

/// The same number in finer steps.
pub proof fn lemma_refine(x: Binary64, m: int, j: nat, k: nat)
    requires
        steps(x, m, j),
        j + k <= 1000,
    ensures
        steps(x, m * pow2(k), j + k),
{
    lemma_pow2_adds((1074 - (j + k)) as nat, k);
    assert(m * step(j) == (m * pow2(k)) * step(j + k)) by (nonlinear_arith)
        requires
            step(j) == step(j + k) * pow2(k),
    ;
}

/// The same number in coarser steps.
pub proof fn lemma_coarsen(x: Binary64, m: int, j: nat, k: nat)
    requires
        steps(x, m * pow2(k), j + k),
        j + k <= 1000,
    ensures
        steps(x, m, j),
{
    lemma_pow2_adds((1074 - (j + k)) as nat, k);
    assert(m * step(j) == (m * pow2(k)) * step(j + k)) by (nonlinear_arith)
        requires
            step(j) == step(j + k) * pow2(k),
    ;
}

/// The whole number below.
pub proof fn lemma_floor(a: Binary64, k: int)
    requires
        a.is_finite(),
        -0x10000000000000 <= k <= 0x10000000000000,
        k * Binary64::one() <= a.value() < (k + 1) * Binary64::one(),
    ensures
        steps(a.floor(), k, 0),
{
    reveal(Binary64::spec_floor);
    reveal(Binary64::spec_is_finite);
    let one = Binary64::one() as int;
    let x = a.number();
    let v = x.magnitude(Format::Double) as int;
    number::lemma_constants(Format::Double);
    lemma_step(0);
    lemma_fundamental_div_mod(v, one);
    let q = x.whole(Format::Double) as int;
    let rest = v % one;
    if !x.negative {
        assert(q == k) by (nonlinear_arith)
            requires
                v == one * q + rest,
                0 <= rest < one,
                k * one <= v < (k + 1) * one,
                one > 0,
        ;
        number::lemma_whole_exact(Format::Double, false, q as nat);
    } else {
        let up = if x.has_fraction(Format::Double) {
            q + 1
        } else {
            q
        };
        assert(up == -k) by (nonlinear_arith)
            requires
                v == one * q + rest,
                0 <= rest < one,
                k * one <= -v < (k + 1) * one,
                up == if rest != 0 {
                    q + 1
                } else {
                    q
                },
                one > 0,
        ;
        number::lemma_whole_exact(Format::Double, true, up as nat);
        assert(k * one == -(up * one)) by (nonlinear_arith)
            requires
                up == -k,
        ;
    }
}

/// A ratio over a power of two is exact.
pub proof fn lemma_ratio(n: u64, d: u64, j: nat)
    requires
        0 < n <= 0x20000000000000,
        d == pow2(j),
        j <= 63,
    ensures
        steps(Binary64::ratio(n, d), n as int, j),
{
    reveal(Binary64::spec_ratio);
    reveal(Binary64::spec_is_finite);
    reveal(Binary64::spec_is_nan);
    lemma_pow2_pos(j);
    let x = lemma_number(n as int, j);
    lemma_step(j);
    number::lemma_constants(Format::Double);
    let one = Binary64::one();
    number::lemma_rounded(Format::Double, false, n as nat * one, d as nat);
    assert(n as nat * one == x.value() * d) by (nonlinear_arith)
        requires
            x.value() == n * step(j),
            step(j) * d == one,
    ;
    binary64::lemma_round_exact(x, d as nat);
    assert(Binary64::ratio(n, d).value() == x.value());
    binary64::lemma_between_finite(Binary64::ratio(n, d), x, x);
}

/// A number that is large enough is whole.
proof fn lemma_large_is_whole(x: Number)
    requires
        x.bits as nat / Format::Double.lead() >= 1075,
    ensures
        !x.has_fraction(Format::Double),
        x.whole(Format::Double) * Binary64::one() == x.magnitude(Format::Double),
{
    let f = Format::Double;
    let one = Binary64::one();
    let lead = f.lead();
    let field = x.bits as nat / lead;
    let fraction = x.bits as nat % lead;
    let v = x.magnitude(f);
    let k = (field - 1075) as nat;
    lemma_pow2_pos(1074);
    lemma_pow2_adds(1074, k);
    let m = (lead + fraction) * pow2(k);
    assert(v == m * one) by (nonlinear_arith)
        requires
            v == (lead + fraction) * pow2((field - 1) as nat),
            pow2((field - 1) as nat) == one * pow2(k),
            m == (lead + fraction) * pow2(k),
    ;
    lemma_fundamental_div_mod_converse(v as int, one as int, m as int, 0);
}

/// A number that is not large has a whole part that fits a significand.
proof fn lemma_small_whole(x: Number)
    requires
        x.bits as nat / Format::Double.lead() < 1075,
    ensures
        x.whole(Format::Double) < Format::Double.lead(),
{
    let f = Format::Double;
    let one = Binary64::one();
    let lead = f.lead();
    let field = x.bits as nat / lead;
    let fraction = x.bits as nat % lead;
    let v = x.magnitude(f);
    let whole = x.whole(f);
    lemma_pow2_pos(1074);
    lemma_pow2_pos(52);
    lemma_fundamental_div_mod(v as int, one as int);
    if field > 0 {
        let p = pow2((field - 1) as nat);
        lemma_pow2_unfold(1074);
        lemma_pow2_pos((field - 1) as nat);
        if field < 1074 {
            lemma_pow2_strictly_increases((field - 1) as nat, 1073);
        }
        assert(v < lead * one) by (nonlinear_arith)
            requires
                v == (lead + fraction) * p,
                fraction < lead,
                2 * p <= one,
                p > 0,
                lead > 0,
        ;
    } else {
        assert(v < lead * one) by (nonlinear_arith)
            requires
                v < lead,
                one > 0,
        ;
    }
    assert(whole < lead) by (nonlinear_arith)
        requires
            v == one * whole + v % one,
            v % one >= 0,
            v < lead * one,
            one > 0,
    ;
}

/// The whole part of a finite number is finite.
pub proof fn lemma_floor_finite(a: Binary64)
    requires
        a.is_finite(),
    ensures
        a.floor().is_finite(),
{
    reveal(Binary64::spec_floor);
    reveal(Binary64::spec_is_finite);
    reveal(Binary64::spec_is_nan);
    let f = Format::Double;
    let x = a.number();
    let whole = x.whole(f);
    number::lemma_constants(f);
    if x.bits as nat / f.lead() >= 1075 {
        lemma_large_is_whole(x);
        number::lemma_rounded(f, x.negative, x.magnitude(f), 1);
        binary64::lemma_round_exact(a, 1);
        let r = Number::ratio_spec(f, x.negative, whole, 1);
        rounding::lemma_decode_monotone(f, r.bits as nat, x.bits as nat);
    } else {
        lemma_small_whole(x);
        number::lemma_whole_exact(f, x.negative, whole);
        number::lemma_whole_exact(f, x.negative, whole + 1);
    }
}

/// The whole part of a quotient, which stays clear of the next whole number by
/// more than a division can round away.
pub proof fn lemma_quotient_floor(a: Binary64, b: Binary64, k: int)
    requires
        a.is_finite(),
        b.is_finite(),
        b.value() > 0,
        -0x100000 <= k <= 0x100000,
        k * b.value() <= a.value(),
        a.value() * 0x100000 <= ((k + 1) * 0x100000 - 1) * b.value(),
    ensures
        steps((a / b).floor(), k, 0),
{
    let one = Binary64::one() as int;
    let (x, y) = (a.value(), b.value());
    let low = lemma_number(k, 0);
    let top = (k + 1) * 0x100000 - 1;
    let high = lemma_number(top, 20);
    lemma_step(0);
    lemma_step(20);
    lemma2_to64();
    let s = step(20) as int;
    assert(s * 0x100000 == one);
    assert((k * one) * y <= x * one) by (nonlinear_arith)
        requires
            k * y <= x,
            one > 0,
    ;
    assert(x * one <= (top * s) * y) by (nonlinear_arith)
        requires
            x * 0x100000 <= top * y,
            s * 0x100000 == one,
            s > 0,
    ;
    binary64::lemma_quotient_between(a, b, low, high);
    assert(top * s < (k + 1) * one) by (nonlinear_arith)
        requires
            top == (k + 1) * 0x100000 - 1,
            s * 0x100000 == one,
            s > 0,
    ;
    lemma_floor(a / b, k);
}

/// What lies less than a half from a whole number rounds to it.
pub proof fn lemma_round(x: Binary64, m: int)
    requires
        x.is_finite(),
        -Binary64::one() < 2 * (x.value() - m * Binary64::one()) < Binary64::one(),
        fits(m),
    ensures
        steps(x.round(), m, 0),
{
    reveal(Binary64::spec_round);
    reveal(Binary64::spec_is_finite);
    let one = Binary64::one() as int;
    let n = x.number();
    let v = n.magnitude(Format::Double) as int;
    let size = number::magnitude_of(m) as int;
    number::lemma_constants(Format::Double);
    lemma_step(0);
    let toward = if n.negative {
        -m
    } else {
        m
    };
    assert(-one < 2 * (v - toward * one) < one) by (nonlinear_arith)
        requires
            -one < 2 * (x.value() - m * one) < one,
            x.value() == v && toward == m || x.value() == -v && toward == -m,
    ;
    assert(toward >= 0) by (nonlinear_arith)
        requires
            2 * (v - toward * one) < one,
            v >= 0,
            one > 0,
    ;
    assert(size == toward);
    assert((size - 1) * one == size * one - one && (size + 1) * one == size * one + one)
        by (nonlinear_arith);
    if v >= size * one {
        lemma_fundamental_div_mod_converse(v, one, size, v - size * one);
    } else {
        lemma_fundamental_div_mod_converse(v, one, size - 1, v - (size - 1) * one);
        assert(size >= 1) by (nonlinear_arith)
            requires
                v < size * one,
                v >= 0,
                one > 0,
        ;
    }
    number::lemma_whole_exact(Format::Double, n.negative, size as nat);
    assert((-size) * one == -(size * one)) by (nonlinear_arith);
}

/// A whole number as an integer.
pub proof fn lemma_to_integer(x: Binary64, m: int, low: i64, high: i64)
    requires
        steps(x, m, 0),
        low <= 0 <= high,
        low <= m <= high,
    ensures
        x.to_integer(low, high) == m,
{
    reveal(Binary64::spec_to_integer);
    reveal(Binary64::spec_is_finite);
    let one = Binary64::one() as int;
    let n = x.number();
    let v = n.magnitude(Format::Double) as int;
    number::lemma_constants(Format::Double);
    lemma_step(0);
    let size = number::magnitude_of(m) as int;
    assert(v == size * one && (n.negative ==> m <= 0) && (!n.negative ==> m >= 0)) by (nonlinear_arith)
        requires
            v >= 0,
            m * one == if n.negative {
                -v
            } else {
                v
            },
            size == if m < 0 {
                -m
            } else {
                m
            },
            one > 0,
    ;
    assert(one * size == size * one) by (nonlinear_arith);
    lemma_div_multiples_vanish(size, one);
}

} // verus!
