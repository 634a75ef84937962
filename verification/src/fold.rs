//! Doubles folded into one repeat of a pattern: which coordinates come to the
//! same place.
use crate::binary64;
use crate::binary64::Binary64;
use crate::exact;
use crate::number;
use crate::number::Number;
use crate::rounding;
use crate::rounding::Format;
use vstd::arithmetic::div_mod::*;
use vstd::arithmetic::power2::*;
use vstd::prelude::*;

verus! {

/// A finite number that is still finite times thirty-two.
pub open spec fn moderate(x: Binary64) -> bool {
    x.is_finite() && number::magnitude_of(x.value()) * 32 < pow2(2098)
}

/// Thirty-two times what is not moderate is infinite.
pub proof fn lemma_overflows(x: Binary64)
    requires
        x.is_finite(),
        !moderate(x),
    ensures
        !(x * Binary64::of(32)).is_finite(),
{
    reveal(Binary64::spec_is_finite);
    let f = Format::Double;
    let o = Binary64::one();
    let y = x * Binary64::of(32);
    let n = number::magnitude_of(x.value());
    let v = x.value();
    number::lemma_constants(f);
    lemma_pow2_pos(2098);
    binary64::lemma_of(32);
    binary64::lemma_mul(x, Binary64::of(32));
    let big = (n * 32) as nat;
    rounding::lemma_round_scale(f, big, 1, o);
    assert(1 * o == o);
    assert(v * (32 * o) == big * o || v * (32 * o) == -(big * o)) by (nonlinear_arith)
        requires
            big == n * 32,
            n == v || n == -v,
    ;
    assert(big * o > 0) by (nonlinear_arith)
        requires
            big > 0,
            o > 0,
    ;
    lemma_rounds_away(big);
    if y.is_finite() {
        rounding::lemma_decode_monotone(f, y.number().bits as nat, f.infinity_bits());
        rounding::lemma_round_packs(f, 0, 1);
    }
}

/// A count past all finite ones rounds to infinity.
proof fn lemma_rounds_away(n: nat)
    requires
        n >= pow2(2098),
    ensures
        Format::Double.round(n, 1) == pow2(2098),
        Format::Double.infinity_magnitude() == pow2(2098),
{
    let f = Format::Double;
    rounding::lemma_round_monotone(f, pow2(2098), n, 1);
    lemma_pow2_pos(2098);
    rounding::lemma_round_exact(f, f.infinity_bits(), 1);
    rounding::lemma_round_packs(f, 0, 1);
    assert(pow2(2098) * 1 == pow2(2098));
}

/// What is no number makes no number of what it is combined with.
pub proof fn lemma_no_number(a: Binary64, b: Binary64)
    requires
        a.is_nan(),
    ensures
        (a + b).is_nan(),
        (b + a).is_nan(),
        (a - b).is_nan(),
        (b - a).is_nan(),
        (a * b).is_nan(),
        (b * a).is_nan(),
        (a / b).is_nan(),
        a.floor().is_nan(),
        !a.is_finite(),
{
    reveal(Binary64::spec_add);
    reveal(Binary64::spec_mul);
    reveal(Binary64::spec_euclidean_or_real_div);
    reveal(Binary64::spec_floor);
    reveal(Binary64::spec_is_nan);
    reveal(Binary64::spec_is_finite);
    number::lemma_constants(Format::Double);
    binary64::lemma_negate(a);
    assert(a - b == a + b.negate());
    assert(b - a == b + a.negate());
}

/// The fold of what is infinite is no number.
pub proof fn lemma_fold_of_infinity(x: Binary64, size: Binary64)
    requires
        !x.is_finite(),
    ensures
        x.rem_euclid(size).is_nan(),
{
    reveal(Binary64::spec_remainder);
    reveal(Binary64::spec_is_nan);
    reveal(Binary64::spec_is_finite);
    number::lemma_constants(Format::Double);
    binary64::lemma_order(x.remainder(size), Binary64::of(0));
}

/// What a significand on a binary scale counts needs no rounding.
pub proof fn lemma_on_scale(f: Format, m: nat, k: nat)
    requires
        m < pow2(f.precision()),
        m * pow2(k) < f.infinity_magnitude(),
    ensures
        f.round(m * pow2(k), 1) == m * pow2(k),
{
    let n = (m * pow2(k)) as nat;
    let p = f.precision();
    lemma_pow2_pos(k);
    lemma_pow2_adds(p, k);
    assert(n < pow2(p + k)) by (nonlinear_arith)
        requires
            n == m * pow2(k),
            m < pow2(p),
            pow2(p + k) == pow2(p) * pow2(k),
            pow2(k) > 0,
    ;
    rounding::lemma_bit_length_upper(n, p + k);
    let s = f.shift_of(n);
    assert(s <= k);
    lemma_pow2_adds((k - s) as nat, s);
    let q = (m * pow2((k - s) as nat)) as nat;
    assert(n == q * pow2(s)) by (nonlinear_arith)
        requires
            n == m * pow2(k),
            q == m * pow2((k - s) as nat),
            pow2(k) == pow2((k - s) as nat) * pow2(s),
    ;
    lemma_pow2_pos(s);
    rounding::lemma_nearest_even_exact(q, pow2(s));
    assert(n / 1 == n);
    assert(1 * pow2(s) == pow2(s));
}

/// There is a number of that count.
proof fn lemma_number(m: nat, k: nat, negative: bool) -> (x: Binary64)
    requires
        m < 0x20000000000000,
        m * pow2(k) < pow2(2098),
    ensures
        x.is_finite(),
        x.value() == if negative {
            -(m * pow2(k))
        } else {
            (m * pow2(k)) as int
        },
{
    reveal(Binary64::spec_is_finite);
    let f = Format::Double;
    let n = (m * pow2(k)) as nat;
    lemma2_to64_rest();
    lemma_on_scale(f, m, k);
    number::lemma_constants(f);
    rounding::lemma_round_packs(f, n, 1);
    rounding::lemma_decode_monotone(f, f.encode(n), f.infinity_bits());
    let bits = f.encode(n);
    let x = Binary64::of_number(Number { negative, bits: bits as u64 });
    assert(x.number() == (Number { negative, bits: bits as u64 }));
    x
}

/// A number times a power of two is that many times as large.
pub proof fn lemma_times_power(x: Binary64, p: i64, a: nat)
    requires
        moderate(x),
        p == pow2(a),
        a <= 5,
    ensures
        (x * Binary64::of(p)).is_finite(),
        (x * Binary64::of(p)).value() == x.value() * p,
{
    let f = Format::Double;
    lemma2_to64();
    lemma2_to64_rest();
    lemma_pow2_pos(a);
    if a < 5 {
        lemma_pow2_strictly_increases(a, 5);
    }
    number::lemma_constants(f);
    binary64::lemma_of(p);
    let (k, m) = rounding::lemma_unpack(f, x.number().bits as nat);
    lemma_pow2_adds(k, a);
    let v = x.value();
    let size = x.number().magnitude(f);
    assert(m * pow2(k + a) == size * p) by (nonlinear_arith)
        requires
            size == m * pow2(k),
            pow2(k + a) == pow2(k) * p,
    ;
    assert(size * p < pow2(2098)) by (nonlinear_arith)
        requires
            size * 32 < pow2(2098),
            0 < p <= 32,
            size >= 0,
    ;
    let y = lemma_number(m, k + a, v < 0);
    assert(y.value() == v * p) by (nonlinear_arith)
        requires
            v == size && y.value() == size * p && v >= 0 || v == -size && y.value() == -(size * p)
                || size == 0 && v == 0 && y.value() == 0,
    ;
    let one = Binary64::one() as int;
    assert(v * (p * one) == y.value() * one) by (nonlinear_arith)
        requires
            y.value() == v * p,
    ;
    binary64::lemma_product_between(x, Binary64::of(p), y, y);
}

/// What is left of a number when a power of two has been taken away as often
/// as it goes in needs no rounding.
proof fn lemma_rest_exact(m: nat, k: nat, e: nat)
    requires
        m < 0x20000000000000,
        e <= 1100,
    ensures
        Format::Double.round((m * pow2(k)) as nat % pow2(e), 1) == (m * pow2(k)) as nat % pow2(e),
{
    let n = (m * pow2(k)) as nat;
    lemma_pow2_pos(e);
    lemma_pow2_strictly_increases(e, 2098);
    lemma_mod_bound(n as int, pow2(e) as int);
    if k >= e {
        lemma_pow2_adds((k - e) as nat, e);
        let q = m * pow2((k - e) as nat);
        assert(n == q * pow2(e)) by (nonlinear_arith)
            requires
                n == m * pow2(k),
                q == m * pow2((k - e) as nat),
                pow2(k) == pow2((k - e) as nat) * pow2(e),
        ;
        lemma_fundamental_div_mod_converse(n as int, pow2(e) as int, q as int, 0);
        rounding::lemma_round_zero(Format::Double, 1);
    } else {
        lemma_pow2_pos(k);
        lemma_pow2_pos((e - k) as nat);
        lemma_pow2_adds((e - k) as nat, k);
        let (c, d) = (pow2((e - k) as nat) as int, pow2(k) as int);
        let r = (m as int) % c;
        let q = (m as int) / c;
        lemma_fundamental_div_mod(m as int, c);
        lemma_mod_bound(m as int, c);
        assert(n == q * pow2(e) + r * d && 0 <= r * d < pow2(e)) by (nonlinear_arith)
            requires
                n == m * d,
                m == c * q + r,
                pow2(e) == c * d,
                0 <= r < c,
                d > 0,
        ;
        lemma_fundamental_div_mod_converse(n as int, pow2(e) as int, q, r * d);
        assert(r <= m) by {
            lemma_mod_decreases(m, c as nat);
        }
        lemma2_to64_rest();
        lemma_on_scale(Format::Double, r as nat, k);
    }
}

/// The place a coordinate is folded to is told by what it leaves over.
proof fn lemma_folded(x: Binary64, p: i64, a: nat)
    requires
        x.is_finite(),
        p == pow2(a),
        a <= 5,
    ensures
        x.rem_euclid(Binary64::of(p)).is_finite(),
        x.rem_euclid(Binary64::of(p)).value() == binary64::round_value(
            x.value() % (p * Binary64::one()),
            1,
        ),
        x.rem_euclid(Binary64::of(p)).value() >= 0,
{
    reveal(Binary64::spec_remainder);
    reveal(Binary64::spec_is_finite);
    reveal(Binary64::spec_is_nan);
    let f = Format::Double;
    lemma2_to64();
    lemma2_to64_rest();
    number::lemma_constants(f);
    binary64::lemma_of(p);
    binary64::lemma_of(0);
    lemma_pow2_adds(a, 1074);
    lemma_pow2_pos(1074 + a);
    let size = Binary64::of(p);
    let s = (p * Binary64::one()) as nat;
    assert(s == pow2(1074 + a));
    let n = x.number().magnitude(f);
    let (k, m) = rounding::lemma_unpack(f, x.number().bits as nat);
    lemma_rest_exact(m, k, 1074 + a);
    rounding::lemma_decode_monotone(f, size.number().bits as nat, 0);
    rounding::lemma_round_zero(f, 1);
    number::lemma_rounded(f, x.number().negative, n % s, 1);
    let left = x.remainder(size);
    assert(left.number() == Number::rounded(f, x.number().negative, n % s, 1));
    let r = (n % s) as int;
    lemma_mod_bound(n as int, s as int);
    binary64::lemma_order(left, Binary64::of(0));
    binary64::lemma_order(size, size);
    lemma_fundamental_div_mod(n as int, s as int);
    let q = (n / s) as int;
    if x.number().negative && r != 0 {
        binary64::lemma_abs(size);
        assert(-(n as int) == (-q - 1) * s + (s - r)) by (nonlinear_arith)
            requires
                n == s * q + r,
        ;
        lemma_fundamental_div_mod_converse(-(n as int), s as int, -q - 1, s - r);
        binary64::lemma_finite_below(left, size);
        binary64::lemma_sum_between(left, size.abs(), Binary64::of(0), size);
        binary64::lemma_add(left, size.abs());
    } else {
        if x.number().negative {
            assert(-(n as int) == (-q) * s + 0) by (nonlinear_arith)
                requires
                    n == s * q,
            ;
            lemma_fundamental_div_mod_converse(-(n as int), s as int, -q, 0);
        }
        binary64::lemma_finite_below(left, size);
    }
}

/// Coordinates that are whole repeats apart fold to the same place.
pub proof fn lemma_fold(x: Binary64, y: Binary64, p: i64, a: nat, i: int)
    requires
        x.is_finite(),
        y.is_finite(),
        p == pow2(a),
        a <= 5,
        y.value() == x.value() + i * (p * Binary64::one()),
    ensures
        x.rem_euclid(Binary64::of(p)).is_finite(),
        y.rem_euclid(Binary64::of(p)).is_finite(),
        x.rem_euclid(Binary64::of(p)).value() == y.rem_euclid(Binary64::of(p)).value(),
{
    lemma_folded(x, p, a);
    lemma_folded(y, p, a);
    lemma_pow2_pos(a);
    binary64::lemma_of(1);
    let s = p * Binary64::one();
    assert(s > 0) by (nonlinear_arith)
        requires
            s == p * Binary64::one(),
            p > 0,
            Binary64::one() > 0,
    ;
    assert(y.value() == s * i + x.value()) by (nonlinear_arith)
        requires
            y.value() == x.value() + i * s,
    ;
    lemma_mod_multiples_vanish(i, x.value(), s);
}

/// A number is told by its count, but for the sign of zero.
proof fn lemma_told(x: Binary64, y: Binary64)
    requires
        x.is_finite(),
        y.is_finite(),
        x.value() == y.value(),
        x.value() != 0,
    ensures
        x == y,
{
    reveal(Binary64::spec_is_finite);
    let f = Format::Double;
    rounding::lemma_decode_monotone(f, x.number().bits as nat, y.number().bits as nat);
    assert(x.number() == y.number());
    assert(x.bits == y.bits);
}

/// A zero of either sign is in the first cell and at its start.
proof fn lemma_zero(x: Binary64)
    requires
        x.is_finite(),
        x.value() == 0,
    ensures
        x.floor().to_integer(0, 64) == 0,
        x - x.floor() == Binary64::of_number(Number { negative: false, bits: 0 }),
{
    reveal(Binary64::spec_is_finite);
    let f = Format::Double;
    exact::lemma_step(0);
    let one = Binary64::one() as int;
    assert(0 * one == 0 && (0 + 1) * one == one) by (nonlinear_arith);
    exact::lemma_floor(x, 0);
    exact::lemma_to_integer(x.floor(), 0, 0, 64);
    number::lemma_constants(f);
    binary64::lemma_negate(x.floor());
    reveal(Binary64::spec_floor);
    reveal(Binary64::spec_negate);
    reveal(Binary64::spec_add);
    number::lemma_whole_exact(f, x.number().negative, 0);
    assert(0nat / Binary64::one() == 0);
    assert(x.floor().number().negative == x.number().negative);
    assert(x - x.floor() == x + x.floor().negate());
}

/// Numbers of one count are in the same cell, and as far into it.
pub proof fn lemma_same_cell(x: Binary64, y: Binary64)
    requires
        x.is_finite(),
        y.is_finite(),
        x.value() == y.value(),
    ensures
        x.floor().to_integer(0, 64) == y.floor().to_integer(0, 64),
        x - x.floor() == y - y.floor(),
{
    if x.value() == 0 {
        lemma_zero(x);
        lemma_zero(y);
    } else {
        lemma_told(x, y);
    }
}

} // verus!
