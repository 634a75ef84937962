//! Which numbers stay clear of the negative ones when they are added,
//! multiplied and divided, infinities and "not a number" among them.
use crate::binary64;
use crate::binary64::Binary64;
use crate::number;
use crate::number::Number;
use crate::rounding;
use crate::rounding::Format;
use vstd::arithmetic::power2::*;
use vstd::prelude::*;

verus! {

/// The number is not below zero; "not a number" is not.
pub open spec fn not_negative(x: Binary64) -> bool {
    x.is_nan() || x.value() >= 0
}

/// The number has no minus sign, or is none.
pub open spec fn unsigned(x: Binary64) -> bool {
    x.is_nan() || !x.number().negative
}

/// A number above zero has no sign.
pub proof fn lemma_positive(x: Binary64)
    requires
        x.value() > 0,
    ensures
        unsigned(x),
{
}

/// A product has a sign where its factors' signs differ.
pub proof fn lemma_product_sign(a: Binary64, b: Binary64)
    ensures
        (a * b).is_nan() || (a * b).number().negative == (a.number().negative
            != b.number().negative),
{
    reveal(Binary64::spec_mul);
    reveal(Binary64::spec_is_nan);
    let f = Format::Double;
    number::lemma_constants(f);
    lemma_pow2_pos(f.unit());
    number::lemma_rounded(
        f,
        a.number().negative != b.number().negative,
        a.number().magnitude(f) * b.number().magnitude(f),
        pow2(f.unit()),
    );
}

/// A quotient has a sign where those of its parts differ.
pub proof fn lemma_quotient_sign(a: Binary64, b: Binary64)
    ensures
        (a / b).is_nan() || (a / b).number().negative == (a.number().negative
            != b.number().negative),
{
    reveal(Binary64::spec_euclidean_or_real_div);
    reveal(Binary64::spec_is_nan);
    let f = Format::Double;
    let (x, y) = (a.number(), b.number());
    number::lemma_constants(f);
    if y.magnitude(f) > 0 {
        number::lemma_rounded(
            f,
            x.negative != y.negative,
            x.magnitude(f) * pow2(f.unit()),
            y.magnitude(f),
        );
    } else if y.bits != 0 {
        rounding::lemma_decode_monotone(f, 0, y.bits as nat);
    }
}

/// Of zero there is nothing stored but the sign.
proof fn lemma_zero_bits(x: Binary64)
    requires
        x.value() == 0,
    ensures
        x.number().bits == 0,
{
    let f = Format::Double;
    number::lemma_constants(f);
    rounding::lemma_decode_packs(f, 0, 0);
    rounding::lemma_decode_monotone(f, 0, x.number().bits as nat);
}

/// A sum of numbers not below zero is not below it.
pub proof fn lemma_sum(a: Binary64, b: Binary64)
    requires
        not_negative(a),
        not_negative(b),
    ensures
        not_negative(a + b),
{
    reveal(Binary64::spec_add);
    reveal(Binary64::spec_is_nan);
    let f = Format::Double;
    let exact = a.value() + b.value();
    number::lemma_constants(f);
    rounding::lemma_decode_packs(f, 0, 0);
    if exact >= 0 {
        number::lemma_rounded(f, false, exact as nat, 1);
    }
}

/// A product of numbers not below zero is not below it.
pub proof fn lemma_product(a: Binary64, b: Binary64)
    requires
        not_negative(a),
        not_negative(b),
    ensures
        not_negative(a * b),
{
    reveal(Binary64::spec_mul);
    reveal(Binary64::spec_is_nan);
    let f = Format::Double;
    lemma_product_sign(a, b);
    number::lemma_constants(f);
    if !a.is_nan() && !b.is_nan() && (a.number().negative || b.number().negative) {
        lemma_pow2_pos(f.unit());
        rounding::lemma_round_zero(f, pow2(f.unit()));
        if a.number().negative {
            lemma_zero_bits(a);
        }
        if b.number().negative {
            lemma_zero_bits(b);
        }
        let (x, y) = (a.number().magnitude(f), b.number().magnitude(f));
        assert(x * y == 0) by (nonlinear_arith)
            requires
                x == 0 || y == 0,
        ;
        number::lemma_rounded(
            f,
            a.number().negative != b.number().negative,
            0,
            pow2(f.unit()),
        );
    }
}

/// A number not below zero, divided by one without a sign, is not below zero.
pub proof fn lemma_quotient(a: Binary64, b: Binary64)
    requires
        not_negative(a),
        unsigned(b),
    ensures
        not_negative(a / b),
{
    reveal(Binary64::spec_euclidean_or_real_div);
    reveal(Binary64::spec_is_nan);
    let f = Format::Double;
    lemma_quotient_sign(a, b);
    number::lemma_constants(f);
    if !a.is_nan() && !b.is_nan() && a.number().negative {
        lemma_zero_bits(a);
        rounding::lemma_decode_packs(f, 0, 0);
        let y = b.number().magnitude(f);
        if b.value() == 0 {
            lemma_zero_bits(b);
        } else {
            rounding::lemma_round_zero(f, y);
            assert(a.number().magnitude(f) * pow2(f.unit()) == 0) by (nonlinear_arith)
                requires
                    a.number().magnitude(f) == 0,
            ;
            number::lemma_rounded(f, a.number().negative != b.number().negative, 0, y);
        }
    }
}

/// The two are the same but for the sign, which a zero may have or not, or both
/// are none.
pub open spec fn opposite(a: Binary64, b: Binary64) -> bool {
    ||| a.is_nan() && b.is_nan()
    ||| {
        &&& !a.is_nan()
        &&& !b.is_nan()
        &&& a.number().bits == b.number().bits
        &&& a.number().negative != b.number().negative || a.number().bits == 0
    }
}

/// Opposite numbers count as opposite, and are finite together.
pub proof fn lemma_opposite(a: Binary64, b: Binary64)
    requires
        opposite(a, b),
    ensures
        a.is_nan() == b.is_nan(),
        a.is_finite() == b.is_finite(),
        !a.is_nan() ==> a.value() == -b.value() && a.abs() == b.abs(),
        opposite(b, a),
{
    reveal(Binary64::spec_is_nan);
    reveal(Binary64::spec_is_finite);
    reveal(Binary64::spec_abs);
    let f = Format::Double;
    number::lemma_constants(f);
    if a.number().bits == 0 {
        rounding::lemma_decode_packs(f, 0, 0);
        assert(0 * pow2(0) == 0);
    }
}

/// What a sum is made of.
proof fn lemma_sum_number(a: Binary64, b: Binary64)
    ensures
        (a + b).number() == a.number().sum_spec(b.number(), Format::Double),
        (a + b).is_nan() == (a + b).number().nan_in(Format::Double),
        !a.number().nan_in(Format::Double) && !b.number().nan_in(Format::Double)
            && !a.number().infinite_in(Format::Double) && !b.number().infinite_in(Format::Double)
            ==> !(a + b).is_nan(),
{
    reveal(Binary64::spec_is_nan);
    reveal(Binary64::spec_add);
    let f = Format::Double;
    number::lemma_constants(f);
    let exact = a.value() + b.value();
    number::lemma_rounded(f, exact < 0, number::magnitude_of(exact), 1);
}

/// A sum of opposites is the opposite.
pub proof fn lemma_opposite_sum(a: Binary64, b: Binary64, c: Binary64, d: Binary64)
    requires
        opposite(a, b),
        opposite(c, d),
    ensures
        opposite(a + c, b + d),
{
    let f = Format::Double;
    let (x, y, z, w) = (a.number(), b.number(), c.number(), d.number());
    lemma_opposite(a, b);
    lemma_opposite(c, d);
    lemma_sum_number(a, c);
    lemma_sum_number(b, d);
    assert(a.is_nan() == x.nan_in(f) && b.is_nan() == y.nan_in(f) && c.is_nan() == z.nan_in(f)
        && d.is_nan() == w.nan_in(f)) by {
        reveal(Binary64::spec_is_nan);
    }
    assert(Number::nan_spec(f).nan_in(f) && f.infinity_bits() > 0) by {
        number::lemma_constants(f);
    }
}

/// What is taken away has the opposite sign.
pub proof fn lemma_opposite_negated(a: Binary64)
    ensures
        opposite(a, a.negate()),
{
    reveal(Binary64::spec_is_nan);
    reveal(Binary64::spec_negate);
}

/// The order of a sum's parts does not matter.
pub proof fn lemma_sum_commutes(a: Binary64, b: Binary64)
    ensures
        a + b == b + a,
{
    reveal(Binary64::spec_add);
}

/// A difference the other way round is the opposite.
pub proof fn lemma_opposite_difference(a: Binary64, b: Binary64)
    ensures
        opposite(a - b, b - a),
{
    binary64::lemma_negate(b);
    lemma_opposite_negated(a);
    lemma_opposite_negated(b.negate());
    lemma_opposite_sum(a, a.negate(), b.negate(), b);
    lemma_sum_commutes(a.negate(), b);
    assert(a - b == a + b.negate());
    assert(b - a == b + a.negate());
}

/// What a product is made of.
proof fn lemma_product_number(a: Binary64, b: Binary64)
    ensures
        (a * b).number() == a.number().product_spec(b.number(), Format::Double),
        (a * b).is_nan() == (a * b).number().nan_in(Format::Double),
{
    reveal(Binary64::spec_is_nan);
    reveal(Binary64::spec_mul);
    let f = Format::Double;
    let (x, y) = (a.number(), b.number());
    number::lemma_constants(f);
    lemma_pow2_pos(f.unit());
    number::lemma_rounded(
        f,
        x.negative != y.negative,
        x.magnitude(f) * y.magnitude(f),
        pow2(f.unit()),
    );
}

/// A product with an opposite is the opposite.
pub proof fn lemma_opposite_factor(a: Binary64, b: Binary64, k: Binary64)
    requires
        opposite(a, b),
    ensures
        opposite(a * k, b * k),
{
    let f = Format::Double;
    let (x, y, z) = (a.number(), b.number(), k.number());
    lemma_product_number(a, k);
    lemma_product_number(b, k);
    assert(a.is_nan() == x.nan_in(f) && b.is_nan() == y.nan_in(f)) by {
        reveal(Binary64::spec_is_nan);
    }
    assert(Number::nan_spec(f).nan_in(f)) by {
        number::lemma_constants(f);
    }
    let (p, q) = (x.product_spec(z, f), y.product_spec(z, f));
    if !a.is_nan() {
        assert(x.magnitude(f) == y.magnitude(f));
        assert(p.bits == q.bits);
        if x.bits == 0 && !z.nan_in(f) && !z.infinite_in(f) {
            assert(p.bits == 0) by {
                number::lemma_constants(f);
                lemma_zero_bits_product(z);
            }
        }
    }
}

/// Nothing times a finite number is nothing.
proof fn lemma_zero_bits_product(z: Number)
    ensures
        Format::Double.decode(0) * z.magnitude(Format::Double) == 0,
        Format::Double.encode(Format::Double.round(0, pow2(Format::Double.unit()))) == 0,
{
    let f = Format::Double;
    number::lemma_constants(f);
    lemma_pow2_pos(f.unit());
    rounding::lemma_decode_packs(f, 0, 0);
    rounding::lemma_round_zero(f, pow2(f.unit()));
    rounding::lemma_encode_packs(f, 0, 0);
    assert(0 * pow2(0) == 0);
    assert(0 * z.magnitude(f) == 0);
}

/// The order of a product's factors does not matter.
pub proof fn lemma_product_commutes(a: Binary64, b: Binary64)
    ensures
        a * b == b * a,
{
    let f = Format::Double;
    let (x, y) = (a.number(), b.number());
    assert(x.magnitude(f) * y.magnitude(f) == y.magnitude(f) * x.magnitude(f)) by (nonlinear_arith);
    assert(x.product_spec(y, f) == y.product_spec(x, f));
    reveal(Binary64::spec_mul);
}

/// A number times an opposite is the opposite.
pub proof fn lemma_opposite_scaled(k: Binary64, a: Binary64, b: Binary64)
    requires
        opposite(a, b),
    ensures
        opposite(k * a, k * b),
{
    lemma_opposite_factor(a, b, k);
    lemma_product_commutes(a, k);
    lemma_product_commutes(b, k);
}

} // verus!
