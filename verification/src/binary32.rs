//! Single-precision numbers, held by their bit pattern.
use crate::binary64::Binary64;
use crate::number;
use crate::number::Number;
use crate::rounding;
use crate::rounding::Format;
use vstd::arithmetic::power2::*;
use vstd::prelude::*;

verus! {

/// A single-precision number. Two values are `==` where their patterns are;
/// `same` compares them as numbers.
#[derive(Clone, Copy, PartialEq, Eq, Debug, Structural)]
pub struct Binary32 {
    pub bits: u32,
}

impl Binary32 {
    /// Sign and magnitude.
    pub open spec fn number(self) -> Number {
        Number { negative: self.bits >= 0x80000000, bits: (self.bits % 0x80000000) as u64 }
    }

    pub open spec fn of_number(n: Number) -> Binary32 {
        Binary32 {
            bits: if n.negative {
                (n.bits + 0x80000000) as u32
            } else {
                n.bits as u32
            },
        }
    }

    /// The number, counted in the smallest positive one.
    pub open spec fn value(self) -> int {
        self.number().value(Format::Single)
    }

    /// One, counted in the smallest positive number.
    pub open spec fn one() -> nat {
        pow2(Format::Single.unit())
    }

    #[verifier::opaque]
    pub open spec fn spec_is_nan(self) -> bool {
        self.number().nan_in(Format::Single)
    }

    #[verifier::opaque]
    pub open spec fn spec_is_finite(self) -> bool {
        self.number().finite_in(Format::Single)
    }

    /// Neither operand is "not a number" and the first is smaller.
    #[verifier::opaque]
    pub open spec fn spec_lt(self, other: Binary32) -> bool {
        self.number().less_spec(other.number(), Format::Single)
    }

    /// The two are the same number, zeros of either sign alike.
    #[verifier::opaque]
    pub open spec fn spec_same(self, other: Binary32) -> bool {
        self.number().equal_spec(other.number(), Format::Single)
    }

    pub open spec fn spec_le(self, other: Binary32) -> bool {
        self.spec_lt(other) || self.spec_same(other)
    }

    pub open spec fn spec_gt(self, other: Binary32) -> bool {
        other.spec_lt(self)
    }

    pub open spec fn spec_ge(self, other: Binary32) -> bool {
        other.spec_le(self)
    }

    #[verifier::opaque]
    pub open spec fn spec_add(self, other: Binary32) -> Binary32 {
        Binary32::of_number(self.number().sum_spec(other.number(), Format::Single))
    }

    #[verifier::opaque]
    pub open spec fn spec_negate(self) -> Binary32 {
        Binary32::of_number(Number { negative: !self.number().negative, ..self.number() })
    }

    pub open spec fn spec_sub(self, other: Binary32) -> Binary32 {
        self.spec_add(other.spec_negate())
    }

    #[verifier::opaque]
    pub open spec fn spec_mul(self, other: Binary32) -> Binary32 {
        Binary32::of_number(self.number().product_spec(other.number(), Format::Single))
    }

    #[verifier::opaque]
    pub open spec fn spec_euclidean_or_real_div(self, other: Binary32) -> Binary32 {
        Binary32::of_number(self.number().quotient_spec(other.number(), Format::Single))
    }

    /// The number nearest to `n / d`.
    #[verifier::opaque]
    pub open spec fn spec_ratio(n: u64, d: u64) -> Binary32 {
        Binary32::of_number(Number::ratio_spec(Format::Single, false, n as nat, d as nat))
    }

    /// The number nearest to a whole one.
    #[verifier::opaque]
    pub open spec fn spec_of(n: i64) -> Binary32 {
        Binary32::of_number(Number::ratio_spec(Format::Single, n < 0, number::magnitude_of(n as int), 1))
    }

    #[verifier::opaque]
    pub open spec fn spec_abs(self) -> Binary32 {
        Binary32::of_number(Number { negative: false, ..self.number() })
    }

    /// The larger of the two; where one is "not a number", the other.
    pub open spec fn spec_max(self, other: Binary32) -> Binary32 {
        if other.spec_is_nan() {
            self
        } else if self.spec_is_nan() || self.spec_lt(other) {
            other
        } else {
            self
        }
    }

    /// The smaller of the two; where one is "not a number", the other.
    pub open spec fn spec_min(self, other: Binary32) -> Binary32 {
        if other.spec_is_nan() {
            self
        } else if self.spec_is_nan() || other.spec_lt(self) {
            other
        } else {
            self
        }
    }

    /// The nearest number within the limits; "not a number" stays.
    pub open spec fn spec_clamp(self, low: Binary32, high: Binary32) -> Binary32 {
        if self.spec_lt(low) {
            low
        } else if high.spec_lt(self) {
            high
        } else {
            self
        }
    }

    /// One with the sign of the number.
    pub open spec fn spec_signum(self) -> Binary32 {
        if self.spec_is_nan() {
            Binary32::of_number(Number::nan_spec(Format::Single))
        } else if self.number().negative {
            Binary32::spec_of(1).spec_negate()
        } else {
            Binary32::spec_of(1)
        }
    }

    /// The largest whole number not above.
    #[verifier::opaque]
    pub open spec fn spec_floor(self) -> Binary32 {
        Binary32::of_number(self.number().integral_spec(Format::Single, self.number().negative))
    }

    /// The smallest whole number not below.
    #[verifier::opaque]
    pub open spec fn spec_ceil(self) -> Binary32 {
        Binary32::of_number(self.number().integral_spec(Format::Single, !self.number().negative))
    }

    /// The nearest whole number, away from zero where two are.
    #[verifier::opaque]
    pub open spec fn spec_round(self) -> Binary32 {
        Binary32::of_number(self.number().nearest_spec(Format::Single))
    }

    /// The square root; none below zero.
    #[verifier::opaque]
    pub open spec fn spec_sqrt(self) -> Binary32 {
        Binary32::of_number(self.number().root_spec(Format::Single))
    }

    /// What is left when the other has been taken away as often as it goes in,
    /// with the sign kept.
    #[verifier::opaque]
    pub open spec fn spec_remainder(self, other: Binary32) -> Binary32 {
        Binary32::of_number(self.number().remainder_spec(other.number(), Format::Single))
    }

    /// What is left when the other has been taken away as often as it goes in,
    /// never negative.
    pub open spec fn spec_rem_euclid(self, other: Binary32) -> Binary32 {
        let left = self.spec_remainder(other);
        if left.spec_lt(Binary32::spec_of(0)) {
            left.spec_add(other.spec_abs())
        } else {
            left
        }
    }

    /// The whole part, held within the limits; none of "not a number".
    #[verifier::opaque]
    pub open spec fn spec_to_integer(self, low: i64, high: i64) -> i64 {
        let whole = if self.number().negative {
            -self.number().whole(Format::Single)
        } else {
            self.number().whole(Format::Single) as int
        };
        if self.number().nan_in(Format::Single) {
            0
        } else if whole < low {
            low
        } else if whole > high {
            high
        } else {
            whole as i64
        }
    }

    /// The number of the other precision nearest to this one.
    #[verifier::opaque]
    pub open spec fn spec_to_binary64(self) -> Binary64 {
        Binary64::of_number(self.number().converted_spec(Format::Single, Format::Double))
    }

    pub(crate) fn to_number(self) -> (n: Number)
        ensures
            n == self.number(),
            n.valid(Format::Single),
    {
        proof {
            number::lemma_constants(Format::Single);
        }
        Number { negative: self.bits >= 0x80000000, bits: (self.bits % 0x80000000) as u64 }
    }

    pub(crate) fn from_number(n: Number) -> (r: Binary32)
        requires
            n.valid(Format::Single),
        ensures
            r == Binary32::of_number(n),
            r.number() == n,
    {
        proof {
            number::lemma_constants(Format::Single);
        }
        if n.negative {
            Binary32 { bits: n.bits as u32 + 0x80000000 }
        } else {
            Binary32 { bits: n.bits as u32 }
        }
    }

    /// The number with this bit pattern.
    pub fn from_bits(bits: u32) -> (r: Binary32)
        ensures
            r.bits == bits,
    {
        Binary32 { bits }
    }

    /// The bit pattern.
    pub fn to_bits(self) -> (bits: u32)
        ensures
            bits == self.bits,
    {
        self.bits
    }

    #[verifier::when_used_as_spec(spec_is_nan)]
    pub fn is_nan(self) -> (r: bool)
        ensures
            r == self.is_nan(),
    {
        reveal(Binary32::spec_is_nan);
        self.to_number().is_nan(Format::Single)
    }

    #[verifier::when_used_as_spec(spec_is_finite)]
    pub fn is_finite(self) -> (r: bool)
        ensures
            r == self.is_finite(),
    {
        reveal(Binary32::spec_is_finite);
        let n = self.to_number();
        !n.is_nan(Format::Single) && !n.is_infinite(Format::Single)
    }

    #[verifier::when_used_as_spec(spec_lt)]
    pub fn lt(self, other: Binary32) -> (r: bool)
        ensures
            r == self.lt(other),
    {
        reveal(Binary32::spec_lt);
        self.to_number().less(other.to_number(), Format::Single)
    }

    /// Whether the two are the same number, zeros of either sign alike.
    #[verifier::when_used_as_spec(spec_same)]
    pub fn same(self, other: Binary32) -> (r: bool)
        ensures
            r == self.same(other),
    {
        reveal(Binary32::spec_same);
        self.to_number().equal(other.to_number(), Format::Single)
    }

    #[verifier::when_used_as_spec(spec_le)]
    pub fn le(self, other: Binary32) -> (r: bool)
        ensures
            r == self.le(other),
    {
        self.lt(other) || self.same(other)
    }

    #[verifier::when_used_as_spec(spec_gt)]
    pub fn gt(self, other: Binary32) -> (r: bool)
        ensures
            r == self.gt(other),
    {
        other.lt(self)
    }

    #[verifier::when_used_as_spec(spec_ge)]
    pub fn ge(self, other: Binary32) -> (r: bool)
        ensures
            r == self.ge(other),
    {
        other.le(self)
    }

    /// The number nearest to `n / d`.
    #[verifier::when_used_as_spec(spec_ratio)]
    pub fn ratio(n: u64, d: u64) -> (r: Binary32)
        requires
            d > 0,
        ensures
            r == Binary32::ratio(n, d),
    {
        reveal(Binary32::spec_ratio);
        Binary32::from_number(Number::ratio(Format::Single, false, n, d))
    }

    /// The number nearest to a whole one.
    #[verifier::when_used_as_spec(spec_of)]
    pub fn of(n: i64) -> (r: Binary32)
        ensures
            r == Binary32::of(n),
    {
        reveal(Binary32::spec_of);
        let size: u64 = if n < 0 {
            (-(n as i128)) as u64
        } else {
            n as u64
        };
        Binary32::from_number(Number::ratio(Format::Single, n < 0, size, 1))
    }

    #[verifier::when_used_as_spec(spec_negate)]
    pub fn negate(self) -> (r: Binary32)
        ensures
            r == self.negate(),
    {
        reveal(Binary32::spec_negate);
        let n = self.to_number();
        Binary32::from_number(Number { negative: !n.negative, bits: n.bits })
    }

    #[verifier::when_used_as_spec(spec_abs)]
    pub fn abs(self) -> (r: Binary32)
        ensures
            r == self.abs(),
    {
        reveal(Binary32::spec_abs);
        Binary32::from_number(Number { negative: false, bits: self.to_number().bits })
    }

    /// The larger of the two; where one is "not a number", the other.
    #[verifier::when_used_as_spec(spec_max)]
    pub fn max(self, other: Binary32) -> (r: Binary32)
        ensures
            r == self.max(other),
    {
        if other.is_nan() {
            self
        } else if self.is_nan() || self.lt(other) {
            other
        } else {
            self
        }
    }

    /// The smaller of the two; where one is "not a number", the other.
    #[verifier::when_used_as_spec(spec_min)]
    pub fn min(self, other: Binary32) -> (r: Binary32)
        ensures
            r == self.min(other),
    {
        if other.is_nan() {
            self
        } else if self.is_nan() || other.lt(self) {
            other
        } else {
            self
        }
    }

    /// The nearest number within the limits; "not a number" stays.
    #[verifier::when_used_as_spec(spec_clamp)]
    pub fn clamp(self, low: Binary32, high: Binary32) -> (r: Binary32)
        ensures
            r == self.clamp(low, high),
    {
        if self.lt(low) {
            low
        } else if high.lt(self) {
            high
        } else {
            self
        }
    }

    /// One with the sign of the number.
    #[verifier::when_used_as_spec(spec_signum)]
    pub fn signum(self) -> (r: Binary32)
        ensures
            r == self.signum(),
    {
        if self.is_nan() {
            Binary32::from_number(Number::nan(Format::Single))
        } else if self.to_number().negative {
            Binary32::of(1).negate()
        } else {
            Binary32::of(1)
        }
    }

    /// The largest whole number not above.
    #[verifier::when_used_as_spec(spec_floor)]
    pub fn floor(self) -> (r: Binary32)
        ensures
            r == self.floor(),
    {
        reveal(Binary32::spec_floor);
        let n = self.to_number();
        Binary32::from_number(n.integral(Format::Single, n.negative))
    }

    /// The smallest whole number not below.
    #[verifier::when_used_as_spec(spec_ceil)]
    pub fn ceil(self) -> (r: Binary32)
        ensures
            r == self.ceil(),
    {
        reveal(Binary32::spec_ceil);
        let n = self.to_number();
        Binary32::from_number(n.integral(Format::Single, !n.negative))
    }

    /// The nearest whole number, away from zero where two are.
    #[verifier::when_used_as_spec(spec_round)]
    pub fn round(self) -> (r: Binary32)
        ensures
            r == self.round(),
    {
        reveal(Binary32::spec_round);
        Binary32::from_number(self.to_number().nearest(Format::Single))
    }

    /// The square root; none below zero.
    #[verifier::when_used_as_spec(spec_sqrt)]
    pub fn sqrt(self) -> (r: Binary32)
        ensures
            r == self.sqrt(),
    {
        reveal(Binary32::spec_sqrt);
        Binary32::from_number(self.to_number().root(Format::Single))
    }

    /// What is left when the other has been taken away as often as it goes in,
    /// with the sign kept.
    #[verifier::when_used_as_spec(spec_remainder)]
    pub fn remainder(self, other: Binary32) -> (r: Binary32)
        ensures
            r == self.remainder(other),
    {
        reveal(Binary32::spec_remainder);
        Binary32::from_number(self.to_number().remainder(other.to_number(), Format::Single))
    }

    /// What is left when the other has been taken away as often as it goes in,
    /// never negative.
    #[verifier::when_used_as_spec(spec_rem_euclid)]
    pub fn rem_euclid(self, other: Binary32) -> (r: Binary32)
        ensures
            r == self.rem_euclid(other),
    {
        let left = self.remainder(other);
        if left.lt(Binary32::of(0)) {
            left + other.abs()
        } else {
            left
        }
    }

    /// The whole part, held within the limits; none of "not a number".
    #[verifier::when_used_as_spec(spec_to_integer)]
    pub fn to_integer(self, low: i64, high: i64) -> (r: i64)
        requires
            low <= 0 <= high,
        ensures
            r == self.to_integer(low, high),
    {
        reveal(Binary32::spec_to_integer);
        let n = self.to_number();
        if n.is_nan(Format::Single) {
            return 0;
        }
        let whole: u64 = n.whole_saturated(Format::Single);
        if n.negative {
            if whole as i128 > -(low as i128) {
                low
            } else {
                (-(whole as i128)) as i64
            }
        } else if whole > high as u64 {
            high
        } else {
            whole as i64
        }
    }

    /// The number of the other precision nearest to this one.
    #[verifier::when_used_as_spec(spec_to_binary64)]
    pub fn to_binary64(self) -> (r: Binary64)
        ensures
            r == self.to_binary64(),
    {
        reveal(Binary32::spec_to_binary64);
        Binary64::from_number(self.to_number().converted(Format::Single, Format::Double))
    }
}

/// What the order and the classes say of the count.
pub proof fn lemma_order(a: Binary32, b: Binary32)
    ensures
        a < b <==> !a.is_nan() && !b.is_nan() && a.value() < b.value(),
        a.same(b) <==> !a.is_nan() && !b.is_nan() && a.value() == b.value(),
        a <= b <==> !a.is_nan() && !b.is_nan() && a.value() <= b.value(),
        a.is_finite() ==> !a.is_nan(),
        b.is_finite() ==> !b.is_nan(),
{
    reveal(Binary32::spec_lt);
    reveal(Binary32::spec_same);
    reveal(Binary32::spec_is_nan);
    reveal(Binary32::spec_is_finite);
}

/// What is not larger than a finite number in size is finite.
pub proof fn lemma_finite_below(x: Binary32, bound: Binary32)
    requires
        bound.is_finite(),
        x.is_nan() || -bound.value() <= x.value() <= bound.value(),
    ensures
        !x.is_nan() ==> x.is_finite(),
{
    reveal(Binary32::spec_is_nan);
    reveal(Binary32::spec_is_finite);
    if !x.is_nan() && !x.is_finite() {
        rounding::lemma_decode_monotone(Format::Single, bound.number().bits as nat, x.number().bits as nat);
    }
}

/// A count rounded to the nearest one of the format.
pub open spec fn round_value(n: int, d: nat) -> int {
    number::round_signed(Format::Single, n, d)
}

/// A larger count does not round to a smaller one.
pub proof fn lemma_round_monotone(n1: int, n2: int, d: nat)
    requires
        d > 0,
        n1 <= n2,
    ensures
        round_value(n1, d) <= round_value(n2, d),
{
    number::lemma_round_signed_monotone(Format::Single, n1, n2, d);
}

/// A number's own count rounds to itself.
pub proof fn lemma_round_exact(x: Binary32, d: nat)
    requires
        !x.is_nan(),
        d > 0,
    ensures
        round_value(x.value() * d, d) == x.value(),
        round_value(x.value(), 1) == x.value(),
{
    reveal(Binary32::spec_is_nan);
    number::lemma_round_signed_exact(Format::Single, x.number(), d);
    number::lemma_round_signed_exact(Format::Single, x.number(), 1);
    assert(x.value() * 1 == x.value());
}

/// What a sum of finite numbers counts as.
pub proof fn lemma_add(a: Binary32, b: Binary32)
    requires
        a.is_finite(),
        b.is_finite(),
    ensures
        !(a + b).is_nan(),
        (a + b).value() == round_value(a.value() + b.value(), 1),
{
    reveal(Binary32::spec_add);
    reveal(Binary32::spec_is_nan);
    reveal(Binary32::spec_is_finite);
    number::lemma_sum_value(Format::Single, a.number(), b.number());
    lemma_sum_valid(a, b);
}

proof fn lemma_sum_valid(a: Binary32, b: Binary32)
    ensures
        (a + b).number() == a.number().sum_spec(b.number(), Format::Single),
{
    reveal(Binary32::spec_add);
    number::lemma_constants(Format::Single);
    let exact = a.value() + b.value();
    number::lemma_rounded(Format::Single, exact < 0, number::magnitude_of(exact), 1);
}

/// What the opposite of a number counts as.
pub proof fn lemma_negate(a: Binary32)
    ensures
        a.negate().value() == -a.value(),
        a.negate().is_nan() == a.is_nan(),
        a.negate().is_finite() == a.is_finite(),
        a.negate().negate() == a,
{
    reveal(Binary32::spec_negate);
    reveal(Binary32::spec_is_nan);
    reveal(Binary32::spec_is_finite);
}

/// What the size of a number counts as.
pub proof fn lemma_abs(a: Binary32)
    ensures
        a.abs().value() == number::magnitude_of(a.value()),
        a.abs().is_nan() == a.is_nan(),
        a.abs().is_finite() == a.is_finite(),
{
    reveal(Binary32::spec_abs);
    reveal(Binary32::spec_is_nan);
    reveal(Binary32::spec_is_finite);
}

/// What a product of finite numbers counts as.
pub proof fn lemma_mul(a: Binary32, b: Binary32)
    requires
        a.is_finite(),
        b.is_finite(),
    ensures
        !(a * b).is_nan(),
        Binary32::one() > 0,
        (a * b).value() == round_value(a.value() * b.value(), Binary32::one()),
{
    reveal(Binary32::spec_mul);
    reveal(Binary32::spec_is_nan);
    reveal(Binary32::spec_is_finite);
    lemma_pow2_pos(Format::Single.unit());
    number::lemma_constants(Format::Single);
    number::lemma_rounded(
        Format::Single,
        a.number().negative != b.number().negative,
        a.number().magnitude(Format::Single) * b.number().magnitude(Format::Single),
        Binary32::one(),
    );
    number::lemma_product_value(Format::Single, a.number(), b.number());
}

/// What a quotient of finite numbers counts as, the divisor being positive.
pub proof fn lemma_div(a: Binary32, b: Binary32)
    requires
        a.is_finite(),
        b.is_finite(),
        b.value() > 0,
    ensures
        !(a / b).is_nan(),
        (a / b).value() == round_value(a.value() * Binary32::one(), b.value() as nat),
{
    reveal(Binary32::spec_euclidean_or_real_div);
    reveal(Binary32::spec_is_nan);
    reveal(Binary32::spec_is_finite);
    lemma_pow2_pos(Format::Single.unit());
    number::lemma_constants(Format::Single);
    rounding::lemma_round_zero(Format::Single, 1);
    number::lemma_rounded(
        Format::Single,
        a.number().negative != b.number().negative,
        a.number().magnitude(Format::Single) * Binary32::one(),
        b.number().magnitude(Format::Single),
    );
    number::lemma_quotient_value(Format::Single, a.number(), b.number());
}

/// Infinity divided by a finite number above zero stays infinite.
pub proof fn lemma_div_infinite(a: Binary32, b: Binary32)
    requires
        !a.is_nan(),
        !a.is_finite(),
        b.is_finite(),
        b.value() > 0,
    ensures
        !(a / b).is_nan(),
        (a / b).value() == a.value(),
{
    reveal(Binary32::spec_euclidean_or_real_div);
    reveal(Binary32::spec_is_nan);
    reveal(Binary32::spec_is_finite);
    number::lemma_constants(Format::Single);
}

/// A whole number within the significand's reach is kept exactly.
pub proof fn lemma_of(n: i64)
    requires
        -0x1000000 <= n <= 0x1000000,
    ensures
        Binary32::of(n).is_finite(),
        !Binary32::of(n).is_nan(),
        Binary32::of(n).value() == n * Binary32::one(),
        n == 0 ==> Binary32::of(n).value() == 0,
        n == 1 ==> Binary32::of(n).value() == Binary32::one(),
        Binary32::one() > 0,
{
    reveal(Binary32::spec_of);
    reveal(Binary32::spec_is_finite);
    reveal(Binary32::spec_is_nan);
    lemma_pow2_pos(Format::Single.unit());
    number::lemma_constants(Format::Single);
    number::lemma_whole_exact(Format::Single, n < 0, number::magnitude_of(n as int));
    let m = number::magnitude_of(n as int);
    assert((-(m as int)) * Binary32::one() == -(m * Binary32::one())) by (nonlinear_arith);
    assert(n == 0 ==> n * Binary32::one() == 0) by (nonlinear_arith);
    assert(n == 1 ==> n * Binary32::one() == Binary32::one()) by (nonlinear_arith);
}

/// A factor of one leaves the other as it is.
pub proof fn lemma_times_one(b: Binary32, one: Binary32)
    requires
        one.is_finite(),
        one.value() == Binary32::one(),
        b.is_finite(),
    ensures
        (b * one).is_finite(),
        (b * one).value() == b.value(),
{
    lemma_order(b, b);
    lemma_mul(b, one);
    lemma_of(1);
    lemma_round_exact(b, Binary32::one());
    lemma_abs(b);
    lemma_finite_below(b * one, b.abs());
}

/// A share from zero to one of a number that is not negative lies between
/// zero and that number.
pub proof fn lemma_product_below(b: Binary32, share: Binary32)
    requires
        b.is_finite(),
        b.value() >= 0,
        share.is_finite(),
        0 <= share.value() <= Binary32::one(),
    ensures
        (b * share).is_finite(),
        0 <= (b * share).value() <= b.value(),
{
    let one = Binary32::one();
    lemma_order(b, b);
    lemma_of(0);
    lemma_of(1);
    lemma_mul(b, share);
    lemma_round_exact(b, one);
    lemma_round_exact(Binary32::of(0), one);
    assert(0 <= b.value() * share.value() <= b.value() * one) by (nonlinear_arith)
        requires
            b.value() >= 0,
            0 <= share.value() <= one,
    ;
    assert(0 * one == 0);
    lemma_round_monotone(0, b.value() * share.value(), one);
    lemma_round_monotone(b.value() * share.value(), b.value() * one, one);
    lemma_finite_below(b * share, b);
}

/// A factor of zero leaves zero of a finite number.
pub proof fn lemma_zero_factor(zero: Binary32, b: Binary32)
    requires
        zero.is_finite(),
        zero.value() == 0,
        b.is_finite(),
    ensures
        (zero * b).is_finite(),
        (zero * b).value() == 0,
        (b * zero).is_finite(),
        (b * zero).value() == 0,
{
    let one = Binary32::one();
    lemma_mul(zero, b);
    lemma_mul(b, zero);
    rounding::lemma_round_zero(Format::Single, one);
    assert(0 * b.value() == 0);
    assert(b.value() * 0 == 0);
    lemma_finite_below(zero * b, zero);
    lemma_finite_below(b * zero, zero);
}

/// A share of one counts as no more than one.
pub proof fn lemma_ratio_share(n: u64, d: u64)
    requires
        0 < n <= d,
    ensures
        Binary32::ratio(n, d).is_finite(),
        !Binary32::ratio(n, d).is_nan(),
        0 < Binary32::ratio(n, d).value() <= Binary32::one(),
{
    lemma_ratio_positive(n, d);
    reveal(Binary32::spec_ratio);
    number::lemma_constants(Format::Single);
    lemma_of(1);
    let one = Binary32::one();
    number::lemma_rounded(Format::Single, false, n as nat * one, d as nat);
    lemma_round_exact(Binary32::of(1), d as nat);
    assert(n as nat * one <= one * d) by (nonlinear_arith)
        requires
            n <= d,
            one > 0,
    ;
    lemma_round_monotone(n as nat * one as int, one * d as int, d as nat);
}

/// Infinity plus a finite number stays infinite.
pub proof fn lemma_add_infinite(a: Binary32, b: Binary32)
    requires
        !a.is_nan(),
        !a.is_finite(),
        b.is_finite(),
    ensures
        !(a + b).is_nan(),
        !(a + b).is_finite(),
        (a + b).value() == a.value(),
{
    reveal(Binary32::spec_add);
    reveal(Binary32::spec_is_nan);
    reveal(Binary32::spec_is_finite);
    number::lemma_constants(Format::Single);
    lemma_sum_valid(a, b);
}

/// A ratio of at least one sixteenth counts as that much.
pub proof fn lemma_sixteenth_below(n: u64, d: u64)
    requires
        d > 0,
        d <= 16 * n,
    ensures
        Binary32::ratio(n, d).value() * 16 >= Binary32::one(),
{
    reveal(Binary32::spec_ratio);
    let u = Format::Single.unit();
    let one = Binary32::one();
    let q = (u - 4) as nat;
    number::lemma_constants(Format::Single);
    lemma2_to64();
    lemma_pow2_adds(4, q);
    lemma_pow2_pos(q);
    lemma_pow2_strictly_increases(0, Format::Single.precision());
    number::lemma_scaled_exact(Format::Single, 1, q);
    assert(1 * pow2(q) == pow2(q));
    rounding::lemma_round_exact(Format::Single, Format::Single.encode(pow2(q)), d as nat);
    assert(pow2(q) * d <= n as nat * one) by (nonlinear_arith)
        requires
            one == 16 * pow2(q),
            d <= 16 * n,
            pow2(q) > 0,
    ;
    rounding::lemma_round_monotone(Format::Single, pow2(q) * d as nat, n as nat * one, d as nat);
    number::lemma_rounded(Format::Single, false, n as nat * one, d as nat);
}

/// A pattern below that of infinity is a finite number.
pub proof fn lemma_bits_finite(a: Binary32)
    requires
        a.bits < 0x7f800000,
    ensures
        a.is_finite(),
        !a.is_nan(),
        !a.number().negative,
{
    reveal(Binary32::spec_is_nan);
    reveal(Binary32::spec_is_finite);
    number::lemma_constants(Format::Single);
}

/// What counts as nothing is finite.
pub proof fn lemma_zero_finite(a: Binary32)
    requires
        a.value() == 0,
    ensures
        a.is_finite(),
{
    reveal(Binary32::spec_is_finite);
    number::lemma_constants(Format::Single);
    if !a.is_finite() {
        rounding::lemma_decode_packs(Format::Single, 0, 0);
        rounding::lemma_decode_packs(Format::Single, 0, 1);
        rounding::lemma_decode_monotone(Format::Single, 1, a.number().bits as nat);
    }
}

/// A finite number plus infinity is infinite.
pub proof fn lemma_infinite_first(a: Binary32, b: Binary32)
    requires
        a.is_finite(),
        !b.is_nan(),
        !b.is_finite(),
    ensures
        !(a + b).is_nan(),
        (a + b).value() == b.value(),
{
    reveal(Binary32::spec_add);
    reveal(Binary32::spec_is_nan);
    reveal(Binary32::spec_is_finite);
    number::lemma_constants(Format::Single);
    lemma_sum_valid(a, b);
}

/// Nothing finite is above infinity.
pub proof fn lemma_not_above_infinity(a: Binary32, b: Binary32)
    requires
        a.is_finite(),
        !b.is_nan(),
        !b.is_finite(),
        b.value() >= 0,
    ensures
        a.value() <= b.value(),
{
    reveal(Binary32::spec_is_nan);
    reveal(Binary32::spec_is_finite);
    number::lemma_constants(Format::Single);
    rounding::lemma_decode_monotone(Format::Single, b.number().bits as nat, a.number().bits as nat);
}

/// Two numbers of one sign that count alike have one pattern.
pub proof fn lemma_value_determines(a: Binary32, b: Binary32)
    requires
        !a.is_nan(),
        !b.is_nan(),
        a.value() == b.value(),
        a.number().negative == b.number().negative,
    ensures
        a == b,
{
    rounding::lemma_encode_decode(Format::Single, a.number().bits as nat);
    rounding::lemma_encode_decode(Format::Single, b.number().bits as nat);
    assert(a.number().bits == b.number().bits);
    assert(a.bits % 0x80000000 == b.bits % 0x80000000);
    assert(a.bits == b.bits);
}

/// A ratio of positive whole numbers is above zero.
pub proof fn lemma_ratio_positive(n: u64, d: u64)
    requires
        n > 0,
        d > 0,
    ensures
        Binary32::ratio(n, d).is_finite(),
        !Binary32::ratio(n, d).is_nan(),
        Binary32::ratio(n, d).value() > 0,
{
    reveal(Binary32::spec_ratio);
    reveal(Binary32::spec_is_nan);
    reveal(Binary32::spec_is_finite);
    lemma2_to64();
    number::lemma_ratio_finite(Format::Single, false, n as nat, d as nat);
    number::lemma_constants(Format::Single);
    lemma_pow2_strictly_increases(64, Format::Single.unit());
    assert(n as nat * Binary32::one() >= d) by (nonlinear_arith)
        requires
            n >= 1,
            Binary32::one() >= d,
    ;
    number::lemma_rounded(Format::Single, false, n as nat * Binary32::one(), d as nat);
    rounding::lemma_round_monotone(Format::Single, d as nat, n as nat * Binary32::one(), d as nat);
    lemma_smallest();
    rounding::lemma_round_exact(Format::Single, 1, d as nat);
    assert(1 * d == d);
}

proof fn lemma_smallest()
    ensures
        Format::Single.decode(1) == 1,
        1 <= Format::Single.infinity_bits(),
{
    number::lemma_constants(Format::Single);
    lemma2_to64();
    rounding::lemma_decode_packs(Format::Single, 0, 1);
    assert(0 * Format::Single.lead() == 0);
    assert(1 * pow2(0) == 1);
}

/// Whole numbers within the significand's reach add up exactly.
pub proof fn lemma_of_sum(a: i64, b: i64)
    requires
        a >= 0,
        b >= 0,
        a + b <= 0x1000000,
    ensures
        Binary32::of(a) + Binary32::of(b) == Binary32::of((a + b) as i64),
{
    let c = (a + b) as i64;
    let one = Binary32::one();
    lemma_of(a);
    lemma_of(b);
    lemma_of(c);
    lemma_add(Binary32::of(a), Binary32::of(b));
    lemma_round_exact(Binary32::of(c), 1);
    assert(a * one + b * one == c * one && a * one >= 0 && b * one >= 0) by (nonlinear_arith)
        requires
            a + b == c,
            a >= 0,
            b >= 0,
            one > 0,
    ;
    lemma_sum_valid(Binary32::of(a), Binary32::of(b));
    lemma_of_sign(a);
    lemma_of_sign(b);
    lemma_of_sign(c);
    lemma_value_determines(Binary32::of(a) + Binary32::of(b), Binary32::of(c));
}

/// A whole number that is not negative has a clear sign.
pub proof fn lemma_of_sign(n: i64)
    requires
        0 <= n <= 0x1000000,
    ensures
        !Binary32::of(n).number().negative,
{
    reveal(Binary32::spec_of);
    number::lemma_constants(Format::Single);
    number::lemma_whole_exact(Format::Single, false, n as nat);
}

/// Different thousandths are different numbers.
#[verifier::spinoff_prover]
pub proof fn lemma_thousandths_differ(n1: u64, n2: u64)
    requires
        n1 < n2 <= 1000,
    ensures
        Binary32::ratio(n1, 1000) != Binary32::ratio(n2, 1000),
        Binary32::ratio(n1, 1000).value() < Binary32::ratio(n2, 1000).value(),
{
    reveal(Binary32::spec_ratio);
    lemma2_to64();
    number::lemma_constants(Format::Single);
    let unit = Binary32::one();
    assert(2 * 1000 <= (n2 - n1) * pow2(11)) by (nonlinear_arith)
        requires
            n2 - n1 >= 1,
            pow2(11) == 2048,
    ;
    number::lemma_ratios_differ(Format::Single, n1 as nat, n2 as nat, 1000, 11);
    number::lemma_rounded(Format::Single, false, n1 as nat * unit, 1000);
    number::lemma_rounded(Format::Single, false, n2 as nat * unit, 1000);
}

impl core::ops::Add for Binary32 {
    type Output = Binary32;

    fn add(self, other: Binary32) -> (r: Binary32) {
        reveal(Binary32::spec_add);
        Binary32::from_number(self.to_number().sum(other.to_number(), Format::Single))
    }
}

impl vstd::std_specs::ops::AddSpecImpl for Binary32 {
    open spec fn obeys_add_spec() -> bool {
        true
    }

    open spec fn add_req(self, other: Binary32) -> bool {
        true
    }

    open spec fn add_spec(self, other: Binary32) -> Binary32 {
        self.spec_add(other)
    }
}

impl core::ops::Sub for Binary32 {
    type Output = Binary32;

    fn sub(self, other: Binary32) -> (r: Binary32) {
        self + other.negate()
    }
}

impl vstd::std_specs::ops::SubSpecImpl for Binary32 {
    open spec fn obeys_sub_spec() -> bool {
        true
    }

    open spec fn sub_req(self, other: Binary32) -> bool {
        true
    }

    open spec fn sub_spec(self, other: Binary32) -> Binary32 {
        self.spec_sub(other)
    }
}

impl core::ops::Mul for Binary32 {
    type Output = Binary32;

    fn mul(self, other: Binary32) -> (r: Binary32) {
        reveal(Binary32::spec_mul);
        Binary32::from_number(self.to_number().product(other.to_number(), Format::Single))
    }
}

impl vstd::std_specs::ops::MulSpecImpl for Binary32 {
    open spec fn obeys_mul_spec() -> bool {
        true
    }

    open spec fn mul_req(self, other: Binary32) -> bool {
        true
    }

    open spec fn mul_spec(self, other: Binary32) -> Binary32 {
        self.spec_mul(other)
    }
}

impl core::ops::Div for Binary32 {
    type Output = Binary32;

    fn div(self, other: Binary32) -> (r: Binary32) {
        reveal(Binary32::spec_euclidean_or_real_div);
        Binary32::from_number(self.to_number().quotient(other.to_number(), Format::Single))
    }
}

impl vstd::std_specs::ops::DivSpecImpl for Binary32 {
    open spec fn obeys_div_spec() -> bool {
        true
    }

    open spec fn div_req(self, other: Binary32) -> bool {
        true
    }

    open spec fn div_spec(self, other: Binary32) -> Binary32 {
        self.spec_euclidean_or_real_div(other)
    }
}

} // verus!
