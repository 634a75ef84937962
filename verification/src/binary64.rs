//! Double-precision numbers, held by their bit pattern.
use crate::binary32::Binary32;
use crate::number;
use crate::number::Number;
use crate::root;
use crate::rounding;
use crate::rounding::Format;
use vstd::arithmetic::power2::*;
use vstd::prelude::*;

verus! {

/// A double-precision number. Two values are `==` where their patterns are;
/// `same` compares them as numbers.
#[derive(Clone, Copy, PartialEq, Eq, Debug, Structural)]
pub struct Binary64 {
    pub bits: u64,
}

impl Binary64 {
    /// Sign and magnitude.
    pub open spec fn number(self) -> Number {
        Number { negative: self.bits >= 0x8000000000000000, bits: (self.bits % 0x8000000000000000) as u64 }
    }

    pub open spec fn of_number(n: Number) -> Binary64 {
        Binary64 {
            bits: if n.negative {
                (n.bits + 0x8000000000000000) as u64
            } else {
                n.bits as u64
            },
        }
    }

    /// The number, counted in the smallest positive one.
    pub open spec fn value(self) -> int {
        self.number().value(Format::Double)
    }

    /// One, counted in the smallest positive number.
    pub open spec fn one() -> nat {
        pow2(Format::Double.unit())
    }

    #[verifier::opaque]
    pub open spec fn spec_is_nan(self) -> bool {
        self.number().nan_in(Format::Double)
    }

    #[verifier::opaque]
    pub open spec fn spec_is_finite(self) -> bool {
        self.number().finite_in(Format::Double)
    }

    /// Neither operand is "not a number" and the first is smaller.
    #[verifier::opaque]
    pub open spec fn spec_lt(self, other: Binary64) -> bool {
        self.number().less_spec(other.number(), Format::Double)
    }

    /// The two are the same number, zeros of either sign alike.
    #[verifier::opaque]
    pub open spec fn spec_same(self, other: Binary64) -> bool {
        self.number().equal_spec(other.number(), Format::Double)
    }

    pub open spec fn spec_le(self, other: Binary64) -> bool {
        self.spec_lt(other) || self.spec_same(other)
    }

    pub open spec fn spec_gt(self, other: Binary64) -> bool {
        other.spec_lt(self)
    }

    pub open spec fn spec_ge(self, other: Binary64) -> bool {
        other.spec_le(self)
    }

    #[verifier::opaque]
    pub open spec fn spec_add(self, other: Binary64) -> Binary64 {
        Binary64::of_number(self.number().sum_spec(other.number(), Format::Double))
    }

    #[verifier::opaque]
    pub open spec fn spec_negate(self) -> Binary64 {
        Binary64::of_number(Number { negative: !self.number().negative, ..self.number() })
    }

    pub open spec fn spec_sub(self, other: Binary64) -> Binary64 {
        self.spec_add(other.spec_negate())
    }

    #[verifier::opaque]
    pub open spec fn spec_mul(self, other: Binary64) -> Binary64 {
        Binary64::of_number(self.number().product_spec(other.number(), Format::Double))
    }

    #[verifier::opaque]
    pub open spec fn spec_euclidean_or_real_div(self, other: Binary64) -> Binary64 {
        Binary64::of_number(self.number().quotient_spec(other.number(), Format::Double))
    }

    /// The number nearest to `n / d`.
    #[verifier::opaque]
    pub open spec fn spec_ratio(n: u64, d: u64) -> Binary64 {
        Binary64::of_number(Number::ratio_spec(Format::Double, false, n as nat, d as nat))
    }

    /// The number nearest to a whole one.
    #[verifier::opaque]
    pub open spec fn spec_of(n: i64) -> Binary64 {
        Binary64::of_number(Number::ratio_spec(Format::Double, n < 0, number::magnitude_of(n as int), 1))
    }

    #[verifier::opaque]
    pub open spec fn spec_abs(self) -> Binary64 {
        Binary64::of_number(Number { negative: false, ..self.number() })
    }

    /// The larger of the two; where one is "not a number", the other.
    pub open spec fn spec_max(self, other: Binary64) -> Binary64 {
        if other.spec_is_nan() {
            self
        } else if self.spec_is_nan() || self.spec_lt(other) {
            other
        } else {
            self
        }
    }

    /// The smaller of the two; where one is "not a number", the other.
    pub open spec fn spec_min(self, other: Binary64) -> Binary64 {
        if other.spec_is_nan() {
            self
        } else if self.spec_is_nan() || other.spec_lt(self) {
            other
        } else {
            self
        }
    }

    /// The nearest number within the limits; "not a number" stays.
    pub open spec fn spec_clamp(self, low: Binary64, high: Binary64) -> Binary64 {
        if self.spec_lt(low) {
            low
        } else if high.spec_lt(self) {
            high
        } else {
            self
        }
    }

    /// One with the sign of the number.
    pub open spec fn spec_signum(self) -> Binary64 {
        if self.spec_is_nan() {
            Binary64::of_number(Number::nan_spec(Format::Double))
        } else if self.number().negative {
            Binary64::spec_of(1).spec_negate()
        } else {
            Binary64::spec_of(1)
        }
    }

    /// The largest whole number not above.
    #[verifier::opaque]
    pub open spec fn spec_floor(self) -> Binary64 {
        Binary64::of_number(self.number().integral_spec(Format::Double, self.number().negative))
    }

    /// The smallest whole number not below.
    #[verifier::opaque]
    pub open spec fn spec_ceil(self) -> Binary64 {
        Binary64::of_number(self.number().integral_spec(Format::Double, !self.number().negative))
    }

    /// The nearest whole number, away from zero where two are.
    #[verifier::opaque]
    pub open spec fn spec_round(self) -> Binary64 {
        Binary64::of_number(self.number().nearest_spec(Format::Double))
    }

    /// The square root; none below zero.
    #[verifier::opaque]
    pub open spec fn spec_sqrt(self) -> Binary64 {
        Binary64::of_number(self.number().root_spec(Format::Double))
    }

    /// What is left when the other has been taken away as often as it goes in,
    /// with the sign kept.
    #[verifier::opaque]
    pub open spec fn spec_remainder(self, other: Binary64) -> Binary64 {
        Binary64::of_number(self.number().remainder_spec(other.number(), Format::Double))
    }

    /// What is left when the other has been taken away as often as it goes in,
    /// never negative.
    pub open spec fn spec_rem_euclid(self, other: Binary64) -> Binary64 {
        let left = self.spec_remainder(other);
        if left.spec_lt(Binary64::spec_of(0)) {
            left.spec_add(other.spec_abs())
        } else {
            left
        }
    }

    /// The whole part, held within the limits; none of "not a number".
    #[verifier::opaque]
    pub open spec fn spec_to_integer(self, low: i64, high: i64) -> i64 {
        let whole = if self.number().negative {
            -self.number().whole(Format::Double)
        } else {
            self.number().whole(Format::Double) as int
        };
        if self.number().nan_in(Format::Double) {
            0
        } else if whole < low {
            low
        } else if whole > high {
            high
        } else {
            whole as i64
        }
    }

    /// The number of the other precision nearest to this one.
    #[verifier::opaque]
    pub open spec fn spec_to_binary32(self) -> Binary32 {
        Binary32::of_number(self.number().converted_spec(Format::Double, Format::Single))
    }

    pub(crate) fn to_number(self) -> (n: Number)
        ensures
            n == self.number(),
            n.valid(Format::Double),
    {
        proof {
            number::lemma_constants(Format::Double);
        }
        Number { negative: self.bits >= 0x8000000000000000, bits: (self.bits % 0x8000000000000000) as u64 }
    }

    pub(crate) fn from_number(n: Number) -> (r: Binary64)
        requires
            n.valid(Format::Double),
        ensures
            r == Binary64::of_number(n),
            r.number() == n,
    {
        proof {
            number::lemma_constants(Format::Double);
        }
        if n.negative {
            Binary64 { bits: n.bits as u64 + 0x8000000000000000 }
        } else {
            Binary64 { bits: n.bits as u64 }
        }
    }

    /// The number with this bit pattern.
    pub fn from_bits(bits: u64) -> (r: Binary64)
        ensures
            r.bits == bits,
    {
        Binary64 { bits }
    }

    /// The bit pattern.
    pub fn to_bits(self) -> (bits: u64)
        ensures
            bits == self.bits,
    {
        self.bits
    }

    #[verifier::when_used_as_spec(spec_is_nan)]
    pub fn is_nan(self) -> (r: bool)
        ensures
            r == self.is_nan(),
    {
        reveal(Binary64::spec_is_nan);
        self.to_number().is_nan(Format::Double)
    }

    #[verifier::when_used_as_spec(spec_is_finite)]
    pub fn is_finite(self) -> (r: bool)
        ensures
            r == self.is_finite(),
    {
        reveal(Binary64::spec_is_finite);
        let n = self.to_number();
        !n.is_nan(Format::Double) && !n.is_infinite(Format::Double)
    }

    #[verifier::when_used_as_spec(spec_lt)]
    pub fn lt(self, other: Binary64) -> (r: bool)
        ensures
            r == self.lt(other),
    {
        reveal(Binary64::spec_lt);
        self.to_number().less(other.to_number(), Format::Double)
    }

    /// Whether the two are the same number, zeros of either sign alike.
    #[verifier::when_used_as_spec(spec_same)]
    pub fn same(self, other: Binary64) -> (r: bool)
        ensures
            r == self.same(other),
    {
        reveal(Binary64::spec_same);
        self.to_number().equal(other.to_number(), Format::Double)
    }

    #[verifier::when_used_as_spec(spec_le)]
    pub fn le(self, other: Binary64) -> (r: bool)
        ensures
            r == self.le(other),
    {
        self.lt(other) || self.same(other)
    }

    #[verifier::when_used_as_spec(spec_gt)]
    pub fn gt(self, other: Binary64) -> (r: bool)
        ensures
            r == self.gt(other),
    {
        other.lt(self)
    }

    #[verifier::when_used_as_spec(spec_ge)]
    pub fn ge(self, other: Binary64) -> (r: bool)
        ensures
            r == self.ge(other),
    {
        other.le(self)
    }

    /// The number nearest to `n / d`.
    #[verifier::when_used_as_spec(spec_ratio)]
    pub fn ratio(n: u64, d: u64) -> (r: Binary64)
        requires
            d > 0,
        ensures
            r == Binary64::ratio(n, d),
    {
        reveal(Binary64::spec_ratio);
        Binary64::from_number(Number::ratio(Format::Double, false, n, d))
    }

    /// The number nearest to a whole one.
    #[verifier::when_used_as_spec(spec_of)]
    pub fn of(n: i64) -> (r: Binary64)
        ensures
            r == Binary64::of(n),
    {
        reveal(Binary64::spec_of);
        let size: u64 = if n < 0 {
            (-(n as i128)) as u64
        } else {
            n as u64
        };
        Binary64::from_number(Number::ratio(Format::Double, n < 0, size, 1))
    }

    #[verifier::when_used_as_spec(spec_negate)]
    pub fn negate(self) -> (r: Binary64)
        ensures
            r == self.negate(),
    {
        reveal(Binary64::spec_negate);
        let n = self.to_number();
        Binary64::from_number(Number { negative: !n.negative, bits: n.bits })
    }

    #[verifier::when_used_as_spec(spec_abs)]
    pub fn abs(self) -> (r: Binary64)
        ensures
            r == self.abs(),
    {
        reveal(Binary64::spec_abs);
        Binary64::from_number(Number { negative: false, bits: self.to_number().bits })
    }

    /// The larger of the two; where one is "not a number", the other.
    #[verifier::when_used_as_spec(spec_max)]
    pub fn max(self, other: Binary64) -> (r: Binary64)
        ensures
            r == self.max(other),
    {
        if other.is_nan() {
            self
        } else if self.is_nan() || self.lt(other) {
            other
        } else {
            self
        }
    }

    /// The smaller of the two; where one is "not a number", the other.
    #[verifier::when_used_as_spec(spec_min)]
    pub fn min(self, other: Binary64) -> (r: Binary64)
        ensures
            r == self.min(other),
    {
        if other.is_nan() {
            self
        } else if self.is_nan() || other.lt(self) {
            other
        } else {
            self
        }
    }

    /// The nearest number within the limits; "not a number" stays.
    #[verifier::when_used_as_spec(spec_clamp)]
    pub fn clamp(self, low: Binary64, high: Binary64) -> (r: Binary64)
        ensures
            r == self.clamp(low, high),
    {
        if self.lt(low) {
            low
        } else if high.lt(self) {
            high
        } else {
            self
        }
    }

    /// One with the sign of the number.
    #[verifier::when_used_as_spec(spec_signum)]
    pub fn signum(self) -> (r: Binary64)
        ensures
            r == self.signum(),
    {
        if self.is_nan() {
            Binary64::from_number(Number::nan(Format::Double))
        } else if self.to_number().negative {
            Binary64::of(1).negate()
        } else {
            Binary64::of(1)
        }
    }

    /// The largest whole number not above.
    #[verifier::when_used_as_spec(spec_floor)]
    pub fn floor(self) -> (r: Binary64)
        ensures
            r == self.floor(),
    {
        reveal(Binary64::spec_floor);
        let n = self.to_number();
        Binary64::from_number(n.integral(Format::Double, n.negative))
    }

    /// The smallest whole number not below.
    #[verifier::when_used_as_spec(spec_ceil)]
    pub fn ceil(self) -> (r: Binary64)
        ensures
            r == self.ceil(),
    {
        reveal(Binary64::spec_ceil);
        let n = self.to_number();
        Binary64::from_number(n.integral(Format::Double, !n.negative))
    }

    /// The nearest whole number, away from zero where two are.
    #[verifier::when_used_as_spec(spec_round)]
    pub fn round(self) -> (r: Binary64)
        ensures
            r == self.round(),
    {
        reveal(Binary64::spec_round);
        Binary64::from_number(self.to_number().nearest(Format::Double))
    }

    /// The square root; none below zero.
    #[verifier::when_used_as_spec(spec_sqrt)]
    pub fn sqrt(self) -> (r: Binary64)
        ensures
            r == self.sqrt(),
    {
        reveal(Binary64::spec_sqrt);
        Binary64::from_number(self.to_number().root(Format::Double))
    }

    /// What is left when the other has been taken away as often as it goes in,
    /// with the sign kept.
    #[verifier::when_used_as_spec(spec_remainder)]
    pub fn remainder(self, other: Binary64) -> (r: Binary64)
        ensures
            r == self.remainder(other),
    {
        reveal(Binary64::spec_remainder);
        Binary64::from_number(self.to_number().remainder(other.to_number(), Format::Double))
    }

    /// What is left when the other has been taken away as often as it goes in,
    /// never negative.
    #[verifier::when_used_as_spec(spec_rem_euclid)]
    pub fn rem_euclid(self, other: Binary64) -> (r: Binary64)
        ensures
            r == self.rem_euclid(other),
    {
        let left = self.remainder(other);
        if left.lt(Binary64::of(0)) {
            left + other.abs()
        } else {
            left
        }
    }

    /// The whole part, held within the limits; none of "not a number".
    #[verifier::when_used_as_spec(spec_to_integer)]
    pub fn to_integer(self, low: i64, high: i64) -> (r: i64)
        requires
            low <= 0 <= high,
        ensures
            r == self.to_integer(low, high),
    {
        reveal(Binary64::spec_to_integer);
        let n = self.to_number();
        if n.is_nan(Format::Double) {
            return 0;
        }
        let whole: u64 = n.whole_saturated(Format::Double);
        if n.negative {
            if whole as i128 > -(low as i128) {
                low
            } else {
                (-(whole as i128)) as i64
            }
        } else if whole > high as u64 {
            high
        } else {
            whole as i64
        }
    }

    /// The number of the other precision nearest to this one.
    #[verifier::when_used_as_spec(spec_to_binary32)]
    pub fn to_binary32(self) -> (r: Binary32)
        ensures
            r == self.to_binary32(),
    {
        reveal(Binary64::spec_to_binary32);
        Binary32::from_number(self.to_number().converted(Format::Double, Format::Single))
    }
}

/// What the order and the classes say of the count.
pub proof fn lemma_order(a: Binary64, b: Binary64)
    ensures
        a < b <==> !a.is_nan() && !b.is_nan() && a.value() < b.value(),
        a.same(b) <==> !a.is_nan() && !b.is_nan() && a.value() == b.value(),
        a <= b <==> !a.is_nan() && !b.is_nan() && a.value() <= b.value(),
        a.is_finite() ==> !a.is_nan(),
        b.is_finite() ==> !b.is_nan(),
{
    reveal(Binary64::spec_lt);
    reveal(Binary64::spec_same);
    reveal(Binary64::spec_is_nan);
    reveal(Binary64::spec_is_finite);
}

/// What is not larger than a finite number in size is finite.
pub proof fn lemma_finite_below(x: Binary64, bound: Binary64)
    requires
        bound.is_finite(),
        x.is_nan() || -bound.value() <= x.value() <= bound.value(),
    ensures
        !x.is_nan() ==> x.is_finite(),
{
    reveal(Binary64::spec_is_nan);
    reveal(Binary64::spec_is_finite);
    if !x.is_nan() && !x.is_finite() {
        rounding::lemma_decode_monotone(Format::Double, bound.number().bits as nat, x.number().bits as nat);
    }
}

/// A count rounded to the nearest one of the format.
pub open spec fn round_value(n: int, d: nat) -> int {
    number::round_signed(Format::Double, n, d)
}

/// A larger count does not round to a smaller one.
pub proof fn lemma_round_monotone(n1: int, n2: int, d: nat)
    requires
        d > 0,
        n1 <= n2,
    ensures
        round_value(n1, d) <= round_value(n2, d),
{
    number::lemma_round_signed_monotone(Format::Double, n1, n2, d);
}

/// A number's own count rounds to itself.
pub proof fn lemma_round_exact(x: Binary64, d: nat)
    requires
        !x.is_nan(),
        d > 0,
    ensures
        round_value(x.value() * d, d) == x.value(),
        round_value(x.value(), 1) == x.value(),
{
    reveal(Binary64::spec_is_nan);
    number::lemma_round_signed_exact(Format::Double, x.number(), d);
    number::lemma_round_signed_exact(Format::Double, x.number(), 1);
    assert(x.value() * 1 == x.value());
}

/// What a sum of finite numbers counts as.
pub proof fn lemma_add(a: Binary64, b: Binary64)
    requires
        a.is_finite(),
        b.is_finite(),
    ensures
        !(a + b).is_nan(),
        (a + b).value() == round_value(a.value() + b.value(), 1),
{
    reveal(Binary64::spec_add);
    reveal(Binary64::spec_is_nan);
    reveal(Binary64::spec_is_finite);
    number::lemma_sum_value(Format::Double, a.number(), b.number());
    lemma_sum_valid(a, b);
}

proof fn lemma_sum_valid(a: Binary64, b: Binary64)
    ensures
        (a + b).number() == a.number().sum_spec(b.number(), Format::Double),
{
    reveal(Binary64::spec_add);
    number::lemma_constants(Format::Double);
    let exact = a.value() + b.value();
    number::lemma_rounded(Format::Double, exact < 0, number::magnitude_of(exact), 1);
}

/// What the opposite of a number counts as.
pub proof fn lemma_negate(a: Binary64)
    ensures
        a.negate().value() == -a.value(),
        a.negate().is_nan() == a.is_nan(),
        a.negate().is_finite() == a.is_finite(),
        a.negate().negate() == a,
{
    reveal(Binary64::spec_negate);
    reveal(Binary64::spec_is_nan);
    reveal(Binary64::spec_is_finite);
}

/// What the size of a number counts as.
pub proof fn lemma_abs(a: Binary64)
    ensures
        a.abs().value() == number::magnitude_of(a.value()),
        a.abs().is_nan() == a.is_nan(),
        a.abs().is_finite() == a.is_finite(),
{
    reveal(Binary64::spec_abs);
    reveal(Binary64::spec_is_nan);
    reveal(Binary64::spec_is_finite);
}

/// What a product of finite numbers counts as.
pub proof fn lemma_mul(a: Binary64, b: Binary64)
    requires
        a.is_finite(),
        b.is_finite(),
    ensures
        !(a * b).is_nan(),
        Binary64::one() > 0,
        (a * b).value() == round_value(a.value() * b.value(), Binary64::one()),
{
    reveal(Binary64::spec_mul);
    reveal(Binary64::spec_is_nan);
    reveal(Binary64::spec_is_finite);
    lemma_pow2_pos(Format::Double.unit());
    number::lemma_constants(Format::Double);
    number::lemma_rounded(
        Format::Double,
        a.number().negative != b.number().negative,
        a.number().magnitude(Format::Double) * b.number().magnitude(Format::Double),
        Binary64::one(),
    );
    number::lemma_product_value(Format::Double, a.number(), b.number());
}

/// What a quotient of finite numbers counts as, the divisor being positive.
pub proof fn lemma_div(a: Binary64, b: Binary64)
    requires
        a.is_finite(),
        b.is_finite(),
        b.value() > 0,
    ensures
        !(a / b).is_nan(),
        (a / b).value() == round_value(a.value() * Binary64::one(), b.value() as nat),
{
    reveal(Binary64::spec_euclidean_or_real_div);
    reveal(Binary64::spec_is_nan);
    reveal(Binary64::spec_is_finite);
    lemma_pow2_pos(Format::Double.unit());
    number::lemma_constants(Format::Double);
    rounding::lemma_round_zero(Format::Double, 1);
    number::lemma_rounded(
        Format::Double,
        a.number().negative != b.number().negative,
        a.number().magnitude(Format::Double) * Binary64::one(),
        b.number().magnitude(Format::Double),
    );
    number::lemma_quotient_value(Format::Double, a.number(), b.number());
}

/// Infinity divided by a finite number above zero stays infinite.
pub proof fn lemma_div_infinite(a: Binary64, b: Binary64)
    requires
        !a.is_nan(),
        !a.is_finite(),
        b.is_finite(),
        b.value() > 0,
    ensures
        !(a / b).is_nan(),
        (a / b).value() == a.value(),
{
    reveal(Binary64::spec_euclidean_or_real_div);
    reveal(Binary64::spec_is_nan);
    reveal(Binary64::spec_is_finite);
    number::lemma_constants(Format::Double);
}

/// A whole number within the significand's reach is kept exactly.
pub proof fn lemma_of(n: i64)
    requires
        -0x20000000000000 <= n <= 0x20000000000000,
    ensures
        Binary64::of(n).is_finite(),
        !Binary64::of(n).is_nan(),
        Binary64::of(n).value() == n * Binary64::one(),
        n == 0 ==> Binary64::of(n).value() == 0,
        n == 1 ==> Binary64::of(n).value() == Binary64::one(),
        Binary64::one() > 0,
{
    reveal(Binary64::spec_of);
    reveal(Binary64::spec_is_finite);
    reveal(Binary64::spec_is_nan);
    lemma_pow2_pos(Format::Double.unit());
    number::lemma_constants(Format::Double);
    number::lemma_whole_exact(Format::Double, n < 0, number::magnitude_of(n as int));
    let m = number::magnitude_of(n as int);
    assert((-(m as int)) * Binary64::one() == -(m * Binary64::one())) by (nonlinear_arith);
    assert(n == 0 ==> n * Binary64::one() == 0) by (nonlinear_arith);
    assert(n == 1 ==> n * Binary64::one() == Binary64::one()) by (nonlinear_arith);
}

/// The sign of a number counts as plus or minus one.
pub proof fn lemma_signum(a: Binary64)
    requires
        !a.is_nan(),
    ensures
        a.signum().is_finite(),
        a.signum().value() == Binary64::one() || a.signum().value() == -Binary64::one(),
        a.value() > 0 ==> a.signum().value() == Binary64::one(),
        a.value() < 0 ==> a.signum().value() == -Binary64::one(),
{
    lemma_of(1);
    lemma_negate(Binary64::of(1));
}

/// A factor of plus or minus one keeps the other's size.
pub proof fn lemma_unit_factor(sign: Binary64, b: Binary64)
    requires
        sign.is_finite(),
        sign.value() == Binary64::one() || sign.value() == -Binary64::one(),
        b.is_finite(),
    ensures
        (sign * b).is_finite(),
        sign.value() > 0 ==> (sign * b).value() == b.value(),
        sign.value() < 0 ==> (sign * b).value() == -b.value(),
{
    let one = Binary64::one();
    lemma_order(b, b);
    lemma_mul(sign, b);
    lemma_round_exact(b, one);
    lemma_negate(b);
    lemma_round_exact(b.negate(), one);
    assert(sign.value() * b.value() == if sign.value() > 0 {
        b.value() * one
    } else {
        b.negate().value() * one
    }) by (nonlinear_arith)
        requires
            sign.value() == one || sign.value() == -one,
            b.negate().value() == -b.value(),
            one > 0,
    ;
    lemma_abs(b);
    lemma_finite_below(sign * b, b.abs());
}

/// A share from zero to one of a number that is not negative lies between
/// zero and that number.
pub proof fn lemma_product_below(b: Binary64, share: Binary64)
    requires
        b.is_finite(),
        b.value() >= 0,
        share.is_finite(),
        0 <= share.value() <= Binary64::one(),
    ensures
        (b * share).is_finite(),
        0 <= (b * share).value() <= b.value(),
{
    let one = Binary64::one();
    lemma_order(b, b);
    lemma_of(0);
    lemma_of(1);
    lemma_mul(b, share);
    lemma_round_exact(b, one);
    lemma_round_exact(Binary64::of(0), one);
    assert(0 <= b.value() * share.value() <= b.value() * one) by (nonlinear_arith)
        requires
            b.value() >= 0,
            0 <= share.value() <= one,
    ;
    assert(0 * one == 0);
    lemma_round_monotone(0, b.value() * share.value(), one);
    lemma_round_monotone(b.value() * share.value(), b.value() * one, one);
    lemma_finite_below(b * share, b);
}

/// A factor of zero leaves zero of a finite number.
pub proof fn lemma_zero_factor(zero: Binary64, b: Binary64)
    requires
        zero.is_finite(),
        zero.value() == 0,
        b.is_finite(),
    ensures
        (zero * b).is_finite(),
        (zero * b).value() == 0,
        (b * zero).is_finite(),
        (b * zero).value() == 0,
{
    let one = Binary64::one();
    lemma_mul(zero, b);
    lemma_mul(b, zero);
    rounding::lemma_round_zero(Format::Double, one);
    assert(0 * b.value() == 0);
    assert(b.value() * 0 == 0);
    lemma_finite_below(zero * b, zero);
    lemma_finite_below(b * zero, zero);
}

/// A larger number has no smaller square root.
pub proof fn lemma_sqrt_monotone(a: Binary64, b: Binary64)
    requires
        a.is_finite(),
        b.is_finite(),
        0 <= a.value() <= b.value(),
    ensures
        !a.sqrt().is_nan(),
        !b.sqrt().is_nan(),
        0 <= a.sqrt().value() <= b.sqrt().value(),
{
    lemma_sqrt(a);
    lemma_sqrt(b);
    let one = Binary64::one();
    lemma_pow2_pos(Format::Double.unit());
    let wa = (a.value() * one) as nat;
    let wb = (b.value() * one) as nat;
    assert(0 <= a.value() * one <= b.value() * one) by (nonlinear_arith)
        requires
            0 <= a.value() <= b.value(),
            one > 0,
    ;
    root::lemma_root_monotone(wa, wb);
    lemma_round_monotone(root::root_numerator(wa) as int, root::root_numerator(wb) as int, 2);
    lemma_round_monotone(0, root::root_numerator(wa) as int, 2);
    rounding::lemma_round_zero(Format::Double, 2);
}

/// What a square root counts as.
pub proof fn lemma_sqrt(a: Binary64)
    requires
        a.is_finite(),
        a.value() >= 0,
    ensures
        !a.sqrt().is_nan(),
        a.sqrt().value() == round_value(
            root::root_numerator((a.value() * Binary64::one()) as nat) as int,
            2,
        ),
{
    reveal(Binary64::spec_sqrt);
    reveal(Binary64::spec_is_nan);
    reveal(Binary64::spec_is_finite);
    number::lemma_constants(Format::Double);
    let w = (a.value() * Binary64::one()) as nat;
    assert(a.value() * Binary64::one() >= 0) by (nonlinear_arith)
        requires
            a.value() >= 0,
            Binary64::one() >= 0,
    ;
    number::lemma_rounded(Format::Double, false, root::root_numerator(w), 2);
    if a.value() == 0 {
        rounding::lemma_encode_decode(Format::Double, a.number().bits as nat);
        rounding::lemma_encode_decode(Format::Double, 0);
        rounding::lemma_decode_packs(Format::Double, 0, 0);
        rounding::lemma_round_zero(Format::Double, 2);
        root::lemma_root_of_zero();
    } else {
        rounding::lemma_decode_packs(Format::Double, 0, 0);
    }
}

/// The square root of one is one, so that of a share of one is a share of one.
pub proof fn lemma_sqrt_share(a: Binary64)
    requires
        a.is_finite(),
        0 <= a.value() <= Binary64::one(),
    ensures
        a.sqrt().is_finite(),
        0 <= a.sqrt().value() <= Binary64::one(),
{
    lemma_of(1);
    let x = Binary64::of(1);
    lemma_sqrt_monotone(a, x);
    lemma_sqrt(x);
    root::lemma_root_of_square(Binary64::one());
    lemma_order(x, x);
    lemma_round_exact(x, 2);
    assert(1 * Binary64::one() == Binary64::one());
    lemma_finite_below(a.sqrt(), x);
}

/// A share of one counts as no more than one.
pub proof fn lemma_ratio_share(n: u64, d: u64)
    requires
        0 < n <= d,
    ensures
        Binary64::ratio(n, d).is_finite(),
        !Binary64::ratio(n, d).is_nan(),
        0 < Binary64::ratio(n, d).value() <= Binary64::one(),
{
    lemma_ratio_positive(n, d);
    reveal(Binary64::spec_ratio);
    number::lemma_constants(Format::Double);
    lemma_of(1);
    let one = Binary64::one();
    number::lemma_rounded(Format::Double, false, n as nat * one, d as nat);
    lemma_round_exact(Binary64::of(1), d as nat);
    assert(n as nat * one <= one * d) by (nonlinear_arith)
        requires
            n <= d,
            one > 0,
    ;
    lemma_round_monotone(n as nat * one as int, one * d as int, d as nat);
}

/// A whole part held within limits is within them.
pub proof fn lemma_to_integer_range(a: Binary64, low: i64, high: i64)
    requires
        low <= 0 <= high,
    ensures
        low <= a.to_integer(low, high) <= high,
{
    reveal(Binary64::spec_to_integer);
}

/// Infinity plus a finite number stays infinite.
pub proof fn lemma_add_infinite(a: Binary64, b: Binary64)
    requires
        !a.is_nan(),
        !a.is_finite(),
        b.is_finite(),
    ensures
        !(a + b).is_nan(),
        !(a + b).is_finite(),
        (a + b).value() == a.value(),
{
    reveal(Binary64::spec_add);
    reveal(Binary64::spec_is_nan);
    reveal(Binary64::spec_is_finite);
    number::lemma_constants(Format::Double);
    lemma_sum_valid(a, b);
}

/// No parts at all count as none.
pub proof fn lemma_ratio_zero(d: u64)
    requires
        d > 0,
    ensures
        Binary64::ratio(0, d).is_finite(),
        !Binary64::ratio(0, d).is_nan(),
        Binary64::ratio(0, d).value() == 0,
{
    reveal(Binary64::spec_ratio);
    reveal(Binary64::spec_is_nan);
    reveal(Binary64::spec_is_finite);
    number::lemma_constants(Format::Double);
    assert(0 * Binary64::one() == 0);
    number::lemma_rounded(Format::Double, false, 0, d as nat);
    rounding::lemma_round_zero(Format::Double, d as nat);
    lemma_of(0);
}

/// Half of a finite number is finite.
pub proof fn lemma_half_finite(a: Binary64)
    requires
        a.is_finite(),
    ensures
        (a * Binary64::ratio(1, 2)).is_finite(),
{
    let half = Binary64::ratio(1, 2);
    let one = Binary64::one();
    lemma_ratio_share(1, 2);
    lemma_mul(a, half);
    lemma_abs(a);
    lemma_negate(a.abs());
    let size = a.abs();
    lemma_order(size, size);
    lemma_order(size.negate(), size);
    lemma_round_exact(size, one);
    lemma_round_exact(size.negate(), one);
    assert(-size.value() * one <= a.value() * half.value() <= size.value() * one) by (nonlinear_arith)
        requires
            -size.value() <= a.value() <= size.value(),
            0 <= half.value() <= one,
    ;
    lemma_round_monotone(size.negate().value() * one, a.value() * half.value(), one);
    lemma_round_monotone(a.value() * half.value(), size.value() * one, one);
    lemma_finite_below(a * half, size);
}

/// What counts as nothing is finite.
pub proof fn lemma_zero_finite(a: Binary64)
    requires
        a.value() == 0,
    ensures
        a.is_finite(),
{
    reveal(Binary64::spec_is_finite);
    number::lemma_constants(Format::Double);
    if !a.is_finite() {
        rounding::lemma_decode_packs(Format::Double, 0, 0);
        rounding::lemma_decode_packs(Format::Double, 0, 1);
        rounding::lemma_decode_monotone(Format::Double, 1, a.number().bits as nat);
    }
}

/// A number above zero times infinity above zero is infinity.
pub proof fn lemma_mul_infinite(a: Binary64, b: Binary64)
    requires
        a.is_finite(),
        a.value() > 0,
        !b.is_nan(),
        !b.is_finite(),
        b.value() > 0,
    ensures
        !(a * b).is_nan(),
        (a * b).value() == b.value(),
{
    reveal(Binary64::spec_mul);
    reveal(Binary64::spec_is_nan);
    reveal(Binary64::spec_is_finite);
    number::lemma_constants(Format::Double);
    rounding::lemma_decode_packs(Format::Double, 0, 0);
}

/// A sum of numbers within bounds that are numbers themselves is within theirs.
pub proof fn lemma_sum_between(a: Binary64, b: Binary64, low: Binary64, high: Binary64)
    requires
        a.is_finite(),
        b.is_finite(),
        low.is_finite(),
        high.is_finite(),
        low.value() <= a.value() + b.value() <= high.value(),
    ensures
        (a + b).is_finite(),
        low.value() <= (a + b).value() <= high.value(),
{
    lemma_add(a, b);
    lemma_order(low, high);
    lemma_round_exact(low, 1);
    lemma_round_exact(high, 1);
    lemma_round_monotone(low.value(), a.value() + b.value(), 1);
    lemma_round_monotone(a.value() + b.value(), high.value(), 1);
    lemma_between_finite(a + b, low, high);
}

/// What lies between finite numbers is finite.
pub proof fn lemma_between_finite(x: Binary64, low: Binary64, high: Binary64)
    requires
        !x.is_nan(),
        low.is_finite(),
        high.is_finite(),
        low.value() <= x.value() <= high.value(),
    ensures
        x.is_finite(),
{
    lemma_abs(low);
    lemma_abs(high);
    if low.abs().value() <= high.abs().value() {
        lemma_finite_below(x, high.abs());
    } else {
        lemma_finite_below(x, low.abs());
    }
}

/// A product whose exact value lies between numbers lies between them.
pub proof fn lemma_product_between(a: Binary64, b: Binary64, low: Binary64, high: Binary64)
    requires
        a.is_finite(),
        b.is_finite(),
        low.is_finite(),
        high.is_finite(),
        low.value() * Binary64::one() <= a.value() * b.value() <= high.value() * Binary64::one(),
    ensures
        (a * b).is_finite(),
        low.value() <= (a * b).value() <= high.value(),
{
    let one = Binary64::one();
    lemma_mul(a, b);
    lemma_order(low, high);
    lemma_round_exact(low, one);
    lemma_round_exact(high, one);
    lemma_round_monotone(low.value() * one, a.value() * b.value(), one);
    lemma_round_monotone(a.value() * b.value(), high.value() * one, one);
    lemma_between_finite(a * b, low, high);
}

/// A quotient whose exact value lies between numbers lies between them.
pub proof fn lemma_quotient_between(a: Binary64, b: Binary64, low: Binary64, high: Binary64)
    requires
        a.is_finite(),
        b.is_finite(),
        b.value() > 0,
        low.is_finite(),
        high.is_finite(),
        low.value() * b.value() <= a.value() * Binary64::one() <= high.value() * b.value(),
    ensures
        (a / b).is_finite(),
        low.value() <= (a / b).value() <= high.value(),
{
    let d = b.value() as nat;
    lemma_div(a, b);
    lemma_order(low, high);
    lemma_round_exact(low, d);
    lemma_round_exact(high, d);
    lemma_round_monotone(low.value() * d, a.value() * Binary64::one(), d);
    lemma_round_monotone(a.value() * Binary64::one(), high.value() * d, d);
    lemma_between_finite(a / b, low, high);
}

/// The root of one quarter is one half, so that of more is no less.
pub proof fn lemma_sqrt_half(a: Binary64)
    requires
        a.is_finite(),
        Binary64::one() <= 4 * a.value(),
        a.value() <= Binary64::one(),
    ensures
        a.sqrt().is_finite(),
        Binary64::one() <= 2 * a.sqrt().value(),
        a.sqrt().value() <= Binary64::one(),
{
    let o = Binary64::one();
    let half = Binary64::ratio(1, 2);
    let quarter = half * half;
    lemma_halves(1);
    lemma_ratio_share(1, 2);
    lemma_mul(half, half);
    let u = Format::Double.unit();
    let q = (u - 2) as nat;
    lemma2_to64();
    lemma_pow2_adds(2, q);
    lemma_pow2_adds(1, (u - 1) as nat);
    lemma_pow2_adds(1, q);
    let h = pow2((u - 1) as nat);
    assert(half.value() == h);
    assert(h * h == pow2(q) * o) by (nonlinear_arith)
        requires
            h == 2 * pow2(q),
            o == 4 * pow2(q),
    ;
    lemma_pow2_strictly_increases(0, Format::Double.precision());
    number::lemma_scaled_exact(Format::Double, 1, q);
    assert(1 * pow2(q) == pow2(q));
    lemma_pow2_pos(u);
    rounding::lemma_round_exact(Format::Double, Format::Double.encode(pow2(q)), o);
    assert(quarter.value() == pow2(q));
    lemma_finite_below(quarter, half);
    lemma_sqrt_share(a);
    lemma_sqrt_monotone(quarter, a);
    lemma_sqrt(quarter);
    assert(pow2(q) * o == h * h);
    root::lemma_root_of_square(h);
    lemma_order(half, half);
    lemma_round_exact(half, 2);
}

/// Infinity does not count as nothing.
pub proof fn lemma_infinite_value(a: Binary64)
    requires
        !a.is_finite(),
    ensures
        a.value() != 0,
{
    if a.value() == 0 {
        lemma_zero_finite(a);
    }
}

/// What a ratio counts as.
pub proof fn lemma_ratio_value(n: u64, d: u64)
    requires
        d > 0,
    ensures
        !Binary64::ratio(n, d).is_nan(),
        Binary64::one() > 0,
        Binary64::ratio(n, d).value() == round_value(n * Binary64::one(), d as nat),
{
    reveal(Binary64::spec_ratio);
    reveal(Binary64::spec_is_nan);
    let one = Binary64::one();
    number::lemma_constants(Format::Double);
    lemma_pow2_pos(Format::Double.unit());
    number::lemma_rounded(Format::Double, false, n as nat * one, d as nat);
    assert(n * one == n as nat * one);
    assert(n * one >= 0) by (nonlinear_arith)
        requires
            n >= 0,
            one > 0,
    ;
}

/// A ratio between whole numbers counts as between them.
pub proof fn lemma_ratio_bounds(n: u64, d: u64, low: i64, high: i64)
    requires
        d > 0,
        n > 0,
        0 <= low <= high <= 0x20000000000000,
        low * d <= n <= high * d,
    ensures
        low * Binary64::one() <= Binary64::ratio(n, d).value() <= high * Binary64::one(),
{
    let one = Binary64::one();
    lemma_ratio_value(n, d);
    lemma_of(low);
    lemma_of(high);
    lemma_order(Binary64::of(low), Binary64::of(high));
    lemma_round_exact(Binary64::of(low), d as nat);
    lemma_round_exact(Binary64::of(high), d as nat);
    assert((low * one) * d <= n * one <= (high * one) * d) by (nonlinear_arith)
        requires
            low * d <= n <= high * d,
            one > 0,
    ;
    lemma_round_monotone((low * one) * d, n * one, d as nat);
    lemma_round_monotone(n * one, (high * one) * d, d as nat);
}

/// One quarter is exact.
pub proof fn lemma_quarter()
    ensures
        Binary64::ratio(1, 4).is_finite(),
        !Binary64::ratio(1, 4).is_nan(),
        4 * Binary64::ratio(1, 4).value() == Binary64::one(),
{
    reveal(Binary64::spec_ratio);
    lemma_ratio_positive(1, 4);
    let u = Format::Double.unit();
    let q = (u - 2) as nat;
    lemma2_to64();
    lemma_pow2_adds(2, q);
    number::lemma_constants(Format::Double);
    lemma_pow2_strictly_increases(0, Format::Double.precision());
    number::lemma_scaled_exact(Format::Double, 1, q);
    assert(1 * pow2(q) == pow2(q));
    rounding::lemma_round_exact(Format::Double, Format::Double.encode(pow2(q)), 4);
    number::lemma_rounded(Format::Double, false, 1 * Binary64::one(), 4);
    assert(1 * Binary64::one() == pow2(q) * 4);
}

/// A finite number divided by infinity is nothing.
pub proof fn lemma_div_by_infinite(a: Binary64, b: Binary64)
    requires
        a.is_finite(),
        !b.is_nan(),
        !b.is_finite(),
    ensures
        (a / b).is_finite(),
        (a / b).value() == 0,
{
    reveal(Binary64::spec_euclidean_or_real_div);
    reveal(Binary64::spec_is_nan);
    reveal(Binary64::spec_is_finite);
    number::lemma_constants(Format::Double);
    rounding::lemma_decode_packs(Format::Double, 0, 0);
}

/// Half of a finite number is finite, with the half in front.
pub proof fn lemma_half_of_finite(a: Binary64)
    requires
        a.is_finite(),
    ensures
        (Binary64::ratio(1, 2) * a).is_finite(),
{
    let half = Binary64::ratio(1, 2);
    lemma_ratio_share(1, 2);
    lemma_half_finite(a);
    lemma_mul(a, half);
    lemma_mul(half, a);
    assert(a.value() * half.value() == half.value() * a.value()) by (nonlinear_arith);
    lemma_between_finite(half * a, a * half, a * half);
}

/// A finite number plus infinity is infinite.
pub proof fn lemma_infinite_first(a: Binary64, b: Binary64)
    requires
        a.is_finite(),
        !b.is_nan(),
        !b.is_finite(),
    ensures
        !(a + b).is_nan(),
        (a + b).value() == b.value(),
{
    reveal(Binary64::spec_add);
    reveal(Binary64::spec_is_nan);
    reveal(Binary64::spec_is_finite);
    number::lemma_constants(Format::Double);
    lemma_sum_valid(a, b);
}

/// Two numbers above zero that count alike have one pattern.
pub proof fn lemma_value_determines_positive(a: Binary64, b: Binary64)
    requires
        !a.is_nan(),
        !b.is_nan(),
        b.value() > 0,
    ensures
        a.value() == b.value() ==> a == b,
{
    if a.value() == b.value() {
        lemma_positive_sign(a);
        lemma_positive_sign(b);
        lemma_value_determines(a, b);
    }
}

/// What is not finite leaves no number of zero, and no sum with it.
pub proof fn lemma_broken_product(a: Binary64, zero: Binary64, b: Binary64)
    requires
        !a.is_finite(),
        zero.is_finite(),
        zero.value() == 0,
    ensures
        (a * zero).is_nan(),
        (a * zero + b).is_nan(),
{
    reveal(Binary64::spec_mul);
    reveal(Binary64::spec_add);
    reveal(Binary64::spec_is_nan);
    reveal(Binary64::spec_is_finite);
    number::lemma_constants(Format::Double);
    rounding::lemma_decode_packs(Format::Double, 0, 0);
    rounding::lemma_encode_decode(Format::Double, zero.number().bits as nat);
    rounding::lemma_encode_decode(Format::Double, 0);
}

/// A number above zero has a clear sign.
pub proof fn lemma_positive_sign(a: Binary64)
    requires
        a.value() > 0,
    ensures
        !a.number().negative,
        a.abs() == a,
        a.negate().abs() == a,
{
    reveal(Binary64::spec_abs);
    reveal(Binary64::spec_negate);
}

/// Two numbers of one sign that count alike have one pattern.
pub proof fn lemma_value_determines(a: Binary64, b: Binary64)
    requires
        !a.is_nan(),
        !b.is_nan(),
        a.value() == b.value(),
        a.number().negative == b.number().negative,
    ensures
        a == b,
{
    rounding::lemma_encode_decode(Format::Double, a.number().bits as nat);
    rounding::lemma_encode_decode(Format::Double, b.number().bits as nat);
    assert(a.number().bits == b.number().bits);
    assert(a.bits % 0x8000000000000000 == b.bits % 0x8000000000000000);
    assert(a.bits == b.bits);
}

/// A ratio of positive whole numbers is above zero.
pub proof fn lemma_ratio_positive(n: u64, d: u64)
    requires
        n > 0,
        d > 0,
    ensures
        Binary64::ratio(n, d).is_finite(),
        !Binary64::ratio(n, d).is_nan(),
        Binary64::ratio(n, d).value() > 0,
{
    reveal(Binary64::spec_ratio);
    reveal(Binary64::spec_is_nan);
    reveal(Binary64::spec_is_finite);
    lemma2_to64();
    number::lemma_ratio_finite(Format::Double, false, n as nat, d as nat);
    number::lemma_constants(Format::Double);
    lemma_pow2_strictly_increases(64, Format::Double.unit());
    assert(n as nat * Binary64::one() >= d) by (nonlinear_arith)
        requires
            n >= 1,
            Binary64::one() >= d,
    ;
    number::lemma_rounded(Format::Double, false, n as nat * Binary64::one(), d as nat);
    rounding::lemma_round_monotone(Format::Double, d as nat, n as nat * Binary64::one(), d as nat);
    lemma_smallest();
    rounding::lemma_round_exact(Format::Double, 1, d as nat);
    assert(1 * d == d);
}

proof fn lemma_smallest()
    ensures
        Format::Double.decode(1) == 1,
        1 <= Format::Double.infinity_bits(),
{
    number::lemma_constants(Format::Double);
    lemma2_to64();
    rounding::lemma_decode_packs(Format::Double, 0, 1);
    assert(0 * Format::Double.lead() == 0);
    assert(1 * pow2(0) == 1);
}

/// The whole part of a number between whole ones.
pub proof fn lemma_to_integer(a: Binary64, low: i64, high: i64)
    requires
        !a.is_nan(),
        0 <= low <= high,
        low * Binary64::one() <= a.value() <= high * Binary64::one(),
    ensures
        low <= a.to_integer(0, i64::MAX) <= high,
        a.to_integer(0, i64::MAX) == a.value() / (Binary64::one() as int),
{
    reveal(Binary64::spec_to_integer);
    reveal(Binary64::spec_is_nan);
    let one = Binary64::one() as int;
    let v = a.value();
    lemma_pow2_pos(Format::Double.unit());
    vstd::arithmetic::div_mod::lemma_fundamental_div_mod(v, one);
    let q = v / one;
    let r = v % one;
    assert(0 <= low * one) by (nonlinear_arith)
        requires
            low >= 0,
            one > 0,
    ;
    assert(low <= q <= high) by (nonlinear_arith)
        requires
            v == one * q + r,
            0 <= r < one,
            low * one <= v <= high * one,
            one > 0,
    ;
    if a.number().negative {
        assert(a.number().magnitude(Format::Double) == 0);
        vstd::arithmetic::div_mod::lemma_div_basics(one);
    }
}

/// Whole numbers within the significand's reach add up exactly.
pub proof fn lemma_of_sum(a: i64, b: i64)
    requires
        a >= 0,
        b >= 0,
        a + b <= 0x20000000000000,
    ensures
        Binary64::of(a) + Binary64::of(b) == Binary64::of((a + b) as i64),
{
    let c = (a + b) as i64;
    let one = Binary64::one();
    lemma_of(a);
    lemma_of(b);
    lemma_of(c);
    lemma_add(Binary64::of(a), Binary64::of(b));
    lemma_round_exact(Binary64::of(c), 1);
    assert(a * one + b * one == c * one && a * one >= 0 && b * one >= 0) by (nonlinear_arith)
        requires
            a + b == c,
            a >= 0,
            b >= 0,
            one > 0,
    ;
    lemma_sum_valid(Binary64::of(a), Binary64::of(b));
    lemma_of_sign(a);
    lemma_of_sign(b);
    lemma_of_sign(c);
    lemma_value_determines(Binary64::of(a) + Binary64::of(b), Binary64::of(c));
}

/// A whole number that is not negative has a clear sign.
pub proof fn lemma_of_sign(n: i64)
    requires
        0 <= n <= 0x20000000000000,
    ensures
        !Binary64::of(n).number().negative,
{
    reveal(Binary64::spec_of);
    number::lemma_constants(Format::Double);
    number::lemma_whole_exact(Format::Double, false, n as nat);
}

/// Halves of whole numbers are kept exactly.
pub proof fn lemma_halves(n: u64)
    requires
        n <= 0x100000,
    ensures
        Binary64::ratio(n, 2).is_finite(),
        !Binary64::ratio(n, 2).is_nan(),
        2 * Binary64::ratio(n, 2).value() == n * Binary64::one(),
{
    reveal(Binary64::spec_ratio);
    reveal(Binary64::spec_is_nan);
    reveal(Binary64::spec_is_finite);
    let s = (Format::Double.unit() - 1) as nat;
    let half = pow2(s);
    lemma2_to64();
    number::lemma_constants(Format::Double);
    lemma_pow2_unfold(Format::Double.unit());
    number::lemma_ratio_finite(Format::Double, false, n as nat, 2);
    number::lemma_rounded(Format::Double, false, n as nat * Binary64::one(), 2);
    number::lemma_scaled_exact(Format::Double, n as nat, s);
    rounding::lemma_round_exact(Format::Double, Format::Double.encode(n as nat * half), 2);
    assert(n as nat * Binary64::one() == (n as nat * half) * 2) by (nonlinear_arith)
        requires
            Binary64::one() == 2 * half,
    ;
}

/// Rounding up stays within a whole bound.
#[verifier::spinoff_prover]
pub proof fn lemma_ceil(a: Binary64, high: i64)
    requires
        !a.is_nan(),
        0 <= high <= 0x1000000,
        0 <= a.value() <= high * Binary64::one(),
    ensures
        a.ceil().is_finite(),
        !a.ceil().is_nan(),
        a.value() <= a.ceil().value() <= high * Binary64::one(),
        a.ceil().value() < a.value() + Binary64::one(),
{
    reveal(Binary64::spec_ceil);
    reveal(Binary64::spec_is_nan);
    reveal(Binary64::spec_is_finite);
    let one = Binary64::one();
    let x = a.number();
    let v = x.magnitude(Format::Double);
    lemma_pow2_pos(Format::Double.unit());
    number::lemma_constants(Format::Double);
    lemma_of(high);
    assert(x.finite_in(Format::Double)) by {
        lemma_finite_below(a, Binary64::of(high));
    }
    assert(v == a.value());
    vstd::arithmetic::div_mod::lemma_fundamental_div_mod(v as int, one as int);
    let q = x.whole(Format::Double);
    let r = v % one;
    let up = if !x.negative && x.has_fraction(Format::Double) {
        q + 1
    } else {
        q
    };
    if x.negative {
        assert(v == 0);
        vstd::arithmetic::div_mod::lemma_div_basics(one as int);
        assert(r == 0);
    }
    assert(up <= high && v <= up * one && up * one < v + one) by (nonlinear_arith)
        requires
            v == one * q + r,
            0 <= r < one,
            v <= high * one,
            up == q + 1 && r > 0 || up == q && r == 0,
            one > 0,
    ;
    assert(up * one <= high * one) by (nonlinear_arith)
        requires
            up <= high,
            one > 0,
    ;
    number::lemma_whole_exact(Format::Double, x.negative, up);
    if x.negative {
        assert(up == 0) by (nonlinear_arith)
            requires
                up * one < v + one,
                v == 0,
                one > 0,
        ;
        assert(0 * one == 0);
    }
}

/// Zero stays zero in the other precision.
pub proof fn lemma_narrow_zero(a: Binary64)
    requires
        a.is_finite(),
        a.value() == 0,
    ensures
        a.to_binary32().is_finite(),
        a.to_binary32().value() == 0,
{
    reveal(Binary64::spec_to_binary32);
    reveal(Binary64::spec_is_finite);
    reveal(Binary32::spec_is_finite);
    let u = pow2(Format::Double.unit());
    lemma_pow2_pos(Format::Double.unit());
    number::lemma_constants(Format::Single);
    number::lemma_rounded(Format::Single, a.number().negative, 0, u);
    rounding::lemma_round_zero(Format::Single, u);
    assert(0 * pow2(Format::Single.unit()) == 0);
}

/// A share of one stays one in the other precision.
pub proof fn lemma_narrow_share(a: Binary64)
    requires
        a.is_finite(),
        0 <= a.value() <= Binary64::one(),
    ensures
        a.to_binary32().is_finite(),
        0 <= a.to_binary32().value() <= Binary32::one(),
{
    reveal(Binary64::spec_to_binary32);
    reveal(Binary64::spec_is_finite);
    reveal(Binary32::spec_is_finite);
    let u = pow2(Format::Double.unit());
    let w = pow2(Format::Single.unit());
    let x = Binary64::of(1);
    lemma_of(1);
    lemma_narrow_one(x);
    lemma_pow2_pos(Format::Double.unit());
    lemma_pow2_pos(Format::Single.unit());
    number::lemma_constants(Format::Single);
    let m = a.number().magnitude(Format::Double);
    assert(1 * Binary64::one() == u);
    number::lemma_rounded(Format::Single, a.number().negative, m * w, u);
    number::lemma_rounded(Format::Single, x.number().negative, u * w, u);
    assert(0 <= m * w <= u * w) by (nonlinear_arith)
        requires
            0 <= m <= u,
            w > 0,
    ;
    rounding::lemma_round_monotone(Format::Single, m * w, u * w, u);
    if a.value() == 0 {
        lemma_narrow_zero(a);
    }
    crate::binary32::lemma_finite_below(a.to_binary32(), x.to_binary32());
    crate::binary32::lemma_order(a.to_binary32(), a.to_binary32());
    reveal(Binary32::spec_is_nan);
}

/// A number stays one in the other precision, if maybe infinite.
pub proof fn lemma_narrow_number(a: Binary64)
    requires
        !a.is_nan(),
    ensures
        !a.to_binary32().is_nan(),
{
    reveal(Binary64::spec_to_binary32);
    reveal(Binary64::spec_is_nan);
    reveal(Binary32::spec_is_nan);
    let u = pow2(Format::Double.unit());
    let w = pow2(Format::Single.unit());
    lemma_pow2_pos(Format::Double.unit());
    number::lemma_constants(Format::Single);
    number::lemma_rounded(
        Format::Single,
        a.number().negative,
        a.number().magnitude(Format::Double) * w,
        u,
    );
}

/// One stays one in the other precision.
pub proof fn lemma_narrow_one(a: Binary64)
    requires
        a.is_finite(),
        a.value() == Binary64::one(),
    ensures
        a.to_binary32().is_finite(),
        a.to_binary32().value() == Binary32::one(),
{
    reveal(Binary64::spec_to_binary32);
    reveal(Binary64::spec_is_finite);
    reveal(Binary32::spec_is_finite);
    let u = pow2(Format::Double.unit());
    let w = pow2(Format::Single.unit());
    lemma_pow2_pos(Format::Double.unit());
    number::lemma_constants(Format::Single);
    number::lemma_rounded(Format::Single, a.number().negative, u * w, u);
    number::lemma_whole_exact(Format::Single, false, 1);
    let x = Number::ratio_spec(Format::Single, false, 1, 1);
    assert(1 * w == w);
    rounding::lemma_round_exact(Format::Single, x.bits as nat, u);
    assert(u * w == w * u) by (nonlinear_arith);
    rounding::lemma_decode_monotone(
        Format::Single,
        x.bits as nat,
        Format::Single.infinity_bits(),
    );
    rounding::lemma_decode_monotone(
        Format::Single,
        Number::rounded(Format::Single, a.number().negative, u * w, u).bits as nat,
        Format::Single.infinity_bits(),
    );
}

impl core::ops::Add for Binary64 {
    type Output = Binary64;

    fn add(self, other: Binary64) -> (r: Binary64) {
        reveal(Binary64::spec_add);
        Binary64::from_number(self.to_number().sum(other.to_number(), Format::Double))
    }
}

impl vstd::std_specs::ops::AddSpecImpl for Binary64 {
    open spec fn obeys_add_spec() -> bool {
        true
    }

    open spec fn add_req(self, other: Binary64) -> bool {
        true
    }

    open spec fn add_spec(self, other: Binary64) -> Binary64 {
        self.spec_add(other)
    }
}

impl core::ops::Sub for Binary64 {
    type Output = Binary64;

    fn sub(self, other: Binary64) -> (r: Binary64) {
        self + other.negate()
    }
}

impl vstd::std_specs::ops::SubSpecImpl for Binary64 {
    open spec fn obeys_sub_spec() -> bool {
        true
    }

    open spec fn sub_req(self, other: Binary64) -> bool {
        true
    }

    open spec fn sub_spec(self, other: Binary64) -> Binary64 {
        self.spec_sub(other)
    }
}

impl core::ops::Mul for Binary64 {
    type Output = Binary64;

    fn mul(self, other: Binary64) -> (r: Binary64) {
        reveal(Binary64::spec_mul);
        Binary64::from_number(self.to_number().product(other.to_number(), Format::Double))
    }
}

impl vstd::std_specs::ops::MulSpecImpl for Binary64 {
    open spec fn obeys_mul_spec() -> bool {
        true
    }

    open spec fn mul_req(self, other: Binary64) -> bool {
        true
    }

    open spec fn mul_spec(self, other: Binary64) -> Binary64 {
        self.spec_mul(other)
    }
}

impl core::ops::Div for Binary64 {
    type Output = Binary64;

    fn div(self, other: Binary64) -> (r: Binary64) {
        reveal(Binary64::spec_euclidean_or_real_div);
        Binary64::from_number(self.to_number().quotient(other.to_number(), Format::Double))
    }
}

impl vstd::std_specs::ops::DivSpecImpl for Binary64 {
    open spec fn obeys_div_spec() -> bool {
        true
    }

    open spec fn div_req(self, other: Binary64) -> bool {
        true
    }

    open spec fn div_spec(self, other: Binary64) -> Binary64 {
        self.spec_euclidean_or_real_div(other)
    }
}

} // verus!
