//! Arithmetic on the numbers of a binary floating-point format.
//!
//! Every operation is stated over exact integers and then rounded once, to the
//! nearest number with ties to even. Results that are not numbers are always
//! the one quiet pattern with a clear sign.
use crate::rounding;
use crate::rounding::Format;
use vstd::arithmetic::div_mod::*;
use vstd::arithmetic::power2::*;
use vstd::prelude::*;

verus! {

/// A sign and the stored form of a magnitude.
#[derive(Clone, Copy, PartialEq, Eq, Debug, Structural)]
pub struct Number {
    pub negative: bool,
    pub bits: u64,
}

impl Number {
    /// No more bits than the format stores.
    pub open spec fn valid(self, f: Format) -> bool {
        self.bits < (f.top() + 1) * f.lead()
    }

    pub open spec fn nan_in(self, f: Format) -> bool {
        self.bits > f.infinity_bits()
    }

    pub open spec fn infinite_in(self, f: Format) -> bool {
        self.bits == f.infinity_bits()
    }

    pub open spec fn finite_in(self, f: Format) -> bool {
        self.bits < f.infinity_bits()
    }

    /// The magnitude, counted in the format's smallest positive number.
    pub open spec fn magnitude(self, f: Format) -> nat {
        f.decode(self.bits as nat)
    }

    /// The number itself, counted in the format's smallest positive number.
    /// Infinity counts as the first magnitude past the finite ones.
    pub open spec fn value(self, f: Format) -> int {
        if self.negative {
            -self.magnitude(f)
        } else {
            self.magnitude(f) as int
        }
    }

    /// The pattern that stands for "not a number".
    pub open spec fn nan_spec(f: Format) -> Number {
        Number { negative: false, bits: (f.infinity_bits() + f.lead() / 2) as u64 }
    }

    pub open spec fn infinity_spec(f: Format, negative: bool) -> Number {
        Number { negative, bits: f.infinity_bits() as u64 }
    }

    /// The number of the given sign nearest to `n / d` of the smallest
    /// positive number.
    pub open spec fn rounded(f: Format, negative: bool, n: nat, d: nat) -> Number {
        Number { negative, bits: f.encode(f.round(n, d)) as u64 }
    }

    pub open spec fn sum_spec(self, other: Number, f: Format) -> Number {
        let exact = self.value(f) + other.value(f);
        if self.nan_in(f) || other.nan_in(f) {
            Number::nan_spec(f)
        } else if self.infinite_in(f) {
            if other.infinite_in(f) && self.negative != other.negative {
                Number::nan_spec(f)
            } else {
                self
            }
        } else if other.infinite_in(f) {
            other
        } else if exact == 0 {
            Number { negative: self.negative && other.negative, bits: 0 }
        } else {
            Number::rounded(
                f,
                exact < 0,
                if exact < 0 {
                    (-exact) as nat
                } else {
                    exact as nat
                },
                1,
            )
        }
    }

    pub open spec fn product_spec(self, other: Number, f: Format) -> Number {
        let negative = self.negative != other.negative;
        if self.nan_in(f) || other.nan_in(f) {
            Number::nan_spec(f)
        } else if self.infinite_in(f) || other.infinite_in(f) {
            if self.bits == 0 || other.bits == 0 {
                Number::nan_spec(f)
            } else {
                Number::infinity_spec(f, negative)
            }
        } else {
            Number::rounded(
                f,
                negative,
                self.magnitude(f) * other.magnitude(f),
                pow2(f.unit()),
            )
        }
    }

    pub open spec fn quotient_spec(self, other: Number, f: Format) -> Number {
        let negative = self.negative != other.negative;
        if self.nan_in(f) || other.nan_in(f) {
            Number::nan_spec(f)
        } else if self.infinite_in(f) {
            if other.infinite_in(f) {
                Number::nan_spec(f)
            } else {
                Number::infinity_spec(f, negative)
            }
        } else if other.infinite_in(f) {
            Number { negative, bits: 0 }
        } else if other.bits == 0 {
            if self.bits == 0 {
                Number::nan_spec(f)
            } else {
                Number::infinity_spec(f, negative)
            }
        } else {
            Number::rounded(
                f,
                negative,
                self.magnitude(f) * pow2(f.unit()),
                other.magnitude(f),
            )
        }
    }

    /// The number nearest to `n / d`.
    pub open spec fn ratio_spec(f: Format, negative: bool, n: nat, d: nat) -> Number {
        Number::rounded(f, negative, n * pow2(f.unit()), d)
    }
}

pub proof fn lemma_constants(f: Format)
    ensures
        f.lead() <= 0x10000000000000,
        f.lead() >= 0x800000,
        pow2(f.precision()) == 2 * f.lead(),
        pow2(f.precision()) <= 0x20000000000000,
        f.infinity_bits() + f.lead() <= 0x8000000000000000,
        f.infinity_bits() + f.lead() == (f.top() + 1) * f.lead(),
        f.infinity_bits() > 0,
        pow2(64) == 0x10000000000000000,
        pow2(127) == 0x80000000000000000000000000000000,
        pow2(0) == 1,
        bit_facts(f),
{
    lemma2_to64();
    lemma2_to64_rest();
    lemma_pow2_adds(64, 63);
    lemma_pow2_unfold(f.precision());
    rounding::lemma_overflow(f, 0, 0);
}

/// The two stored patterns that the operations return as they are.
pub open spec fn bit_facts(f: Format) -> bool {
    match f {
        Format::Double => {
            &&& f.infinity_bits() == 0x7ff0000000000000
            &&& f.lead() == 0x10000000000000
        },
        Format::Single => {
            &&& f.infinity_bits() == 0x7f800000
            &&& f.lead() == 0x800000
        },
    }
}

/// The significand and exponent that a finite stored form packs.
pub(crate) fn unpack(f: Format, bits: u64) -> (r: (u64, u32))
    requires
        bits < f.infinity_bits(),
    ensures
        f.decode(bits as nat) == r.0 as nat * pow2(r.1 as nat),
        r.0 < pow2(f.precision()),
        r.1 > 0 ==> f.lead() <= r.0,
        r.1 <= f.top() - 2,
        r.0 == 0 <==> bits == 0,
        r.1 == if bits as nat / f.lead() == 0 {
            0
        } else {
            bits as nat / f.lead() - 1
        },
{
    let lead: u64 = f.lead_bit();
    let (field, fraction): (u64, u64) = match f {
        Format::Double => (bits / 0x10000000000000, bits % 0x10000000000000),
        Format::Single => (bits / 0x800000, bits % 0x800000),
    };
    proof {
        lemma_constants(f);
        lemma_fundamental_div_mod(bits as int, lead as int);
        assert(field < f.top()) by (nonlinear_arith)
            requires
                bits == lead * field + fraction,
                bits < f.top() * lead,
                0 <= fraction,
                lead > 0,
        ;
        assert(fraction as nat * 1 == fraction);
        assert(field == 0 ==> lead * field == 0);
        assert(field > 0 ==> lead * field > 0) by (nonlinear_arith)
            requires
                lead > 0,
        ;
    }
    if field == 0 {
        (fraction, 0)
    } else {
        (lead + fraction, (field - 1) as u32)
    }
}

impl Number {
    pub fn is_nan(self, f: Format) -> (r: bool)
        ensures
            r == self.nan_in(f),
    {
        self.bits > f.infinity_pattern()
    }

    pub fn is_infinite(self, f: Format) -> (r: bool)
        ensures
            r == self.infinite_in(f),
    {
        self.bits == f.infinity_pattern()
    }

    /// The pattern that stands for "not a number".
    pub fn nan(f: Format) -> (r: Number)
        ensures
            r == Number::nan_spec(f),
            r.nan_in(f),
            r.valid(f),
    {
        proof {
            lemma_constants(f);
        }
        Number { negative: false, bits: f.infinity_pattern() + f.lead_bit() / 2 }
    }

    pub fn infinity(f: Format, negative: bool) -> (r: Number)
        ensures
            r == Number::infinity_spec(f, negative),
            r.infinite_in(f),
            r.valid(f),
    {
        proof {
            lemma_constants(f);
        }
        Number { negative, bits: f.infinity_pattern() }
    }
}

/// Scaling both sides scales the remainder.
proof fn lemma_scaled_remainder(x: int, y: int, c: int)
    requires
        x >= 0,
        y > 0,
        c > 0,
    ensures
        y * c > 0,
        (x * c) % (y * c) == (x % y) * c,
{
    let q = x / y;
    let r = x % y;
    lemma_fundamental_div_mod(x, y);
    assert(y * c > 0 && x * c == q * (y * c) + r * c && 0 <= r * c < y * c) by (nonlinear_arith)
        requires
            x == y * q + r,
            0 <= r < y,
            c > 0,
            y > 0,
    ;
    lemma_fundamental_div_mod_converse(x * c, y * c, q, r * c);
}

/// The remainder of `a` times two to the power of `s`, by doubling.
fn remainder_of_shifted(a: u64, b: u64, s: u32) -> (r: u64)
    requires
        0 < b < 0x20000000000000,
    ensures
        r == (a * pow2(s as nat)) % (b as int),
        r < b,
{
    let mut r: u64 = a % b;
    let mut i: u32 = 0;
    proof {
        lemma2_to64();
    }
    assert(a * 1 == a);
    while i < s
        invariant
            i <= s,
            0 < b < 0x20000000000000,
            r == (a * pow2(i as nat)) % (b as int),
            r < b,
        decreases s - i,
    {
        proof {
            let x = (a * pow2(i as nat)) as int;
            lemma_pow2_unfold((i + 1) as nat);
            assert(a * pow2((i + 1) as nat) == 2 * x) by (nonlinear_arith)
                requires
                    pow2((i + 1) as nat) == 2 * pow2(i as nat),
                    x == a * pow2(i as nat),
            ;
            lemma_mul_mod_noop_right(2, x, b as int);
        }
        r = (2 * r) % b;
        i = i + 1;
    }
    r
}

/// Two significands brought to one exponent.
struct Aligned {
    big: u128,
    small: u128,
    sticky: bool,
    e: u32,
}

impl Aligned {
    /// What of the smaller operand lies below the common exponent.
    spec fn tail(self, b: nat) -> int {
        b - self.small * pow2(self.e as nat)
    }

    spec fn holds(self, f: Format, a: nat, b: nat) -> bool {
        &&& self.big * pow2(self.e as nat) == a
        &&& 0 <= self.tail(b) < pow2(self.e as nat)
        &&& self.sticky <==> self.tail(b) > 0
        &&& self.sticky ==> self.big > pow2(f.precision()) + self.small
        &&& self.small < 0x20000000000000
        &&& self.big < 0x20000000000000 * 0x10000000000000000
        &&& self.e < f.top()
    }
}

fn align(f: Format, ma: u64, ea: u32, mb: u64, eb: u32) -> (r: Aligned)
    requires
        eb <= ea <= f.top() - 2,
        ma < pow2(f.precision()),
        mb < pow2(f.precision()),
        ea > 0 ==> f.lead() <= ma,
    ensures
        r.holds(f, (ma * pow2(ea as nat)) as nat, (mb * pow2(eb as nat)) as nat),
{
    let ghost b = (mb * pow2(eb as nat)) as nat;
    proof {
        lemma_constants(f);
        lemma_pow2_pos(eb as nat);
    }
    let gap: u32 = ea - eb;
    if gap <= 64 {
        let factor: u128 = rounding::power_of_two(gap);
        proof {
            lemma_pow2_adds(eb as nat, gap as nat);
            if gap < 64 {
                lemma_pow2_strictly_increases(gap as nat, 64);
            }
            assert(ma * factor < 0x20000000000000 * 0x10000000000000000) by (nonlinear_arith)
                requires
                    ma < 0x20000000000000,
                    0 < factor <= 0x10000000000000000,
            ;
        }
        let r = Aligned { big: ma as u128 * factor, small: mb as u128, sticky: false, e: eb };
        assert(r.big * pow2(eb as nat) == ma * pow2(ea as nat)) by (nonlinear_arith)
            requires
                r.big == ma * factor,
                pow2(ea as nat) == pow2(eb as nat) * factor,
        ;
        assert(r.tail(b) == 0);
        r
    } else {
        let big: u128 = ma as u128 * 0x10000000000000000u128;
        let e: u32 = ea - 64;
        let extra: u32 = gap - 64;
        let ghost unit = pow2(e as nat);
        let ghost low = pow2(eb as nat);
        proof {
            lemma_pow2_adds(e as nat, 64);
            lemma_pow2_adds(eb as nat, extra as nat);
        }
        assert(big * unit == ma * pow2(ea as nat)) by (nonlinear_arith)
            requires
                big == ma * pow2(64),
                pow2(ea as nat) == unit * pow2(64),
        ;
        if extra >= 64 {
            let r = Aligned { big, small: 0, sticky: mb != 0, e };
            proof {
                if extra > 64 {
                    lemma_pow2_strictly_increases(64, extra as nat);
                }
                assert(b < unit && (mb > 0 <==> b > 0)) by (nonlinear_arith)
                    requires
                        b == mb * low,
                        0 <= mb < pow2(extra as nat),
                        unit == low * pow2(extra as nat),
                        low > 0,
                ;
                assert(0 * unit == 0);
            }
            r
        } else {
            let step: u128 = rounding::power_of_two(extra);
            let small: u128 = mb as u128 / step;
            let lost: u128 = mb as u128 % step;
            let r = Aligned { big, small, sticky: lost != 0, e };
            proof {
                lemma_fundamental_div_mod(mb as int, step as int);
                assert(small <= mb) by (nonlinear_arith)
                    requires
                        mb == step * small + lost,
                        step >= 1,
                        lost >= 0,
                        small >= 0,
                ;
                let rest = lost * low;
                assert(b == small * unit + rest && rest < unit && (lost > 0 <==> rest > 0)) by (nonlinear_arith)
                    requires
                        b == mb * low,
                        mb == step * small + lost,
                        0 <= lost < step,
                        unit == low * step,
                        low > 0,
                        rest == lost * low,
                ;
            }
            r
        }
    }
}

/// The sum of two finite numbers, the first with the larger exponent.
fn sum_aligned(
    f: Format,
    a_negative: bool,
    ma: u64,
    ea: u32,
    b_negative: bool,
    mb: u64,
    eb: u32,
    Ghost(exact): Ghost<int>,
) -> (r: Number)
    requires
        eb <= ea <= f.top() - 2,
        ma < pow2(f.precision()),
        mb < pow2(f.precision()),
        ea > 0 ==> f.lead() <= ma,
        exact == (if a_negative {
            -(ma * pow2(ea as nat))
        } else {
            ma * pow2(ea as nat)
        }) + (if b_negative {
            -(mb * pow2(eb as nat))
        } else {
            mb * pow2(eb as nat)
        }),
    ensures
        exact == 0 ==> r == (Number { negative: a_negative && b_negative, bits: 0 }),
        exact != 0 ==> r == Number::rounded(
            f,
            exact < 0,
            if exact < 0 {
                (-exact) as nat
            } else {
                exact as nat
            },
            1,
        ),
{
    proof {
        lemma_constants(f);
    }
    let al = align(f, ma, ea, mb, eb);
    let ghost a = (ma * pow2(ea as nat)) as nat;
    let ghost b = (mb * pow2(eb as nat)) as nat;
    let ghost unit = pow2(al.e as nat);
    let ghost tail = al.tail(b);
    let ghost n = if exact < 0 {
        (-exact) as nat
    } else {
        exact as nat
    };
    proof {
        lemma_pow2_pos(al.e as nat);
        assert(al.big * unit >= 0 && al.small * unit >= 0) by (nonlinear_arith)
            requires
                al.big >= 0,
                al.small >= 0,
                unit > 0,
        ;
        assert(1 * unit == unit);
    }
    let e: i32 = al.e as i32;
    if a_negative == b_negative {
        let m: u128 = al.big + al.small;
        assert(n == m * unit + tail && (m + 1) * unit == m * unit + unit && (m > 0 ==> m * unit > 0)
            && (m == 0 ==> m * unit == 0)) by (nonlinear_arith)
            requires
                n == al.big * unit + (al.small * unit + tail),
                m == al.big + al.small,
                unit > 0,
        ;
        if m == 0 {
            return Number { negative: a_negative, bits: 0 };
        }
        let bits: u64 = f.round_to_bits(m, e, al.sticky, Ghost(n), Ghost(1));
        return Number { negative: a_negative, bits };
    }
    if al.big > al.small {
        let m: u128 = if al.sticky {
            al.big - al.small - 1
        } else {
            al.big - al.small
        };
        let ghost rest = if al.sticky {
            unit - tail
        } else {
            0
        };
        assert(a - b == m * unit + rest && (m + 1) * unit == m * unit + unit && m * unit > 0)
            by (nonlinear_arith)
            requires
                a == al.big * unit,
                b == al.small * unit + tail,
                m == if al.sticky {
                    al.big - al.small - 1
                } else {
                    al.big - al.small
                },
                rest == if al.sticky {
                    unit - tail
                } else {
                    0
                },
                !al.sticky ==> tail == 0,
                m > 0,
                unit > 0,
        ;
        let bits: u64 = f.round_to_bits(m, e, al.sticky, Ghost(n), Ghost(1));
        return Number { negative: a_negative, bits };
    }
    if al.big == al.small {
        return Number { negative: false, bits: 0 };
    }
    let m: u128 = al.small - al.big;
    assert(b - a == m * unit && m * unit > 0) by (nonlinear_arith)
        requires
            a == al.big * unit,
            b == al.small * unit,
            m == al.small - al.big,
            m > 0,
            unit > 0,
    ;
    let bits: u64 = f.round_to_bits(m, e, false, Ghost(n), Ghost(1));
    Number { negative: b_negative, bits }
}

/// The stored form nearest to `n / d`, which is `a / b` times two to the power
/// of `e`.
fn divide(f: Format, a: u64, b: u64, e: i32, Ghost(n): Ghost<nat>, Ghost(d): Ghost<nat>) -> (bits:
    u64)
    requires
        a > 0,
        b > 0,
        -3800 <= e <= 3800,
        d > 0,
        rounding::scaled_numerator(n, e as int) * b == rounding::scaled_denominator(d, e as int)
            * a,
    ensures
        bits == f.encode(f.round(n, d)),
        bits <= f.infinity_bits(),
{
    let length: u32 = rounding::length_in_bits(a as u128);
    proof {
        lemma_constants(f);
        rounding::lemma_bit_length(a as nat);
        rounding::lemma_bit_length_upper(a as nat, 64);
    }
    let t: u32 = 127 - length;
    let factor: u128 = rounding::power_of_two(t);
    proof {
        lemma_pow2_adds(length as nat, t as nat);
        lemma_pow2_adds((length - 1) as nat, t as nat);
        lemma_pow2_unfold(127);
        assert(a * factor < pow2(127)) by (nonlinear_arith)
            requires
                a < pow2(length as nat),
                pow2(127) == pow2(length as nat) * factor,
                factor > 0,
        ;
        assert(a * factor >= pow2(126)) by (nonlinear_arith)
            requires
                a >= pow2((length - 1) as nat),
                pow2(126) == pow2((length - 1) as nat) * factor,
                factor > 0,
        ;
    }
    let x: u128 = a as u128 * factor;
    let q: u128 = x / b as u128;
    let down: i32 = e - t as i32;
    proof {
        lemma_fundamental_div_mod(x as int, b as int);
        assert(q * b == b * q) by (nonlinear_arith);
    }
    let r: u128 = x - q * b as u128;
    proof {
        assert(q >= 0x20000000000000) by (nonlinear_arith)
            requires
                x == b * q + r,
                r < b,
                b <= 0xffffffffffffffff,
                x >= 0x40000000000000000000000000000000,
        ;
        assert(q <= x) by (nonlinear_arith)
            requires
                x == b * q + r,
                b >= 1,
                q >= 0,
                r >= 0,
        ;
        lemma_divide_scale(n, d, a as nat, b as nat, e as int, t as nat);
        let sn = rounding::scaled_numerator(n, down as int);
        let sd = rounding::scaled_denominator(d, down as int);
        assert(sn * b == sd * (b * q + r)) by (nonlinear_arith)
            requires
                sn * b == (sd * a) * factor,
                a * factor == b * q + r,
        ;
        if r == 0 {
            assert(sn == q * sd) by (nonlinear_arith)
                requires
                    sn * b == sd * (b * q + 0),
                    b > 0,
            ;
        } else {
            assert(q * sd < sn < (q + 1) * sd) by (nonlinear_arith)
                requires
                    sn * b == sd * (b * q + r),
                    0 < r < b,
                    sd > 0,
            ;
        }
    }
    f.round_to_bits(q, down, r != 0, Ghost(n), Ghost(d))
}

proof fn lemma_divide_scale(n: nat, d: nat, a: nat, b: nat, e: int, t: nat)
    requires
        d > 0,
        rounding::scaled_numerator(n, e) * b == rounding::scaled_denominator(d, e) * a,
    ensures
        rounding::scaled_numerator(n, e - t) * b == (rounding::scaled_denominator(d, e - t) * a)
            * pow2(t),
        rounding::scaled_denominator(d, e - t) > 0,
{
    let pt = pow2(t);
    lemma_pow2_pos(t);
    if e - t >= 0 {
        let pd = pow2((e - t) as nat);
        lemma_pow2_pos((e - t) as nat);
        lemma_pow2_adds((e - t) as nat, t);
        assert(n * b == ((d * pd) * a) * pt && d * pd > 0) by (nonlinear_arith)
            requires
                n * b == (d * (pd * pt)) * a,
                d > 0,
                pd > 0,
        ;
    } else if e >= 0 {
        let up = pow2((t - e) as nat);
        lemma_pow2_adds(e as nat, (t - e) as nat);
        let pe = pow2(e as nat);
        assert((n * up) * b == (d * a) * pt) by (nonlinear_arith)
            requires
                n * b == (d * pe) * a,
                pt == pe * up,
        ;
    } else {
        let pe = pow2((-e) as nat);
        lemma_pow2_adds((-e) as nat, t);
        assert((n * (pe * pt)) * b == (d * a) * pt) by (nonlinear_arith)
            requires
                (n * pe) * b == d * a,
        ;
    }
}

/// A rounded number is valid, and counts as what it was rounded to.
pub proof fn lemma_rounded(f: Format, negative: bool, n: nat, d: nat)
    requires
        d > 0,
    ensures
        Number::rounded(f, negative, n, d).valid(f),
        !Number::rounded(f, negative, n, d).nan_in(f),
        Number::rounded(f, negative, n, d).bits == f.encode(f.round(n, d)),
        Number::rounded(f, negative, n, d).magnitude(f) == f.round(n, d),
{
    lemma_constants(f);
    rounding::lemma_round_packs(f, n, d);
}

impl Number {
    /// The sum, rounded once.
    pub fn sum(self, other: Number, f: Format) -> (r: Number)
        requires
            self.valid(f),
            other.valid(f),
        ensures
            r == self.sum_spec(other, f),
            r.valid(f),
    {
        proof {
            lemma_constants(f);
            let exact = self.value(f) + other.value(f);
            lemma_rounded(f, false, exact as nat, 1);
            lemma_rounded(f, true, (-exact) as nat, 1);
        }
        if self.is_nan(f) || other.is_nan(f) {
            return Number::nan(f);
        }
        if self.is_infinite(f) {
            if other.is_infinite(f) && self.negative != other.negative {
                return Number::nan(f);
            }
            return self;
        }
        if other.is_infinite(f) {
            return other;
        }
        let (ma, ea): (u64, u32) = unpack(f, self.bits);
        let (mb, eb): (u64, u32) = unpack(f, other.bits);
        let ghost exact = self.value(f) + other.value(f);
        if ea >= eb {
            sum_aligned(f, self.negative, ma, ea, other.negative, mb, eb, Ghost(exact))
        } else {
            sum_aligned(f, other.negative, mb, eb, self.negative, ma, ea, Ghost(exact))
        }
    }

    /// The product, rounded once.
    pub fn product(self, other: Number, f: Format) -> (r: Number)
        requires
            self.valid(f),
            other.valid(f),
        ensures
            r == self.product_spec(other, f),
            r.valid(f),
    {
        proof {
            lemma_constants(f);
        }
        let negative: bool = self.negative != other.negative;
        if self.is_nan(f) || other.is_nan(f) {
            return Number::nan(f);
        }
        if self.is_infinite(f) || other.is_infinite(f) {
            if self.bits == 0 || other.bits == 0 {
                return Number::nan(f);
            }
            return Number::infinity(f, negative);
        }
        let (ma, ea): (u64, u32) = unpack(f, self.bits);
        let (mb, eb): (u64, u32) = unpack(f, other.bits);
        let ghost n = (self.magnitude(f) * other.magnitude(f)) as nat;
        let ghost d = pow2(f.unit());
        proof {
            lemma_pow2_pos(f.unit());
            assert(ma * mb < 0x20000000000000 * 0x20000000000000) by (nonlinear_arith)
                requires
                    0 <= ma < 0x20000000000000,
                    0 <= mb < 0x20000000000000,
            ;
            assert((ma > 0 && mb > 0) <==> ma * mb > 0) by (nonlinear_arith)
                requires
                    ma >= 0,
                    mb >= 0,
            ;
        }
        let m: u128 = ma as u128 * mb as u128;
        let e: i32 = ea as i32 + eb as i32 - f.unit_exponent() as i32;
        proof {
            let both = pow2((ea + eb) as nat);
            lemma_pow2_adds(ea as nat, eb as nat);
            assert(n == m * both) by (nonlinear_arith)
                requires
                    n == (ma * pow2(ea as nat)) * (mb * pow2(eb as nat)),
                    both == pow2(ea as nat) * pow2(eb as nat),
                    m == ma * mb,
            ;
            if e >= 0 {
                lemma_pow2_adds(f.unit(), e as nat);
            } else {
                lemma_pow2_adds((ea + eb) as nat, (-e) as nat);
                let c = pow2((-e) as nat);
                assert(n * c == m * d) by (nonlinear_arith)
                    requires
                        n == m * both,
                        d == both * c,
                ;
            }
        }
        if m == 0 {
            proof {
                rounding::lemma_round_zero(f, d);
                assert(0 * pow2((ea + eb) as nat) == 0);
            }
            return Number { negative, bits: 0 };
        }
        let bits: u64 = f.round_to_bits(m, e, false, Ghost(n), Ghost(d));
        Number { negative, bits }
    }

    /// The quotient, rounded once.
    pub fn quotient(self, other: Number, f: Format) -> (r: Number)
        requires
            self.valid(f),
            other.valid(f),
        ensures
            r == self.quotient_spec(other, f),
            r.valid(f),
    {
        proof {
            lemma_constants(f);
        }
        let negative: bool = self.negative != other.negative;
        if self.is_nan(f) || other.is_nan(f) {
            return Number::nan(f);
        }
        if self.is_infinite(f) {
            if other.is_infinite(f) {
                return Number::nan(f);
            }
            return Number::infinity(f, negative);
        }
        if other.is_infinite(f) {
            return Number { negative, bits: 0 };
        }
        if other.bits == 0 {
            if self.bits == 0 {
                return Number::nan(f);
            }
            return Number::infinity(f, negative);
        }
        let (ma, ea): (u64, u32) = unpack(f, self.bits);
        let (mb, eb): (u64, u32) = unpack(f, other.bits);
        let ghost n = (self.magnitude(f) * pow2(f.unit())) as nat;
        let ghost d = other.magnitude(f);
        proof {
            lemma_pow2_pos(eb as nat);
            lemma_pow2_pos(ea as nat);
            lemma_pow2_pos(f.unit());
            assert(d > 0) by (nonlinear_arith)
                requires
                    d == mb * pow2(eb as nat),
                    mb > 0,
                    pow2(eb as nat) > 0,
            ;
        }
        if ma == 0 {
            proof {
                assert(0 * pow2(ea as nat) == 0);
                assert(0 * pow2(f.unit()) == 0);
                rounding::lemma_round_zero(f, d);
            }
            return Number { negative, bits: 0 };
        }
        let e: i32 = ea as i32 + f.unit_exponent() as i32 - eb as i32;
        proof {
            let pa = pow2(ea as nat);
            let pb = pow2(eb as nat);
            let pu = pow2(f.unit());
            lemma_pow2_adds(ea as nat, f.unit());
            if e >= 0 {
                lemma_pow2_adds(eb as nat, e as nat);
                let pe = pow2(e as nat);
                assert(n * mb == (d * pe) * ma) by (nonlinear_arith)
                    requires
                        n == (ma * pa) * pu,
                        d == mb * pb,
                        pa * pu == pb * pe,
                ;
            } else {
                lemma_pow2_adds((ea + f.unit()) as nat, (-e) as nat);
                let pe = pow2((-e) as nat);
                assert((n * pe) * mb == d * ma) by (nonlinear_arith)
                    requires
                        n == (ma * pa) * pu,
                        d == mb * pb,
                        (pa * pu) * pe == pb,
                ;
            }
        }
        let bits: u64 = divide(f, ma, mb, e, Ghost(n), Ghost(d));
        Number { negative, bits }
    }
}

impl Number {
    /// The same number in format `g`, rounded where it does not fit.
    pub open spec fn converted_spec(self, f: Format, g: Format) -> Number {
        if self.nan_in(f) {
            Number::nan_spec(g)
        } else if self.infinite_in(f) {
            Number::infinity_spec(g, self.negative)
        } else {
            Number::rounded(
                g,
                self.negative,
                self.magnitude(f) * pow2(g.unit()),
                pow2(f.unit()),
            )
        }
    }

    /// The magnitude without its fraction.
    pub open spec fn whole(self, f: Format) -> nat {
        self.magnitude(f) / pow2(f.unit())
    }

    pub open spec fn has_fraction(self, f: Format) -> bool {
        self.magnitude(f) % pow2(f.unit()) != 0
    }

    /// The fraction of the magnitude is at least one half.
    pub open spec fn half_or_more(self, f: Format) -> bool {
        2 * (self.magnitude(f) % pow2(f.unit())) >= pow2(f.unit())
    }

    /// The nearest whole number, away from zero where two are.
    pub open spec fn nearest_spec(self, f: Format) -> Number {
        self.integral_spec(f, self.half_or_more(f))
    }

    /// What is left of the magnitude when the other's has been taken away as
    /// often as it goes in, with the sign kept.
    pub open spec fn remainder_spec(self, other: Number, f: Format) -> Number {
        if self.nan_in(f) || other.nan_in(f) || self.infinite_in(f) || other.bits == 0 {
            Number::nan_spec(f)
        } else if other.infinite_in(f) {
            self
        } else {
            Number::rounded(f, self.negative, self.magnitude(f) % other.magnitude(f), 1)
        }
    }

    /// The magnitude taken to a whole number: up where `away` holds of a
    /// fraction, else down.
    pub open spec fn integral_spec(self, f: Format, away: bool) -> Number {
        if self.nan_in(f) {
            Number::nan_spec(f)
        } else if self.infinite_in(f) {
            self
        } else {
            Number::ratio_spec(
                f,
                self.negative,
                if away && self.has_fraction(f) {
                    self.whole(f) + 1
                } else {
                    self.whole(f)
                },
                1,
            )
        }
    }

    pub open spec fn less_spec(self, other: Number, f: Format) -> bool {
        !self.nan_in(f) && !other.nan_in(f) && self.value(f) < other.value(f)
    }

    pub open spec fn equal_spec(self, other: Number, f: Format) -> bool {
        !self.nan_in(f) && !other.nan_in(f) && self.value(f) == other.value(f)
    }

    /// The number nearest to `n / d`.
    pub fn ratio(f: Format, negative: bool, n: u64, d: u64) -> (r: Number)
        requires
            d > 0,
        ensures
            r == Number::ratio_spec(f, negative, n as nat, d as nat),
            r.valid(f),
    {
        let ghost unit = pow2(f.unit());
        proof {
            lemma_constants(f);
            lemma_rounded(f, negative, n as nat * unit, d as nat);
        }
        if n == 0 {
            proof {
                assert(0 * unit == 0);
                rounding::lemma_round_zero(f, d as nat);
            }
            return Number { negative, bits: 0 };
        }
        if d == 1 {
            assert(1 * unit == unit);
            let bits: u64 = f.round_to_bits(
                n as u128,
                f.unit_exponent() as i32,
                false,
                Ghost(n as nat * unit),
                Ghost(1),
            );
            return Number { negative, bits };
        }
        assert((n as nat * unit) * d == (d as nat * unit) * n) by (nonlinear_arith);
        let bits: u64 = divide(
            f,
            n,
            d,
            f.unit_exponent() as i32,
            Ghost(n as nat * unit),
            Ghost(d as nat),
        );
        Number { negative, bits }
    }

    /// The same number in format `g`, rounded where it does not fit.
    pub fn converted(self, f: Format, g: Format) -> (r: Number)
        requires
            self.valid(f),
        ensures
            r == self.converted_spec(f, g),
            r.valid(g),
    {
        proof {
            lemma_constants(f);
            lemma_constants(g);
        }
        if self.is_nan(f) {
            return Number::nan(g);
        }
        if self.is_infinite(f) {
            return Number::infinity(g, self.negative);
        }
        let (m, ea): (u64, u32) = unpack(f, self.bits);
        let ghost n = (self.magnitude(f) * pow2(g.unit())) as nat;
        let ghost d = pow2(f.unit());
        proof {
            lemma_pow2_pos(f.unit());
            lemma_rounded(g, self.negative, n, d);
        }
        if m == 0 {
            proof {
                rounding::lemma_round_zero(f, d);
                rounding::lemma_round_zero(g, d);
                assert(0 * pow2(g.unit()) == 0);
            }
            return Number { negative: self.negative, bits: 0 };
        }
        let e: i32 = ea as i32 + g.unit_exponent() as i32 - f.unit_exponent() as i32;
        proof {
            let both = pow2((ea + g.unit()) as nat);
            lemma_pow2_adds(ea as nat, g.unit());
            assert(n == m * both) by (nonlinear_arith)
                requires
                    n == (m * pow2(ea as nat)) * pow2(g.unit()),
                    both == pow2(ea as nat) * pow2(g.unit()),
            ;
            if e >= 0 {
                lemma_pow2_adds(f.unit(), e as nat);
            } else {
                lemma_pow2_adds((ea + g.unit()) as nat, (-e) as nat);
                let c = pow2((-e) as nat);
                assert(n * c == m * d) by (nonlinear_arith)
                    requires
                        n == m * both,
                        d == both * c,
                ;
            }
        }
        let bits: u64 = g.round_to_bits(m as u128, e, false, Ghost(n), Ghost(d));
        Number { negative: self.negative, bits }
    }

    /// The whole part of a magnitude that has one below its leading bit, and
    /// whether anything lies behind it.
    fn split(self, f: Format) -> (r: Option<(u64, bool, bool)>)
        requires
            self.finite_in(f),
        ensures
            match r {
                Some((whole, fraction, half)) => {
                    &&& whole == self.whole(f)
                    &&& fraction == self.has_fraction(f)
                    &&& half == self.half_or_more(f)
                    &&& whole < pow2(f.precision())
                },
                None => {
                    &&& !self.has_fraction(f)
                    &&& !self.half_or_more(f)
                    &&& self.whole(f) * pow2(f.unit()) == self.magnitude(f)
                    &&& self.bits as nat / f.lead() > f.unit()
                },
            },
    {
        let (m, e): (u64, u32) = unpack(f, self.bits);
        let u: u32 = f.unit_exponent();
        let ghost unit = pow2(f.unit());
        proof {
            lemma_constants(f);
            lemma_pow2_pos(f.unit());
        }
        if e >= u {
            proof {
                lemma_pow2_adds((e - u) as nat, f.unit());
                let c = (m * pow2((e - u) as nat)) as int;
                assert(self.magnitude(f) == c * unit + 0) by (nonlinear_arith)
                    requires
                        self.magnitude(f) == m * pow2(e as nat),
                        pow2(e as nat) == pow2((e - u) as nat) * unit,
                        c == m * pow2((e - u) as nat),
                ;
                lemma_fundamental_div_mod_converse(self.magnitude(f) as int, unit as int, c, 0);
            }
            return None;
        }
        let s: u32 = u - e;
        let ghost low = pow2(e as nat);
        proof {
            lemma_pow2_adds(e as nat, s as nat);
            lemma_pow2_pos(e as nat);
        }
        if s >= 64 {
            proof {
                if s > 64 {
                    lemma_pow2_strictly_increases(64, s as nat);
                }
                assert(0 <= m * low < unit && (m > 0 <==> m * low > 0)) by (nonlinear_arith)
                    requires
                        0 <= m < pow2(s as nat),
                        unit == low * pow2(s as nat),
                        low > 0,
                ;
                assert(0 * unit == 0);
                lemma_fundamental_div_mod_converse(
                    self.magnitude(f) as int,
                    unit as int,
                    0,
                    self.magnitude(f) as int,
                );
                assert(2 * (m * low) < unit) by (nonlinear_arith)
                    requires
                        0 <= m < 0x20000000000000,
                        pow2(s as nat) >= 0x10000000000000000,
                        unit == low * pow2(s as nat),
                        low > 0,
                ;
            }
            return Some((0, m != 0, false));
        }
        let step: u128 = rounding::power_of_two(s);
        let whole: u128 = m as u128 / step;
        let rest: u128 = m as u128 % step;
        let above: u128 = step - rest;
        proof {
            assert((rest >= above) == (2 * (rest * low) >= unit)) by (nonlinear_arith)
                requires
                    above == step - rest,
                    unit == low * step,
                    low > 0,
            ;
            lemma_fundamental_div_mod(m as int, step as int);
            let r = rest * low;
            assert(self.magnitude(f) == whole * unit + r && 0 <= r < unit && (rest > 0 <==> r > 0)
                && whole <= m) by (nonlinear_arith)
                requires
                    self.magnitude(f) == m * low,
                    m == step * whole + rest,
                    0 <= rest < step,
                    unit == low * step,
                    low > 0,
                    r == rest * low,
                    whole >= 0,
                    step >= 1,
            ;
            lemma_fundamental_div_mod_converse(
                self.magnitude(f) as int,
                unit as int,
                whole as int,
                r,
            );
        }
        Some((whole as u64, rest != 0, rest >= above))
    }

    /// The magnitude taken to a whole number: up where `away` is set and there
    /// is a fraction, else down.
    pub fn integral(self, f: Format, away: bool) -> (r: Number)
        requires
            self.valid(f),
        ensures
            r == self.integral_spec(f, away),
            r.valid(f),
    {
        proof {
            lemma_constants(f);
        }
        if self.is_nan(f) {
            return Number::nan(f);
        }
        if self.is_infinite(f) {
            return self;
        }
        match self.split(f) {
            Some((whole, fraction, _)) => {
                if away && fraction {
                    Number::ratio(f, self.negative, whole + 1, 1)
                } else {
                    Number::ratio(f, self.negative, whole, 1)
                }
            },
            None => {
                proof {
                    rounding::lemma_round_exact(f, self.bits as nat, 1);
                    rounding::lemma_encode_decode(f, self.bits as nat);
                    assert(self.magnitude(f) * 1 == self.magnitude(f));
                }
                self
            },
        }
    }

    /// The nearest whole number, away from zero where two are.
    pub fn nearest(self, f: Format) -> (r: Number)
        requires
            self.valid(f),
        ensures
            r == self.nearest_spec(f),
            r.valid(f),
    {
        proof {
            lemma_constants(f);
        }
        if self.is_nan(f) || self.is_infinite(f) {
            return self.integral(f, false);
        }
        let away: bool = match self.split(f) {
            Some((_, _, half)) => half,
            None => false,
        };
        self.integral(f, away)
    }

    /// What is left of the magnitude when the other's has been taken away as
    /// often as it goes in, with the sign kept.
    pub fn remainder(self, other: Number, f: Format) -> (r: Number)
        requires
            self.valid(f),
            other.valid(f),
        ensures
            r == self.remainder_spec(other, f),
            r.valid(f),
    {
        proof {
            lemma_constants(f);
        }
        if self.is_nan(f) || other.is_nan(f) || self.is_infinite(f) || other.bits == 0 {
            return Number::nan(f);
        }
        if other.is_infinite(f) {
            return self;
        }
        let (ma, ea): (u64, u32) = unpack(f, self.bits);
        let (mb, eb): (u64, u32) = unpack(f, other.bits);
        let ghost a = self.magnitude(f);
        let ghost b = other.magnitude(f);
        let ghost n = (a % b) as nat;
        proof {
            lemma_pow2_pos(ea as nat);
            lemma_pow2_pos(eb as nat);
            assert(b > 0) by (nonlinear_arith)
                requires
                    b == mb * pow2(eb as nat),
                    mb > 0,
                    pow2(eb as nat) > 0,
            ;
            lemma_rounded(f, self.negative, n, 1);
        }
        let left: u64;
        let e: u32;
        if ea >= eb {
            left = remainder_of_shifted(ma, mb, ea - eb);
            e = eb;
            proof {
                let c = pow2(eb as nat);
                let x = (ma * pow2((ea - eb) as nat)) as int;
                lemma_pow2_adds((ea - eb) as nat, eb as nat);
                assert(a == x * c) by (nonlinear_arith)
                    requires
                        a == ma * pow2(ea as nat),
                        pow2(ea as nat) == pow2((ea - eb) as nat) * c,
                        x == ma * pow2((ea - eb) as nat),
                ;
                lemma_scaled_remainder(x, mb as int, c as int);
            }
        } else if eb - ea >= 64 {
            left = ma;
            e = ea;
            proof {
                let c = pow2(ea as nat);
                let gap = pow2((eb - ea) as nat);
                if eb - ea > 64 {
                    lemma_pow2_strictly_increases(64, (eb - ea) as nat);
                }
                lemma_pow2_adds((eb - ea) as nat, ea as nat);
                assert(a < b) by (nonlinear_arith)
                    requires
                        a == ma * c,
                        b == mb * (gap * c),
                        ma < gap,
                        mb >= 1,
                        c > 0,
                ;
                lemma_small_mod(a, b);
            }
        } else {
            let factor: u128 = rounding::power_of_two(eb - ea);
            proof {
                if eb - ea < 64 {
                    lemma_pow2_strictly_increases((eb - ea) as nat, 64);
                }
                assert(0 < mb * factor < 0x20000000000000 * 0x10000000000000000) by (nonlinear_arith)
                    requires
                        0 < mb < 0x20000000000000,
                        0 < factor <= 0x10000000000000000,
                ;
            }
            let divisor: u128 = mb as u128 * factor;
            left = (ma as u128 % divisor) as u64;
            e = ea;
            proof {
                let c = pow2(ea as nat);
                lemma_pow2_adds((eb - ea) as nat, ea as nat);
                assert(b == divisor * c) by (nonlinear_arith)
                    requires
                        b == mb * (factor * c),
                        divisor == mb * factor,
                ;
                lemma_scaled_remainder(ma as int, divisor as int, c as int);
                lemma_mod_decreases(ma as nat, divisor as nat);
            }
        }
        assert(n == left * pow2(e as nat));
        if left == 0 {
            proof {
                rounding::lemma_round_zero(f, 1);
                assert(0 * pow2(e as nat) == 0);
            }
            return Number { negative: self.negative, bits: 0 };
        }
        assert(1 * pow2(e as nat) == pow2(e as nat));
        let bits: u64 = f.round_to_bits(left as u128, e as i32, false, Ghost(n), Ghost(1));
        Number { negative: self.negative, bits }
    }

    /// The magnitude without its fraction, at most the largest `u64`.
    pub fn whole_saturated(self, f: Format) -> (r: u64)
        requires
            self.valid(f),
            !self.nan_in(f),
        ensures
            r == if self.whole(f) < u64::MAX {
                self.whole(f)
            } else {
                u64::MAX as nat
            },
    {
        let u: u32 = f.unit_exponent();
        let ghost unit = pow2(f.unit());
        proof {
            lemma_constants(f);
            lemma_pow2_pos(f.unit());
        }
        if self.is_infinite(f) {
            proof {
                let up = (f.precision() + f.top() - 2 - f.unit()) as nat;
                rounding::lemma_round_packs(f, 0, 1);
                lemma_pow2_adds(up, f.unit());
                lemma_pow2_strictly_increases(64, up);
                lemma_fundamental_div_mod_converse(
                    self.magnitude(f) as int,
                    unit as int,
                    pow2(up) as int,
                    0,
                );
            }
            return u64::MAX;
        }
        match self.split(f) {
            Some((whole, _, _)) => whole,
            None => {
                let (m, e): (u64, u32) = unpack(f, self.bits);
                let up: u32 = e - u;
                let ghost c = m * pow2(up as nat);
                proof {
                    lemma_pow2_adds(up as nat, f.unit());
                    assert(self.magnitude(f) == c * unit) by (nonlinear_arith)
                        requires
                            self.magnitude(f) == m * pow2(e as nat),
                            pow2(e as nat) == pow2(up as nat) * unit,
                            c == m * pow2(up as nat),
                    ;
                    lemma_fundamental_div_mod_converse(
                        self.magnitude(f) as int,
                        unit as int,
                        c,
                        0,
                    );
                }
                if up >= 64 {
                    proof {
                        if up > 64 {
                            lemma_pow2_strictly_increases(64, up as nat);
                        }
                        assert(c >= pow2(64)) by (nonlinear_arith)
                            requires
                                c == m * pow2(up as nat),
                                m >= 1,
                                pow2(up as nat) >= pow2(64),
                        ;
                    }
                    return u64::MAX;
                }
                let factor: u128 = rounding::power_of_two(up);
                proof {
                    lemma_pow2_strictly_increases(up as nat, 64);
                    assert(m * factor < 0x20000000000000 * 0x10000000000000000) by (nonlinear_arith)
                        requires
                            0 <= m < 0x20000000000000,
                            0 < factor <= 0x10000000000000000,
                    ;
                }
                let whole: u128 = m as u128 * factor;
                if whole < u64::MAX as u128 {
                    whole as u64
                } else {
                    u64::MAX
                }
            },
        }
    }

    pub fn less(self, other: Number, f: Format) -> (r: bool)
        ensures
            r == self.less_spec(other, f),
    {
        proof {
            rounding::lemma_decode_monotone(f, self.bits as nat, other.bits as nat);
            rounding::lemma_decode_monotone(f, 0, self.bits as nat);
            rounding::lemma_decode_monotone(f, 0, other.bits as nat);
            rounding::lemma_round_zero(f, 1);
        }
        if self.is_nan(f) || other.is_nan(f) {
            false
        } else if self.negative {
            if other.negative {
                other.bits < self.bits
            } else {
                self.bits != 0 || other.bits != 0
            }
        } else {
            !other.negative && self.bits < other.bits
        }
    }

    pub fn equal(self, other: Number, f: Format) -> (r: bool)
        ensures
            r == self.equal_spec(other, f),
    {
        proof {
            rounding::lemma_decode_monotone(f, self.bits as nat, other.bits as nat);
            rounding::lemma_decode_monotone(f, 0, self.bits as nat);
            rounding::lemma_decode_monotone(f, 0, other.bits as nat);
            rounding::lemma_round_zero(f, 1);
        }
        if self.is_nan(f) || other.is_nan(f) {
            false
        } else if self.bits == 0 {
            other.bits == 0
        } else {
            self.negative == other.negative && self.bits == other.bits
        }
    }
}

/// A signed count rounded by its magnitude.
pub open spec fn round_signed(f: Format, n: int, d: nat) -> int {
    if n < 0 {
        -(f.round((-n) as nat, d) as int)
    } else {
        f.round(n as nat, d) as int
    }
}

/// A larger count does not round to a smaller one.
pub proof fn lemma_round_signed_monotone(f: Format, n1: int, n2: int, d: nat)
    requires
        d > 0,
        n1 <= n2,
    ensures
        round_signed(f, n1, d) <= round_signed(f, n2, d),
{
    if n2 < 0 {
        rounding::lemma_round_monotone(f, (-n2) as nat, (-n1) as nat, d);
    } else if n1 >= 0 {
        rounding::lemma_round_monotone(f, n1 as nat, n2 as nat, d);
    }
}

/// A number of the format rounds to itself.
pub proof fn lemma_round_signed_exact(f: Format, x: Number, d: nat)
    requires
        !x.nan_in(f),
        d > 0,
    ensures
        round_signed(f, x.value(f) * d, d) == x.value(f),
{
    let m = x.magnitude(f);
    rounding::lemma_round_exact(f, x.bits as nat, d);
    assert(m * d >= 0 && (-(m as int)) * d == -(m * d)) by (nonlinear_arith)
        requires
            m >= 0,
            d > 0,
    ;
    if x.negative && m * d == 0 {
        assert(m == 0) by (nonlinear_arith)
            requires
                m * d == 0,
                d > 0,
        ;
        rounding::lemma_round_zero(f, d);
    }
}

/// What a sum of finite numbers counts as.
pub proof fn lemma_sum_value(f: Format, a: Number, b: Number)
    requires
        a.finite_in(f),
        b.finite_in(f),
    ensures
        !a.sum_spec(b, f).nan_in(f),
        a.sum_spec(b, f).value(f) == round_signed(f, a.value(f) + b.value(f), 1),
{
    let exact = a.value(f) + b.value(f);
    lemma_constants(f);
    if exact == 0 {
        rounding::lemma_round_zero(f, 1);
    } else {
        lemma_rounded(f, exact < 0, magnitude_of(exact), 1);
    }
}

/// The size of a whole number.
pub open spec fn magnitude_of(n: int) -> nat {
    if n < 0 {
        (-n) as nat
    } else {
        n as nat
    }
}

/// What a product of finite numbers counts as.
pub proof fn lemma_product_value(f: Format, a: Number, b: Number)
    requires
        a.finite_in(f),
        b.finite_in(f),
    ensures
        !a.product_spec(b, f).nan_in(f),
        a.product_spec(b, f).value(f) == round_signed(
            f,
            a.value(f) * b.value(f),
            pow2(f.unit()),
        ),
{
    let ma = a.magnitude(f);
    let mb = b.magnitude(f);
    let d = pow2(f.unit());
    let n = (ma * mb) as nat;
    lemma_pow2_pos(f.unit());
    lemma_rounded(f, a.negative != b.negative, n, d);
    rounding::lemma_round_zero(f, d);
    assert(ma * mb >= 0 && a.value(f) * b.value(f) == if a.negative != b.negative {
        -((ma * mb) as int)
    } else {
        (ma * mb) as int
    }) by (nonlinear_arith)
        requires
            a.value(f) == if a.negative {
                -(ma as int)
            } else {
                ma as int
            },
            b.value(f) == if b.negative {
                -(mb as int)
            } else {
                mb as int
            },
    ;
}

/// What a quotient of finite numbers counts as, the divisor not being zero.
pub proof fn lemma_quotient_value(f: Format, a: Number, b: Number)
    requires
        a.finite_in(f),
        b.finite_in(f),
        b.bits != 0,
    ensures
        !a.quotient_spec(b, f).nan_in(f),
        b.magnitude(f) > 0,
        a.quotient_spec(b, f).value(f) == round_signed(
            f,
            if b.negative {
                -(a.value(f) * pow2(f.unit()))
            } else {
                a.value(f) * pow2(f.unit())
            },
            b.magnitude(f),
        ),
{
    let ma = a.magnitude(f);
    let mb = b.magnitude(f);
    let u = pow2(f.unit());
    lemma_pow2_pos(f.unit());
    rounding::lemma_decode_monotone(f, 0, b.bits as nat);
    rounding::lemma_round_zero(f, mb);
    lemma_rounded(f, a.negative != b.negative, (ma * u) as nat, mb);
    assert(ma * u >= 0 && (-(ma as int)) * u == -(ma * u)) by (nonlinear_arith)
        requires
            ma >= 0,
            u > 0,
    ;
}

/// A significand's worth of digits at any place down to the unit's is kept
/// exactly.
pub proof fn lemma_scaled_exact(f: Format, n: nat, s: nat)
    requires
        n <= pow2(f.precision()),
        f.precision() <= s <= f.unit(),
    ensures
        f.round(n * pow2(s), 1) == n * pow2(s),
        f.encode(n * pow2(s)) < f.infinity_bits(),
        f.decode(f.encode(n * pow2(s))) == n * pow2(s),
{
    let unit = pow2(s);
    let p = f.precision();
    let mag = (n * unit) as nat;
    lemma_constants(f);
    lemma_pow2_pos(s);
    if n == 0 {
        assert(0 * unit == 0);
        rounding::lemma_round_zero(f, 1);
    } else if n == pow2(p) {
        rounding::lemma_decode_packs(f, s, n);
        rounding::lemma_encode_packs(f, s, n);
        lemma_pack_exact(f, s, n);
    } else {
        rounding::lemma_bit_length(n);
        let length = rounding::bit_length(n);
        rounding::lemma_bit_length_upper(n, p);
        let j = (p - length) as nat;
        let m = (n * pow2(j)) as nat;
        lemma_pow2_adds((length - 1) as nat, j);
        lemma_pow2_adds(length, j);
        lemma_pow2_pos(j);
        assert(f.lead() <= m < pow2(p)) by (nonlinear_arith)
            requires
                m == n * pow2(j),
                pow2((length - 1) as nat) <= n < pow2(length),
                f.lead() == pow2((length - 1) as nat) * pow2(j),
                pow2(p) == pow2(length) * pow2(j),
                pow2(j) > 0,
        ;
        let k = (s - j) as nat;
        lemma_pow2_adds(j, k);
        assert(mag == m * pow2(k)) by (nonlinear_arith)
            requires
                mag == n * unit,
                unit == pow2(j) * pow2(k),
                m == n * pow2(j),
        ;
        rounding::lemma_decode_packs(f, k, m);
        rounding::lemma_encode_packs(f, k, m);
        lemma_pack_exact(f, k, m);
    }
}

/// A whole number within the significand's reach is kept exactly.
pub proof fn lemma_whole_exact(f: Format, negative: bool, n: nat)
    requires
        n <= pow2(f.precision()),
    ensures
        Number::ratio_spec(f, negative, n, 1).finite_in(f),
        Number::ratio_spec(f, negative, n, 1).magnitude(f) == n * pow2(f.unit()),
{
    lemma_constants(f);
    lemma_rounded(f, negative, n * pow2(f.unit()), 1);
    lemma_scaled_exact(f, n, f.unit());
}

/// Ratios over one denominator that lie further apart than two steps of a
/// binary grid round to different numbers.
pub proof fn lemma_ratios_differ(f: Format, n1: nat, n2: nat, d: nat, grid: nat)
    requires
        d > 0,
        grid <= 20,
        n1 <= d,
        2 * d <= (n2 - n1) * pow2(grid),
        n2 <= d,
    ensures
        f.round(n1 * pow2(f.unit()), d) < f.round(n2 * pow2(f.unit()), d),
{
    let g = pow2(grid);
    let s = (f.unit() - grid) as nat;
    let cell = pow2(s);
    lemma2_to64();
    lemma_constants(f);
    lemma_pow2_pos(grid);
    lemma_pow2_pos(s);
    lemma_pow2_adds(grid, s);
    if grid < 20 {
        lemma_pow2_strictly_increases(grid, 20);
    }
    // The first grid line at or above n1 / d.
    let j = ((n1 * g + d - 1) / (d as int)) as nat;
    lemma_fundamental_div_mod(n1 * g + d - 1, d as int);
    let r = (n1 * g + d - 1) % (d as int);
    assert(n1 * g <= j * d && (j + 1) * d <= n2 * g && j + 1 <= g) by (nonlinear_arith)
        requires
            n1 * g + d - 1 == d * j + r,
            0 <= r < d,
            2 * d <= (n2 - n1) * g,
            n2 <= d,
            d > 0,
            g > 0,
    ;
    let unit = pow2(f.unit());
    assert(n1 * unit <= (j * cell) * d && ((j + 1) * cell) * d <= n2 * unit && j * cell < (j + 1)
        * cell) by (nonlinear_arith)
        requires
            unit == g * cell,
            n1 * g <= j * d,
            (j + 1) * d <= n2 * g,
            cell > 0,
    ;
    lemma_scaled_exact(f, j, s);
    lemma_scaled_exact(f, j + 1, s);
    let low = f.encode(j * cell);
    let high = f.encode((j + 1) * cell);
    rounding::lemma_round_exact(f, low, d);
    rounding::lemma_round_exact(f, high, d);
    rounding::lemma_round_monotone(f, n1 * unit, (j * cell) * d, d);
    rounding::lemma_round_monotone(f, ((j + 1) * cell) * d, n2 * unit, d);
}

proof fn lemma_pack_exact(f: Format, k: nat, m: nat)
    requires
        f.lead() <= m <= pow2(f.precision()),
        k <= f.unit(),
    ensures
        f.round(m * pow2(k), 1) == m * pow2(k),
        f.encode(m * pow2(k)) < f.infinity_bits(),
{
    let bits = (k * f.lead() + m) as nat;
    lemma_constants(f);
    assert(bits < f.infinity_bits()) by (nonlinear_arith)
        requires
            bits == k * f.lead() + m,
            m <= 2 * f.lead(),
            k + 2 < f.top(),
            f.lead() > 0,
            f.infinity_bits() == f.top() * f.lead(),
    ;
    rounding::lemma_decode_packs(f, k, m);
    rounding::lemma_encode_packs(f, k, m);
    rounding::lemma_round_exact(f, bits, 1);
    assert((m * pow2(k)) * 1 == m * pow2(k));
}

/// A ratio of machine integers is finite.
pub proof fn lemma_ratio_finite(f: Format, negative: bool, n: nat, d: nat)
    requires
        n < pow2(64),
        d > 0,
    ensures
        Number::ratio_spec(f, negative, n, d).finite_in(f),
{
    let unit = pow2(f.unit());
    let k = (f.unit() + 64 - (f.precision() - 1)) as nat;
    let lead = f.lead();
    let bits = ((k + 1) * lead) as nat;
    let bound = pow2(f.unit() + 64);
    lemma_constants(f);
    lemma_pow2_pos(f.unit());
    lemma_rounded(f, negative, n * unit, d);
    lemma_pow2_adds(f.unit(), 64);
    lemma_pow2_adds((f.precision() - 1) as nat, k);
    assert(bits == k * lead + lead) by (nonlinear_arith)
        requires
            bits == (k + 1) * lead,
    ;
    rounding::lemma_decode_packs(f, k, lead);
    assert(bits < f.infinity_bits()) by (nonlinear_arith)
        requires
            bits == (k + 1) * lead,
            k + 1 < f.top(),
            lead > 0,
            f.infinity_bits() == f.top() * lead,
    ;
    rounding::lemma_round_exact(f, bits, d);
    assert(n * unit <= bound * d) by (nonlinear_arith)
        requires
            n < pow2(64),
            bound == unit * pow2(64),
            d >= 1,
            unit > 0,
    ;
    rounding::lemma_round_monotone(f, n * unit, (bound * d) as nat, d);
    rounding::lemma_decode_monotone(
        f,
        Number::ratio_spec(f, negative, n, d).bits as nat,
        f.infinity_bits(),
    );
    rounding::lemma_decode_monotone(f, bits, f.infinity_bits());
}

} // verus!
