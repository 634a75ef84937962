//! Rounding of exact rationals to the nearest number of a binary
//! floating-point format, ties going to the even neighbour.
//!
//! A magnitude is counted in units of the smallest positive number of the
//! format, so every finite magnitude is a natural number. Infinity continues
//! the same scale: it counts as the first magnitude past the largest finite one.
use vstd::arithmetic::div_mod::*;
use vstd::arithmetic::mul::*;
use vstd::arithmetic::power2::*;
use vstd::bits::*;
use vstd::std_specs::bits::*;
use vstd::prelude::*;

verus! {

/// A binary floating-point format.
#[derive(Clone, Copy, PartialEq, Eq, Debug, Structural)]
pub enum Format {
    /// Sixty-four bits, 53 of them significand.
    Double,
    /// Thirty-two bits, 24 of them significand.
    Single,
}

impl Format {
    /// Bits of the significand, the leading one counted.
    pub open spec fn precision(self) -> nat {
        match self {
            Format::Double => 53,
            Format::Single => 24,
        }
    }

    /// The exponent field of infinity.
    pub open spec fn top(self) -> nat {
        match self {
            Format::Double => 2047,
            Format::Single => 255,
        }
    }

    /// The smallest positive number is two to the power of minus this.
    pub open spec fn unit(self) -> nat {
        match self {
            Format::Double => 1074,
            Format::Single => 149,
        }
    }

    /// Two to the power of the number of stored significand bits.
    pub open spec fn lead(self) -> nat {
        pow2((self.precision() - 1) as nat)
    }

    /// The stored form of infinity's magnitude.
    pub open spec fn infinity_bits(self) -> nat {
        self.top() * self.lead()
    }

    /// Infinity's magnitude on the scale of the finite ones.
    pub open spec fn infinity_magnitude(self) -> nat {
        pow2((self.precision() + self.top() - 2) as nat)
    }

    /// How many low bits of a magnitude do not fit in the significand.
    pub open spec fn shift_of(self, magnitude: nat) -> nat {
        if bit_length(magnitude) > self.precision() {
            (bit_length(magnitude) - self.precision()) as nat
        } else {
            0
        }
    }

    /// The stored form of a magnitude of the format.
    pub open spec fn encode(self, magnitude: nat) -> nat {
        let k = self.shift_of(magnitude);
        k * self.lead() + magnitude / pow2(k)
    }

    /// The magnitude that a stored form stands for.
    pub open spec fn decode(self, bits: nat) -> nat {
        let field = bits / self.lead();
        let fraction = bits % self.lead();
        if field == 0 {
            fraction
        } else {
            (self.lead() + fraction) * pow2((field - 1) as nat)
        }
    }

    /// The magnitude of the format nearest to `n / d`; from halfway past the
    /// largest finite magnitude on, infinity.
    pub open spec fn round(self, n: nat, d: nat) -> nat {
        let k = self.shift_of(n / d);
        let rounded = nearest_even(n, d * pow2(k)) * pow2(k);
        if rounded < self.infinity_magnitude() {
            rounded
        } else {
            self.infinity_magnitude()
        }
    }
}

/// The number of binary digits of `n`, none for zero.
pub open spec fn bit_length(n: nat) -> nat
    decreases n,
{
    if n == 0 {
        0
    } else {
        1 + bit_length(n / 2)
    }
}

/// The integer nearest to `n / d`, the even one where two are.
pub open spec fn nearest_even(n: nat, d: nat) -> nat {
    let quotient = n / d;
    let remainder = n % d;
    if 2 * remainder < d || (2 * remainder == d && quotient % 2 == 0) {
        quotient
    } else {
        quotient + 1
    }
}

/// A positive number lies between the powers of two that its length names.
pub proof fn lemma_bit_length(n: nat)
    requires
        n > 0,
    ensures
        bit_length(n) > 0,
        pow2((bit_length(n) - 1) as nat) <= n < pow2(bit_length(n)),
    decreases n,
{
    if n == 1 {
        assert(bit_length(0) == 0);
        assert(bit_length(1) == 1 + bit_length(0)) by {
            assert(1nat / 2 == 0);
        }
        lemma2_to64();
    } else {
        lemma_bit_length(n / 2);
        let b = bit_length(n / 2);
        lemma_pow2_unfold(b);
        lemma_pow2_unfold(b + 1);
    }
}

/// The length is the only exponent that brackets the number.
pub proof fn lemma_bit_length_unique(n: nat, b: nat)
    requires
        b > 0,
        pow2((b - 1) as nat) <= n < pow2(b),
    ensures
        bit_length(n) == b,
{
    lemma_pow2_pos((b - 1) as nat);
    lemma_bit_length(n);
    let c = bit_length(n);
    if c < b {
        if c < b - 1 {
            lemma_pow2_strictly_increases(c, (b - 1) as nat);
        }
    } else if b < c {
        if b < c - 1 {
            lemma_pow2_strictly_increases(b, (c - 1) as nat);
        }
    }
}

/// A number below a power of two is no longer than its exponent.
pub proof fn lemma_bit_length_upper(n: nat, b: nat)
    requires
        n < pow2(b),
    ensures
        bit_length(n) <= b,
{
    if n > 0 {
        lemma_bit_length(n);
        if bit_length(n) > b {
            if bit_length(n) - 1 > b {
                lemma_pow2_strictly_increases(b, (bit_length(n) - 1) as nat);
            }
        }
    }
}

/// A longer number is not smaller.
pub proof fn lemma_bit_length_monotone(a: nat, b: nat)
    requires
        a <= b,
    ensures
        bit_length(a) <= bit_length(b),
{
    if a > 0 {
        lemma_bit_length(b);
        lemma_bit_length_upper(a, bit_length(b));
    }
}

/// Scaling numerator and denominator alike leaves the nearest integer alone.
pub proof fn lemma_nearest_even_scale(n: nat, d: nat, c: nat)
    requires
        d > 0,
        c > 0,
    ensures
        d * c > 0,
        nearest_even(n * c, d * c) == nearest_even(n, d),
{
    let q = n / d;
    let r = n % d;
    lemma_fundamental_div_mod(n as int, d as int);
    assert(d * c > 0 && n * c == q * (d * c) + r * c && 0 <= r * c < d * c) by (nonlinear_arith)
        requires
            n == d * q + r,
            0 <= r < d,
            c > 0,
            d > 0,
    ;
    lemma_fundamental_div_mod_converse((n * c) as int, (d * c) as int, q as int, (r * c) as int);
    assert((2 * r < d) == (2 * (r * c) < d * c)) by (nonlinear_arith)
        requires
            c > 0,
    ;
    assert((2 * r == d) == (2 * (r * c) == d * c)) by (nonlinear_arith)
        requires
            c > 0,
    ;
}

/// A whole quotient is its own nearest integer.
pub proof fn lemma_nearest_even_exact(q: nat, d: nat)
    requires
        d > 0,
    ensures
        nearest_even(q * d, d) == q,
{
    lemma_fundamental_div_mod_converse((q * d) as int, d as int, q as int, 0);
}

/// A larger numerator does not round to a smaller integer.
pub proof fn lemma_nearest_even_monotone(n1: nat, n2: nat, d: nat)
    requires
        d > 0,
        n1 <= n2,
    ensures
        nearest_even(n1, d) <= nearest_even(n2, d),
{
    lemma_div_is_ordered(n1 as int, n2 as int, d as int);
    if n1 / d == n2 / d {
        lemma_fundamental_div_mod(n1 as int, d as int);
        lemma_fundamental_div_mod(n2 as int, d as int);
    }
}

/// The nearest integer is the quotient or the one above.
pub proof fn lemma_nearest_even_bounds(n: nat, d: nat, low: nat, high: nat)
    requires
        d > 0,
        low * d <= n <= high * d,
    ensures
        low <= nearest_even(n, d) <= high,
{
    lemma_nearest_even_exact(low, d);
    lemma_nearest_even_exact(high, d);
    lemma_nearest_even_monotone((low * d) as nat, n, d);
    lemma_nearest_even_monotone(n, (high * d) as nat, d);
}

/// `n` on the scale whose unit is two to the power of `e`.
pub open spec fn scaled_numerator(n: nat, e: int) -> nat {
    if e < 0 {
        n * pow2((-e) as nat)
    } else {
        n
    }
}

/// `d` on the scale whose unit is two to the power of `e`.
pub open spec fn scaled_denominator(d: nat, e: int) -> nat {
    if e < 0 {
        d
    } else {
        d * pow2(e as nat)
    }
}

/// `n / d` is `m` times two to the power of `e`; where `sticky` is set it is
/// strictly between that and the same with `m + 1`.
pub open spec fn brackets(n: nat, d: nat, m: nat, e: int, sticky: bool) -> bool {
    let sn = scaled_numerator(n, e);
    let sd = scaled_denominator(d, e);
    if sticky {
        m * sd < sn < (m + 1) * sd
    } else {
        sn == m * sd
    }
}

/// `m`, with a sticky fraction behind it, divided by two to the power of `s`
/// and rounded.
pub open spec fn drop_bits(m: nat, s: nat, sticky: bool) -> nat {
    let q = m / pow2(s);
    let r = m % pow2(s);
    if 2 * r > pow2(s) || (2 * r == pow2(s) && (sticky || q % 2 == 1)) {
        q + 1
    } else {
        q
    }
}

proof fn lemma_pow2_split(a: int, b: int)
    requires
        a >= 0,
        b >= 0,
    ensures
        pow2((a + b) as nat) == pow2(a as nat) * pow2(b as nat),
        pow2(a as nat) > 0,
        pow2(b as nat) > 0,
{
    lemma_pow2_adds(a as nat, b as nat);
    lemma_pow2_pos(a as nat);
    lemma_pow2_pos(b as nat);
}

/// The bits that do not fit, read off a bracketing significand.
proof fn lemma_shift_of_quotient(f: Format, n: nat, d: nat, m: nat, e: int, sticky: bool)
    requires
        d > 0,
        m > 0,
        brackets(n, d, m, e, sticky),
    ensures
        f.shift_of(n / d) == if bit_length(m) + e > f.precision() {
            bit_length(m) + e - f.precision()
        } else {
            0
        },
{
    let bl = bit_length(m);
    let b = bl + e;
    let sn = scaled_numerator(n, e);
    let sd = scaled_denominator(d, e);
    lemma_bit_length(m);
    lemma_pow2_pos((if e < 0 { -e } else { e }) as nat);
    assert(sd > 0) by (nonlinear_arith)
        requires
            d > 0,
            sd == d || sd == d * pow2(e as nat),
            e >= 0 ==> pow2(e as nat) > 0,
            sd == if e < 0 { d } else { d * pow2(e as nat) },
    ;
    assert(m * sd <= sn < (m + 1) * sd) by (nonlinear_arith)
        requires
            sd > 0,
            sn == m * sd || m * sd < sn < (m + 1) * sd,
    ;
    let low = pow2((bl - 1) as nat);
    let high = pow2(bl);
    assert(low * sd <= sn < high * sd) by (nonlinear_arith)
        requires
            m * sd <= sn < (m + 1) * sd,
            low <= m,
            m + 1 <= high,
            sd > 0,
    ;
    if b > 0 {
        let lo = pow2((b - 1) as nat);
        let hi = pow2(b as nat);
        if e >= 0 {
            lemma_pow2_split(bl - 1, e);
            lemma_pow2_split(bl as int, e);
            assert(lo * d <= n < hi * d) by (nonlinear_arith)
                requires
                    low * (d * pow2(e as nat)) <= n < high * (d * pow2(e as nat)),
                    lo == low * pow2(e as nat),
                    hi == high * pow2(e as nat),
            ;
        } else {
            lemma_pow2_split(b - 1, -e);
            lemma_pow2_split(b, -e);
            let c = pow2((-e) as nat);
            assert(lo * d <= n < hi * d) by (nonlinear_arith)
                requires
                    low * d <= n * c < high * d,
                    low == lo * c,
                    high == hi * c,
                    c > 0,
            ;
        }
        let q = n / d;
        lemma_fundamental_div_mod(n as int, d as int);
        let r = n % d;
        assert(lo <= q < hi) by (nonlinear_arith)
            requires
                n == d * q + r,
                0 <= r < d,
                lo * d <= n < hi * d,
        ;
        lemma_bit_length_unique(q, b as nat);
    } else {
        let c = pow2((-e) as nat);
        if bl < -e {
            lemma_pow2_strictly_increases(bl, (-e) as nat);
        }
        assert(n < d) by (nonlinear_arith)
            requires
                n * c < high * d,
                high <= c,
                c > 0,
        ;
        lemma_basic_div(n as int, d as int);
        assert(bit_length(0) == 0);
    }
}

/// Rounding `n / d` at a bit above the significand's unit.
proof fn lemma_round_at_bit(n: nat, d: nat, m: nat, e: int, sticky: bool, k: nat)
    requires
        d > 0,
        brackets(n, d, m, e, sticky),
        k > e,
    ensures
        nearest_even(n, d * pow2(k)) == drop_bits(m, (k - e) as nat, sticky),
{
    let s = (k - e) as nat;
    let sn = scaled_numerator(n, e);
    let sd = scaled_denominator(d, e);
    let unit = pow2(s);
    lemma_pow2_pos(k);
    lemma_pow2_pos(s);
    lemma_pow2_unfold(s);
    if e >= 0 {
        lemma_pow2_split(e, s as int);
        assert(d * pow2(k) == sd * unit && sd > 0) by (nonlinear_arith)
            requires
                sd == d * pow2(e as nat),
                pow2(k) == pow2(e as nat) * unit,
                d > 0,
                pow2(e as nat) > 0,
        ;
    } else {
        let c = pow2((-e) as nat);
        lemma_pow2_split(k as int, -e);
        assert(d * pow2(k) > 0) by (nonlinear_arith)
            requires
                d > 0,
                pow2(k) > 0,
        ;
        lemma_nearest_even_scale(n, (d * pow2(k)) as nat, c);
        assert((d * pow2(k)) * c == sd * unit) by (nonlinear_arith)
            requires
                sd == d,
                unit == pow2(k) * c,
        ;
    }
    assert(nearest_even(n, d * pow2(k)) == nearest_even(sn, sd * unit));
    let q = m / unit;
    let r = m % unit;
    lemma_fundamental_div_mod(m as int, unit as int);
    let t = (sn - m * sd) as int;
    assert(0 <= t < sd && (t == 0 <==> !sticky)) by (nonlinear_arith)
        requires
            sd > 0,
            t == sn - m * sd,
            if sticky {
                m * sd < sn < (m + 1) * sd
            } else {
                sn == m * sd
            },
    ;
    let whole = sd * unit;
    let rest = r * sd + t;
    assert(whole > 0 && sn == q * whole + rest && 0 <= rest < whole) by (nonlinear_arith)
        requires
            sn == m * sd + t,
            m == unit * q + r,
            0 <= r < unit,
            0 <= t < sd,
            whole == sd * unit,
            rest == r * sd + t,
            unit > 0,
            sd > 0,
    ;
    lemma_fundamental_div_mod_converse(sn as int, whole as int, q as int, rest);
    let half = pow2((s - 1) as nat);
    assert(unit == 2 * half);
    if r < half {
        assert(2 * rest < whole) by (nonlinear_arith)
            requires
                r + 1 <= half,
                unit == 2 * half,
                rest == r * sd + t,
                t < sd,
                whole == sd * unit,
                sd > 0,
        ;
    } else if r > half {
        assert(2 * rest > whole) by (nonlinear_arith)
            requires
                r >= half + 1,
                unit == 2 * half,
                rest == r * sd + t,
                t >= 0,
                whole == sd * unit,
                sd > 0,
        ;
    } else {
        assert(2 * rest == whole + 2 * t) by (nonlinear_arith)
            requires
                r == half,
                unit == 2 * half,
                rest == r * sd + t,
                whole == sd * unit,
        ;
    }
}

/// No bit is lost where the rounding bit is not above the significand's unit.
proof fn lemma_round_below_unit(n: nat, d: nat, m: nat, e: int, k: nat)
    requires
        d > 0,
        brackets(n, d, m, e, false),
        k <= e,
    ensures
        nearest_even(n, d * pow2(k)) == m * pow2((e - k) as nat),
{
    lemma_pow2_split(k as int, e - k);
    let c = pow2((e - k) as nat);
    assert(n == (m * c) * (d * pow2(k)) && d * pow2(k) > 0) by (nonlinear_arith)
        requires
            n == m * (d * pow2(e as nat)),
            pow2(e as nat) == pow2(k) * c,
            d > 0,
            pow2(k) > 0,
    ;
    lemma_nearest_even_exact((m * c) as nat, (d * pow2(k)) as nat);
}

/// The stored form of a significand times a power of two.
pub proof fn lemma_encode_packs(f: Format, k: nat, m: nat)
    requires
        m <= pow2(f.precision()),
        k > 0 ==> f.lead() <= m,
    ensures
        f.encode(m * pow2(k)) == k * f.lead() + m,
{
    let p = f.precision();
    let mag = (m * pow2(k)) as nat;
    lemma_pow2_pos(k);
    lemma_pow2_unfold(p);
    if m == pow2(p) {
        lemma_pow2_split(p as int, k as int);
        lemma_pow2_split(p - 1, (k + 1) as int);
        lemma_pow2_unfold(p + k + 1);
        lemma_pow2_pos(p + k);
        assert(mag == pow2(p) * pow2(k));
        assert(mag == pow2(p + k));
        lemma_bit_length_unique(mag, p + k + 1);
        assert(f.shift_of(mag) == k + 1);
        assert(mag == f.lead() * pow2(k + 1));
        lemma_fundamental_div_mod_converse(mag as int, pow2(k + 1) as int, f.lead() as int, 0);
        assert((k + 1) * f.lead() + f.lead() == k * f.lead() + m) by (nonlinear_arith)
            requires
                m == 2 * f.lead(),
        ;
    } else if k == 0 {
        lemma2_to64();
        assert(mag == m) by (nonlinear_arith)
            requires
                mag == m * pow2(k),
                pow2(k) == 1,
        ;
        lemma_bit_length_upper(mag, p);
        assert(f.shift_of(mag) == 0);
        assert(mag / 1 == mag);
    } else {
        lemma_pow2_split(p - 1, k as int);
        lemma_pow2_split(p as int, k as int);
        assert(pow2((p - 1 + k) as nat) <= mag < pow2((p + k) as nat)) by (nonlinear_arith)
            requires
                mag == m * pow2(k),
                f.lead() <= m < pow2(p),
                pow2((p - 1 + k) as nat) == f.lead() * pow2(k),
                pow2((p + k) as nat) == pow2(p) * pow2(k),
                pow2(k) > 0,
        ;
        lemma_bit_length_unique(mag, p + k);
        lemma_fundamental_div_mod_converse(mag as int, pow2(k) as int, m as int, 0);
    }
}

/// A significand times a power of two reaches infinity exactly where its
/// stored form does.
pub proof fn lemma_overflow(f: Format, k: nat, m: nat)
    requires
        m <= pow2(f.precision()),
        k > 0 ==> f.lead() <= m,
    ensures
        (k * f.lead() + m >= f.infinity_bits()) == (m * pow2(k) >= f.infinity_magnitude()),
        f.encode(f.infinity_magnitude()) == f.infinity_bits(),
{
    let p = f.precision();
    let top = f.top();
    let lead = f.lead();
    lemma_pow2_unfold(p);
    lemma_pow2_pos((p - 1) as nat);
    lemma_pow2_pos(k);
    lemma_pow2_split(p - 1, top - 1);
    lemma_pow2_split(p as int, top - 2);
    assert(f.infinity_magnitude() == lead * pow2((top - 1) as nat));
    lemma_encode_packs(f, (top - 1) as nat, lead);
    assert((top - 1) * lead + lead == top * lead) by (nonlinear_arith);
    if k >= top - 1 {
        if k > top - 1 {
            lemma_pow2_strictly_increases((top - 1) as nat, k);
        }
        assert(m * pow2(k) >= lead * pow2((top - 1) as nat)) by (nonlinear_arith)
            requires
                m >= lead,
                pow2(k) >= pow2((top - 1) as nat),
        ;
        assert(k * lead + m >= top * lead) by (nonlinear_arith)
            requires
                k >= top - 1,
                m >= lead,
        ;
    } else if k == top - 2 && m == pow2(p) {
        assert(k * lead + m == top * lead) by (nonlinear_arith)
            requires
                k == top - 2,
                m == 2 * lead,
        ;
    } else {
        if k < top - 2 {
            lemma_pow2_strictly_increases(k, (top - 2) as nat);
        }
        lemma_pow2_pos((top - 2) as nat);
        assert(m * pow2(k) < pow2(p) * pow2((top - 2) as nat)) by (nonlinear_arith)
            requires
                m <= pow2(p),
                pow2(k) <= pow2((top - 2) as nat),
                m < pow2(p) || pow2(k) < pow2((top - 2) as nat),
                pow2(k) > 0,
                pow2(p) > 0,
        ;
        assert(k * lead + m < top * lead) by (nonlinear_arith)
            requires
                k <= top - 2,
                m <= 2 * lead,
                m < 2 * lead || k < top - 2,
                lead > 0,
        ;
    }
}

/// A packed significand stands for itself times its power of two.
pub proof fn lemma_decode_packs(f: Format, k: nat, m: nat)
    requires
        m <= pow2(f.precision()),
        k > 0 ==> f.lead() <= m,
    ensures
        f.decode(k * f.lead() + m) == m * pow2(k),
{
    let lead = f.lead();
    let bits = (k * lead + m) as int;
    lemma_pow2_pos((f.precision() - 1) as nat);
    lemma_pow2_unfold(f.precision());
    lemma_pow2_unfold(k + 1);
    lemma2_to64();
    if m < lead {
        lemma_fundamental_div_mod_converse(bits, lead as int, 0, m as int);
        assert(m * 1 == m);
    } else if m < 2 * lead {
        assert(bits == (k + 1) * lead + (m - lead)) by (nonlinear_arith)
            requires
                bits == k * lead + m,
        ;
        lemma_fundamental_div_mod_converse(bits, lead as int, (k + 1) as int, m - lead);
    } else {
        assert(bits == (k + 2) * lead + 0) by (nonlinear_arith)
            requires
                bits == k * lead + m,
                m == 2 * lead,
        ;
        lemma_fundamental_div_mod_converse(bits, lead as int, (k + 2) as int, 0);
        assert(lead * pow2(k + 1) == m * pow2(k)) by (nonlinear_arith)
            requires
                m == 2 * lead,
                pow2(k + 1) == 2 * pow2(k),
        ;
    }
}

/// Every stored form packs a significand and an exponent.
pub proof fn lemma_unpack(f: Format, bits: nat) -> (r: (nat, nat))
    ensures
        bits == r.0 * f.lead() + r.1,
        r.1 < pow2(f.precision()),
        r.0 > 0 ==> f.lead() <= r.1,
        f.decode(bits) == r.1 * pow2(r.0),
{
    let lead = f.lead();
    lemma_pow2_pos((f.precision() - 1) as nat);
    lemma_pow2_unfold(f.precision());
    lemma_fundamental_div_mod(bits as int, lead as int);
    lemma2_to64();
    let field = bits / lead;
    let fraction = bits % lead;
    if field == 0 {
        assert(fraction * 1 == fraction);
        assert(0 * lead == 0);
        (0, fraction)
    } else {
        assert(bits == (field - 1) * lead + (lead + fraction)) by (nonlinear_arith)
            requires
                bits == lead * field + fraction,
        ;
        ((field - 1) as nat, (lead + fraction) as nat)
    }
}

/// The stored form of what a stored form stands for is itself.
pub proof fn lemma_encode_decode(f: Format, bits: nat)
    ensures
        f.encode(f.decode(bits)) == bits,
{
    let (k, m) = lemma_unpack(f, bits);
    lemma_encode_packs(f, k, m);
}

/// A larger stored form stands for a larger magnitude.
pub proof fn lemma_decode_monotone(f: Format, a: nat, b: nat)
    ensures
        a < b <==> f.decode(a) < f.decode(b),
        a == b <==> f.decode(a) == f.decode(b),
{
    lemma_encode_decode(f, a);
    lemma_encode_decode(f, b);
    if a < b {
        lemma_decode_increases(f, a, b);
    } else if b < a {
        lemma_decode_increases(f, b, a);
    }
}

proof fn lemma_decode_increases(f: Format, a: nat, b: nat)
    requires
        a < b,
    ensures
        f.decode(a) < f.decode(b),
{
    let (ka, ma) = lemma_unpack(f, a);
    let (kb, mb) = lemma_unpack(f, b);
    let lead = f.lead();
    lemma_pow2_unfold(f.precision());
    lemma_pow2_pos(ka);
    lemma_pow2_pos(kb);
    assert(ka <= kb) by (nonlinear_arith)
        requires
            ka * lead + ma < kb * lead + mb,
            mb < 2 * lead,
            kb > 0 ==> lead <= mb,
            ka > 0 ==> lead <= ma,
            lead > 0,
    ;
    if ka == kb {
        assert(ma * pow2(ka) < mb * pow2(kb)) by (nonlinear_arith)
            requires
                ma < mb,
                pow2(ka) == pow2(kb),
                pow2(ka) > 0,
        ;
    } else {
        lemma_pow2_unfold(ka + 1);
        if ka + 1 < kb {
            lemma_pow2_strictly_increases(ka + 1, kb);
        }
        assert(ma * pow2(ka) < mb * pow2(kb)) by (nonlinear_arith)
            requires
                ma < 2 * lead,
                lead <= mb,
                2 * pow2(ka) <= pow2(kb),
                pow2(ka) > 0,
        ;
    }
}

/// A rounded magnitude belongs to the format: it packs, and its stored form
/// stands for it.
pub proof fn lemma_round_packs(f: Format, n: nat, d: nat)
    requires
        d > 0,
    ensures
        f.decode(f.encode(f.round(n, d))) == f.round(n, d),
        f.encode(f.round(n, d)) <= f.infinity_bits(),
        f.decode(f.infinity_bits()) == f.infinity_magnitude(),
{
    let k = f.shift_of(n / d);
    let m = nearest_even(n, d * pow2(k));
    lemma_rounded_significand(f, n, d);
    lemma_encode_packs(f, k, m);
    lemma_decode_packs(f, k, m);
    lemma_overflow(f, k, m);
    let top = (f.top() - 1) as nat;
    lemma_pow2_unfold(f.precision());
    lemma_pow2_split(f.precision() - 1, top as int);
    lemma_decode_packs(f, top, f.lead());
    assert(top * f.lead() + f.lead() == f.infinity_bits()) by (nonlinear_arith)
        requires
            top == f.top() - 1,
            f.infinity_bits() == f.top() * f.lead(),
    ;
}

proof fn lemma_rounded_significand(f: Format, n: nat, d: nat)
    requires
        d > 0,
    ensures
        nearest_even(n, d * pow2(f.shift_of(n / d))) <= pow2(f.precision()),
        f.shift_of(n / d) > 0 ==> f.lead() <= nearest_even(n, d * pow2(f.shift_of(n / d))),
        d * pow2(f.shift_of(n / d)) > 0,
{
    let p = f.precision();
    let q = n / d;
    let k = f.shift_of(q);
    let unit = pow2(k);
    lemma_pow2_pos(k);
    lemma_pow2_pos(p);
    lemma_fundamental_div_mod(n as int, d as int);
    let r = n % d;
    assert(d * unit > 0) by (nonlinear_arith)
        requires
            d > 0,
            unit > 0,
    ;
    if k > 0 {
        lemma_bit_length(q);
        lemma_pow2_split(p as int, k as int);
        lemma_pow2_split(p - 1, k as int);
        assert(f.lead() * (d * unit) <= n <= pow2(p) * (d * unit)) by (nonlinear_arith)
            requires
                n == d * q + r,
                0 <= r < d,
                f.lead() * unit <= q < pow2(p) * unit,
        ;
        lemma_nearest_even_bounds(n, (d * unit) as nat, f.lead(), pow2(p));
    } else {
        lemma2_to64();
        if q > 0 {
            lemma_bit_length(q);
            if bit_length(q) < p {
                lemma_pow2_strictly_increases(bit_length(q), p);
            }
        }
        assert(0 * (d * unit) <= n <= pow2(p) * (d * unit)) by (nonlinear_arith)
            requires
                n == d * q + r,
                0 <= r < d,
                q < pow2(p),
                unit == 1,
        ;
        lemma_nearest_even_bounds(n, (d * unit) as nat, 0, pow2(p));
    }
}

/// A magnitude of the format rounds to itself.
pub proof fn lemma_round_exact(f: Format, bits: nat, d: nat)
    requires
        bits <= f.infinity_bits(),
        d > 0,
    ensures
        f.round(f.decode(bits) * d, d) == f.decode(bits),
{
    let mag = f.decode(bits);
    let (k, m) = lemma_unpack(f, bits);
    lemma_pow2_pos(k);
    lemma_pow2_unfold(f.precision());
    lemma_pow2_pos((f.precision() - 1) as nat);
    lemma_fundamental_div_mod_converse((mag * d) as int, d as int, mag as int, 0);
    assert(f.shift_of(mag) == k) by {
        if k > 0 {
            let p = f.precision();
            lemma_pow2_split(p - 1, k as int);
            lemma_pow2_split(p as int, k as int);
            assert(pow2((p - 1 + k) as nat) <= mag < pow2((p + k) as nat)) by (nonlinear_arith)
                requires
                    mag == m * pow2(k),
                    f.lead() <= m < pow2(p),
                    pow2((p - 1 + k) as nat) == f.lead() * pow2(k),
                    pow2((p + k) as nat) == pow2(p) * pow2(k),
                    pow2(k) > 0,
            ;
            lemma_bit_length_unique(mag, p + k);
        } else {
            lemma2_to64();
            assert(m * 1 == m);
            lemma_bit_length_upper(mag, f.precision());
        }
    }
    assert(mag * d == m * (d * pow2(k)) && d * pow2(k) > 0) by (nonlinear_arith)
        requires
            mag == m * pow2(k),
            d > 0,
            pow2(k) > 0,
    ;
    lemma_nearest_even_exact(m, (d * pow2(k)) as nat);
    lemma_round_packs(f, (mag * d) as nat, d);
    lemma_decode_monotone(f, bits, f.infinity_bits());
}

/// Nothing rounds to nothing.
pub proof fn lemma_round_zero(f: Format, d: nat)
    requires
        d > 0,
    ensures
        f.round(0, d) == 0,
        f.encode(0) == 0,
        f.decode(0) == 0,
{
    lemma_pow2_pos((f.precision() - 1) as nat);
    lemma_pow2_pos(f.precision());
    lemma2_to64();
    lemma_fundamental_div_mod_converse(0, f.lead() as int, 0, 0);
    lemma_encode_packs(f, 0, 0);
    lemma_round_exact(f, 0, d);
    assert(0 * d == 0);
    assert(0 * f.lead() == 0);
    assert(0 * pow2(0) == 0);
}

/// Rounding depends on the ratio alone.
pub proof fn lemma_round_scale(f: Format, n: nat, d: nat, c: nat)
    requires
        d > 0,
        c > 0,
    ensures
        d * c > 0,
        f.round(n * c, d * c) == f.round(n, d),
{
    assert(d * c > 0) by (nonlinear_arith)
        requires
            d > 0,
            c > 0,
    ;
    lemma_div_denominator((n * c) as int, c as int, d as int);
    lemma_div_by_multiple(n as int, c as int);
    assert(c * d == d * c) by (nonlinear_arith);
    assert(n * c / (d * c) == n / d);
    let k = f.shift_of(n / d);
    lemma_pow2_pos(k);
    assert((d * c) * pow2(k) == (d * pow2(k)) * c && d * pow2(k) > 0) by (nonlinear_arith)
        requires
            d > 0,
            pow2(k) > 0,
    ;
    lemma_nearest_even_scale(n, (d * pow2(k)) as nat, c);
}

/// A larger numerator does not round to a smaller magnitude.
pub proof fn lemma_round_monotone(f: Format, n1: nat, n2: nat, d: nat)
    requires
        d > 0,
        n1 <= n2,
    ensures
        f.round(n1, d) <= f.round(n2, d),
{
    lemma_div_is_ordered(n1 as int, n2 as int, d as int);
    lemma_bit_length_monotone(n1 / d, n2 / d);
    let k1 = f.shift_of(n1 / d);
    let k2 = f.shift_of(n2 / d);
    let m1 = nearest_even(n1, d * pow2(k1));
    let m2 = nearest_even(n2, d * pow2(k2));
    lemma_rounded_significand(f, n1, d);
    lemma_rounded_significand(f, n2, d);
    lemma_pow2_pos(k1);
    lemma_pow2_pos(k2);
    if k1 == k2 {
        lemma_nearest_even_monotone(n1, n2, (d * pow2(k1)) as nat);
        assert(m1 * pow2(k1) <= m2 * pow2(k1)) by (nonlinear_arith)
            requires
                m1 <= m2,
                pow2(k1) > 0,
        ;
    } else {
        lemma_pow2_unfold(f.precision());
        lemma_pow2_unfold(k1 + 1);
        if k1 + 1 < k2 {
            lemma_pow2_strictly_increases(k1 + 1, k2);
        }
        assert(m1 * pow2(k1) <= m2 * pow2(k2)) by (nonlinear_arith)
            requires
                m1 <= 2 * f.lead(),
                f.lead() <= m2,
                2 * pow2(k1) <= pow2(k2),
                pow2(k1) > 0,
        ;
    }
}

/// Rounding moves a number below two to the power of `b` by at most half the
/// spacing there.
pub proof fn lemma_round_error(f: Format, n: nat, d: nat, b: nat)
    requires
        d > 0,
        n < d * pow2(b),
        f.precision() <= b < f.precision() + f.top() - 2,
    ensures
        2 * (f.round(n, d) * d) <= 2 * n + d * pow2((b - f.precision()) as nat),
        2 * n <= 2 * (f.round(n, d) * d) + d * pow2((b - f.precision()) as nat),
{
    let whole = n / d;
    lemma_fundamental_div_mod(n as int, d as int);
    assert(whole < pow2(b)) by (nonlinear_arith)
        requires
            n == d * whole + n % d,
            n % d >= 0,
            n < d * pow2(b),
            d > 0,
    ;
    lemma_bit_length_upper(whole, b);
    let k = f.shift_of(whole);
    let top = (b - f.precision()) as nat;
    if k < top {
        lemma_pow2_strictly_increases(k, top);
    }
    lemma_pow2_pos(k);
    let c = d * pow2(k);
    assert(c > 0) by (nonlinear_arith)
        requires
            c == d * pow2(k),
            d > 0,
            pow2(k) > 0,
    ;
    lemma_fundamental_div_mod(n as int, c as int);
    let near = nearest_even(n, c);
    assert(2 * (near * c) <= 2 * n + c && 2 * n <= 2 * (near * c) + c) by (nonlinear_arith)
        requires
            n == c * (n / c) + n % c,
            (near == n / c && 2 * (n % c) <= c) || (near == n / c + 1 && 2 * (n % c) >= c),
            0 <= n % c < c,
            c > 0,
    ;
    let rounded = near * pow2(k);
    assert(rounded * d == near * c) by (nonlinear_arith)
        requires
            rounded == near * pow2(k),
            c == d * pow2(k),
    ;
    assert(c <= d * pow2(top)) by (nonlinear_arith)
        requires
            c == d * pow2(k),
            pow2(k) <= pow2(top),
            d > 0,
    ;
    assert(rounded < f.infinity_magnitude()) by {
        lemma_pow2_strictly_increases(b, (f.precision() + f.top() - 2) as nat);
        lemma_pow2_unfold((b + 1) as nat);
        lemma_pow2_strictly_increases(top, b);
        if b + 1 < f.precision() + f.top() - 2 {
            lemma_pow2_strictly_increases(b + 1, (f.precision() + f.top() - 2) as nat);
        }
        assert(rounded * d < d * (2 * pow2(b))) by (nonlinear_arith)
            requires
                2 * (rounded * d) <= 2 * n + d * pow2(top),
                n < d * pow2(b),
                pow2(top) < pow2(b),
                d > 0,
        ;
        assert(rounded < 2 * pow2(b)) by (nonlinear_arith)
            requires
                rounded * d < d * (2 * pow2(b)),
                d > 0,
        ;
    }
}

/// Two to the power of `e`.
pub fn power_of_two(e: u32) -> (r: u128)
    requires
        e < 128,
    ensures
        r == pow2(e as nat),
        r > 0,
{
    let top: u128 = 0x80000000000000000000000000000000;
    let down: u128 = (127 - e) as u128;
    proof {
        lemma_pow2_doubles_to_128();
        lemma_pow2_pos(e as nat);
        lemma_pow2_pos(down as nat);
        lemma_pow2_adds(e as nat, down as nat);
        lemma_div_by_multiple(pow2(e as nat) as int, pow2(down as nat) as int);
        lemma_u128_shr_is_div(top, down);
    }
    top >> down
}

proof fn lemma_pow2_doubles_to_128()
    ensures
        pow2(127) == 0x80000000000000000000000000000000,
        pow2(128) == 0x100000000000000000000000000000000,
        pow2(52) == 0x10000000000000,
        pow2(53) == 0x20000000000000,
        pow2(23) == 0x800000,
        pow2(24) == 0x1000000,
{
    lemma2_to64();
    lemma2_to64_rest();
    lemma_pow2_adds(64, 63);
    lemma_pow2_adds(64, 64);
}

/// Taking away the last `k` binary digits leaves the others.
proof fn lemma_bit_length_halved(n: nat, k: nat)
    requires
        n >= pow2(k),
    ensures
        bit_length(n) == k + bit_length(n / pow2(k)),
    decreases k,
{
    lemma_pow2_pos(k);
    if k == 0 {
        assert(pow2(0) == 1) by {
            lemma2_to64();
        }
        assert(n / 1 == n);
    } else {
        lemma_pow2_unfold(k);
        let less = (k - 1) as nat;
        lemma_pow2_pos(less);
        assert(n / 2 >= pow2(less));
        lemma_bit_length_halved(n / 2, less);
        lemma_div_denominator(n as int, 2, pow2(less) as int);
    }
}

/// The digits of a word and the zeros before them fill it.
proof fn lemma_leading_zeros(n: u64)
    ensures
        u64_leading_zeros(n) == 64 - bit_length(n as nat),
    decreases n,
{
    reveal(u64_leading_zeros);
    if n > 0 {
        lemma_leading_zeros(n / 2);
    }
}

/// The number of binary digits of `n`.
pub fn length_in_bits(n: u128) -> (b: u32)
    ensures
        b == bit_length(n as nat),
        b <= 128,
{
    proof {
        lemma2_to64();
        lemma_pow2_doubles_to_128();
        lemma_bit_length_upper(n as nat, 128);
    }
    if n >= 0x10000000000000000 {
        let high: u64 = (n / 0x10000000000000000) as u64;
        proof {
            lemma_bit_length_halved(n as nat, 64);
            lemma_leading_zeros(high);
            axiom_u64_leading_zeros(high);
        }
        128 - high.leading_zeros()
    } else {
        let low: u64 = n as u64;
        proof {
            lemma_leading_zeros(low);
            axiom_u64_leading_zeros(low);
        }
        64 - low.leading_zeros()
    }
}

impl Format {
    /// Bits of the significand, the leading one counted.
    pub fn precision_bits(self) -> (p: u32)
        ensures
            p == self.precision(),
    {
        match self {
            Format::Double => 53,
            Format::Single => 24,
        }
    }

    /// The exponent field of infinity.
    pub fn top_field(self) -> (t: u32)
        ensures
            t == self.top(),
    {
        match self {
            Format::Double => 2047,
            Format::Single => 255,
        }
    }

    /// The exponent of the smallest positive number, negated.
    pub fn unit_exponent(self) -> (u: u32)
        ensures
            u == self.unit(),
    {
        match self {
            Format::Double => 1074,
            Format::Single => 149,
        }
    }

    /// Two to the power of the number of stored significand bits.
    pub fn lead_bit(self) -> (l: u64)
        ensures
            l == self.lead(),
            l > 0,
    {
        proof {
            lemma_pow2_doubles_to_128();
        }
        match self {
            Format::Double => 0x10000000000000,
            Format::Single => 0x800000,
        }
    }

    /// The stored form of infinity's magnitude.
    pub fn infinity_pattern(self) -> (bits: u64)
        ensures
            bits == self.infinity_bits(),
    {
        proof {
            lemma_pow2_doubles_to_128();
        }
        match self {
            Format::Double => 0x7ff0000000000000,
            Format::Single => 0x7f800000,
        }
    }

    /// The stored form of the magnitude nearest to `n / d`, which `m`, `e` and
    /// `sticky` bracket.
    pub(crate) fn round_to_bits(
        self,
        m: u128,
        e: i32,
        sticky: bool,
        Ghost(n): Ghost<nat>,
        Ghost(d): Ghost<nat>,
    ) -> (bits: u64)
        requires
            0 < m < pow2(127),
            -4000 <= e <= 3900,
            d > 0,
            brackets(n, d, m as nat, e as int, sticky),
            sticky ==> m >= pow2(self.precision()),
        ensures
            bits == self.encode(self.round(n, d)),
            bits <= self.infinity_bits(),
    {
        let p: i32 = self.precision_bits() as i32;
        let length: i32 = length_in_bits(m) as i32;
        let lead: u64 = self.lead_bit();
        let infinity: u64 = self.infinity_pattern();
        proof {
            lemma_pow2_doubles_to_128();
            lemma_shift_of_quotient(self, n, d, m as nat, e as int, sticky);
            lemma_bit_length(m as nat);
            lemma_bit_length_upper(m as nat, 127);
            lemma_pow2_unfold(self.precision());
            if sticky {
                lemma_bit_length_monotone(pow2(self.precision()), m as nat);
                lemma_pow2_unfold(self.precision() + 1);
                lemma_bit_length_unique(pow2(self.precision()), self.precision() + 1);
            }
        }
        let k: i32 = if length + e > p {
            length + e - p
        } else {
            0
        };
        let significand: u64 = shift_significand(self, m, k - e, sticky);
        proof {
            if k > e {
                lemma_round_at_bit(n, d, m as nat, e as int, sticky, k as nat);
            } else {
                lemma_round_below_unit(n, d, m as nat, e as int, k as nat);
            }
            lemma_significand_range(self, m as nat, k - e, sticky);
            lemma_encode_packs(self, k as nat, significand as nat);
            lemma_overflow(self, k as nat, significand as nat);
        }
        assert(self.round(n, d) == if significand * pow2(k as nat) < self.infinity_magnitude() {
            significand as nat * pow2(k as nat)
        } else {
            self.infinity_magnitude()
        });
        if k >= 4000 {
            proof {
                assert(k * self.lead() + significand >= self.infinity_bits()) by (nonlinear_arith)
                    requires
                        k >= 4000,
                        self.infinity_bits() == self.top() * self.lead(),
                        self.top() <= 2047,
                        self.lead() > 0,
                        significand >= 0,
                ;
            }
            return infinity;
        }
        assert(k * lead <= 4000 * 0x10000000000000) by (nonlinear_arith)
            requires
                0 <= k < 4000,
                0 < lead <= 0x10000000000000,
        ;
        let packed: u64 = k as u64 * lead + significand;
        if packed >= infinity {
            infinity
        } else {
            packed
        }
    }
}

/// The significand `m`, with a sticky fraction behind it, moved down by `s`
/// bits and rounded, or up by `-s` bits.
pub open spec fn shifted(m: nat, s: int, sticky: bool) -> nat {
    if s > 0 {
        drop_bits(m, s as nat, sticky)
    } else {
        m * pow2((-s) as nat)
    }
}

/// Where at most the significand's bits are kept, they fit.
proof fn lemma_significand_range(f: Format, m: nat, s: int, sticky: bool)
    requires
        m > 0,
        bit_length(m) - s <= f.precision(),
    ensures
        shifted(m, s, sticky) <= pow2(f.precision()),
        bit_length(m) - s == f.precision() ==> f.lead() <= shifted(m, s, sticky),
{
    let p = f.precision();
    let length = bit_length(m) as int;
    lemma_bit_length(m);
    lemma_pow2_pos(p);
    if s > 0 {
        let unit = pow2(s as nat);
        lemma_pow2_pos(s as nat);
        lemma_fundamental_div_mod(m as int, unit as int);
        let q = m / unit;
        let r = m % unit;
        if length - s >= 0 {
            lemma_pow2_split(length - s, s);
            assert(q < pow2((length - s) as nat)) by (nonlinear_arith)
                requires
                    m == unit * q + r,
                    0 <= r,
                    m < pow2((length - s) as nat) * unit,
                    unit > 0,
            ;
            if length - s < p {
                lemma_pow2_strictly_increases((length - s) as nat, p);
            } else {
                lemma_pow2_split(length - 1 - s, s);
                assert(q >= pow2((length - 1 - s) as nat)) by (nonlinear_arith)
                    requires
                        m == unit * q + r,
                        r < unit,
                        m >= pow2((length - 1 - s) as nat) * unit,
                        unit > 0,
                ;
            }
        } else {
            lemma_pow2_strictly_increases(length as nat, s as nat);
            lemma_basic_div(m as int, unit as int);
        }
    } else {
        let c = pow2((-s) as nat);
        lemma_pow2_split(length - 1, -s);
        lemma_pow2_split(length, -s);
        assert(m * c < pow2((length - s) as nat)) by (nonlinear_arith)
            requires
                m < pow2(length as nat),
                pow2((length - s) as nat) == pow2(length as nat) * c,
                c > 0,
        ;
        assert(m * c >= pow2((length - 1 - s) as nat)) by (nonlinear_arith)
            requires
                m >= pow2((length - 1) as nat),
                pow2((length - 1 - s) as nat) == pow2((length - 1) as nat) * c,
                c > 0,
        ;
        if length - s < p {
            lemma_pow2_strictly_increases((length - s) as nat, p);
        }
    }
}

fn shift_significand(f: Format, m: u128, s: i32, sticky: bool) -> (r: u64)
    requires
        0 < m < pow2(127),
        -100 <= s,
        bit_length(m as nat) - s <= f.precision(),
    ensures
        r == shifted(m as nat, s as int, sticky),
{
    proof {
        lemma_pow2_doubles_to_128();
        lemma_significand_range(f, m as nat, s as int, sticky);
    }
    if s <= 0 {
        let factor: u128 = power_of_two((-s) as u32);
        return (m * factor) as u64;
    }
    if s >= 128 {
        proof {
            lemma_pow2_unfold(128);
            if s > 128 {
                lemma_pow2_strictly_increases(128, s as nat);
            }
            lemma_basic_div(m as int, pow2(s as nat) as int);
            lemma_small_mod(m as nat, pow2(s as nat));
        }
        return 0;
    }
    let unit: u128 = power_of_two(s as u32);
    let down: u128 = s as u128;
    proof {
        lemma_u128_shr_is_div(m, down);
        lemma_fundamental_div_mod(m as int, unit as int);
        lemma_mod_bound(m as int, unit as int);
        lemma_mul_is_commutative(unit as int, (m / unit) as int);
    }
    let quotient: u128 = m >> down;
    let remainder: u128 = m - quotient * unit;
    let above: u128 = unit - remainder;
    if remainder > above || (remainder == above && (sticky || quotient % 2 == 1)) {
        (quotient + 1) as u64
    } else {
        quotient as u64
    }
}

} // verus!
