//! Square roots, rounded once.
use crate::number;
use crate::number::Number;
use crate::rounding;
use crate::rounding::Format;
use vstd::arithmetic::power2::*;
use vstd::prelude::*;

verus! {

/// `s` is the whole part of the square root of `w`.
pub open spec fn is_whole_root(w: nat, s: nat) -> bool {
    s * s <= w < (s + 1) * (s + 1)
}

/// The whole part of the square root of `w`.
pub open spec fn whole_root(w: nat) -> nat {
    choose|s: nat| is_whole_root(w, s)
}

/// A whole root is the whole root.
pub proof fn lemma_whole_root_unique(w: nat, s: nat)
    requires
        is_whole_root(w, s),
    ensures
        whole_root(w) == s,
{
    let t = whole_root(w);
    assert(is_whole_root(w, t));
    assert(s == t) by (nonlinear_arith)
        requires
            s * s <= w < (s + 1) * (s + 1),
            t * t <= w < (t + 1) * (t + 1),
            s >= 0,
            t >= 0,
    ;
}

/// Every number has a whole root.
pub proof fn lemma_whole_root(w: nat)
    ensures
        is_whole_root(w, whole_root(w)),
    decreases w,
{
    if w == 0 {
        assert(is_whole_root(0, 0)) by (nonlinear_arith);
        lemma_whole_root_unique(0, 0);
    } else {
        let below = (w - 1) as nat;
        lemma_whole_root(below);
        let s = whole_root(below);
        if w < (s + 1) * (s + 1) {
            assert(is_whole_root(w, s));
            lemma_whole_root_unique(w, s);
        } else {
            assert(is_whole_root(w, s + 1)) by (nonlinear_arith)
                requires
                    s * s <= w - 1 < (s + 1) * (s + 1),
                    w >= (s + 1) * (s + 1),
                    s >= 0,
            ;
            lemma_whole_root_unique(w, s + 1);
        }
    }
}

/// The whole part of the square root of a number of at most 126 bits.
fn root_of(w: u128) -> (s: u64)
    requires
        w < pow2(126),
    ensures
        is_whole_root(w as nat, s as nat),
        s < pow2(63),
{
    let mut s: u128 = 0;
    let mut i: u32 = 63;
    proof {
        lemma2_to64();
        lemma2_to64_rest();
        lemma_pow2_adds(63, 63);
        assert((0 + pow2(63)) * (0 + pow2(63)) == pow2(126));
    }
    while i > 0
        invariant
            i <= 63,
            s * s <= w < (s + pow2(i as nat)) * (s + pow2(i as nat)),
            s + pow2(i as nat) <= pow2(63),
            pow2(63) == 0x8000000000000000,
        decreases i,
    {
        let step: u128 = rounding::power_of_two(i - 1);
        proof {
            lemma_pow2_unfold(i as nat);
        }
        let next: u128 = s + step;
        assert(next * next < 0x8000000000000000 * 0x8000000000000000) by (nonlinear_arith)
            requires
                0 <= next < 0x8000000000000000,
        ;
        if next * next <= w {
            s = next;
        }
        i = i - 1;
    }
    proof {
        assert(pow2(0) == 1) by {
            lemma2_to64();
        }
    }
    s as u64
}

/// Doubling the exponent squares the power.
proof fn lemma_pow2_square(h: nat)
    ensures
        pow2(2 * h) == pow2(h) * pow2(h),
        pow2(h) > 0,
{
    lemma_pow2_adds(h, h);
    lemma_pow2_pos(h);
}

proof fn lemma_scaled_square(x: int, c: int)
    ensures
        (x * c) * (x * c) == (x * x) * (c * c),
{
    assert((x * c) * (x * c) == (x * x) * (c * c)) by (nonlinear_arith);
}

proof fn lemma_scale_keeps_order(x: int, y: int, c: int)
    requires
        c > 0,
    ensures
        x <= y ==> x * c <= y * c,
        x < y ==> x * c < y * c,
{
    assert(x <= y ==> x * c <= y * c) by (nonlinear_arith)
        requires
            c > 0,
    ;
    assert(x < y ==> x * c < y * c) by (nonlinear_arith)
        requires
            c > 0,
    ;
}

/// Squares are ordered as their roots are.
proof fn lemma_squares_order(x: int, y: int)
    requires
        x >= 0,
        y >= 0,
    ensures
        x < y <==> x * x < y * y,
{
    assert(x < y ==> x * x < y * y) by (nonlinear_arith)
        requires
            x >= 0,
            y >= 0,
    ;
    assert(x >= y ==> x * x >= y * y) by (nonlinear_arith)
        requires
            x >= 0,
            y >= 0,
    ;
}

/// What the root of a scaled number says of the root of the number itself.
proof fn lemma_scaled_root(a: nat, q: nat, h: nat, w: nat)
    requires
        is_whole_root(a, q),
        w == a * pow2(2 * h),
    ensures
        ({
            let s = whole_root(w);
            let c = pow2(h);
            &&& q * c <= s
            &&& s + 1 <= (q + 1) * c
            &&& q * q == a ==> s == q * c && s * s == w
            &&& q * q < a && s * s == w ==> q * c < s
        }),
{
    let c = pow2(h);
    let s = whole_root(w);
    let square = c * c;
    lemma_pow2_square(h);
    lemma_whole_root(w);
    assert(square > 0) by (nonlinear_arith)
        requires
            square == c * c,
            c > 0,
    ;
    lemma_scaled_square(q as int, c as int);
    lemma_scaled_square((q + 1) as int, c as int);
    lemma_scale_keeps_order((q * q) as int, a as int, square as int);
    lemma_scale_keeps_order(a as int, ((q + 1) * (q + 1)) as int, square as int);
    let low = q * c;
    let high = (q + 1) * c;
    assert(low >= 0 && high >= 0) by (nonlinear_arith)
        requires
            low == q * c,
            high == (q + 1) * c,
            q >= 0,
            c > 0,
    ;
    assert(low * low <= w < high * high);
    lemma_squares_order(low as int, (s + 1) as int);
    lemma_squares_order(s as int, high as int);
    if q * q == a {
        lemma_squares_order(low as int, (low + 1) as int);
        assert(is_whole_root(w, low));
        lemma_whole_root_unique(w, low);
    }
}

/// A rounded root's numerator: the root itself where it is whole, and halfway
/// to the next whole number where it is not. Every number in between rounds
/// alike, since the whole numbers here are finer than the significand.
pub open spec fn root_numerator(w: nat) -> nat {
    let s = whole_root(w);
    if s * s == w {
        2 * s
    } else {
        2 * s + 1
    }
}

/// A larger number has no smaller root.
pub proof fn lemma_root_monotone(a: nat, b: nat)
    requires
        a <= b,
    ensures
        root_numerator(a) <= root_numerator(b),
{
    lemma_whole_root(a);
    lemma_whole_root(b);
    let s = whole_root(a);
    let t = whole_root(b);
    lemma_squares_order(s as int, (t + 1) as int);
}

/// The root of a square.
pub proof fn lemma_root_of_square(s: nat)
    ensures
        root_numerator(s * s) == 2 * s,
{
    lemma_squares_order(s as int, (s + 1) as int);
    assert(is_whole_root(s * s, s));
    lemma_whole_root_unique(s * s, s);
}

/// The root of nothing.
pub proof fn lemma_root_of_zero()
    ensures
        root_numerator(0) == 0,
{
    lemma_root_of_square(0);
}

impl Number {
    /// The square root, rounded once; none below zero.
    pub open spec fn root_spec(self, f: Format) -> Number {
        if self.nan_in(f) || (self.negative && self.bits != 0) {
            Number::nan_spec(f)
        } else if self.infinite_in(f) || self.bits == 0 {
            self
        } else {
            Number::rounded(f, false, root_numerator(self.magnitude(f) * pow2(f.unit())), 2)
        }
    }

    /// The square root, rounded once; none below zero.
    pub fn root(self, f: Format) -> (r: Number)
        requires
            self.valid(f),
        ensures
            r == self.root_spec(f),
            r.valid(f),
    {
        proof {
            number::lemma_constants(f);
        }
        if self.is_nan(f) || (self.negative && self.bits != 0) {
            return Number::nan(f);
        }
        if self.is_infinite(f) || self.bits == 0 {
            return self;
        }
        let (m, e): (u64, u32) = number::unpack(f, self.bits);
        let ghost w = self.magnitude(f) * pow2(f.unit());
        let exponent: u32 = e + f.unit_exponent();
        let length: u32 = rounding::length_in_bits(m as u128);
        proof {
            rounding::lemma_bit_length_upper(m as nat, f.precision());
            rounding::lemma_bit_length(m as nat);
        }
        // Room for the significand, and an even exponent behind it.
        let shift: u32 = if (126 - length) % 2 == exponent % 2 {
            126 - length
        } else {
            125 - length
        };
        let half: u32 = (exponent - shift) / 2;
        let scale: u128 = rounding::power_of_two(shift);
        let ghost b = rounding::bit_length(m as nat);
        proof {
            lemma_pow2_adds(b, shift as nat);
            lemma_pow2_adds((b - 1) as nat, shift as nat);
            if b + shift < 126 {
                lemma_pow2_strictly_increases((b + shift) as nat, 126);
            }
            assert(m * scale < pow2((b + shift) as nat)) by (nonlinear_arith)
                requires
                    m < pow2(b),
                    scale > 0,
                    pow2((b + shift) as nat) == pow2(b) * scale,
            ;
            assert(m * scale >= pow2((b - 1 + shift) as nat)) by (nonlinear_arith)
                requires
                    m >= pow2((b - 1) as nat),
                    scale > 0,
                    pow2((b - 1 + shift) as nat) == pow2((b - 1) as nat) * scale,
            ;
            lemma_pow2_strictly_increases(126, 127);
            lemma_pow2_strictly_increases(123, (b - 1 + shift) as nat);
        }
        let a: u128 = m as u128 * scale;
        let q: u64 = root_of(a);
        proof {
            lemma2_to64();
            lemma2_to64_rest();
            assert(q * q < 0x8000000000000000 * 0x8000000000000000) by (nonlinear_arith)
                requires
                    0 <= q < 0x8000000000000000,
            ;
        }
        let sticky: bool = (q as u128) * (q as u128) != a;
        let ghost n = root_numerator(w);
        proof {
            assert(w == a * pow2(2 * half as nat)) by {
                lemma_pow2_adds(e as nat, f.unit());
                lemma_pow2_adds(shift as nat, 2 * half as nat);
                assert(w == m * pow2(exponent as nat)) by (nonlinear_arith)
                    requires
                        w == (m * pow2(e as nat)) * pow2(f.unit()),
                        pow2(exponent as nat) == pow2(e as nat) * pow2(f.unit()),
                ;
                assert(shift + 2 * half == exponent);
                assert(m * pow2(exponent as nat) == (m * scale) * pow2(2 * half as nat))
                    by (nonlinear_arith)
                    requires
                        pow2(exponent as nat) == scale * pow2(2 * half as nat),
                ;
            }
            let c = pow2(half as nat);
            lemma_pow2_pos(half as nat);
            lemma_scaled_root(a as nat, q as nat, half as nat, w);
            lemma_whole_root(w);
            let s = whole_root(w);
            assert((2 * c) * q == 2 * (q * c)) by (nonlinear_arith);
            assert((2 * c) * (q + 1) == 2 * ((q + 1) * c)) by (nonlinear_arith);
            assert(q as nat * (2 * c) == (2 * c) * q) by (nonlinear_arith);
            assert((q as nat + 1) * (2 * c) == (2 * c) * (q + 1)) by (nonlinear_arith);
            assert(rounding::brackets(n, 2, q as nat, half as int, sticky));
            assert(q >= pow2(53)) by {
                lemma_pow2_adds(61, 62);
                lemma_pow2_strictly_increases(53, 61);
                assert(q >= pow2(61)) by (nonlinear_arith)
                    requires
                        a < (q + 1) * (q + 1),
                        a >= pow2(123),
                        pow2(123) == pow2(61) * pow2(62),
                        pow2(61) == 0x2000000000000000,
                        pow2(62) == 0x4000000000000000,
                        q >= 0,
                ;
            }
            if f.precision() < 53 {
                lemma_pow2_strictly_increases(f.precision(), 53);
            }
            lemma_pow2_strictly_increases(63, 127);
        }
        let bits: u64 = f.round_to_bits(q as u128, half as i32, sticky, Ghost(n), Ghost(2nat));
        Number { negative: false, bits }
    }
}

} // verus!
