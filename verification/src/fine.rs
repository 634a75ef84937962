//! How far single precision strays from exact arithmetic, for numbers of the
//! size of one.
use crate::binary32;
use crate::binary32::Binary32;
use crate::fold;
use crate::number;
use crate::root;
use crate::rounding;
use crate::rounding::Format;
use crate::smooth;
use crate::vector::Vec3;
use vstd::arithmetic::power2::*;
use vstd::prelude::*;

verus! {

/// What single precision rounds away from a number below two, at most: one part
/// of one in two to the twenty-four.
pub open spec fn crumb() -> int {
    pow2(125) as int
}

pub proof fn lemma_crumb()
    ensures
        crumb() >= 0x1000000,
        Binary32::one() == 0x1000000 * crumb(),
        pow2(126) == 2 * crumb(),
        pow2(127) == 4 * crumb(),
        pow2(150) == 2 * Binary32::one(),
        pow2(151) == 4 * Binary32::one(),
{
    lemma2_to64();
    lemma_pow2_strictly_increases(24, 125);
    lemma_pow2_adds(125, 24);
    lemma_pow2_adds(125, 1);
    lemma_pow2_adds(125, 2);
    lemma_pow2_adds(149, 1);
    lemma_pow2_adds(149, 2);
}

/// The first number is within so many crumbs of the second.
pub open spec fn near(x: int, y: int, crumbs: int) -> bool {
    y - crumbs * crumb() <= x <= y + crumbs * crumb()
}

/// A sum below four is off by two crumbs, and one below two by one.
pub proof fn lemma_sum(a: Binary32, b: Binary32)
    requires
        a.is_finite(),
        b.is_finite(),
        -(4 * Binary32::one()) < a.value() + b.value() < 4 * Binary32::one(),
    ensures
        (a + b).is_finite(),
        near((a + b).value(), a.value() + b.value(), 2),
        -(2 * Binary32::one()) < a.value() + b.value() < 2 * Binary32::one() ==> near(
            (a + b).value(),
            a.value() + b.value(),
            1,
        ),
{
    let f = Format::Single;
    lemma_crumb();
    number::lemma_constants(f);
    binary32::lemma_add(a, b);
    let n = number::magnitude_of(a.value() + b.value());
    assert(1 * pow2(151) == pow2(151) && 1 * pow2(150) == pow2(150) && 1 * pow2(127) == pow2(127)
        && 1 * pow2(126) == pow2(126));
    rounding::lemma_round_error(f, n, 1, 151);
    if n < pow2(150) {
        rounding::lemma_round_error(f, n, 1, 150);
    }
    binary32::lemma_of(5);
    binary32::lemma_finite_below(a + b, Binary32::of(5));
}

pub proof fn lemma_difference(a: Binary32, b: Binary32)
    requires
        a.is_finite(),
        b.is_finite(),
        -(4 * Binary32::one()) < a.value() - b.value() < 4 * Binary32::one(),
    ensures
        (a - b).is_finite(),
        near((a - b).value(), a.value() - b.value(), 2),
        -(2 * Binary32::one()) < a.value() - b.value() < 2 * Binary32::one() ==> near(
            (a - b).value(),
            a.value() - b.value(),
            1,
        ),
{
    binary32::lemma_negate(b);
    lemma_sum(a, b.negate());
    assert(a - b == a + b.negate());
}

/// A product below four of numbers that are not negative is off by two crumbs,
/// and one below two by one.
pub proof fn lemma_product(a: Binary32, b: Binary32)
    requires
        a.is_finite(),
        b.is_finite(),
        0 <= a.value(),
        0 <= b.value(),
        a.value() * b.value() < 4 * (Binary32::one() * Binary32::one()),
    ensures
        (a * b).is_finite(),
        (a * b).value() >= 0,
        -(2 * (crumb() * Binary32::one())) <= (a * b).value() * Binary32::one() - a.value()
            * b.value() <= 2 * (crumb() * Binary32::one()),
        a.value() * b.value() < 2 * (Binary32::one() * Binary32::one()) ==> -(crumb()
            * Binary32::one()) <= (a * b).value() * Binary32::one() - a.value() * b.value()
            <= crumb() * Binary32::one(),
{
    let f = Format::Single;
    let o = Binary32::one() as int;
    let c = crumb();
    let (x, y) = (a.value(), b.value());
    lemma_crumb();
    number::lemma_constants(f);
    binary32::lemma_mul(a, b);
    assert(0 <= x * y) by (nonlinear_arith)
        requires
            0 <= x,
            0 <= y,
    ;
    assert(o * pow2(151) == 4 * (o * o) && o * pow2(150) == 2 * (o * o) && o * pow2(127) == 4 * (c
        * o) && o * pow2(126) == 2 * (c * o)) by (nonlinear_arith)
        requires
            pow2(151) == 4 * o,
            pow2(150) == 2 * o,
            pow2(127) == 4 * c,
            pow2(126) == 2 * c,
    ;
    rounding::lemma_round_error(f, (x * y) as nat, o as nat, 151);
    if x * y < 2 * (o * o) {
        rounding::lemma_round_error(f, (x * y) as nat, o as nat, 150);
    }
    let r = (a * b).value();
    assert(r <= 5 * o) by (nonlinear_arith)
        requires
            r * o <= x * y + 2 * (c * o),
            x * y < 4 * (o * o),
            2 * c <= o,
            o > 0,
    ;
    binary32::lemma_of(5);
    binary32::lemma_finite_below(a * b, Binary32::of(5));
}

/// Doubling a share of one is exact.
pub proof fn lemma_double(t: Binary32)
    requires
        t.is_finite(),
        0 <= t.value() <= Binary32::one(),
    ensures
        (Binary32::of(2) * t).is_finite(),
        (Binary32::of(2) * t).value() == 2 * t.value(),
{
    let f = Format::Single;
    let o = Binary32::one();
    let x = t.value();
    number::lemma_constants(f);
    lemma_crumb();
    binary32::lemma_of(2);
    binary32::lemma_mul(Binary32::of(2), t);
    let (k, m) = rounding::lemma_unpack(f, t.number().bits as nat);
    lemma_pow2_adds(k, 1);
    lemma2_to64();
    assert(m * pow2(k + 1) == 2 * x) by (nonlinear_arith)
        requires
            x == m * pow2(k),
            pow2(k + 1) == pow2(k) * 2,
    ;
    lemma_pow2_strictly_increases(150, 277);
    fold::lemma_on_scale(f, m, k + 1);
    rounding::lemma_round_scale(f, (2 * x) as nat, 1, o);
    assert(1 * o == o);
    assert((2 * o) * x == (2 * x) * o) by (nonlinear_arith);
    assert((2 * x) * o >= 0) by (nonlinear_arith)
        requires
            x >= 0,
            o > 0,
    ;
    binary32::lemma_finite_below(Binary32::of(2) * t, Binary32::of(2));
}

/// The smooth curve, without rounding, in counts times one squared.
pub open spec fn exact_curve(x: int) -> int {
    x * x * (3 * Binary32::one() - 2 * x)
}

/// The curve in single precision is off by seven crumbs at most.
pub proof fn lemma_curve(t: Binary32)
    requires
        t.is_finite(),
        0 <= t.value() <= Binary32::one(),
    ensures
        ({
            let unit = Binary32::one() * Binary32::one();
            exact_curve(t.value()) - 7 * crumb() * unit <= smooth::smooth32(t).value() * unit
                <= exact_curve(t.value()) + 7 * crumb() * unit
        }),
{
    let o = Binary32::one() as int;
    let c = crumb();
    let x = t.value();
    lemma_crumb();
    binary32::lemma_of(3);
    let square = t * t;
    let twice = Binary32::of(2) * t;
    assert(x * x <= o * o && o * o > 0) by (nonlinear_arith)
        requires
            0 <= x <= o,
            o > 0,
    ;
    lemma_product(t, t);
    lemma_double(t);
    let q = square.value();
    lemma_difference(Binary32::of(3), twice);
    let rest = Binary32::of(3) - twice;
    let r = rest.value();
    lemma_turned_curve(o, c, x, q, r);
    lemma_product(square, rest);
    lemma_curve_count(o, c, x, q, r, (square * rest).value());
}

/// The last product stays below two.
proof fn lemma_turned_curve(o: int, c: int, x: int, q: int, r: int)
    requires
        o == 0x1000000 * c,
        c > 0,
        0 <= x <= o,
        q >= 0,
        -(c * o) <= q * o - x * x <= c * o,
        -(2 * c) <= r - (3 * o - 2 * x) <= 2 * c,
    ensures
        r >= 0,
        q * r < 2 * (o * o),
{
    let line = 3 * o - 2 * x;
    // The exact curve is at most one.
    assert(x * x * line <= o * (o * o)) by (nonlinear_arith)
        requires
            0 <= x <= o,
            line == 3 * o - 2 * x,
    {
        let y = o - x;
        assert(o * (o * o) - x * x * line == y * y * (o + 2 * x)) by (nonlinear_arith)
            requires
                y == o - x,
                line == 3 * o - 2 * x,
        ;
        assert(y * y * (o + 2 * x) >= 0) by (nonlinear_arith)
            requires
                0 <= x,
                0 <= o,
        ;
    }
    let p = q * o;
    assert(x * x <= o * o && p >= 0) by (nonlinear_arith)
        requires
            0 <= x <= o,
            p == q * o,
            q >= 0,
    ;
    assert(p * r <= x * x * line + 7 * (c * (o * o))) by (nonlinear_arith)
        requires
            0 <= p <= x * x + c * o,
            0 <= r <= line + 2 * c,
            0 <= x <= o,
            0 <= line <= 3 * o,
            0 < c <= o,
            x * x <= o * o,
    ;
    assert(p * r == o * (q * r)) by (nonlinear_arith)
        requires
            p == q * o,
    ;
    assert(q * r < 2 * (o * o)) by (nonlinear_arith)
        requires
            o * (q * r) <= o * (o * o) + 7 * (c * (o * o)),
            o == 0x1000000 * c,
            c > 0,
    ;
}

/// The errors of the three steps add up to seven crumbs at most.
proof fn lemma_curve_count(o: int, c: int, x: int, q: int, r: int, p: int)
    requires
        o == 0x1000000 * c,
        c > 0,
        0 <= x <= o,
        -(c * o) <= q * o - x * x <= c * o,
        -(2 * c) <= r - (3 * o - 2 * x) <= 2 * c,
        -(c * o) <= p * o - q * r <= c * o,
    ensures
        x * x * (3 * o - 2 * x) - 7 * c * (o * o) <= p * (o * o) <= x * x * (3 * o - 2 * x) + 7 * c
            * (o * o),
{
    let line = 3 * o - 2 * x;
    let s = x * x;
    let (d, e, g) = (q * o - s, r - line, p * o - q * r);
    assert(0 <= s <= o * o && 0 <= line <= 3 * o && 0 <= r) by (nonlinear_arith)
        requires
            s == x * x,
            0 <= x <= o,
            line == 3 * o - 2 * x,
            r >= line - 2 * c,
            o == 0x1000000 * c,
            c > 0,
    ;
    assert(p * (o * o) == (p * o) * o && (q * r + g) * o == (q * o) * r + g * o) by (nonlinear_arith);
    assert((s + d) * r == s * r + d * r && s * (line + e) == s * line + s * e) by (nonlinear_arith);
    assert(p * (o * o) == s * line + s * e + d * r + g * o);
    let t = c * (o * o);
    assert(-(2 * t) <= s * e <= 2 * t) by (nonlinear_arith)
        requires
            0 <= s <= o * o,
            -(2 * c) <= e <= 2 * c,
            t == c * (o * o),
            c > 0,
    ;
    let top = 3 * o + 2 * c;
    assert(-(c * o * top) <= d * r <= c * o * top) by (nonlinear_arith)
        requires
            0 <= r <= top,
            -(c * o) <= d <= c * o,
            c > 0,
            o > 0,
    ;
    assert(-t <= g * o <= t) by (nonlinear_arith)
        requires
            -(c * o) <= g <= c * o,
            t == c * (o * o),
            o > 0,
    ;
    assert(c * o * top <= 4 * t) by (nonlinear_arith)
        requires
            top == 3 * o + 2 * c,
            t == c * (o * o),
            2 * c <= o,
            0 < c,
            0 < o,
    ;
    assert(7 * c * (o * o) == 7 * t) by (nonlinear_arith)
        requires
            t == c * (o * o),
    ;
}

/// The curve rises, and nowhere faster than one and a half.
pub proof fn lemma_curves(k: int, x1: int, x2: int)
    requires
        0 <= x1 <= Binary32::one(),
        0 <= x2 <= Binary32::one(),
        0 <= k,
        x1 <= x2 + k,
    ensures
        2 * exact_curve(x1) <= 2 * exact_curve(x2) + 3 * k * (Binary32::one() * Binary32::one()),
{
    let o = Binary32::one() as int;
    let a = x1 + x2;
    let g = 3 * o * a - 2 * (x1 * x1 + x1 * x2 + x2 * x2);
    let (s1, s2) = (x1 * x1 * (3 * o - 2 * x1), x2 * x2 * (3 * o - 2 * x2));
    assert(s1 - s2 == (x1 - x2) * g) by (nonlinear_arith)
        requires
            s1 == x1 * x1 * (3 * o - 2 * x1),
            s2 == x2 * x2 * (3 * o - 2 * x2),
            g == 3 * o * a - 2 * (x1 * x1 + x1 * x2 + x2 * x2),
            a == x1 + x2,
    ;
    assert(g >= 0) by {
        assert(x1 * x1 <= o * x1 && x2 * x2 <= o * x2 && x1 * x2 <= o * x1 && x1 * x2 <= o * x2)
            by (nonlinear_arith)
            requires
                0 <= x1 <= o,
                0 <= x2 <= o,
        ;
        assert(3 * o * a == 3 * (o * x1) + 3 * (o * x2)) by (nonlinear_arith)
            requires
                a == x1 + x2,
        ;
    }
    assert(3 * (o * o) - 2 * g == 3 * ((o - a) * (o - a)) + (x1 - x2) * (x1 - x2))
        by (nonlinear_arith)
        requires
            g == 3 * o * a - 2 * (x1 * x1 + x1 * x2 + x2 * x2),
            a == x1 + x2,
    ;
    assert((o - a) * (o - a) >= 0 && (x1 - x2) * (x1 - x2) >= 0) by (nonlinear_arith);
    assert(2 * ((x1 - x2) * g) <= 3 * k * (o * o)) by (nonlinear_arith)
        requires
            x1 - x2 <= k,
            0 <= k,
            0 <= g,
            2 * g <= 3 * (o * o),
    ;
}

/// Where a share is no more than another but for `k`, the curve over it is no
/// higher but for one and a half times that and fourteen crumbs.
pub proof fn lemma_curve_rises(t1: Binary32, t2: Binary32, k: int)
    requires
        t1.is_finite(),
        t2.is_finite(),
        0 <= t1.value() <= Binary32::one(),
        0 <= t2.value() <= Binary32::one(),
        0 <= k,
        t1.value() <= t2.value() + k,
    ensures
        2 * smooth::smooth32(t1).value() <= 2 * smooth::smooth32(t2).value() + 3 * k + 28 * crumb(),
{
    let unit = (Binary32::one() * Binary32::one()) as int;
    let c = crumb();
    lemma_crumb();
    lemma_curve(t1);
    lemma_curve(t2);
    lemma_curves(k, t1.value(), t2.value());
    let (p1, p2) = (smooth::smooth32(t1).value(), smooth::smooth32(t2).value());
    let (s1, s2) = (exact_curve(t1.value()), exact_curve(t2.value()));
    assert(unit > 0) by (nonlinear_arith)
        requires
            unit == Binary32::one() * Binary32::one(),
            Binary32::one() > 0,
    ;
    assert(2 * p1 <= 2 * p2 + 3 * k + 28 * c) by (nonlinear_arith)
        requires
            p1 * unit <= s1 + 7 * c * unit,
            s2 - 7 * c * unit <= p2 * unit,
            2 * s1 <= 2 * s2 + 3 * k * unit,
            unit > 0,
    ;
}

/// The square of a vector's length, without rounding, in counts.
pub open spec fn length_squared(v: Vec3) -> int {
    v.x.value() * v.x.value() + v.y.value() * v.y.value() + v.z.value() * v.z.value()
}

/// What the root of a finite number above zero counts as.
proof fn lemma_sqrt(a: Binary32)
    requires
        a.is_finite(),
        a.value() > 0,
    ensures
        !a.sqrt().is_nan(),
        a.sqrt().value() == Format::Single.round(
            root::root_numerator((a.value() * Binary32::one()) as nat),
            2,
        ),
{
    reveal(Binary32::spec_sqrt);
    reveal(Binary32::spec_is_nan);
    reveal(Binary32::spec_is_finite);
    let f = Format::Single;
    number::lemma_constants(f);
    lemma_crumb();
    let w = (a.value() * Binary32::one()) as nat;
    assert(a.value() * Binary32::one() >= 0) by (nonlinear_arith)
        requires
            a.value() >= 0,
            Binary32::one() >= 0,
    ;
    number::lemma_rounded(f, false, root::root_numerator(w), 2);
    rounding::lemma_decode_packs(f, 0, 0);
}

/// A root below two is off by a crumb.
proof fn lemma_root(a: Binary32)
    requires
        a.is_finite(),
        0 < a.value() < 3 * Binary32::one(),
    ensures
        ({
            let (r, w) = (a.sqrt().value(), a.value() * Binary32::one());
            &&& !a.sqrt().is_nan()
            &&& r >= 0
            &&& r * r - w <= 2 * (r * (crumb() + 1))
            &&& w - r * r <= 2 * (r * (crumb() + 1)) + (crumb() + 1) * (crumb() + 1)
        }),
{
    let f = Format::Single;
    let o = Binary32::one() as int;
    let e = crumb() + 1;
    lemma_crumb();
    lemma_sqrt(a);
    let w = a.value() * o;
    assert(0 < w < 3 * (o * o)) by (nonlinear_arith)
        requires
            0 < a.value() < 3 * o,
            w == a.value() * o,
            o > 0,
    ;
    let s = root::whole_root(w as nat) as int;
    root::lemma_whole_root(w as nat);
    let n = root::root_numerator(w as nat);
    assert(s < 2 * o) by (nonlinear_arith)
        requires
            s * s <= w,
            w < 3 * (o * o),
            s >= 0,
            o > 0,
    ;
    number::lemma_constants(f);
    rounding::lemma_round_error(f, n, 2, 150);
    let r = a.sqrt().value();
    assert(s - crumb() <= r <= s + e);
    assert(r * r - w <= 2 * (r * e)) by (nonlinear_arith)
        requires
            r <= s + e,
            0 <= s,
            0 <= r,
            0 <= e,
            s * s <= w,
    {
        if r >= e {
            let q = r - e;
            assert(q * q <= s * s) by (nonlinear_arith)
                requires
                    0 <= q <= s,
            ;
            assert(r * r == q * q + 2 * (r * e) - e * e) by (nonlinear_arith)
                requires
                    q == r - e,
            ;
            assert(e * e >= 0) by (nonlinear_arith);
        } else {
            assert(r * r <= r * e) by (nonlinear_arith)
                requires
                    0 <= r <= e,
            ;
            assert(s * s >= 0) by (nonlinear_arith);
            assert(r * e >= 0) by (nonlinear_arith)
                requires
                    r >= 0,
                    e >= 0,
            ;
        }
    }
    assert(w - r * r <= 2 * (r * e) + e * e) by (nonlinear_arith)
        requires
            s + 1 <= r + e,
            0 <= s,
            w < (s + 1) * (s + 1),
    {
        let (p, q) = (s + 1, r + e);
        assert(p * p <= q * q) by (nonlinear_arith)
            requires
                0 <= p <= q,
        ;
        assert(q * q == r * r + 2 * (r * e) + e * e) by (nonlinear_arith)
            requires
                q == r + e,
        ;
    }
}

/// A product below two in size, of any signs, is off by a crumb.
proof fn lemma_signed_product(a: Binary32, b: Binary32)
    requires
        a.is_finite(),
        b.is_finite(),
        -(2 * (Binary32::one() * Binary32::one())) < a.value() * b.value() < 2 * (Binary32::one()
            * Binary32::one()),
    ensures
        (a * b).is_finite(),
        -(crumb() * Binary32::one()) <= (a * b).value() * Binary32::one() - a.value() * b.value()
            <= crumb() * Binary32::one(),
{
    let f = Format::Single;
    let o = Binary32::one() as int;
    let c = crumb();
    let p = a.value() * b.value();
    lemma_crumb();
    number::lemma_constants(f);
    binary32::lemma_mul(a, b);
    assert(o * pow2(150) == 2 * (o * o) && o * pow2(126) == 2 * (c * o)) by (nonlinear_arith)
        requires
            pow2(150) == 2 * o,
            pow2(126) == 2 * c,
    ;
    let n = number::magnitude_of(p);
    rounding::lemma_round_error(f, n, o as nat, 150);
    let r = (a * b).value();
    let m = f.round(n, o as nat) as int;
    assert((-m) * o == -(m * o)) by (nonlinear_arith);
    assert(m <= 5 * o) by (nonlinear_arith)
        requires
            m * o <= n + c * o,
            n < 2 * (o * o),
            c <= o,
            o > 0,
    ;
    binary32::lemma_of(5);
    binary32::lemma_finite_below(a * b, Binary32::of(5));
}

/// The length of a vector of nearly length one.
proof fn lemma_length(v: Vec3)
    requires
        v.is_finite(),
        63 * (Binary32::one() * Binary32::one()) <= 64 * length_squared(v),
        64 * length_squared(v) <= 65 * (Binary32::one() * Binary32::one()),
    ensures
        ({
            let o = Binary32::one() as int;
            let s = v.dot(v);
            &&& s.is_finite()
            &&& -(7 * (crumb() * o)) <= s.value() * o - length_squared(v) <= 7 * (crumb() * o)
            &&& 0 < s.value() < 3 * o
            &&& 64 * number::magnitude_of(v.x.value()) <= 65 * o
            &&& 64 * number::magnitude_of(v.y.value()) <= 65 * o
            &&& 64 * number::magnitude_of(v.z.value()) <= 65 * o
        }),
{
    let o = Binary32::one() as int;
    let c = crumb();
    lemma_crumb();
    let (x, y, z) = (v.x.value(), v.y.value(), v.z.value());
    let l = length_squared(v);
    assert(x * x >= 0 && y * y >= 0 && z * z >= 0 && o * o > 0) by (nonlinear_arith)
        requires
            o > 0,
    ;
    lemma_part(x, o);
    lemma_part(y, o);
    lemma_part(z, o);
    lemma_signed_product(v.x, v.x);
    lemma_signed_product(v.y, v.y);
    lemma_signed_product(v.z, v.z);
    let (a, b, d) = ((v.x * v.x).value(), (v.y * v.y).value(), (v.z * v.z).value());
    lemma_share_count(o, c, a, x * x);
    lemma_share_count(o, c, b, y * y);
    lemma_share_count(o, c, d, z * z);
    assert((a + b) * o == a * o + b * o) by (nonlinear_arith);
    assert(a + b < 3 * o) by (nonlinear_arith)
        requires
            (a + b) * o <= x * x + y * y + 2 * (c * o),
            64 * (x * x + y * y) <= 65 * (o * o),
            64 * c <= o,
            o > 0,
    ;
    lemma_sum(v.x * v.x, v.y * v.y);
    let p = (v.x * v.x + v.y * v.y).value();
    assert(p + d < 4 * o) by (nonlinear_arith)
        requires
            p <= a + b + 2 * c,
            (a + b) * o <= x * x + y * y + 2 * (c * o),
            d * o <= z * z + c * o,
            64 * (x * x + y * y + z * z) <= 65 * (o * o),
            64 * c <= o,
            o > 0,
    ;
    lemma_sum(v.x * v.x + v.y * v.y, v.z * v.z);
    let s = v.dot(v).value();
    assert(-(4 * c) <= s - (a + b + d) <= 4 * c);
    assert((a + b + d) * o == a * o + b * o + d * o) by (nonlinear_arith);
    assert(s * o - (a + b + d) * o <= 4 * (c * o) && (a + b + d) * o - s * o <= 4 * (c * o))
        by (nonlinear_arith)
        requires
            -(4 * c) <= s - (a + b + d) <= 4 * c,
            o > 0,
    ;
    assert(0 < s < 3 * o) by (nonlinear_arith)
        requires
            s * o <= l + 7 * (c * o),
            l - 7 * (c * o) <= s * o,
            63 * (o * o) <= 64 * l,
            64 * l <= 65 * (o * o),
            64 * c <= o,
            o > 0,
    ;
}

proof fn lemma_part(x: int, o: int)
    requires
        64 * (x * x) <= 65 * (o * o),
        o > 0,
    ensures
        64 * number::magnitude_of(x) <= 65 * o,
        -(2 * (o * o)) < x * x < 2 * (o * o),
{
    let m = number::magnitude_of(x) as int;
    assert(m * m == x * x && o * o > 0 && x * x >= 0) by (nonlinear_arith)
        requires
            m == x || m == -x,
            o > 0,
    ;
    if 64 * m > 65 * o {
        assert(4096 * (m * m) > 4225 * (o * o)) by (nonlinear_arith)
            requires
                64 * m > 65 * o,
                o > 0,
        ;
    }
}

proof fn lemma_share_count(o: int, c: int, a: int, x: int)
    requires
        o > 0,
        0 < 64 * c <= o,
        x >= 0,
        64 * x <= 65 * (o * o),
        -(c * o) <= a * o - x <= c * o,
    ensures
        -o < a < 2 * o,
{
    assert(-o < a < 2 * o) by (nonlinear_arith)
        requires
            o > 0,
            0 < 64 * c <= o,
            x >= 0,
            64 * x <= 65 * (o * o),
            -(c * o) <= a * o - x <= c * o,
    ;
}

/// A direction in single precision brought to length one has that length, but
/// for rounding: the square of it is off by one part in two to the nineteen at
/// most, where it was within one part in sixty-four before.
pub proof fn a_normalised_single_direction_has_length_one(v: Vec3)
    requires
        v.is_finite(),
        63 * (Binary32::one() * Binary32::one()) <= 64 * length_squared(v),
        64 * length_squared(v) <= 65 * (Binary32::one() * Binary32::one()),
    ensures
        v.normalized().is_finite(),
        ({
            let unit = Binary32::one() * Binary32::one();
            -unit <= (length_squared(v.normalized()) - unit) * 0x80000 <= unit
        }),
{
    let f = Format::Single;
    let o = Binary32::one() as int;
    let c = crumb();
    let l = length_squared(v);
    lemma_crumb();
    lemma_length(v);
    let s = v.dot(v);
    lemma_root(s);
    let length = v.length();
    let r = length.value();
    lemma_root_size(o, c, l, s.value(), r);
    binary32::lemma_of(2);
    binary32::lemma_finite_below(length, Binary32::of(2));
    binary32::lemma_of(1);
    let k = Binary32::of(1) / length;
    binary32::lemma_div(Binary32::of(1), length);
    number::lemma_constants(f);
    assert(0 < o * o < r * pow2(150) && r * pow2(126) == 2 * (c * r)) by (nonlinear_arith)
        requires
            9 * o <= 10 * r,
            pow2(150) == 2 * o,
            pow2(126) == 2 * c,
            o > 0,
    ;
    rounding::lemma_round_error(f, (o * o) as nat, r as nat, 150);
    let q = k.value();
    assert(-(c * r) <= q * r - o * o <= c * r);
    assert(0 <= 10 * q <= 12 * o) by (nonlinear_arith)
        requires
            0 <= q,
            q * r - o * o <= c * r,
            9 * o <= 10 * r,
            64 * c <= o,
            o > 0,
    ;
    binary32::lemma_finite_below(k, Binary32::of(2));
    let (x, y, z) = (v.x.value(), v.y.value(), v.z.value());
    lemma_scaled(v.x, k);
    lemma_scaled(v.y, k);
    lemma_scaled(v.z, k);
    let n = v.normalized();
    lemma_whole(o, c, l, s.value(), r, q);
    lemma_square_count(o, c, x, q, n.x.value());
    lemma_square_count(o, c, y, q, n.y.value());
    lemma_square_count(o, c, z, q, n.z.value());
    let t = c * (o * (o * o));
    let (a, b, d) = (n.x.value(), n.y.value(), n.z.value());
    let g = length_squared(n);
    assert((o * o) * g == (o * o) * (a * a) + (o * o) * (b * b) + (o * o) * (d * d))
        by (nonlinear_arith)
        requires
            g == a * a + b * b + d * d,
    ;
    assert((q * q) * l == (q * q) * (x * x) + (q * q) * (y * y) + (q * q) * (z * z))
        by (nonlinear_arith)
        requires
            l == x * x + y * y + z * z,
    ;
    let unit = o * o;
    assert(-(32 * t) <= unit * g - unit * unit <= 32 * t);
    assert(t * 0x80000 * 32 == unit * unit) by (nonlinear_arith)
        requires
            t == c * (o * (o * o)),
            unit == o * o,
            o == 0x1000000 * c,
    ;
    assert(unit > 0) by (nonlinear_arith)
        requires
            unit == o * o,
            o > 0,
    ;
    let off = g - unit;
    assert(unit * off == unit * g - unit * unit) by (nonlinear_arith)
        requires
            off == g - unit,
    ;
    assert(-unit <= off * 0x80000 <= unit) by (nonlinear_arith)
        requires
            -(32 * t) <= unit * off <= 32 * t,
            t * 0x80000 * 32 == unit * unit,
            unit > 0,
    ;
}

proof fn lemma_root_size(o: int, c: int, l: int, s: int, r: int)
    requires
        o == 0x1000000 * c,
        c > 0,
        r >= 0,
        63 * (o * o) <= 64 * l,
        64 * l <= 65 * (o * o),
        -(7 * (c * o)) <= s * o - l <= 7 * (c * o),
        r * r - s * o <= 2 * (r * (c + 1)),
        s * o - r * r <= 2 * (r * (c + 1)) + (c + 1) * (c + 1),
    ensures
        9 * o <= 10 * r,
        10 * r <= 11 * o,
{
    let w = s * o;
    assert(60 * (o * o) <= 64 * w && 64 * w <= 66 * (o * o)) by (nonlinear_arith)
        requires
            63 * (o * o) <= 64 * l,
            64 * l <= 65 * (o * o),
            -(7 * (c * o)) <= w - l <= 7 * (c * o),
            o == 0x1000000 * c,
            c > 0,
    ;
    let e = c + 1;
    if 10 * r < 9 * o {
        assert(false) by (nonlinear_arith)
            requires
                10 * r < 9 * o,
                r >= 0,
                60 * (o * o) <= 64 * w,
                w - r * r <= 2 * (r * e) + e * e,
                0 < e,
                0x1000 * e <= o,
        ;
    }
    if 10 * r > 11 * o {
        assert(false) by (nonlinear_arith)
            requires
                10 * r > 11 * o,
                64 * w <= 66 * (o * o),
                r * r - w <= 2 * (r * e),
                0 < e,
                0x1000 * e <= o,
        ;
    }
}

proof fn lemma_scaled(x: Binary32, k: Binary32)
    requires
        x.is_finite(),
        k.is_finite(),
        64 * number::magnitude_of(x.value()) <= 65 * Binary32::one(),
        0 <= 10 * k.value() <= 12 * Binary32::one(),
    ensures
        (x * k).is_finite(),
        -(crumb() * Binary32::one()) <= (x * k).value() * Binary32::one() - x.value() * k.value()
            <= crumb() * Binary32::one(),
{
    let o = Binary32::one() as int;
    let (a, b) = (x.value(), k.value());
    lemma_crumb();
    assert(-(2 * (o * o)) < a * b < 2 * (o * o)) by (nonlinear_arith)
        requires
            -(65 * o) <= 64 * a <= 65 * o,
            0 <= 10 * b <= 12 * o,
            o > 0,
    ;
    lemma_signed_product(x, k);
}

/// The length of the whole after it was scaled.
proof fn lemma_whole(o: int, c: int, l: int, s: int, r: int, q: int)
    requires
        o == 0x1000000 * c,
        c >= 0x1000000,
        9 * o <= 10 * r,
        10 * r <= 11 * o,
        0 <= 10 * q <= 12 * o,
        -(c * r) <= q * r - o * o <= c * r,
        -(7 * (c * o)) <= s * o - l <= 7 * (c * o),
        r * r - s * o <= 2 * (r * (c + 1)),
        s * o - r * r <= 2 * (r * (c + 1)) + (c + 1) * (c + 1),
    ensures
        -(21 * (c * (o * (o * o)))) <= (q * q) * l - (o * o) * (o * o) <= 21 * (c * (o * (o * o))),
{
    let t = c * (o * (o * o));
    let w = s * o;
    let g = q * q;
    assert(0 <= 100 * g <= 144 * (o * o)) by (nonlinear_arith)
        requires
            g == q * q,
            0 <= 10 * q <= 12 * o,
    ;
    assert(-(11 * t) <= g * (l - w) <= 11 * t) by (nonlinear_arith)
        requires
            0 <= 100 * g <= 144 * (o * o),
            -(7 * (c * o)) <= l - w <= 7 * (c * o),
            t == c * (o * (o * o)),
            c > 0,
            o > 0,
    ;
    let e = 3 * (c * o);
    assert(-e <= w - r * r <= e) by (nonlinear_arith)
        requires
            e == 3 * (c * o),
            r * r - w <= 2 * (r * (c + 1)),
            w - r * r <= 2 * (r * (c + 1)) + (c + 1) * (c + 1),
            9 * o <= 10 * r,
            10 * r <= 11 * o,
            o == 0x1000000 * c,
            c >= 0x1000000,
    ;
    assert(-(5 * t) <= g * (w - r * r) <= 5 * t) by (nonlinear_arith)
        requires
            0 <= 100 * g <= 144 * (o * o),
            -e <= w - r * r <= e,
            e == 3 * (c * o),
            t == c * (o * (o * o)),
            c > 0,
            o > 0,
    ;
    let p = q * r;
    let unit = o * o;
    assert(-(2 * (c * o)) <= p - unit <= 2 * (c * o)) by (nonlinear_arith)
        requires
            -(c * r) <= p - unit <= c * r,
            10 * r <= 11 * o,
            c > 0,
            o > 0,
    ;
    assert(p * p - unit * unit == (p - unit) * (p + unit)) by (nonlinear_arith);
    assert(-(4 * t) <= 2 * ((p - unit) * unit) <= 4 * t) by (nonlinear_arith)
        requires
            -(2 * (c * o)) <= p - unit <= 2 * (c * o),
            unit == o * o,
            t == c * (o * (o * o)),
            o > 0,
    ;
    let d = p - unit;
    assert(p + unit == 2 * unit + d);
    assert(d * (2 * unit + d) == 2 * (d * unit) + d * d) by (nonlinear_arith);
    assert(0 <= d * d <= 4 * ((c * o) * (c * o))) by (nonlinear_arith)
        requires
            -(2 * (c * o)) <= d <= 2 * (c * o),
    ;
    assert(4 * ((c * o) * (c * o)) <= t) by (nonlinear_arith)
        requires
            t == c * (o * (o * o)),
            4 * c <= o,
            c > 0,
            o > 0,
    ;
    assert(g * (r * r) == p * p) by (nonlinear_arith)
        requires
            g == q * q,
            p == q * r,
    ;
    assert(g * l == g * (l - w) + g * (w - r * r) + g * (r * r)) by (nonlinear_arith);
}

/// The square of a scaled number.
proof fn lemma_square_count(o: int, c: int, x: int, q: int, n: int)
    requires
        o == 0x1000000 * c,
        c > 0,
        -(65 * o) <= 64 * x <= 65 * o,
        0 <= 10 * q <= 12 * o,
        -(c * o) <= n * o - x * q <= c * o,
    ensures
        -(3 * (c * (o * (o * o)))) <= (o * o) * (n * n) - (q * q) * (x * x) <= 3 * (c * (o * (o
            * o))),
{
    let p = x * q;
    let d = n * o - p;
    let t = c * (o * (o * o));
    assert((o * o) * (n * n) == (n * o) * (n * o) && (q * q) * (x * x) == p * p) by (nonlinear_arith)
        requires
            p == x * q,
    ;
    assert((p + d) * (p + d) == p * p + 2 * (p * d) + d * d) by (nonlinear_arith);
    assert(-(13 * (o * o)) <= 10 * p <= 13 * (o * o)) by (nonlinear_arith)
        requires
            -(65 * o) <= 64 * x <= 65 * o,
            0 <= 10 * q <= 12 * o,
            p == x * q,
            o > 0,
    ;
    assert(-(26 * t) <= 20 * (p * d) <= 26 * t) by (nonlinear_arith)
        requires
            -(13 * (o * o)) <= 10 * p <= 13 * (o * o),
            -(c * o) <= d <= c * o,
            t == c * (o * (o * o)),
            c > 0,
            o > 0,
    ;
    assert(0 <= d * d <= (c * o) * (c * o)) by (nonlinear_arith)
        requires
            -(c * o) <= d <= c * o,
    ;
    assert(100 * ((c * o) * (c * o)) <= t) by (nonlinear_arith)
        requires
            t == c * (o * (o * o)),
            100 * c <= o,
            c > 0,
            o > 0,
    ;
}

} // verus!
