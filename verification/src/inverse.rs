//! How near a matrix times its inverse comes to one.
use crate::binary64;
use crate::binary64::Binary64;
use crate::near;
use crate::norm;
use crate::number;
use crate::rotation::DMat3;
use crate::rounding::Format;
use crate::vector::DVec3;
use vstd::arithmetic::power2::*;
use vstd::prelude::*;

verus! {

/// The value along one of the three axes.
pub open spec fn along(v: DVec3, axis: int) -> int {
    if axis == 0 {
        v.x.value()
    } else if axis == 1 {
        v.y.value()
    } else {
        v.z.value()
    }
}

/// Each part of the vector is finite and at most a power of two.
pub open spec fn at_most(v: DVec3, power: nat) -> bool {
    &&& v.x.is_finite() && number::magnitude_of(v.x.value()) <= pow2(power)
    &&& v.y.is_finite() && number::magnitude_of(v.y.value()) <= pow2(power)
    &&& v.z.is_finite() && number::magnitude_of(v.z.value()) <= pow2(power)
}

/// The determinant as it is without rounding.
pub open spec fn true_determinant(m: DMat3) -> int {
    let (x, y, z) = (m.x_axis, m.y_axis, m.z_axis);
    z.x.value() * (x.y.value() * y.z.value() - y.y.value() * x.z.value()) + z.y.value() * (
    x.z.value() * y.x.value() - y.z.value() * x.x.value()) + z.z.value() * (x.x.value()
        * y.y.value() - y.x.value() * x.y.value())
}

/// One of the three columns.
pub open spec fn column_of(m: DMat3, column: int) -> DVec3 {
    if column == 0 {
        m.x_axis
    } else if column == 1 {
        m.y_axis
    } else {
        m.z_axis
    }
}

/// One entry of a product of two matrices without rounding.
pub open spec fn entry(m: DMat3, n: DMat3, row: int, column: int) -> int {
    let v = column_of(n, column);
    along(m.x_axis, row) * v.x.value() + along(m.y_axis, row) * v.y.value() + along(m.z_axis, row)
        * v.z.value()
}

/// An entry of the matrix that changes nothing, as a product counts it.
pub open spec fn one_there(row: int, column: int) -> int {
    if row == column {
        (Binary64::one() * Binary64::one()) as int
    } else {
        0
    }
}

/// The matrix is not too flat: the determinant is at least one part in two to
/// the second power of the cube of the largest that an entry may be.
pub open spec fn steep(m: DMat3, power: nat, flatness: nat) -> bool {
    &&& 760 <= power <= 1370
    &&& flatness <= 40
    &&& at_most(m.x_axis, power)
    &&& at_most(m.y_axis, power)
    &&& at_most(m.z_axis, power)
    &&& pow2(power) * pow2(power) * pow2(power) <= pow2(flatness) * number::magnitude_of(
        true_determinant(m),
    )
}

/// The sizes of products of two and of three entries.
proof fn lemma_sizes(j: nat)
    requires
        760 <= j <= 1370,
    ensures
        pow2((2 * j - 1074) as nat) * Binary64::one() == pow2(j) * pow2(j),
        pow2((3 * j - 2148) as nat) * Binary64::one() == pow2(j) * pow2((2 * j - 1074) as nat),
        pow2((2 * j - 1126) as nat) * 0x10000000000000 == pow2((2 * j - 1074) as nat),
        pow2((2 * j - 1124) as nat) == 4 * pow2((2 * j - 1126) as nat),
        pow2((2 * j - 1073) as nat) == 2 * pow2((2 * j - 1074) as nat),
        pow2((2 * j - 1072) as nat) == 4 * pow2((2 * j - 1074) as nat),
        pow2((2 * j - 1071) as nat) == 8 * pow2((2 * j - 1074) as nat),
        Binary64::one() == pow2(1074),
        pow2(j) > 0,
        pow2((2 * j - 1074) as nat) > 0,
        pow2((3 * j - 2148) as nat) > 0,
        Binary64::one() > 0,
{
    lemma2_to64();
    lemma2_to64_rest();
    near::lemma_grain();
    lemma_pow2_adds(j, j);
    lemma_pow2_adds((2 * j - 1074) as nat, 1074);
    lemma_pow2_adds((3 * j - 2148) as nat, 1074);
    lemma_pow2_adds(j, (2 * j - 1074) as nat);
    lemma_pow2_adds((2 * j - 1126) as nat, 52);
    lemma_pow2_adds((2 * j - 1126) as nat, 2);
    lemma_pow2_adds((2 * j - 1074) as nat, 1);
    lemma_pow2_adds((2 * j - 1074) as nat, 2);
    lemma_pow2_adds((2 * j - 1074) as nat, 3);
    lemma_pow2_pos(j);
    lemma_pow2_pos((2 * j - 1074) as nat);
    lemma_pow2_pos((3 * j - 2148) as nat);
}

proof fn lemma_area(a: int, b: int, l: int)
    requires
        -l <= a <= l,
        -l <= b <= l,
    ensures
        -(l * l) <= a * b <= l * l,
{
    assert(-(l * l) <= a * b <= l * l) by (nonlinear_arith)
        requires
            -l <= a <= l,
            -l <= b <= l,
    ;
}

/// A part of a cross product, and how far off it is.
proof fn lemma_cofactor(a: Binary64, b: Binary64, c: Binary64, d: Binary64, j: nat)
    requires
        760 <= j <= 1370,
        a.is_finite() && number::magnitude_of(a.value()) <= pow2(j),
        b.is_finite() && number::magnitude_of(b.value()) <= pow2(j),
        c.is_finite() && number::magnitude_of(c.value()) <= pow2(j),
        d.is_finite() && number::magnitude_of(d.value()) <= pow2(j),
    ensures
        (a * b - c * d).is_finite(),
        number::magnitude_of((a * b - c * d).value()) <= 8 * pow2((2 * j - 1074) as nat),
        near::within(
            0x10000000000000 * ((a * b - c * d).value() * Binary64::one()),
            0x10000000000000 * (a.value() * b.value() - c.value() * d.value()),
            6 * (pow2(j) * pow2(j)),
        ),
{
    let o = Binary64::one() as int;
    let l = pow2(j) as int;
    let s = pow2((2 * j - 1074) as nat) as int;
    let u = pow2((2 * j - 1126) as nat) as int;
    lemma_sizes(j);
    lemma_area(a.value(), b.value(), l);
    lemma_area(c.value(), d.value(), l);
    near::lemma_product(a, b, (2 * j - 1074) as nat);
    near::lemma_product(c, d, (2 * j - 1074) as nat);
    near::lemma_difference(a * b, c * d, (2 * j - 1072) as nat);
    let (p, q, r) = ((a * b).value(), (c * d).value(), (a * b - c * d).value());
    let (x, y) = (a.value() * b.value(), c.value() * d.value());
    assert(-(6 * (u * o)) <= r * o - (x - y) <= 6 * (u * o)) by (nonlinear_arith)
        requires
            -(u * o) <= p * o - x <= u * o,
            -(u * o) <= q * o - y <= u * o,
            -(4 * u) <= r - (p - q) <= 4 * u,
            o > 0,
    {
        assert(-((4 * u) * o) <= (r - (p - q)) * o <= (4 * u) * o) by (nonlinear_arith)
            requires
                -(4 * u) <= r - (p - q) <= 4 * u,
                o > 0,
        ;
    }
    assert(0x10000000000000 * (u * o) == l * l) by (nonlinear_arith)
        requires
            u * 0x10000000000000 == s,
            s * o == l * l,
    ;
}

/// A product of an entry and a part of a cross product.
proof fn lemma_term(a: Binary64, c: Binary64, j: nat)
    requires
        760 <= j <= 1370,
        a.is_finite() && number::magnitude_of(a.value()) <= pow2(j),
        c.is_finite(),
        number::magnitude_of(c.value()) <= 8 * pow2((2 * j - 1074) as nat),
    ensures
        (a * c).is_finite(),
        number::magnitude_of((a * c).value()) <= 16 * pow2((3 * j - 2148) as nat),
        near::within(
            0x10000000000000 * ((a * c).value() * Binary64::one()),
            0x10000000000000 * (a.value() * c.value()),
            8 * (pow2((3 * j - 2148) as nat) * Binary64::one()),
        ),
{
    let o = Binary64::one() as int;
    let l = pow2(j) as int;
    let s = pow2((2 * j - 1074) as nat) as int;
    let t = pow2((3 * j - 2148) as nat) as int;
    lemma_sizes(j);
    lemma2_to64();
    lemma2_to64_rest();
    lemma_pow2_adds((3 * j - 2148) as nat, 3);
    lemma_pow2_adds((3 * j - 2148) as nat, 4);
    lemma_pow2_adds((3 * j - 2197) as nat, 52);
    let (x, y) = (a.value(), c.value());
    assert(-((8 * t) * o) <= x * y <= (8 * t) * o) by (nonlinear_arith)
        requires
            -l <= x <= l,
            -(8 * s) <= y <= 8 * s,
            t * o == l * s,
    {
        assert(-(l * (8 * s)) <= x * y <= l * (8 * s)) by (nonlinear_arith)
            requires
                -l <= x <= l,
                -(8 * s) <= y <= 8 * s,
        ;
        assert(l * (8 * s) == 8 * (l * s) && (8 * t) * o == 8 * (t * o)) by (nonlinear_arith);
    }
    near::lemma_product(a, c, (3 * j - 2145) as nat);
    let u = pow2((3 * j - 2197) as nat) as int;
    assert(0x10000000000000 * (u * o) == 8 * (t * o)) by (nonlinear_arith)
        requires
            u * 0x10000000000000 == 8 * t,
    ;
}

/// The sum of three products, and how far off it is.
proof fn lemma_three_terms(z: DVec3, c: DVec3, j: nat)
    requires
        760 <= j <= 1370,
        at_most(z, j),
        c.x.is_finite() && number::magnitude_of(c.x.value()) <= 8 * pow2((2 * j - 1074) as nat),
        c.y.is_finite() && number::magnitude_of(c.y.value()) <= 8 * pow2((2 * j - 1074) as nat),
        c.z.is_finite() && number::magnitude_of(c.z.value()) <= 8 * pow2((2 * j - 1074) as nat),
    ensures
        z.dot(c).is_finite(),
        number::magnitude_of(z.dot(c).value()) <= 256 * pow2((3 * j - 2148) as nat),
        near::within(
            0x10000000000000 * z.dot(c).value(),
            0x10000000000000 * ((z.x * c.x).value() + (z.y * c.y).value() + (z.z * c.z).value()),
            160 * pow2((3 * j - 2148) as nat),
        ),
        near::within(
            0x10000000000000 * ((z.x * c.x).value() * Binary64::one()),
            0x10000000000000 * (z.x.value() * c.x.value()),
            8 * (pow2((3 * j - 2148) as nat) * Binary64::one()),
        ),
        near::within(
            0x10000000000000 * ((z.y * c.y).value() * Binary64::one()),
            0x10000000000000 * (z.y.value() * c.y.value()),
            8 * (pow2((3 * j - 2148) as nat) * Binary64::one()),
        ),
        near::within(
            0x10000000000000 * ((z.z * c.z).value() * Binary64::one()),
            0x10000000000000 * (z.z.value() * c.z.value()),
            8 * (pow2((3 * j - 2148) as nat) * Binary64::one()),
        ),
{
    lemma_term(z.x, c.x, j);
    lemma_term(z.y, c.y, j);
    lemma_term(z.z, c.z, j);
    lemma2_to64();
    lemma2_to64_rest();
    lemma_pow2_adds((3 * j - 2148) as nat, 5);
    lemma_pow2_adds((3 * j - 2148) as nat, 6);
    lemma_pow2_adds((3 * j - 2148) as nat, 7);
    lemma_pow2_adds((3 * j - 2148) as nat, 8);
    lemma_pow2_adds((3 * j - 2195) as nat, 52);
    lemma_pow2_adds((3 * j - 2193) as nat, 52);
    let (p, q, r) = (z.x * c.x, z.y * c.y, z.z * c.z);
    near::lemma_sum(p, q, (3 * j - 2143) as nat);
    near::lemma_sum(p + q, r, (3 * j - 2141) as nat);
}

/// The determinant, and how far off it is.
proof fn lemma_determinant(m: DMat3, j: nat)
    requires
        760 <= j <= 1370,
        at_most(m.x_axis, j),
        at_most(m.y_axis, j),
        at_most(m.z_axis, j),
    ensures
        m.determinant().is_finite(),
        number::magnitude_of(m.determinant().value()) <= 256 * pow2((3 * j - 2148) as nat),
        near::within(
            0x10000000000000 * (m.determinant().value() * (Binary64::one() * Binary64::one())),
            0x10000000000000 * true_determinant(m),
            256 * (pow2(j) * pow2(j) * pow2(j)),
        ),
{
    let o = Binary64::one() as int;
    let l = pow2(j) as int;
    let s = pow2((2 * j - 1074) as nat) as int;
    let t = pow2((3 * j - 2148) as nat) as int;
    let (x, y, z) = (m.x_axis, m.y_axis, m.z_axis);
    let c = x.cross(y);
    lemma_sizes(j);
    lemma_cofactor(x.y, y.z, y.y, x.z, j);
    lemma_cofactor(x.z, y.x, y.z, x.x, j);
    lemma_cofactor(x.x, y.y, y.x, x.y, j);
    lemma_three_terms(z, c, j);
    let (p, q, r) = (z.x * c.x, z.y * c.y, z.z * c.z);
    let v = m.determinant().value();
    let (cx, cy, cz) = (
        x.y.value() * y.z.value() - y.y.value() * x.z.value(),
        x.z.value() * y.x.value() - y.z.value() * x.x.value(),
        x.x.value() * y.y.value() - y.x.value() * x.y.value(),
    );
    lemma_weighed(z.x.value(), c.x.value(), cx, p.value(), o, l, s, t);
    lemma_weighed(z.y.value(), c.y.value(), cy, q.value(), o, l, s, t);
    lemma_weighed(z.z.value(), c.z.value(), cz, r.value(), o, l, s, t);
    lemma_summed(
        p.value(),
        q.value(),
        r.value(),
        v,
        z.x.value() * cx,
        z.y.value() * cy,
        z.z.value() * cz,
        o,
        l,
        s,
        t,
    );
}

/// A sum of three, against the true one.
proof fn lemma_summed(
    p: int,
    q: int,
    r: int,
    v: int,
    true_p: int,
    true_q: int,
    true_r: int,
    o: int,
    l: int,
    s: int,
    t: int,
)
    requires
        o > 0,
        l > 0,
        t > 0,
        t * o == l * s,
        s * o == l * l,
        near::within(0x10000000000000 * v, 0x10000000000000 * (p + q + r), (160 * t) as nat),
        near::within(
            0x10000000000000 * (p * (o * o)),
            0x10000000000000 * true_p,
            (14 * (l * l * l)) as nat,
        ),
        near::within(
            0x10000000000000 * (q * (o * o)),
            0x10000000000000 * true_q,
            (14 * (l * l * l)) as nat,
        ),
        near::within(
            0x10000000000000 * (r * (o * o)),
            0x10000000000000 * true_r,
            (14 * (l * l * l)) as nat,
        ),
    ensures
        near::within(
            0x10000000000000 * (v * (o * o)),
            0x10000000000000 * (true_p + true_q + true_r),
            (256 * (l * l * l)) as nat,
        ),
{
    let big = 0x10000000000000int;
    let w = o * o;
    let cube = l * l * l;
    assert(t * w == cube && w > 0 && cube > 0) by (nonlinear_arith)
        requires
            t * o == l * s,
            s * o == l * l,
            w == o * o,
            cube == l * l * l,
            o > 0,
            t > 0,
    {
        assert(t * (o * o) == (t * o) * o && (l * s) * o == l * (s * o) && l * (l * l) == l * l
            * l) by (nonlinear_arith);
        assert(w > 0) by (nonlinear_arith)
            requires
                w == o * o,
                o > 0,
        ;
        assert(t * w > 0) by (nonlinear_arith)
            requires
                w > 0,
                t > 0,
        ;
    }
    let sum = p + q + r;
    let e = big * v - big * sum;
    assert(-(160 * cube) <= e * w <= 160 * cube) by (nonlinear_arith)
        requires
            -(160 * t) <= e <= 160 * t,
            t * w == cube,
            w > 0,
    {
        assert(-((160 * t) * w) <= e * w <= (160 * t) * w) by (nonlinear_arith)
            requires
                -(160 * t) <= e <= 160 * t,
                w > 0,
        ;
        assert((160 * t) * w == 160 * (t * w)) by (nonlinear_arith);
    }
    assert(e * w == big * (v * w) - big * (sum * w)) by (nonlinear_arith)
        requires
            e == big * v - big * sum,
    ;
    assert(sum * w == p * w + q * w + r * w) by (nonlinear_arith)
        requires
            sum == p + q + r,
    ;
}

/// An entry times a rounded part of a cross product, against the true one.
proof fn lemma_weighed(a: int, c: int, true_c: int, p: int, o: int, l: int, s: int, t: int)
    requires
        o > 0,
        l > 0,
        -l <= a <= l,
        t * o == l * s,
        s * o == l * l,
        near::within(0x10000000000000 * (c * o), 0x10000000000000 * true_c, (6 * (l * l)) as nat),
        near::within(0x10000000000000 * (p * o), 0x10000000000000 * (a * c), (8 * (t * o)) as nat),
    ensures
        near::within(
            0x10000000000000 * (p * (o * o)),
            0x10000000000000 * (a * true_c),
            (14 * (l * l * l)) as nat,
        ),
{
    let big = 0x10000000000000int;
    let cube = l * l * l;
    assert(l * l >= 0 && cube >= 0 && t * o >= 0 && (t * o) * o == cube) by (nonlinear_arith)
        requires
            l > 0,
            o > 0,
            t * o == l * s,
            s * o == l * l,
            cube == l * l * l,
    {
        assert((l * s) * o == l * (s * o) && l * (l * l) == l * l * l) by (nonlinear_arith);
        assert(l * l >= 0) by (nonlinear_arith)
            requires
                l > 0,
        ;
        assert(l * (l * l) >= 0) by (nonlinear_arith)
            requires
                l > 0,
                l * l >= 0,
        ;
        assert(t * o >= 0) by (nonlinear_arith)
            requires
                (t * o) * o >= 0,
                o > 0,
        ;
    }
    let e = big * (p * o) - big * (a * c);
    assert(-(8 * cube) <= e * o <= 8 * cube) by (nonlinear_arith)
        requires
            -(8 * (t * o)) <= e <= 8 * (t * o),
            (t * o) * o == cube,
            o > 0,
    {
        assert(-((8 * (t * o)) * o) <= e * o <= (8 * (t * o)) * o) by (nonlinear_arith)
            requires
                -(8 * (t * o)) <= e <= 8 * (t * o),
                o > 0,
        ;
        assert((8 * (t * o)) * o == 8 * ((t * o) * o)) by (nonlinear_arith);
    }
    let f = big * (c * o) - big * true_c;
    assert(-(6 * cube) <= a * f <= 6 * cube) by (nonlinear_arith)
        requires
            -(6 * (l * l)) <= f <= 6 * (l * l),
            -l <= a <= l,
            cube == l * l * l,
    {
        assert(-(l * (6 * (l * l))) <= a * f <= l * (6 * (l * l))) by (nonlinear_arith)
            requires
                -(6 * (l * l)) <= f <= 6 * (l * l),
                -l <= a <= l,
        ;
        assert(l * (6 * (l * l)) == 6 * (l * l * l)) by (nonlinear_arith);
    }
    assert(e * o == big * (p * (o * o)) - big * ((a * c) * o)) by (nonlinear_arith)
        requires
            e == big * (p * o) - big * (a * c),
    ;
    assert(a * f == big * ((a * c) * o) - big * (a * true_c)) by (nonlinear_arith)
        requires
            f == big * (c * o) - big * true_c,
    ;
}

/// One over the determinant, and how far off it is.
proof fn lemma_scale(d: Binary64, v: int, j: nat, i: nat)
    requires
        760 <= j <= 1370,
        i <= 40,
        d.is_finite(),
        number::magnitude_of(d.value()) <= 256 * pow2((3 * j - 2148) as nat),
        near::within(
            0x10000000000000 * (d.value() * (Binary64::one() * Binary64::one())),
            0x10000000000000 * v,
            256 * (pow2(j) * pow2(j) * pow2(j)),
        ),
        pow2(j) * pow2(j) * pow2(j) <= pow2(i) * number::magnitude_of(v),
    ensures
        ({
            let o = Binary64::one();
            let s = Binary64::of(1) / d;
            &&& s.is_finite()
            &&& near::within(
                0x10000000000000 * (s.value() * d.value()),
                (0x10000000000000 * (o * o)) as int,
                o * o,
            )
            &&& number::magnitude_of(s.value()) * (pow2(j) * pow2(j) * pow2(j)) <= 2 * (pow2(i) * (o
                * o * (o * o)))
        }),
{
    let o = Binary64::one() as int;
    let l = pow2(j) as int;
    let t = pow2((3 * j - 2148) as nat) as int;
    let cube = l * l * l;
    let k = pow2(i) as int;
    let w = o * o;
    let s = Binary64::of(1) / d;
    lemma_sizes(j);
    lemma2_to64();
    lemma2_to64_rest();
    if i < 40 {
        lemma_pow2_strictly_increases(i, 40);
    }
    lemma_pow2_pos(i);
    let n = number::magnitude_of(d.value()) as int;
    let m = number::magnitude_of(v) as int;
    let big = 0x10000000000000int;
    assert(cube > 0 && w > 0) by (nonlinear_arith)
        requires
            l > 0,
            o > 0,
            w == o * o,
            cube == l * l * l,
    {
        assert(l * l > 0) by (nonlinear_arith)
            requires
                l > 0,
        ;
    }
    assert(m > 0) by (nonlinear_arith)
        requires
            cube <= k * m,
            cube > 0,
            k > 0,
            m >= 0,
    ;
    assert(256 * cube <= 0x1000000000000 * m) by (nonlinear_arith)
        requires
            cube <= k * m,
            k <= 0x10000000000,
            m > 0,
    ;
    let dw = d.value() * w;
    assert(d.value() < 0 ==> dw < 0) by (nonlinear_arith)
        requires
            dw == d.value() * w,
            w > 0,
    ;
    assert(d.value() >= 0 ==> dw >= 0) by (nonlinear_arith)
        requires
            dw == d.value() * w,
            w > 0,
    ;
    assert(n * w == dw || n * w == -dw) by (nonlinear_arith)
        requires
            dw == d.value() * w,
            n == d.value() || n == -d.value(),
    ;
    assert(n * w >= 0) by (nonlinear_arith)
        requires
            n >= 0,
            w > 0,
    ;
    assert(16 * (n * w) >= 15 * m);
    assert(n > 0) by (nonlinear_arith)
        requires
            16 * (n * w) >= 15 * m,
            m > 0,
            w > 0,
            n >= 0,
    ;
    lemma_not_tiny(n, m, cube, t, k, w, o, l, j);
    lemma_one_over(d, j);
    let a = number::magnitude_of(s.value()) as int;
    lemma_magnitudes(s.value(), d.value());
    assert(big * (a * n) <= (big + 1) * w);
    assert(a * cube <= 2 * (k * (w * w))) by (nonlinear_arith)
        requires
            big == 0x10000000000000,
            big * (a * n) <= (big + 1) * w,
            16 * (n * w) >= 15 * m,
            cube <= k * m,
            a >= 0,
            k > 0,
            w > 0,
            m > 0,
    {
        assert(15 * (a * m) <= 16 * ((a * n) * w)) by (nonlinear_arith)
            requires
                16 * (n * w) >= 15 * m,
                a >= 0,
        ;
        assert(big * ((a * n) * w) <= (big + 1) * (w * w)) by (nonlinear_arith)
            requires
                big * (a * n) <= (big + 1) * w,
                w > 0,
        ;
        assert(a * m <= 2 * (w * w));
        assert(a * cube <= k * (a * m)) by (nonlinear_arith)
            requires
                cube <= k * m,
                a >= 0,
        ;
        assert(k * (a * m) <= k * (2 * (w * w))) by (nonlinear_arith)
            requires
                a * m <= 2 * (w * w),
                k > 0,
        ;
        assert(k * (2 * (w * w)) == 2 * (k * (w * w))) by (nonlinear_arith);
    }
}

proof fn lemma_magnitudes(a: int, b: int)
    ensures
        number::magnitude_of(a) * number::magnitude_of(b) == number::magnitude_of(a * b),
{
    assert((-a) * b == -(a * b) && a * (-b) == -(a * b) && (-a) * (-b) == a * b)
        by (nonlinear_arith);
    assert(a < 0 && b < 0 ==> a * b > 0) by (nonlinear_arith);
    assert(a >= 0 && b >= 0 ==> a * b >= 0) by (nonlinear_arith);
    assert(a < 0 && b >= 0 ==> a * b <= 0) by (nonlinear_arith);
    assert(a >= 0 && b < 0 ==> a * b <= 0) by (nonlinear_arith);
}

/// The determinant is not next to nothing.
proof fn lemma_not_tiny(n: int, m: int, cube: int, t: int, k: int, w: int, o: int, l: int, j: nat)
    requires
        760 <= j <= 1370,
        o == Binary64::one(),
        l == pow2(j),
        t == pow2((3 * j - 2148) as nat),
        cube == l * l * l,
        w == o * o,
        16 * (n * w) >= 15 * m,
        cube <= k * m,
        0 < k <= 0x10000000000,
        m > 0,
        n > 0,
    ensures
        n >= 0x1000000000000000,
{
    let s = pow2((2 * j - 1074) as nat) as int;
    lemma_sizes(j);
    assert(t * w == cube && w > 0) by (nonlinear_arith)
        requires
            t * o == l * s,
            s * o == l * l,
            w == o * o,
            cube == l * l * l,
            o > 0,
    {
        assert(t * (o * o) == (t * o) * o && (l * s) * o == l * (s * o) && l * (l * l) == l * l
            * l) by (nonlinear_arith);
        assert(w > 0) by (nonlinear_arith)
            requires
                w == o * o,
                o > 0,
        ;
    }
    assert(15 * (t * w) <= 16 * ((k * n) * w)) by (nonlinear_arith)
        requires
            t * w == cube,
            cube <= k * m,
            15 * m <= 16 * (n * w),
            k > 0,
    {
        assert(15 * (k * m) <= 16 * (k * (n * w))) by (nonlinear_arith)
            requires
                15 * m <= 16 * (n * w),
                k > 0,
        ;
        assert(k * (n * w) == (k * n) * w) by (nonlinear_arith);
    }
    assert(15 * t <= 16 * (k * n)) by (nonlinear_arith)
        requires
            15 * (t * w) <= 16 * ((k * n) * w),
            w > 0,
    ;
    assert(k * n <= 0x10000000000 * n) by (nonlinear_arith)
        requires
            k <= 0x10000000000,
            n > 0,
    ;
    lemma2_to64();
    lemma2_to64_rest();
    lemma_pow2_adds(64, 64);
    lemma_pow2_strictly_increases(128, (3 * j - 2148) as nat);
}

/// One over a number is off by one part in two to the fifty-two.
proof fn lemma_one_over(d: Binary64, j: nat)
    requires
        760 <= j <= 1370,
        d.is_finite(),
        0x1000000000000000 <= number::magnitude_of(d.value()),
        number::magnitude_of(d.value()) <= 256 * pow2((3 * j - 2148) as nat),
    ensures
        (Binary64::of(1) / d).is_finite(),
        near::within(
            0x10000000000000 * ((Binary64::of(1) / d).value() * d.value()),
            (0x10000000000000 * (Binary64::one() * Binary64::one())) as int,
            Binary64::one() * Binary64::one(),
        ),
{
    let o = Binary64::one();
    let n = number::magnitude_of(d.value());
    let s = Binary64::of(1) / d;
    let w = o * o;
    lemma_sizes(j);
    lemma2_to64();
    lemma2_to64_rest();
    binary64::lemma_of(1);
    if d.value() > 0 {
        binary64::lemma_div(Binary64::of(1), d);
    } else {
        lemma_div_below(Binary64::of(1), d);
    }
    assert(w > 0) by (nonlinear_arith)
        requires
            w == o * o,
            o > 0,
    ;
    lemma_pow2_adds(1074, 1074);
    lemma_pow2_adds(2097, 51);
    lemma_pow2_pos(2097);
    assert(w < n * pow2(2097)) by (nonlinear_arith)
        requires
            w == pow2(2097) * 0x8000000000000,
            pow2(2097) > 0,
            n >= 0x1000000000000000,
    ;
    norm::lemma_rounding(w, n);
    let r = Format::Double.round(w, n) as int;
    lemma_pow2_adds((3 * j - 2148) as nat, 8);
    lemma_pow2_strictly_increases((3 * j - 2140) as nat, 2095);
    lemma_pow2_adds(2095, 53);
    assert(0x20000000000000 * n <= w);
    let v = r * n;
    assert(s.value() * d.value() == v) by (nonlinear_arith)
        requires
            v == r * n,
            (s.value() == r && d.value() == n) || (s.value() == -r && d.value() == -(n as int)),
    ;
    lemma_pow2_adds(2097, 1);
    assert(r < pow2(2098)) by (nonlinear_arith)
        requires
            r * n <= 2 * w,
            w < n * pow2(2097),
            pow2(2098) == pow2(2097) * 2,
            n > 0,
    ;
    norm::lemma_finite(s);
}

/// A quotient by a number below zero.
proof fn lemma_div_below(a: Binary64, b: Binary64)
    requires
        a.is_finite(),
        b.is_finite(),
        b.value() < 0,
    ensures
        !(a / b).is_nan(),
        (a / b).value() == binary64::round_value(-(a.value() * Binary64::one()), (-b.value()) as nat),
{
    reveal(Binary64::spec_euclidean_or_real_div);
    reveal(Binary64::spec_is_nan);
    reveal(Binary64::spec_is_finite);
    number::lemma_constants(Format::Double);
    number::lemma_quotient_value(Format::Double, a.number(), b.number());
}

/// An entry of the inverse, and how far off it is.
proof fn lemma_part(c: Binary64, s: Binary64, j: nat, i: nat)
    requires
        760 <= j <= 1370,
        i <= 40,
        c.is_finite(),
        number::magnitude_of(c.value()) <= 8 * pow2((2 * j - 1074) as nat),
        s.is_finite(),
        number::magnitude_of(s.value()) * (pow2(j) * pow2(j) * pow2(j)) <= 2 * (pow2(i) * (
        Binary64::one() * Binary64::one() * (Binary64::one() * Binary64::one()))),
    ensures
        (c * s).is_finite(),
        number::magnitude_of((c * s).value()) <= pow2((2153 + i - j) as nat),
        near::within(
            0x10000000000000 * ((c * s).value() * Binary64::one() * pow2(j)),
            0x10000000000000 * (c.value() * s.value() * pow2(j)),
            16 * (pow2(i) * (Binary64::one() * Binary64::one() * Binary64::one())),
        ),
{
    let o = Binary64::one() as int;
    let l = pow2(j) as int;
    let k = pow2(i) as int;
    let q = pow2((2 * j - 1074) as nat) as int;
    let cube = l * l * l;
    let w = o * o;
    lemma_sizes(j);
    lemma2_to64();
    lemma2_to64_rest();
    lemma_pow2_pos(i);
    let most = (2152 + i - j) as nat;
    let b = pow2(most) as int;
    lemma_pow2_adds(most, j);
    lemma_pow2_adds(2148, i + 4);
    lemma_pow2_adds(i, 4);
    lemma_pow2_adds(1074, 1074);
    assert(b * l == 16 * (k * w)) by (nonlinear_arith)
        requires
            b * l == w * (k * 16),
    ;
    let (y, z) = (c.value(), s.value());
    let (m, n) = (number::magnitude_of(y) as int, number::magnitude_of(z) as int);
    lemma_magnitudes(y, z);
    assert(m * n <= b * o) by (nonlinear_arith)
        requires
            m <= 8 * q,
            m >= 0,
            n >= 0,
            n * cube <= 2 * (k * (w * w)),
            cube == l * l * l,
            q * o == l * l,
            b * l == 16 * (k * w),
            w == o * o,
            l > 0,
            o > 0,
    {
        assert(m * n <= (8 * q) * n) by (nonlinear_arith)
            requires
                m <= 8 * q,
                n >= 0,
        ;
        assert(((8 * q) * n) * (o * l) == 8 * (n * cube)) by (nonlinear_arith)
            requires
                cube == l * l * l,
                q * o == l * l,
        {
            assert(((8 * q) * n) * (o * l) == 8 * (n * ((q * o) * l))) by (nonlinear_arith);
        }
        assert((b * o) * (o * l) == 16 * (k * (w * w))) by (nonlinear_arith)
            requires
                b * l == 16 * (k * w),
                w == o * o,
        {
            assert((b * o) * (o * l) == (b * l) * (o * o)) by (nonlinear_arith);
            assert((16 * (k * w)) * w == 16 * (k * (w * w))) by (nonlinear_arith);
        }
        assert(o * l > 0) by (nonlinear_arith)
            requires
                o > 0,
                l > 0,
        ;
        assert((8 * q) * n <= b * o) by (nonlinear_arith)
            requires
                ((8 * q) * n) * (o * l) <= (b * o) * (o * l),
                o * l > 0,
        ;
    }
    lemma_pow2_strictly_increases(53, most);
    near::lemma_product(c, s, most);
    lemma_pow2_adds((most - 52) as nat, 52);
    let u = pow2((most - 52) as nat) as int;
    let e = (c * s).value() * o - y * z;
    assert(-(16 * (k * (w * o))) <= (0x10000000000000 * e) * l <= 16 * (k * (w * o)))
        by (nonlinear_arith)
        requires
            -(u * o) <= e <= u * o,
            u * 0x10000000000000 == b,
            b * l == 16 * (k * w),
            l > 0,
    {
        assert(-((0x10000000000000 * (u * o)) * l) <= (0x10000000000000 * e) * l <= (
        0x10000000000000 * (u * o)) * l) by (nonlinear_arith)
            requires
                -(u * o) <= e <= u * o,
                l > 0,
        ;
        assert((0x10000000000000 * (u * o)) * l == (b * l) * o) by (nonlinear_arith)
            requires
                u * 0x10000000000000 == b,
        ;
        assert((16 * (k * w)) * o == 16 * (k * (w * o))) by (nonlinear_arith);
    }
    assert((0x10000000000000 * e) * l == 0x10000000000000 * ((c * s).value() * o * l)
        - 0x10000000000000 * (y * z * l)) by (nonlinear_arith)
        requires
            e == (c * s).value() * o - y * z,
    ;
    assert(k * (w * o) >= 0) by (nonlinear_arith)
        requires
            k > 0,
            w == o * o,
            o > 0,
    {
        assert(w * o > 0) by (nonlinear_arith)
            requires
                w == o * o,
                o > 0,
        {
            assert(o * o > 0) by (nonlinear_arith)
                requires
                    o > 0,
            ;
        }
        assert(k * (w * o) > 0) by (nonlinear_arith)
            requires
                k > 0,
                w * o > 0,
        ;
    }
}

/// An entry times a part of the inverse, against the true one.
proof fn lemma_share(a: int, c: int, true_c: int, r: int, s: int, o: int, l: int, k: int)
    requires
        o > 0,
        l > 0,
        k > 0,
        -l <= a <= l,
        near::within(0x10000000000000 * (c * o), 0x10000000000000 * true_c, (6 * (l * l)) as nat),
        near::within(
            0x10000000000000 * (r * o * l),
            0x10000000000000 * (c * s * l),
            (16 * (k * (o * o * o))) as nat,
        ),
        number::magnitude_of(s) * (l * l * l) <= 2 * (k * (o * o * (o * o))),
    ensures
        near::within(
            0x10000000000000 * ((a * r) * (o * o)),
            0x10000000000000 * ((a * true_c) * s),
            (28 * (k * (o * o * (o * o)))) as nat,
        ),
{
    let big = 0x10000000000000int;
    let w = o * o;
    let all = k * (w * w);
    let thrice = k * (w * o);
    assert(w > 0 && thrice > 0 && thrice * o == all) by (nonlinear_arith)
        requires
            w == o * o,
            o > 0,
            k > 0,
            all == k * (w * w),
            thrice == k * (w * o),
    {
        assert(o * o > 0) by (nonlinear_arith)
            requires
                o > 0,
        ;
        assert(w * o > 0) by (nonlinear_arith)
            requires
                w > 0,
                o > 0,
        ;
        assert(k * (w * o) > 0) by (nonlinear_arith)
            requires
                w * o > 0,
                k > 0,
        ;
        assert((k * (w * o)) * o == k * (w * (o * o))) by (nonlinear_arith);
    }
    let e = r * o - c * s;
    let f = big * e;
    assert(f * l == big * (r * o * l) - big * (c * s * l)) by (nonlinear_arith)
        requires
            f == big * e,
            e == r * o - c * s,
    ;
    assert(-(16 * thrice) <= a * f <= 16 * thrice) by (nonlinear_arith)
        requires
            -(16 * thrice) <= f * l <= 16 * thrice,
            -l <= a <= l,
            l > 0,
    {
        if f >= 0 {
            assert(-(f * l) <= a * f <= f * l) by (nonlinear_arith)
                requires
                    f >= 0,
                    -l <= a <= l,
            ;
        } else {
            assert(f * l <= a * f <= -(f * l)) by (nonlinear_arith)
                requires
                    f < 0,
                    -l <= a <= l,
            ;
        }
    }
    assert(-(16 * all) <= (a * f) * o <= 16 * all) by (nonlinear_arith)
        requires
            -(16 * thrice) <= a * f <= 16 * thrice,
            thrice * o == all,
            o > 0,
    ;
    assert((a * f) * o == big * ((a * r) * (o * o)) - big * ((a * (c * o)) * s))
        by (nonlinear_arith)
        requires
            f == big * e,
            e == r * o - c * s,
    {
        let (t, u) = (r * o, c * s);
        assert((a * (t - u)) * o == (a * t) * o - (a * u) * o) by (nonlinear_arith);
        assert((a * (r * o)) * o == (a * r) * (o * o)) by (nonlinear_arith);
        assert((a * (c * s)) * o == (a * (c * o)) * s) by (nonlinear_arith);
        assert((a * (big * e)) * o == big * ((a * e) * o)) by (nonlinear_arith);
    }
    let g = big * (c * o) - big * true_c;
    let cube = l * l * l;
    assert(-(6 * cube) <= a * g <= 6 * cube) by (nonlinear_arith)
        requires
            -(6 * (l * l)) <= g <= 6 * (l * l),
            -l <= a <= l,
            cube == l * l * l,
    {
        assert(-(l * (6 * (l * l))) <= a * g <= l * (6 * (l * l))) by (nonlinear_arith)
            requires
                -(6 * (l * l)) <= g <= 6 * (l * l),
                -l <= a <= l,
        ;
        assert(l * (6 * (l * l)) == 6 * (l * l * l)) by (nonlinear_arith);
    }
    let n = number::magnitude_of(s) as int;
    assert(-(12 * all) <= (a * g) * s <= 12 * all) by (nonlinear_arith)
        requires
            -(6 * cube) <= a * g <= 6 * cube,
            n * cube <= 2 * all,
            s == n || s == -n,
            n >= 0,
    {
        let h = a * g;
        assert(-(6 * (n * cube)) <= h * n <= 6 * (n * cube)) by (nonlinear_arith)
            requires
                -(6 * cube) <= h <= 6 * cube,
                n >= 0,
        ;
        assert(h * (-n) == -(h * n)) by (nonlinear_arith);
    }
    let t = c * o;
    let (y, z) = (a * t, a * true_c);
    assert(a * g == 0x10000000000000 * y - 0x10000000000000 * z) by (nonlinear_arith)
        requires
            g == 0x10000000000000 * t - 0x10000000000000 * true_c,
            y == a * t,
            z == a * true_c,
    ;
    assert((0x10000000000000 * y - 0x10000000000000 * z) * s == 0x10000000000000 * (y * s)
        - 0x10000000000000 * (z * s)) by (nonlinear_arith);
}

/// A determinant over itself, but for rounding, is one.
proof fn lemma_whole(v: int, d: int, s: int, o: int, l: int, k: int)
    requires
        o > 0,
        l > 0,
        k > 0,
        near::within(
            0x10000000000000 * (d * (o * o)),
            0x10000000000000 * v,
            (256 * (l * l * l)) as nat,
        ),
        near::within(0x10000000000000 * (s * d), 0x10000000000000 * (o * o), (o * o) as nat),
        number::magnitude_of(s) * (l * l * l) <= 2 * (k * (o * o * (o * o))),
    ensures
        near::within(
            0x10000000000000 * (v * s),
            0x10000000000000 * (o * o * (o * o)),
            (513 * (k * (o * o * (o * o)))) as nat,
        ),
{
    let big = 0x10000000000000int;
    let w = o * o;
    let all = k * (w * w);
    let cube = l * l * l;
    let n = number::magnitude_of(s) as int;
    assert(w > 0 && cube > 0) by (nonlinear_arith)
        requires
            w == o * o,
            o > 0,
            l > 0,
            cube == l * l * l,
    {
        assert(o * o > 0) by (nonlinear_arith)
            requires
                o > 0,
        ;
        assert(l * l > 0) by (nonlinear_arith)
            requires
                l > 0,
        ;
        assert((l * l) * l > 0) by (nonlinear_arith)
            requires
                l * l > 0,
                l > 0,
        ;
    }
    assert(0 < w * w <= all) by (nonlinear_arith)
        requires
            all == k * (w * w),
            k > 0,
            w > 0,
    {
        assert(w * w > 0) by (nonlinear_arith)
            requires
                w > 0,
        ;
        assert(1 * (w * w) <= k * (w * w)) by (nonlinear_arith)
            requires
                k >= 1,
                w * w > 0,
        ;
    }
    let g = big * (d * w) - big * v;
    assert(-(512 * all) <= g * s <= 512 * all) by (nonlinear_arith)
        requires
            -(256 * cube) <= g <= 256 * cube,
            n * cube <= 2 * all,
            s == n || s == -n,
            n >= 0,
    {
        assert(-(256 * (n * cube)) <= g * n <= 256 * (n * cube)) by (nonlinear_arith)
            requires
                -(256 * cube) <= g <= 256 * cube,
                n >= 0,
        ;
        assert(g * (-n) == -(g * n)) by (nonlinear_arith);
    }
    assert(g * s == big * ((s * d) * w) - big * (v * s)) by (nonlinear_arith)
        requires
            g == big * (d * w) - big * v,
    ;
    let h = big * (s * d) - big * w;
    assert(-(w * w) <= h * w <= w * w) by (nonlinear_arith)
        requires
            -w <= h <= w,
            w > 0,
    ;
    assert(h * w == big * ((s * d) * w) - big * (w * w)) by (nonlinear_arith)
        requires
            h == big * (s * d) - big * w,
    ;
}

/// The parts of the inverse that make up one column, times a row.
proof fn lemma_column(
    x1: Binary64,
    x2: Binary64,
    y1: Binary64,
    y2: Binary64,
    z1: Binary64,
    z2: Binary64,
    x: int,
    y: int,
    z: int,
    s: Binary64,
    j: nat,
    i: nat,
)
    requires
        760 <= j <= 1370,
        i <= 40,
        x1.is_finite() && number::magnitude_of(x1.value()) <= pow2(j),
        x2.is_finite() && number::magnitude_of(x2.value()) <= pow2(j),
        y1.is_finite() && number::magnitude_of(y1.value()) <= pow2(j),
        y2.is_finite() && number::magnitude_of(y2.value()) <= pow2(j),
        z1.is_finite() && number::magnitude_of(z1.value()) <= pow2(j),
        z2.is_finite() && number::magnitude_of(z2.value()) <= pow2(j),
        number::magnitude_of(x) <= pow2(j),
        number::magnitude_of(y) <= pow2(j),
        number::magnitude_of(z) <= pow2(j),
        s.is_finite(),
        number::magnitude_of(s.value()) * (pow2(j) * pow2(j) * pow2(j)) <= 2 * (pow2(i) * (
        Binary64::one() * Binary64::one() * (Binary64::one() * Binary64::one()))),
    ensures
        ({
            let w = Binary64::one() * Binary64::one();
            let a = (y1 * z2 - z1 * y2) * s;
            let b = (z1 * x2 - x1 * z2) * s;
            let c = (x1 * y2 - y1 * x2) * s;
            let p = y1.value() * z2.value() - z1.value() * y2.value();
            let q = z1.value() * x2.value() - x1.value() * z2.value();
            let r = x1.value() * y2.value() - y1.value() * x2.value();
            &&& at_most(DVec3 { x: a, y: b, z: c }, (2153 + i - j) as nat)
            &&& near::within(
                0x10000000000000 * ((x * a.value() + y * b.value() + z * c.value()) * w),
                0x10000000000000 * ((x * p + y * q + z * r) * s.value()),
                84 * (pow2(i) * (w * w)),
            )
        }),
{
    let o = Binary64::one() as int;
    let w = o * o;
    let l = pow2(j) as int;
    let k = pow2(i) as int;
    lemma_sizes(j);
    lemma_pow2_pos(i);
    let (d, e, f) = (y1 * z2 - z1 * y2, z1 * x2 - x1 * z2, x1 * y2 - y1 * x2);
    lemma_cofactor(y1, z2, z1, y2, j);
    lemma_cofactor(z1, x2, x1, z2, j);
    lemma_cofactor(x1, y2, y1, x2, j);
    lemma_part(d, s, j, i);
    lemma_part(e, s, j, i);
    lemma_part(f, s, j, i);
    let p = y1.value() * z2.value() - z1.value() * y2.value();
    let q = z1.value() * x2.value() - x1.value() * z2.value();
    let r = x1.value() * y2.value() - y1.value() * x2.value();
    let (a, b, c) = ((d * s).value(), (e * s).value(), (f * s).value());
    lemma_share(x, d.value(), p, a, s.value(), o, l, k);
    lemma_share(y, e.value(), q, b, s.value(), o, l, k);
    lemma_share(z, f.value(), r, c, s.value(), o, l, k);
    let (g, h, t) = (x * a, y * b, z * c);
    assert((g + h + t) * w == g * w + h * w + t * w) by (nonlinear_arith);
    let (g, h, t, n) = (x * p, y * q, z * r, s.value());
    assert((g + h + t) * n == g * n + h * n + t * n) by (nonlinear_arith);
}

/// A row times the parts of the cross products: the determinant for the row that
/// they leave out, and nothing for the two others.
proof fn lemma_adjugate(
    x0: int,
    x1: int,
    x2: int,
    y0: int,
    y1: int,
    y2: int,
    z0: int,
    z1: int,
    z2: int,
)
    ensures
        ({
            let p = y1 * z2 - z1 * y2;
            let q = z1 * x2 - x1 * z2;
            let r = x1 * y2 - y1 * x2;
            &&& x0 * p + y0 * q + z0 * r == z0 * (x1 * y2 - y1 * x2) + z1 * (x2 * y0 - y2 * x0) + z2
                * (x0 * y1 - y0 * x1)
            &&& x1 * p + y1 * q + z1 * r == 0
            &&& x2 * p + y2 * q + z2 * r == 0
        }),
{
    let p = y1 * z2 - z1 * y2;
    let q = z1 * x2 - x1 * z2;
    let r = x1 * y2 - y1 * x2;
    assert(x0 * p == x0 * (y1 * z2) - x0 * (z1 * y2)) by (nonlinear_arith)
        requires
            p == y1 * z2 - z1 * y2,
    ;
    assert(y0 * q == y0 * (z1 * x2) - y0 * (x1 * z2)) by (nonlinear_arith)
        requires
            q == z1 * x2 - x1 * z2,
    ;
    assert(z1 * (x2 * y0 - y2 * x0) == y0 * (z1 * x2) - x0 * (z1 * y2)) by (nonlinear_arith);
    assert(z2 * (x0 * y1 - y0 * x1) == x0 * (y1 * z2) - y0 * (x1 * z2)) by (nonlinear_arith);
    assert(x1 * p == x1 * (y1 * z2) - x1 * (z1 * y2)) by (nonlinear_arith)
        requires
            p == y1 * z2 - z1 * y2,
    ;
    assert(y1 * q == x2 * (y1 * z1) - x1 * (y1 * z2)) by (nonlinear_arith)
        requires
            q == z1 * x2 - x1 * z2,
    ;
    assert(z1 * r == x1 * (z1 * y2) - x2 * (y1 * z1)) by (nonlinear_arith)
        requires
            r == x1 * y2 - y1 * x2,
    ;
    assert(x2 * p == x2 * (y1 * z2) - x2 * (z1 * y2)) by (nonlinear_arith)
        requires
            p == y1 * z2 - z1 * y2,
    ;
    assert(y2 * q == x2 * (z1 * y2) - x1 * (y2 * z2)) by (nonlinear_arith)
        requires
            q == z1 * x2 - x1 * z2,
    ;
    assert(z2 * r == x1 * (y2 * z2) - x2 * (y1 * z2)) by (nonlinear_arith)
        requires
            r == x1 * y2 - y1 * x2,
    ;
}

/// From the entry in the fourth power of one to the entry itself.
proof fn lemma_entry(p: int, share: int, goal: int, k: int, w: int)
    requires
        w > 0,
        k > 0,
        near::within(0x10000000000000 * (p * w), 0x10000000000000 * share, (84 * (k * (w * w))) as nat),
        near::within(
            0x10000000000000 * share,
            0x10000000000000 * (goal * w),
            (513 * (k * (w * w))) as nat,
        ),
    ensures
        near::within(0x40000000000 * p, 0x40000000000 * goal, (k * w) as nat),
{
    let big = 0x10000000000000int;
    let e = p - goal;
    assert(k * (w * w) >= 0 && k * w >= 0) by (nonlinear_arith)
        requires
            k > 0,
            w > 0,
    {
        assert(w * w > 0) by (nonlinear_arith)
            requires
                w > 0,
        ;
    }
    assert(e * w == p * w - goal * w) by (nonlinear_arith)
        requires
            e == p - goal,
    ;
    let most = k * w;
    assert(-(0x400 * most) <= big * e <= 0x400 * most) by (nonlinear_arith)
        requires
            -(0x400 * (k * (w * w))) <= big * (e * w) <= 0x400 * (k * (w * w)),
            most == k * w,
            w > 0,
    {
        assert((0x400 * most) * w == 0x400 * (k * (w * w))) by (nonlinear_arith)
            requires
                most == k * w,
        ;
        let f = big * e;
        assert(f * w == big * (e * w)) by (nonlinear_arith)
            requires
                f == big * e,
        ;
        assert(-(0x400 * most) <= f <= 0x400 * most) by (nonlinear_arith)
            requires
                -((0x400 * most) * w) <= f * w <= (0x400 * most) * w,
                w > 0,
        ;
    }
}

/// A matrix times its inverse is one but for rounding: each entry is off by one
/// part in two to the forty-two at most, times how flat the matrix is.
pub proof fn a_matrix_times_its_inverse_is_one(
    m: DMat3,
    power: nat,
    flatness: nat,
    row: int,
    column: int,
)
    requires
        steep(m, power, flatness),
        0 <= row < 3,
        0 <= column < 3,
    ensures
        column_of(m.inverse(), column).is_finite(),
        at_most(column_of(m.inverse(), column), (2153 + flatness - power) as nat),
        near::within(
            0x40000000000 * entry(m, m.inverse(), row, column),
            0x40000000000 * one_there(row, column),
            pow2(flatness) * (Binary64::one() * Binary64::one()),
        ),
{
    let o = Binary64::one() as int;
    let w = o * o;
    let k = pow2(flatness) as int;
    let l = pow2(power) as int;
    let (x, y, z) = (m.x_axis, m.y_axis, m.z_axis);
    let d = m.determinant();
    let v = true_determinant(m);
    let s = Binary64::of(1) / d;
    lemma_sizes(power);
    lemma_pow2_pos(flatness);
    lemma_determinant(m, power);
    lemma_scale(d, v, power, flatness);
    lemma_whole(v, d.value(), s.value(), o, l, k);
    let (a, b, c) = (along(x, row), along(y, row), along(z, row));
    if column == 0 {
        lemma_column(x.y, x.z, y.y, y.z, z.y, z.z, a, b, c, s, power, flatness);
        lemma_adjugate(
            x.x.value(),
            x.y.value(),
            x.z.value(),
            y.x.value(),
            y.y.value(),
            y.z.value(),
            z.x.value(),
            z.y.value(),
            z.z.value(),
        );
    } else if column == 1 {
        lemma_column(x.z, x.x, y.z, y.x, z.z, z.x, a, b, c, s, power, flatness);
        lemma_adjugate(
            x.y.value(),
            x.z.value(),
            x.x.value(),
            y.y.value(),
            y.z.value(),
            y.x.value(),
            z.y.value(),
            z.z.value(),
            z.x.value(),
        );
    } else {
        lemma_column(x.x, x.y, y.x, y.y, z.x, z.y, a, b, c, s, power, flatness);
        lemma_adjugate(
            x.z.value(),
            x.x.value(),
            x.y.value(),
            y.z.value(),
            y.x.value(),
            y.y.value(),
            z.z.value(),
            z.x.value(),
            z.y.value(),
        );
    }
    let share = if row == column {
        v * s.value()
    } else {
        0
    };
    assert(0 * s.value() == 0);
    assert(w > 0) by (nonlinear_arith)
        requires
            w == o * o,
            o > 0,
    ;
    lemma_entry(entry(m, m.inverse(), row, column), share, one_there(row, column), k, w);
}

} // verus!
