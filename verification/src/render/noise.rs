//! What the noise of the clouds is made of: heights on a grid, and what lies
//! between them.
use crate::binary64;
use crate::binary64::Binary64;
use crate::exact;
use crate::hash;
use crate::near;
use crate::render::layout;
use crate::render::weather;
use crate::render::weather::CloudLayer;
use vstd::prelude::*;

verus! {

/// The number lies between two others, but for rounding.
pub open spec fn lies_between(x: Binary64, a: Binary64, b: Binary64, grains: nat) -> bool {
    let slack = grains * near::grain();
    &&& a.value() - slack <= x.value() || b.value() - slack <= x.value()
    &&& x.value() <= a.value() + slack || x.value() <= b.value() + slack
}

/// How far a coordinate lies into its cell is a share.
proof fn lemma_share(x: Binary64)
    requires
        x.is_finite(),
    ensures
        weather::cell_share(x).is_finite(),
        0 <= weather::cell_share(x).value() <= Binary64::one(),
{
    let one = Binary64::of(1);
    binary64::lemma_of(1);
    exact::lemma_floor_finite(x);
    binary64::lemma_negate(x.floor());
    assert(x - x.floor() == x + x.floor().negate());
    binary64::lemma_add(x, x.floor().negate());
    weather::lemma_step64(one, x - x.floor());
}

/// The height of the grid at a corner is a small number.
proof fn lemma_corner(seed: u64, x: u64, y: u64)
    ensures
        near::sized(weather::lattice(seed, x, y), 1),
        near::sized(weather::lattice(seed, x, y), 0x10000),
{
    hash::heights_are_between_minus_one_and_one(hash::mixed(hash::mixed(seed, x), y));
    near::lemma_larger(weather::lattice(seed, x, y), 1, 0x10000);
}

/// The noise in a cell hangs on the four heights at the cell's corners. At the
/// near corner it is the height there. Along an edge it lies between the heights
/// at the two ends of that edge, so that the cells on both sides of an edge agree
/// on it, and inside it lies between the heights at all four.
pub proof fn the_noise_lies_between_the_corners_of_its_cell(
    seed: u64,
    x: Binary64,
    y: Binary64,
    period: u64,
)
    requires
        x.is_finite(),
        y.is_finite(),
        0 < period <= 32,
    ensures
        ({
            let (x0, x1) = (weather::cell(x) % period, (weather::cell(x) + 1) as u64 % period);
            let (y0, y1) = (weather::cell(y) % period, (weather::cell(y) + 1) as u64 % period);
            let (a, b) = (weather::lattice(seed, x0, y0), weather::lattice(seed, x1, y0));
            let (c, d) = (weather::lattice(seed, x0, y1), weather::lattice(seed, x1, y1));
            let (s, t) = (weather::cell_share(x).value(), weather::cell_share(y).value());
            let h = weather::noise_in_repeat(seed, x, y, period);
            let o = Binary64::one();
            &&& h.is_finite()
            &&& s == 0 && t == 0 ==> h.value() == a.value()
            &&& t == 0 ==> lies_between(h, a, b, 2)
            &&& s == 0 ==> lies_between(h, a, c, 2)
            &&& t == o ==> lies_between(h, c, d, 4)
            &&& s == o ==> lies_between(h, b, d, 4)
            &&& s == o && t == 0 ==> near::within(h.value(), b.value(), 2 * near::grain())
            &&& s == 0 && t == o ==> near::within(h.value(), c.value(), 2 * near::grain())
            &&& s == o && t == o ==> near::within(h.value(), d.value(), 4 * near::grain())
            &&& lies_between(h, a, b, 4) || lies_between(h, c, d, 4) || lies_between(h, a, c, 4)
                || lies_between(h, a, d, 4) || lies_between(h, b, c, 4) || lies_between(h, b, d, 4)
        }),
{
    let (x0, x1) = (weather::cell(x) % period, (weather::cell(x) + 1) as u64 % period);
    let (y0, y1) = (weather::cell(y) % period, (weather::cell(y) + 1) as u64 % period);
    let (a, b) = (weather::lattice(seed, x0, y0), weather::lattice(seed, x1, y0));
    let (c, d) = (weather::lattice(seed, x0, y1), weather::lattice(seed, x1, y1));
    let (s, t) = (weather::cell_share(x), weather::cell_share(y));
    near::lemma_grain();
    lemma_share(x);
    lemma_share(y);
    lemma_corner(seed, x0, y0);
    lemma_corner(seed, x1, y0);
    lemma_corner(seed, x0, y1);
    lemma_corner(seed, x1, y1);
    layout::lemma_part_way(a, b, s);
    layout::lemma_part_way(c, d, s);
    let (low, high) = (weather::between(a, b, s), weather::between(c, d, s));
    assert(near::sized(low, 2) && near::sized(high, 2));
    near::lemma_larger(low, 2, 0x10000);
    near::lemma_larger(high, 2, 0x10000);
    layout::lemma_part_way(low, high, t);
}

/// The number beside what three layers come to.
pub open spec fn layered(r: Binary64, a: Binary64, b: Binary64, c: Binary64) -> bool {
    near::within(
        7 * r.value(),
        4 * a.value() + 2 * b.value() + c.value(),
        128 * near::grain(),
    )
}

/// The noise of the clouds is made of three layers, each twice as fine as the
/// last and half as strong: seven times it is four times the first, twice the
/// second and once the third, but for rounding.
pub proof fn each_layer_is_half_as_strong_as_the_last(seed: u64, u: Binary64, v: Binary64)
    requires
        near::sized(weather::octave_spec(seed, u, v, 0, 8), 2),
        near::sized(weather::octave_spec(seed, u, v, 1, 16), 2),
        near::sized(weather::octave_spec(seed, u, v, 2, 32), 2),
    ensures
        layered(
            weather::fractal_spec(seed, u, v),
            weather::octave_spec(seed, u, v, 0, 8),
            weather::octave_spec(seed, u, v, 1, 16),
            weather::octave_spec(seed, u, v, 2, 32),
        ),
{
    lemma_layers(
        weather::octave_spec(seed, u, v, 0, 8),
        weather::octave_spec(seed, u, v, 1, 16),
        weather::octave_spec(seed, u, v, 2, 32),
    );
}

/// Three layers taken together.
#[verifier::spinoff_prover]
#[verifier::rlimit(60)]
proof fn lemma_layers(a: Binary64, b: Binary64, c: Binary64)
    requires
        near::sized(a, 2),
        near::sized(b, 2),
        near::sized(c, 2),
    ensures
        ({
            let first = Binary64::of(0) + Binary64::of(1) * a;
            let second = first + Binary64::ratio(1, 2) * b;
            let third = second + Binary64::ratio(1, 4) * c;
            layered(third / Binary64::ratio(7, 4), a, b, c)
        }),
{
    let (zero, one) = (Binary64::of(0), Binary64::of(1));
    let (half, quarter, all) = (
        Binary64::ratio(1, 2),
        Binary64::ratio(1, 4),
        Binary64::ratio(7, 4),
    );
    let o = Binary64::one() as int;
    let g = near::grain() as int;
    near::lemma_grain();
    near::lemma_small_of(0, 0);
    near::lemma_small_of(1, 1);
    binary64::lemma_of(0);
    binary64::lemma_of(1);
    near::lemma_small_ratio(1, 2, 1);
    near::lemma_small_ratio(1, 4, 1);
    near::lemma_small_ratio(7, 4, 2);
    near::lemma_ratio(1, 2);
    near::lemma_ratio(1, 4);
    near::lemma_ratio(7, 4);
    near::lemma_small_product(one, a, 1, 2);
    near::lemma_small_product(half, b, 1, 2);
    near::lemma_small_product(quarter, c, 1, 2);
    near::lemma_small_sum(zero, one * a, 0, 3);
    let first = zero + one * a;
    near::lemma_small_sum(first, half * b, 4, 3);
    let second = first + half * b;
    near::lemma_small_sum(second, quarter * c, 8, 3);
    let third = second + quarter * c;
    lemma_share_of(one.value(), a.value(), (one * a).value(), 1, o, g);
    lemma_share_of(half.value(), b.value(), (half * b).value(), 2, o, g);
    lemma_share_of(quarter.value(), c.value(), (quarter * c).value(), 4, o, g);
    let t = third.value();
    assert(near::within(4 * t, 4 * a.value() + 2 * b.value() + c.value(), (48 * g) as nat));
    near::lemma_small_quotient_near(third, all, 12);
    near::lemma_small_quotient(third, all, 12);
    let r = (third / all).value();
    let d = all.value();
    assert(-(4 * g) <= 4 * d - 7 * o <= 4 * g);
    assert(g * d <= 2 * (g * o)) by (nonlinear_arith)
        requires
            4 * d - 7 * o <= 4 * g,
            o == 0x100000000 * g,
            g > 0,
    ;
    lemma_over_seven(r, t, d, o, g);
}

/// A share of a number, without the share's rounding.
proof fn lemma_share_of(k: int, x: int, p: int, parts: int, o: int, g: int)
    requires
        o == 0x100000000 * g,
        g > 0,
        1 <= parts <= 4,
        -(2 * o) <= x <= 2 * o,
        -(parts * g) <= parts * k - o <= parts * g,
        -(g * o) <= p * o - k * x <= g * o,
    ensures
        -(3 * (parts * g)) <= parts * p - x <= 3 * (parts * g),
{
    let e = parts * k - o;
    let pg = parts * g;
    assert(-(2 * (pg * o)) <= e * x <= 2 * (pg * o)) by (nonlinear_arith)
        requires
            -(2 * o) <= x <= 2 * o,
            -pg <= e <= pg,
            o > 0,
    {
        if x >= 0 {
            assert(-(pg * x) <= e * x <= pg * x) by (nonlinear_arith)
                requires
                    x >= 0,
                    -pg <= e <= pg,
            ;
            assert(pg * x <= pg * (2 * o)) by (nonlinear_arith)
                requires
                    x <= 2 * o,
                    pg >= 0,
            ;
        } else {
            let n = -x;
            assert(-(pg * n) <= e * n <= pg * n) by (nonlinear_arith)
                requires
                    n >= 0,
                    -pg <= e <= pg,
            ;
            assert(pg * n <= pg * (2 * o)) by (nonlinear_arith)
                requires
                    n <= 2 * o,
                    pg >= 0,
            ;
            assert(e * n == -(e * x)) by (nonlinear_arith)
                requires
                    n == -x,
            ;
        }
        assert(pg * (2 * o) == 2 * (pg * o)) by (nonlinear_arith);
    }
    assert(e * x == parts * (k * x) - o * x) by (nonlinear_arith)
        requires
            e == parts * k - o,
    ;
    let f = p * o - k * x;
    assert(-(parts * (g * o)) <= parts * f <= parts * (g * o)) by (nonlinear_arith)
        requires
            -(g * o) <= f <= g * o,
            parts >= 1,
    ;
    assert(parts * f == (parts * p) * o - parts * (k * x)) by (nonlinear_arith)
        requires
            f == p * o - k * x,
    ;
    assert(parts * (g * o) == pg * o) by (nonlinear_arith)
        requires
            pg == parts * g,
    ;
    let d = parts * p - x;
    assert(d * o == (parts * p) * o - o * x) by (nonlinear_arith)
        requires
            d == parts * p - x,
    ;
    assert(-(3 * (pg * o)) <= d * o <= 3 * (pg * o));
    assert(-(3 * pg) <= d <= 3 * pg) by (nonlinear_arith)
        requires
            -(3 * (pg * o)) <= d * o <= 3 * (pg * o),
            o > 0,
    {
        let m = 3 * pg;
        assert(3 * (pg * o) == m * o) by (nonlinear_arith)
            requires
                m == 3 * pg,
        ;
        assert((-m) * o == -(m * o)) by (nonlinear_arith);
        assert(-m <= d <= m) by (nonlinear_arith)
            requires
                (-m) * o <= d * o <= m * o,
                o > 0,
        ;
    }
}

/// A quotient by seven quarters.
proof fn lemma_over_seven(r: int, t: int, d: int, o: int, g: int)
    requires
        o == 0x100000000 * g,
        g > 0,
        -(4 * g) <= 4 * d - 7 * o <= 4 * g,
        -(12 * o) <= t <= 12 * o,
        -(2 * (g * o)) <= r * d - t * o <= 2 * (g * o),
        -(12 * o) <= r <= 12 * o,
    ensures
        -(60 * g) <= 7 * r - 4 * t <= 60 * g,
{
    let e = 4 * d - 7 * o;
    assert(-(48 * (g * o)) <= r * e <= 48 * (g * o)) by (nonlinear_arith)
        requires
            -(12 * o) <= r <= 12 * o,
            -(4 * g) <= e <= 4 * g,
            o > 0,
            g > 0,
    {
        let h = 4 * g;
        if r >= 0 {
            assert(-(r * h) <= r * e <= r * h) by (nonlinear_arith)
                requires
                    r >= 0,
                    -h <= e <= h,
            ;
            assert(r * h <= (12 * o) * h) by (nonlinear_arith)
                requires
                    r <= 12 * o,
                    h >= 0,
            ;
        } else {
            let n = -r;
            assert(-(n * h) <= n * e <= n * h) by (nonlinear_arith)
                requires
                    n >= 0,
                    -h <= e <= h,
            ;
            assert(n * h <= (12 * o) * h) by (nonlinear_arith)
                requires
                    n <= 12 * o,
                    h >= 0,
            ;
            assert(n * e == -(r * e)) by (nonlinear_arith)
                requires
                    n == -r,
            ;
        }
        assert((12 * o) * h == 48 * (g * o)) by (nonlinear_arith)
            requires
                h == 4 * g,
        ;
    }
    assert(r * e == 4 * (r * d) - 7 * (r * o)) by (nonlinear_arith)
        requires
            e == 4 * d - 7 * o,
    ;
    let f = 7 * r - 4 * t;
    assert(f * o == 7 * (r * o) - 4 * (t * o)) by (nonlinear_arith)
        requires
            f == 7 * r - 4 * t,
    ;
    assert(-(60 * (g * o)) <= f * o <= 60 * (g * o));
    assert(-(60 * g) <= f <= 60 * g) by (nonlinear_arith)
        requires
            -(60 * (g * o)) <= f * o <= 60 * (g * o),
            o > 0,
    {
        let m = 60 * g;
        assert(60 * (g * o) == m * o) by (nonlinear_arith)
            requires
                m == 60 * g,
        ;
        assert((-m) * o == -(m * o)) by (nonlinear_arith);
        assert(-m <= f <= m) by (nonlinear_arith)
            requires
                (-m) * o <= f * o <= m * o,
                o > 0,
        ;
    }
}

/// The mask image goes row by row, 256 pixels to a row and four bytes to a
/// pixel: white, and as opaque as the clouds are at the place of that column and
/// row.
pub proof fn the_image_goes_row_by_row(layer: CloudLayer, column: u32, row: u32)
    requires
        column < 256,
        row < 256,
    ensures
        ({
            let bytes = weather::image_bytes(layer);
            let at = 4 * (256 * row + column);
            &&& bytes.len() == 4 * (256 * 256)
            &&& bytes[at] == 255 && bytes[at + 1] == 255 && bytes[at + 2] == 255
            &&& bytes[at + 3] == weather::spec_pixel_alpha(layer, column, row)
        }),
{
    let pixel = 256 * row + column;
    let at = 4 * pixel;
    assert(at % 4 == 0 && (at + 1) % 4 == 1 && (at + 2) % 4 == 2 && (at + 3) % 4 == 3);
    assert((at + 3) / 4 == pixel);
    assert(pixel % 256 == column && pixel / 256 == row);
}

} // verus!
