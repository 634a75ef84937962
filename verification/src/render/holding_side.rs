//! Which lines of a holding position a pilot sees broken, and from where.
use crate::binary64;
use crate::binary64::Binary64;
use crate::near;
use crate::render::facing;
use crate::render::holding_position;
use crate::render::holding_position::{Bar, RunwaySide, Spot};
use crate::render::mesh::MeshView;
use crate::render::surface::{Bearing, Geodetic, SurfaceVertex};
use vstd::arithmetic::power2::*;
use vstd::prelude::*;

verus! {

/// How far ahead of its anchor a vertex lies along a heading, in counts.
pub open spec fn ahead_of(heading: Bearing, v: SurfaceVertex) -> int {
    v.north.value() * heading.cos.value() + v.east.value() * heading.sin.value()
}

/// How far to the right of its anchor a vertex lies, in counts.
pub open spec fn right_of(heading: Bearing, v: SurfaceVertex) -> int {
    v.east.value() * heading.cos.value() - v.north.value() * heading.sin.value()
}

/// One, as sine and cosine make it, in counts.
pub open spec fn unit_of(heading: Bearing) -> int {
    heading.cos.value() * heading.cos.value() + heading.sin.value() * heading.sin.value()
}

/// How far a quadrilateral of a mesh reaches to the right, in counts.
pub open spec fn reach(heading: Bearing, m: MeshView<SurfaceVertex>, bar: int) -> int {
    right_of(heading, m.vertices[4 * bar + 2]) - right_of(heading, m.vertices[4 * bar])
}

/// All four corners of a quadrilateral lie ahead.
pub open spec fn lies_ahead(heading: Bearing, m: MeshView<SurfaceVertex>, bar: int) -> bool {
    &&& ahead_of(heading, m.vertices[4 * bar]) > 0
    &&& ahead_of(heading, m.vertices[4 * bar + 1]) > 0
    &&& ahead_of(heading, m.vertices[4 * bar + 2]) > 0
    &&& ahead_of(heading, m.vertices[4 * bar + 3]) > 0
}

/// All four corners of a quadrilateral lie behind.
pub open spec fn lies_behind(heading: Bearing, m: MeshView<SurfaceVertex>, bar: int) -> bool {
    &&& ahead_of(heading, m.vertices[4 * bar]) < 0
    &&& ahead_of(heading, m.vertices[4 * bar + 1]) < 0
    &&& ahead_of(heading, m.vertices[4 * bar + 2]) < 0
    &&& ahead_of(heading, m.vertices[4 * bar + 3]) < 0
}

/// The quadrilateral is a dash: it reaches over two thirds of the taxiway at
/// most.
pub open spec fn is_dash(
    heading: Bearing,
    m: MeshView<SurfaceVertex>,
    bar: int,
    width: Binary64,
) -> bool {
    3 * (reach(heading, m, bar) * Binary64::one()) <= 2 * (width.value() * unit_of(heading))
}

/// The quadrilateral reaches across the whole taxiway, but for less than one
/// part in sixty thousand.
pub open spec fn is_whole(
    heading: Bearing,
    m: MeshView<SurfaceVertex>,
    bar: int,
    width: Binary64,
) -> bool {
    0x10000 * (reach(heading, m, bar) * Binary64::one()) >= 0xffff * (width.value() * unit_of(
        heading,
    ))
}

/// Where a corner lies, but for rounding.
proof fn lemma_corner(spot: Spot, along: Binary64, across: Binary64)
    requires
        facing::is_direction(spot.heading),
        near::sized(along, 30000),
        near::sized(across, 30000),
    ensures
        ({
            let o = Binary64::one() as int;
            let v = spot.at(along, across);
            let q = unit_of(spot.heading);
            let slack = 16 * (near::grain() as int * (o * o));
            &&& -slack <= ahead_of(spot.heading, v) * o - along.value() * q <= slack
            &&& -slack <= right_of(spot.heading, v) * o - across.value() * q <= slack
        }),
{
    let o = Binary64::one() as int;
    let g = near::grain() as int;
    let (s, c) = (spot.heading.sin.value(), spot.heading.cos.value());
    let v = spot.at(along, across);
    let (n, e) = (v.north.value(), v.east.value());
    let (a, b) = (along.value(), across.value());
    near::lemma_grain();
    lemma_pow2_adds(1042, 3);
    lemma2_to64();
    facing::lemma_small_in_reach(along, 30000);
    facing::lemma_small_in_reach(across, 30000);
    facing::lemma_place(spot.heading, along, across);
    let t = (8 * g) * o;
    assert(facing::slack() * Binary64::one() == t);
    lemma_turned_back(n, e, a, b, s, c, o, t);
    assert(2 * (t * o) == 16 * (g * (o * o))) by (nonlinear_arith)
        requires
            t == (8 * g) * o,
    ;
}

/// Turning back what was turned.
pub proof fn lemma_turned_back(n: int, e: int, a: int, b: int, s: int, c: int, o: int, t: int)
    requires
        o > 0,
        t >= 0,
        -o <= s <= o,
        -o <= c <= o,
        -t <= n * o - (a * c - b * s) <= t,
        -t <= e * o - (a * s + b * c) <= t,
    ensures
        -(2 * (t * o)) <= (n * c + e * s) * o - a * (c * c + s * s) <= 2 * (t * o),
        -(2 * (t * o)) <= (e * c - n * s) * o - b * (c * c + s * s) <= 2 * (t * o),
{
    let (x, y) = (n * o - (a * c - b * s), e * o - (a * s + b * c));
    facing::lemma_size(x, c, t, o);
    facing::lemma_size(x, s, t, o);
    facing::lemma_size(y, c, t, o);
    facing::lemma_size(y, s, t, o);
    assert((-b) * c == -(b * c)) by (nonlinear_arith);
    lemma_back(n, o, a, c, b, s, c, x);
    lemma_back(n, o, a, c, b, s, s, x);
    lemma_back(e, o, a, s, -b, c, s, y);
    lemma_back(e, o, a, s, -b, c, c, y);
    let (nc, es, ec, ns) = (n * c, e * s, e * c, n * s);
    assert((nc + es) * o == nc * o + es * o) by (nonlinear_arith);
    assert((ec - ns) * o == ec * o - ns * o) by (nonlinear_arith);
    let (cc, ss, sc) = (c * c, s * s, s * c);
    assert(c * s == sc) by (nonlinear_arith)
        requires
            sc == s * c,
    ;
    assert(a * (cc + ss) == a * cc + a * ss) by (nonlinear_arith);
    assert(b * (cc + ss) == b * cc + b * ss) by (nonlinear_arith);
    assert((-b) * sc == -(b * sc) && (-b) * cc == -(b * cc)) by (nonlinear_arith);
}

/// A turned coordinate times a sine or a cosine.
proof fn lemma_back(n: int, o: int, a: int, c: int, b: int, s: int, f: int, x: int)
    requires
        x == n * o - (a * c - b * s),
    ensures
        (n * f) * o == a * (c * f) - b * (s * f) + x * f,
{
    let (p, q, r) = (n * o, a * c, b * s);
    assert(x * f == p * f - q * f + r * f) by (nonlinear_arith)
        requires
            x == p - (q - r),
    ;
    assert((n * o) * f == (n * f) * o) by (nonlinear_arith);
    assert((a * c) * f == a * (c * f)) by (nonlinear_arith);
    assert((b * s) * f == b * (s * f)) by (nonlinear_arith);
}

/// The corners of the bars, in order.
proof fn lemma_bars(spot: Spot, bars: Seq<Bar>, i: int)
    requires
        0 <= i < bars.len(),
    ensures
        ({
            let m = holding_position::bars_mesh(spot, bars);
            let h = holding_position::half_bar();
            let b = bars[i];
            &&& m.vertices.len() == 4 * bars.len()
            &&& m.vertices[4 * i] == spot.at(b.along - h, b.left)
            &&& m.vertices[4 * i + 1] == spot.at(b.along + h, b.left)
            &&& m.vertices[4 * i + 2] == spot.at(b.along + h, b.right)
            &&& m.vertices[4 * i + 3] == spot.at(b.along - h, b.right)
        }),
    decreases bars.len(),
{
    let rest = bars.drop_last();
    lemma_count(spot, rest);
    if i < bars.len() - 1 {
        lemma_bars(spot, rest, i);
        assert(rest[i] == bars[i]);
    }
}

proof fn lemma_count(spot: Spot, bars: Seq<Bar>)
    ensures
        holding_position::bars_mesh(spot, bars).vertices.len() == 4 * bars.len(),
    decreases bars.len(),
{
    if bars.len() > 0 {
        lemma_count(spot, bars.drop_last());
    }
}

/// Half the thickness of a bar.
proof fn lemma_half_bar()
    ensures
        near::sized(holding_position::half_bar(), 2),
        0 <= 100 * holding_position::half_bar().value() <= 16 * Binary64::one(),
{
    let (a, b) = (Binary64::ratio(3, 10), Binary64::ratio(1, 2));
    let o = Binary64::one() as int;
    let g = near::grain() as int;
    near::lemma_grain();
    near::lemma_small_ratio(3, 10, 1);
    near::lemma_small_ratio(1, 2, 1);
    near::lemma_ratio(3, 10);
    near::lemma_ratio(1, 2);
    near::lemma_small_product(a, b, 1, 1);
    let (x, y, h) = (a.value(), b.value(), (a * b).value());
    assert(100 * h <= 16 * o) by (nonlinear_arith)
        requires
            h * o - x * y <= g * o,
            0 <= 10 * x <= 3 * o + 10 * g,
            0 <= 2 * y <= o + 2 * g,
            o == 0x100000000 * g,
            g > 0,
    {
        assert((10 * x) * (2 * y) <= (3 * o + 10 * g) * (o + 2 * g)) by (nonlinear_arith)
            requires
                0 <= 10 * x <= 3 * o + 10 * g,
                0 <= 2 * y <= o + 2 * g,
        ;
        assert((10 * x) * (2 * y) == 20 * (x * y)) by (nonlinear_arith);
        let (oo, og, gg) = (o * o, o * g, g * g);
        assert((3 * o + 10 * g) * (o + 2 * g) == 3 * oo + 16 * og + 20 * gg) by (nonlinear_arith)
            requires
                oo == o * o,
                og == o * g,
                gg == g * g,
        ;
        assert(og == 0x100000000 * gg && oo == 0x100000000 * og) by (nonlinear_arith)
            requires
                oo == o * o,
                og == o * g,
                gg == g * g,
                o == 0x100000000 * g,
        ;
        assert(gg > 0) by (nonlinear_arith)
            requires
                gg == g * g,
                g > 0,
        ;
        assert(g * o == og) by (nonlinear_arith)
            requires
                og == o * g,
        ;
        let ho = h * o;
        assert(100 * ho <= 16 * oo);
        assert(100 * h <= 16 * o) by (nonlinear_arith)
            requires
                100 * (h * o) <= 16 * (o * o),
                o > 0,
        ;
    }
}

/// A bar of ordinary size.
spec fn fits(b: Bar) -> bool {
    &&& near::sized(b.along, 1)
    &&& near::sized(b.left, 29000)
    &&& near::sized(b.right, 29000)
}

/// On which side the corners of a bar lie.
proof fn lemma_side(spot: Spot, bars: Seq<Bar>, i: int)
    requires
        facing::is_direction(spot.heading),
        0 <= i < bars.len(),
        fits(bars[i]),
    ensures
        ({
            let m = holding_position::bars_mesh(spot, bars);
            let o = Binary64::one() as int;
            let b = bars[i];
            &&& 100 * b.along.value() >= 24 * o ==> lies_ahead(spot.heading, m, i)
            &&& 100 * b.along.value() <= -(24 * o) ==> lies_behind(spot.heading, m, i)
        }),
{
    let o = Binary64::one() as int;
    let g = near::grain() as int;
    let b = bars[i];
    let h = holding_position::half_bar();
    near::lemma_grain();
    lemma_bars(spot, bars, i);
    lemma_half_bar();
    near::lemma_small_sum(b.along, h, 1, 2);
    near::lemma_small_difference(b.along, h, 1, 2);
    near::lemma_larger(b.along + h, 4, 30000);
    near::lemma_larger(b.along - h, 4, 30000);
    near::lemma_larger(b.left, 29000, 30000);
    near::lemma_larger(b.right, 29000, 30000);
    lemma_corner(spot, b.along - h, b.left);
    lemma_corner(spot, b.along + h, b.left);
    lemma_corner(spot, b.along + h, b.right);
    lemma_corner(spot, b.along - h, b.right);
    let q = unit_of(spot.heading);
    let (s, c) = (spot.heading.sin.value(), spot.heading.cos.value());
    assert(o * o <= 2 * q);
    let (low, high) = ((b.along - h).value(), (b.along + h).value());
    let m = holding_position::bars_mesh(spot, bars);
    if 100 * b.along.value() >= 24 * o {
        lemma_beyond(ahead_of(spot.heading, m.vertices[4 * i]), low, q, o, g);
        lemma_beyond(ahead_of(spot.heading, m.vertices[4 * i + 1]), high, q, o, g);
        lemma_beyond(ahead_of(spot.heading, m.vertices[4 * i + 2]), high, q, o, g);
        lemma_beyond(ahead_of(spot.heading, m.vertices[4 * i + 3]), low, q, o, g);
    }
    if 100 * b.along.value() <= -(24 * o) {
        lemma_short_of(ahead_of(spot.heading, m.vertices[4 * i]), low, q, o, g);
        lemma_short_of(ahead_of(spot.heading, m.vertices[4 * i + 1]), high, q, o, g);
        lemma_short_of(ahead_of(spot.heading, m.vertices[4 * i + 2]), high, q, o, g);
        lemma_short_of(ahead_of(spot.heading, m.vertices[4 * i + 3]), low, q, o, g);
    }
}

proof fn lemma_beyond(a: int, along: int, q: int, o: int, g: int)
    requires
        o > 0,
        g > 0,
        o == 0x100000000 * g,
        o * o <= 2 * q,
        100 * along >= 7 * o,
        -(16 * (g * (o * o))) <= a * o - along * q,
    ensures
        a > 0,
{
    let u = o * o;
    assert(u > 0 && g * u > 0) by (nonlinear_arith)
        requires
            u == o * o,
            o > 0,
            g > 0,
    {
        assert(o * o > 0) by (nonlinear_arith)
            requires
                o > 0,
        ;
        assert(g * u > 0) by (nonlinear_arith)
            requires
                g > 0,
                u > 0,
        ;
    }
    let gu = g * u;
    assert(200 * (along * q) >= 7 * (o * u)) by (nonlinear_arith)
        requires
            100 * along >= 7 * o,
            2 * q >= u,
            u > 0,
            o > 0,
    {
        assert((100 * along) * (2 * q) >= (7 * o) * u) by (nonlinear_arith)
            requires
                100 * along >= 7 * o,
                2 * q >= u,
                u > 0,
                o > 0,
        ;
        assert((100 * along) * (2 * q) == 200 * (along * q)) by (nonlinear_arith);
        assert((7 * o) * u == 7 * (o * u)) by (nonlinear_arith);
    }
    assert(o * u == 0x100000000 * gu) by (nonlinear_arith)
        requires
            gu == g * u,
            o == 0x100000000 * g,
    ;
    assert(a > 0) by (nonlinear_arith)
        requires
            a * o > 0,
            o > 0,
    ;
}

proof fn lemma_short_of(a: int, along: int, q: int, o: int, g: int)
    requires
        o > 0,
        g > 0,
        o == 0x100000000 * g,
        o * o <= 2 * q,
        100 * along <= -(7 * o),
        a * o - along * q <= 16 * (g * (o * o)),
    ensures
        a < 0,
{
    assert((-a) * o == -(a * o) && (-along) * q == -(along * q)) by (nonlinear_arith);
    lemma_beyond(-a, -along, q, o, g);
}

/// How far a bar reaches.
proof fn lemma_reach(spot: Spot, bars: Seq<Bar>, i: int)
    requires
        facing::is_direction(spot.heading),
        0 <= i < bars.len(),
        fits(bars[i]),
    ensures
        ({
            let m = holding_position::bars_mesh(spot, bars);
            let o = Binary64::one() as int;
            let b = bars[i];
            let slack = 32 * (near::grain() as int * (o * o));
            -slack <= reach(spot.heading, m, i) * o - (b.right.value() - b.left.value()) * unit_of(
                spot.heading,
            ) <= slack
        }),
{
    let o = Binary64::one() as int;
    let b = bars[i];
    let h = holding_position::half_bar();
    near::lemma_grain();
    lemma_bars(spot, bars, i);
    lemma_half_bar();
    near::lemma_small_sum(b.along, h, 1, 2);
    near::lemma_small_difference(b.along, h, 1, 2);
    near::lemma_larger(b.along + h, 4, 30000);
    near::lemma_larger(b.along - h, 4, 30000);
    near::lemma_larger(b.left, 29000, 30000);
    near::lemma_larger(b.right, 29000, 30000);
    lemma_corner(spot, b.along - h, b.left);
    lemma_corner(spot, b.along + h, b.right);
    let q = unit_of(spot.heading);
    let m = holding_position::bars_mesh(spot, bars);
    let (x, y) = (right_of(spot.heading, m.vertices[4 * i + 2]), right_of(spot.heading, m.vertices[4 * i]));
    let (r, l) = (b.right.value(), b.left.value());
    assert((x - y) * o == x * o - y * o) by (nonlinear_arith);
    assert((r - l) * q == r * q - l * q) by (nonlinear_arith);
}

/// The bars of a whole line.
proof fn lemma_whole_bar(along: Binary64, width: Binary64)
    requires
        holding_position::width_holds(width),
        near::sized(along, 1),
    ensures
        ({
            let b = holding_position::line_bars(along, width, false)[0];
            &&& b.along == along
            &&& fits(b)
            &&& b.right.value() - b.left.value() >= width.value() - 4 * near::grain()
        }),
{
    let half = Binary64::ratio(1, 2);
    let o = Binary64::one() as int;
    let g = near::grain() as int;
    near::lemma_grain();
    holding_position::no_allowed_width_is_too_complex(width);
    holding_position::lemma_dash_sizes(width, 1);
    holding_position::lemma_half_more(0);
    near::lemma_small_product(width, half, 200, 1);
    near::lemma_opposite_product(width, half);
    binary64::lemma_negate(width);
    near::lemma_small_product(width.negate(), half, 200, 1);
    near::lemma_larger(width * half, 201, 29000);
    near::lemma_larger(width.negate() * half, 201, 29000);
    let (p, w) = ((width * half).value(), width.value());
    assert(2 * p >= w - 2 * g) by (nonlinear_arith)
        requires
            -(g * o) <= p * o - w * half.value(),
            2 * half.value() == o,
            o > 0,
    {
        let t = 2 * p - w + 2 * g;
        assert(t * o == 2 * (p * o) - w * o + 2 * (g * o)) by (nonlinear_arith)
            requires
                t == 2 * p - w + 2 * g,
        ;
        assert(2 * (w * half.value()) == w * o) by (nonlinear_arith)
            requires
                2 * half.value() == o,
        ;
        assert(t >= 0) by (nonlinear_arith)
            requires
                t * o >= 0,
                o > 0,
        ;
    }
}

/// The bars of a dashed line.
proof fn lemma_dash_bar(along: Binary64, width: Binary64, k: int)
    requires
        holding_position::width_holds(width),
        64 * width.value() >= Binary64::one(),
        near::sized(along, 1),
        0 <= k < holding_position::dash_count(width),
    ensures
        ({
            let b = holding_position::line_bars(along, width, true)[k];
            &&& b.along == along
            &&& fits(b)
            &&& 3 * (b.right.value() - b.left.value()) + 192 * near::grain() <= 2 * width.value()
        }),
{
    let n = holding_position::dash_count(width);
    let half = Binary64::ratio(1, 2);
    let share = Binary64::ratio(62, 100);
    let o = Binary64::one() as int;
    let g = near::grain() as int;
    near::lemma_grain();
    holding_position::no_allowed_width_is_too_complex(width);
    holding_position::lemma_dash_sizes(width, n);
    holding_position::lemma_dash_centre(width, n, k);
    holding_position::lemma_half_more(0);
    let cell = width / Binary64::of(n);
    let dash = cell * share;
    near::lemma_small_ratio(62, 100, 1);
    near::lemma_ratio(62, 100);
    near::lemma_small_product(cell, share, 200, 1);
    near::lemma_small_product(dash, half, 201, 1);
    let p = holding_position::dash_centre(width, n, k);
    near::lemma_small_difference(p, dash * half, 16500, 202);
    near::lemma_small_sum(p, dash * half, 16500, 202);
    near::lemma_larger(p - dash * half, 16703, 29000);
    near::lemma_larger(p + dash * half, 16703, 29000);
    let b = holding_position::line_bars(along, width, true)[k];
    assert(b == holding_position::dash_bar(along, width, n, k));
    let (c, w, d, h) = (cell.value(), width.value(), dash.value(), (dash * half).value());
    assert(c <= w + g) by (nonlinear_arith)
        requires
            c * n <= w + g * n,
            n >= 1,
            w >= 0,
            g > 0,
            c >= 0,
    {
        if c > w + g {
            assert(c * n > (w + g) * n) by (nonlinear_arith)
                requires
                    c > w + g,
                    n >= 1,
            ;
            assert((w + g) * n == w * n + g * n) by (nonlinear_arith);
            assert(w * n >= w) by (nonlinear_arith)
                requires
                    w >= 0,
                    n >= 1,
            ;
        }
    }
    assert(100 * d <= 63 * c + 200 * g) by (nonlinear_arith)
        requires
            d * o - c * share.value() <= g * o,
            100 * share.value() <= 62 * o + 100 * g,
            o == 0x100000000 * g,
            c >= 0,
            g > 0,
            o > 0,
    {
        let s = share.value();
        assert(100 * (c * s) <= 63 * (c * o)) by (nonlinear_arith)
            requires
                100 * s <= 63 * o,
                c >= 0,
        ;
        let t = 63 * c + 200 * g - 100 * d;
        assert(t * o == 63 * (c * o) + 200 * (g * o) - 100 * (d * o)) by (nonlinear_arith)
            requires
                t == 63 * c + 200 * g - 100 * d,
        ;
        assert(g * o > 0) by (nonlinear_arith)
            requires
                g > 0,
                o > 0,
        ;
        assert(t >= 0) by (nonlinear_arith)
            requires
                t * o >= 0,
                o > 0,
        ;
    }
    assert(2 * h <= d + 2 * g) by (nonlinear_arith)
        requires
            h * o - d * half.value() <= g * o,
            2 * half.value() == o,
            o > 0,
    {
        let t = d + 2 * g - 2 * h;
        assert(t * o == d * o + 2 * (g * o) - 2 * (h * o)) by (nonlinear_arith)
            requires
                t == d + 2 * g - 2 * h,
        ;
        assert(2 * (d * half.value()) == d * o) by (nonlinear_arith)
            requires
                2 * half.value() == o,
        ;
        assert(t >= 0) by (nonlinear_arith)
            requires
                t * o >= 0,
                o > 0,
        ;
    }
}

/// The bars of the marking by what they are: those of the two lines ahead and
/// of the two behind.
proof fn lemma_bar_kinds(spot: Spot, width: Binary64, forward: bool, i: int)
    requires
        facing::is_direction(spot.heading),
        holding_position::width_holds(width),
        64 * width.value() >= Binary64::one(),
        0 <= i < holding_position::marking_bars(width, forward).len(),
    ensures
        ({
            let b = holding_position::marking_bars(width, forward)[i];
            let o = Binary64::one() as int;
            let span = b.right.value() - b.left.value();
            let g = near::grain();
            &&& fits(b)
            &&& 100 * b.along.value() >= 24 * o || 100 * b.along.value() <= -(24 * o)
            &&& (100 * b.along.value() >= 24 * o) == forward ==> 3 * span + 192 * g <= 2 * width.value()
            &&& (100 * b.along.value() >= 24 * o) != forward ==> span >= width.value() - 4 * g
        }),
{
    let far = Binary64::ratio(75, 100);
    let close_by = Binary64::ratio(25, 100);
    let o = Binary64::one() as int;
    near::lemma_grain();
    holding_position::no_allowed_width_is_too_complex(width);
    near::lemma_small_ratio(75, 100, 1);
    near::lemma_small_ratio(25, 100, 1);
    near::lemma_ratio(75, 100);
    near::lemma_ratio(25, 100);
    binary64::lemma_negate(far);
    binary64::lemma_negate(close_by);
    let l1 = holding_position::line_bars(far.negate(), width, !forward);
    let l2 = holding_position::line_bars(close_by.negate(), width, !forward);
    let l3 = holding_position::line_bars(close_by, width, forward);
    let l4 = holding_position::line_bars(far, width, forward);
    let bars = holding_position::marking_bars(width, forward);
    assert(bars == l1 + l2 + l3 + l4);
    let (n1, n2, n3) = (
        l1.len() as int,
        (l1.len() + l2.len()) as int,
        (l1.len() + l2.len() + l3.len()) as int,
    );
    if i < n1 {
        lemma_line_bar(far.negate(), width, !forward, i);
        assert(bars[i] == l1[i]);
    } else if i < n2 {
        lemma_line_bar(close_by.negate(), width, !forward, i - n1);
        assert(bars[i] == l2[i - n1]);
    } else if i < n3 {
        lemma_line_bar(close_by, width, forward, i - n2);
        assert(bars[i] == l3[i - n2]);
    } else {
        lemma_line_bar(far, width, forward, i - n3);
        assert(bars[i] == l4[i - n3]);
    }
}

proof fn lemma_line_bar(along: Binary64, width: Binary64, dashed: bool, k: int)
    requires
        holding_position::width_holds(width),
        64 * width.value() >= Binary64::one(),
        near::sized(along, 1),
        0 <= k < holding_position::line_bars(along, width, dashed).len(),
    ensures
        ({
            let b = holding_position::line_bars(along, width, dashed)[k];
            let span = b.right.value() - b.left.value();
            let g = near::grain();
            &&& b.along == along
            &&& fits(b)
            &&& dashed ==> 3 * span + 192 * g <= 2 * width.value()
            &&& !dashed ==> span >= width.value() - 4 * g
        }),
{
    holding_position::no_allowed_width_is_too_complex(width);
    if dashed {
        lemma_dash_bar(along, width, k);
    } else {
        lemma_whole_bar(along, width);
    }
}

proof fn lemma_is_dash(r: int, span: int, w: int, q: int, o: int, g: int)
    requires
        o > 0,
        g > 0,
        o * o <= 2 * q,
        3 * span + 192 * g <= 2 * w,
        r * o - span * q <= 32 * (g * (o * o)),
    ensures
        3 * (r * o) <= 2 * (w * q),
{
    let u = o * o;
    assert(g * u <= 2 * (g * q)) by (nonlinear_arith)
        requires
            u <= 2 * q,
            g > 0,
    ;
    assert(q >= 0) by (nonlinear_arith)
        requires
            o * o <= 2 * q,
    ;
    assert(3 * (span * q) + 192 * (g * q) <= 2 * (w * q)) by (nonlinear_arith)
        requires
            3 * span + 192 * g <= 2 * w,
            q >= 0,
    ;
}

proof fn lemma_is_whole(r: int, span: int, w: int, q: int, o: int, g: int)
    requires
        o > 0,
        g > 0,
        o == 0x100000000 * g,
        o * o <= 2 * q,
        64 * w >= o,
        span >= w - 4 * g,
        r * o - span * q >= -(32 * (g * (o * o))),
    ensures
        0x10000 * (r * o) >= 0xffff * (w * q),
{
    let u = o * o;
    assert(g * u <= 2 * (g * q)) by (nonlinear_arith)
        requires
            u <= 2 * q,
            g > 0,
    ;
    assert(q >= 0) by (nonlinear_arith)
        requires
            o * o <= 2 * q,
    ;
    assert(span * q >= w * q - 4 * (g * q)) by (nonlinear_arith)
        requires
            span >= w - 4 * g,
            q >= 0,
    ;
    assert(w * q >= 0x4000000 * (g * q)) by (nonlinear_arith)
        requires
            w >= 0x4000000 * g,
            q >= 0,
    ;
    assert(g * q >= 0) by (nonlinear_arith)
        requires
            g > 0,
            q >= 0,
    ;
}

/// A pilot who comes to the runway meets two whole lines first, and one who
/// leaves it two broken ones. For a runway ahead every bar of the marking that
/// lies ahead is a dash, and every one behind reaches across the taxiway; for a
/// runway behind it is the other way round. There is no bar in between.
pub proof fn the_lines_toward_the_runway_are_broken(
    position: Geodetic,
    heading: Binary64,
    bearing: Bearing,
    width: Binary64,
    side: RunwaySide,
    bar: int,
)
    requires
        facing::is_direction(bearing),
        64 * width.value() >= Binary64::one(),
        holding_position::holding_spec(position, heading, bearing, width, side) is Ok,
        holding_position::holding_spec(position, heading, bearing, width, side)->Ok_0 is Some,
        0 <= bar,
        4 * bar + 3 < holding_position::holding_spec(
            position,
            heading,
            bearing,
            width,
            side,
        )->Ok_0->0.vertices.len(),
    ensures
        ({
            let m = holding_position::holding_spec(position, heading, bearing, width, side)->Ok_0->0;
            &&& lies_ahead(bearing, m, bar) || lies_behind(bearing, m, bar)
            &&& side == RunwaySide::Forward && lies_ahead(bearing, m, bar) ==> is_dash(
                bearing,
                m,
                bar,
                width,
            )
            &&& side == RunwaySide::Forward && lies_behind(bearing, m, bar) ==> is_whole(
                bearing,
                m,
                bar,
                width,
            )
            &&& side == RunwaySide::Backward && lies_ahead(bearing, m, bar) ==> is_whole(
                bearing,
                m,
                bar,
                width,
            )
            &&& side == RunwaySide::Backward && lies_behind(bearing, m, bar) ==> is_dash(
                bearing,
                m,
                bar,
                width,
            )
            &&& m.vertices.len() == 4 * (2 + 2 * holding_position::dash_count(width))
        }),
{
    let spot = Spot { position, heading: bearing };
    let forward = side == RunwaySide::Forward;
    let m = holding_position::marking_view(spot, width, forward);
    let bars = holding_position::marking_bars(width, forward);
    holding_position::a_marking_is_its_bars(spot, width, forward);
    holding_position::changing_the_runway_side_preserves_complexity(spot, width, forward);
    lemma_count(spot, bars);
    lemma_bar_kinds(spot, width, forward, bar);
    lemma_side(spot, bars, bar);
    lemma_reach(spot, bars, bar);
    let o = Binary64::one() as int;
    let g = near::grain() as int;
    near::lemma_grain();
    let b = bars[bar];
    let (q, span) = (unit_of(bearing), b.right.value() - b.left.value());
    if (100 * b.along.value() >= 24 * o) == forward {
        lemma_is_dash(reach(bearing, m, bar), span, width.value(), q, o, g);
    } else {
        lemma_is_whole(reach(bearing, m, bar), span, width.value(), q, o, g);
    }
}

} // verus!
