//! How a sign reads: from left to right and from the top down.
use crate::binary64;
use crate::binary64::Binary64;
use crate::near;
use crate::render::layout;
use crate::render::surface::Rgb;
use crate::render::taxiway_sign;
use crate::render::taxiway_sign::{Glyph, SignRect};
use vstd::prelude::*;

verus! {

/// A row of a letter is read from the left: the first of its three pixels
/// stands for four, the second for two and the last for one.
pub proof fn the_first_pixel_of_a_row_counts_most(glyph: Glyph, row: u32)
    requires
        glyph.row(row) <= 7,
    ensures
        glyph.row(row) == (if glyph.lit(row, 0) {
            4int
        } else {
            0
        }) + (if glyph.lit(row, 1) {
            2int
        } else {
            0
        }) + (if glyph.lit(row, 2) {
            1int
        } else {
            0
        }),
{
    let r = glyph.row(row);
    assert(r == 0 || r == 1 || r == 2 || r == 3 || r == 4 || r == 5 || r == 6 || r == 7);
}

/// So many cells of the letter grid, in hundredths, but for rounding.
proof fn lemma_cells(n: i64)
    requires
        0 <= n <= 8,
    ensures
        near::sized(Binary64::of(n) * taxiway_sign::cell(), 9),
        near::within(
            100 * (Binary64::of(n) * taxiway_sign::cell()).value(),
            n * (12 * Binary64::one()),
            1000 * near::grain(),
        ),
{
    let o = Binary64::one() as int;
    let g = near::grain() as int;
    let c = taxiway_sign::cell();
    near::lemma_grain();
    near::lemma_small_of(n, 8);
    binary64::lemma_of(n);
    near::lemma_small_ratio(12, 100, 1);
    near::lemma_ratio(12, 100);
    near::lemma_small_product(Binary64::of(n), c, 8, 1);
    let p = (Binary64::of(n) * c).value();
    let v = c.value();
    assert((n * o) * v == (n * v) * o) by (nonlinear_arith);
    let w = n * v;
    assert(-g <= p - w <= g) by (nonlinear_arith)
        requires
            -(g * o) <= p * o - w * o <= g * o,
            o > 0,
    {
        let d = p - w;
        assert(d * o == p * o - w * o) by (nonlinear_arith)
            requires
                d == p - w,
        ;
        assert((-g) * o == -(g * o)) by (nonlinear_arith);
        assert(-g <= d <= g) by (nonlinear_arith)
            requires
                (-g) * o <= d * o <= g * o,
                o > 0,
        ;
    }
    assert(-(100 * g) <= 100 * v - 12 * o <= 100 * g);
    let e = 100 * v - 12 * o;
    assert(-(800 * g) <= n * e <= 800 * g) by (nonlinear_arith)
        requires
            -(100 * g) <= e <= 100 * g,
            0 <= n <= 8,
            g > 0,
    ;
    assert(n * e == 100 * (n * v) - n * (12 * o)) by (nonlinear_arith)
        requires
            e == 100 * v - 12 * o,
    ;
}

/// Where the square of a pixel lies from the left edge of its letter and the
/// lower edge of the text, in thousandths and but for rounding.
proof fn lemma_square(left: Binary64, i: int, color: Rgb)
    requires
        near::sized(left, 64),
        0 <= i < 15,
    ensures
        ({
            let o = Binary64::one();
            let r = taxiway_sign::pixel_rect(left, i, color);
            let below = taxiway_sign::text_bottom().value();
            let most = 40000 * near::grain();
            &&& near::within(1000 * (r.left.value() - left.value()), (i % 3) * (120 * o), most)
            &&& near::within(
                1000 * (r.right.value() - left.value()),
                (i % 3) * (120 * o) + 95 * o,
                most,
            )
            &&& near::within(1000 * (r.bottom.value() - below), (4 - i / 3) * (120 * o), most)
            &&& near::within(
                1000 * (r.top.value() - below),
                (4 - i / 3) * (120 * o) + 95 * o,
                most,
            )
        }),
{
    let o = Binary64::one() as int;
    near::lemma_grain();
    let wide = Binary64::ratio(95, 1000);
    near::lemma_small_ratio(95, 1000, 1);
    near::lemma_ratio(95, 1000);
    lemma_cells((i % 3) as i64);
    lemma_cells((4 - i / 3) as i64);
    lemma_text_bottom();
    let across = Binary64::of((i % 3) as i64) * taxiway_sign::cell();
    let up = Binary64::of((4 - i / 3) as i64) * taxiway_sign::cell();
    near::lemma_small_sum(left, across, 64, 9);
    near::lemma_small_sum(left + across, wide, 74, 1);
    near::lemma_small_sum(taxiway_sign::text_bottom(), up, 64, 9);
    near::lemma_small_sum(taxiway_sign::text_bottom() + up, wide, 74, 1);
    let (m, n) = (i % 3, 4 - i / 3);
    assert(10 * (m * (12 * o)) == m * (120 * o)) by (nonlinear_arith);
    assert(10 * (n * (12 * o)) == n * (120 * o)) by (nonlinear_arith);
}

proof fn lemma_text_bottom()
    ensures
        near::sized(taxiway_sign::text_bottom(), 64),
{
    near::lemma_grain();
    near::lemma_small_ratio(12, 100, 1);
    near::lemma_small_ratio(48, 100, 1);
    near::lemma_small_ratio(92, 100, 1);
    near::lemma_small_ratio(1, 2, 1);
    near::lemma_small_of(5, 5);
    let five = Binary64::of(5) * taxiway_sign::cell();
    near::lemma_small_product(Binary64::of(5), taxiway_sign::cell(), 5, 1);
    let rest = taxiway_sign::board_height() - five;
    near::lemma_small_difference(taxiway_sign::board_height(), five, 1, 6);
    near::lemma_small_product(rest, Binary64::ratio(1, 2), 8, 1);
    near::lemma_small_sum(taxiway_sign::board_bottom(), rest * Binary64::ratio(1, 2), 1, 9);
    near::lemma_larger(taxiway_sign::text_bottom(), 11, 64);
}

/// The first square lies wholly to the left of the second.
pub open spec fn left_of(a: SignRect, b: SignRect) -> bool {
    a.left.value() < a.right.value() < b.left.value() < b.right.value()
}

/// The first square lies wholly above the second.
pub open spec fn above(a: SignRect, b: SignRect) -> bool {
    b.bottom.value() < b.top.value() < a.bottom.value() < a.top.value()
}

/// The pixels of a letter lie as they are read: one in a later column lies to
/// the right, one in a later row below, and squares never overlap.
pub proof fn a_letter_reads_from_left_to_right_and_down(left: Binary64, i: int, j: int, color: Rgb)
    requires
        near::sized(left, 64),
        0 <= i < 15,
        0 <= j < 15,
    ensures
        ({
            let (a, b) = (
                taxiway_sign::pixel_rect(left, i, color),
                taxiway_sign::pixel_rect(left, j, color),
            );
            &&& i % 3 < j % 3 ==> left_of(a, b)
            &&& i / 3 < j / 3 ==> above(a, b)
        }),
{
    let o = Binary64::one() as int;
    near::lemma_grain();
    lemma_square(left, i, color);
    lemma_square(left, j, color);
    let (m, n) = (i % 3, j % 3);
    if m < n {
        assert(n * (120 * o) >= m * (120 * o) + 120 * o) by (nonlinear_arith)
            requires
                m + 1 <= n,
                o > 0,
        ;
    }
    let (p, q) = (4 - i / 3, 4 - j / 3);
    if q < p {
        assert(p * (120 * o) >= q * (120 * o) + 120 * o) by (nonlinear_arith)
            requires
                q + 1 <= p,
                o > 0,
        ;
    }
}

/// The left edge of a letter, in hundredths, but for rounding.
proof fn lemma_letter(panel_left: Binary64, k: int)
    requires
        near::sized(panel_left, 16),
        0 <= k <= 8,
    ensures
        near::sized(taxiway_sign::character_left(panel_left, k), 18 + 3 * k),
        near::within(
            100 * (taxiway_sign::character_left(panel_left, k).value() - panel_left.value()),
            14 * Binary64::one() + k * (48 * Binary64::one()),
            (400 + 2000 * k) as nat * near::grain(),
        ),
    decreases k,
{
    let o = Binary64::one() as int;
    let g = near::grain() as int;
    near::lemma_grain();
    if k <= 0 {
        near::lemma_small_ratio(14, 100, 1);
        near::lemma_ratio(14, 100);
        near::lemma_small_sum(panel_left, taxiway_sign::padding(), 16, 1);
        assert(k * (48 * o) == 0) by (nonlinear_arith)
            requires
                k == 0,
        ;
        assert((400 + 2000 * k) as nat * near::grain() == 400 * near::grain()) by (nonlinear_arith)
            requires
                k == 0,
        ;
    } else {
        lemma_letter(panel_left, k - 1);
        let (three, one) = (Binary64::of(3), Binary64::of(1));
        binary64::lemma_of_sum(3, 1);
        lemma_cells(4);
        let step = (three + one) * taxiway_sign::cell();
        assert(step == Binary64::of(4) * taxiway_sign::cell());
        let before = taxiway_sign::character_left(panel_left, k - 1);
        assert(-(1000 * g) <= 100 * step.value() - 48 * o <= 1000 * g);
        assert(near::sized(step, 1));
        near::lemma_small_sum(before, step, 15 + 3 * k, 1);
        let after = before + step;
        near::lemma_larger(after, 17 + 3 * k, 18 + 3 * k);
        let j = k - 1;
        assert(k * (48 * o) == j * (48 * o) + 48 * o) by (nonlinear_arith)
            requires
                k == j + 1,
        ;
        let (r, s) = ((400 + 2000 * j) as nat * near::grain(), (400 + 2000 * k) as nat * near::grain());
        assert(s == r + 2000 * near::grain()) by (nonlinear_arith)
            requires
                r == (400 + 2000 * j) as nat * near::grain(),
                s == (400 + 2000 * k) as nat * near::grain(),
                k == j + 1,
                j >= 0,
        ;
    }
}

/// A text reads from left to right: every square of a later letter lies to the
/// right of every square of an earlier one.
pub proof fn a_text_reads_from_left_to_right(
    panel_left: Binary64,
    earlier: int,
    later: int,
    i: int,
    j: int,
    color: Rgb,
)
    requires
        near::sized(panel_left, 16),
        0 <= earlier < later <= 8,
        0 <= i < 15,
        0 <= j < 15,
    ensures
        left_of(
            taxiway_sign::pixel_rect(
                taxiway_sign::character_left(panel_left, earlier),
                i,
                color,
            ),
            taxiway_sign::pixel_rect(taxiway_sign::character_left(panel_left, later), j, color),
        ),
{
    let o = Binary64::one() as int;
    let (a, b) = (
        taxiway_sign::character_left(panel_left, earlier),
        taxiway_sign::character_left(panel_left, later),
    );
    near::lemma_grain();
    lemma_letter(panel_left, earlier);
    lemma_letter(panel_left, later);
    near::lemma_larger(a, 18 + 3 * earlier, 64);
    near::lemma_larger(b, 18 + 3 * later, 64);
    lemma_square(a, i, color);
    lemma_square(b, j, color);
    assert(later * (48 * o) >= earlier * (48 * o) + 48 * o) by (nonlinear_arith)
        requires
            earlier + 1 <= later,
            o > 0,
    ;
    let g = near::grain() as int;
    assert((400 + 2000 * earlier) as nat * near::grain() <= 16400 * g) by (nonlinear_arith)
        requires
            0 <= earlier <= 8,
            g == near::grain(),
            g > 0,
    ;
    assert((400 + 2000 * later) as nat * near::grain() <= 16400 * g) by (nonlinear_arith)
        requires
            0 <= later <= 8,
            g == near::grain(),
            g > 0,
    ;
    let (m, n) = (i % 3, j % 3);
    assert(m * (120 * o) <= 240 * o) by (nonlinear_arith)
        requires
            m <= 2,
            o > 0,
    ;
    assert(n * (120 * o) >= 0) by (nonlinear_arith)
        requires
            n >= 0,
            o > 0,
    ;
}

/// A panel for up to eight characters is a few metres wide.
proof fn lemma_panel_width(n: i64)
    requires
        1 <= n <= 8,
    ensures
        near::sized(taxiway_sign::panel_width(n), 48),
{
    let cell = Binary64::ratio(12, 100);
    let edge = Binary64::ratio(14, 100);
    near::lemma_grain();
    near::lemma_small_of(n, 8);
    near::lemma_small_of(3, 3);
    near::lemma_small_of((n - 1) as i64, 8);
    near::lemma_small_of(2, 2);
    near::lemma_small_ratio(12, 100, 1);
    near::lemma_small_ratio(14, 100, 1);
    near::lemma_small_product(Binary64::of(n), Binary64::of(3), 8, 3);
    let cells = Binary64::of(n) * Binary64::of(3);
    near::lemma_small_product(cells, cell, 25, 1);
    near::lemma_small_product(Binary64::of((n - 1) as i64), cell, 8, 1);
    let gaps = Binary64::of((n - 1) as i64) * cell;
    near::lemma_small_sum(cells * cell, gaps, 26, 9);
    near::lemma_small_product(edge, Binary64::of(2), 1, 2);
    near::lemma_small_sum(cells * cell + gaps, edge * Binary64::of(2), 36, 3);
    near::lemma_larger(taxiway_sign::panel_width(n), 40, 48);
}

/// The reader sees the taxiway's panel on the left and the holding point's on
/// the right, with a gap between them, and the two posts as far to the left of
/// the middle as to the right.
pub proof fn the_taxiway_stands_left_of_the_holding_point(taxiway: Seq<u8>, holding: Seq<u8>)
    requires
        1 <= taxiway.len() <= 8,
        1 <= holding.len() <= 8,
    ensures
        ({
            let rects = taxiway_sign::sign_rects(taxiway, holding);
            &&& rects.len() >= 4
            &&& rects[2].right.value() < rects[3].left.value()
            &&& rects[0].left.value() == -rects[1].right.value()
            &&& rects[0].right.value() == -rects[1].left.value()
        }),
{
    let (a, b) = (
        taxiway_sign::panel_width(taxiway.len() as i64),
        taxiway_sign::panel_width(holding.len() as i64),
    );
    let gap = taxiway_sign::panel_gap();
    let half = Binary64::ratio(1, 2);
    near::lemma_grain();
    lemma_panel_width(taxiway.len() as i64);
    lemma_panel_width(holding.len() as i64);
    near::lemma_small_ratio(5, 100, 1);
    near::lemma_ratio(5, 100);
    near::lemma_small_ratio(1, 2, 1);
    near::lemma_small_sum(a, gap, 48, 1);
    near::lemma_small_sum(a + gap, b, 50, 48);
    let total = (a + gap) + b;
    binary64::lemma_negate(total);
    near::lemma_small_product(total.negate(), half, 99, 1);
    let left = total.negate() * half;
    near::lemma_small_sum(left, a, 100, 48);
    near::lemma_small_sum(left + a, gap, 149, 1);
    let share = Binary64::ratio(32, 100);
    near::lemma_small_ratio(32, 100, 1);
    near::lemma_small_product(total, share, 99, 1);
    near::lemma_small_product(total.negate(), share, 99, 1);
    near::lemma_opposite_product(total, share);
    let (x, y) = (total.negate() * share, total * share);
    let thick = Binary64::ratio(35, 1000);
    near::lemma_small_ratio(35, 1000, 1);
    binary64::lemma_negate(thick);
    assert(x - thick == x + thick.negate());
    assert(y - thick == y + thick.negate());
    layout::lemma_opposite_total(x, thick.negate(), y, thick);
    layout::lemma_opposite_total(x, thick, y, thick.negate());
}

} // verus!
