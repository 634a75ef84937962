//! How the parts of the cabin lie to each other.
use crate::binary64;
use crate::binary64::Binary64;
use crate::near;
use crate::render::cockpit;
use crate::render::cockpit::PartView;
use crate::vector::DVec3;
use vstd::arithmetic::power2::*;
use vstd::prelude::*;

verus! {

/// The first part stands to the left and the second to the right, alike and at
/// the same place along and up.
pub open spec fn left_and_right(l: PartView, r: PartView) -> bool {
    &&& l.size == r.size
    &&& l.color == r.color
    &&& l.place.x == r.place.x
    &&& l.place.z == r.place.z
    &&& l.place.y.value() < 0 < r.place.y.value()
}

/// The first part lies nearer the tail than the second.
pub open spec fn behind(a: PartView, b: PartView) -> bool {
    a.place.x.value() < b.place.x.value()
}

/// In single precision too, more is more where it is a hundredth more.
proof fn lemma_further(p: Binary64, q: Binary64)
    requires
        near::sized(p, 16),
        near::sized(q, 16),
        100 * (q.value() - p.value()) >= Binary64::one() - 1000 * near::grain(),
    ensures
        p.to_binary32().value() < q.to_binary32().value(),
{
    let s = near::single_step() as int;
    near::lemma_grain();
    near::lemma_narrowed(p);
    near::lemma_narrowed(q);
    lemma_pow2_adds(1054, 20);
    lemma_pow2_adds(1042, 12);
    lemma_pow2_pos(1054);
    lemma_pow2_pos(1042);
    lemma2_to64();
    let (x, y) = (p.to_binary32().value(), q.to_binary32().value());
    assert(y * s - x * s > 0);
    assert(x < y) by (nonlinear_arith)
        requires
            y * s - x * s > 0,
            s >= 0,
    ;
}

/// A step of hundredths of a metre, back and on.
proof fn lemma_step(p: Binary64, n: u64)
    requires
        near::sized(p, 12),
        1 <= n < 100,
    ensures
        near::sized(p - Binary64::ratio(n, 100), 16),
        near::sized(p + Binary64::ratio(n, 100), 16),
        near::within(
            100 * (p - Binary64::ratio(n, 100)).value(),
            100 * p.value() - n * Binary64::one(),
            200 * near::grain(),
        ),
        near::within(
            100 * (p + Binary64::ratio(n, 100)).value(),
            100 * p.value() + n * Binary64::one(),
            200 * near::grain(),
        ),
{
    let d = Binary64::ratio(n, 100);
    near::lemma_grain();
    near::lemma_small_ratio(n, 100, 1);
    near::lemma_ratio(n, 100);
    near::lemma_small_difference(p, d, 12, 1);
    near::lemma_small_sum(p, d, 12, 1);
    near::lemma_larger(p - d, 14, 16);
    near::lemma_larger(p + d, 14, 16);
}

/// A part to the left and one to the right, so far from the middle.
proof fn lemma_aside(half: Binary64)
    requires
        near::sized(half, 16),
        100 * half.value() >= Binary64::one(),
    ensures
        half.negate().to_binary32().value() < 0 < half.to_binary32().value(),
{
    let zero = Binary64::of(0);
    near::lemma_grain();
    near::lemma_small_of(0, 16);
    binary64::lemma_of(0);
    binary64::lemma_negate(half);
    binary64::lemma_narrow_zero(zero);
    lemma_further(zero, half);
    lemma_further(half.negate(), zero);
}

/// Half the width of the cabin.
proof fn lemma_half_width()
    ensures
        ({
            let half = cockpit::cabin_width() * Binary64::ratio(5, 10);
            near::sized(half, 16) && 100 * half.value() >= Binary64::one()
        }),
{
    let o = Binary64::one() as int;
    let g = near::grain() as int;
    let (forty, inch, half) = (
        Binary64::of(40),
        Binary64::ratio(254, 10_000),
        Binary64::ratio(5, 10),
    );
    near::lemma_grain();
    near::lemma_small_of(40, 40);
    binary64::lemma_of(40);
    near::lemma_small_ratio(254, 10_000, 1);
    near::lemma_ratio(254, 10_000);
    near::lemma_small_ratio(5, 10, 1);
    near::lemma_ratio(5, 10);
    near::lemma_small_product(forty, inch, 40, 1);
    let wide = forty * inch;
    let (w, i) = (wide.value(), inch.value());
    assert(40 * o * i == (40 * i) * o) by (nonlinear_arith);
    let d = w - 40 * i;
    assert(d * o == w * o - (40 * i) * o) by (nonlinear_arith)
        requires
            d == w - 40 * i,
    ;
    assert(-g <= d <= g) by (nonlinear_arith)
        requires
            -(g * o) <= d * o <= g * o,
            o > 0,
    ;
    assert(o <= w <= 2 * o);
    assert(near::sized(wide, 2));
    near::lemma_small_product(wide, half, 2, 1);
    let (h, r) = (half.value(), (wide * half).value());
    assert(4 * h >= o);
    assert(4 * (w * h) >= o * o) by (nonlinear_arith)
        requires
            w >= o,
            4 * h >= o,
            o > 0,
    ;
    assert(8 * r >= o) by (nonlinear_arith)
        requires
            r * o >= w * h - g * o,
            4 * (w * h) >= o * o,
            o == 0x100000000 * g,
            g > 0,
    ;
    near::lemma_larger(wide * half, 3, 16);
}

/// The cabin round the eye. Walls, door posts and seats stand left and right
/// alike, the pilot's on the left with the yoke before it, and what goes right
/// across stands in the middle. Posts and seats are behind the eye, the roof is
/// above it; the windscreen post stands ahead of the panel, and glareshield,
/// centre stack, throttle, column and yoke reach back from it, the yoke
/// furthest.
#[verifier::spinoff_prover]
#[verifier::rlimit(100)]
pub proof fn the_cabin_lies_round_the_eye(eye: DVec3)
    requires
        near::sized(eye.x, 8),
        near::sized(eye.z, 8),
    ensures
        ({
            let c = cockpit::cabin(eye);
            &&& c.len() == 15
            &&& left_and_right(c[3], c[4]) && c[3].name == "left wall"@ && c[4].name
                == "right wall"@
            &&& left_and_right(c[5], c[6]) && c[5].name == "left door post"@ && c[6].name
                == "right door post"@
            &&& left_and_right(c[13], c[14]) && c[13].name == "pilot seat back"@ && c[14].name
                == "copilot seat back"@
            &&& c[10].place.y == c[13].place.y && c[11].place.y == c[13].place.y
            &&& c[0].place.y.value() == 0 && c[1].place.y.value() == 0 && c[2].place.y.value() == 0
            &&& c[7].place.y.value() == 0 && c[8].place.y.value() == 0 && c[9].place.y.value() == 0
            &&& c[5].place.x.value() < eye.x.to_binary32().value()
            &&& c[13].place.x.value() < eye.x.to_binary32().value()
            &&& behind(c[5], c[13])
            &&& c[7].place.z.value() < eye.z.to_binary32().value()
            &&& behind(c[0], c[8]) && behind(c[1], c[0]) && behind(c[9], c[0]) && behind(
                c[12],
                c[0],
            )
            &&& behind(c[10], c[1]) && behind(c[11], c[10])
        }),
{
    let c = cockpit::cabin(eye);
    let panel = eye.x + cockpit::eye_to_panel();
    near::lemma_grain();
    binary64::lemma_of(0);
    binary64::lemma_narrow_zero(Binary64::of(0));
    lemma_half_width();
    lemma_aside(cockpit::cabin_width() * Binary64::ratio(5, 10));
    near::lemma_small_ratio(25, 100, 1);
    near::lemma_ratio(25, 100);
    near::lemma_larger(Binary64::ratio(25, 100), 1, 16);
    lemma_aside(cockpit::pilot_seat_offset());
    near::lemma_larger(eye.x, 8, 12);
    near::lemma_larger(eye.x, 8, 16);
    near::lemma_larger(eye.z, 8, 12);
    near::lemma_larger(eye.z, 8, 16);
    lemma_step(eye.x, 55);
    lemma_step(eye.x, 45);
    lemma_further(eye.x - Binary64::ratio(55, 100), eye.x);
    lemma_further(eye.x - Binary64::ratio(45, 100), eye.x);
    lemma_further(eye.x - Binary64::ratio(55, 100), eye.x - Binary64::ratio(45, 100));
    lemma_step(eye.z, 32);
    lemma_further(eye.z - Binary64::ratio(32, 100), eye.z);
    lemma_panel(eye.x);
    near::lemma_larger(panel, 11, 12);
    near::lemma_larger(panel, 11, 16);
    lemma_step(panel, 10);
    lemma_step(panel, 8);
    lemma_step(panel, 3);
    lemma_step(panel, 6);
    lemma_step(panel, 16);
    lemma_step(panel, 30);
    lemma_further(panel, panel + Binary64::ratio(10, 100));
    lemma_further(panel - Binary64::ratio(8, 100), panel);
    lemma_further(panel - Binary64::ratio(3, 100), panel);
    lemma_further(panel - Binary64::ratio(6, 100), panel);
    lemma_further(panel - Binary64::ratio(16, 100), panel - Binary64::ratio(8, 100));
    lemma_further(panel - Binary64::ratio(30, 100), panel - Binary64::ratio(16, 100));
}

/// The panel is ahead of the eye.
proof fn lemma_panel(x: Binary64)
    requires
        near::sized(x, 8),
    ensures
        near::sized(x + cockpit::eye_to_panel(), 11),
{
    near::lemma_small_ratio(78, 100, 1);
    near::lemma_small_sum(x, cockpit::eye_to_panel(), 8, 1);
    near::lemma_larger(x + cockpit::eye_to_panel(), 10, 11);
}

} // verus!
