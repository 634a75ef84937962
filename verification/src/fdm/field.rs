//! What the field of gusts is on its grid.
use crate::binary64;
use crate::binary64::Binary64;
use crate::fdm::turbulence;
use crate::fdm::turbulence::FieldPoint;
use crate::hash;
use vstd::prelude::*;

verus! {

/// The place lies on the grid along every axis.
pub open spec fn on_the_grid(point: FieldPoint) -> bool {
    &&& turbulence::grid_share(point.x).is_finite() && turbulence::grid_share(point.x).value() == 0
    &&& turbulence::grid_share(point.y).is_finite() && turbulence::grid_share(point.y).value() == 0
    &&& turbulence::grid_share(point.z).is_finite() && turbulence::grid_share(point.z).value() == 0
    &&& turbulence::grid_share(point.w).is_finite() && turbulence::grid_share(point.w).value() == 0
}

/// The weight of one end where the share is none: all of the near one, nothing
/// of the far one.
proof fn lemma_end(share: Binary64, far: bool)
    requires
        share.is_finite(),
        share.value() == 0,
    ensures
        turbulence::blend(share, far).is_finite(),
        turbulence::blend(share, far).value() == if far {
            0int
        } else {
            Binary64::one() as int
        },
{
    let one = Binary64::of(1);
    binary64::lemma_of(1);
    binary64::lemma_negate(share);
    assert(one - share == one + share.negate());
    binary64::lemma_sum_between(one, share.negate(), one, one);
}

/// A product of nothing or all of something.
proof fn lemma_both(a: Binary64, b: Binary64)
    requires
        a.is_finite(),
        b.is_finite(),
        a.value() == 0 || a.value() == Binary64::one(),
        b.value() == 0 || b.value() == Binary64::one(),
    ensures
        (a * b).is_finite(),
        (a * b).value() == if a.value() == 0 {
            0int
        } else {
            b.value()
        },
{
    let zero = Binary64::of(0);
    let o = Binary64::one() as int;
    binary64::lemma_of(0);
    assert(0 * o == 0);
    let (x, y) = (a.value(), b.value());
    if x == 0 {
        assert(x * y == 0) by (nonlinear_arith)
            requires
                x == 0,
        ;
        binary64::lemma_product_between(a, b, zero, zero);
    } else {
        assert(x * y == y * o) by (nonlinear_arith)
            requires
                x == o,
        ;
        binary64::lemma_product_between(a, b, b, b);
    }
}

/// On the grid the first corner has all the weight.
proof fn lemma_weight(point: FieldPoint, corner: int)
    requires
        on_the_grid(point),
        0 <= corner < 16,
    ensures
        turbulence::corner_weight(point, corner).is_finite(),
        turbulence::corner_weight(point, corner).value() == if corner == 0 {
            Binary64::one() as int
        } else {
            0int
        },
{
    let (x, y, z, w) = (
        turbulence::grid_share(point.x),
        turbulence::grid_share(point.y),
        turbulence::grid_share(point.z),
        turbulence::grid_share(point.w),
    );
    let (i, j, k, l) = (
        turbulence::far_side(corner, 0),
        turbulence::far_side(corner, 1),
        turbulence::far_side(corner, 2),
        turbulence::far_side(corner, 3),
    );
    lemma_end(x, i);
    lemma_end(y, j);
    lemma_end(z, k);
    lemma_end(w, l);
    let (a, b, c, d) = (
        turbulence::blend(x, i),
        turbulence::blend(y, j),
        turbulence::blend(z, k),
        turbulence::blend(w, l),
    );
    lemma_both(a, b);
    lemma_both(a * b, c);
    lemma_both(a * b * c, d);
    assert(corner == 0 || i || j || k || l);
}

proof fn lemma_first_corners(seed: u64, point: FieldPoint, corners: int)
    requires
        on_the_grid(point),
        1 <= corners <= 16,
    ensures
        turbulence::noise_of(seed, point, corners).is_finite(),
        turbulence::noise_of(seed, point, corners).value() == turbulence::corner_height(
            seed,
            point,
            0,
        ).value(),
    decreases corners,
{
    let o = Binary64::one() as int;
    let zero = Binary64::of(0);
    let last = corners - 1;
    let before = turbulence::noise_of(seed, point, last);
    let weight = turbulence::corner_weight(point, last);
    let height = turbulence::corner_height(seed, point, last);
    binary64::lemma_of(0);
    lemma_weight(point, last);
    let a = hash::mixed(
        seed,
        turbulence::end_bits(point.x, turbulence::far_side(last, 0)),
    );
    let b = hash::mixed(a, turbulence::end_bits(point.y, turbulence::far_side(last, 1)));
    let c = hash::mixed(b, turbulence::end_bits(point.z, turbulence::far_side(last, 2)));
    hash::heights_are_between_minus_one_and_one(
        hash::mixed(c, turbulence::end_bits(point.w, turbulence::far_side(last, 3))),
    );
    let h = height.value();
    binary64::lemma_order(weight, zero);
    if corners == 1 {
        assert(o * h == h * o) by (nonlinear_arith);
        binary64::lemma_product_between(weight, height, height, height);
        binary64::lemma_sum_between(zero, weight * height, height, height);
        assert(before == zero);
    } else {
        lemma_first_corners(seed, point, last);
        assert(0 * h == 0 && 0 * o == 0);
        binary64::lemma_product_between(weight, height, zero, zero);
        binary64::lemma_sum_between(before, weight * height, before, before);
    }
}

/// At a grid point the field is the height there and nothing else: the corner
/// that the place lies on has all the weight, and the other fifteen have none.
pub proof fn on_the_grid_the_field_is_the_height_there(seed: u64, point: FieldPoint)
    requires
        on_the_grid(point),
    ensures
        turbulence::noise_of(seed, point, 16).value() == turbulence::corner_height(
            seed,
            point,
            0,
        ).value(),
{
    lemma_first_corners(seed, point, 16);
}

} // verus!
