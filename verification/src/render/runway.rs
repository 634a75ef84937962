//! The runway: pavement, centre line dashes and the bars at both ends.
use crate::binary64;
use crate::binary64::Binary64;
use crate::near;
use crate::render::facing;
use crate::render::mesh;
use crate::render::mesh::{MeshView, SurfaceMesh};
use crate::render::surface::{Bearing, Geodetic, Rgb, SurfaceVertex};
use vstd::prelude::*;

verus! {

/// A rectangle on the runway.
#[derive(Clone, Copy, PartialEq, Eq, Debug, Structural)]
pub struct Strip {
    pub along_near: Binary64,
    pub along_far: Binary64,
    pub across_left: Binary64,
    pub across_right: Binary64,
    pub lift: Binary64,
    pub color: Rgb,
}

/// A mesh with one more strip: near left, near right, far right, far left.
pub open spec fn with_strip(
    m: MeshView<SurfaceVertex>,
    threshold: Geodetic,
    heading: Bearing,
    s: Strip,
) -> MeshView<SurfaceVertex> {
    m.with_quad(
        SurfaceVertex::ahead(threshold, heading, s.along_near, s.across_left, s.lift, s.color),
        SurfaceVertex::ahead(threshold, heading, s.along_near, s.across_right, s.lift, s.color),
        SurfaceVertex::ahead(threshold, heading, s.along_far, s.across_right, s.lift, s.color),
        SurfaceVertex::ahead(threshold, heading, s.along_far, s.across_left, s.lift, s.color),
        false,
    )
}

/// The mesh of strips, in order.
pub open spec fn strips_mesh(threshold: Geodetic, heading: Bearing, strips: Seq<Strip>) -> MeshView<
    SurfaceVertex,
>
    decreases strips.len(),
{
    if strips.len() == 0 {
        MeshView::empty()
    } else {
        with_strip(
            strips_mesh(threshold, heading, strips.drop_last()),
            threshold,
            heading,
            strips.last(),
        )
    }
}

/// Every strip is four vertices and two triangles of a well-formed mesh.
pub proof fn strips_make_well_formed_meshes(
    threshold: Geodetic,
    heading: Bearing,
    strips: Seq<Strip>,
)
    ensures
        strips_mesh(threshold, heading, strips).well_formed(),
        strips_mesh(threshold, heading, strips).vertices.len() == 4 * strips.len(),
        strips_mesh(threshold, heading, strips).indices.len() == 6 * strips.len(),
    decreases strips.len(),
{
    if strips.len() > 0 {
        strips_make_well_formed_meshes(threshold, heading, strips.drop_last());
        let s = strips.last();
        mesh::adding_keeps_meshes_well_formed(
            strips_mesh(threshold, heading, strips.drop_last()),
            SurfaceVertex::ahead(threshold, heading, s.along_near, s.across_left, s.lift, s.color),
            SurfaceVertex::ahead(threshold, heading, s.along_near, s.across_right, s.lift, s.color),
            SurfaceVertex::ahead(threshold, heading, s.along_far, s.across_right, s.lift, s.color),
            SurfaceVertex::ahead(threshold, heading, s.along_far, s.across_left, s.lift, s.color),
            false,
            Seq::empty(),
        );
    }
}

pub open spec fn spec_asphalt() -> Rgb {
    Rgb::thousandths(170, 170, 180)
}

/// A grey that stands out from the ground even at dawn.
#[verifier::when_used_as_spec(spec_asphalt)]
pub fn asphalt() -> (r: Rgb)
    ensures
        r == asphalt(),
{
    Rgb::thousandths(170, 170, 180)
}

pub open spec fn spec_paint() -> Rgb {
    Rgb::thousandths(870, 870, 850)
}

/// The white of the markings.
#[verifier::when_used_as_spec(spec_paint)]
pub fn paint() -> (r: Rgb)
    ensures
        r == paint(),
{
    Rgb::thousandths(870, 870, 850)
}

/// The height of the pavement above the ground.
pub open spec fn pavement_lift() -> Binary64 {
    Binary64::ratio(8, 100)
}

/// The height of the markings above the ground.
pub open spec fn marking_lift() -> Binary64 {
    Binary64::ratio(8, 100) + Binary64::ratio(5, 100)
}

/// The pavement.
pub open spec fn pavement(length: Binary64, width: Binary64) -> Strip {
    Strip {
        along_near: Binary64::of(0),
        along_far: length,
        across_left: width.negate() * Binary64::ratio(1, 2),
        across_right: width * Binary64::ratio(1, 2),
        lift: pavement_lift(),
        color: asphalt(),
    }
}

/// How many dashes of 30 metres, 20 apart, lie between the marked ends: dash
/// `k` begins 56 metres in plus 50 for each before it, and has to end short of
/// the last 56 metres.
pub open spec fn dash_count(length: Binary64) -> int {
    let end = length - Binary64::of(56);
    let one = Binary64::one() as int;
    if end.is_nan() || end.value() <= 86 * one {
        0
    } else {
        (end.value() - 86 * one + 50 * one - 1) / (50 * one)
    }
}

/// The `k`th dash of the centre line.
pub open spec fn dash(k: int) -> Strip {
    Strip {
        along_near: Binary64::of((56 + 50 * k) as i64),
        along_far: Binary64::of((56 + 50 * k) as i64) + Binary64::of(30),
        across_left: Binary64::ratio(9, 10).negate() * Binary64::ratio(1, 2),
        across_right: Binary64::ratio(9, 10) * Binary64::ratio(1, 2),
        lift: marking_lift(),
        color: paint(),
    }
}

/// The `i`th bar: four places at either end, each left before right.
pub open spec fn key(length: Binary64, width: Binary64, i: int) -> Strip {
    let far_end = i / 8 == 1;
    let place = Binary64::of(((i % 8) / 2) as i64);
    let side = if i % 2 == 0 {
        Binary64::of(1).negate()
    } else {
        Binary64::of(1)
    };
    let offset = ((place + Binary64::ratio(1, 2)) * (width * Binary64::ratio(1, 2) - Binary64::of(
        2,
    ))) / Binary64::of(4) + Binary64::ratio(3, 2);
    let half = Binary64::ratio(18, 10) * Binary64::ratio(1, 2);
    Strip {
        along_near: if far_end {
            (length - Binary64::of(6)) - Binary64::of(30)
        } else {
            Binary64::of(6)
        },
        along_far: if far_end {
            length - Binary64::of(6)
        } else {
            Binary64::of(6) + Binary64::of(30)
        },
        across_left: side * offset - half,
        across_right: side * offset + half,
        lift: marking_lift(),
        color: paint(),
    }
}

/// All strips of a runway.
pub open spec fn runway_strips(length: Binary64, width: Binary64) -> Seq<Strip> {
    seq![pavement(length, width)] + Seq::new(dash_count(length) as nat, |k: int| dash(k))
        + Seq::new(16, |i: int| key(length, width, i))
}

/// The runway drawn, and the middle of its pavement, from which it is drawn.
#[derive(Debug)]
pub struct RunwayPlan {
    pub mesh: SurfaceMesh,
    pub origin: SurfaceVertex,
}

/// A dash fits exactly where it is counted.
proof fn lemma_dash_count(length: Binary64, k: int)
    requires
        0 <= k <= 0x40000000,
    ensures
        dash_count(length) >= 0,
        Binary64::of((56 + 50 * k) as i64) + Binary64::of(30) < length - Binary64::of(56) <==> k
            < dash_count(length),
{
    let end = length - Binary64::of(56);
    let one = Binary64::one() as int;
    binary64::lemma_of_sum((56 + 50 * k) as i64, 30);
    binary64::lemma_of((86 + 50 * k) as i64);
    let reach = Binary64::of((86 + 50 * k) as i64);
    binary64::lemma_order(reach, end);
    if !end.is_nan() && end.value() > 86 * one {
        let v = end.value() - 86 * one;
        let d = 50 * one;
        let q = (v + d - 1) / d;
        vstd::arithmetic::div_mod::lemma_fundamental_div_mod(v + d - 1, d);
        let r = (v + d - 1) % d;
        assert((k * d < v) <==> k < q) by (nonlinear_arith)
            requires
                v + d - 1 == d * q + r,
                0 <= r < d,
                d > 0,
        ;
        assert((86 + 50 * k) * one == 86 * one + k * d) by (nonlinear_arith)
            requires
                d == 50 * one,
        ;
        assert(q >= 0) by (nonlinear_arith)
            requires
                v + d - 1 == d * q + r,
                0 <= r < d,
                v > 0,
                d > 0,
        ;
    } else {
        assert((86 + 50 * k) * one >= 86 * one) by (nonlinear_arith)
            requires
                k >= 0,
                one > 0,
        ;
    }
}

/// The dashes of a runway of this length can be numbered.
pub fn can_be_drawn(length: Binary64) -> (r: bool)
    ensures
        r == (dash_count(length) <= 0x3fffffff - 17),
{
    proof {
        lemma_dash_count(length, 0x3fffffff - 17);
    }
    !(Binary64::of(56 + 50 * (0x3fffffff - 17)) + Binary64::of(30)).lt(length - Binary64::of(56))
}

/// Draws a runway from its threshold.
pub fn runway_mesh(threshold: Geodetic, heading: Bearing, length: Binary64, width: Binary64) -> (r:
    RunwayPlan)
    requires
        dash_count(length) <= 0x3fffffff - 17,
    ensures
        r.mesh@ == strips_mesh(threshold, heading, runway_strips(length, width)),
        r.origin == SurfaceVertex::ahead(
            threshold,
            heading,
            length * Binary64::ratio(1, 2),
            Binary64::of(0),
            pavement_lift(),
            asphalt(),
        ),
{
    let half = Binary64::ratio(1, 2);
    let lift = Binary64::ratio(8, 100);
    let marked_lift = Binary64::ratio(8, 100) + Binary64::ratio(5, 100);
    let mut strips: Vec<Strip> = Vec::new();
    strips.push(
        Strip {
            along_near: Binary64::of(0),
            along_far: length,
            across_left: width.negate() * half,
            across_right: width * half,
            lift,
            color: asphalt(),
        },
    );
    let ghost all = runway_strips(length, width);
    proof {
        lemma_dash_count(length, 0);
    }
    let end = length - Binary64::of(56);
    let mut along = Binary64::of(56);
    let mut k: u64 = 0;
    assert(strips@ =~= all.take(1));
    assert(along == Binary64::of((56 + 50 * 0) as i64));
    while (along + Binary64::of(30)).lt(end)
        invariant
            0 <= k <= dash_count(length) <= 0x3fffffff - 17,
            along == Binary64::of((56 + 50 * k) as i64),
            end == length - Binary64::of(56),
            half == Binary64::ratio(1, 2),
            marked_lift == marking_lift(),
            all == runway_strips(length, width),
            strips@ == all.take(1 + k),
        decreases dash_count(length) - k,
    {
        proof {
            lemma_dash_count(length, k as int);
            lemma_dash_count(length, k + 1);
            binary64::lemma_of_sum((56 + 50 * k) as i64, 50);
        }
        strips.push(
            Strip {
                along_near: along,
                along_far: along + Binary64::of(30),
                across_left: Binary64::ratio(9, 10).negate() * half,
                across_right: Binary64::ratio(9, 10) * half,
                lift: marked_lift,
                color: paint(),
            },
        );
        along = along + Binary64::of(50);
        k = k + 1;
        assert(strips@ =~= all.take(1 + k));
    }
    proof {
        lemma_dash_count(length, k as int);
    }
    let mut i: i64 = 0;
    while i < 16
        invariant
            0 <= i <= 16,
            half == Binary64::ratio(1, 2),
            marked_lift == marking_lift(),
            all == runway_strips(length, width),
            0 <= dash_count(length) <= 0x3fffffff - 17,
            strips@ == all.take(1 + dash_count(length) + i),
        decreases 16 - i,
    {
        let place = Binary64::of((i % 8) / 2);
        let side = if i % 2 == 0 {
            Binary64::of(1).negate()
        } else {
            Binary64::of(1)
        };
        let offset = ((place + half) * (width * half - Binary64::of(2))) / Binary64::of(4)
            + Binary64::ratio(3, 2);
        let key_half = Binary64::ratio(18, 10) * half;
        let far_end: bool = i / 8 == 1;
        let strip = Strip {
            along_near: if far_end {
                (length - Binary64::of(6)) - Binary64::of(30)
            } else {
                Binary64::of(6)
            },
            along_far: if far_end {
                length - Binary64::of(6)
            } else {
                Binary64::of(6) + Binary64::of(30)
            },
            across_left: side * offset - key_half,
            across_right: side * offset + key_half,
            lift: marked_lift,
            color: paint(),
        };
        assert(strip == key(length, width, i as int));
        strips.push(strip);
        i = i + 1;
        assert(strips@ =~= all.take(1 + dash_count(length) + i));
    }
    assert(strips@ =~= all);
    let mesh = draw_strips(threshold, heading, &strips);
    let origin = SurfaceVertex::ahead(
        threshold,
        heading,
        length * half,
        Binary64::of(0),
        lift,
        asphalt(),
    );
    RunwayPlan { mesh, origin }
}

/// Draws strips in order.
fn draw_strips(threshold: Geodetic, heading: Bearing, strips: &Vec<Strip>) -> (r: SurfaceMesh)
    requires
        strips@.len() <= 0x3fffffff,
    ensures
        r@ == strips_mesh(threshold, heading, strips@),
{
    let mut out = SurfaceMesh::new();
    let mut k: usize = 0;
    assert(strips@.take(0) =~= Seq::<Strip>::empty());
    while k < strips.len()
        invariant
            k <= strips@.len() <= 0x3fffffff,
            out@ == strips_mesh(threshold, heading, strips@.take(k as int)),
        decreases strips@.len() - k,
    {
        let s = strips[k];
        proof {
            strips_make_well_formed_meshes(threshold, heading, strips@.take(k as int));
            assert(strips@.take(k + 1).drop_last() =~= strips@.take(k as int));
            assert(strips@.take(k + 1).last() == s);
        }
        out.push_quad(
            SurfaceVertex::ahead(threshold, heading, s.along_near, s.across_left, s.lift, s.color),
            SurfaceVertex::ahead(threshold, heading, s.along_near, s.across_right, s.lift, s.color),
            SurfaceVertex::ahead(threshold, heading, s.along_far, s.across_right, s.lift, s.color),
            SurfaceVertex::ahead(threshold, heading, s.along_far, s.across_left, s.lift, s.color),
            false,
        );
        k = k + 1;
    }
    assert(strips@.take(k as int) =~= strips@);
    out
}

/// A strip that does not shrink to nothing when it is placed.
pub open spec fn drawable(s: Strip) -> bool {
    &&& facing::in_reach(s.along_near)
    &&& facing::in_reach(s.along_far)
    &&& facing::in_reach(s.across_left)
    &&& facing::in_reach(s.across_right)
    &&& facing::beyond(s.along_near, s.along_far)
    &&& facing::beyond(s.across_left, s.across_right)
}

/// Every strip faces up.
pub proof fn every_strip_faces_up(threshold: Geodetic, heading: Bearing, strips: Seq<Strip>)
    requires
        facing::is_direction(heading),
        forall|i: int| 0 <= i < strips.len() ==> drawable(#[trigger] strips[i]),
    ensures
        facing::all_face_up(strips_mesh(threshold, heading, strips)),
    decreases strips.len(),
{
    if strips.len() > 0 {
        let rest = strips.drop_last();
        assert forall|i: int| 0 <= i < rest.len() implies drawable(#[trigger] rest[i]) by {
            assert(rest[i] == strips[i]);
        }
        every_strip_faces_up(threshold, heading, rest);
        strips_make_well_formed_meshes(threshold, heading, rest);
        let s = strips[strips.len() - 1];
        assert(drawable(s));
        facing::lemma_with_strip(
            strips_mesh(threshold, heading, rest),
            threshold,
            heading,
            s.along_near,
            s.along_far,
            s.across_left,
            s.across_right,
            s.lift,
            s.color,
        );
    }
}

/// A length and a width such as runways have, and far beyond.
pub open spec fn is_runway(length: Binary64, width: Binary64) -> bool {
    &&& near::sized(length, 0x10000)
    &&& near::sized(width, 0x1000)
    &&& length.value() >= Binary64::one()
    &&& width.value() >= Binary64::one()
}

proof fn lemma_pavement(length: Binary64, width: Binary64)
    requires
        is_runway(length, width),
    ensures
        drawable(pavement(length, width)),
{
    let half = Binary64::ratio(1, 2);
    let one = Binary64::one() as int;
    let g = near::grain() as int;
    near::lemma_grain();
    near::lemma_small_of(0, 0);
    near::lemma_small_ratio(1, 2, 1);
    near::lemma_ratio(1, 2);
    binary64::lemma_negate(width);
    near::lemma_small_product(width, half, 0x1000, 1);
    near::lemma_small_product(width.negate(), half, 0x1000, 1);
    near::lemma_product_between(
        width,
        half,
        0x100000000,
        0x100000000000,
        0x70000000,
        0x90000000,
    );
    let (a, b) = (width.negate() * half, width * half);
    near::lemma_opposite_product(width, half);
    facing::lemma_small_in_reach(length, 0x10000);
    facing::lemma_small_in_reach(Binary64::of(0), 0);
    facing::lemma_small_in_reach(a, 0x1001);
    facing::lemma_small_in_reach(b, 0x1001);
}

proof fn lemma_dash(k: int)
    requires
        0 <= k <= 0x1000,
    ensures
        drawable(dash(k)),
{
    let half = Binary64::ratio(1, 2);
    let wide = Binary64::ratio(9, 10);
    near::lemma_grain();
    near::lemma_small_of((56 + 50 * k) as i64, 0x40000);
    near::lemma_small_of(30, 30);
    near::lemma_small_sum(
        Binary64::of((56 + 50 * k) as i64),
        Binary64::of(30),
        0x40000,
        30,
    );
    near::lemma_small_ratio(9, 10, 1);
    near::lemma_ratio(9, 10);
    near::lemma_small_ratio(1, 2, 1);
    near::lemma_ratio(1, 2);
    binary64::lemma_negate(wide);
    near::lemma_small_product(wide, half, 1, 1);
    near::lemma_small_product(wide.negate(), half, 1, 1);
    near::lemma_product_between(wide, half, 0x80000000, 0x100000000, 0x70000000, 0x90000000);
    near::lemma_opposite_product(wide, half);
    facing::lemma_small_in_reach(Binary64::of((56 + 50 * k) as i64), 0x40000);
    facing::lemma_small_in_reach(
        Binary64::of((56 + 50 * k) as i64) + Binary64::of(30),
        0x4001f,
    );
    facing::lemma_small_in_reach(wide.negate() * half, 2);
    facing::lemma_small_in_reach(wide * half, 2);
}

proof fn lemma_key(length: Binary64, width: Binary64, i: int)
    requires
        is_runway(length, width),
        0 <= i < 16,
    ensures
        drawable(key(length, width, i)),
{
    let place = Binary64::of(((i % 8) / 2) as i64);
    let side = if i % 2 == 0 {
        Binary64::of(1).negate()
    } else {
        Binary64::of(1)
    };
    let half = Binary64::ratio(1, 2);
    near::lemma_grain();
    near::lemma_small_of(((i % 8) / 2) as i64, 3);
    near::lemma_small_of(1, 1);
    near::lemma_small_of(2, 2);
    near::lemma_small_of(4, 4);
    near::lemma_small_of(6, 6);
    near::lemma_small_of(30, 30);
    binary64::lemma_negate(Binary64::of(1));
    near::lemma_small_ratio(1, 2, 1);
    near::lemma_ratio(1, 2);
    near::lemma_small_ratio(3, 2, 2);
    near::lemma_small_ratio(18, 10, 2);
    near::lemma_ratio(18, 10);
    near::lemma_small_sum(place, half, 3, 1);
    near::lemma_small_product(width, half, 0x1000, 1);
    near::lemma_small_difference(width * half, Binary64::of(2), 0x1001, 2);
    let room = width * half - Binary64::of(2);
    near::lemma_small_product(place + half, room, 5, 0x1004);
    let share = (place + half) * room;
    near::lemma_small_quotient(share, Binary64::of(4), 20501);
    near::lemma_small_sum(share / Binary64::of(4), Binary64::ratio(3, 2), 20501, 2);
    let offset = share / Binary64::of(4) + Binary64::ratio(3, 2);
    near::lemma_small_product(side, offset, 1, 20504);
    let thick = Binary64::ratio(18, 10);
    near::lemma_small_product(thick, half, 2, 1);
    near::lemma_product_between(thick, half, 0x100000000, 0x200000000, 0x70000000, 0x90000000);
    let reach: int = 20505;
    near::lemma_small_difference(side * offset, thick * half, reach, 3);
    near::lemma_small_sum(side * offset, thick * half, reach, 3);
    near::lemma_small_difference(length, Binary64::of(6), 0x10000, 6);
    near::lemma_small_difference(length - Binary64::of(6), Binary64::of(30), 0x10007, 30);
    near::lemma_small_sum(Binary64::of(6), Binary64::of(30), 6, 30);
    facing::lemma_small_in_reach(side * offset - thick * half, reach + 4);
    facing::lemma_small_in_reach(side * offset + thick * half, reach + 4);
    facing::lemma_small_in_reach(length - Binary64::of(6), 0x10007);
    facing::lemma_small_in_reach((length - Binary64::of(6)) - Binary64::of(30), 0x10026);
    facing::lemma_small_in_reach(Binary64::of(6), 6);
    facing::lemma_small_in_reach(Binary64::of(6) + Binary64::of(30), 37);
}

/// Every triangle of a runway faces up: pavement, dashes and bars.
pub proof fn a_runway_faces_up(
    threshold: Geodetic,
    heading: Bearing,
    length: Binary64,
    width: Binary64,
)
    requires
        facing::is_direction(heading),
        is_runway(length, width),
    ensures
        facing::all_face_up(strips_mesh(threshold, heading, runway_strips(length, width))),
{
    let strips = runway_strips(length, width);
    let one = Binary64::one() as int;
    let n = dash_count(length);
    near::lemma_grain();
    near::lemma_small_of(56, 56);
    near::lemma_small_difference(length, Binary64::of(56), 0x10000, 56);
    assert(0 <= n <= 0x1000) by {
        let end = (length - Binary64::of(56)).value();
        if end > 86 * one {
            let v = end - 86 * one + 50 * one - 1;
            let d = 50 * one;
            vstd::arithmetic::div_mod::lemma_fundamental_div_mod(v, d);
            assert(0 <= v / d <= 0x1000) by (nonlinear_arith)
                requires
                    v == d * (v / d) + v % d,
                    0 <= v % d < d,
                    0 <= v <= 0x11000 * one,
                    d == 50 * one,
                    one > 0,
            ;
        }
    }
    assert forall|i: int| 0 <= i < strips.len() implies drawable(#[trigger] strips[i]) by {
        if i == 0 {
            lemma_pavement(length, width);
        } else if i < 1 + n {
            lemma_dash(i - 1);
            assert(strips[i] == dash(i - 1));
        } else {
            lemma_key(length, width, i - 1 - n);
            assert(strips[i] == key(length, width, i - 1 - n));
        }
    }
    every_strip_faces_up(threshold, heading, strips);
}

} // verus!
