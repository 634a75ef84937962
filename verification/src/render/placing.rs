//! Planned vertices as they are drawn: once their places on the earth are
//! known, they are taken relative to an origin nearby, where single precision
//! is fine enough.
use crate::binary64;
use crate::binary64::Binary64;
use crate::near;
use crate::render::apron::{ApronMeshError, TriangleMeasure};
use crate::render::holding_position::HoldingMarkingError;
use crate::render::taxiway_lights::TaxiwayLightError;
use crate::render::taxiway_sign::TaxiwaySignMeshError;
use crate::sign;
use crate::vector::{DVec3, Vec3};
use vstd::prelude::*;

verus! {

/// A vertex as it is drawn: its place relative to the origin and the way it
/// faces, both along earth-fixed axes.
#[derive(Clone, Copy, PartialEq, Eq, Debug, Structural)]
pub struct DrawnVertex {
    pub position: Vec3,
    pub normal: Vec3,
}

pub open spec fn spec_draw_vertex(world: DVec3, up: DVec3, origin: DVec3) -> DrawnVertex {
    DrawnVertex { position: world.minus(origin).to_single(), normal: up.to_single() }
}

/// A vertex at an earth-fixed place.
#[verifier::when_used_as_spec(spec_draw_vertex)]
pub fn draw_vertex(world: DVec3, up: DVec3, origin: DVec3) -> (r: DrawnVertex)
    ensures
        r == draw_vertex(world, up, origin),
{
    DrawnVertex { position: world.minus(origin).to_single(), normal: up.to_single() }
}

pub open spec fn spec_up_from(world: DVec3, above: DVec3) -> DVec3 {
    above.minus(world).normalized()
}

/// The way up from a place to one above it.
#[verifier::when_used_as_spec(spec_up_from)]
pub fn up_from(world: DVec3, above: DVec3) -> (r: DVec3)
    ensures
        r == up_from(world, above),
{
    above.minus(world).normalized()
}

/// The place can be drawn around the origin.
pub open spec fn has_place(world: DVec3, up: DVec3, origin: DVec3) -> bool {
    world.minus(origin).is_finite() && up.is_finite()
}

/// All places can be drawn.
pub open spec fn all_have_places(worlds: Seq<DVec3>, ups: Seq<DVec3>, origin: DVec3) -> bool {
    forall|i: int| 0 <= i < worlds.len() ==> has_place(#[trigger] worlds[i], ups[i], origin)
}

/// The vertices of all places, in order.
pub open spec fn drawn(worlds: Seq<DVec3>, ups: Seq<DVec3>, origin: DVec3) -> Seq<DrawnVertex> {
    Seq::new(worlds.len(), |i: int| draw_vertex(worlds[i], ups[i], origin))
}

/// The vertices of a surface; none where one of its places is no place.
pub fn draw_surface(worlds: &Vec<DVec3>, ups: &Vec<DVec3>, origin: DVec3) -> (r: Option<
    Vec<DrawnVertex>,
>)
    requires
        worlds@.len() == ups@.len(),
    ensures
        r is Some <==> all_have_places(worlds@, ups@, origin),
        r is Some ==> r->0@ == drawn(worlds@, ups@, origin),
{
    let mut out: Vec<DrawnVertex> = Vec::new();
    let mut i: usize = 0;
    while i < worlds.len()
        invariant
            i <= worlds@.len(),
            worlds@.len() == ups@.len(),
            forall|k: int| 0 <= k < i ==> has_place(#[trigger] worlds@[k], ups@[k], origin),
            out@ == drawn(worlds@, ups@, origin).take(i as int),
        decreases worlds@.len() - i,
    {
        let world = worlds[i];
        let up = ups[i];
        if !world.minus(origin).is_finite() || !up.is_finite() {
            assert(!has_place(worlds@[i as int], ups@[i as int], origin));
            return None;
        }
        out.push(draw_vertex(world, up, origin));
        proof {
            let whole = drawn(worlds@, ups@, origin);
            assert(whole.take(i + 1) =~= whole.take(i as int).push(whole[i as int]));
        }
        i = i + 1;
    }
    assert(drawn(worlds@, ups@, origin).take(i as int) =~= drawn(worlds@, ups@, origin));
    Some(out)
}

/// The vertices of an apron.
pub fn draw_apron(worlds: &Vec<DVec3>, ups: &Vec<DVec3>, origin: DVec3) -> (r: Result<
    Vec<DrawnVertex>,
    ApronMeshError,
>)
    requires
        worlds@.len() == ups@.len(),
    ensures
        r is Ok <==> all_have_places(worlds@, ups@, origin),
        r is Ok ==> r->Ok_0@ == drawn(worlds@, ups@, origin),
        r is Err ==> r->Err_0 == ApronMeshError::InvalidVertex,
{
    match draw_surface(worlds, ups, origin) {
        Some(vertices) => Ok(vertices),
        None => Err(ApronMeshError::InvalidVertex),
    }
}

/// The vertices of a holding marking.
pub fn draw_marking(worlds: &Vec<DVec3>, ups: &Vec<DVec3>, origin: DVec3) -> (r: Result<
    Vec<DrawnVertex>,
    HoldingMarkingError,
>)
    requires
        worlds@.len() == ups@.len(),
    ensures
        r is Ok <==> all_have_places(worlds@, ups@, origin),
        r is Ok ==> r->Ok_0@ == drawn(worlds@, ups@, origin),
        r is Err ==> r->Err_0 == HoldingMarkingError::InvalidPosition,
{
    match draw_surface(worlds, ups, origin) {
        Some(vertices) => Ok(vertices),
        None => Err(HoldingMarkingError::InvalidPosition),
    }
}

/// The vertices of lights on the ground.
pub fn draw_lights(worlds: &Vec<DVec3>, ups: &Vec<DVec3>, origin: DVec3) -> (r: Result<
    Vec<DrawnVertex>,
    TaxiwayLightError,
>)
    requires
        worlds@.len() == ups@.len(),
    ensures
        r is Ok <==> all_have_places(worlds@, ups@, origin),
        r is Ok ==> r->Ok_0@ == drawn(worlds@, ups@, origin),
        r is Err ==> r->Err_0 == TaxiwayLightError::InvalidLight,
{
    match draw_surface(worlds, ups, origin) {
        Some(vertices) => Ok(vertices),
        None => Err(TaxiwayLightError::InvalidLight),
    }
}

/// A corner: an earth-fixed place and the way up there.
#[derive(Clone, Copy, PartialEq, Eq, Debug, Structural)]
pub struct Corner {
    pub world: DVec3,
    pub up: DVec3,
}

impl Corner {
    pub open spec fn spec_has_place(self, origin: DVec3) -> bool {
        has_place(self.world, self.up, origin)
    }

    /// The corner can be drawn around the origin.
    #[verifier::when_used_as_spec(spec_has_place)]
    pub fn has_place(self, origin: DVec3) -> (r: bool)
        ensures
            r == self.has_place(origin),
    {
        self.world.minus(origin).is_finite() && self.up.is_finite()
    }
}

pub open spec fn spec_measure_triangle(a: Corner, b: Corner, c: Corner, origin: DVec3) -> TriangleMeasure {
    TriangleMeasure {
        facing: b.world.minus(a.world).cross(c.world.minus(a.world)).dot(a.up),
        placed: a.has_place(origin) && b.has_place(origin) && c.has_place(origin),
    }
}

/// How a triangle lies: how far its face is turned up at its first corner, and
/// whether all corners have a place.
#[verifier::when_used_as_spec(spec_measure_triangle)]
pub fn measure_triangle(a: Corner, b: Corner, c: Corner, origin: DVec3) -> (r: TriangleMeasure)
    ensures
        r == measure_triangle(a, b, c, origin),
{
    TriangleMeasure {
        facing: b.world.minus(a.world).cross(c.world.minus(a.world)).dot(a.up),
        placed: a.has_place(origin) && b.has_place(origin) && c.has_place(origin),
    }
}

pub open spec fn spec_face(a: DVec3, b: DVec3, c: DVec3) -> DVec3 {
    b.minus(a).cross(c.minus(a)).normalized()
}

/// The way a face with three corners looks.
#[verifier::when_used_as_spec(spec_face)]
pub fn face(a: DVec3, b: DVec3, c: DVec3) -> (r: DVec3)
    ensures
        r == face(a, b, c),
{
    b.minus(a).cross(c.minus(a)).normalized()
}

/// The way each corner of a sign's rectangles looks: that of its rectangle.
pub open spec fn rect_normal(worlds: Seq<DVec3>, i: int) -> DVec3 {
    face(worlds[i / 4 * 4], worlds[i / 4 * 4 + 1], worlds[i / 4 * 4 + 2])
}

/// All corners of a sign can be drawn.
pub open spec fn sign_has_place(worlds: Seq<DVec3>, origin: DVec3) -> bool {
    forall|i: int|
        0 <= i < worlds.len() ==> has_place(#[trigger] worlds[i], rect_normal(worlds, i), origin)
}

/// The vertices of a sign, in order.
pub open spec fn sign_drawn(worlds: Seq<DVec3>, origin: DVec3) -> Seq<DrawnVertex> {
    Seq::new(worlds.len(), |i: int| draw_vertex(worlds[i], rect_normal(worlds, i), origin))
}

/// The vertices of a sign, four for each rectangle, which looks its own way.
pub fn draw_sign(worlds: &Vec<DVec3>, origin: DVec3) -> (r: Result<
    Vec<DrawnVertex>,
    TaxiwaySignMeshError,
>)
    requires
        worlds@.len() % 4 == 0,
    ensures
        r is Ok <==> sign_has_place(worlds@, origin),
        r is Ok ==> r->Ok_0@ == sign_drawn(worlds@, origin),
        r is Err ==> r->Err_0 == TaxiwaySignMeshError::InvalidPosition,
{
    let mut out: Vec<DrawnVertex> = Vec::new();
    let mut i: usize = 0;
    while i < worlds.len()
        invariant
            i <= worlds@.len(),
            worlds@.len() % 4 == 0,
            forall|k: int|
                0 <= k < i ==> has_place(#[trigger] worlds@[k], rect_normal(worlds@, k), origin),
            out@ == sign_drawn(worlds@, origin).take(i as int),
        decreases worlds@.len() - i,
    {
        let first: usize = i - i % 4;
        assert(first == i / 4 * 4 && first + 3 < worlds@.len());
        let normal = face(worlds[first], worlds[first + 1], worlds[first + 2]);
        let world = worlds[i];
        if !world.minus(origin).is_finite() || !normal.is_finite() {
            assert(!has_place(worlds@[i as int], rect_normal(worlds@, i as int), origin));
            return Err(TaxiwaySignMeshError::InvalidPosition);
        }
        out.push(draw_vertex(world, normal, origin));
        proof {
            let whole = sign_drawn(worlds@, origin);
            assert(whole.take(i + 1) =~= whole.take(i as int).push(whole[i as int]));
        }
        i = i + 1;
    }
    assert(sign_drawn(worlds@, origin).take(i as int) =~= sign_drawn(worlds@, origin));
    Ok(out)
}

/// What is planned is drawn vertex for vertex: as many, and each at its own
/// place, so the plan's triangles are those that are drawn.
pub proof fn every_vertex_keeps_its_number(worlds: Seq<DVec3>, ups: Seq<DVec3>, origin: DVec3, i: int)
    requires
        0 <= i < worlds.len(),
    ensures
        drawn(worlds, ups, origin).len() == worlds.len(),
        drawn(worlds, ups, origin)[i] == draw_vertex(worlds[i], ups[i], origin),
        sign_drawn(worlds, origin).len() == worlds.len(),
        sign_drawn(worlds, origin)[i].position == drawn(worlds, ups, origin)[i].position,
{
}

/// Going round a triangle the other way turns its face over.
pub proof fn going_round_the_other_way_turns_a_triangle_over(
    a: Corner,
    b: Corner,
    c: Corner,
    origin: DVec3,
)
    ensures
        sign::opposite(
            measure_triangle(a, b, c, origin).facing,
            measure_triangle(a, c, b, origin).facing,
        ),
        measure_triangle(a, b, c, origin).placed == measure_triangle(a, c, b, origin).placed,
{
    let u = b.world.minus(a.world);
    let v = c.world.minus(a.world);
    let (p, q) = (u.cross(v), v.cross(u));
    sign::lemma_opposite_difference(u.y * v.z, v.y * u.z);
    sign::lemma_opposite_difference(u.z * v.x, v.z * u.x);
    sign::lemma_opposite_difference(u.x * v.y, v.x * u.y);
    sign::lemma_opposite_factor(p.x, q.x, a.up.x);
    sign::lemma_opposite_factor(p.y, q.y, a.up.y);
    sign::lemma_opposite_factor(p.z, q.z, a.up.z);
    sign::lemma_opposite_sum(p.x * a.up.x, q.x * a.up.x, p.y * a.up.y, q.y * a.up.y);
    sign::lemma_opposite_sum(
        p.x * a.up.x + p.y * a.up.y,
        q.x * a.up.x + q.y * a.up.y,
        p.z * a.up.z,
        q.z * a.up.z,
    );
}

/// A triangle that is drawn faces up, whichever way round it was given: the
/// one that faces down is turned over first.
pub proof fn a_drawn_triangle_faces_up(a: Corner, b: Corner, c: Corner, origin: DVec3)
    requires
        measure_triangle(a, b, c, origin).fault() is None,
    ensures
        measure_triangle(a, b, c, origin).facing < Binary64::of(0) ==> measure_triangle(
            a,
            c,
            b,
            origin,
        ).facing > Binary64::of(0),
        !(measure_triangle(a, b, c, origin).facing < Binary64::of(0)) ==> measure_triangle(
            a,
            b,
            c,
            origin,
        ).facing > Binary64::of(0),
{
    let m = measure_triangle(a, b, c, origin);
    let n = measure_triangle(a, c, b, origin);
    let zero = Binary64::of(0);
    let least = Binary64::ratio(1, 1000000000);
    going_round_the_other_way_turns_a_triangle_over(a, b, c, origin);
    sign::lemma_opposite(m.facing, n.facing);
    binary64::lemma_of(0);
    binary64::lemma_order(m.facing, zero);
    binary64::lemma_order(zero, m.facing);
    binary64::lemma_order(zero, n.facing);
    binary64::lemma_abs(m.facing);
    binary64::lemma_order(m.facing.abs(), least);
    binary64::lemma_order(m.facing, m.facing);
    binary64::lemma_order(n.facing, n.facing);
    near::lemma_ratio(1, 1000000000);
    near::lemma_small_ratio(1, 1000000000, 1);
}

} // verus!
