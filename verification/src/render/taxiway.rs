//! Taxiways: a centre line widened into pavement, with its yellow marking.
//!
//! The legs alone would leave gaps at the outside of every bend, so a disc is
//! laid over each point.
use crate::binary64;
use crate::binary64::Binary64;
use crate::fold;
use crate::near;
use crate::number;
use crate::render::facing;
use crate::render::mesh;
use crate::render::mesh::{MeshView, SurfaceMesh};
use crate::render::surface::{Bearing, Geodetic, Rgb, SurfaceVertex};
use crate::rounding;
use crate::rounding::Format;
use vstd::arithmetic::power2::*;
use vstd::prelude::*;

verus! {

/// The longest path that is drawn.
pub const MAX_TAXIWAY_POINTS: usize = 4096;

/// The sides of the disc over a point.
pub const JOINT_SIDES: usize = 12;

/// One leg as it lies on the ground.
#[derive(Clone, Copy, PartialEq, Eq, Debug, Structural)]
pub struct LegMeasure {
    /// Whether the displacement from one end to the other is finite.
    pub finite: bool,
    /// The horizontal length.
    pub length: Binary64,
    /// The heading at the start.
    pub heading: Bearing,
}

impl LegMeasure {
    /// The leg has a direction.
    pub open spec fn usable(self) -> bool {
        self.finite && !(self.length <= Binary64::ratio(1, 0x10000000000000))
    }
}

pub open spec fn spec_asphalt() -> Rgb {
    Rgb::thousandths(150, 150, 160)
}

/// The pavement.
#[verifier::when_used_as_spec(spec_asphalt)]
pub fn asphalt() -> (r: Rgb)
    ensures
        r == asphalt(),
{
    Rgb::thousandths(150, 150, 160)
}

pub open spec fn spec_centreline_paint() -> Rgb {
    Rgb::thousandths(880, 620, 80)
}

/// The yellow of the centre line.
#[verifier::when_used_as_spec(spec_centreline_paint)]
pub fn centreline_paint() -> (r: Rgb)
    ensures
        r == centreline_paint(),
{
    Rgb::thousandths(880, 620, 80)
}

/// Lower than a runway, which shows on top where they cross.
pub open spec fn pavement_lift() -> Binary64 {
    Binary64::ratio(6, 100)
}

/// The height of the centre line.
pub open spec fn marking_lift() -> Binary64 {
    Binary64::ratio(6, 100) + Binary64::ratio(5, 100)
}

/// The angle of a corner of the disc.
pub open spec fn spec_joint_angle(side: i64) -> Binary64 {
    (Binary64::of(2) * crate::angle::pi()) * Binary64::of(side) / Binary64::of(12)
}

/// The angle of a corner of the disc.
#[verifier::when_used_as_spec(spec_joint_angle)]
pub fn joint_angle(side: i64) -> (r: Binary64)
    ensures
        r == joint_angle(side),
{
    (Binary64::of(2) * crate::angle::pi()) * Binary64::of(side) / Binary64::of(12)
}

/// How a band or disc is painted.
#[derive(Clone, Copy, PartialEq, Eq, Debug, Structural)]
pub struct Coat {
    pub half_width: Binary64,
    pub lift: Binary64,
    pub color: Rgb,
}

/// The pavement's coat.
pub open spec fn pavement_coat(width: Binary64) -> Coat {
    Coat { half_width: width * Binary64::ratio(1, 2), lift: pavement_lift(), color: asphalt() }
}

/// The centre line's coat: 30 centimetres wide, or the whole taxiway where that
/// is less.
pub open spec fn marking_coat(width: Binary64) -> Coat {
    Coat {
        half_width: Binary64::ratio(3, 10).min(width) * Binary64::ratio(1, 2),
        lift: marking_lift(),
        color: centreline_paint(),
    }
}

/// A point moved sideways.
pub open spec fn spec_lateral(point: Geodetic, heading: Bearing, across: Binary64, coat: Coat) -> SurfaceVertex {
    SurfaceVertex {
        anchor: point,
        north: across.negate() * heading.sin,
        east: across * heading.cos,
        lift: coat.lift,
        color: coat.color.linear(),
    }
}

/// A point moved sideways.
#[verifier::when_used_as_spec(spec_lateral)]
fn lateral(point: Geodetic, heading: Bearing, across: Binary64, coat: Coat) -> (r: SurfaceVertex)
    ensures
        r == spec_lateral(point, heading, across, coat),
{
    SurfaceVertex {
        anchor: point,
        north: across.negate() * heading.sin,
        east: across * heading.cos,
        lift: coat.lift,
        color: coat.color.linear(),
    }
}

/// A mesh with a band along a leg.
pub open spec fn with_band(
    m: MeshView<SurfaceVertex>,
    near: Geodetic,
    far: Geodetic,
    heading: Bearing,
    coat: Coat,
) -> MeshView<SurfaceVertex> {
    let w = coat.half_width;
    m.with_quad(
        spec_lateral(near, heading, w.negate(), coat),
        spec_lateral(near, heading, w, coat),
        spec_lateral(far, heading, w, coat),
        spec_lateral(far, heading, w.negate(), coat),
        false,
    )
}

/// The centre of a disc.
pub open spec fn disc_centre(point: Geodetic, coat: Coat) -> SurfaceVertex {
    SurfaceVertex {
        anchor: point,
        north: Binary64::of(0),
        east: Binary64::of(0),
        lift: coat.lift,
        color: coat.color.linear(),
    }
}

/// The corners of a disc, `ring` holding the cosines and sines of their angles.
pub open spec fn disc_ring(point: Geodetic, ring: Seq<Bearing>, coat: Coat) -> Seq<SurfaceVertex> {
    Seq::new(
        ring.len(),
        |i: int|
            SurfaceVertex {
                anchor: point,
                north: coat.half_width * ring[i].cos,
                east: coat.half_width * ring[i].sin,
                lift: coat.lift,
                color: coat.color.linear(),
            },
    )
}

/// A mesh with a disc over a point. North to east runs clockwise seen from
/// above, and the fan runs against it to face up.
pub open spec fn with_disc(
    m: MeshView<SurfaceVertex>,
    point: Geodetic,
    ring: Seq<Bearing>,
    coat: Coat,
) -> MeshView<SurfaceVertex> {
    m.with_fan(disc_centre(point, coat), disc_ring(point, ring, coat))
}

/// The bands of the first `k` legs, pavement under marking; a leg without a
/// direction has none.
pub open spec fn bands(
    points: Seq<Geodetic>,
    measures: Seq<LegMeasure>,
    width: Binary64,
    k: int,
) -> MeshView<SurfaceVertex>
    decreases k,
{
    if k <= 0 {
        MeshView::empty()
    } else {
        let before = bands(points, measures, width, k - 1);
        let leg = measures[k - 1];
        if leg.usable() {
            with_band(
                with_band(before, points[k - 1], points[k], leg.heading, pavement_coat(width)),
                points[k - 1],
                points[k],
                leg.heading,
                marking_coat(width),
            )
        } else {
            before
        }
    }
}

/// How many of the first `k` legs have a direction.
pub open spec fn usable_legs(measures: Seq<LegMeasure>, k: int) -> nat
    decreases k,
{
    if k <= 0 {
        0
    } else {
        usable_legs(measures, k - 1) + if measures[k - 1].usable() {
            1nat
        } else {
            0nat
        }
    }
}

/// A mesh with discs over the first `k` points, pavement under marking.
pub open spec fn with_discs(
    m: MeshView<SurfaceVertex>,
    points: Seq<Geodetic>,
    ring: Seq<Bearing>,
    width: Binary64,
    k: int,
) -> MeshView<SurfaceVertex>
    decreases k,
{
    if k <= 0 {
        m
    } else {
        with_disc(
            with_disc(
                with_discs(m, points, ring, width, k - 1),
                points[k - 1],
                ring,
                pavement_coat(width),
            ),
            points[k - 1],
            ring,
            marking_coat(width),
        )
    }
}

/// The whole taxiway.
pub open spec fn taxiway_view(
    points: Seq<Geodetic>,
    measures: Seq<LegMeasure>,
    ring: Seq<Bearing>,
    width: Binary64,
) -> MeshView<SurfaceVertex> {
    with_discs(
        bands(points, measures, width, points.len() - 1),
        points,
        ring,
        width,
        points.len() as int,
    )
}

/// The path and the width can be drawn, apart from the legs' directions.
pub open spec fn drawable(points: Seq<Geodetic>, width: Binary64) -> bool {
    &&& 2 <= points.len() <= MAX_TAXIWAY_POINTS
    &&& width.is_finite()
    &&& !(width <= Binary64::of(0))
    &&& forall|i: int| 0 <= i < points.len() ==> (#[trigger] points[i]).valid_point()
}

/// Eight vertices for each leg with a direction, in a well-formed mesh.
pub proof fn bands_are_well_formed(
    points: Seq<Geodetic>,
    measures: Seq<LegMeasure>,
    width: Binary64,
    k: int,
)
    requires
        0 <= k,
    ensures
        bands(points, measures, width, k).well_formed(),
        bands(points, measures, width, k).vertices.len() == 8 * usable_legs(measures, k),
        bands(points, measures, width, k).indices.len() == 12 * usable_legs(measures, k),
        usable_legs(measures, k) <= k,
    decreases k,
{
    if k > 0 {
        bands_are_well_formed(points, measures, width, k - 1);
        let before = bands(points, measures, width, k - 1);
        let leg = measures[k - 1];
        let near = points[k - 1];
        let far = points[k];
        lemma_band_well_formed(before, near, far, leg.heading, pavement_coat(width));
        lemma_band_well_formed(
            with_band(before, near, far, leg.heading, pavement_coat(width)),
            near,
            far,
            leg.heading,
            marking_coat(width),
        );
    }
}

proof fn lemma_band_well_formed(
    m: MeshView<SurfaceVertex>,
    near: Geodetic,
    far: Geodetic,
    heading: Bearing,
    coat: Coat,
)
    requires
        m.well_formed(),
    ensures
        with_band(m, near, far, heading, coat).well_formed(),
{
    let w = coat.half_width;
    mesh::adding_keeps_meshes_well_formed(
        m,
        spec_lateral(near, heading, w.negate(), coat),
        spec_lateral(near, heading, w, coat),
        spec_lateral(far, heading, w, coat),
        spec_lateral(far, heading, w.negate(), coat),
        false,
        Seq::empty(),
    );
}

/// A taxiway is a well-formed mesh with eight vertices for each leg that has a
/// direction and 26 for each point.
pub proof fn a_taxiway_is_well_formed(
    m: MeshView<SurfaceVertex>,
    points: Seq<Geodetic>,
    ring: Seq<Bearing>,
    width: Binary64,
    k: int,
)
    requires
        m.well_formed(),
        ring.len() == JOINT_SIDES,
        0 <= k,
    ensures
        with_discs(m, points, ring, width, k).well_formed(),
        with_discs(m, points, ring, width, k).vertices.len() == m.vertices.len() + 26 * k,
        with_discs(m, points, ring, width, k).indices.len() == m.indices.len() + 72 * k,
    decreases k,
{
    if k > 0 {
        a_taxiway_is_well_formed(m, points, ring, width, k - 1);
        let before = with_discs(m, points, ring, width, k - 1);
        let point = points[k - 1];
        let middle = with_disc(before, point, ring, pavement_coat(width));
        let c1 = disc_centre(point, pavement_coat(width));
        let c2 = disc_centre(point, marking_coat(width));
        mesh::adding_keeps_meshes_well_formed(
            before,
            c1,
            c1,
            c1,
            c1,
            false,
            disc_ring(point, ring, pavement_coat(width)),
        );
        mesh::adding_keeps_meshes_well_formed(
            middle,
            c2,
            c2,
            c2,
            c2,
            false,
            disc_ring(point, ring, marking_coat(width)),
        );
    }
}

/// The taxiway drawn, and the place it is drawn from.
#[derive(Debug)]
pub struct TaxiwayPlan {
    pub mesh: SurfaceMesh,
    pub origin: Geodetic,
}

fn push_band(
    out: &mut SurfaceMesh,
    near: Geodetic,
    far: Geodetic,
    heading: Bearing,
    coat: Coat,
)
    requires
        old(out)@.vertices.len() <= 1000000,
    ensures
        final(out)@ == with_band(old(out)@, near, far, heading, coat),
{
    let right = coat.half_width;
    let left = right.negate();
    out.push_quad(
        lateral(near, heading, left, coat),
        lateral(near, heading, right, coat),
        lateral(far, heading, right, coat),
        lateral(far, heading, left, coat),
        false,
    );
}

fn push_disc(out: &mut SurfaceMesh, point: Geodetic, ring: &Vec<Bearing>, coat: Coat)
    requires
        old(out)@.vertices.len() <= 1000000,
        ring@.len() == JOINT_SIDES,
    ensures
        final(out)@ == with_disc(old(out)@, point, ring@, coat),
{
    let centre = SurfaceVertex {
        anchor: point,
        north: Binary64::of(0),
        east: Binary64::of(0),
        lift: coat.lift,
        color: coat.color.linear(),
    };
    let mut corners: Vec<SurfaceVertex> = Vec::new();
    let mut i: usize = 0;
    while i < ring.len()
        invariant
            i <= ring@.len(),
            corners@ == disc_ring(point, ring@, coat).take(i as int),
        decreases ring@.len() - i,
    {
        let corner = SurfaceVertex {
            anchor: point,
            north: coat.half_width * ring[i].cos,
            east: coat.half_width * ring[i].sin,
            lift: coat.lift,
            color: coat.color.linear(),
        };
        corners.push(corner);
        i = i + 1;
        assert(corners@ =~= disc_ring(point, ring@, coat).take(i as int));
    }
    assert(corners@ =~= disc_ring(point, ring@, coat));
    out.push_fan(centre, &corners);
}

/// Draws a taxiway from its centre line, at the altitudes its points have.
///
/// `measures` holds each leg's displacement and `ring` the cosine and sine of
/// each joint angle. Nothing comes back where the path is too short or too
/// long, the width is not a positive number, a point is off the globe, or no
/// leg has a direction.
pub fn taxiway_mesh(
    points: &Vec<Geodetic>,
    width: Binary64,
    measures: &Vec<LegMeasure>,
    ring: &Vec<Bearing>,
) -> (r: Option<TaxiwayPlan>)
    requires
        points@.len() <= measures@.len() + 1,
        ring@.len() == JOINT_SIDES,
    ensures
        r is Some <==> drawable(points@, width) && usable_legs(measures@, points@.len() - 1) > 0,
        r is Some ==> r->0.mesh@ == taxiway_view(points@, measures@, ring@, width) && r->0.origin
            == points@[0].lifted(pavement_lift()),
{
    if points.len() < 2 || points.len() > MAX_TAXIWAY_POINTS || !width.is_finite() || width.le(
        Binary64::of(0),
    ) {
        return None;
    }
    let mut i: usize = 0;
    while i < points.len()
        invariant
            i <= points@.len(),
            forall|j: int| 0 <= j < i ==> (#[trigger] points@[j]).valid_point(),
        decreases points@.len() - i,
    {
        if !points[i].valid_point() {
            assert(!points@[i as int].valid_point());
            return None;
        }
        i = i + 1;
    }
    let origin = points[0].lifted(Binary64::ratio(6, 100));
    let pavement = Coat {
        half_width: width * Binary64::ratio(1, 2),
        lift: Binary64::ratio(6, 100),
        color: asphalt(),
    };
    let marking = Coat {
        half_width: Binary64::ratio(3, 10).min(width) * Binary64::ratio(1, 2),
        lift: Binary64::ratio(6, 100) + Binary64::ratio(5, 100),
        color: centreline_paint(),
    };
    let shortest = Binary64::ratio(1, 0x10000000000000);
    let mut out = SurfaceMesh::new();
    let mut drawn: usize = 0;
    let legs: usize = points.len() - 1;
    let mut k: usize = 0;
    while k < legs
        invariant
            k <= legs,
            legs == points@.len() - 1,
            legs < MAX_TAXIWAY_POINTS,
            legs <= measures@.len(),
            pavement == pavement_coat(width),
            marking == marking_coat(width),
            shortest == Binary64::ratio(1, 0x10000000000000),
            out@ == bands(points@, measures@, width, k as int),
            drawn == usable_legs(measures@, k as int),
            drawn <= k,
        decreases legs - k,
    {
        let leg = measures[k];
        proof {
            bands_are_well_formed(points@, measures@, width, k as int);
        }
        if leg.finite && !leg.length.le(shortest) {
            push_band(&mut out, points[k], points[k + 1], leg.heading, pavement);
            push_band(&mut out, points[k], points[k + 1], leg.heading, marking);
            drawn = drawn + 1;
        }
        k = k + 1;
    }
    if drawn == 0 {
        return None;
    }
    let ghost banded = out@;
    proof {
        bands_are_well_formed(points@, measures@, width, legs as int);
    }
    let mut p: usize = 0;
    while p < points.len()
        invariant
            p <= points@.len() <= MAX_TAXIWAY_POINTS,
            ring@.len() == JOINT_SIDES,
            banded.well_formed(),
            banded.vertices.len() <= 8 * MAX_TAXIWAY_POINTS,
            pavement == pavement_coat(width),
            marking == marking_coat(width),
            out@ == with_discs(banded, points@, ring@, width, p as int),
        decreases points@.len() - p,
    {
        proof {
            a_taxiway_is_well_formed(banded, points@, ring@, width, p as int);
        }
        push_disc(&mut out, points[p], ring, pavement);
        push_disc(&mut out, points[p], ring, marking);
        p = p + 1;
    }
    Some(TaxiwayPlan { mesh: out, origin })
}

/// How much of the normal of a triangle of places, north and east, points up.
pub open spec fn rise(a: (int, int), b: (int, int), c: (int, int)) -> int {
    (b.1 - a.1) * (c.0 - a.0) - (b.0 - a.0) * (c.1 - a.1)
}

/// Where the corners of a band lie, seen from its near end: the far end lies
/// `north` and `east` of it.
pub open spec fn band_corners(heading: Bearing, coat: Coat, near: Geodetic, north: int, east: int) -> (
    (int, int),
    (int, int),
    (int, int),
    (int, int),
) {
    let left = spec_lateral(near, heading, coat.half_width.negate(), coat);
    let right = spec_lateral(near, heading, coat.half_width, coat);
    (
        (left.north.value(), left.east.value()),
        (right.north.value(), right.east.value()),
        (right.north.value() + north, right.east.value() + east),
        (left.north.value() + north, left.east.value() + east),
    )
}

/// A band faces up exactly where its far end lies ahead of the line across its
/// near end. Where the far end lies, the shape of the earth decides.
pub proof fn a_band_faces_up_where_its_far_end_lies_ahead(
    heading: Bearing,
    coat: Coat,
    near: Geodetic,
    north: int,
    east: int,
)
    requires
        heading.sin.is_finite(),
        heading.cos.is_finite(),
        coat.half_width.is_finite(),
    ensures
        ({
            let (a, b, c, d) = band_corners(heading, coat, near, north, east);
            let ahead = (coat.half_width * heading.cos).value() * north + (coat.half_width
                * heading.sin).value() * east;
            &&& rise(a, b, c) == 2 * ahead
            &&& rise(a, c, d) == 2 * ahead
        }),
{
    let w = coat.half_width;
    binary64::lemma_negate(w);
    near::lemma_opposite_product(w, heading.sin);
    near::lemma_opposite_product(w, heading.cos);
    let (e, n) = ((w * heading.cos).value(), (w * heading.sin).value());
    assert(w.negate().negate() == w);
    assert((2 * e) * (north - 2 * n) - (-2 * n) * (2 * e + east) == 2 * (e * north + n * east))
        by (nonlinear_arith);
    assert((2 * e + east) * north - (north - 2 * n) * east == 2 * (e * north + n * east))
        by (nonlinear_arith);
}

/// The far end of a leg lies where the measure says, `north` and `east` of the
/// near end in counts: the length away along the heading, but for a sixteenth.
pub open spec fn leads_to(leg: LegMeasure, north: int, east: int) -> bool {
    let o = Binary64::one() as int;
    let l = leg.length.value();
    &&& leg.length.is_finite()
    &&& facing::is_direction(leg.heading)
    &&& -(l * o) <= 16 * (north * o - l * leg.heading.cos.value()) <= l * o
    &&& -(l * o) <= 16 * (east * o - l * leg.heading.sin.value()) <= l * o
}

/// The larger of two rounded components decides the sign of what they come to.
proof fn lemma_leads(w: Binary64, p: Binary64, q: Binary64, l: int, x: int, y: int)
    requires
        w.is_finite(),
        w.value() >= 2,
        p.is_finite(),
        q.is_finite(),
        number::magnitude_of(q.value()) <= number::magnitude_of(p.value()),
        2 * number::magnitude_of(p.value()) >= Binary64::one(),
        l > 0,
        -(l * Binary64::one()) <= 16 * (x * Binary64::one() - l * p.value()) <= l * Binary64::one(),
        -(l * Binary64::one()) <= 16 * (y * Binary64::one() - l * q.value()) <= l * Binary64::one(),
    ensures
        (w * p).value() * x + (w * q).value() * y > 0,
{
    let o = Binary64::one() as int;
    let (a, b, v) = (p.value(), q.value(), w.value());
    let (m, n) = (number::magnitude_of(a) as int, number::magnitude_of(b) as int);
    let f = Format::Double;
    near::lemma_grain();
    number::lemma_constants(f);
    binary64::lemma_mul(w, p);
    binary64::lemma_mul(w, q);
    let (u, t) = ((w * p).value(), (w * q).value());
    assert(v * a == v * m || v * a == -(v * m)) by (nonlinear_arith)
        requires
            m == a || m == -a,
    ;
    assert(v * b == v * n || v * b == -(v * n)) by (nonlinear_arith)
        requires
            n == b || n == -b,
    ;
    assert(0 <= v * n <= v * m && o <= v * m && (b > 0 ==> v * b > 0) && (b < 0 ==> v * b < 0) && (b
        == 0 ==> v * b == 0) && (a > 0 ==> v * a > 0) && (a < 0 ==> v * a < 0)) by (nonlinear_arith)
        requires
            0 <= n <= m,
            2 * m >= o,
            v >= 2,
            m == a || m == -a,
            n == b || n == -b,
            o > 0,
    ;
    let (g, h) = (f.round((v * m) as nat, o as nat) as int, f.round((v * n) as nat, o as nat) as int);
    rounding::lemma_round_monotone(f, (v * n) as nat, (v * m) as nat, o as nat);
    rounding::lemma_round_monotone(f, o as nat, (v * m) as nat, o as nat);
    lemma2_to64();
    assert(1 * pow2(0) == 1);
    lemma_pow2_strictly_increases(0, 2098);
    fold::lemma_on_scale(f, 1, 0);
    rounding::lemma_round_scale(f, 1, 1, o as nat);
    assert(1 * o == o);
    assert(g >= 1 && 0 <= h <= g);
    assert(u == if a > 0 {
        g
    } else {
        -g
    });
    assert(t == h || t == -h);
    assert(b > 0 ==> t == h);
    assert(b < 0 ==> t == -h);
    rounding::lemma_round_zero(f, o as nat);
    lemma_leads_count(o, a, b, l, x, y, g, h, u, t);
}

proof fn lemma_leads_count(
    o: int,
    a: int,
    b: int,
    l: int,
    x: int,
    y: int,
    g: int,
    h: int,
    u: int,
    t: int,
)
    requires
        o > 0,
        l > 0,
        g >= 1,
        0 <= h <= g,
        2 * a >= o || 2 * a <= -o,
        a > 0 ==> u == g,
        a < 0 ==> u == -g,
        t == h || t == -h,
        b > 0 ==> t == h,
        b < 0 ==> t == -h,
        b == 0 ==> t == 0,
        -(l * o) <= 16 * (x * o - l * a) <= l * o,
        -(l * o) <= 16 * (y * o - l * b) <= l * o,
    ensures
        u * x + t * y > 0,
{
    if a > 0 {
        assert(16 * x >= 7 * l) by (nonlinear_arith)
            requires
                16 * (x * o - l * a) >= -(l * o),
                2 * a >= o,
                o > 0,
                l > 0,
        ;
        assert(16 * (u * x) >= 7 * (g * l)) by (nonlinear_arith)
            requires
                16 * x >= 7 * l,
                u == g,
                g >= 1,
        ;
    } else {
        assert(-(16 * x) >= 7 * l) by (nonlinear_arith)
            requires
                16 * (x * o - l * a) <= l * o,
                2 * a <= -o,
                o > 0,
                l > 0,
        ;
        assert(16 * (u * x) >= 7 * (g * l)) by (nonlinear_arith)
            requires
                -(16 * x) >= 7 * l,
                u == -g,
                g >= 1,
        ;
    }
    assert(16 * (t * y) >= -(g * l)) by {
        if b > 0 {
            assert(16 * y >= -l) by (nonlinear_arith)
                requires
                    16 * (y * o - l * b) >= -(l * o),
                    b > 0,
                    o > 0,
                    l > 0,
            ;
            assert(16 * (t * y) >= -(g * l)) by (nonlinear_arith)
                requires
                    16 * y >= -l,
                    t == h,
                    0 <= h <= g,
                    l > 0,
            ;
        } else if b < 0 {
            assert(16 * y <= l) by (nonlinear_arith)
                requires
                    16 * (y * o - l * b) <= l * o,
                    b < 0,
                    o > 0,
                    l > 0,
            ;
            assert(16 * (t * y) >= -(g * l)) by (nonlinear_arith)
                requires
                    16 * y <= l,
                    t == -h,
                    0 <= h <= g,
                    l > 0,
            ;
        } else {
            assert(t * y == 0) by (nonlinear_arith)
                requires
                    t == 0,
            ;
            assert(g * l >= 0) by (nonlinear_arith)
                requires
                    g >= 1,
                    l > 0,
            ;
        }
    }
    assert(g * l > 0) by (nonlinear_arith)
        requires
            g >= 1,
            l > 0,
    ;
}

/// Half of a width is above nothing.
proof fn lemma_half_width(width: Binary64)
    requires
        width.is_finite(),
        width.value() >= 4,
    ensures
        (width * Binary64::ratio(1, 2)).is_finite(),
        (width * Binary64::ratio(1, 2)).value() >= 2,
{
    let half = Binary64::ratio(1, 2);
    let o = Binary64::one() as int;
    near::lemma_grain();
    binary64::lemma_halves(1);
    binary64::lemma_half_finite(width);
    let f = Format::Double;
    number::lemma_constants(f);
    lemma2_to64();
    assert(1 * pow2(1) == 2);
    lemma_pow2_strictly_increases(1, 2098);
    fold::lemma_on_scale(f, 1, 1);
    rounding::lemma_round_scale(f, 2, 1, o as nat);
    assert(1 * o == o);
    binary64::lemma_mul(width, half);
    let v = width.value();
    assert(2 * o <= v * half.value()) by (nonlinear_arith)
        requires
            v >= 4,
            2 * half.value() == o,
            o > 0,
    ;
    binary64::lemma_round_monotone(2 * o, v * half.value(), o as nat);
}

/// Every band that is laid faces up, pavement and marking alike: where a leg
/// has a direction and leads to its far end, both triangles of either band do.
pub proof fn every_band_that_is_laid_faces_up(
    leg: LegMeasure,
    width: Binary64,
    near_end: Geodetic,
    north: int,
    east: int,
)
    requires
        leg.usable(),
        leads_to(leg, north, east),
        width.is_finite(),
        width.value() >= 4,
    ensures
        ({
            let (a, b, c, d) = band_corners(
                leg.heading,
                pavement_coat(width),
                near_end,
                north,
                east,
            );
            rise(a, b, c) > 0 && rise(a, c, d) > 0
        }),
        ({
            let (a, b, c, d) = band_corners(leg.heading, marking_coat(width), near_end, north, east);
            rise(a, b, c) > 0 && rise(a, c, d) > 0
        }),
{
    let line = Binary64::ratio(3, 10);
    near::lemma_grain();
    binary64::lemma_ratio_share(3, 10);
    binary64::lemma_ratio_positive(3, 10);
    near::lemma_ratio(3, 10);
    assert(line.value() >= 4);
    binary64::lemma_order(width, line);
    binary64::lemma_order(line, width);
    lemma_half_width(width);
    lemma_half_width(line.min(width));
    lemma_laid(leg, pavement_coat(width), near_end, north, east);
    lemma_laid(leg, marking_coat(width), near_end, north, east);
}

proof fn lemma_laid(leg: LegMeasure, coat: Coat, near_end: Geodetic, north: int, east: int)
    requires
        leg.usable(),
        leads_to(leg, north, east),
        coat.half_width.is_finite(),
        coat.half_width.value() >= 2,
    ensures
        ({
            let (a, b, c, d) = band_corners(leg.heading, coat, near_end, north, east);
            rise(a, b, c) > 0 && rise(a, c, d) > 0
        }),
{
    let (w, h) = (coat.half_width, leg.heading);
    let o = Binary64::one() as int;
    let l = leg.length.value();
    near::lemma_grain();
    binary64::lemma_of(0);
    lemma_usable(leg);
    let (s, c) = (h.sin.value(), h.cos.value());
    let (m, n) = (number::magnitude_of(s) as int, number::magnitude_of(c) as int);
    assert(2 * m >= o || 2 * n >= o) by {
        if 2 * m < o && 2 * n < o {
            assert(2 * (s * s + c * c) < o * o) by (nonlinear_arith)
                requires
                    2 * m < o,
                    2 * n < o,
                    m == s || m == -s,
                    n == c || n == -c,
                    m >= 0,
                    n >= 0,
            ;
        }
    }
    a_band_faces_up_where_its_far_end_lies_ahead(h, coat, near_end, north, east);
    if m <= n {
        lemma_leads(w, h.cos, h.sin, l, north, east);
    } else {
        lemma_leads(w, h.sin, h.cos, l, east, north);
    }
}

/// A leg with a direction has a length.
proof fn lemma_usable(leg: LegMeasure)
    requires
        leg.usable(),
        leg.length.is_finite(),
    ensures
        leg.length.value() > 0,
{
    let least = Binary64::ratio(1, 0x10000000000000);
    binary64::lemma_ratio_positive(1, 0x10000000000000);
    binary64::lemma_order(leg.length, least);
}

/// The direction that comes next on a ring lies to the right, by a twelfth of a
/// turn or what comes near it.
pub open spec fn turns_right(from: Bearing, to: Bearing) -> bool {
    let one = Binary64::one() as int;
    &&& near::sized(from.sin, 1)
    &&& near::sized(from.cos, 1)
    &&& near::sized(to.sin, 1)
    &&& near::sized(to.cos, 1)
    &&& 4 * (to.sin.value() * from.cos.value() - to.cos.value() * from.sin.value()) >= one * one
}

/// Every triangle of a disc faces up: it runs from the centre to a corner of
/// the ring and back to the corner before.
pub proof fn a_disc_faces_up(point: Geodetic, ring: Seq<Bearing>, coat: Coat, side: int)
    requires
        0 <= side < ring.len(),
        turns_right(ring[side], ring[(side + 1) % (ring.len() as int)]),
        near::sized(coat.half_width, 1000),
        64 * coat.half_width.value() >= Binary64::one(),
    ensures
        facing::faces_up(
            disc_centre(point, coat),
            disc_ring(point, ring, coat)[(side + 1) % (ring.len() as int)],
            disc_ring(point, ring, coat)[side],
        ),
{
    let next = (side + 1) % (ring.len() as int);
    let (from, to) = (ring[side], ring[next]);
    let half = coat.half_width;
    let o = Binary64::one() as int;
    let g = near::grain() as int;
    near::lemma_grain();
    near::lemma_small_product(half, from.sin, 1000, 1);
    near::lemma_small_product(half, from.cos, 1000, 1);
    near::lemma_small_product(half, to.sin, 1000, 1);
    near::lemma_small_product(half, to.cos, 1000, 1);
    binary64::lemma_of(0);
    let w = half.value();
    let (n0, e0) = ((half * from.cos).value(), (half * from.sin).value());
    let (n1, e1) = ((half * to.cos).value(), (half * to.sin).value());
    lemma_disc(
        o,
        g,
        w,
        (from.sin.value(), from.cos.value()),
        (to.sin.value(), to.cos.value()),
        (e0, n0),
        (e1, n1),
    );
}

/// Rounded corners still go round the same way.
proof fn lemma_disc(
    o: int,
    g: int,
    w: int,
    from: (int, int),
    to: (int, int),
    p: (int, int),
    q: (int, int),
)
    requires
        o == 0x100000000 * g,
        g >= 2,
        64 * w >= o,
        -o <= from.0 <= o,
        -o <= from.1 <= o,
        -o <= to.0 <= o,
        -o <= to.1 <= o,
        4 * (to.0 * from.1 - to.1 * from.0) >= o * o,
        -(g * o) <= p.0 * o - w * from.0 <= g * o,
        -(g * o) <= p.1 * o - w * from.1 <= g * o,
        -(g * o) <= q.0 * o - w * to.0 <= g * o,
        -(g * o) <= q.1 * o - w * to.1 <= g * o,
    ensures
        q.0 * p.1 - q.1 * p.0 > 0,
{
    let (a, b, c, d) = (q.0 * o, p.1 * o, q.1 * o, p.0 * o);
    let x = g * o;
    let y = w * o;
    assert(-y <= w * from.0 <= y && -y <= w * from.1 <= y && -y <= w * to.0 <= y && -y <= w * to.1
        <= y) by (nonlinear_arith)
        requires
            w > 0,
            y == w * o,
            -o <= from.0 <= o,
            -o <= from.1 <= o,
            -o <= to.0 <= o,
            -o <= to.1 <= o,
    ;
    lemma_near_product(a, b, w * to.0, w * from.1, x, y);
    lemma_near_product(c, d, w * to.1, w * from.0, x, y);
    let turn = to.0 * from.1 - to.1 * from.0;
    lemma_common(w, to.0, from.1, to.1, from.0);
    assert(4 * ((w * w) * turn) >= y * y) by (nonlinear_arith)
        requires
            4 * turn >= o * o,
            y == w * o,
    ;
    assert(y >= 0x4000000 * x && x > 0) by (nonlinear_arith)
        requires
            y == w * o,
            x == g * o,
            64 * w >= 0x100000000 * g,
            g > 0,
            o > 0,
    ;
    assert(y * y > 16 * (x * y) + 8 * (x * x)) by (nonlinear_arith)
        requires
            y >= 0x4000000 * x,
            x > 0,
    ;
    assert(a * b - c * d > 0);
    let r = q.0 * p.1 - q.1 * p.0;
    lemma_common(o, q.0, p.1, q.1, p.0);
    assert(o * q.0 == a && o * p.1 == b && o * q.1 == c && o * p.0 == d) by (nonlinear_arith)
        requires
            a == q.0 * o,
            b == p.1 * o,
            c == q.1 * o,
            d == p.0 * o,
    ;
    assert(r > 0) by (nonlinear_arith)
        requires
            (o * o) * r > 0,
    ;
}

/// A common factor of all four numbers comes out squared.
proof fn lemma_common(u: int, a: int, b: int, c: int, d: int)
    ensures
        (u * a) * (u * b) - (u * c) * (u * d) == (u * u) * (a * b - c * d),
{
    assert((u * a) * (u * b) == (u * u) * (a * b)) by (nonlinear_arith);
    assert((u * c) * (u * d) == (u * u) * (c * d)) by (nonlinear_arith);
    assert((u * u) * (a * b - c * d) == (u * u) * (a * b) - (u * u) * (c * d)) by (nonlinear_arith);
}

/// A product of numbers that are a little off is a little off.
proof fn lemma_near_product(a: int, b: int, s: int, t: int, x: int, y: int)
    requires
        -x <= a - s <= x,
        -x <= b - t <= x,
        -y <= s <= y,
        -y <= t <= y,
        x >= 0,
        y >= 0,
    ensures
        -(2 * (x * y) + x * x) <= a * b - s * t <= 2 * (x * y) + x * x,
{
    facing::lemma_size(a - s, t, x, y);
    facing::lemma_size(s, b - t, y, x);
    facing::lemma_size(a - s, b - t, x, x);
    assert(a * b - s * t == (a - s) * t + s * (b - t) + (a - s) * (b - t)) by (nonlinear_arith);
    assert(y * x == x * y) by (nonlinear_arith);
}

} // verus!
