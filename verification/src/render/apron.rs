//! Aprons: paved areas given as triangles.
use crate::binary32;
use crate::binary64;
use crate::binary64::Binary64;
use crate::near;
use crate::render::mesh;
use crate::render::mesh::{MeshView, SurfaceMesh};
use crate::render::surface::{Geodetic, Rgb, SurfaceVertex};
use crate::sign;
use vstd::prelude::*;

verus! {

/// The most triangles in one mesh.
pub const MAX_APRON_TRIANGLES: usize = 65536;

/// What an apron is made of.
#[derive(Clone, Copy, PartialEq, Eq, Debug, Structural)]
pub enum AirportSurface {
    Unknown,
    Asphalt,
    Concrete,
    Paved,
    Grass,
    Gravel,
    Dirt,
    Sand,
}

/// Why an apron could not be drawn.
#[derive(Clone, Copy, PartialEq, Eq, Debug, Structural)]
pub enum ApronMeshError {
    Empty,
    TooManyTriangles,
    InvalidVertex,
    DegenerateTriangle,
    AllocationFailed,
}

impl ApronMeshError {
    pub open spec fn spec_message(self) -> Seq<char> {
        match self {
            ApronMeshError::Empty => "apron mesh has no triangles"@,
            ApronMeshError::TooManyTriangles => "apron mesh exceeds the triangle limit"@,
            ApronMeshError::InvalidVertex => "apron mesh contains an invalid vertex"@,
            ApronMeshError::DegenerateTriangle => "apron mesh contains a degenerate triangle"@,
            ApronMeshError::AllocationFailed => "could not allocate apron mesh storage"@,
        }
    }

    /// The error in words.
    pub fn message(self) -> (r: &'static str)
        ensures
            r@ == self.spec_message(),
    {
        match self {
            ApronMeshError::Empty => "apron mesh has no triangles",
            ApronMeshError::TooManyTriangles => "apron mesh exceeds the triangle limit",
            ApronMeshError::InvalidVertex => "apron mesh contains an invalid vertex",
            ApronMeshError::DegenerateTriangle => "apron mesh contains a degenerate triangle",
            ApronMeshError::AllocationFailed => "could not allocate apron mesh storage",
        }
    }
}

pub open spec fn spec_apron_surface_color(surface: AirportSurface) -> Rgb {
    match surface {
        AirportSurface::Asphalt => Rgb::thousandths(180, 180, 190),
        AirportSurface::Concrete => Rgb::thousandths(480, 470, 440),
        AirportSurface::Paved => Rgb::thousandths(280, 280, 290),
        AirportSurface::Grass => Rgb::thousandths(280, 380, 190),
        AirportSurface::Gravel => Rgb::thousandths(390, 360, 310),
        AirportSurface::Dirt => Rgb::thousandths(340, 250, 160),
        AirportSurface::Sand => Rgb::thousandths(550, 470, 310),
        AirportSurface::Unknown => Rgb::thousandths(240, 240, 250),
    }
}

/// The colour of a surface.
#[verifier::when_used_as_spec(spec_apron_surface_color)]
pub fn apron_surface_color(surface: AirportSurface) -> (r: Rgb)
    ensures
        r == apron_surface_color(surface),
{
    match surface {
        AirportSurface::Asphalt => Rgb::thousandths(180, 180, 190),
        AirportSurface::Concrete => Rgb::thousandths(480, 470, 440),
        AirportSurface::Paved => Rgb::thousandths(280, 280, 290),
        AirportSurface::Grass => Rgb::thousandths(280, 380, 190),
        AirportSurface::Gravel => Rgb::thousandths(390, 360, 310),
        AirportSurface::Dirt => Rgb::thousandths(340, 250, 160),
        AirportSurface::Sand => Rgb::thousandths(550, 470, 310),
        AirportSurface::Unknown => Rgb::thousandths(240, 240, 250),
    }
}

/// Every surface can be told from every other by its colour.
pub proof fn every_surface_has_a_distinct_color(a: AirportSurface, b: AirportSurface)
    ensures
        apron_surface_color(a) == apron_surface_color(b) ==> a == b,
{
    binary32::lemma_thousandths_differ(180, 240);
    binary32::lemma_thousandths_differ(240, 280);
    binary32::lemma_thousandths_differ(280, 340);
    binary32::lemma_thousandths_differ(340, 390);
    binary32::lemma_thousandths_differ(390, 480);
    binary32::lemma_thousandths_differ(480, 550);
    binary32::lemma_thousandths_differ(280, 380);
}

/// A triangle of the apron.
#[derive(Clone, Copy, PartialEq, Eq, Debug, Structural)]
pub struct ApronTriangle {
    pub a: Geodetic,
    pub b: Geodetic,
    pub c: Geodetic,
}

/// How a triangle lies once its corners are placed.
#[derive(Clone, Copy, PartialEq, Eq, Debug, Structural)]
pub struct TriangleMeasure {
    /// Twice the area seen from above, negative where it runs clockwise.
    pub facing: Binary64,
    /// Whether every corner came out finite.
    pub placed: bool,
}

impl TriangleMeasure {
    /// What is wrong with the triangle.
    pub open spec fn fault(self) -> Option<ApronMeshError> {
        if !self.facing.is_finite() || self.facing.abs() <= Binary64::ratio(1, 1000000000) {
            Some(ApronMeshError::DegenerateTriangle)
        } else if !self.placed {
            Some(ApronMeshError::InvalidVertex)
        } else {
            None
        }
    }
}

/// What is wrong with the first of the first `k` triangles that is at fault.
pub open spec fn first_fault(measures: Seq<TriangleMeasure>, k: int) -> Option<ApronMeshError>
    decreases k,
{
    if k <= 0 {
        None
    } else if first_fault(measures, k - 1) is Some {
        first_fault(measures, k - 1)
    } else {
        measures[k - 1].fault()
    }
}

/// A corner of the apron.
pub open spec fn spec_corner(point: Geodetic, color: Rgb) -> SurfaceVertex {
    SurfaceVertex {
        anchor: point,
        north: Binary64::of(0),
        east: Binary64::of(0),
        lift: Binary64::ratio(4, 100),
        color: color.linear(),
    }
}

/// A corner of the apron.
#[verifier::when_used_as_spec(spec_corner)]
pub fn corner(point: Geodetic, color: Rgb) -> (r: SurfaceVertex)
    ensures
        r == corner(point, color),
{
    SurfaceVertex {
        anchor: point,
        north: Binary64::of(0),
        east: Binary64::of(0),
        lift: Binary64::ratio(4, 100),
        color: color.linear(),
    }
}

/// The first `k` triangles, each turned to face up.
pub open spec fn apron_view(
    triangles: Seq<ApronTriangle>,
    measures: Seq<TriangleMeasure>,
    color: Rgb,
    k: int,
) -> MeshView<SurfaceVertex>
    decreases k,
{
    if k <= 0 {
        MeshView::empty()
    } else {
        let before = apron_view(triangles, measures, color, k - 1);
        let t = triangles[k - 1];
        if measures[k - 1].facing < Binary64::of(0) {
            before.with_triangle(corner(t.a, color), corner(t.c, color), corner(t.b, color))
        } else {
            before.with_triangle(corner(t.a, color), corner(t.b, color), corner(t.c, color))
        }
    }
}

/// An apron is a well-formed mesh with three vertices for each triangle.
pub proof fn an_apron_is_well_formed(
    triangles: Seq<ApronTriangle>,
    measures: Seq<TriangleMeasure>,
    color: Rgb,
    k: int,
)
    requires
        0 <= k,
    ensures
        apron_view(triangles, measures, color, k).well_formed(),
        apron_view(triangles, measures, color, k).vertices.len() == 3 * k,
        apron_view(triangles, measures, color, k).indices.len() == 3 * k,
    decreases k,
{
    if k > 0 {
        an_apron_is_well_formed(triangles, measures, color, k - 1);
        let before = apron_view(triangles, measures, color, k - 1);
        let t = triangles[k - 1];
        let a = corner(t.a, color);
        let b = corner(t.b, color);
        let c = corner(t.c, color);
        mesh::adding_keeps_meshes_well_formed(before, a, b, c, a, false, Seq::empty());
        mesh::adding_keeps_meshes_well_formed(before, a, c, b, a, false, Seq::empty());
    }
}

/// All corners are on the globe.
pub open spec fn triangle_valid(t: ApronTriangle) -> bool {
    t.a.valid_point() && t.b.valid_point() && t.c.valid_point()
}

/// The apron, or what is wrong with it.
pub open spec fn apron_spec(
    triangles: Seq<ApronTriangle>,
    measures: Seq<TriangleMeasure>,
    surface: AirportSurface,
) -> Result<MeshView<SurfaceVertex>, ApronMeshError> {
    if triangles.len() == 0 {
        Err(ApronMeshError::Empty)
    } else if triangles.len() > MAX_APRON_TRIANGLES {
        Err(ApronMeshError::TooManyTriangles)
    } else if exists|i: int| 0 <= i < triangles.len() && !triangle_valid(#[trigger] triangles[i]) {
        Err(ApronMeshError::InvalidVertex)
    } else {
        match first_fault(measures, triangles.len() as int) {
            Some(error) => Err(error),
            None => Ok(
                apron_view(
                    triangles,
                    measures,
                    apron_surface_color(surface),
                    triangles.len() as int,
                ),
            ),
        }
    }
}

/// The apron drawn, and the place it is drawn from.
#[derive(Debug)]
pub struct ApronPlan {
    pub mesh: SurfaceMesh,
    pub origin: Geodetic,
}

/// Draws an apron from its triangles, turning those that face down.
///
/// `measures` holds how each triangle lies.
pub fn apron_mesh(
    triangles: &Vec<ApronTriangle>,
    surface: AirportSurface,
    measures: &Vec<TriangleMeasure>,
) -> (r: Result<ApronPlan, ApronMeshError>)
    requires
        triangles@.len() <= measures@.len(),
    ensures
        match apron_spec(triangles@, measures@, surface) {
            Ok(view) => r is Ok && r->Ok_0.mesh@ == view && r->Ok_0.origin
                == triangles@[0].a.lifted(Binary64::ratio(4, 100)),
            Err(error) => r == Err::<ApronPlan, ApronMeshError>(error),
        },
{
    if triangles.len() == 0 {
        return Err(ApronMeshError::Empty);
    }
    if triangles.len() > MAX_APRON_TRIANGLES {
        return Err(ApronMeshError::TooManyTriangles);
    }
    let mut i: usize = 0;
    while i < triangles.len()
        invariant
            i <= triangles@.len(),
            0 < triangles@.len() <= MAX_APRON_TRIANGLES,
            forall|j: int| 0 <= j < i ==> triangle_valid(#[trigger] triangles@[j]),
        decreases triangles@.len() - i,
    {
        let t = triangles[i];
        if !t.a.valid_point() || !t.b.valid_point() || !t.c.valid_point() {
            assert(!triangle_valid(triangles@[i as int]));
            return Err(ApronMeshError::InvalidVertex);
        }
        i = i + 1;
    }
    let origin = triangles[0].a.lifted(Binary64::ratio(4, 100));
    let color = apron_surface_color(surface);
    let least = Binary64::ratio(1, 1000000000);
    let mut out = SurfaceMesh::new();
    let mut k: usize = 0;
    while k < triangles.len()
        invariant
            k <= triangles@.len() <= MAX_APRON_TRIANGLES,
            0 < triangles@.len() <= measures@.len(),
            forall|j: int| 0 <= j < triangles@.len() ==> triangle_valid(#[trigger] triangles@[j]),
            color == apron_surface_color(surface),
            least == Binary64::ratio(1, 1000000000),
            first_fault(measures@, k as int) is None,
            out@ == apron_view(triangles@, measures@, color, k as int),
        decreases triangles@.len() - k,
    {
        let t = triangles[k];
        let m = measures[k];
        proof {
            an_apron_is_well_formed(triangles@, measures@, color, k as int);
        }
        if !m.facing.is_finite() || m.facing.abs().le(least) {
            proof {
                lemma_fault_stays(measures@, k as int, triangles@.len() as int);
            }
            return Err(ApronMeshError::DegenerateTriangle);
        }
        if !m.placed {
            proof {
                lemma_fault_stays(measures@, k as int, triangles@.len() as int);
            }
            return Err(ApronMeshError::InvalidVertex);
        }
        if m.facing.lt(Binary64::of(0)) {
            out.push_triangle(corner(t.a, color), corner(t.c, color), corner(t.b, color));
        } else {
            out.push_triangle(corner(t.a, color), corner(t.b, color), corner(t.c, color));
        }
        k = k + 1;
    }
    Ok(ApronPlan { mesh: out, origin })
}

/// The first fault is found whatever follows it.
proof fn lemma_fault_stays(measures: Seq<TriangleMeasure>, k: int, n: int)
    requires
        0 <= k < n,
        first_fault(measures, k) is None,
        measures[k].fault() is Some,
    ensures
        first_fault(measures, n) == measures[k].fault(),
    decreases n - k,
{
    if n > k + 1 {
        lemma_fault_stays(measures, k, n - 1);
    }
}

/// The corners of the `i`th triangle, in the order in which they are drawn.
pub open spec fn drawn(view: MeshView<SurfaceVertex>, i: int) -> (Geodetic, Geodetic, Geodetic) {
    (
        view.vertices[view.indices[3 * i] as int].anchor,
        view.vertices[view.indices[3 * i + 1] as int].anchor,
        view.vertices[view.indices[3 * i + 2] as int].anchor,
    )
}

/// A triangle that faces up is drawn the way round that it is given, and one
/// that faces down the other way round.
pub proof fn every_triangle_is_drawn_facing_up(
    triangles: Seq<ApronTriangle>,
    measures: Seq<TriangleMeasure>,
    color: Rgb,
    k: int,
    i: int,
)
    requires
        0 <= i < k <= 0x10000000,
        measures[i].facing.is_finite(),
    ensures
        ({
            let view = apron_view(triangles, measures, color, k);
            let t = triangles[i];
            &&& measures[i].facing.value() > 0 ==> drawn(view, i) == (t.a, t.b, t.c)
            &&& measures[i].facing.value() < 0 ==> drawn(view, i) == (t.a, t.c, t.b)
        }),
    decreases k,
{
    an_apron_is_well_formed(triangles, measures, color, k - 1);
    an_apron_is_well_formed(triangles, measures, color, k);
    let before = apron_view(triangles, measures, color, k - 1);
    binary64::lemma_of(0);
    binary64::lemma_order(measures[i].facing, Binary64::of(0));
    if i < k - 1 {
        every_triangle_is_drawn_facing_up(triangles, measures, color, k - 1, i);
        assert(before.indices[3 * i] < before.vertices.len());
        assert(before.indices[3 * i + 1] < before.vertices.len());
        assert(before.indices[3 * i + 2] < before.vertices.len());
    }
}

/// A triangle and its measure, and the same or the same gone round the other
/// way.
pub open spec fn same_or_rewound(
    t: ApronTriangle,
    m: TriangleMeasure,
    other: ApronTriangle,
    other_m: TriangleMeasure,
) -> bool {
    ||| other == t && other_m == m
    ||| {
        &&& other == (ApronTriangle { a: t.a, b: t.c, c: t.b })
        &&& sign::opposite(m.facing, other_m.facing)
        &&& other_m.placed == m.placed
    }
}

/// Whichever way round its triangles are given, the apron is the same: the
/// same fault, or the same vertices in the same order around the same place.
pub proof fn the_winding_of_a_triangle_does_not_matter(
    triangles: Seq<ApronTriangle>,
    measures: Seq<TriangleMeasure>,
    others: Seq<ApronTriangle>,
    other_measures: Seq<TriangleMeasure>,
    surface: AirportSurface,
)
    requires
        triangles.len() == others.len(),
        triangles.len() <= measures.len(),
        triangles.len() <= other_measures.len(),
        forall|i: int|
            0 <= i < triangles.len() ==> same_or_rewound(
                #[trigger] triangles[i],
                measures[i],
                others[i],
                other_measures[i],
            ),
    ensures
        apron_spec(triangles, measures, surface) == apron_spec(others, other_measures, surface),
        triangles.len() > 0 ==> triangles[0].a == others[0].a,
{
    let n = triangles.len() as int;
    let color = apron_surface_color(surface);
    assert forall|i: int| 0 <= i < n implies triangle_valid(#[trigger] triangles[i])
        == triangle_valid(others[i]) by {
        assert(same_or_rewound(triangles[i], measures[i], others[i], other_measures[i]));
    }
    if exists|i: int| 0 <= i < n && !triangle_valid(#[trigger] triangles[i]) {
        let i = choose|i: int| 0 <= i < n && !triangle_valid(#[trigger] triangles[i]);
        assert(!triangle_valid(others[i]));
    }
    if exists|i: int| 0 <= i < n && !triangle_valid(#[trigger] others[i]) {
        let i = choose|i: int| 0 <= i < n && !triangle_valid(#[trigger] others[i]);
        assert(!triangle_valid(triangles[i]));
    }
    lemma_rewound(triangles, measures, others, other_measures, color, n);
    if n > 0 {
        assert(same_or_rewound(triangles[0], measures[0], others[0], other_measures[0]));
    }
}

proof fn lemma_rewound(
    triangles: Seq<ApronTriangle>,
    measures: Seq<TriangleMeasure>,
    others: Seq<ApronTriangle>,
    other_measures: Seq<TriangleMeasure>,
    color: Rgb,
    k: int,
)
    requires
        0 <= k <= triangles.len(),
        triangles.len() == others.len(),
        forall|i: int|
            0 <= i < triangles.len() ==> same_or_rewound(
                #[trigger] triangles[i],
                measures[i],
                others[i],
                other_measures[i],
            ),
    ensures
        first_fault(measures, k) == first_fault(other_measures, k),
        first_fault(measures, k) is None ==> apron_view(triangles, measures, color, k)
            == apron_view(others, other_measures, color, k),
    decreases k,
{
    if k > 0 {
        lemma_rewound(triangles, measures, others, other_measures, color, k - 1);
        let (t, m) = (triangles[k - 1], measures[k - 1]);
        let (u, w) = (others[k - 1], other_measures[k - 1]);
        assert(same_or_rewound(t, m, u, w));
        let zero = Binary64::of(0);
        let least = Binary64::ratio(1, 1000000000);
        if sign::opposite(m.facing, w.facing) {
            sign::lemma_opposite(m.facing, w.facing);
        }
        near::lemma_small_ratio(1, 1000000000, 1);
        binary64::lemma_of(0);
        binary64::lemma_order(m.facing, zero);
        binary64::lemma_order(w.facing, zero);
        binary64::lemma_abs(m.facing);
        binary64::lemma_order(m.facing.abs(), least);
        binary64::lemma_order(m.facing, m.facing);
        binary64::lemma_order(w.facing, w.facing);
    }
}

} // verus!
