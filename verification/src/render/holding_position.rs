//! The marking before which aircraft hold short of a runway: two solid bars
//! away from the runway, two dashed ones toward it.
use crate::binary64;
use crate::binary64::Binary64;
use crate::near;
use crate::number;
use crate::render::facing;
use crate::render::mesh;
use crate::render::mesh::{MeshView, SurfaceMesh};
use crate::render::surface::{Bearing, Geodetic, Rgb, SurfaceVertex};
use vstd::arithmetic::power2::*;
use vstd::prelude::*;

verus! {

/// The most quadrilaterals in one marking.
pub const MAX_MARKING_QUADS: usize = 256;

/// On which side of the marking the runway lies, along the taxiway's heading.
#[derive(Clone, Copy, PartialEq, Eq, Debug, Structural)]
pub enum RunwaySide {
    Unknown,
    Forward,
    Backward,
}

/// Why a marking could not be drawn.
#[derive(Clone, Copy, PartialEq, Eq, Debug, Structural)]
pub enum HoldingMarkingError {
    InvalidPosition,
    InvalidHeading,
    InvalidWidth,
    TooComplex,
    AllocationFailed,
}

impl HoldingMarkingError {
    pub open spec fn spec_message(self) -> Seq<char> {
        match self {
            HoldingMarkingError::InvalidPosition => "holding marking position is invalid"@,
            HoldingMarkingError::InvalidHeading => "holding marking heading is invalid"@,
            HoldingMarkingError::InvalidWidth => "holding marking taxiway width is invalid"@,
            HoldingMarkingError::TooComplex => "holding marking exceeds the quad limit"@,
            HoldingMarkingError::AllocationFailed => "could not allocate holding marking mesh"@,
        }
    }

    /// The error in words.
    pub fn message(self) -> (r: &'static str)
        ensures
            r@ == self.spec_message(),
    {
        match self {
            HoldingMarkingError::InvalidPosition => "holding marking position is invalid",
            HoldingMarkingError::InvalidHeading => "holding marking heading is invalid",
            HoldingMarkingError::InvalidWidth => "holding marking taxiway width is invalid",
            HoldingMarkingError::TooComplex => "holding marking exceeds the quad limit",
            HoldingMarkingError::AllocationFailed => "could not allocate holding marking mesh",
        }
    }
}

pub open spec fn spec_yellow() -> Rgb {
    Rgb::thousandths(950, 690, 40)
}

/// The yellow of the marking.
#[verifier::when_used_as_spec(spec_yellow)]
pub fn yellow() -> (r: Rgb)
    ensures
        r == yellow(),
{
    Rgb::thousandths(950, 690, 40)
}

/// The height of the marking above the ground.
pub open spec fn marking_lift() -> Binary64 {
    Binary64::ratio(115, 1000)
}

/// Where a marking is laid.
#[derive(Clone, Copy, PartialEq, Eq, Debug, Structural)]
pub struct Spot {
    pub position: Geodetic,
    pub heading: Bearing,
}

impl Spot {
    pub open spec fn spec_at(self, along: Binary64, across: Binary64) -> SurfaceVertex {
        SurfaceVertex::ahead(
            self.position,
            self.heading,
            along,
            across,
            marking_lift(),
            yellow(),
        )
    }

    /// A vertex `along` ahead of the spot and `across` to its right.
    #[verifier::when_used_as_spec(spec_at)]
    pub fn at(self, along: Binary64, across: Binary64) -> (r: SurfaceVertex)
        ensures
            r == self.at(along, across),
    {
        SurfaceVertex::ahead(
            self.position,
            self.heading,
            along,
            across,
            Binary64::ratio(115, 1000),
            yellow(),
        )
    }
}

/// A mesh with one bar. Ahead to the right runs clockwise seen from above, so
/// it is flipped to face up.
pub open spec fn with_bar(
    m: MeshView<SurfaceVertex>,
    spot: Spot,
    along: Binary64,
    left: Binary64,
    right: Binary64,
) -> MeshView<SurfaceVertex> {
    let half = Binary64::ratio(3, 10) * Binary64::ratio(1, 2);
    m.with_quad(
        spot.at(along - half, left),
        spot.at(along + half, left),
        spot.at(along + half, right),
        spot.at(along - half, right),
        true,
    )
}

/// How many dashes, 2.5 metres apart at most, cross a taxiway.
pub open spec fn dash_count(width: Binary64) -> i64 {
    (width / Binary64::ratio(5, 2)).ceil().max(Binary64::of(1)).to_integer(0, i64::MAX)
}

/// A mesh with the first `k` of `n` dashes across a taxiway, each filling 62
/// hundredths of its cell.
pub open spec fn with_dashes(
    m: MeshView<SurfaceVertex>,
    spot: Spot,
    along: Binary64,
    width: Binary64,
    n: i64,
    k: int,
) -> MeshView<SurfaceVertex>
    decreases k,
{
    if k <= 0 {
        m
    } else {
        let half = Binary64::ratio(1, 2);
        let cell = width / Binary64::of(n);
        let dash = cell * Binary64::ratio(62, 100);
        let centre = width.negate() * half + (Binary64::of((k - 1) as i64) + half) * cell;
        with_bar(
            with_dashes(m, spot, along, width, n, k - 1),
            spot,
            along,
            centre - dash * half,
            centre + dash * half,
        )
    }
}

/// A mesh with one solid or dashed line.
pub open spec fn with_line(
    m: MeshView<SurfaceVertex>,
    spot: Spot,
    along: Binary64,
    width: Binary64,
    dashed: bool,
) -> MeshView<SurfaceVertex> {
    if dashed {
        with_dashes(m, spot, along, width, dash_count(width), dash_count(width) as int)
    } else {
        with_bar(
            m,
            spot,
            along,
            width.negate() * Binary64::ratio(1, 2),
            width * Binary64::ratio(1, 2),
        )
    }
}

/// The four lines, from behind to ahead. Those toward the runway are dashed.
pub open spec fn marking_view(spot: Spot, width: Binary64, forward: bool) -> MeshView<
    SurfaceVertex,
> {
    let far = Binary64::ratio(75, 100);
    let near = Binary64::ratio(25, 100);
    let m1 = with_line(MeshView::empty(), spot, far.negate(), width, !forward);
    let m2 = with_line(m1, spot, near.negate(), width, !forward);
    let m3 = with_line(m2, spot, near, width, forward);
    with_line(m3, spot, far, width, forward)
}

proof fn lemma_dashes(
    m: MeshView<SurfaceVertex>,
    spot: Spot,
    along: Binary64,
    width: Binary64,
    n: i64,
    k: int,
)
    requires
        m.well_formed(),
        0 <= k,
    ensures
        with_dashes(m, spot, along, width, n, k).well_formed(),
        with_dashes(m, spot, along, width, n, k).vertices.len() == m.vertices.len() + 4 * k,
        with_dashes(m, spot, along, width, n, k).indices.len() == m.indices.len() + 6 * k,
    decreases k,
{
    if k > 0 {
        lemma_dashes(m, spot, along, width, n, k - 1);
        let half = Binary64::ratio(1, 2);
        let cell = width / Binary64::of(n);
        let dash = cell * Binary64::ratio(62, 100);
        let centre = width.negate() * half + (Binary64::of((k - 1) as i64) + half) * cell;
        lemma_bar(
            with_dashes(m, spot, along, width, n, k - 1),
            spot,
            along,
            centre - dash * half,
            centre + dash * half,
        );
    }
}

proof fn lemma_bar(
    m: MeshView<SurfaceVertex>,
    spot: Spot,
    along: Binary64,
    left: Binary64,
    right: Binary64,
)
    requires
        m.well_formed(),
    ensures
        with_bar(m, spot, along, left, right).well_formed(),
        with_bar(m, spot, along, left, right).vertices.len() == m.vertices.len() + 4,
        with_bar(m, spot, along, left, right).indices.len() == m.indices.len() + 6,
{
    let half = Binary64::ratio(3, 10) * Binary64::ratio(1, 2);
    mesh::adding_keeps_meshes_well_formed(
        m,
        spot.at(along - half, left),
        spot.at(along + half, left),
        spot.at(along + half, right),
        spot.at(along - half, right),
        true,
        Seq::empty(),
    );
}

proof fn lemma_line(
    m: MeshView<SurfaceVertex>,
    spot: Spot,
    along: Binary64,
    width: Binary64,
    dashed: bool,
)
    requires
        m.well_formed(),
        dash_count(width) >= 0,
    ensures
        with_line(m, spot, along, width, dashed).well_formed(),
        with_line(m, spot, along, width, dashed).vertices.len() == m.vertices.len() + if dashed {
            4 * dash_count(width)
        } else {
            4
        },
        with_line(m, spot, along, width, dashed).indices.len() == m.indices.len() + if dashed {
            6 * dash_count(width)
        } else {
            6
        },
{
    lemma_dashes(m, spot, along, width, dash_count(width), dash_count(width) as int);
    lemma_bar(
        m,
        spot,
        along,
        width.negate() * Binary64::ratio(1, 2),
        width * Binary64::ratio(1, 2),
    );
}

/// Whichever way the runway lies, the marking is a well-formed mesh of two
/// solid and two dashed lines.
pub proof fn changing_the_runway_side_preserves_complexity(
    spot: Spot,
    width: Binary64,
    forward: bool,
)
    ensures
        marking_view(spot, width, forward).well_formed(),
        marking_view(spot, width, forward).vertices.len() == 4 * (2 + 2 * dash_count(width)),
        marking_view(spot, width, forward).indices.len() == 6 * (2 + 2 * dash_count(width)),
{
    let far = Binary64::ratio(75, 100);
    let near = Binary64::ratio(25, 100);
    let m0 = MeshView::<SurfaceVertex>::empty();
    let m1 = with_line(m0, spot, far.negate(), width, !forward);
    let m2 = with_line(m1, spot, near.negate(), width, !forward);
    let m3 = with_line(m2, spot, near, width, forward);
    assert(dash_count(width) >= 0) by {
        reveal(Binary64::spec_to_integer);
    }
    lemma_line(m0, spot, far.negate(), width, !forward);
    lemma_line(m1, spot, near.negate(), width, !forward);
    lemma_line(m2, spot, near, width, forward);
    lemma_line(m3, spot, far, width, forward);
}

/// A width that a marking can cross.
pub open spec fn width_holds(width: Binary64) -> bool {
    width.is_finite() && !(width <= Binary64::of(0)) && !(width > Binary64::of(200))
}

/// No width within the limit is too complex: there are 80 dashes at most.
pub proof fn no_allowed_width_is_too_complex(width: Binary64)
    requires
        width_holds(width),
    ensures
        1 <= dash_count(width) <= 80,
{
    let pitch = Binary64::ratio(5, 2);
    let one = Binary64::one();
    let ratio = width / pitch;
    binary64::lemma_of(0);
    binary64::lemma_of(1);
    binary64::lemma_of(80);
    binary64::lemma_of(200);
    binary64::lemma_order(width, Binary64::of(0));
    binary64::lemma_order(Binary64::of(200), width);
    binary64::lemma_halves(5);
    binary64::lemma_div(width, pitch);
    let d = pitch.value() as nat;
    binary64::lemma_round_exact(Binary64::of(80), d);
    binary64::lemma_round_exact(Binary64::of(0), d);
    assert(width.value() * one <= Binary64::of(80).value() * d && 0 * d <= width.value() * one)
        by (nonlinear_arith)
        requires
            0 <= width.value() <= 200 * one,
            2 * d == 5 * one,
            Binary64::of(80).value() == 80 * one,
            one > 0,
    ;
    binary64::lemma_round_monotone(width.value() * one, Binary64::of(80).value() * d, d);
    binary64::lemma_round_monotone(0int * d, width.value() * one, d);
    binary64::lemma_ceil(ratio, 80);
    let up = ratio.ceil();
    let count = up.max(Binary64::of(1));
    binary64::lemma_order(up, Binary64::of(1));
    binary64::lemma_order(up, up);
    binary64::lemma_to_integer(count, 1, 80);
}

/// The marking, nothing, or what is wrong.
pub open spec fn holding_spec(
    position: Geodetic,
    heading: Binary64,
    bearing: Bearing,
    width: Binary64,
    side: RunwaySide,
) -> Result<Option<MeshView<SurfaceVertex>>, HoldingMarkingError> {
    if !position.valid_point() {
        Err(HoldingMarkingError::InvalidPosition)
    } else if !heading.is_finite() {
        Err(HoldingMarkingError::InvalidHeading)
    } else if !width_holds(width) {
        Err(HoldingMarkingError::InvalidWidth)
    } else if side == RunwaySide::Unknown {
        Ok(None)
    } else {
        Ok(
            Some(
                marking_view(
                    Spot { position, heading: bearing },
                    width,
                    side == RunwaySide::Forward,
                ),
            ),
        )
    }
}

/// The marking drawn, and the place it is drawn from.
#[derive(Debug)]
pub struct HoldingPlan {
    pub mesh: SurfaceMesh,
    pub origin: Geodetic,
}

fn push_bar(
    out: &mut SurfaceMesh,
    spot: Spot,
    along: Binary64,
    left: Binary64,
    right: Binary64,
)
    requires
        old(out)@.vertices.len() <= 10000,
    ensures
        final(out)@ == with_bar(old(out)@, spot, along, left, right),
{
    let half = Binary64::ratio(3, 10) * Binary64::ratio(1, 2);
    out.push_quad(
        spot.at(along - half, left),
        spot.at(along + half, left),
        spot.at(along + half, right),
        spot.at(along - half, right),
        true,
    );
}

fn push_line(
    out: &mut SurfaceMesh,
    spot: Spot,
    along: Binary64,
    width: Binary64,
    dashes: i64,
    dashed: bool,
)
    requires
        old(out)@.well_formed(),
        old(out)@.vertices.len() <= 5000,
        dashes == dash_count(width),
        1 <= dashes <= 80,
    ensures
        final(out)@ == with_line(old(out)@, spot, along, width, dashed),
{
    let half = Binary64::ratio(1, 2);
    let ghost before = out@;
    if dashed {
        let cell = width / Binary64::of(dashes);
        let dash = cell * Binary64::ratio(62, 100);
        let mut k: i64 = 0;
        while k < dashes
            invariant
                0 <= k <= dashes <= 80,
                before.well_formed(),
                before.vertices.len() <= 5000,
                half == Binary64::ratio(1, 2),
                cell == width / Binary64::of(dashes),
                dash == cell * Binary64::ratio(62, 100),
                out@ == with_dashes(before, spot, along, width, dashes, k as int),
            decreases dashes - k,
        {
            proof {
                lemma_dashes(before, spot, along, width, dashes, k as int);
            }
            let centre = width.negate() * half + (Binary64::of(k) + half) * cell;
            push_bar(out, spot, along, centre - dash * half, centre + dash * half);
            k = k + 1;
        }
    } else {
        push_bar(out, spot, along, width.negate() * half, width * half);
    }
}

/// Draws the marking across a taxiway. `bearing` is the sine and cosine of the
/// heading. Where the side of the runway is not known, none is drawn rather
/// than a guess.
pub fn holding_position_mesh(
    position: Geodetic,
    taxiway_heading: Binary64,
    bearing: Bearing,
    taxiway_width: Binary64,
    runway_side: RunwaySide,
) -> (r: Result<Option<HoldingPlan>, HoldingMarkingError>)
    ensures
        match holding_spec(position, taxiway_heading, bearing, taxiway_width, runway_side) {
            Ok(Some(view)) => r is Ok && r->Ok_0 is Some && r->Ok_0->0.mesh@ == view
                && r->Ok_0->0.origin == position.lifted(marking_lift()),
            Ok(None) => r is Ok && r->Ok_0 is None,
            Err(error) => r == Err::<Option<HoldingPlan>, HoldingMarkingError>(error),
        },
{
    if !position.valid_point() {
        return Err(HoldingMarkingError::InvalidPosition);
    }
    if !taxiway_heading.is_finite() {
        return Err(HoldingMarkingError::InvalidHeading);
    }
    let width = taxiway_width;
    if !width.is_finite() || width.le(Binary64::of(0)) || width.gt(Binary64::of(200)) {
        return Err(HoldingMarkingError::InvalidWidth);
    }
    if runway_side == RunwaySide::Unknown {
        return Ok(None);
    }
    proof {
        no_allowed_width_is_too_complex(width);
    }
    let dashes: i64 = (width / Binary64::ratio(5, 2)).ceil().max(Binary64::of(1)).to_integer(
        0,
        i64::MAX,
    );
    let spot = Spot { position, heading: bearing };
    let forward: bool = runway_side == RunwaySide::Forward;
    let far = Binary64::ratio(75, 100);
    let near = Binary64::ratio(25, 100);
    let mut out = SurfaceMesh::new();
    proof {
        let m0 = MeshView::<SurfaceVertex>::empty();
        let m1 = with_line(m0, spot, far.negate(), width, !forward);
        let m2 = with_line(m1, spot, near.negate(), width, !forward);
        let m3 = with_line(m2, spot, near, width, forward);
        lemma_line(m0, spot, far.negate(), width, !forward);
        lemma_line(m1, spot, near.negate(), width, !forward);
        lemma_line(m2, spot, near, width, forward);
    }
    push_line(&mut out, spot, far.negate(), width, dashes, !forward);
    push_line(&mut out, spot, near.negate(), width, dashes, !forward);
    push_line(&mut out, spot, near, width, dashes, forward);
    push_line(&mut out, spot, far, width, dashes, forward);
    let origin = position.lifted(Binary64::ratio(115, 1000));
    Ok(Some(HoldingPlan { mesh: out, origin }))
}

/// A bar of the marking: how far ahead it lies, and from where to where it
/// reaches across.
#[derive(Clone, Copy, PartialEq, Eq, Debug, Structural)]
pub struct Bar {
    pub along: Binary64,
    pub left: Binary64,
    pub right: Binary64,
}

/// Dash `k` of `n` across a taxiway.
pub open spec fn dash_bar(along: Binary64, width: Binary64, n: i64, k: int) -> Bar {
    let half = Binary64::ratio(1, 2);
    let cell = width / Binary64::of(n);
    let dash = cell * Binary64::ratio(62, 100);
    let centre = width.negate() * half + (Binary64::of(k as i64) + half) * cell;
    Bar { along, left: centre - dash * half, right: centre + dash * half }
}

/// The bars of a solid or dashed line, from left to right.
pub open spec fn line_bars(along: Binary64, width: Binary64, dashed: bool) -> Seq<Bar> {
    if dashed {
        Seq::new(
            dash_count(width) as nat,
            |k: int| dash_bar(along, width, dash_count(width), k),
        )
    } else {
        seq![
            Bar {
                along,
                left: width.negate() * Binary64::ratio(1, 2),
                right: width * Binary64::ratio(1, 2),
            },
        ]
    }
}

/// The bars of the marking, from behind to ahead.
pub open spec fn marking_bars(width: Binary64, forward: bool) -> Seq<Bar> {
    let far = Binary64::ratio(75, 100);
    let near = Binary64::ratio(25, 100);
    line_bars(far.negate(), width, !forward) + line_bars(near.negate(), width, !forward)
        + line_bars(near, width, forward) + line_bars(far, width, forward)
}

/// The mesh of bars, in order.
pub open spec fn bars_mesh(spot: Spot, bars: Seq<Bar>) -> MeshView<SurfaceVertex>
    decreases bars.len(),
{
    if bars.len() == 0 {
        MeshView::empty()
    } else {
        let b = bars.last();
        with_bar(bars_mesh(spot, bars.drop_last()), spot, b.along, b.left, b.right)
    }
}

proof fn lemma_dashes_are_bars(
    spot: Spot,
    before: Seq<Bar>,
    along: Binary64,
    width: Binary64,
    n: i64,
    k: int,
)
    requires
        0 <= k <= n,
    ensures
        with_dashes(bars_mesh(spot, before), spot, along, width, n, k) == bars_mesh(
            spot,
            before + Seq::new(n as nat, |i: int| dash_bar(along, width, n, i)).take(k),
        ),
    decreases k,
{
    let dashes = Seq::new(n as nat, |i: int| dash_bar(along, width, n, i));
    if k <= 0 {
        assert(before + dashes.take(k) =~= before);
    } else {
        lemma_dashes_are_bars(spot, before, along, width, n, k - 1);
        let all = before + dashes.take(k);
        assert(all.drop_last() =~= before + dashes.take(k - 1));
        assert(all.last() == dash_bar(along, width, n, k - 1));
    }
}

proof fn lemma_line_is_bars(
    spot: Spot,
    before: Seq<Bar>,
    along: Binary64,
    width: Binary64,
    dashed: bool,
)
    requires
        0 <= dash_count(width),
    ensures
        with_line(bars_mesh(spot, before), spot, along, width, dashed) == bars_mesh(
            spot,
            before + line_bars(along, width, dashed),
        ),
{
    let n = dash_count(width);
    let bars = line_bars(along, width, dashed);
    let all = before + bars;
    if dashed {
        lemma_dashes_are_bars(spot, before, along, width, n, n as int);
        let dashes = Seq::new(n as nat, |i: int| dash_bar(along, width, n, i));
        assert(dashes.take(n as int) =~= bars);
    } else {
        assert(all.drop_last() =~= before);
        assert(all.last() == bars[0]);
    }
}

/// The marking is the mesh of its bars.
pub proof fn a_marking_is_its_bars(spot: Spot, width: Binary64, forward: bool)
    requires
        width_holds(width),
    ensures
        marking_view(spot, width, forward) == bars_mesh(spot, marking_bars(width, forward)),
{
    let far = Binary64::ratio(75, 100);
    let near = Binary64::ratio(25, 100);
    no_allowed_width_is_too_complex(width);
    let l1 = line_bars(far.negate(), width, !forward);
    let l2 = line_bars(near.negate(), width, !forward);
    let l3 = line_bars(near, width, forward);
    let none = Seq::<Bar>::empty();
    lemma_line_is_bars(spot, none, far.negate(), width, !forward);
    assert(none + l1 =~= l1);
    lemma_line_is_bars(spot, l1, near.negate(), width, !forward);
    lemma_line_is_bars(spot, l1 + l2, near, width, forward);
    lemma_line_is_bars(spot, l1 + l2 + l3, far, width, forward);
}

/// The sizes that dashes are made from.
pub proof fn lemma_dash_sizes(width: Binary64, n: i64)
    requires
        width_holds(width),
        1 <= n <= 80,
    ensures
        near::sized(width, 200),
        width.value() > 0,
        near::sized(Binary64::ratio(1, 2), 1),
        near::sized(width / Binary64::of(n), 200),
        (width / Binary64::of(n)).value() >= 0,
        near::within(
            (width / Binary64::of(n)).value() * n,
            width.value(),
            (near::grain() * n) as nat,
        ),
        near::sized((width / Binary64::of(n)) * Binary64::ratio(62, 100), 201),
{
    let one = Binary64::one() as int;
    let g = near::grain() as int;
    near::lemma_grain();
    near::lemma_small_of(0, 0);
    near::lemma_small_of(200, 200);
    near::lemma_small_of(n, 80);
    near::lemma_small_ratio(1, 2, 1);
    near::lemma_small_ratio(62, 100, 1);
    binary64::lemma_order(width, Binary64::of(0));
    binary64::lemma_order(Binary64::of(200), width);
    let d = Binary64::of(n);
    assert(n * one >= one) by (nonlinear_arith)
        requires
            n >= 1,
            one > 0,
    ;
    near::lemma_small_quotient(width, d, 200);
    near::lemma_small_quotient_near(width, d, 200);
    let q = (width / d).value();
    let w = width.value();
    assert(-(g * n) <= q * n - w <= g * n) by (nonlinear_arith)
        requires
            -(g * (n * one)) <= q * (n * one) - w * one <= g * (n * one),
            one > 0,
    {
        let t = q * n - w;
        assert(q * (n * one) - w * one == t * one) by (nonlinear_arith)
            requires
                t == q * n - w,
        ;
        assert(g * (n * one) == (g * n) * one) by (nonlinear_arith);
        assert(-(g * n) <= t <= g * n) by (nonlinear_arith)
            requires
                -((g * n) * one) <= t * one <= (g * n) * one,
                one > 0,
        ;
    }
    near::lemma_small_product(width / d, Binary64::ratio(62, 100), 200, 1);
}

/// The middle of a dash.
pub open spec fn dash_centre(width: Binary64, n: i64, k: int) -> Binary64 {
    width.negate() * Binary64::ratio(1, 2) + (Binary64::of(k as i64) + Binary64::ratio(1, 2)) * (
    width / Binary64::of(n))
}

/// The middle of a dash, twice, in grains: from the left end so many cells and
/// a half.
pub proof fn lemma_dash_centre(width: Binary64, n: i64, k: int)
    requires
        width_holds(width),
        1 <= n <= 80,
        0 <= k < n,
    ensures
        near::sized(dash_centre(width, n, k), 16500),
        near::within(
            2 * dash_centre(width, n, k).value(),
            (2 * k + 1) * (width / Binary64::of(n)).value() - width.value(),
            8 * near::grain(),
        ),
{
    let one = Binary64::one() as int;
    let g = near::grain() as int;
    let half = Binary64::ratio(1, 2);
    let cell = width / Binary64::of(n);
    lemma_dash_sizes(width, n);
    near::lemma_grain();
    near::lemma_small_of(k as i64, 80);
    near::lemma_ratio(1, 2);
    binary64::lemma_halves(1);
    near::lemma_small_sum(Binary64::of(k as i64), half, 80, 1);
    let count = Binary64::of(k as i64) + half;
    lemma_half_more(k as i64);
    near::lemma_small_product(count, cell, 82, 200);
    binary64::lemma_negate(width);
    near::lemma_small_product(width.negate(), half, 200, 1);
    near::lemma_small_sum(width.negate() * half, count * cell, 201, 16401);
    let (c, w) = (cell.value(), width.value());
    let p = (count * cell).value();
    let q = (width.negate() * half).value();
    assert(2 * (p * one) == (2 * p) * one && (2 * count.value()) * c == 2 * (count.value() * c) && ((
    2 * k + 1) * one) * c == ((2 * k + 1) * c) * one && 2 * ((-w) * half.value()) == (-w) * one)
        by (nonlinear_arith)
        requires
            2 * half.value() == one,
    ;
    assert(-(2 * g) <= 2 * p - (2 * k + 1) * c <= 2 * g) by (nonlinear_arith)
        requires
            -(2 * (g * one)) <= (2 * p) * one - ((2 * k + 1) * c) * one <= 2 * (g * one),
            one > 0,
    {
        let t = 2 * p - (2 * k + 1) * c;
        assert((2 * p) * one - ((2 * k + 1) * c) * one == t * one) by (nonlinear_arith)
            requires
                t == 2 * p - (2 * k + 1) * c,
        ;
        assert(-(2 * g) <= t <= 2 * g) by (nonlinear_arith)
            requires
                -(2 * (g * one)) <= t * one <= 2 * (g * one),
                one > 0,
        ;
    }
    assert(-(2 * g) <= 2 * q + w <= 2 * g) by (nonlinear_arith)
        requires
            -(g * one) <= q * one - (-w) * half.value() <= g * one,
            2 * ((-w) * half.value()) == (-w) * one,
            one > 0,
    {
        let t = 2 * q + w;
        assert(t * one == 2 * (q * one) - (-w) * one) by (nonlinear_arith)
            requires
                t == 2 * q + w,
        ;
        assert(-(2 * g) <= t <= 2 * g) by (nonlinear_arith)
            requires
                -(2 * (g * one)) <= t * one <= 2 * (g * one),
                one > 0,
        ;
    }
}

/// A whole number and a half.
pub proof fn lemma_half_more(k: i64)
    requires
        0 <= k <= 80,
    ensures
        2 * (Binary64::of(k) + Binary64::ratio(1, 2)).value() == (2 * k + 1) * Binary64::one(),
        2 * Binary64::ratio(1, 2).value() == Binary64::one(),
{
    let one = Binary64::one() as int;
    near::lemma_grain();
    binary64::lemma_halves(1);
    binary64::lemma_halves((2 * k + 1) as u64);
    near::lemma_small_of(k, 80);
    let target = Binary64::ratio((2 * k + 1) as u64, 2);
    near::lemma_small_ratio((2 * k + 1) as u64, 2, 100);
    near::lemma_small_ratio(1, 2, 1);
    assert(2 * (k * one) + one == (2 * k + 1) * one) by (nonlinear_arith);
    binary64::lemma_sum_between(Binary64::of(k), Binary64::ratio(1, 2), target, target);
}

/// The spot with the way along the taxiway turned round.
pub open spec fn turned(spot: Spot) -> Spot {
    Spot {
        position: spot.position,
        heading: Bearing { sin: spot.heading.sin.negate(), cos: spot.heading.cos.negate() },
    }
}

/// What lies ahead of a spot lies behind the turned one, and what lies to its
/// right to the left.
proof fn lemma_turned_at(spot: Spot, along: Binary64, across: Binary64)
    ensures
        turned(spot).at(along, across) == spot.at(along.negate(), across.negate()),
{
    let h = spot.heading;
    near::lemma_sign_moves(along, h.cos);
    near::lemma_sign_moves(along, h.sin);
    near::lemma_sign_moves(across, h.cos);
    near::lemma_sign_moves(across, h.sin);
}

/// The two lie within a quarter of a thousandth of a millimetre.
pub open spec fn close(p: SurfaceVertex, q: SurfaceVertex) -> bool {
    &&& p.anchor == q.anchor
    &&& p.lift == q.lift
    &&& p.color == q.color
    &&& number::magnitude_of(p.north.value() - q.north.value()) <= pow2(1052)
    &&& number::magnitude_of(p.east.value() - q.east.value()) <= pow2(1052)
}

proof fn lemma_close(spot: Spot, a1: Binary64, x1: Binary64, a2: Binary64, x2: Binary64)
    requires
        facing::is_direction(spot.heading),
        facing::in_reach(a1),
        facing::in_reach(x1),
        facing::in_reach(a2),
        facing::in_reach(x2),
        number::magnitude_of(a2.value() - a1.value()) <= pow2(1050),
        number::magnitude_of(x2.value() - x1.value()) <= pow2(1050),
    ensures
        close(spot.at(a2, x2), spot.at(a1, x1)),
{
    let one = Binary64::one() as int;
    let (s, c) = (spot.heading.sin.value(), spot.heading.cos.value());
    let (a, b) = (a2.value() - a1.value(), x2.value() - x1.value());
    let t = pow2(1050) as int;
    facing::lemma_apart(spot.heading, a1, x1, a2, x2);
    near::lemma_grain();
    lemma_pow2_adds(1046, 4);
    lemma_pow2_adds(1050, 2);
    lemma2_to64();
    facing::lemma_size(a, c, t, one);
    facing::lemma_size(b, s, t, one);
    facing::lemma_size(a, s, t, one);
    facing::lemma_size(b, c, t, one);
    let e = pow2(1046) as int;
    let n = spot.at(a2, x2).north.value() - spot.at(a1, x1).north.value();
    let m = spot.at(a2, x2).east.value() - spot.at(a1, x1).east.value();
    assert(-(4 * t) <= n <= 4 * t && -(4 * t) <= m <= 4 * t) by (nonlinear_arith)
        requires
            -(2 * (t * one) + e * one) <= n * one <= 2 * (t * one) + e * one,
            -(2 * (t * one) + e * one) <= m * one <= 2 * (t * one) + e * one,
            t == 16 * e,
            e > 0,
            one > 0,
    {
        let top = 2 * t + e;
        assert(2 * (t * one) + e * one == top * one) by (nonlinear_arith)
            requires
                top == 2 * t + e,
        ;
        assert(-top <= n <= top && -top <= m <= top) by (nonlinear_arith)
            requires
                -(top * one) <= n * one <= top * one,
                -(top * one) <= m * one <= top * one,
                one > 0,
        ;
    }
}

/// Half the thickness of a bar.
pub open spec fn half_bar() -> Binary64 {
    Binary64::ratio(3, 10) * Binary64::ratio(1, 2)
}

/// A bar, and another as the turned spot draws it: corner for corner they are
/// the same, but for rounding.
pub open spec fn same_bar_turned(spot: Spot, b: Bar, f: Bar) -> bool {
    let h = half_bar();
    &&& close(spot.at(b.along - h, b.left), turned(spot).at(f.along + h, f.right))
    &&& close(spot.at(b.along + h, b.left), turned(spot).at(f.along - h, f.right))
    &&& close(spot.at(b.along + h, b.right), turned(spot).at(f.along - h, f.left))
    &&& close(spot.at(b.along - h, b.right), turned(spot).at(f.along + h, f.left))
}

/// The bars reach across alike, the one from the left and the other from the
/// right.
spec fn mirrored(b: Bar, f: Bar) -> bool {
    &&& near::sized(b.left, 30000)
    &&& near::sized(b.right, 30000)
    &&& near::sized(f.left, 30000)
    &&& near::sized(f.right, 30000)
    &&& near::sized(b.along, 1)
    &&& f.along == b.along.negate()
    &&& near::within(b.left.value(), -f.right.value(), 0x80 * near::grain())
    &&& near::within(b.right.value(), -f.left.value(), 0x80 * near::grain())
}

proof fn lemma_mirrored(spot: Spot, b: Bar, f: Bar)
    requires
        facing::is_direction(spot.heading),
        mirrored(b, f),
    ensures
        same_bar_turned(spot, b, f),
{
    let h = half_bar();
    near::lemma_grain();
    near::lemma_small_ratio(3, 10, 1);
    near::lemma_small_ratio(1, 2, 1);
    near::lemma_small_product(Binary64::ratio(3, 10), Binary64::ratio(1, 2), 1, 1);
    binary64::lemma_negate(b.along);
    near::lemma_small_sum(b.along, h, 1, 2);
    near::lemma_small_difference(b.along, h, 1, 2);
    near::lemma_small_sum(f.along, h, 1, 2);
    near::lemma_small_difference(f.along, h, 1, 2);
    let (bn, bf) = (b.along - h, b.along + h);
    let (fn_, ff) = (f.along - h, f.along + h);
    binary64::lemma_negate(fn_);
    binary64::lemma_negate(ff);
    binary64::lemma_negate(f.left);
    binary64::lemma_negate(f.right);
    lemma_turned_at(spot, ff, f.right);
    lemma_turned_at(spot, fn_, f.right);
    lemma_turned_at(spot, fn_, f.left);
    lemma_turned_at(spot, ff, f.left);
    facing::lemma_small_in_reach(bn, 4);
    facing::lemma_small_in_reach(bf, 4);
    facing::lemma_small_in_reach(fn_.negate(), 4);
    facing::lemma_small_in_reach(ff.negate(), 4);
    facing::lemma_small_in_reach(b.left, 30000);
    facing::lemma_small_in_reach(b.right, 30000);
    facing::lemma_small_in_reach(f.left.negate(), 30000);
    facing::lemma_small_in_reach(f.right.negate(), 30000);
    lemma_close(spot, ff.negate(), f.right.negate(), bn, b.left);
    lemma_close(spot, fn_.negate(), f.right.negate(), bf, b.left);
    lemma_close(spot, fn_.negate(), f.left.negate(), bf, b.right);
    lemma_close(spot, ff.negate(), f.left.negate(), bn, b.right);
}

proof fn lemma_lines_mirrored(along: Binary64, width: Binary64, dashed: bool, i: int)
    requires
        width_holds(width),
        near::sized(along, 1),
        0 <= i < line_bars(along, width, dashed).len(),
    ensures
        line_bars(along.negate(), width, dashed).len() == line_bars(along, width, dashed).len(),
        mirrored(
            line_bars(along, width, dashed)[i],
            line_bars(along.negate(), width, dashed)[line_bars(along, width, dashed).len() - 1 - i],
        ),
{
    let n = dash_count(width);
    let g = near::grain() as int;
    no_allowed_width_is_too_complex(width);
    lemma_dash_sizes(width, n);
    near::lemma_grain();
    let half = Binary64::ratio(1, 2);
    if dashed {
        let j = n - 1 - i;
        let cell = width / Binary64::of(n);
        let dash = cell * Binary64::ratio(62, 100);
        lemma_dash_centre(width, n, i);
        lemma_dash_centre(width, n, j);
        near::lemma_small_product(dash, half, 201, 1);
        let (p, q) = (dash_centre(width, n, i), dash_centre(width, n, j));
        near::lemma_small_difference(p, dash * half, 16500, 202);
        near::lemma_small_sum(p, dash * half, 16500, 202);
        near::lemma_small_difference(q, dash * half, 16500, 202);
        near::lemma_small_sum(q, dash * half, 16500, 202);
        near::lemma_larger(p - dash * half, 16703, 30000);
        near::lemma_larger(p + dash * half, 16703, 30000);
        near::lemma_larger(q - dash * half, 16703, 30000);
        near::lemma_larger(q + dash * half, 16703, 30000);
        let (c, w) = (cell.value(), width.value());
        assert((2 * i + 1) * c + (2 * j + 1) * c == 2 * (c * n)) by (nonlinear_arith)
            requires
                j == n - 1 - i,
        ;
        assert(g * n <= 80 * g) by (nonlinear_arith)
            requires
                n <= 80,
                g > 0,
        ;
        let b = line_bars(along, width, dashed)[i];
        let f = line_bars(along.negate(), width, dashed)[j];
        assert(b == dash_bar(along, width, n, i));
        assert(f == dash_bar(along.negate(), width, n, j));
    } else {
        binary64::lemma_negate(width);
        near::lemma_small_product(width, half, 200, 1);
        near::lemma_small_product(width.negate(), half, 200, 1);
        near::lemma_opposite_product(width, half);
        near::lemma_larger(width * half, 201, 30000);
        near::lemma_larger(width.negate() * half, 201, 30000);
    }
}

/// The marking for a runway behind is that for a runway ahead turned round:
/// bar for bar, counted from the other end, its corners are the same but for
/// rounding.
pub proof fn backward_is_forward_turned_round(spot: Spot, width: Binary64)
    requires
        facing::is_direction(spot.heading),
        width_holds(width),
    ensures
        marking_bars(width, false).len() == marking_bars(width, true).len(),
        forall|i: int|
            0 <= i < marking_bars(width, false).len() ==> same_bar_turned(
                spot,
                #[trigger] marking_bars(width, false)[i],
                marking_bars(width, true)[marking_bars(width, true).len() - 1 - i],
            ),
{
    let far = Binary64::ratio(75, 100);
    let close_by = Binary64::ratio(25, 100);
    let n = dash_count(width) as int;
    no_allowed_width_is_too_complex(width);
    near::lemma_small_ratio(75, 100, 1);
    near::lemma_small_ratio(25, 100, 1);
    binary64::lemma_negate(far);
    binary64::lemma_negate(close_by);
    let (b, f) = (marking_bars(width, false), marking_bars(width, true));
    let total = 2 * n + 2;
    let b1 = line_bars(far.negate(), width, true);
    let b2 = line_bars(close_by.negate(), width, true);
    let b3 = line_bars(close_by, width, false);
    let b4 = line_bars(far, width, false);
    let f1 = line_bars(far.negate(), width, false);
    let f2 = line_bars(close_by.negate(), width, false);
    let f3 = line_bars(close_by, width, true);
    let f4 = line_bars(far, width, true);
    assert(b == b1 + b2 + b3 + b4);
    assert(f == f1 + f2 + f3 + f4);
    assert forall|i: int| 0 <= i < b.len() implies same_bar_turned(
        spot,
        #[trigger] b[i],
        f[f.len() - 1 - i],
    ) by {
        let j = f.len() - 1 - i;
        if i < n {
            lemma_lines_mirrored(far.negate(), width, true, i);
            assert(b[i] == b1[i] && f[j] == f4[n - 1 - i]);
        } else if i < 2 * n {
            lemma_lines_mirrored(close_by.negate(), width, true, i - n);
            assert(b[i] == b2[i - n] && f[j] == f3[n - 1 - (i - n)]);
        } else if i == 2 * n {
            lemma_lines_mirrored(close_by, width, false, 0);
            assert(b[i] == b3[0] && f[j] == f2[0]);
        } else {
            lemma_lines_mirrored(far, width, false, 0);
            assert(b[i] == b4[0] && f[j] == f1[0]);
        }
        lemma_mirrored(spot, b[i], f[j]);
    }
}

/// A bar that does not shrink to nothing when it is placed.
spec fn drawable(b: Bar) -> bool {
    &&& near::sized(b.along, 1)
    &&& near::sized(b.left, 30000)
    &&& near::sized(b.right, 30000)
    &&& facing::beyond(b.left, b.right)
}

proof fn lemma_bars_face_up(spot: Spot, bars: Seq<Bar>)
    requires
        facing::is_direction(spot.heading),
        forall|i: int| 0 <= i < bars.len() ==> drawable(#[trigger] bars[i]),
    ensures
        facing::all_face_up(bars_mesh(spot, bars)),
        bars_mesh(spot, bars).well_formed(),
    decreases bars.len(),
{
    if bars.len() > 0 {
        let rest = bars.drop_last();
        assert forall|i: int| 0 <= i < rest.len() implies drawable(#[trigger] rest[i]) by {
            assert(rest[i] == bars[i]);
        }
        lemma_bars_face_up(spot, rest);
        let b = bars[bars.len() - 1];
        assert(drawable(b));
        let h = half_bar();
        near::lemma_grain();
        near::lemma_small_ratio(3, 10, 1);
        near::lemma_ratio(3, 10);
        near::lemma_small_ratio(1, 2, 1);
        near::lemma_ratio(1, 2);
        near::lemma_small_product(Binary64::ratio(3, 10), Binary64::ratio(1, 2), 1, 1);
        near::lemma_product_between(
            Binary64::ratio(3, 10),
            Binary64::ratio(1, 2),
            0x40000000,
            0x60000000,
            0x70000000,
            0x90000000,
        );
        near::lemma_small_sum(b.along, h, 1, 2);
        near::lemma_small_difference(b.along, h, 1, 2);
        let (low, high) = (b.along - h, b.along + h);
        facing::lemma_small_in_reach(low, 4);
        facing::lemma_small_in_reach(high, 4);
        facing::lemma_small_in_reach(b.left, 30000);
        facing::lemma_small_in_reach(b.right, 30000);
        facing::lemma_strip(
            spot.position,
            spot.heading,
            low,
            high,
            b.left,
            b.right,
            marking_lift(),
            yellow(),
        );
        facing::lemma_with_flipped_quad(
            bars_mesh(spot, rest),
            spot.at(low, b.left),
            spot.at(high, b.left),
            spot.at(high, b.right),
            spot.at(low, b.right),
        );
        lemma_bar(bars_mesh(spot, rest), spot, b.along, b.left, b.right);
    }
}

proof fn lemma_line_drawable(along: Binary64, width: Binary64, dashed: bool, i: int)
    requires
        width_holds(width),
        width.value() >= 0x4000000 * near::grain(),
        near::sized(along, 1),
        0 <= i < line_bars(along, width, dashed).len(),
    ensures
        drawable(line_bars(along, width, dashed)[i]),
{
    let n = dash_count(width);
    let g = near::grain() as int;
    let half = Binary64::ratio(1, 2);
    no_allowed_width_is_too_complex(width);
    lemma_dash_sizes(width, n);
    lemma_lines_mirrored(along, width, dashed, i);
    near::lemma_grain();
    near::lemma_ratio(1, 2);
    near::lemma_ratio(62, 100);
    if dashed {
        let cell = width / Binary64::of(n);
        let share = Binary64::ratio(62, 100);
        let dash = cell * share;
        lemma_dash_centre(width, n, i);
        let c = cell.value();
        assert(c >= 800000 * g) by (nonlinear_arith)
            requires
                c * n >= 0x4000000 * g - g * n,
                1 <= n <= 80,
                g > 0,
        {
            if c < 800000 * g {
                assert(c * n <= (800000 * g) * n) by (nonlinear_arith)
                    requires
                        c < 800000 * g,
                        n >= 1,
                ;
                assert((800000 * g) * n <= 800000 * (80 * g)) by (nonlinear_arith)
                    requires
                        n <= 80,
                        g > 0,
                ;
                assert(g * n <= 80 * g) by (nonlinear_arith)
                    requires
                        n <= 80,
                        g > 0,
                ;
            }
        }
        near::lemma_product_between(cell, share, 800000, 0xc800000000, 0x80000000, 0xb0000000);
        near::lemma_product_between(dash, half, 200000, 0xc900000000, 0x70000000, 0x90000000);
        near::lemma_small_product(dash, half, 201, 1);
        let p = dash_centre(width, n, i);
        near::lemma_small_difference(p, dash * half, 16500, 202);
        near::lemma_small_sum(p, dash * half, 16500, 202);
        assert(line_bars(along, width, dashed)[i] == dash_bar(along, width, n, i));
    } else {
        near::lemma_product_between(
            width,
            half,
            0x4000000,
            0xc800000000,
            0x70000000,
            0x90000000,
        );
        near::lemma_opposite_product(width, half);
    }
}

/// Every triangle of a marking at least a sixty-fourth of a metre wide faces
/// up.
pub proof fn a_marking_faces_up(spot: Spot, width: Binary64, forward: bool)
    requires
        facing::is_direction(spot.heading),
        width_holds(width),
        64 * width.value() >= Binary64::one(),
    ensures
        facing::all_face_up(marking_view(spot, width, forward)),
{
    let far = Binary64::ratio(75, 100);
    let close_by = Binary64::ratio(25, 100);
    near::lemma_grain();
    near::lemma_small_ratio(75, 100, 1);
    near::lemma_small_ratio(25, 100, 1);
    binary64::lemma_negate(far);
    binary64::lemma_negate(close_by);
    no_allowed_width_is_too_complex(width);
    let l1 = line_bars(far.negate(), width, !forward);
    let l2 = line_bars(close_by.negate(), width, !forward);
    let l3 = line_bars(close_by, width, forward);
    let l4 = line_bars(far, width, forward);
    let bars = marking_bars(width, forward);
    assert(bars == l1 + l2 + l3 + l4);
    let (n1, n2, n3) = (
        l1.len() as int,
        (l1.len() + l2.len()) as int,
        (l1.len() + l2.len() + l3.len()) as int,
    );
    assert forall|i: int| 0 <= i < bars.len() implies drawable(#[trigger] bars[i]) by {
        if i < n1 {
            lemma_line_drawable(far.negate(), width, !forward, i);
            assert(bars[i] == l1[i]);
        } else if i < n2 {
            lemma_line_drawable(close_by.negate(), width, !forward, i - n1);
            assert(bars[i] == l2[i - n1]);
        } else if i < n3 {
            lemma_line_drawable(close_by, width, forward, i - n2);
            assert(bars[i] == l3[i - n2]);
        } else {
            lemma_line_drawable(far, width, forward, i - n3);
            assert(bars[i] == l4[i - n3]);
        }
    }
    lemma_bars_face_up(spot, bars);
    a_marking_is_its_bars(spot, width, forward);
}

} // verus!
