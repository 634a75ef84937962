//! Taxiway lights and runway guard lights: where they stand, and one mesh per
//! colour.
use crate::binary64;
use crate::binary64::Binary64;
use crate::near;
use crate::render::facing;
use crate::render::mesh::{MeshView, SurfaceMesh};
use crate::render::runway_lights::{lamp, Lamp, LampMarker};
use crate::render::surface::{Bearing, Geodetic, Rgb, SurfaceVertex};
use vstd::prelude::*;

verus! {

/// The longest path that is lit.
pub const MAX_TAXIWAY_LIGHT_PATH_POINTS: usize = 4096;

/// The most lights handled at once.
pub const MAX_GROUND_LIGHTS: usize = 100000;

/// What a ground light marks.
#[derive(Clone, Copy, PartialEq, Eq, Debug, Structural)]
pub enum GroundLightKind {
    TaxiwayEdge,
    TaxiwayCenterline,
    RunwayGuard,
}

/// Which lights a taxiway has.
#[derive(Clone, Copy, PartialEq, Eq, Debug, Structural)]
pub enum TaxiwayLighting {
    Unlit,
    Edge,
    Centerline,
    EdgeAndCenterline,
}

impl TaxiwayLighting {
    pub open spec fn has_edge(self) -> bool {
        self == TaxiwayLighting::Edge || self == TaxiwayLighting::EdgeAndCenterline
    }

    pub open spec fn has_centre(self) -> bool {
        self == TaxiwayLighting::Centerline || self == TaxiwayLighting::EdgeAndCenterline
    }
}

/// Why lights could not be laid out.
#[derive(Clone, Copy, PartialEq, Eq, Debug, Structural)]
pub enum TaxiwayLightError {
    InvalidPath,
    InvalidWidth,
    InvalidLight,
    TooManyLights,
    AllocationFailed,
}

impl TaxiwayLightError {
    pub open spec fn spec_message(self) -> Seq<char> {
        match self {
            TaxiwayLightError::InvalidPath => "taxiway light path is invalid"@,
            TaxiwayLightError::InvalidWidth => "taxiway light width is invalid"@,
            TaxiwayLightError::InvalidLight => "ground light position is invalid"@,
            TaxiwayLightError::TooManyLights => "ground light count exceeds the safe limit"@,
            TaxiwayLightError::AllocationFailed => "could not allocate ground light storage"@,
        }
    }

    /// The error in words.
    pub fn message(self) -> (r: &'static str)
        ensures
            r@ == self.spec_message(),
    {
        match self {
            TaxiwayLightError::InvalidPath => "taxiway light path is invalid",
            TaxiwayLightError::InvalidWidth => "taxiway light width is invalid",
            TaxiwayLightError::InvalidLight => "ground light position is invalid",
            TaxiwayLightError::TooManyLights => "ground light count exceeds the safe limit",
            TaxiwayLightError::AllocationFailed => "could not allocate ground light storage",
        }
    }
}

/// One leg of a path as it lies on the ground: its horizontal length, and its
/// heading at the start.
#[derive(Clone, Copy, PartialEq, Eq, Debug, Structural)]
pub struct SegmentMeasure {
    pub length: Binary64,
    pub heading: Bearing,
}

/// One leg of a path with its place along the whole.
#[derive(Clone, Copy, PartialEq, Eq, Debug, Structural)]
pub struct PathSegment {
    pub start: Geodetic,
    pub end_altitude: Binary64,
    pub start_distance: Binary64,
    pub length: Binary64,
    pub heading: Bearing,
}

/// A sideways step from the centre line.
#[derive(Clone, Copy, PartialEq, Eq, Debug, Structural)]
pub struct SideStep {
    pub north: Binary64,
    pub east: Binary64,
}

/// Where a light stands: `north` and `east` of the start of its leg, then
/// aside, at an altitude of its own.
#[derive(Clone, Copy, PartialEq, Eq, Debug, Structural)]
pub struct LightSpot {
    pub start: Geodetic,
    pub north: Binary64,
    pub east: Binary64,
    pub side: Option<SideStep>,
    pub altitude: Binary64,
    pub kind: GroundLightKind,
}

/// The spacing of the edge lights.
pub open spec fn edge_spacing() -> Binary64 {
    Binary64::of(60)
}

/// The spacing of the centre line lights.
pub open spec fn centre_spacing() -> Binary64 {
    Binary64::of(30)
}

/// The shortest leg that has a heading.
pub open spec fn shortest_leg() -> Binary64 {
    Binary64::ratio(1, 0x10000000000000)
}

/// The length of the first `k` legs, added up in order.
pub open spec fn running_total(measures: Seq<SegmentMeasure>, k: int) -> Binary64
    decreases k,
{
    if k <= 0 {
        Binary64::of(0)
    } else {
        running_total(measures, k - 1) + measures[k - 1].length
    }
}

/// The leg has a length, and the path up to its end has one too.
pub open spec fn measure_holds(measures: Seq<SegmentMeasure>, k: int) -> bool {
    &&& measures[k].length.is_finite()
    &&& !(measures[k].length <= shortest_leg())
    &&& running_total(measures, k + 1).is_finite()
}

/// Every leg is usable.
pub open spec fn path_holds(measures: Seq<SegmentMeasure>, legs: int) -> bool {
    forall|k: int| 0 <= k < legs ==> #[trigger] measure_holds(measures, k)
}

/// The `k`th leg.
pub open spec fn segment_at(
    points: Seq<Geodetic>,
    measures: Seq<SegmentMeasure>,
    k: int,
) -> PathSegment {
    PathSegment {
        start: points[k],
        end_altitude: points[k + 1].altitude,
        start_distance: running_total(measures, k + 1) - measures[k].length,
        length: measures[k].length,
        heading: measures[k].heading,
    }
}

/// All legs.
pub open spec fn segments_of(points: Seq<Geodetic>, measures: Seq<SegmentMeasure>) -> Seq<
    PathSegment,
> {
    Seq::new((points.len() - 1) as nat, |k: int| segment_at(points, measures, k))
}

/// How many equal intervals cover the path at no more than the spacing.
pub open spec fn intervals_for(total: Binary64, spacing: Binary64) -> Binary64 {
    (total / spacing).ceil().max(Binary64::of(1))
}

/// How many intervals there are, where they are not too many.
pub open spec fn interval_count(total: Binary64, spacing: Binary64) -> Option<int> {
    let intervals = intervals_for(total, spacing);
    if !intervals.is_finite() || intervals > Binary64::of(100000) {
        None
    } else {
        Some(intervals.to_integer(0, i64::MAX) as int)
    }
}

/// How many lights stand along the path: one at every interval's start, and
/// one at the end unless the path closes on itself.
pub open spec fn sample_count_spec(total: Binary64, spacing: Binary64, closed: bool) -> Option<
    int,
> {
    match interval_count(total, spacing) {
        Some(n) => Some(
            if closed {
                n
            } else {
                n + 1
            },
        ),
        None => None,
    }
}

/// The first leg from `j` on that reaches the distance, or the last one.
pub open spec fn segment_from(segments: Seq<PathSegment>, distance: Binary64, j: int) -> int
    decreases segments.len() - j,
{
    if j + 1 >= segments.len() || !(distance > segments[j].start_distance + segments[j].length) {
        j
    } else {
        segment_from(segments, distance, j + 1)
    }
}

/// The leg on which a distance along the path lies.
pub open spec fn segment_for(segments: Seq<PathSegment>, distance: Binary64) -> PathSegment {
    segments[segment_from(segments, distance, 0)]
}

/// The light at a distance along the path, `across` metres to the right where
/// it stands aside.
pub open spec fn light_at(
    segments: Seq<PathSegment>,
    distance: Binary64,
    across: Option<Binary64>,
    kind: GroundLightKind,
) -> LightSpot {
    let segment = segment_for(segments, distance);
    let zero = Binary64::of(0);
    let along = (distance - segment.start_distance).clamp(zero, segment.length);
    LightSpot {
        start: segment.start,
        north: segment.heading.north(along, zero),
        east: segment.heading.east(along, zero),
        side: match across {
            Some(a) => Some(
                SideStep { north: segment.heading.north(zero, a), east: segment.heading.east(zero, a) },
            ),
            None => None,
        },
        altitude: segment.start.altitude + (segment.end_altitude - segment.start.altitude) * (along
            / segment.length),
        kind,
    }
}

/// The lights of one row: at every interval, on the centre line or at both
/// edges, left before right.
pub open spec fn row_of_lights(
    segments: Seq<PathSegment>,
    step: Binary64,
    count: int,
    edge_offset: Option<Binary64>,
    kind: GroundLightKind,
) -> Seq<LightSpot> {
    match edge_offset {
        Some(offset) => Seq::new(
            (2 * count) as nat,
            |i: int|
                light_at(
                    segments,
                    Binary64::of((i / 2) as i64) * step,
                    Some(
                        if i % 2 == 0 {
                            offset.negate()
                        } else {
                            offset
                        },
                    ),
                    kind,
                ),
        ),
        None => Seq::new(
            count as nat,
            |i: int| light_at(segments, Binary64::of(i as i64) * step, None, kind),
        ),
    }
}

/// One row of lights over the whole path.
pub open spec fn row_over_path(
    segments: Seq<PathSegment>,
    total: Binary64,
    spacing: Binary64,
    closed: bool,
    edge_offset: Option<Binary64>,
    kind: GroundLightKind,
) -> Seq<LightSpot> {
    row_of_lights(
        segments,
        total / Binary64::of(interval_count(total, spacing)->0 as i64),
        sample_count_spec(total, spacing, closed)->0,
        edge_offset,
        kind,
    )
}

/// How many lights a layout has, where they are not too many.
pub open spec fn layout_count(total: Binary64, lighting: TaxiwayLighting, closed: bool) -> Option<
    int,
> {
    let edge = if lighting.has_edge() {
        sample_count_spec(total, edge_spacing(), closed)
    } else {
        Some(0)
    };
    let centre = if lighting.has_centre() {
        sample_count_spec(total, centre_spacing(), closed)
    } else {
        Some(0)
    };
    match (edge, centre) {
        (Some(e), Some(c)) => if 2 * e + c > MAX_GROUND_LIGHTS {
            None
        } else {
            Some(2 * e + c)
        },
        _ => None,
    }
}

/// The lights of a taxiway, or what is wrong with it.
pub open spec fn layout_spec(
    points: Seq<Geodetic>,
    width: Binary64,
    lighting: TaxiwayLighting,
    measures: Seq<SegmentMeasure>,
    closed: bool,
) -> Result<Seq<LightSpot>, TaxiwayLightError> {
    let legs = points.len() - 1;
    let segments = segments_of(points, measures);
    let total = running_total(measures, legs);
    if points.len() < 2 || points.len() > MAX_TAXIWAY_LIGHT_PATH_POINTS || (exists|i: int|
        0 <= i < points.len() && !(#[trigger] points[i]).valid_point()) {
        Err(TaxiwayLightError::InvalidPath)
    } else if !width.is_finite() || width <= Binary64::of(0) || width > Binary64::of(200) {
        Err(TaxiwayLightError::InvalidWidth)
    } else if lighting == TaxiwayLighting::Unlit {
        Ok(Seq::empty())
    } else if !path_holds(measures, legs) {
        Err(TaxiwayLightError::InvalidPath)
    } else if layout_count(total, lighting, closed) is None {
        Err(TaxiwayLightError::TooManyLights)
    } else {
        Ok(
            (if lighting.has_edge() {
                row_over_path(
                    segments,
                    total,
                    edge_spacing(),
                    closed,
                    Some(width * Binary64::ratio(1, 2) + Binary64::ratio(75, 100)),
                    GroundLightKind::TaxiwayEdge,
                )
            } else {
                Seq::empty()
            }) + (if lighting.has_centre() {
                row_over_path(
                    segments,
                    total,
                    centre_spacing(),
                    closed,
                    None,
                    GroundLightKind::TaxiwayCenterline,
                )
            } else {
                Seq::empty()
            }),
        )
    }
}

/// A path that holds has a length that is not negative.
proof fn lemma_total_not_negative(measures: Seq<SegmentMeasure>, legs: int, k: int)
    requires
        path_holds(measures, legs),
        0 <= k <= legs,
    ensures
        running_total(measures, k).is_finite(),
        running_total(measures, k).value() >= 0,
    decreases k,
{
    binary64::lemma_of(0);
    if k > 0 {
        lemma_total_not_negative(measures, legs, k - 1);
        assert(measure_holds(measures, k - 1));
        let length = measures[k - 1].length;
        let before = running_total(measures, k - 1);
        binary64::lemma_ratio_positive(1, 0x10000000000000);
        binary64::lemma_order(length, shortest_leg());
        binary64::lemma_add(before, length);
        binary64::lemma_round_exact(Binary64::of(0), 1);
        binary64::lemma_round_monotone(0, before.value() + length.value(), 1);
    }
}

/// The intervals of a path are at least one and not more than the limit.
proof fn lemma_interval_count(total: Binary64, spacing: Binary64)
    ensures
        interval_count(total, spacing) is Some ==> 1 <= interval_count(total, spacing)->0 <= 100000,
{
    let intervals = intervals_for(total, spacing);
    binary64::lemma_of(1);
    binary64::lemma_of(100000);
    binary64::lemma_order((total / spacing).ceil(), Binary64::of(1));
    binary64::lemma_order(Binary64::of(100000), intervals);
    binary64::lemma_order(intervals, intervals);
    if interval_count(total, spacing) is Some {
        assert(intervals.value() >= Binary64::one());
        binary64::lemma_to_integer(intervals, 1, 100000);
    }
}

/// Equal steps over a finite path are finite and do not lead backwards.
proof fn lemma_step(total: Binary64, n: int)
    requires
        total.is_finite(),
        total.value() >= 0,
        1 <= n <= 100001,
    ensures
        (total / Binary64::of(n as i64)).is_finite(),
        (total / Binary64::of(n as i64)).value() >= 0,
{
    let d = Binary64::of(n as i64);
    binary64::lemma_of(n as i64);
    binary64::lemma_of(0);
    binary64::lemma_order(total, total);
    let one = Binary64::one();
    assert(n * one >= one) by (nonlinear_arith)
        requires
            n >= 1,
            one > 0,
    ;
    binary64::lemma_div(total, d);
    binary64::lemma_round_exact(total, d.value() as nat);
    binary64::lemma_round_exact(Binary64::of(0), d.value() as nat);
    assert(total.value() * one <= total.value() * d.value() && 0 <= total.value() * one && 0
        * d.value() == 0) by (nonlinear_arith)
        requires
            total.value() >= 0,
            d.value() >= one,
            one > 0,
    ;
    binary64::lemma_round_monotone(total.value() * one, total.value() * d.value(), d.value() as nat);
    binary64::lemma_round_monotone(0, total.value() * one, d.value() as nat);
    binary64::lemma_finite_below(total / d, total);
}

/// Later lights lie no nearer.
proof fn lemma_distances_increase(step: Binary64, i: int, j: int)
    requires
        step.is_finite(),
        step.value() >= 0,
        0 <= i <= j <= 200001,
    ensures
        !(Binary64::of(i as i64) * step).is_nan(),
        !(Binary64::of(j as i64) * step).is_nan(),
        (Binary64::of(i as i64) * step).value() <= (Binary64::of(j as i64) * step).value(),
{
    let one = Binary64::one();
    binary64::lemma_of(i as i64);
    binary64::lemma_of(j as i64);
    binary64::lemma_mul(Binary64::of(i as i64), step);
    binary64::lemma_mul(Binary64::of(j as i64), step);
    assert((i * one) * step.value() <= (j * one) * step.value()) by (nonlinear_arith)
        requires
            i <= j,
            one > 0,
            step.value() >= 0,
    ;
    binary64::lemma_round_monotone((i * one) * step.value(), (j * one) * step.value(), one);
}

/// Legs that end before the distance can be passed over.
proof fn lemma_segment_from(segments: Seq<PathSegment>, distance: Binary64, j: int, k: int)
    requires
        0 <= j <= k < segments.len(),
        forall|i: int|
            j <= i < k ==> distance > (#[trigger] segments[i]).start_distance + segments[i].length,
    ensures
        segment_from(segments, distance, j) == segment_from(segments, distance, k),
    decreases k - j,
{
    if j < k {
        assert(distance > segments[j].start_distance + segments[j].length);
        lemma_segment_from(segments, distance, j + 1, k);
    }
}

/// A path that closes on itself has every light of the open one but the last,
/// which would stand on the first.
pub proof fn closing_a_path_drops_its_last_light(
    segments: Seq<PathSegment>,
    total: Binary64,
    spacing: Binary64,
    kind: GroundLightKind,
)
    requires
        interval_count(total, spacing) is Some,
    ensures
        row_over_path(segments, total, spacing, true, None, kind) == row_over_path(
            segments,
            total,
            spacing,
            false,
            None,
            kind,
        ).drop_last(),
        row_over_path(segments, total, spacing, false, None, kind).last() == light_at(
            segments,
            Binary64::of(interval_count(total, spacing)->0 as i64) * (total / Binary64::of(
                interval_count(total, spacing)->0 as i64,
            )),
            None,
            kind,
        ),
{
    lemma_interval_count(total, spacing);
    assert(row_over_path(segments, total, spacing, true, None, kind) =~= row_over_path(
        segments,
        total,
        spacing,
        false,
        None,
        kind,
    ).drop_last());
}

/// How many lights stand along the path.
fn sample_count(total: Binary64, spacing: Binary64, closed: bool) -> (r: Result<
    usize,
    TaxiwayLightError,
>)
    ensures
        match sample_count_spec(total, spacing, closed) {
            Some(n) => r == Ok::<usize, TaxiwayLightError>(n as usize) && 1 <= n <= 100001 && (closed
                ==> n <= 100000) && (!closed ==> n >= 2),
            None => r == Err::<usize, TaxiwayLightError>(TaxiwayLightError::TooManyLights),
        },
{
    let intervals = (total / spacing).ceil().max(Binary64::of(1));
    proof {
        lemma_interval_count(total, spacing);
    }
    if !intervals.is_finite() || intervals.gt(Binary64::of(100000)) {
        return Err(TaxiwayLightError::TooManyLights);
    }
    let n: i64 = intervals.to_integer(0, i64::MAX);
    if closed {
        Ok(n as usize)
    } else {
        Ok(n as usize + 1)
    }
}

/// Adds one row of lights.
fn append_samples(
    output: &mut Vec<LightSpot>,
    segments: &Vec<PathSegment>,
    total: Binary64,
    spacing: Binary64,
    closed: bool,
    edge_offset: Option<Binary64>,
    kind: GroundLightKind,
)
    requires
        segments@.len() > 0,
        sample_count_spec(total, spacing, closed) is Some,
        total.is_finite(),
        total.value() >= 0,
    ensures
        final(output)@ == old(output)@ + row_over_path(
            segments@,
            total,
            spacing,
            closed,
            edge_offset,
            kind,
        ),
{
    proof {
        lemma_interval_count(total, spacing);
    }
    let count: usize = match sample_count(total, spacing, closed) {
        Ok(n) => n,
        Err(_) => 0,
    };
    let intervals: usize = if closed {
        count
    } else {
        count - 1
    };
    let step = total / Binary64::of(intervals as i64);
    proof {
        lemma_step(total, intervals as int);
    }
    let ghost before = output@;
    let ghost row = row_over_path(segments@, total, spacing, closed, edge_offset, kind);
    let mut segment_index: usize = 0;
    let mut index: usize = 0;
    let zero = Binary64::of(0);
    while index < count
        invariant
            index <= count <= 100001,
            segment_index < segments@.len(),
            step.is_finite(),
            step.value() >= 0,
            zero == Binary64::of(0),
            row == row_of_lights(segments@, step, count as int, edge_offset, kind),
            index > 0 ==> forall|i: int|
                0 <= i < segment_index ==> Binary64::of((index - 1) as i64) * step > (
                #[trigger] segments@[i]).start_distance + segments@[i].length,
            index == 0 ==> segment_index == 0,
            output@ == before + row.take(
                if edge_offset is Some {
                    2 * index as int
                } else {
                    index as int
                },
            ),
        decreases count - index,
    {
        let distance = Binary64::of(index as i64) * step;
        proof {
            if index > 0 {
                let nearer = Binary64::of((index - 1) as i64) * step;
                lemma_distances_increase(step, index - 1, index as int);
                assert forall|i: int| 0 <= i < segment_index implies distance > (
                #[trigger] segments@[i]).start_distance + segments@[i].length by {
                    let end = segments@[i].start_distance + segments@[i].length;
                    binary64::lemma_order(end, nearer);
                    binary64::lemma_order(end, distance);
                }
            }
        }
        while segment_index < segments.len() - 1 && distance.gt(
            segments[segment_index].start_distance + segments[segment_index].length,
        )
            invariant
                segment_index < segments@.len(),
                forall|i: int|
                    0 <= i < segment_index ==> distance > (#[trigger] segments@[i]).start_distance
                        + segments@[i].length,
            decreases segments@.len() - segment_index,
        {
            segment_index = segment_index + 1;
        }
        proof {
            lemma_segment_from(segments@, distance, 0, segment_index as int);
        }
        let segment = segments[segment_index];
        assert(segment == segment_for(segments@, distance));
        let along = (distance - segment.start_distance).clamp(zero, segment.length);
        let altitude = segment.start.altitude + (segment.end_altitude - segment.start.altitude) * (
        along / segment.length);
        let north = segment.heading.north(along, zero);
        let east = segment.heading.east(along, zero);
        let ghost prior = output@;
        match edge_offset {
            Some(offset) => {
                let left = offset.negate();
                let spot_left = LightSpot {
                    start: segment.start,
                    north,
                    east,
                    side: Some(
                        SideStep {
                            north: segment.heading.north(zero, left),
                            east: segment.heading.east(zero, left),
                        },
                    ),
                    altitude,
                    kind,
                };
                let spot_right = LightSpot {
                    start: segment.start,
                    north,
                    east,
                    side: Some(
                        SideStep {
                            north: segment.heading.north(zero, offset),
                            east: segment.heading.east(zero, offset),
                        },
                    ),
                    altitude,
                    kind,
                };
                output.push(spot_left);
                output.push(spot_right);
                proof {
                    let k = 2 * index as int;
                    assert(k / 2 == index && k % 2 == 0 && (k + 1) / 2 == index && (k + 1) % 2 == 1);
                    assert(row[k] == spot_left);
                    assert(row[k + 1] == spot_right);
                    assert(output@ =~= prior.push(spot_left).push(spot_right));
                    assert(row.take(k + 2) =~= row.take(k).push(row[k]).push(row[k + 1]));
                    assert(output@ =~= before + row.take(k + 2));
                }
            },
            None => {
                let spot = LightSpot { start: segment.start, north, east, side: None, altitude, kind };
                output.push(spot);
                proof {
                    let k = index as int;
                    assert(row[k] == spot);
                    assert(row.take(k + 1) =~= row.take(k).push(row[k]));
                    assert(output@ =~= before + row.take(k + 1));
                }
            },
        }
        index = index + 1;
    }
    assert(row.take(row.len() as int) =~= row);
}

/// The lights of a taxiway from its centre line, the same for the same path.
///
/// The altitudes of the points are taken as they are. `measures` holds each
/// leg's length and heading, and `gap` how far the ends are apart: within a
/// centimetre the path is closed, and its start is not lit twice.
pub fn procedural_taxiway_light_layout(
    points: &Vec<Geodetic>,
    width: Binary64,
    lighting: TaxiwayLighting,
    measures: &Vec<SegmentMeasure>,
    gap: Binary64,
) -> (r: Result<Vec<LightSpot>, TaxiwayLightError>)
    requires
        points@.len() <= measures@.len() + 1,
    ensures
        match layout_spec(points@, width, lighting, measures@, gap <= Binary64::ratio(1, 100)) {
            Ok(lights) => r is Ok && r->Ok_0@ == lights && lights.len() <= MAX_GROUND_LIGHTS,
            Err(error) => r == Err::<Vec<LightSpot>, TaxiwayLightError>(error),
        },
{
    let closed: bool = gap.le(Binary64::ratio(1, 100));
    if points.len() < 2 || points.len() > MAX_TAXIWAY_LIGHT_PATH_POINTS {
        return Err(TaxiwayLightError::InvalidPath);
    }
    let mut i: usize = 0;
    while i < points.len()
        invariant
            i <= points@.len(),
            2 <= points@.len() <= MAX_TAXIWAY_LIGHT_PATH_POINTS,
            forall|j: int| 0 <= j < i ==> (#[trigger] points@[j]).valid_point(),
        decreases points@.len() - i,
    {
        if !points[i].valid_point() {
            assert(!points@[i as int].valid_point());
            return Err(TaxiwayLightError::InvalidPath);
        }
        i = i + 1;
    }
    if !width.is_finite() || width.le(Binary64::of(0)) || width.gt(Binary64::of(200)) {
        return Err(TaxiwayLightError::InvalidWidth);
    }
    if lighting == TaxiwayLighting::Unlit {
        return Ok(Vec::new());
    }
    let mut segments: Vec<PathSegment> = Vec::new();
    let mut total = Binary64::of(0);
    let legs: usize = points.len() - 1;
    let shortest = Binary64::ratio(1, 0x10000000000000);
    let mut k: usize = 0;
    while k < legs
        invariant
            k <= legs,
            legs == points@.len() - 1,
            legs <= measures@.len(),
            shortest == shortest_leg(),
            total == running_total(measures@, k as int),
            path_holds(measures@, k as int),
            segments@ == segments_of(points@, measures@).take(k as int),
            2 <= points@.len() <= MAX_TAXIWAY_LIGHT_PATH_POINTS,
            forall|j: int| 0 <= j < points@.len() ==> (#[trigger] points@[j]).valid_point(),
            width.is_finite(),
            !(width <= Binary64::of(0)),
            !(width > Binary64::of(200)),
            lighting != TaxiwayLighting::Unlit,
        decreases legs - k,
    {
        let length = measures[k].length;
        if !length.is_finite() || length.le(shortest) {
            assert(!measure_holds(measures@, k as int));
            return Err(TaxiwayLightError::InvalidPath);
        }
        total = total + length;
        if !total.is_finite() {
            assert(!measure_holds(measures@, k as int));
            return Err(TaxiwayLightError::InvalidPath);
        }
        assert(measure_holds(measures@, k as int));
        let segment = PathSegment {
            start: points[k],
            end_altitude: points[k + 1].altitude,
            start_distance: total - length,
            length,
            heading: measures[k].heading,
        };
        segments.push(segment);
        k = k + 1;
        assert(segments@ =~= segments_of(points@, measures@).take(k as int));
    }
    assert(segments@ =~= segments_of(points@, measures@));
    proof {
        lemma_total_not_negative(measures@, legs as int, legs as int);
        lemma_interval_count(total, edge_spacing());
        lemma_interval_count(total, centre_spacing());
    }
    let edge: bool = match lighting {
        TaxiwayLighting::Edge => true,
        TaxiwayLighting::EdgeAndCenterline => true,
        _ => false,
    };
    let centre: bool = match lighting {
        TaxiwayLighting::Centerline => true,
        TaxiwayLighting::EdgeAndCenterline => true,
        _ => false,
    };
    let edge_samples: usize = if edge {
        match sample_count(total, Binary64::of(60), closed) {
            Ok(n) => 2 * n,
            Err(e) => {
                return Err(e);
            },
        }
    } else {
        0
    };
    let centre_samples: usize = if centre {
        match sample_count(total, Binary64::of(30), closed) {
            Ok(n) => n,
            Err(e) => {
                return Err(e);
            },
        }
    } else {
        0
    };
    if edge_samples + centre_samples > MAX_GROUND_LIGHTS {
        return Err(TaxiwayLightError::TooManyLights);
    }
    let mut lights: Vec<LightSpot> = Vec::new();
    if edge {
        append_samples(
            &mut lights,
            &segments,
            total,
            Binary64::of(60),
            closed,
            Some(width * Binary64::ratio(1, 2) + Binary64::ratio(75, 100)),
            GroundLightKind::TaxiwayEdge,
        );
    }
    let ghost edges = lights@;
    if centre {
        append_samples(
            &mut lights,
            &segments,
            total,
            Binary64::of(30),
            closed,
            None,
            GroundLightKind::TaxiwayCenterline,
        );
    }
    assert(lights@ =~= layout_spec(points@, width, lighting, measures@, closed)->Ok_0);
    Ok(lights)
}

/// A light with its surveyed place.
#[derive(Clone, Copy, PartialEq, Eq, Debug, Structural)]
pub struct GroundLight {
    pub point: Geodetic,
    pub kind: GroundLightKind,
}

/// All lights of one kind in one mesh.
#[derive(Debug)]
pub struct GroundLightMeshGroup {
    pub kind: GroundLightKind,
    pub color: Rgb,
    pub mesh: SurfaceMesh,
    pub material: Lamp,
    pub marker: LampMarker,
}

/// The meshes, and the place they are drawn from.
#[derive(Debug)]
pub struct GroundLightPlan {
    pub groups: Vec<GroundLightMeshGroup>,
    pub origin: Geodetic,
}

/// What a group holds.
#[verifier::ext_equal]
pub struct GroupView {
    pub kind: GroundLightKind,
    pub color: Rgb,
    pub mesh: MeshView<SurfaceVertex>,
    pub material: Lamp,
    pub marker: LampMarker,
}

impl View for GroundLightMeshGroup {
    type V = GroupView;

    open spec fn view(&self) -> GroupView {
        GroupView {
            kind: self.kind,
            color: self.color,
            mesh: self.mesh@,
            material: self.material,
            marker: self.marker,
        }
    }
}

/// Blue edges, green centre lines, yellow guards.
pub open spec fn spec_light_color(kind: GroundLightKind) -> Rgb {
    match kind {
        GroundLightKind::TaxiwayEdge => Rgb::thousandths(80, 300, 1000),
        GroundLightKind::TaxiwayCenterline => Rgb::thousandths(80, 1000, 240),
        GroundLightKind::RunwayGuard => Rgb::thousandths(1000, 680, 40),
    }
}

/// Blue edges, green centre lines, yellow guards.
#[verifier::when_used_as_spec(spec_light_color)]
pub fn light_color(kind: GroundLightKind) -> (r: Rgb)
    ensures
        r == light_color(kind),
{
    match kind {
        GroundLightKind::TaxiwayEdge => Rgb::thousandths(80, 300, 1000),
        GroundLightKind::TaxiwayCenterline => Rgb::thousandths(80, 1000, 240),
        GroundLightKind::RunwayGuard => Rgb::thousandths(1000, 680, 40),
    }
}

/// How high a light stands above its place.
pub open spec fn light_lift() -> Binary64 {
    Binary64::ratio(12, 100)
}

/// Half the size of a light.
pub open spec fn half_light() -> Binary64 {
    Binary64::ratio(135, 100) * Binary64::ratio(1, 2)
}

/// A corner of the square that shows a light.
pub open spec fn light_corner(point: Geodetic, north: Binary64, east: Binary64, color: Rgb) -> SurfaceVertex {
    SurfaceVertex { anchor: point, north, east, lift: light_lift(), color: color.linear() }
}

/// A mesh with the square of one more light: its corners run from the south-west
/// over the south-east, so that its triangles face up.
pub open spec fn with_light(mesh: MeshView<SurfaceVertex>, point: Geodetic, color: Rgb) -> MeshView<
    SurfaceVertex,
> {
    let h = half_light();
    mesh.with_quad(
        light_corner(point, h.negate(), h.negate(), color),
        light_corner(point, h.negate(), h, color),
        light_corner(point, h, h, color),
        light_corner(point, h, h.negate(), color),
        false,
    )
}

/// The squares of all lights of a kind, in order.
pub open spec fn mesh_of_kind(lights: Seq<GroundLight>, kind: GroundLightKind) -> MeshView<
    SurfaceVertex,
>
    decreases lights.len(),
{
    if lights.len() == 0 {
        MeshView::empty()
    } else {
        let before = mesh_of_kind(lights.drop_last(), kind);
        if lights.last().kind == kind {
            with_light(before, lights.last().point, light_color(kind))
        } else {
            before
        }
    }
}

/// A light of this kind is among them.
pub open spec fn has_kind(lights: Seq<GroundLight>, kind: GroundLightKind) -> bool {
    exists|i: int| 0 <= i < lights.len() && (#[trigger] lights[i]).kind == kind
}

/// The group of a kind, where there is a light of it.
pub open spec fn group_of_kind(lights: Seq<GroundLight>, kind: GroundLightKind) -> Seq<GroupView> {
    if has_kind(lights, kind) {
        seq![
            GroupView {
                kind,
                color: light_color(kind),
                mesh: mesh_of_kind(lights, kind),
                material: lamp(light_color(kind)),
                marker: lamp(light_color(kind)).marker(),
            },
        ]
    } else {
        Seq::empty()
    }
}

/// The groups: edges, centre lines, guards, as far as there are any.
pub open spec fn groups_of(lights: Seq<GroundLight>) -> Seq<GroupView> {
    group_of_kind(lights, GroundLightKind::TaxiwayEdge) + group_of_kind(
        lights,
        GroundLightKind::TaxiwayCenterline,
    ) + group_of_kind(lights, GroundLightKind::RunwayGuard)
}

/// What the groups hold.
pub open spec fn group_views(groups: Seq<GroundLightMeshGroup>) -> Seq<GroupView> {
    Seq::new(groups.len(), |i: int| groups[i]@)
}

/// How many lights are of a kind.
pub open spec fn count_of_kind(lights: Seq<GroundLight>, kind: GroundLightKind) -> nat
    decreases lights.len(),
{
    if lights.len() == 0 {
        0
    } else {
        count_of_kind(lights.drop_last(), kind) + if lights.last().kind == kind {
            1nat
        } else {
            0nat
        }
    }
}

/// Every light is drawn once, as four vertices and two triangles in the mesh
/// of its kind, and in no other.
pub proof fn every_light_is_in_one_mesh(lights: Seq<GroundLight>)
    ensures
        mesh_of_kind(lights, GroundLightKind::TaxiwayEdge).vertices.len() + mesh_of_kind(
            lights,
            GroundLightKind::TaxiwayCenterline,
        ).vertices.len() + mesh_of_kind(lights, GroundLightKind::RunwayGuard).vertices.len() == 4
            * lights.len(),
        mesh_of_kind(lights, GroundLightKind::TaxiwayEdge).indices.len() + mesh_of_kind(
            lights,
            GroundLightKind::TaxiwayCenterline,
        ).indices.len() + mesh_of_kind(lights, GroundLightKind::RunwayGuard).indices.len() == 6
            * lights.len(),
    decreases lights.len(),
{
    if lights.len() > 0 {
        every_light_is_in_one_mesh(lights.drop_last());
    }
}

/// A mesh of lights is well-formed and has four vertices for each of them.
pub proof fn light_meshes_are_well_formed(lights: Seq<GroundLight>, kind: GroundLightKind)
    ensures
        mesh_of_kind(lights, kind).well_formed(),
        mesh_of_kind(lights, kind).vertices.len() == 4 * count_of_kind(lights, kind),
        count_of_kind(lights, kind) <= lights.len(),
    decreases lights.len(),
{
    if lights.len() > 0 {
        light_meshes_are_well_formed(lights.drop_last(), kind);
        let before = mesh_of_kind(lights.drop_last(), kind);
        let point = lights.last().point;
        let color = light_color(kind);
        let h = half_light();
        crate::render::mesh::adding_keeps_meshes_well_formed(
            before,
            light_corner(point, h.negate(), h.negate(), color),
            light_corner(point, h.negate(), h, color),
            light_corner(point, h, h, color),
            light_corner(point, h, h.negate(), color),
            false,
            Seq::empty(),
        );
    }
}

/// The mesh of all lights of a kind, none where there is no such light.
fn light_mesh(lights: &Vec<GroundLight>, kind: GroundLightKind) -> (r: Option<SurfaceMesh>)
    requires
        lights@.len() <= MAX_GROUND_LIGHTS,
    ensures
        r is Some <==> has_kind(lights@, kind),
        r is Some ==> r->0@ == mesh_of_kind(lights@, kind),
{
    let color = light_color(kind).linear();
    let lift = Binary64::ratio(12, 100);
    let half = Binary64::ratio(135, 100) * Binary64::ratio(1, 2);
    let low = half.negate();
    let mut mesh = SurfaceMesh::new();
    let mut found: bool = false;
    let mut i: usize = 0;
    assert(lights@.take(0) =~= Seq::<GroundLight>::empty());
    while i < lights.len()
        invariant
            i <= lights@.len() <= MAX_GROUND_LIGHTS,
            color == light_color(kind).linear(),
            lift == light_lift(),
            half == half_light(),
            low == half.negate(),
            mesh@ == mesh_of_kind(lights@.take(i as int), kind),
            found <==> exists|j: int| 0 <= j < i && (#[trigger] lights@[j]).kind == kind,
        decreases lights@.len() - i,
    {
        let light = lights[i];
        proof {
            assert(lights@.take(i + 1).drop_last() =~= lights@.take(i as int));
            assert(lights@.take(i + 1).last() == light);
            light_meshes_are_well_formed(lights@.take(i as int), kind);
        }
        if light.kind == kind {
            found = true;
            mesh.push_quad(
                SurfaceVertex { anchor: light.point, north: low, east: low, lift, color },
                SurfaceVertex { anchor: light.point, north: low, east: half, lift, color },
                SurfaceVertex { anchor: light.point, north: half, east: half, lift, color },
                SurfaceVertex { anchor: light.point, north: half, east: low, lift, color },
                false,
            );
            assert(lights@[i as int].kind == kind);
        }
        i = i + 1;
    }
    assert(lights@.take(i as int) =~= lights@);
    if found {
        Some(mesh)
    } else {
        None
    }
}

/// Gathers surveyed lights into one mesh per kind, which is one per colour.
///
/// Without a light there is no origin either, so nothing comes back.
pub fn ground_light_meshes(lights: &Vec<GroundLight>) -> (r: Result<
    Option<GroundLightPlan>,
    TaxiwayLightError,
>)
    ensures
        r == Err::<Option<GroundLightPlan>, TaxiwayLightError>(TaxiwayLightError::TooManyLights)
            <==> lights@.len() > MAX_GROUND_LIGHTS,
        r == Err::<Option<GroundLightPlan>, TaxiwayLightError>(TaxiwayLightError::InvalidLight)
            <==> lights@.len() <= MAX_GROUND_LIGHTS && exists|i: int|
            0 <= i < lights@.len() && !(#[trigger] lights@[i]).point.valid_point(),
        r is Err ==> r->Err_0 == TaxiwayLightError::TooManyLights || r->Err_0
            == TaxiwayLightError::InvalidLight,
        r is Ok ==> (r->Ok_0 is None <==> lights@.len() == 0),
        (r is Ok && r->Ok_0 is Some) ==> group_views(r->Ok_0->0.groups@) == groups_of(lights@)
            && r->Ok_0->0.origin == lights@[0].point.lifted(light_lift()),
{
    if lights.len() == 0 {
        return Ok(None);
    }
    if lights.len() > MAX_GROUND_LIGHTS {
        return Err(TaxiwayLightError::TooManyLights);
    }
    let mut i: usize = 0;
    while i < lights.len()
        invariant
            i <= lights@.len(),
            lights@.len() <= MAX_GROUND_LIGHTS,
            forall|j: int| 0 <= j < i ==> (#[trigger] lights@[j]).point.valid_point(),
        decreases lights@.len() - i,
    {
        if !lights[i].point.valid_point() {
            assert(!lights@[i as int].point.valid_point());
            return Err(TaxiwayLightError::InvalidLight);
        }
        i = i + 1;
    }
    let origin = lights[0].point.lifted(Binary64::ratio(12, 100));
    let mut groups: Vec<GroundLightMeshGroup> = Vec::new();
    let ghost edge = group_of_kind(lights@, GroundLightKind::TaxiwayEdge);
    let ghost centre = group_of_kind(lights@, GroundLightKind::TaxiwayCenterline);
    let ghost guard = group_of_kind(lights@, GroundLightKind::RunwayGuard);
    add_group(&mut groups, lights, GroundLightKind::TaxiwayEdge);
    add_group(&mut groups, lights, GroundLightKind::TaxiwayCenterline);
    add_group(&mut groups, lights, GroundLightKind::RunwayGuard);
    assert(group_views(groups@) =~= Seq::<GroupView>::empty() + edge + centre + guard);
    assert(group_views(groups@) =~= groups_of(lights@));
    Ok(Some(GroundLightPlan { groups, origin }))
}

fn add_group(
    groups: &mut Vec<GroundLightMeshGroup>,
    lights: &Vec<GroundLight>,
    kind: GroundLightKind,
)
    requires
        lights@.len() <= MAX_GROUND_LIGHTS,
    ensures
        group_views(final(groups)@) == group_views(old(groups)@) + group_of_kind(lights@, kind),
{
    if let Some(mesh) = light_mesh(lights, kind) {
        let color = light_color(kind);
        let material = lamp(color);
        let group = GroundLightMeshGroup { kind, color, mesh, material, marker: material.marker() };
        groups.push(group);
    }
    assert(group_views(groups@) =~= group_views(old(groups)@) + group_of_kind(lights@, kind));
}

/// Every triangle of every light faces up.
pub proof fn every_ground_light_faces_up(lights: Seq<GroundLight>, kind: GroundLightKind)
    ensures
        facing::all_face_up(mesh_of_kind(lights, kind)),
    decreases lights.len(),
{
    if lights.len() > 0 {
        every_ground_light_faces_up(lights.drop_last(), kind);
        light_meshes_are_well_formed(lights.drop_last(), kind);
        if lights.last().kind == kind {
            let point = lights.last().point;
            let color = light_color(kind);
            let h = half_light();
            let m = h.value();
            lemma_half_light();
            binary64::lemma_negate(h);
            assert((m - (-m)) * (m - (-m)) - (-m - (-m)) * (m - (-m)) > 0 && (m - (-m)) * (m - (
            -m)) - (m - (-m)) * ((-m) - (-m)) > 0) by (nonlinear_arith)
                requires
                    m > 0,
            ;
            facing::lemma_with_quad(
                mesh_of_kind(lights.drop_last(), kind),
                light_corner(point, h.negate(), h.negate(), color),
                light_corner(point, h.negate(), h, color),
                light_corner(point, h, h, color),
                light_corner(point, h, h.negate(), color),
            );
        }
    }
}

/// A light has a size.
proof fn lemma_half_light()
    ensures
        half_light().value() > 0,
{
    near::lemma_grain();
    near::lemma_ratio(135, 100);
    near::lemma_ratio(1, 2);
    near::lemma_product_between(
        Binary64::ratio(135, 100),
        Binary64::ratio(1, 2),
        0x100000000,
        0x200000000,
        0x40000000,
        0x100000000,
    );
}

} // verus!
