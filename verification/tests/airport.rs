use flightsim::angle;
use flightsim::binary32::Binary32;
use flightsim::binary64::Binary64;
use flightsim::geodetic::Geodetic;
use flightsim::render::apron::{
    self, AirportSurface, ApronMeshError, ApronPlan, ApronTriangle, TriangleMeasure,
    MAX_APRON_TRIANGLES,
};
use flightsim::render::holding_position::{
    self, HoldingMarkingError, HoldingPlan, RunwaySide,
};
use flightsim::render::mesh::SurfaceMesh;
use flightsim::render::placing::{self, Corner};
use flightsim::render::runway::{self, RunwayPlan};
use flightsim::render::runway_lights::{
    self, AirportLights, LampMarker, RunwayLight, RunwayLightPlan,
};
use flightsim::render::surface::{Bearing, LinearColor, Linearised, Rgb, SurfaceVertex};
use flightsim::render::taxiway::{
    self, LegMeasure, TaxiwayPlan, JOINT_SIDES, MAX_TAXIWAY_POINTS,
};
use flightsim::render::taxiway_lights::{
    self, GroundLight, GroundLightKind, LightSpot, SegmentMeasure, TaxiwayLightError,
    TaxiwayLighting, MAX_GROUND_LIGHTS,
};
use flightsim::render::taxiway_sign::{self, SignPlan, TaxiwaySignMeshError};
use flightsim::vector::DVec3;

fn d(x: f64) -> Binary64 {
    Binary64::from_bits(x.to_bits())
}

fn f(x: Binary64) -> f64 {
    f64::from_bits(x.to_bits())
}

fn single(x: f32) -> Binary32 {
    Binary32::from_bits(x.to_bits())
}

fn f32_of(x: Binary32) -> f32 {
    f32::from_bits(x.to_bits())
}

type V = [f64; 3];

fn vector(v: V) -> DVec3 {
    DVec3::new(d(v[0]), d(v[1]), d(v[2]))
}

fn minus(a: V, b: V) -> V {
    [a[0] - b[0], a[1] - b[1], a[2] - b[2]]
}

fn cross(a: V, b: V) -> V {
    [a[1] * b[2] - a[2] * b[1], a[2] * b[0] - a[0] * b[2], a[0] * b[1] - a[1] * b[0]]
}

fn dot(a: V, b: V) -> f64 {
    a[0] * b[0] + a[1] * b[1] + a[2] * b[2]
}

fn norm(a: V) -> f64 {
    dot(a, a).sqrt()
}

const SEMI_MAJOR: f64 = 6_378_137.0;
const ECCENTRICITY_SQUARED: f64 = 6.694_379_990_141_316e-3;

fn place(latitude: f64, longitude: f64, altitude: f64) -> Geodetic {
    Geodetic {
        latitude: angle::to_radians(d(latitude)),
        longitude: angle::to_radians(d(longitude)),
        altitude: d(altitude),
    }
}

fn to_ecef(p: Geodetic) -> V {
    let (sin_lat, cos_lat) = f(p.latitude).sin_cos();
    let (sin_lon, cos_lon) = f(p.longitude).sin_cos();
    let n = SEMI_MAJOR / (1.0 - ECCENTRICITY_SQUARED * sin_lat * sin_lat).sqrt();
    let h = f(p.altitude);
    [
        (n + h) * cos_lat * cos_lon,
        (n + h) * cos_lat * sin_lon,
        (n * (1.0 - ECCENTRICITY_SQUARED) + h) * sin_lat,
    ]
}

fn up_at(p: Geodetic) -> V {
    let (sin_lat, cos_lat) = f(p.latitude).sin_cos();
    let (sin_lon, cos_lon) = f(p.longitude).sin_cos();
    [cos_lat * cos_lon, cos_lat * sin_lon, sin_lat]
}

/// A place so far north and east, at the same altitude.
fn offset(p: Geodetic, north: f64, east: f64) -> Geodetic {
    let (sin_lat, cos_lat) = f(p.latitude).sin_cos();
    let w = 1.0 - ECCENTRICITY_SQUARED * sin_lat * sin_lat;
    let n = SEMI_MAJOR / w.sqrt();
    let m = SEMI_MAJOR * (1.0 - ECCENTRICITY_SQUARED) / (w * w.sqrt());
    let h = f(p.altitude);
    Geodetic {
        latitude: d(f(p.latitude) + north / (m + h)),
        longitude: d(f(p.longitude) + east / ((n + h) * cos_lat)),
        altitude: p.altitude,
    }
}

/// Horizontal distance and heading from one place to another.
fn leg(from: Geodetic, to: Geodetic) -> (f64, f64) {
    let (sin_lat, cos_lat) = f(from.latitude).sin_cos();
    let (sin_lon, cos_lon) = f(from.longitude).sin_cos();
    let v = minus(to_ecef(to), to_ecef(from));
    let north = dot([-sin_lat * cos_lon, -sin_lat * sin_lon, cos_lat], v);
    let east = dot([-sin_lon, cos_lon, 0.0], v);
    (north.hypot(east), east.atan2(north))
}

fn bearing(radians: f64) -> Bearing {
    let (sin, cos) = radians.sin_cos();
    Bearing { sin: d(sin), cos: d(cos) }
}

/// Where a vertex of a plan comes to lie.
fn settle(v: &SurfaceVertex) -> Geodetic {
    offset(v.anchor, f(v.north), f(v.east)).lifted(v.lift)
}

fn faces_up(mesh: &SurfaceMesh) -> bool {
    let points: Vec<V> = mesh.vertices.iter().map(|v| to_ecef(settle(v))).collect();
    mesh.indices.chunks_exact(3).all(|t| {
        let [a, b, c] = [t[0], t[1], t[2]].map(|i| points[i as usize]);
        dot(cross(minus(b, a), minus(c, a)), a) > 0.0
    })
}

fn degrees(value: f64) -> Binary64 {
    angle::to_radians(d(value))
}

fn rgb(color: Rgb) -> [f32; 3] {
    [f32_of(color.red), f32_of(color.green), f32_of(color.blue)]
}

/// The powers that a linear colour asks for.
fn powers(color: LinearColor) -> Rgb {
    let power = |part: Linearised| match part {
        Linearised::Straight(_) => single(0.0),
        Linearised::Power(base) => single(f32_of(base).powf(2.4)),
    };
    Rgb { red: power(color.red), green: power(color.green), blue: power(color.blue) }
}

fn linear(color: LinearColor) -> [f32; 3] {
    rgb(color.resolved(powers(color)))
}

/// A channel made linear by the machine's own arithmetic.
fn to_linear(channel: f32) -> f32 {
    if channel <= 0.040_449_936 {
        channel / 12.92
    } else {
        ((channel + 0.055) / 1.055).powf(2.4)
    }
}

fn near_color(color: [f32; 3], named: [f32; 3]) -> bool {
    (0..3).all(|i| (color[i] - to_linear(named[i])).abs() < 1e-6)
}

fn square() -> [Geodetic; 4] {
    let origin = place(35.0, 139.0, 12.0);
    [
        origin,
        offset(origin, 0.0, 20.0),
        offset(origin, 20.0, 20.0),
        offset(origin, 20.0, 0.0),
    ]
}

fn build_apron(
    triangles: Vec<[Geodetic; 3]>,
    surface: AirportSurface,
) -> Result<ApronPlan, ApronMeshError> {
    let corner = |p: Geodetic| {
        let lifted = settle(&apron::corner(p, apron::apron_surface_color(surface)));
        Corner { world: vector(to_ecef(lifted)), up: vector(up_at(lifted)) }
    };
    let origin = triangles.first().map_or(DVec3::zero(), |t| corner(t[0]).world);
    let measures: Vec<TriangleMeasure> = triangles
        .iter()
        .map(|t| {
            let [a, b, c] = t.map(corner);
            placing::measure_triangle(a, b, c, origin)
        })
        .collect();
    let triangles = triangles.into_iter().map(|[a, b, c]| ApronTriangle { a, b, c }).collect();
    apron::apron_mesh(&triangles, surface, &measures)
}

#[test]
fn downward_input_is_rewound_upward() {
    let v = square();
    let plan = build_apron(vec![[v[0], v[2], v[1]], [v[0], v[3], v[2]]], AirportSurface::Concrete)
        .expect("valid apron");
    assert_eq!(plan.mesh.indices.len(), 6);
    assert!(faces_up(&plan.mesh));
    assert_eq!(plan.origin, v[0].lifted(d(0.04)));
}

#[test]
fn every_surface_has_a_distinct_finite_color() {
    let surfaces = [
        AirportSurface::Unknown,
        AirportSurface::Asphalt,
        AirportSurface::Concrete,
        AirportSurface::Paved,
        AirportSurface::Grass,
        AirportSurface::Gravel,
        AirportSurface::Dirt,
        AirportSurface::Sand,
    ];
    let colors: Vec<[u32; 3]> = surfaces
        .into_iter()
        .map(|surface| rgb(apron::apron_surface_color(surface)).map(f32::to_bits))
        .collect();
    assert!(surfaces
        .into_iter()
        .all(|surface| rgb(apron::apron_surface_color(surface)).into_iter().all(f32::is_finite)));
    for (index, color) in colors.iter().enumerate() {
        assert!(!colors[..index].contains(color), "duplicate surface color");
    }
}

#[test]
fn malformed_geometry_is_rejected() {
    let v = square();
    assert_eq!(
        build_apron(vec![[v[0], v[0], v[1]]], AirportSurface::Asphalt)
            .expect_err("collapsed triangle"),
        ApronMeshError::DegenerateTriangle
    );
    let bad = place(f64::NAN, 0.0, 0.0);
    assert_eq!(
        build_apron(vec![[bad, v[1], v[2]]], AirportSurface::Asphalt).expect_err("NaN vertex"),
        ApronMeshError::InvalidVertex
    );
    assert_eq!(
        build_apron(vec![], AirportSurface::Asphalt).expect_err("no triangles"),
        ApronMeshError::Empty
    );
    assert_eq!(ApronMeshError::Empty.message(), "apron mesh has no triangles");
}

#[test]
fn cap_is_enforced_before_mesh_allocation() {
    let point = place(0.0, 0.0, 0.0);
    let triangles = vec![[point; 3]; MAX_APRON_TRIANGLES + 1];
    assert_eq!(
        build_apron(triangles, AirportSurface::Unknown).expect_err("triangle cap"),
        ApronMeshError::TooManyTriangles
    );
}

fn holding(
    position: Geodetic,
    heading: Binary64,
    width: f64,
    side: RunwaySide,
) -> Result<Option<HoldingPlan>, HoldingMarkingError> {
    holding_position::holding_position_mesh(
        position,
        heading,
        bearing(f(heading)),
        d(width),
        side,
    )
}

fn marking(side: RunwaySide) -> Result<Option<HoldingPlan>, HoldingMarkingError> {
    holding(place(35.0, 139.0, 8.0), degrees(30.0), 20.0, side)
}

#[test]
fn unknown_runway_side_is_neutral_omission() {
    assert!(marking(RunwaySide::Unknown).expect("valid geometry").is_none());
}

#[test]
fn two_solid_and_two_dashed_bars_are_built() {
    let plan = marking(RunwaySide::Forward).expect("valid geometry").expect("known side");
    // A dash and its gap take two and a half metres.
    let dash_count =
        core::iter::successors(Some(0.0_f64), |offset| Some(*offset + 2.5))
            .take_while(|offset| *offset < 20.0)
            .count();
    assert_eq!(plan.mesh.count_vertices(), (2 + 2 * dash_count) * 4);
}

#[test]
fn changing_runway_side_mirrors_but_preserves_complexity() {
    let forward = marking(RunwaySide::Forward).expect("forward").expect("known");
    let backward = marking(RunwaySide::Backward).expect("backward").expect("known");
    assert_eq!(forward.mesh.count_vertices(), backward.mesh.count_vertices());
    assert_eq!(forward.mesh.indices.len(), backward.mesh.indices.len());
}

#[test]
fn triangles_face_up_and_are_yellow() {
    let plan = marking(RunwaySide::Forward).expect("valid").expect("known");
    assert!(faces_up(&plan.mesh));
    let yellow = rgb(holding_position::yellow());
    assert!(plan.mesh.vertices.iter().all(|v| near_color(linear(v.color), yellow)));
}

#[test]
fn invalid_inputs_are_rejected() {
    let point = place(35.0, 139.0, 8.0);
    assert_eq!(
        holding(point, d(f64::NAN), 20.0, RunwaySide::Forward).expect_err("heading"),
        HoldingMarkingError::InvalidHeading
    );
    assert_eq!(
        holding(point, d(0.0), 201.0, RunwaySide::Forward).expect_err("cap"),
        HoldingMarkingError::InvalidWidth
    );
    assert_eq!(
        holding(place(f64::NAN, 0.0, 0.0), d(0.0), 20.0, RunwaySide::Forward)
            .expect_err("position"),
        HoldingMarkingError::InvalidPosition
    );
    assert_eq!(
        HoldingMarkingError::InvalidPosition.message(),
        "holding marking position is invalid"
    );
}

fn runway() -> RunwayPlan {
    runway::runway_mesh(
        place(35.548, 139.775, 8.0),
        bearing(50.0_f64.to_radians()),
        d(2500.0),
        d(45.0),
    )
}

#[test]
fn the_mesh_has_pavement_and_markings() {
    let vertices = runway().mesh.count_vertices();
    assert!(
        vertices > 100,
        "the runway should carry markings, got only {vertices} vertices"
    );
}

#[test]
fn every_triangle_faces_up() {
    assert!(
        faces_up(&runway().mesh),
        "a triangle winds the wrong way and will be culled"
    );
}

#[test]
fn the_far_end_follows_the_curvature_of_the_earth() {
    for vertex in &runway().mesh.vertices {
        let altitude = f(settle(vertex).altitude);
        assert!(
            (7.9..=8.3).contains(&altitude),
            "a runway vertex sits at {altitude} m — it does not follow the ellipsoid"
        );
    }
}

#[test]
fn markings_are_painted_in_linear_colour() {
    let plan = runway();
    let brightest =
        plan.mesh.vertices.iter().map(|v| linear(v.color)[0]).fold(0.0_f32, f32::max);
    let expected = to_linear(0.87);
    assert_eq!(f32_of(runway::paint().red), 0.87);
    assert!(
        (brightest - expected).abs() < 1e-6,
        "the paint colour {brightest} is not the linear form of sRGB 0.87"
    );
    assert!(plan.mesh.vertices.iter().all(|v| f32_of(v.color.alpha) == 1.0));
}

fn path() -> Vec<Geodetic> {
    vec![
        place(35.5480, 139.7750, 8.0),
        place(35.5485, 139.7756, 8.0),
        place(35.5492, 139.7756, 8.0),
    ]
}

fn build_taxiway(points: &[Geodetic], width: f64) -> Option<TaxiwayPlan> {
    let measures = points
        .windows(2)
        .map(|pair| {
            let (length, heading) = leg(pair[0], pair[1]);
            LegMeasure {
                finite: length.is_finite(),
                length: d(length),
                heading: bearing(heading),
            }
        })
        .collect();
    let ring = (0..JOINT_SIDES as i64)
        .map(|side| bearing(f(taxiway::joint_angle(side))))
        .collect();
    taxiway::taxiway_mesh(&points.to_vec(), d(width), &measures, &ring)
}

#[test]
fn a_polyline_has_pavement_markings_and_joint_geometry() {
    let plan = build_taxiway(&path(), 20.0).expect("valid taxiway");
    assert_eq!(plan.mesh.count_vertices(), 94);
    assert_eq!(plan.mesh.indices.len(), 240);
}

#[test]
fn every_triangle_faces_away_from_the_earth() {
    let plan = build_taxiway(&path(), 20.0).expect("valid taxiway");
    assert!(faces_up(&plan.mesh), "a taxiway triangle winds towards the earth");
}

#[test]
fn vertices_follow_the_ellipsoid_instead_of_a_tangent_plane() {
    let plan = build_taxiway(&path(), 20.0).expect("valid taxiway");
    for vertex in &plan.mesh.vertices {
        let altitude = f(settle(vertex).altitude);
        assert!(
            (8.04..=8.13).contains(&altitude),
            "taxiway vertex altitude {altitude} did not follow the ellipsoid"
        );
    }
}

#[test]
fn each_node_keeps_its_own_surface_elevation() {
    let points = [place(35.5480, 139.7750, 5.0), place(35.5490, 139.7760, 25.0)];
    let plan = build_taxiway(&points, 20.0).expect("valid sloping taxiway");
    let altitude = |index: usize| f(settle(&plan.mesh.vertices[index]).altitude);
    assert!((altitude(0) - 5.06).abs() < 0.02);
    assert!((altitude(2) - 25.06).abs() < 0.02);
}

#[test]
fn centreline_uses_linear_yellow() {
    let plan = build_taxiway(&path(), 20.0).expect("valid taxiway");
    let named = rgb(taxiway::centreline_paint());
    assert_eq!(named, [0.88, 0.62, 0.08]);
    let expected = named.map(to_linear);
    assert!(plan.mesh.vertices.iter().any(|v| linear(v.color) == expected));
}

#[test]
fn invalid_or_degenerate_geometry_is_skipped() {
    assert!(build_taxiway(&[], 20.0).is_none());
    assert!(build_taxiway(&path()[..1], 20.0).is_none());
    assert!(build_taxiway(&path(), 0.0).is_none());
    assert!(build_taxiway(&path(), f64::NAN).is_none());
    let duplicate = [path()[0], path()[0]];
    assert!(build_taxiway(&duplicate, 20.0).is_none());
    let mut invalid = path();
    invalid[1].latitude = d(f64::NAN);
    assert!(build_taxiway(&invalid, 20.0).is_none());
    let excessive = vec![path()[0]; MAX_TAXIWAY_POINTS + 1];
    assert!(build_taxiway(&excessive, 20.0).is_none());
}

fn open_path() -> Vec<Geodetic> {
    let start = place(35.0, 139.0, 8.0);
    vec![start, offset(start, 0.0, 95.0), offset(start, 80.0, 95.0)]
}

fn light_layout(
    points: Vec<Geodetic>,
    width: f64,
    lighting: TaxiwayLighting,
) -> Result<Vec<LightSpot>, TaxiwayLightError> {
    let measures = points
        .windows(2)
        .map(|pair| {
            let (length, heading) = leg(pair[0], pair[1]);
            SegmentMeasure { length: d(length), heading: bearing(heading) }
        })
        .collect();
    let (first, last) = (points[0], points[points.len() - 1]);
    let gap = d(norm(minus(to_ecef(first), to_ecef(last))));
    taxiway_lights::procedural_taxiway_light_layout(&points, d(width), lighting, &measures, gap)
}

/// Where a light comes to stand.
fn stand(spot: &LightSpot) -> Geodetic {
    let mut point = offset(spot.start, f(spot.north), f(spot.east));
    if let Some(side) = spot.side {
        point = offset(point, f(side.north), f(side.east));
    }
    Geodetic { altitude: spot.altitude, ..point }
}

#[test]
fn procedural_both_mode_has_blue_edges_and_green_centres() {
    let lights =
        light_layout(open_path(), 18.0, TaxiwayLighting::EdgeAndCenterline).expect("valid path");
    let any = |kind: GroundLightKind| lights.iter().any(|light| light.kind == kind);
    assert!(any(GroundLightKind::TaxiwayEdge));
    assert!(any(GroundLightKind::TaxiwayCenterline));
    assert!(!any(GroundLightKind::RunwayGuard));
    for light in &lights {
        assert_eq!(light.side.is_some(), light.kind == GroundLightKind::TaxiwayEdge);
        assert!((f(stand(light).altitude) - 8.0).abs() < 1e-9);
    }
}

#[test]
fn none_mode_produces_no_lights() {
    assert!(light_layout(open_path(), 18.0, TaxiwayLighting::Unlit)
        .expect("valid path")
        .is_empty());
}

#[test]
fn closed_loop_does_not_duplicate_its_start() {
    let start = place(35.0, 139.0, 8.0);
    let east = offset(start, 0.0, 100.0);
    let north_east = offset(east, 100.0, 0.0);
    let north = offset(start, 100.0, 0.0);
    let lights = light_layout(
        vec![start, east, north_east, north, start],
        18.0,
        TaxiwayLighting::Centerline,
    )
    .expect("closed path");
    let points: Vec<V> = lights.iter().map(|light| to_ecef(stand(light))).collect();
    for (index, point) in points.iter().enumerate() {
        assert!(
            !points[..index].iter().any(|previous| norm(minus(*previous, *point)) < 0.01),
            "duplicated closed-loop light at {index}"
        );
    }
}

#[test]
fn explicit_lights_are_grouped_into_three_meshes() {
    let point = place(35.0, 139.0, 8.0);
    let lights = vec![
        GroundLight { point, kind: GroundLightKind::TaxiwayEdge },
        GroundLight { point: offset(point, 2.0, 0.0), kind: GroundLightKind::TaxiwayCenterline },
        GroundLight { point: offset(point, 4.0, 0.0), kind: GroundLightKind::RunwayGuard },
        GroundLight { point: offset(point, 6.0, 0.0), kind: GroundLightKind::TaxiwayEdge },
    ];
    let plan = taxiway_lights::ground_light_meshes(&lights)
        .expect("valid lights")
        .expect("non-empty");
    assert_eq!(plan.groups.len(), 3);
    assert_eq!(plan.groups.iter().map(|g| g.mesh.count_vertices()).sum::<usize>(), 16);
    for group in &plan.groups {
        assert_eq!(group.color, taxiway_lights::light_color(group.kind));
        assert_eq!(group.mesh.indices[..6], [0, 1, 2, 0, 2, 3]);
        assert!(faces_up(&group.mesh), "a light winds towards the earth");
        let base = linear(group.material.base.linear());
        assert!(base[0] + base[1] + base[2] < 1e-6);
    }
}

fn full(red: f32, green: f32, blue: f32) -> AirportLights {
    AirportLights {
        full_emissive: Rgb { red: single(red), green: single(green), blue: single(blue) },
    }
}

/// The lights that a marker stands for.
fn lit(marker: LampMarker) -> AirportLights {
    marker.lights(powers(marker.full_emissive))
}

#[test]
fn light_marker_recovers_after_full_daylight_off() {
    let point = place(35.0, 139.0, 8.0);
    let lights = vec![GroundLight { point, kind: GroundLightKind::TaxiwayEdge }];
    let plan = taxiway_lights::ground_light_meshes(&lights).expect("valid").expect("non-empty");
    let marker = lit(plan.groups[0].marker);
    let off = rgb(marker.emissive_at(single(0.0)));
    assert!(off[0] + off[1] + off[2] < 1e-6);
    let back = rgb(marker.emissive_at(single(1.0)));
    assert!((back[2] - f32_of(marker.full_emissive.blue)).abs() < 1e-3);
    assert_eq!(back, [0.08, 0.3, 1.0].map(|channel| to_linear(channel) * 6000.0));
}

#[test]
fn invalid_and_excessive_inputs_are_rejected() {
    assert_eq!(
        light_layout(open_path(), f64::NAN, TaxiwayLighting::Edge).expect_err("width"),
        TaxiwayLightError::InvalidWidth
    );
    let point = place(0.0, 0.0, 0.0);
    let light = GroundLight { point, kind: GroundLightKind::TaxiwayEdge };
    let lights = vec![light; MAX_GROUND_LIGHTS + 1];
    assert_eq!(
        taxiway_lights::ground_light_meshes(&lights).expect_err("cap"),
        TaxiwayLightError::TooManyLights
    );
    let bad = GroundLight { point: place(f64::NAN, 0.0, 0.0), ..light };
    assert_eq!(
        taxiway_lights::ground_light_meshes(&vec![bad]).expect_err("light"),
        TaxiwayLightError::InvalidLight
    );
    assert!(taxiway_lights::ground_light_meshes(&vec![]).expect("nothing to do").is_none());
    assert_eq!(
        light_layout(vec![point], 18.0, TaxiwayLighting::Edge).expect_err("path"),
        TaxiwayLightError::InvalidPath
    );
    assert_eq!(TaxiwayLightError::InvalidWidth.message(), "taxiway light width is invalid");
}

fn sign(taxiway: &str, holding: &str) -> Option<SignPlan> {
    let facing = degrees(180.0);
    taxiway_sign::holding_position_sign_mesh(
        place(35.0, 139.0, 8.0),
        facing,
        bearing(f(facing)),
        taxiway,
        holding,
    )
    .expect("valid geometry")
}

#[test]
fn ascii_refs_build_black_yellow_and_red_white_panels() {
    let plan = sign("A1", "34R-16L").expect("supported refs");
    let colors: Vec<[f32; 3]> = plan.mesh.vertices.iter().map(|v| linear(v.color)).collect();
    for wanted in
        [[0.015, 0.015, 0.012], [1.0, 0.72, 0.03], [0.66, 0.015, 0.02], [1.0, 0.98, 0.93]]
    {
        assert!(
            colors.iter().any(|color| near_color(*color, wanted)),
            "{wanted:?} is not on the sign"
        );
    }
}

#[test]
fn sign_geometry_is_vertical_and_finite() {
    let plan = sign("B", "22").expect("supported refs");
    let position = place(35.0, 139.0, 8.0);
    let points: Vec<V> = plan
        .mesh
        .vertices
        .iter()
        .map(|v| {
            let p = offset(position, f(v.north), f(v.east));
            to_ecef(Geodetic { altitude: v.altitude, ..p })
        })
        .collect();
    assert!(points.iter().flatten().all(|value| value.is_finite()));
    let up = up_at(position);
    for t in plan.mesh.indices.chunks_exact(3) {
        let [a, b, c] = [t[0], t[1], t[2]].map(|i| points[i as usize]);
        let normal = cross(minus(b, a), minus(c, a));
        assert!((dot(normal, up) / norm(normal)).abs() < 1e-3);
    }
}

#[test]
fn a_sign_looks_along_its_bearing() {
    let position = place(35.0, 139.0, 8.0);
    for facing in [0.0_f64, 35.0, 90.0, 180.0, 300.0] {
        let (sin, cos) = facing.to_radians().sin_cos();
        let plan = taxiway_sign::holding_position_sign_mesh(
            position,
            d(facing.to_radians()),
            bearing(facing.to_radians()),
            "B4",
            "16L",
        )
        .expect("valid geometry")
        .expect("supported refs");
        let corner = |i: u32| {
            let v = &plan.mesh.vertices[i as usize];
            [f(v.north), f(v.east), f(v.altitude)]
        };
        for t in plan.mesh.indices.chunks_exact(3) {
            let [a, b, c] = [t[0], t[1], t[2]].map(corner);
            let (u, v) = (minus(b, a), minus(c, a));
            // North, east and up are left-handed.
            let normal = cross(u, v).map(|x| -x);
            assert!(normal[0] * cos + normal[1] * sin > 0.0, "a triangle looks away from {facing}");
        }
        // The letters stand before the panel.
        let depth = |i: usize| {
            let v = &plan.mesh.vertices[i];
            f(v.north) * cos + f(v.east) * sin
        };
        assert!(depth(16) > depth(8) + 0.017);
    }
}

#[test]
fn ends_five_centimetres_apart_do_not_close_a_path() {
    let start = place(35.0, 139.0, 8.0);
    let corners = |gap: f64| {
        let east = offset(start, 0.0, 100.0);
        let north = offset(start, 100.0, 0.0);
        vec![start, east, north, offset(start, gap, 0.0)]
    };
    let open = light_layout(corners(0.05), 18.0, TaxiwayLighting::Centerline).expect("open");
    let closed = light_layout(corners(0.005), 18.0, TaxiwayLighting::Centerline).expect("closed");
    assert_eq!(open.len(), closed.len() + 1);
}

#[test]
fn unsupported_or_unsafe_refs_are_omitted() {
    assert!(sign("", "22").is_none());
    assert!(sign("alpha", "22").is_none());
    assert!(sign("A", "滑走路").is_none());
    assert!(sign("ABCDEFGHI", "22").is_none());
    assert!(sign("A_1", "22").is_none());
}

#[test]
fn a_sign_needs_a_place_and_a_direction() {
    let at = |position: Geodetic, facing: f64| {
        taxiway_sign::holding_position_sign_mesh(position, d(facing), bearing(facing), "A", "22")
    };
    assert_eq!(
        at(place(f64::NAN, 0.0, 0.0), 0.0).expect_err("position"),
        TaxiwaySignMeshError::InvalidPosition
    );
    assert_eq!(
        at(place(35.0, 139.0, 8.0), f64::NAN).expect_err("facing"),
        TaxiwaySignMeshError::InvalidFacing
    );
    assert_eq!(
        TaxiwaySignMeshError::InvalidPosition.message(),
        "taxiway sign position is invalid"
    );
}

#[test]
fn all_supported_glyphs_fit_the_bitmap() {
    for byte in b"0123456789ABCDEFGHIJKLMNOPQRSTUVWXYZ-/ " {
        let glyph = taxiway_sign::glyph(*byte).expect("listed glyph");
        assert!((0..5).all(|row| glyph.row(row) <= 0b111));
    }
    assert!(taxiway_sign::glyph(b'a').is_none());
}

const LENGTH: f64 = 2500.0;
const WIDTH: f64 = 45.0;

fn layout() -> Vec<RunwayLight> {
    runway_lights::runway_light_layout(d(LENGTH), d(WIDTH))
}

fn intensity(elevation: f64) -> f32 {
    f32_of(runway_lights::light_intensity_fraction(degrees(elevation)))
}

#[test]
fn the_lights_are_off_in_daylight() {
    for degrees in [10.0, 30.0, 78.0] {
        let fraction = intensity(degrees);
        assert!(
            fraction.abs() < 1e-6,
            "the lights should be off at {degrees} deg, got {fraction}"
        );
    }
}

#[test]
fn the_lights_are_fully_on_at_night() {
    for degrees in [-6.0, -12.0, -30.0] {
        let fraction = intensity(degrees);
        assert!(
            (fraction - 1.0).abs() < 1e-6,
            "the lights should be full at {degrees} deg, got {fraction}"
        );
    }
}

#[test]
fn the_lights_come_up_before_the_sun_is_down() {
    let at_horizon = intensity(0.0);
    assert!(
        at_horizon > 0.15,
        "the lights should already be coming up at sunset, got {at_horizon}"
    );
    let civil_twilight = intensity(-3.0);
    assert!(
        civil_twilight > 0.7,
        "the lights should be near full in civil twilight, got {civil_twilight}"
    );
}

#[test]
fn the_transition_is_monotonic_and_smooth() {
    let mut previous = 0.0_f32;
    let mut degrees = 6.0;
    while degrees >= -12.0 {
        let fraction = intensity(degrees);
        assert!(
            fraction >= previous - 1e-6,
            "the lights dimmed while the sun set: {previous} then {fraction} at {degrees}"
        );
        assert!(
            (fraction - previous) < 0.15,
            "the lights jumped by {} at {degrees} deg",
            fraction - previous
        );
        previous = fraction;
        degrees -= 0.25;
    }
    assert!((previous - 1.0).abs() < 1e-6);
}

#[test]
fn a_broken_sun_angle_leaves_the_lights_off() {
    for value in [f64::NAN, f64::INFINITY, f64::NEG_INFINITY] {
        let fraction = f32_of(runway_lights::light_intensity_fraction(d(value)));
        assert!(
            fraction.is_finite() && (0.0..=1.0).contains(&fraction),
            "a broken sun angle produced {fraction}"
        );
    }
}

#[test]
fn the_edges_are_lit_along_the_whole_runway() {
    let spacing = 60.0;
    let mut edge_positions: Vec<f64> = layout()
        .iter()
        .filter(|light| light.color == runway_lights::edge_color() && f(light.across) > 0.0)
        .map(|light| f(light.along))
        .collect();
    edge_positions.sort_by(|a, b| a.partial_cmp(b).expect("finite"));
    assert!(
        edge_positions.first().is_some_and(|value| value.abs() < 1e-6),
        "the approach end must be lit"
    );
    assert!(
        edge_positions.last().is_some_and(|value| (value - LENGTH).abs() < 1e-6),
        "the far end must be lit"
    );
    for pair in edge_positions.windows(2) {
        assert!(
            pair[1] - pair[0] <= spacing + 1e-6,
            "edge lights are {} m apart, the standard is {spacing} m",
            pair[1] - pair[0]
        );
    }
}

#[test]
fn the_edge_lights_sit_outside_the_pavement() {
    for light in layout().iter().filter(|light| light.color == runway_lights::edge_color()) {
        assert!(
            f(light.across).abs() > WIDTH * 0.5,
            "an edge light sits {} m off centre, inside the {WIDTH} m runway",
            f(light.across)
        );
    }
}

#[test]
fn the_approach_end_is_green_and_the_far_end_is_red() {
    let lights = layout();
    let of = |color: Rgb| -> Vec<f64> {
        lights.iter().filter(|light| light.color == color).map(|light| f(light.along)).collect()
    };
    let green = of(runway_lights::threshold_green());
    let red = of(runway_lights::end_red());
    assert!(!green.is_empty() && !red.is_empty());
    assert!(green.iter().all(|x| x.abs() < 1e-6), "a green light is not at the approach end");
    assert!(red.iter().all(|x| (x - LENGTH).abs() < 1e-6), "a red light is not at the far end");
}

#[test]
fn the_threshold_lights_are_symmetric_about_the_centreline() {
    let sum: f64 = layout()
        .iter()
        .filter(|light| light.color == runway_lights::threshold_green())
        .map(|light| f(light.across))
        .sum();
    assert!(
        sum.abs() < 1e-6,
        "the threshold lights are not symmetric, offsets sum to {sum}"
    );
}

#[test]
fn a_degenerate_runway_produces_no_lights_rather_than_panicking() {
    for (length, width) in [
        (0.0, WIDTH),
        (-100.0, WIDTH),
        (f64::NAN, WIDTH),
        (LENGTH, 0.0),
        (LENGTH, f64::INFINITY),
    ] {
        let lights = runway_lights::runway_light_layout(d(length), d(width));
        assert!(
            lights.is_empty(),
            "a degenerate runway ({length}, {width}) produced {} lights",
            lights.len()
        );
    }
}

#[test]
fn every_light_position_is_finite() {
    for light in layout() {
        assert!(
            light.along.is_finite() && light.across.is_finite(),
            "a light landed at a non-finite position"
        );
    }
}

fn light_plan(length: f64) -> RunwayLightPlan {
    runway_lights::runway_light_meshes(
        place(35.548, 139.775, 8.0),
        bearing(50.0_f64.to_radians()),
        d(length),
        d(WIDTH),
    )
}

#[test]
fn the_lights_are_grouped_into_three_meshes() {
    let plan = light_plan(LENGTH);
    assert_eq!(plan.groups.len(), 3, "expected white, green and red groups");
    let total: usize = plan.groups.iter().map(|group| group.mesh.count_vertices()).sum();
    assert_eq!(total, layout().len() * 4, "each light is one quad");
    assert!(plan.groups.iter().all(|group| faces_up(&group.mesh)));
}

#[test]
fn the_lights_emit_rather_than_reflect() {
    for group in &light_plan(LENGTH).groups {
        let base = linear(group.material.base.linear());
        assert!(base[0] + base[1] + base[2] < 1e-6, "a light group reflects sunlight: {base:?}");
        let emissive = rgb(group.material.glow(powers(group.material.emissive)));
        assert!(
            emissive[0] + emissive[1] + emissive[2] > 1.0,
            "a light group does not emit: {emissive:?}"
        );
    }
}

#[test]
fn dimming_keeps_the_full_brightness_recoverable() {
    let marker = full(100.0, 200.0, 50.0);
    let off = rgb(marker.emissive_at(single(0.0)));
    assert!(off[0] + off[1] + off[2] < 1e-6);
    let back = rgb(marker.emissive_at(single(1.0)));
    assert!((back[0] - 100.0).abs() < 1e-3);
    assert!((back[1] - 200.0).abs() < 1e-3);
    assert!((back[2] - 50.0).abs() < 1e-3);
    let half = rgb(marker.emissive_at(single(0.5)));
    assert!((half[1] / half[0] - 2.0).abs() < 1e-3);
}

#[test]
fn a_broken_fraction_leaves_the_lights_dark_rather_than_blinding() {
    let marker = full(100.0, 100.0, 100.0);
    for fraction in [f32::NAN, f32::INFINITY, -1.0, 5.0] {
        let emissive = rgb(marker.emissive_at(single(fraction)));
        assert!(
            emissive[0].is_finite() && (0.0..=100.0).contains(&emissive[0]),
            "fraction {fraction} produced {emissive:?}"
        );
    }
}

#[test]
fn the_group_marker_matches_the_material_it_ships_with() {
    for group in &light_plan(LENGTH).groups {
        let shipped = rgb(group.material.glow(powers(group.material.emissive)));
        let full = rgb(lit(group.marker).full_emissive);
        for channel in 0..3 {
            assert!(
                (shipped[channel] - full[channel]).abs() < 1e-3,
                "marker {full:?} does not match material {shipped:?}"
            );
        }
        let expected = rgb(group.color).map(|channel| to_linear(channel) * 6000.0);
        assert_eq!(shipped, expected);
    }
}

#[test]
fn the_lights_follow_the_curvature_of_the_earth() {
    for group in &light_plan(LENGTH).groups {
        for vertex in &group.mesh.vertices {
            let altitude = f(settle(vertex).altitude);
            assert!(
                (altitude - 8.0 - f(vertex.lift)).abs() < 0.3,
                "a light sits at {altitude} m"
            );
        }
    }
}

#[test]
fn a_degenerate_runway_still_reports_an_origin() {
    let plan = light_plan(0.0);
    assert!(plan.groups.is_empty());
    assert!(to_ecef(settle(&plan.origin)).iter().all(|x| x.is_finite()));
}

/// What a mesh is drawn as around an origin.
fn places(mesh: &SurfaceMesh) -> (Vec<DVec3>, Vec<DVec3>) {
    mesh.vertices
        .iter()
        .map(|v| (vector(to_ecef(settle(v))), vector(up_at(settle(v)))))
        .unzip()
}

#[test]
fn vertices_are_drawn_around_the_origin() {
    let plan = marking(RunwaySide::Forward).expect("valid geometry").expect("known side");
    let origin = to_ecef(plan.origin);
    let (worlds, ups) = places(&plan.mesh);
    let drawn = placing::draw_marking(&worlds, &ups, vector(origin)).expect("on the earth");
    assert_eq!(drawn.len(), plan.mesh.count_vertices());
    for (vertex, planned) in drawn.iter().zip(&plan.mesh.vertices) {
        let expected = minus(to_ecef(settle(planned)), origin);
        let position = [vertex.position.x, vertex.position.y, vertex.position.z].map(f32_of);
        let normal = [vertex.normal.x, vertex.normal.y, vertex.normal.z].map(f32_of);
        for axis in 0..3 {
            assert_eq!(position[axis], expected[axis] as f32);
            assert_eq!(normal[axis], up_at(settle(planned))[axis] as f32);
        }
    }
}

#[test]
fn a_vertex_without_a_place_is_refused() {
    let (here, up) = (vector([1.0, 2.0, 3.0]), vector([0.0, 0.0, 1.0]));
    let nowhere = vector([f64::NAN, 0.0, 0.0]);
    let zero = DVec3::zero();
    for (worlds, ups) in [(vec![here, nowhere], vec![up, up]), (vec![here, here], vec![up, nowhere])]
    {
        assert!(placing::draw_surface(&worlds, &ups, zero).is_none());
        assert_eq!(
            placing::draw_apron(&worlds, &ups, zero),
            Err(ApronMeshError::InvalidVertex)
        );
        assert_eq!(
            placing::draw_marking(&worlds, &ups, zero),
            Err(HoldingMarkingError::InvalidPosition)
        );
        assert_eq!(
            placing::draw_lights(&worlds, &ups, zero),
            Err(TaxiwayLightError::InvalidLight)
        );
    }
    let flat = vec![here, here, here, here];
    assert_eq!(
        placing::draw_sign(&flat, zero),
        Err(TaxiwaySignMeshError::InvalidPosition)
    );
}

#[test]
fn a_rectangle_of_a_sign_looks_its_own_way() {
    let corners = [[0.0, 0.0, 0.0], [2.0, 0.0, 0.0], [2.0, 1.0, 0.0], [0.0, 1.0, 0.0]];
    let worlds = corners.map(vector).to_vec();
    let drawn = placing::draw_sign(&worlds, vector([1.0, 0.0, 0.0])).expect("a rectangle");
    assert_eq!(drawn.len(), 4);
    for vertex in &drawn {
        assert_eq!(f32_of(vertex.normal.z), 1.0);
    }
    assert_eq!(f32_of(drawn[0].position.x), -1.0);
    assert_eq!(f32_of(drawn[2].position.y), 1.0);
}

#[test]
fn a_marking_the_other_way_is_the_marking_turned_round() {
    let spot = place(35.0, 139.0, 8.0);
    let backward = holding(spot, degrees(30.0), 20.0, RunwaySide::Backward).expect("valid").expect("known");
    let turned = holding(spot, degrees(210.0), 20.0, RunwaySide::Forward).expect("valid").expect("known");
    let spots: Vec<[f64; 3]> = turned.mesh.vertices.iter().map(|v| to_ecef(settle(v))).collect();
    for vertex in &backward.mesh.vertices {
        let here = to_ecef(settle(vertex));
        let nearest = spots.iter().map(|s| norm(minus(*s, here))).fold(f64::INFINITY, f64::min);
        assert!(nearest < 1e-5, "a corner is {nearest} m off");
    }
}

#[test]
fn the_winding_of_an_apron_triangle_does_not_matter() {
    let v = square();
    let one = build_apron(vec![[v[0], v[1], v[2]]], AirportSurface::Concrete).expect("valid apron");
    let other = build_apron(vec![[v[0], v[2], v[1]]], AirportSurface::Concrete).expect("valid apron");
    assert!(faces_up(&one.mesh) && faces_up(&other.mesh));
    for vertex in &one.mesh.vertices {
        assert!(other.mesh.vertices.contains(vertex));
    }
    assert_eq!(one.mesh.count_vertices(), other.mesh.count_vertices());
}

#[test]
fn the_lights_never_dim_while_the_sun_sinks() {
    let mut previous = 0.0_f32;
    for step in 0..4_000 {
        let elevation = 0.2 - f64::from(step) * 1e-4;
        let current = f32_of(runway_lights::light_intensity_fraction(d(elevation)));
        assert!(current >= previous - 14.0 / 16_777_216.0, "dimmed at {elevation}");
        previous = current;
    }
    assert_eq!(previous, 1.0);
}

#[test]
fn every_band_that_is_laid_faces_up() {
    for (north, east) in [(40.0, 0.0), (0.0, -35.0), (25.0, 60.0), (-80.0, 15.0)] {
        let start = place(35.0, 139.0, 6.0);
        let points = [start, offset(start, north, east)];
        let plan = build_taxiway(&points, 15.0).expect("two points make a band");
        assert!(faces_up(&plan.mesh));
    }
}
