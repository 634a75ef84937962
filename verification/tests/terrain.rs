use flightsim::angle::{self, SinCos};
use flightsim::binary32::Binary32;
use flightsim::binary64::Binary64;
use flightsim::render::scene;
use flightsim::render::surface::Rgba;
use flightsim::render::terrain::{
    self, Linearised, TerrainRenderConfig, TerrainTiles, TerrainUpdate, TileAnswer, TileId,
    WantedTile,
};
use flightsim::vector::Vec3;

fn d(x: f64) -> Binary64 {
    Binary64::from_bits(x.to_bits())
}

fn f(x: Binary64) -> f64 {
    f64::from_bits(x.to_bits())
}

fn single(x: f32) -> Binary32 {
    Binary32::from_bits(x.to_bits())
}

fn f32_of(x: Binary32) -> f32 {
    f32::from_bits(x.to_bits())
}

fn color_at(elevation: f32, slope: f32) -> [f32; 4] {
    channels(terrain::terrain_color(single(elevation), single(slope)))
}

fn channels(color: Rgba) -> [f32; 4] {
    [f32_of(color.red), f32_of(color.green), f32_of(color.blue), f32_of(color.alpha)]
}

fn linear_value(value: Linearised) -> f32 {
    match value {
        Linearised::Straight(x) => f32_of(x),
        Linearised::Power(base) => f32_of(base).powf(2.4),
    }
}

fn to_linear(x: f32) -> f32 {
    linear_value(terrain::srgb_to_linear(single(x)))
}

fn luminance(color: [f32; 4]) -> f32 {
    color[0] * 0.2126 + color[1] * 0.7152 + color[2] * 0.0722
}

#[test]
fn high_ground_is_brighter_than_low_ground() {
    let low = color_at(50.0, 0.0);
    let high = color_at(3000.0, 0.0);
    assert!(
        luminance(high) > luminance(low) + 0.3,
        "3000 m ({high:?}) should read much brighter than 50 m ({low:?})"
    );
}

#[test]
fn low_ground_is_the_greenest() {
    let low = color_at(50.0, 0.0);
    assert!(low[1] > low[0] && low[1] > low[2], "the lowlands should be green, got {low:?}");
}

#[test]
fn the_colour_changes_gradually_with_height() {
    let mut previous = color_at(0.0, 0.0);
    let mut step = 10.0_f32;
    while step <= 4000.0 {
        let current = color_at(step, 0.0);
        let jump = (0..3)
            .map(|channel| (current[channel] - previous[channel]).abs())
            .fold(0.0_f32, f32::max);
        assert!(
            jump < 0.03,
            "the colour jumps by {jump:.3} at {step} m: {previous:?} -> {current:?}"
        );
        previous = current;
        step += 10.0;
    }
}

#[test]
fn a_cliff_is_rock_regardless_of_how_low_it_is() {
    let meadow = color_at(100.0, 0.0);
    let cliff = color_at(100.0, 60.0_f32.to_radians());
    assert!(
        cliff[0] > meadow[0] && cliff[1] < meadow[1],
        "a 60° slope at 100 m should read as rock, got {cliff:?} against {meadow:?}"
    );
}

#[test]
fn a_gentle_slope_is_left_alone() {
    let flat = color_at(200.0, 0.0);
    let gentle = color_at(200.0, 10.0_f32.to_radians());
    for channel in 0..3 {
        assert!(
            (flat[channel] - gentle[channel]).abs() < 1e-6,
            "a 10° slope should not be rocky yet: {gentle:?}"
        );
    }
}

#[test]
fn the_colours_handed_to_the_gpu_are_linear_not_srgb() {
    assert!(
        (to_linear(0.5) - 0.214).abs() < 0.002,
        "sRGB 0.5 should be about 0.214 in linear, got {}",
        to_linear(0.5)
    );
    assert!((to_linear(0.0)).abs() < 1e-9);
    assert!((to_linear(1.0) - 1.0).abs() < 1e-6);
    assert!(to_linear(0.02) > 0.02_f32.powf(2.2));
}

#[test]
fn the_conversion_is_actually_applied_to_the_mesh() {
    let vertices = 33 * 33;
    let elevations = vec![single(640.0); vertices];
    let slopes = vec![single(0.0); vertices];
    let colors = terrain::terrain_colors(vertices, &elevations, &slopes);
    assert_eq!(colors.len(), vertices);
    let authored = color_at(640.0, 0.0);
    assert!(
        (linear_value(colors[0].red) - to_linear(authored[0])).abs() < 1e-6,
        "the mesh colour {:?} is not the linear form of {authored:?}",
        colors[0]
    );
    assert!(
        colors.iter().all(|color| (f32_of(color.alpha) - 1.0).abs() < 1e-6),
        "the terrain must stay opaque"
    );
}

#[test]
fn vertices_without_a_height_are_coloured_as_flat_lowland() {
    let colors = terrain::terrain_colors(3, &vec![single(3000.0)], &vec![]);
    assert_eq!(colors.len(), 3);
    assert_eq!(colors[1], colors[2]);
    assert!(colors[0] != colors[1]);
    assert_eq!(linear_value(colors[1].green), to_linear(color_at(0.0, 0.0)[1]));
}

#[test]
fn every_colour_is_opaque_and_inside_the_unit_range() {
    for elevation in [-500.0, 0.0, 1234.0, 9000.0, f32::NAN, f32::INFINITY] {
        for slope in [0.0, 0.5, 1.5, f32::NAN] {
            let color = color_at(elevation, slope);
            assert!(
                color.iter().all(|value| value.is_finite()),
                "terrain_color({elevation}, {slope}) = {color:?}"
            );
            assert!(
                (0.0..=1.0).contains(&color[0])
                    && (0.0..=1.0).contains(&color[1])
                    && (0.0..=1.0).contains(&color[2]),
                "terrain_color({elevation}, {slope}) = {color:?} is out of range"
            );
            assert!((color[3] - 1.0).abs() < 1e-6, "the terrain must be opaque");
        }
    }
}

#[test]
fn the_default_budget_matches_the_measured_decode_cost() {
    let config = TerrainRenderConfig::default();
    let frame_budget_us = 1_000_000.0 / 60.0;
    let decode_us = config.load_budget_per_frame as f64 * 10.5;
    assert!(
        decode_us / frame_budget_us < 0.05,
        "the load budget would spend {:.1}% of a 60 Hz frame on decoding",
        decode_us / frame_budget_us * 100.0
    );
    assert_eq!(f(config.screen_space_error), 16.0);
    assert_eq!(config.max_level, 13);
    assert_eq!(f(config.root_geometric_error), 20_000.0);
    assert_eq!(config.cache_bytes, 512 * 1024 * 1024);
}

#[test]
fn tiles_are_tracked_and_untracked() {
    let mut tiles = TerrainTiles::default();
    assert!(tiles.is_empty());
    let id = TileId::new(10, 1, 1);
    tiles.insert(id, 1);
    assert!(tiles.contains(id));
    assert_eq!(tiles.len(), 1);
    assert_eq!(tiles.ids(), vec![id]);
    assert!(tiles.remove(id).is_some());
    assert!(tiles.is_empty());
    assert!(tiles.remove(id).is_none(), "removing twice should be a no-op");
}

#[test]
fn listing_a_tile_again_replaces_its_entity() {
    let mut tiles = TerrainTiles::new();
    let id = TileId::new(4, 2, 3);
    tiles.insert(id, 7);
    tiles.insert(id, 8);
    assert_eq!(tiles.len(), 1);
    assert_eq!(tiles.remove(id), Some(8));
}

/// Tiles around a place, the farther the higher their number.
fn around(first: u32, count: u32) -> Vec<WantedTile> {
    (0..count)
        .map(|i| WantedTile {
            id: TileId::new(10, first + i, 300),
            distance: d(1_000.0 * f64::from(count - i)),
        })
        .collect()
}

/// One frame of the streaming loop; `source` says what comes of each tile.
fn frame(
    wanted: &Vec<WantedTile>,
    budget: usize,
    tiles: &mut TerrainTiles,
    source: &mut dyn FnMut(TileId) -> TileAnswer,
) -> TerrainUpdate {
    let mut pass = terrain::update_terrain_selection(wanted, budget);
    while let Some(id) = pass.next_tile(tiles) {
        let answer = source(id);
        pass.answer(tiles, answer);
    }
    pass.finish(tiles)
}

#[test]
fn the_streaming_budget_is_respected() {
    let wanted = around(0, 50);
    let mut tiles = TerrainTiles::new();
    let budget = 4;
    for round in 0..3 {
        let mut meshed = 0_usize;
        let update = frame(&wanted, budget, &mut tiles, &mut |id| {
            meshed += 1;
            TileAnswer::Loaded { entity: u64::from(id.x) }
        });
        assert!(
            update.loaded <= budget,
            "loaded {} tiles with a budget of {budget}",
            update.loaded
        );
        assert!(meshed <= budget);
        assert_eq!(tiles.len(), 4 * (round + 1));
    }
}

#[test]
fn tiles_that_leave_the_selection_are_despawned() {
    let near = around(0, 20);
    let far = around(1_000, 20);
    let mut tiles = TerrainTiles::new();
    for _ in 0..40 {
        frame(&near, 64, &mut tiles, &mut |id| TileAnswer::Loaded { entity: u64::from(id.x) });
    }
    assert!(!tiles.is_empty(), "nothing was spawned");
    let update =
        frame(&far, 64, &mut tiles, &mut |id| TileAnswer::Loaded { entity: u64::from(id.x) });
    assert!(!update.despawned.is_empty(), "moving to the far side despawned nothing");
    assert_eq!(update.despawned.len(), 20);
    assert!(update.despawned.iter().all(|tile| tile.entity == u64::from(tile.id.x)));
    assert_eq!(tiles.len(), 20);
    assert!(!tiles.contains(TileId::new(10, 0, 300)));
}

#[test]
fn a_missing_tile_does_not_stop_the_others() {
    let wanted = around(0, 21);
    let mut tiles = TerrainTiles::new();
    let mut meshed = 0_usize;
    for _ in 0..20 {
        frame(&wanted, 64, &mut tiles, &mut |id| {
            if id.x % 2 == 0 {
                meshed += 1;
                TileAnswer::Loaded { entity: u64::from(id.x) }
            } else {
                TileAnswer::Missing
            }
        });
    }
    assert!(meshed > 0, "no tile was meshed at all");
    assert_eq!(tiles.len(), 11);
}

#[test]
fn near_tiles_are_asked_for_first() {
    let wanted = around(0, 6);
    let mut tiles = TerrainTiles::new();
    let mut asked = Vec::new();
    let update = frame(&wanted, 2, &mut tiles, &mut |id| {
        asked.push(id.x);
        TileAnswer::Loaded { entity: 1 }
    });
    assert_eq!(asked, vec![5, 4]);
    assert_eq!(update.spawned, vec![TileId::new(10, 5, 300), TileId::new(10, 4, 300)]);
}

#[test]
fn tiles_in_memory_cost_no_budget() {
    let wanted = around(0, 6);
    let mut tiles = TerrainTiles::new();
    let update = frame(&wanted, 1, &mut tiles, &mut |_| TileAnswer::Cached { entity: 1 });
    assert_eq!(update.loaded, 0);
    assert_eq!(update.spawned.len(), 6);
    let mut full = TerrainTiles::new();
    let update = frame(&wanted, 2, &mut full, &mut |_| TileAnswer::NotKept);
    assert_eq!(update.loaded, 2);
    assert!(update.spawned.is_empty() && full.is_empty());
}

#[test]
fn tiles_are_meshed_alike_at_every_level() {
    for level in [0, 10, 13] {
        let options = terrain::mesh_options_for(level);
        assert_eq!(options.resolution, 33);
        assert!(options.skirt_depth.is_none());
    }
    assert_eq!(f(terrain::default_far_plane()), 400_000.0);
}

fn sun_light(azimuth: f64, elevation: f64) -> Vec3 {
    let part = |degrees: f64| {
        let (sin, cos) = f(angle::to_radians(d(degrees))).sin_cos();
        SinCos { sin: d(sin), cos: d(cos) }
    };
    scene::sun_light_direction(part(azimuth), part(elevation))
}

#[test]
fn the_sun_light_points_away_from_the_sun() {
    let direction = sun_light(0.0, 90.0);
    assert!(
        -f32_of(direction.y) > 0.99,
        "an overhead sun should light downward, got {direction:?}"
    );
    let direction = sun_light(90.0, 0.0);
    assert!(
        -f32_of(direction.x) > 0.99,
        "a sun in the east should light westward, got {direction:?}"
    );
}

#[test]
fn the_sun_direction_is_always_a_unit_vector() {
    for elevation in [-89.0, 0.0, 30.0, 89.9] {
        for azimuth in [0.0, 90.0, 180.0, 359.0] {
            let length = f32_of(sun_light(azimuth, elevation).length());
            assert!(
                (length - 1.0).abs() < 1e-5,
                "azimuth {azimuth} elevation {elevation} gave length {length}"
            );
        }
    }
}

/// What the camera's turn makes of a direction.
fn turned(v: [f32; 3]) -> [f32; 3] {
    let q = scene::body_to_camera_rotation();
    let (x, y, z, w) = (f32_of(q.x), f32_of(q.y), f32_of(q.z), f32_of(q.w));
    let t = [
        2.0 * (y * v[2] - z * v[1]),
        2.0 * (z * v[0] - x * v[2]),
        2.0 * (x * v[1] - y * v[0]),
    ];
    [
        v[0] + w * t[0] + y * t[2] - z * t[1],
        v[1] + w * t[1] + z * t[0] - x * t[2],
        v[2] + w * t[2] + x * t[1] - y * t[0],
    ]
}

#[test]
fn the_camera_looks_where_the_aircraft_points() {
    let view = turned([0.0, 0.0, -1.0]);
    assert!(
        view[0] > 0.999,
        "the camera looks along {view:?} in body axes instead of the nose (+X)"
    );
    let up = turned([0.0, 1.0, 0.0]);
    assert!(-up[2] > 0.999, "the camera's up maps to {up:?} instead of the aircraft's up (-Z)");
    let right = turned([1.0, 0.0, 0.0]);
    assert!(
        right[1] > 0.999,
        "the camera's right maps to {right:?} instead of the aircraft's right (+Y)"
    );
}

#[test]
fn the_camera_rotation_is_a_pure_rotation() {
    let q = scene::body_to_camera_rotation();
    let parts = [f32_of(q.x), f32_of(q.y), f32_of(q.z), f32_of(q.w)];
    let length = parts.iter().map(|x| x * x).sum::<f32>().sqrt();
    assert!((length - 1.0).abs() < 1e-6);
    let (a, b, c) = (turned([1.0, 0.0, 0.0]), turned([0.0, 1.0, 0.0]), turned([0.0, 0.0, 1.0]));
    let determinant = a[0] * (b[1] * c[2] - b[2] * c[1]) - b[0] * (a[1] * c[2] - a[2] * c[1])
        + c[0] * (a[1] * b[2] - a[2] * b[1]);
    assert!(determinant > 0.999, "the mapping is a reflection (determinant {determinant})");
}
