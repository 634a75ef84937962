use flightsim::angle;
use flightsim::binary32::Binary32;
use flightsim::binary64::Binary64;
use flightsim::geodetic::Geodetic;
use flightsim::render::daylight::{AmbientLight, SunLighting, TimeOfDay};
use flightsim::render::sun::UtcDateTime;
use flightsim::render::surface::Rgb;
use flightsim::render::weather::{
    self, CloudDeckSurface, CloudDecks, CloudLayer, CloudLayerError, CloudSync, DeckPair,
    UvTransform,
};

fn d(x: f64) -> Binary64 {
    Binary64::from_bits(x.to_bits())
}

fn f(x: Binary64) -> f64 {
    f64::from_bits(x.to_bits())
}

fn single(x: f32) -> Binary32 {
    Binary32::from_bits(x.to_bits())
}

fn f32_of(x: Binary32) -> f32 {
    f32::from_bits(x.to_bits())
}

fn try_layer(
    cover: f32,
    base: f64,
    top: f64,
    visibility: f64,
    seed: u64,
) -> Result<CloudLayer, CloudLayerError> {
    CloudLayer::try_new(single(cover), d(base), d(top), d(visibility), seed)
}

fn layer(cover: f32) -> CloudLayer {
    try_layer(cover, 1_000.0, 2_000.0, 300.0, 1).expect("valid cloud layer")
}

fn noon() -> TimeOfDay {
    TimeOfDay::new(UtcDateTime::new(2026, 6, 21, 3, 0, d(0.0)).to_julian_date())
}

fn place(latitude: f64, longitude: f64, altitude: f64) -> Geodetic {
    Geodetic {
        latitude: angle::to_radians(d(latitude)),
        longitude: angle::to_radians(d(longitude)),
        altitude: d(altitude),
    }
}

fn mask(seed: u64, u: f64, v: f64, cover: f32) -> f32 {
    f32_of(weather::cloud_mask(seed, d(u), d(v), single(cover)))
}

fn vertical(altitude: f64, base: f64, top: f64) -> f32 {
    f32_of(weather::vertical_cloud_density(d(altitude), d(base), d(top)))
}

fn linear(channel: Binary32) -> Binary32 {
    let c = f32_of(channel);
    single(if c <= 0.04045 { c / 12.92 } else { ((c + 0.055) / 1.055).powf(2.4) })
}

fn ambient(lighting: &SunLighting, degrees: f64) -> AmbientLight {
    let elevation = angle::to_radians(d(degrees));
    let tint = lighting.night_tint;
    let night = Rgb { red: linear(tint.red), green: linear(tint.green), blue: linear(tint.blue) };
    lighting.ambient(elevation, d(f(elevation).sin()), night)
}

#[test]
fn the_default_is_clear_but_keeps_useful_layer_defaults() {
    let default = CloudLayer::default();
    assert!(default.is_clear());
    assert_eq!(default.base, d(1_000.0));
    assert_eq!(default.top, d(2_000.0));
    assert_eq!(default.visibility, d(300.0));
    assert_eq!(default.seed, 1);
    assert!(default.validate().is_ok());
}

#[test]
fn cover_accepts_both_boundaries() {
    assert!(layer(0.0).validate().is_ok());
    assert!(layer(1.0).validate().is_ok());
}

#[test]
fn broken_layer_values_are_rejected() {
    for cover in [-0.001, 1.001, f32::NAN, f32::INFINITY] {
        assert!(
            try_layer(cover, 1_000.0, 2_000.0, 300.0, 1).is_err(),
            "cover {cover} was accepted"
        );
    }
    assert!(try_layer(0.5, -1.0, 2_000.0, 300.0, 1).is_err());
    assert!(try_layer(0.5, 1_000.0, 1_000.0, 300.0, 1).is_err());
    assert!(try_layer(0.5, 1_000.0, 2_000.0, 0.0, 1).is_err());
}

#[test]
fn every_flaw_of_a_layer_has_its_own_error() {
    let cases = [
        (f32::NAN, 1.0, 2.0, 3.0, CloudLayerError::NonFiniteCover, "cloud cover must be finite"),
        (
            1.5,
            1.0,
            2.0,
            3.0,
            CloudLayerError::CoverOutOfRange(single(1.5)),
            "cloud cover must be between 0 and 1, got 1.5",
        ),
        (0.5, f64::NAN, 2.0, 3.0, CloudLayerError::NonFiniteBase, "cloud base must be finite"),
        (
            0.5,
            -1.0,
            2.0,
            3.0,
            CloudLayerError::NegativeBase(d(-1.0)),
            "cloud base must not be negative, got -1",
        ),
        (0.5, 1.0, f64::INFINITY, 3.0, CloudLayerError::NonFiniteTop, "cloud top must be finite"),
        (
            0.5,
            1.0,
            1.0,
            3.0,
            CloudLayerError::TopNotAboveBase { base: d(1.0), top: d(1.0) },
            "cloud top 1 must be above cloud base 1",
        ),
        (
            0.5,
            1.0,
            2.0,
            f64::NAN,
            CloudLayerError::NonFiniteVisibility,
            "cloud visibility must be finite",
        ),
        (
            0.5,
            1.0,
            2.0,
            0.0,
            CloudLayerError::NonPositiveVisibility(d(0.0)),
            "cloud visibility must be positive, got 0",
        ),
    ];
    for (cover, base, top, visibility, error, message) in cases {
        let got = try_layer(cover, base, top, visibility, 1).expect_err("a flawed layer");
        assert_eq!(got, error);
        let (shown, top) = match got {
            CloudLayerError::CoverOutOfRange(value) => (f32_of(value).to_string(), String::new()),
            CloudLayerError::NegativeBase(value) | CloudLayerError::NonPositiveVisibility(value) => {
                (f(value).to_string(), String::new())
            }
            CloudLayerError::TopNotAboveBase { base, top } => {
                (f(base).to_string(), f(top).to_string())
            }
            _ => (String::new(), String::new()),
        };
        assert_eq!(got.message(&shown, &top), message);
    }
}

#[test]
fn the_mask_is_deterministic_and_periodic() {
    let a = mask(42, 0.314, -0.271, 0.55);
    let b = mask(42, 0.314, -0.271, 0.55);
    assert_eq!(a.to_bits(), b.to_bits());
    assert_eq!(a.to_bits(), mask(42, 1.314, -2.271, 0.55).to_bits());
}

#[test]
fn cover_boundaries_mean_clear_and_overcast_everywhere() {
    for (u, v) in [(0.0, 0.0), (0.25, 0.75), (-10.2, 31.7)] {
        assert_eq!(mask(1, u, v, 0.0).to_bits(), 0.0_f32.to_bits());
        assert_eq!(mask(1, u, v, 1.0).to_bits(), 1.0_f32.to_bits());
    }
}

#[test]
fn increasing_cover_never_clears_a_point() {
    for y in 0..32 {
        for x in 0..32 {
            let u = f64::from(x) / 32.0;
            let v = f64::from(y) / 32.0;
            let mut previous = 0.0;
            for cover in [0.0, 0.2, 0.5, 0.8, 1.0] {
                let current = mask(7, u, v, cover);
                assert!(current >= previous, "mask fell at {u}, {v}");
                previous = current;
            }
        }
    }
}

fn apply(transform: UvTransform, u: f32, v: f32) -> (f32, f32) {
    (
        f32_of(transform.scale_u) * u + f32_of(transform.shift_u),
        f32_of(transform.scale_v) * v + f32_of(transform.shift_v),
    )
}

#[test]
fn cloud_uv_uses_render_frames_negative_z_as_north() {
    let repeats = f32_of(weather::cloud_texture_repeats());
    let transform = weather::cloud_uv_transform(d(0.25), d(0.75));
    let centre = apply(transform, 0.5, 0.5);
    let one_pattern = 1.0 / repeats;
    let east = apply(transform, 0.5 + one_pattern, 0.5);
    let north = apply(transform, 0.5, 0.5 - one_pattern);
    let near = |a: (f32, f32), b: (f32, f32)| (a.0 - b.0).hypot(a.1 - b.1) < 1e-5;
    assert!(near(centre, (0.25, 0.75)));
    assert!(near((east.0 - centre.0, east.1 - centre.1), (1.0, 0.0)));
    assert!(near((north.0 - centre.0, north.1 - centre.1), (0.0, 1.0)));
}

#[test]
fn vertical_density_fades_at_both_boundaries() {
    let (base, top) = (1_000.0, 2_000.0);
    assert_eq!(vertical(999.0, base, top).to_bits(), 0.0_f32.to_bits());
    assert_eq!(vertical(base, base, top).to_bits(), 0.0_f32.to_bits());
    assert_eq!(vertical(top, base, top).to_bits(), 0.0_f32.to_bits());
    assert_eq!(vertical(2_001.0, base, top).to_bits(), 0.0_f32.to_bits());
    assert!(vertical(1_050.0, base, top) > 0.0);
    assert!((vertical(1_500.0, base, top) - 1.0).abs() < 1e-6);
}

#[test]
fn density_uses_only_layer_time_and_position() {
    let layer = layer(0.65);
    let position = place(35.0, 139.0, 1_500.0);
    let a = f32_of(weather::cloud_density_at(layer, noon(), position));
    let b = f32_of(weather::cloud_density_at(layer, noon(), position));
    assert_eq!(a.to_bits(), b.to_bits());
    assert!(a.is_finite() && (0.0..=1.0).contains(&a));
}

#[test]
fn koschmieder_visibility_reaches_five_percent_contrast() {
    let visibility = 300.0;
    let beta = f32_of(weather::fog_extinction(d(visibility)));
    let contrast = (-f64::from(beta) * visibility).exp();
    assert!((contrast - 0.05).abs() < 1e-6, "300 m retained contrast {contrast}");
}

#[test]
fn fog_is_transparent_outside_cloud_and_dark_at_night() {
    let lighting = SunLighting::default();
    let noon = ambient(&lighting, 45.0);
    let midnight = ambient(&lighting, -30.0);
    let clear = weather::cloud_distance_fog(layer(0.5), single(0.0), lighting, noon);
    assert_eq!(f32_of(clear.color.alpha).to_bits(), 0.0_f32.to_bits());
    let day = weather::cloud_distance_fog(layer(0.5), single(1.0), lighting, noon).color;
    let night = weather::cloud_distance_fog(layer(0.5), single(1.0), lighting, midnight).color;
    assert_eq!(f32_of(day.alpha).to_bits(), 1.0_f32.to_bits());
    assert_eq!(f32_of(night.alpha).to_bits(), 1.0_f32.to_bits());
    assert!(f32_of(night.red) < f32_of(day.red) * 0.1, "night fog glowed: {night:?}");
    assert!(f32_of(night.blue) < f32_of(day.blue) * 0.1, "night fog glowed: {night:?}");
}

#[test]
fn non_finite_inputs_do_not_escape_as_density() {
    assert_eq!(mask(1, f64::NAN, 0.0, 0.5).to_bits(), 0.0_f32.to_bits());
    assert_eq!(mask(1, f64::MAX, f64::MAX, 0.5).to_bits(), 0.0_f32.to_bits());
    assert_eq!(f32_of(weather::fog_extinction(d(f64::NAN))).to_bits(), 0.0_f32.to_bits());
    assert_eq!(vertical(f64::INFINITY, 0.0, 1.0).to_bits(), 0.0_f32.to_bits());
}

#[test]
fn fog_follows_the_camera_altitude_not_the_aircraft_resource() {
    let overcast = try_layer(1.0, 1_000.0, 2_000.0, 300.0, 7).expect("test cloud layer is valid");
    let lighting = SunLighting::default();
    let alpha = |altitude: f64| {
        let camera = weather::camera_geodetic(place(35.6895, 139.6917, altitude))
            .expect("the camera is somewhere");
        let density = weather::cloud_density_at(overcast, noon(), camera);
        let fog = weather::cloud_distance_fog(overcast, density, lighting, ambient(&lighting, 45.0));
        f32_of(fog.color.alpha)
    };
    assert!(alpha(1_500.0) > 0.99, "a camera in overcast should get full fog");
    assert_eq!(
        alpha(500.0).to_bits(),
        0.0_f32.to_bits(),
        "a camera below the cloud should have no cloud fog"
    );
}

#[test]
fn a_camera_that_is_nowhere_has_no_fog() {
    assert!(weather::camera_geodetic(place(f64::NAN, 0.0, 0.0)).is_none());
    assert!(weather::camera_geodetic(place(0.0, 0.0, f64::INFINITY)).is_none());
}

#[test]
fn decks_hang_at_the_limits_of_the_layer() {
    let camera = place(35.0, 139.0, 10.0);
    assert_eq!(CloudDeckSurface::Base.centre(layer(0.5), camera), place(35.0, 139.0, 1_000.0));
    assert_eq!(CloudDeckSurface::Top.centre(layer(0.5), camera), place(35.0, 139.0, 2_000.0));
    assert_eq!(CloudDeckSurface::Base.name(), "cloud base");
    assert_eq!(CloudDeckSurface::Top.name(), "cloud top");
}

#[test]
fn clouds_are_rebuilt_only_when_they_have_to_be() {
    assert_eq!(weather::sync_cloud_visuals(layer(0.5), true, false, true), CloudSync::Keep);
    assert_eq!(weather::sync_cloud_visuals(layer(0.5), false, false, true), CloudSync::Rebuild);
    assert_eq!(weather::sync_cloud_visuals(layer(0.5), true, true, true), CloudSync::Rebuild);
    assert_eq!(weather::sync_cloud_visuals(layer(0.0), true, true, true), CloudSync::Clear);
    assert_eq!(
        weather::sync_cloud_visuals(layer(0.5), false, true, false),
        CloudSync::Wait { settled: false }
    );
    assert_eq!(
        weather::sync_cloud_visuals(layer(0.0), false, true, false),
        CloudSync::Wait { settled: true }
    );
}

#[test]
fn a_pixel_is_as_opaque_as_the_clouds_are_dense() {
    assert_eq!(weather::pixel_alpha(layer(0.0), 17, 200), 0);
    assert_eq!(weather::pixel_alpha(layer(1.0), 17, 200), 255);
    for (x, y) in [(0_u32, 0_u32), (64, 192), (255, 255)] {
        let dense = mask(1, f64::from(x) / 256.0, f64::from(y) / 256.0, 0.5);
        assert_eq!(weather::pixel_alpha(layer(0.5), x, y), (dense * 255.0).round() as u8);
    }
}

#[test]
fn the_pattern_is_a_thousandth_of_the_way_round_the_earth() {
    let metres = f(weather::cloud_pattern_metres());
    assert_eq!(metres, std::f64::consts::TAU * 6_371_000.0 / 1024.0);
}

#[test]
fn the_pattern_drifts_with_the_wind() {
    let mut later = noon();
    later.advance(d(600.0));
    let here = place(0.0, 0.0, 1_500.0);
    let (u, v) = weather::cloud_field_coordinates(noon(), here).expect("finite");
    let (later_u, later_v) = weather::cloud_field_coordinates(later, here).expect("finite");
    assert!((later_u.to_bits(), later_v.to_bits()) != (u.to_bits(), v.to_bits()));
    assert!(weather::cloud_field_coordinates(noon(), place(f64::NAN, 0.0, 0.0)).is_none());
}

#[test]
fn the_mask_repeats_after_one() {
    for (u, v) in [(0.0, 0.25), (0.3125, 0.8125), (-0.375, 0.5), (-0.0, 0.0), (17.625, -3.5)] {
        let here = mask(7, u, v, 0.5).to_bits();
        assert_eq!(mask(7, u + 1.0, v, 0.5).to_bits(), here);
        assert_eq!(mask(7, u, v - 1.0, 0.5).to_bits(), here);
        assert_eq!(mask(7, u - 40.0, v + 9.0, 0.5).to_bits(), here);
    }
    assert_ne!(mask(7, 0.3125, 0.8125, 0.5), mask(7, 0.8125, 0.3125, 0.5));
}

#[test]
fn a_slightly_greater_cover_takes_no_cloud_away() {
    for i in 0..64 {
        let (u, v) = (f64::from(i) / 64.0, f64::from(i * 37 % 64) / 64.0);
        let mut previous = 0.0;
        for step in 0..200_u16 {
            let current = mask(7, u, v, f32::from(step) / 199.0);
            assert!(current >= previous - 74.0 / 16_777_216.0, "mask fell at {u}, {v}");
            previous = current;
        }
        assert_eq!(previous, 1.0);
    }
}

#[test]
fn a_change_of_weather_leaves_two_decks_or_none() {
    let pair = DeckPair { base: 3, top: 4 };
    let plan = weather::deck_plan();
    assert_eq!((plan.first, plan.second), (CloudDeckSurface::Base, CloudDeckSurface::Top));
    assert!(plan.material.lit && plan.material.double_sided);
    assert_eq!(f32_of(plan.material.cutoff), 0.5);
    assert_eq!(f32_of(plan.material.base_color.green), 0.94);
    let mut decks = CloudDecks::new();
    let waiting = decks.plan(layer(0.5), true, false);
    assert!(waiting.make.is_none() && waiting.remove.is_none() && !decks.initialised);
    let first = decks.plan(layer(0.5), false, true);
    assert!(first.make.is_some() && first.remove.is_none());
    decks.record(pair);
    let settled = decks;
    let idle = decks.plan(layer(0.5), false, true);
    assert!(idle.make.is_none() && idle.remove.is_none());
    assert_eq!(decks, settled);
    let changed = decks.plan(layer(0.8), true, true);
    assert_eq!(changed.make, Some(weather::deck_plan()));
    assert_eq!(changed.remove, Some(pair));
    assert_eq!(decks.decks, None);
    decks.record(DeckPair { base: 5, top: 6 });
    let cleared = decks.plan(layer(0.0), true, true);
    assert!(cleared.make.is_none());
    assert_eq!(cleared.remove, Some(DeckPair { base: 5, top: 6 }));
    assert_eq!(decks.decks, None);
    let mut clear = CloudDecks::new();
    let nothing = clear.plan(layer(0.0), true, false);
    assert!(nothing.make.is_none() && nothing.remove.is_none() && clear.initialised);
}

#[test]
fn the_mask_repeats_until_numbers_leave_no_room() {
    let far = 2.0_f64.powi(1_018);
    assert_eq!(mask(7, far, 0.25, 0.5).to_bits(), mask(7, 0.0, 0.25, 0.5).to_bits());
    let further = 2.0_f64.powi(1_023);
    assert_eq!(mask(7, further, 0.25, 0.5), 0.0);
    assert_eq!(mask(7, further, 0.25, 0.5), mask(7, further, 0.75, 0.5));
}
