use flightsim::binary32::Binary32;
use flightsim::binary64::Binary64;
use flightsim::fdm::aircraft::AircraftConfig;
use flightsim::render::aircraft::{self, AircraftPart};
use flightsim::render::cockpit::{self, CockpitPart};
use flightsim::render::model::{Direction, ModelAxis, ModelFit, ModelFitError, ModelTurn};
use flightsim::vector::{DVec3, Vec3};

fn d(x: f64) -> Binary64 {
    Binary64::from_bits(x.to_bits())
}

fn f(x: Binary64) -> f64 {
    f64::from_bits(x.to_bits())
}

fn single(x: f32) -> Binary32 {
    Binary32::from_bits(x.to_bits())
}

fn f32_of(x: Binary32) -> f32 {
    f32::from_bits(x.to_bits())
}

fn vec3(x: f32, y: f32, z: f32) -> Vec3 {
    Vec3::new(single(x), single(y), single(z))
}

/// glTF's habit: up is Y and forward is minus Z.
fn gltf() -> ModelFit {
    ModelFit::new(ModelAxis::NegativeZ, ModelAxis::PositiveY, d(8.3)).expect("perpendicular axes")
}

fn dot(a: Direction, b: Direction) -> i32 {
    i32::from(a.x) * i32::from(b.x) + i32::from(a.y) * i32::from(b.y)
        + i32::from(a.z) * i32::from(b.z)
}

/// A direction of the model along the body axes.
fn turned(turn: ModelTurn, v: Direction) -> (i32, i32, i32) {
    (dot(turn.forward, v), dot(turn.right, v), dot(turn.down, v))
}

#[test]
fn the_model_nose_ends_up_pointing_forward() {
    let fit = gltf();
    assert_eq!(turned(fit.rotation(), fit.forward.direction()), (1, 0, 0));
}

#[test]
fn the_model_up_ends_up_pointing_up_in_body_axes() {
    let fit = gltf();
    assert_eq!(turned(fit.rotation(), fit.up.direction()), (0, 0, -1));
}

#[test]
fn the_model_right_ends_up_on_the_right() {
    let fit = gltf();
    let right = fit.forward.direction().cross(fit.up.direction());
    assert_eq!(turned(fit.rotation(), right), (0, 1, 0));
}

#[test]
fn the_result_is_a_rotation_not_a_reflection() {
    for (forward, up) in [
        (ModelAxis::NegativeZ, ModelAxis::PositiveY),
        (ModelAxis::PositiveX, ModelAxis::PositiveZ),
        (ModelAxis::PositiveY, ModelAxis::NegativeX),
        (ModelAxis::PositiveZ, ModelAxis::PositiveY),
    ] {
        let turn = ModelFit::new(forward, up, d(8.0)).expect("perpendicular").rotation();
        let determinant = dot(turn.forward, turn.right.cross(turn.down));
        assert_eq!(determinant, 1, "{forward:?}/{up:?} produced a reflection");
        for row in [turn.forward, turn.right, turn.down] {
            assert_eq!(dot(row, row), 1);
        }
    }
}

#[test]
fn a_z_up_model_is_handled_too() {
    let fit = ModelFit::new(ModelAxis::PositiveY, ModelAxis::PositiveZ, d(8.0))
        .expect("perpendicular");
    let turn = fit.rotation();
    assert_eq!(turned(turn, ModelAxis::PositiveY.direction()), (1, 0, 0));
    assert_eq!(turned(turn, ModelAxis::PositiveZ.direction()), (0, 0, -1));
}

#[test]
fn parallel_axes_are_rejected() {
    for (forward, up) in [
        (ModelAxis::PositiveX, ModelAxis::PositiveX),
        (ModelAxis::PositiveX, ModelAxis::NegativeX),
        (ModelAxis::NegativeZ, ModelAxis::PositiveZ),
    ] {
        assert!(
            matches!(ModelFit::new(forward, up, d(8.0)), Err(ModelFitError::DegenerateAxes)),
            "{forward:?}/{up:?} should have been rejected"
        );
    }
}

#[test]
fn the_model_is_scaled_to_the_target_length() {
    let scale = f32_of(gltf().scale_for(vec3(1.0, 0.5, 2.0)));
    assert!(
        (scale - 8.3 / 2.0).abs() < 1e-4,
        "a 2 m model scaled by {scale}; expected {}",
        8.3 / 2.0
    );
}

#[test]
fn a_huge_model_is_scaled_down() {
    let scale = f32_of(gltf().scale_for(vec3(500.0, 200.0, 1_000.0)));
    assert!(scale < 0.01, "a 1 km model scaled by {scale}");
}

#[test]
fn a_degenerate_model_does_not_produce_an_infinite_scale() {
    for extents in [
        vec3(0.0, 0.0, 0.0),
        vec3(1.0, 1.0, 0.0),
        vec3(f32::NAN, 1.0, 1.0),
        vec3(1.0, 1.0, f32::INFINITY),
    ] {
        let scale = f32_of(gltf().scale_for(extents));
        assert!(scale.is_finite() && scale > 0.0, "extents {extents:?} gave scale {scale}");
    }
}

#[test]
fn the_transform_carries_both_rotation_and_scale() {
    let fit = gltf();
    let transform = fit.transform_for(vec3(0.5, 0.25, 1.0));
    assert!((f32_of(transform.scale.x) - 8.3 / 2.0).abs() < 1e-4);
    assert_eq!(transform.scale.x, transform.scale.y);
    assert_eq!(transform.scale.x, transform.scale.z);
    let translation = transform.translation;
    for part in [translation.x, translation.y, translation.z] {
        assert!(f32_of(part).abs() < 1e-6);
    }
    assert_eq!(transform.rotation, fit.rotation());
    let rows = [transform.rotation.forward, transform.rotation.right, transform.rotation.down]
        .map(|row| [f32::from(row.x), f32::from(row.y), f32::from(row.z)]);
    for (i, a) in rows.iter().enumerate() {
        for (j, b) in rows.iter().enumerate() {
            let dot: f32 = (0..3).map(|k| a[k] * b[k]).sum();
            let expected = if i == j { 1.0 } else { 0.0 };
            assert!((dot - expected).abs() < 1e-5);
        }
    }
}

#[test]
fn axes_are_parsed_from_text() {
    let parse = |text: &str| ModelAxis::parse(text).ok();
    assert_eq!(parse("+x"), Some(ModelAxis::PositiveX));
    assert_eq!(parse("X"), Some(ModelAxis::PositiveX));
    assert_eq!(parse(" -z "), Some(ModelAxis::NegativeZ));
    assert!(matches!(ModelAxis::parse("up"), Err(ModelFitError::UnknownAxis(_))));
}

#[test]
fn spaces_and_case_do_not_matter_in_an_axis() {
    assert_eq!(ModelAxis::parse("\t+Y\n").ok(), Some(ModelAxis::PositiveY));
    assert_eq!(ModelAxis::parse("  y").ok(), Some(ModelAxis::PositiveY));
    assert_eq!(ModelAxis::parse("-X ").ok(), Some(ModelAxis::NegativeX));
    assert_eq!(ModelAxis::parse("-y").ok(), Some(ModelAxis::NegativeY));
    assert_eq!(ModelAxis::parse("Z").ok(), Some(ModelAxis::PositiveZ));
    match ModelAxis::parse("  ÄB  ") {
        Err(ModelFitError::UnknownAxis(name)) => assert_eq!(name, "äb"),
        other => panic!("{other:?}"),
    }
}

#[test]
fn the_error_says_what_was_expected() {
    let message = ModelAxis::parse("forward").expect_err("not an axis").message();
    assert!(message.contains("+x"), "{message}");
    assert_eq!(message, "`forward` is not an axis; expected one of +x -x +y -y +z -z");
    assert_eq!(
        ModelFitError::DegenerateAxes.message(),
        "the model's forward and up axes are parallel; they must be perpendicular"
    );
}

fn config() -> AircraftConfig {
    AircraftConfig::light_single()
}

fn find<'a>(parts: &'a [AircraftPart], name: &str) -> &'a AircraftPart {
    parts
        .iter()
        .find(|part| part.name == name)
        .unwrap_or_else(|| panic!("`{name}` is missing"))
}

#[test]
fn the_wing_spans_what_the_configuration_says() {
    let config = config();
    let parts = aircraft::placeholder_parts(&config);
    let span = f64::from(f32_of(find(&parts, "wing").size.y));
    let expected = f(config.geometry.wing_span);
    assert!(
        (span - expected).abs() < 0.01,
        "the wing spans {span} m but the configuration says {expected}"
    );
}

#[test]
fn the_wing_chord_matches_the_configuration() {
    let config = config();
    let parts = aircraft::placeholder_parts(&config);
    let chord = f64::from(f32_of(find(&parts, "wing").size.x));
    assert!((chord - f(config.geometry.mean_chord)).abs() < 0.01);
}

#[test]
fn changing_the_aircraft_changes_the_model() {
    let mut wide = config();
    wide.geometry.wing_span = d(20.0);
    let (_, narrow_width, _) = aircraft::placeholder_extents(&config());
    let (_, wide_width, _) = aircraft::placeholder_extents(&wide);
    assert!(
        f(wide_width) > f(narrow_width) + 8.0,
        "doubling the span barely changed the model ({narrow_width:?} → {wide_width:?})"
    );
}

#[test]
fn the_propeller_sits_ahead_of_everything_else() {
    let parts = aircraft::placeholder_parts(&config());
    let propeller = f32_of(find(&parts, "propeller disc").place.x);
    for part in &parts {
        if part.name == "propeller disc" {
            continue;
        }
        let place = f32_of(part.place.x);
        assert!(
            propeller > place,
            "the propeller ({propeller}) is not ahead of `{}` ({place})",
            part.name
        );
    }
}

#[test]
fn the_tail_sits_behind_the_wing() {
    let parts = aircraft::placeholder_parts(&config());
    let x = |name: &str| f32_of(find(&parts, name).place.x);
    assert!(x("horizontal stabiliser") < x("wing"));
    assert!(x("vertical stabiliser") < x("wing"));
}

#[test]
fn the_fin_points_up_in_body_axes() {
    let parts = aircraft::placeholder_parts(&config());
    let z = f32_of(find(&parts, "vertical stabiliser").place.z);
    assert!(z < 0.0, "the fin sits at z = {z} in body axes; positive z is downward");
}

#[test]
fn the_wing_is_wider_than_it_is_long() {
    let parts = aircraft::placeholder_parts(&config());
    let wing = find(&parts, "wing");
    let (length, width) = (f32_of(wing.size.x), f32_of(wing.size.y));
    assert!(
        width > length * 3.0,
        "the wing is {length} long and {width} wide; the axes are probably swapped"
    );
}

#[test]
fn the_model_is_the_size_of_a_light_aircraft() {
    let (length, width, height) = aircraft::placeholder_extents(&config());
    assert!((7.0..12.0).contains(&f(length)), "the aircraft is {} long", f(length));
    assert!((10.0..13.0).contains(&f(width)), "the aircraft is {} wide", f(width));
    assert!((2.0..5.0).contains(&f(height)), "the aircraft is {} tall", f(height));
}

#[test]
fn the_model_fits_around_the_landing_gear() {
    let config = config();
    let (length, width, _) = aircraft::placeholder_extents(&config);
    let mut widest = 0.0_f64;
    let mut longest = 0.0_f64;
    for leg in config.landing_gear.legs() {
        widest = widest.max(f(leg.contact_point().as_vec().y).abs());
        longest = longest.max(f(leg.contact_point().as_vec().x).abs());
    }
    assert!(
        f(width) > widest * 2.0,
        "the gear is {} m wide but the model is only {}",
        widest * 2.0,
        f(width)
    );
    assert!(f(length) > longest * 2.0);
}

#[test]
fn every_part_has_geometry_and_a_finite_transform() {
    for part in aircraft::placeholder_parts(&config()) {
        for size in [part.size.x, part.size.y, part.size.z] {
            assert!(f32_of(size) > 0.0, "`{}` has no geometry", part.name);
        }
        assert!(part.place.is_finite(), "`{}` sits at {:?}", part.name, part.place);
    }
}

/// Where the pilot's eye is unless it is moved.
fn eye() -> [f64; 3] {
    [0.6, -f(cockpit::pilot_seat_offset()), -0.9]
}

fn interior(eye: [f64; 3]) -> Vec<CockpitPart> {
    cockpit::interior_parts(DVec3::new(d(eye[0]), d(eye[1]), d(eye[2])))
}

/// Where a part is.
fn part(parts: &[CockpitPart], name: &str) -> [f64; 3] {
    let place = parts
        .iter()
        .find(|part| part.name == name)
        .unwrap_or_else(|| panic!("no part named {name}"))
        .place;
    [f64::from(f32_of(place.x)), f64::from(f32_of(place.y)), f64::from(f32_of(place.z))]
}

#[test]
fn the_cabin_matches_the_published_dimensions() {
    assert!((f(cockpit::cabin_width()) - 1.016).abs() < 1e-9);
    assert!((f(cockpit::cabin_height()) - 1.2192).abs() < 1e-9);
}

#[test]
fn the_instruments_are_the_standard_three_and_an_eighth_inch() {
    assert!((f(cockpit::instrument_diameter()) - 0.079_375).abs() < 1e-9);
}

#[test]
fn the_panel_sits_in_front_of_the_pilot_not_behind() {
    let panel = part(&interior(eye()), "instrument panel");
    assert!(panel[0] > eye()[0], "the panel must be ahead of the eye");
}

#[test]
fn the_panel_top_is_just_below_the_eye_line() {
    let panel = part(&interior(eye()), "instrument panel");
    let panel_top = panel[2] - f(cockpit::panel_height()) * 0.5;
    let eye_z = eye()[2];
    assert!(panel_top > eye_z, "the panel top {panel_top} must be below the eye {eye_z}");
    assert!(
        panel_top - eye_z < 0.2,
        "but not so far below that the instruments are out of view"
    );
}

#[test]
fn the_floor_is_below_the_eye_and_the_roof_above() {
    let parts = interior(eye());
    assert!(part(&parts, "floor")[2] > eye()[2]);
    assert!(part(&parts, "roof")[2] < eye()[2]);
}

#[test]
fn the_walls_are_a_cabin_width_apart() {
    let parts = interior(eye());
    let left = part(&parts, "left wall")[1];
    let right = part(&parts, "right wall")[1];
    assert!((right - left - f(cockpit::cabin_width())).abs() < 1e-6, "{left} to {right}");
}

#[test]
fn the_pilot_sits_on_the_left() {
    let parts = interior(eye());
    assert!(part(&parts, "control yoke")[1] < 0.0);
    assert!(part(&parts, "pilot seat back")[1] < 0.0);
    assert!(part(&parts, "copilot seat back")[1] > 0.0);
}

#[test]
fn the_yoke_is_between_the_pilot_and_the_panel() {
    let parts = interior(eye());
    let yoke = part(&parts, "control yoke")[0];
    let panel = part(&parts, "instrument panel")[0];
    assert!(yoke < panel, "the yoke {yoke} must be nearer than the panel {panel}");
    assert!(yoke > eye()[0], "but still ahead of the eye");
}

#[test]
fn the_glareshield_hangs_over_the_panel() {
    let parts = interior(eye());
    let shield = part(&parts, "glareshield")[0];
    let panel = part(&parts, "instrument panel")[0];
    assert!(shield < panel, "{shield} against {panel}");
}

#[test]
fn the_six_pack_is_laid_out_the_way_the_real_one_is() {
    let parts = interior(eye());
    let asi = part(&parts, "bezel airspeed");
    let att = part(&parts, "bezel attitude");
    let alt = part(&parts, "bezel altimeter");
    let turn = part(&parts, "bezel turn");
    let hdg = part(&parts, "bezel heading");
    let vsi = part(&parts, "bezel vertical speed");
    assert!((asi[2] - att[2]).abs() < 1e-5 && (att[2] - alt[2]).abs() < 1e-5);
    assert!((turn[2] - hdg[2]).abs() < 1e-5 && (hdg[2] - vsi[2]).abs() < 1e-5);
    assert!(asi[2] < turn[2], "the top row must sit above the bottom row");
    assert!(asi[1] < att[1] && att[1] < alt[1]);
    assert!(turn[1] < hdg[1] && hdg[1] < vsi[1]);
    assert!((att[1] - hdg[1]).abs() < 1e-5);
}

#[test]
fn the_six_pack_is_in_front_of_the_pilot_not_the_middle_of_the_cabin() {
    let attitude = part(&interior(eye()), "bezel attitude")[1];
    assert!(
        (attitude - eye()[1]).abs() < 1e-6,
        "the attitude indicator should be dead ahead of the eye, got {attitude}"
    );
}

#[test]
fn the_six_pack_fits_inside_the_panel() {
    let parts = interior(eye());
    let panel = part(&parts, "instrument panel");
    let half_width = f(cockpit::cabin_width()) * 0.5;
    let panel_top = panel[2] - f(cockpit::panel_height()) * 0.5;
    let panel_bottom = panel[2] + f(cockpit::panel_height()) * 0.5;
    let radius = f(cockpit::instrument_diameter()) * 0.5;
    for bezel in parts.iter().filter(|part| part.name.starts_with("bezel")) {
        let place = part(&parts, bezel.name);
        assert!(
            place[1] - radius > -half_width && place[1] + radius < half_width,
            "{} runs off the side of the panel at y {}",
            bezel.name,
            place[1]
        );
        assert!(
            place[2] - radius > panel_top && place[2] + radius < panel_bottom,
            "{} runs off the top or bottom of the panel at z {}",
            bezel.name,
            place[2]
        );
    }
}

#[test]
fn nothing_is_built_behind_the_pilots_head() {
    let eye_x = eye()[0];
    for part in interior(eye()) {
        let x = f64::from(f32_of(part.place.x));
        assert!(x > eye_x - 0.6, "{} sits {x} m, far behind the eye at {eye_x}", part.name);
    }
}

#[test]
fn every_part_is_named_and_finite() {
    let parts = interior(eye());
    assert!(parts.len() >= 15, "got only {} parts", parts.len());
    for part in &parts {
        assert!(!part.name.is_empty());
        assert!(part.place.is_finite(), "{} has a broken place", part.name);
    }
}

#[test]
fn moving_the_eye_moves_the_whole_interior_with_it() {
    let moved = [1.2, -f(cockpit::pilot_seat_offset()), -1.4];
    let panel_base = part(&interior(eye()), "instrument panel");
    let panel_shifted = part(&interior(moved), "instrument panel");
    assert!((panel_shifted[0] - panel_base[0] - 0.6).abs() < 1e-5);
    assert!((panel_shifted[2] - panel_base[2] + 0.5).abs() < 1e-5);
}

#[test]
fn every_white_space_is_trimmed_and_nothing_else() {
    let white = "\t\n\u{b}\u{c}\r \u{85}\u{a0}\u{1680}\u{2000}\u{2001}\u{2002}\u{2003}\u{2004}\u{2005}\
        \u{2006}\u{2007}\u{2008}\u{2009}\u{200a}\u{2028}\u{2029}\u{202f}\u{205f}\u{3000}";
    assert_eq!(white.chars().count(), 25);
    for space in white.chars() {
        let text = format!("{space}{space}-Z{space}");
        assert_eq!(ModelAxis::parse(&text).ok(), Some(ModelAxis::NegativeZ), "{space:?}");
    }
    for other in ['\u{180e}', '\u{200b}', '\u{2060}', '\u{feff}', '\u{0}', '_'] {
        let text = format!("{other}-Z");
        assert!(
            matches!(ModelAxis::parse(&text), Err(ModelFitError::UnknownAxis(_))),
            "{other:?}"
        );
    }
    assert_eq!(
        ModelAxis::parse(" a b "),
        Err(ModelFitError::UnknownAxis(String::from("a b")))
    );
}
