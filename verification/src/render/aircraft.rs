//! A stand-in for the aircraft made of boxes.
//!
//! It takes its wing from the configuration, so what is seen and what flies
//! agree. Boxes are laid out along the body axes forward, right and down.
use crate::binary32::Binary32;
use crate::binary64::Binary64;
use crate::fdm::aircraft::{AircraftConfig, Geometry};
use crate::render::surface::Rgb;
use crate::vector::{DVec3, Vec3};
use vstd::prelude::*;

verus! {

/// A box of the aircraft: its size and its middle along the body axes.
#[derive(Clone, Copy, Debug)]
pub struct AircraftPart {
    pub name: &'static str,
    pub size: Vec3,
    pub place: Vec3,
    pub color: Rgb,
}

/// A part with its name spelt out.
pub struct AircraftPartView {
    pub name: Seq<char>,
    pub size: Vec3,
    pub place: Vec3,
    pub color: Rgb,
}

impl View for AircraftPart {
    type V = AircraftPartView;

    open spec fn view(&self) -> AircraftPartView {
        AircraftPartView {
            name: self.name@,
            size: self.size,
            place: self.place,
            color: self.color,
        }
    }
}

/// The lengths that the boxes are made of, in metres.
#[derive(Clone, Copy, PartialEq, Eq, Debug, Structural)]
pub struct Frame {
    pub length: Binary64,
    pub width: Binary64,
    pub height: Binary64,
    pub thickness: Binary64,
    /// From the centre of gravity to the nose.
    pub nose: Binary64,
    /// From the centre of gravity to the tail.
    pub tail: Binary64,
}

pub open spec fn spec_airframe() -> Frame {
    let length = Binary64::ratio(83, 10);
    let nose = length * Binary64::ratio(38, 100);
    Frame {
        length,
        width: Binary64::ratio(12, 10),
        height: Binary64::ratio(14, 10),
        thickness: Binary64::ratio(18, 100),
        nose,
        tail: length - nose,
    }
}

/// What is not in the configuration because it does not change how it flies.
#[verifier::when_used_as_spec(spec_airframe)]
pub fn airframe() -> (r: Frame)
    ensures
        r == airframe(),
{
    let length = Binary64::ratio(83, 10);
    let nose = length * Binary64::ratio(38, 100);
    Frame {
        length,
        width: Binary64::ratio(12, 10),
        height: Binary64::ratio(14, 10),
        thickness: Binary64::ratio(18, 100),
        nose,
        tail: length - nose,
    }
}

pub open spec fn narrow(v: DVec3) -> Vec3 {
    Vec3 { x: v.x.to_binary32(), y: v.y.to_binary32(), z: v.z.to_binary32() }
}

fn to_single(v: DVec3) -> (r: Vec3)
    ensures
        r == narrow(v),
{
    Vec3 { x: v.x.to_binary32(), y: v.y.to_binary32(), z: v.z.to_binary32() }
}

fn part(name: &'static str, size: DVec3, place: DVec3, color: Rgb) -> (r: AircraftPart)
    ensures
        r@ == (AircraftPartView { name: name@, size: narrow(size), place: narrow(place), color }),
{
    AircraftPart { name, size: to_single(size), place: to_single(place), color }
}

/// The colour of the body.
pub open spec fn body_color() -> Rgb {
    Rgb::thousandths(880, 880, 900)
}

/// The colour of fin and propeller.
pub open spec fn accent_color() -> Rgb {
    Rgb::thousandths(200, 350, 650)
}

/// The boxes: fuselage, wing, stabilisers and propeller disc.
pub open spec fn parts_spec(geometry: Geometry) -> Seq<AircraftPartView> {
    let f = airframe();
    let zero = Binary64::of(0);
    let tail_chord = geometry.mean_chord * Binary64::ratio(7, 10);
    let fin_height = f.height * Binary64::ratio(11, 10);
    let thin = f.thickness * Binary64::ratio(8, 10);
    seq![
        AircraftPartView {
            name: "fuselage"@,
            size: narrow(DVec3 { x: f.length, y: f.width, z: f.height }),
            place: narrow(
                DVec3 { x: (f.nose - f.tail) * Binary64::ratio(5, 10), y: zero, z: zero },
            ),
            color: body_color(),
        },
        AircraftPartView {
            name: "wing"@,
            size: narrow(
                DVec3 { x: geometry.mean_chord, y: geometry.wing_span, z: f.thickness },
            ),
            place: narrow(
                DVec3 {
                    x: Binary64::ratio(1, 10).negate(),
                    y: zero,
                    z: f.height.negate() * Binary64::ratio(45, 100),
                },
            ),
            color: body_color(),
        },
        AircraftPartView {
            name: "horizontal stabiliser"@,
            size: narrow(
                DVec3 { x: tail_chord, y: geometry.wing_span * Binary64::ratio(35, 100), z: thin },
            ),
            place: narrow(
                DVec3 {
                    x: f.tail.negate() * Binary64::ratio(86, 100),
                    y: zero,
                    z: f.height.negate() * Binary64::ratio(2, 10),
                },
            ),
            color: body_color(),
        },
        AircraftPartView {
            name: "vertical stabiliser"@,
            size: narrow(
                DVec3 { x: tail_chord * Binary64::ratio(12, 10), y: thin, z: fin_height },
            ),
            place: narrow(
                DVec3 {
                    x: f.tail.negate() * Binary64::ratio(82, 100),
                    y: zero,
                    z: f.height.negate() * Binary64::ratio(35, 100) - fin_height
                        * Binary64::ratio(5, 10),
                },
            ),
            color: accent_color(),
        },
        AircraftPartView {
            name: "propeller disc"@,
            size: narrow(
                DVec3 {
                    x: Binary64::ratio(8, 100),
                    y: f.thickness,
                    z: f.height * Binary64::ratio(13, 10),
                },
            ),
            place: narrow(DVec3 { x: f.nose, y: zero, z: zero }),
            color: accent_color(),
        },
    ]
}

/// The parts with their names spelt out.
pub open spec fn part_views(parts: Seq<AircraftPart>) -> Seq<AircraftPartView> {
    parts.map_values(|part: AircraftPart| part@)
}

/// The boxes that stand in for the aircraft.
pub fn placeholder_parts(config: &AircraftConfig) -> (r: Vec<AircraftPart>)
    ensures
        part_views(r@) == parts_spec(config.geometry),
{
    let span = config.geometry.wing_span;
    let chord = config.geometry.mean_chord;
    let f = airframe();
    let zero = Binary64::of(0);
    let tail_span = span * Binary64::ratio(35, 100);
    let tail_chord = chord * Binary64::ratio(7, 10);
    let fin_height = f.height * Binary64::ratio(11, 10);
    let thin = f.thickness * Binary64::ratio(8, 10);
    let body = Rgb::thousandths(880, 880, 900);
    let accent = Rgb::thousandths(200, 350, 650);
    let mut parts: Vec<AircraftPart> = Vec::new();
    parts.push(
        part(
            "fuselage",
            DVec3 { x: f.length, y: f.width, z: f.height },
            DVec3 { x: (f.nose - f.tail) * Binary64::ratio(5, 10), y: zero, z: zero },
            body,
        ),
    );
    parts.push(
        part(
            "wing",
            DVec3 { x: chord, y: span, z: f.thickness },
            DVec3 {
                x: Binary64::ratio(1, 10).negate(),
                y: zero,
                z: f.height.negate() * Binary64::ratio(45, 100),
            },
            body,
        ),
    );
    parts.push(
        part(
            "horizontal stabiliser",
            DVec3 { x: tail_chord, y: tail_span, z: thin },
            DVec3 {
                x: f.tail.negate() * Binary64::ratio(86, 100),
                y: zero,
                z: f.height.negate() * Binary64::ratio(2, 10),
            },
            body,
        ),
    );
    parts.push(
        part(
            "vertical stabiliser",
            DVec3 { x: tail_chord * Binary64::ratio(12, 10), y: thin, z: fin_height },
            DVec3 {
                x: f.tail.negate() * Binary64::ratio(82, 100),
                y: zero,
                z: f.height.negate() * Binary64::ratio(35, 100) - fin_height * Binary64::ratio(
                    5,
                    10,
                ),
            },
            accent,
        ),
    );
    parts.push(
        part(
            "propeller disc",
            DVec3 {
                x: Binary64::ratio(8, 100),
                y: f.thickness,
                z: f.height * Binary64::ratio(13, 10),
            },
            DVec3 { x: f.nose, y: zero, z: zero },
            accent,
        ),
    );
    assert(part_views(parts@) =~= parts_spec(config.geometry));
    parts
}

/// The lesser of two numbers, the second where they do not compare.
pub open spec fn spec_lesser(a: Binary32, b: Binary32) -> Binary32 {
    if a < b {
        a
    } else {
        b
    }
}

fn lesser(a: Binary32, b: Binary32) -> (r: Binary32)
    ensures
        r == spec_lesser(a, b),
{
    if a.lt(b) {
        a
    } else {
        b
    }
}

/// The greater of two numbers, the second where they do not compare.
pub open spec fn spec_greater(a: Binary32, b: Binary32) -> Binary32 {
    if a > b {
        a
    } else {
        b
    }
}

fn greater(a: Binary32, b: Binary32) -> (r: Binary32)
    ensures
        r == spec_greater(a, b),
{
    if a.gt(b) {
        a
    } else {
        b
    }
}

/// The corners of what holds everything.
#[derive(Clone, Copy, PartialEq, Eq, Debug, Structural)]
pub struct Bounds {
    pub low: Vec3,
    pub high: Vec3,
}

/// The bit pattern of infinity.
pub const INFINITY_BITS: u32 = 0x7f80_0000;

/// Bounds that hold nothing.
pub open spec fn no_bounds() -> Bounds {
    let far = Binary32 { bits: INFINITY_BITS };
    Bounds {
        low: Vec3 { x: far, y: far, z: far },
        high: Vec3 { x: far.negate(), y: far.negate(), z: far.negate() },
    }
}

/// Bounds widened for a box.
pub open spec fn widened(bounds: Bounds, place: Vec3, size: Vec3) -> Bounds {
    let half = Binary32::ratio(1, 2);
    let (x, y, z) = (size.x * half, size.y * half, size.z * half);
    Bounds {
        low: Vec3 {
            x: spec_lesser(bounds.low.x, place.x - x),
            y: spec_lesser(bounds.low.y, place.y - y),
            z: spec_lesser(bounds.low.z, place.z - z),
        },
        high: Vec3 {
            x: spec_greater(bounds.high.x, place.x + x),
            y: spec_greater(bounds.high.y, place.y + y),
            z: spec_greater(bounds.high.z, place.z + z),
        },
    }
}

/// Bounds that hold the first so many parts.
pub open spec fn bounds_of(parts: Seq<AircraftPartView>, count: int) -> Bounds
    decreases count,
{
    if count <= 0 {
        no_bounds()
    } else {
        widened(
            bounds_of(parts, count - 1),
            parts[count - 1].place,
            parts[count - 1].size,
        )
    }
}

/// How long, wide and tall the stand-in is in metres.
pub fn placeholder_extents(config: &AircraftConfig) -> (r: (Binary64, Binary64, Binary64))
    ensures
        ({
            let bounds = bounds_of(parts_spec(config.geometry), 5);
            r == (
                (bounds.high.x - bounds.low.x).to_binary64(),
                (bounds.high.y - bounds.low.y).to_binary64(),
                (bounds.high.z - bounds.low.z).to_binary64(),
            )
        }),
{
    let parts = placeholder_parts(config);
    let ghost boxes = parts_spec(config.geometry);
    let far = Binary32 { bits: INFINITY_BITS };
    let mut low = Vec3 { x: far, y: far, z: far };
    let mut high = Vec3 { x: far.negate(), y: far.negate(), z: far.negate() };
    let half = Binary32::ratio(1, 2);
    let mut i: usize = 0;
    assert(part_views(parts@).len() == parts@.len());
    while i < parts.len()
        invariant
            i <= parts@.len(),
            parts@.len() == 5,
            boxes == part_views(parts@),
            half == Binary32::ratio(1, 2),
            (Bounds { low, high }) == bounds_of(boxes, i as int),
        decreases parts@.len() - i,
    {
        let place = parts[i].place;
        let size = parts[i].size;
        assert(boxes[i as int] == parts@[i as int]@);
        let (x, y, z) = (size.x * half, size.y * half, size.z * half);
        low = Vec3 {
            x: lesser(low.x, place.x - x),
            y: lesser(low.y, place.y - y),
            z: lesser(low.z, place.z - z),
        };
        high = Vec3 {
            x: greater(high.x, place.x + x),
            y: greater(high.y, place.y + y),
            z: greater(high.z, place.z + z),
        };
        i = i + 1;
    }
    (
        (high.x - low.x).to_binary64(),
        (high.y - low.y).to_binary64(),
        (high.z - low.z).to_binary64(),
    )
}

/// The wing is as wide and as deep as the configuration says.
pub proof fn the_wing_spans_what_the_configuration_says(geometry: Geometry)
    ensures
        parts_spec(geometry)[1].name == "wing"@,
        parts_spec(geometry)[1].size.x == geometry.mean_chord.to_binary32(),
        parts_spec(geometry)[1].size.y == geometry.wing_span.to_binary32(),
{
}

} // verus!
