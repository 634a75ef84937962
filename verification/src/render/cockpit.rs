//! The inside of the cockpit, after the Cessna 172.
//!
//! The width and height of the cabin and the diameter of the instruments are
//! published; everything else is set to look right between them. Parts are laid
//! out from the pilot's eye, in the body axes forward, right and down, so that
//! moving the eye moves the whole interior with it.
use crate::binary64::Binary64;
use crate::near;
use crate::render::surface::Rgb;
use crate::vector::{DVec3, Vec3};
use vstd::arithmetic::power2::*;
use vstd::prelude::*;

verus! {

pub open spec fn spec_inch() -> Binary64 {
    Binary64::ratio(254, 10_000)
}

/// An inch in metres, by definition.
#[verifier::when_used_as_spec(spec_inch)]
pub fn inch() -> (r: Binary64)
    ensures
        r == inch(),
{
    Binary64::ratio(254, 10_000)
}

pub open spec fn spec_cabin_width() -> Binary64 {
    Binary64::of(40) * inch()
}

/// The width of the cabin in metres: 40 inches.
#[verifier::when_used_as_spec(spec_cabin_width)]
pub fn cabin_width() -> (r: Binary64)
    ensures
        r == cabin_width(),
{
    Binary64::of(40) * inch()
}

pub open spec fn spec_cabin_height() -> Binary64 {
    Binary64::of(48) * inch()
}

/// The height of the cabin in metres: 48 inches.
#[verifier::when_used_as_spec(spec_cabin_height)]
pub fn cabin_height() -> (r: Binary64)
    ensures
        r == cabin_height(),
{
    Binary64::of(48) * inch()
}

pub open spec fn spec_instrument_diameter() -> Binary64 {
    Binary64::ratio(3125, 1000) * inch()
}

/// The diameter of a standard instrument in metres: 3.125 inches.
#[verifier::when_used_as_spec(spec_instrument_diameter)]
pub fn instrument_diameter() -> (r: Binary64)
    ensures
        r == instrument_diameter(),
{
    Binary64::ratio(3125, 1000) * inch()
}

pub open spec fn spec_eye_to_panel() -> Binary64 {
    Binary64::ratio(78, 100)
}

/// From the eye to the face of the panel in metres.
#[verifier::when_used_as_spec(spec_eye_to_panel)]
pub fn eye_to_panel() -> (r: Binary64)
    ensures
        r == eye_to_panel(),
{
    Binary64::ratio(78, 100)
}

pub open spec fn spec_eye_to_floor() -> Binary64 {
    Binary64::ratio(95, 100)
}

/// From the eye to the floor in metres.
#[verifier::when_used_as_spec(spec_eye_to_floor)]
pub fn eye_to_floor() -> (r: Binary64)
    ensures
        r == eye_to_floor(),
{
    Binary64::ratio(95, 100)
}

pub open spec fn spec_pilot_seat_offset() -> Binary64 {
    Binary64::ratio(25, 100)
}

/// How far left of the middle the pilot sits, in metres.
#[verifier::when_used_as_spec(spec_pilot_seat_offset)]
pub fn pilot_seat_offset() -> (r: Binary64)
    ensures
        r == pilot_seat_offset(),
{
    Binary64::ratio(25, 100)
}

pub open spec fn spec_glareshield_drop() -> Binary64 {
    Binary64::ratio(10, 100)
}

/// How far below the eye the panel begins, in metres.
#[verifier::when_used_as_spec(spec_glareshield_drop)]
pub fn glareshield_drop() -> (r: Binary64)
    ensures
        r == glareshield_drop(),
{
    Binary64::ratio(10, 100)
}

pub open spec fn spec_window_sill_drop() -> Binary64 {
    Binary64::ratio(14, 100)
}

/// How far below the eye the windows begin, in metres.
#[verifier::when_used_as_spec(spec_window_sill_drop)]
pub fn window_sill_drop() -> (r: Binary64)
    ensures
        r == window_sill_drop(),
{
    Binary64::ratio(14, 100)
}

pub open spec fn spec_six_pack_drop() -> Binary64 {
    Binary64::ratio(25, 100)
}

/// How far below the eye the middle of the six instruments lies, in metres.
#[verifier::when_used_as_spec(spec_six_pack_drop)]
pub fn six_pack_drop() -> (r: Binary64)
    ensures
        r == six_pack_drop(),
{
    Binary64::ratio(25, 100)
}

pub open spec fn spec_panel_height() -> Binary64 {
    Binary64::ratio(42, 100)
}

/// The height of the panel in metres.
#[verifier::when_used_as_spec(spec_panel_height)]
pub fn panel_height() -> (r: Binary64)
    ensures
        r == panel_height(),
{
    Binary64::ratio(42, 100)
}

/// A box of the interior: its size and its middle along the body axes.
#[derive(Clone, Copy, Debug)]
pub struct CockpitPart {
    pub name: &'static str,
    pub size: Vec3,
    pub place: Vec3,
    pub color: Rgb,
    /// It gives light, so that it can be read in the dark.
    pub emissive: bool,
}

/// A part with its name spelt out.
pub struct PartView {
    pub name: Seq<char>,
    pub size: Vec3,
    pub place: Vec3,
    pub color: Rgb,
    pub emissive: bool,
}

impl View for CockpitPart {
    type V = PartView;

    open spec fn view(&self) -> PartView {
        PartView {
            name: self.name@,
            size: self.size,
            place: self.place,
            color: self.color,
            emissive: self.emissive,
        }
    }
}

/// Three numbers in single precision.
pub open spec fn narrowed(v: (Binary64, Binary64, Binary64)) -> Vec3 {
    Vec3 { x: v.0.to_binary32(), y: v.1.to_binary32(), z: v.2.to_binary32() }
}

/// A part that gives no light.
pub open spec fn spec_part(
    name: Seq<char>,
    size: (Binary64, Binary64, Binary64),
    place: (Binary64, Binary64, Binary64),
    color: Rgb,
) -> PartView {
    PartView { name, size: narrowed(size), place: narrowed(place), color, emissive: false }
}

/// A part that gives no light.
fn part(
    name: &'static str,
    size: (Binary64, Binary64, Binary64),
    place: (Binary64, Binary64, Binary64),
    color: Rgb,
) -> (r: CockpitPart)
    ensures
        r@ == spec_part(name@, size, place, color),
{
    CockpitPart {
        name,
        size: Vec3 {
            x: size.0.to_binary32(),
            y: size.1.to_binary32(),
            z: size.2.to_binary32(),
        },
        place: Vec3 {
            x: place.0.to_binary32(),
            y: place.1.to_binary32(),
            z: place.2.to_binary32(),
        },
        color,
        emissive: false,
    }
}

/// The parts with their names spelt out.
pub open spec fn views(parts: Seq<CockpitPart>) -> Seq<PartView> {
    parts.map_values(|part: CockpitPart| part@)
}

/// The rims of the six instruments: airspeed, attitude and altitude above,
/// turn, heading and climb below, with heading right under attitude.
pub open spec fn six_pack(eye: DVec3) -> Seq<PartView> {
    let pitch = instrument_diameter() * Binary64::ratio(112, 100);
    let centre_z = eye.z + six_pack_drop();
    let row_top = centre_z - pitch * Binary64::ratio(5, 10);
    let row_bottom = centre_z + pitch * Binary64::ratio(5, 10);
    let panel_x = eye.x + eye_to_panel();
    seq![
        spec_part(
            "bezel airspeed"@,
            (Binary64::ratio(12, 1_000), instrument_diameter(), instrument_diameter()),
            (panel_x - Binary64::ratio(3, 100), eye.y - pitch, row_top),
            Rgb::thousandths(50, 50, 55),
        ),
        spec_part(
            "bezel attitude"@,
            (Binary64::ratio(12, 1_000), instrument_diameter(), instrument_diameter()),
            (panel_x - Binary64::ratio(3, 100), eye.y, row_top),
            Rgb::thousandths(50, 50, 55),
        ),
        spec_part(
            "bezel altimeter"@,
            (Binary64::ratio(12, 1_000), instrument_diameter(), instrument_diameter()),
            (panel_x - Binary64::ratio(3, 100), eye.y + pitch, row_top),
            Rgb::thousandths(50, 50, 55),
        ),
        spec_part(
            "bezel turn"@,
            (Binary64::ratio(12, 1_000), instrument_diameter(), instrument_diameter()),
            (panel_x - Binary64::ratio(3, 100), eye.y - pitch, row_bottom),
            Rgb::thousandths(50, 50, 55),
        ),
        spec_part(
            "bezel heading"@,
            (Binary64::ratio(12, 1_000), instrument_diameter(), instrument_diameter()),
            (panel_x - Binary64::ratio(3, 100), eye.y, row_bottom),
            Rgb::thousandths(50, 50, 55),
        ),
        spec_part(
            "bezel vertical speed"@,
            (Binary64::ratio(12, 1_000), instrument_diameter(), instrument_diameter()),
            (panel_x - Binary64::ratio(3, 100), eye.y + pitch, row_bottom),
            Rgb::thousandths(50, 50, 55),
        ),
    ]
}

/// The cabin without the rims of the instruments.
pub open spec fn cabin(eye: DVec3) -> Seq<PartView> {
    let panel_x = eye.x + eye_to_panel();
    let floor_z = eye.z + eye_to_floor();
    let glareshield_z = eye.z + glareshield_drop();
    let panel_centre_z = glareshield_z + panel_height() * Binary64::ratio(5, 10);
    let half_width = cabin_width() * Binary64::ratio(5, 10);
    let eye_x = eye.x;
    let eye_z = eye.z;
    seq![
        spec_part(
            "instrument panel"@,
            (Binary64::ratio(5, 100), cabin_width(), panel_height()),
            (panel_x, Binary64::of(0), panel_centre_z),
            Rgb::thousandths(130, 130, 140),
        ),
        spec_part(
            "glareshield"@,
            (Binary64::ratio(16, 100), cabin_width(), Binary64::ratio(35, 1_000)),
            (panel_x - Binary64::ratio(8, 100), Binary64::of(0), glareshield_z - Binary64::ratio(2, 100)),
            Rgb::thousandths(80, 80, 90),
        ),
        spec_part(
            "floor"@,
            (Binary64::ratio(16, 10), cabin_width(), Binary64::ratio(3, 100)),
            (eye_x - Binary64::ratio(1, 10), Binary64::of(0), floor_z),
            Rgb::thousandths(240, 230, 220),
        ),
        spec_part(
            "left wall"@,
            (Binary64::ratio(17, 10), Binary64::ratio(4, 100), window_sill_drop() + Binary64::ratio(55, 100)),
            (eye_x - Binary64::ratio(1, 10), half_width.negate(), eye_z + window_sill_drop() + (window_sill_drop() + Binary64::ratio(55, 100)) * Binary64::ratio(5, 10)),
            Rgb::thousandths(320, 310, 290),
        ),
        spec_part(
            "right wall"@,
            (Binary64::ratio(17, 10), Binary64::ratio(4, 100), window_sill_drop() + Binary64::ratio(55, 100)),
            (eye_x - Binary64::ratio(1, 10), half_width, eye_z + window_sill_drop() + (window_sill_drop() + Binary64::ratio(55, 100)) * Binary64::ratio(5, 10)),
            Rgb::thousandths(320, 310, 290),
        ),
        spec_part(
            "left door post"@,
            (Binary64::ratio(5, 100), Binary64::ratio(5, 100), Binary64::ratio(55, 100)),
            (eye_x - Binary64::ratio(55, 100), half_width.negate(), eye_z - Binary64::ratio(2, 100)),
            Rgb::thousandths(320, 310, 290),
        ),
        spec_part(
            "right door post"@,
            (Binary64::ratio(5, 100), Binary64::ratio(5, 100), Binary64::ratio(55, 100)),
            (eye_x - Binary64::ratio(55, 100), half_width, eye_z - Binary64::ratio(2, 100)),
            Rgb::thousandths(320, 310, 290),
        ),
        spec_part(
            "roof"@,
            (Binary64::ratio(17, 10), cabin_width(), Binary64::ratio(4, 100)),
            (eye_x - Binary64::ratio(1, 10), Binary64::of(0), eye_z - Binary64::ratio(32, 100)),
            Rgb::thousandths(320, 310, 290),
        ),
        spec_part(
            "windscreen post"@,
            (Binary64::ratio(5, 100), Binary64::ratio(28, 1_000), Binary64::ratio(55, 100)),
            (panel_x + Binary64::ratio(10, 100), Binary64::of(0), glareshield_z - Binary64::ratio(30, 100)),
            Rgb::thousandths(320, 310, 290),
        ),
        spec_part(
            "centre stack"@,
            (Binary64::ratio(6, 100), Binary64::ratio(17, 100), Binary64::ratio(30, 100)),
            (panel_x - Binary64::ratio(3, 100), Binary64::of(0), panel_centre_z + Binary64::ratio(2, 100)),
            Rgb::thousandths(90, 90, 100),
        ),
        spec_part(
            "control yoke column"@,
            (Binary64::ratio(28, 100), Binary64::ratio(5, 100), Binary64::ratio(5, 100)),
            (panel_x - Binary64::ratio(16, 100), pilot_seat_offset().negate(), panel_centre_z + panel_height() * Binary64::ratio(42, 100)),
            Rgb::thousandths(550, 550, 570),
        ),
        spec_part(
            "control yoke"@,
            (Binary64::ratio(4, 100), Binary64::ratio(32, 100), Binary64::ratio(45, 1_000)),
            (panel_x - Binary64::ratio(30, 100), pilot_seat_offset().negate(), panel_centre_z + panel_height() * Binary64::ratio(42, 100)),
            Rgb::thousandths(100, 100, 110),
        ),
        spec_part(
            "throttle quadrant"@,
            (Binary64::ratio(12, 100), Binary64::ratio(14, 100), Binary64::ratio(6, 100)),
            (panel_x - Binary64::ratio(6, 100), Binary64::ratio(2, 100), panel_centre_z + panel_height() * Binary64::ratio(55, 100)),
            Rgb::thousandths(550, 550, 570),
        ),
        spec_part(
            "pilot seat back"@,
            (Binary64::ratio(6, 100), Binary64::ratio(44, 100), Binary64::ratio(55, 100)),
            (eye_x - Binary64::ratio(45, 100), pilot_seat_offset().negate(), eye_z + Binary64::ratio(30, 100)),
            Rgb::thousandths(240, 230, 220),
        ),
        spec_part(
            "copilot seat back"@,
            (Binary64::ratio(6, 100), Binary64::ratio(44, 100), Binary64::ratio(55, 100)),
            (eye_x - Binary64::ratio(45, 100), pilot_seat_offset(), eye_z + Binary64::ratio(30, 100)),
            Rgb::thousandths(240, 230, 220),
        ),
    ]
}

/// The rims of the six instruments, in front of the pilot.
pub fn six_pack_bezels(eye: DVec3) -> (r: Vec<CockpitPart>)
    ensures
        views(r@) == six_pack(eye),
{
    let pitch = instrument_diameter() * Binary64::ratio(112, 100);
    let centre_z = eye.z + six_pack_drop();
    let row_top = centre_z - pitch * Binary64::ratio(5, 10);
    let row_bottom = centre_z + pitch * Binary64::ratio(5, 10);
    let panel_x = eye.x + eye_to_panel();
    let mut parts: Vec<CockpitPart> = Vec::new();
    parts.push(
        part(
            "bezel airspeed",
            (Binary64::ratio(12, 1_000), instrument_diameter(), instrument_diameter()),
            (panel_x - Binary64::ratio(3, 100), eye.y - pitch, row_top),
            Rgb::thousandths(50, 50, 55),
        ),
    );
    parts.push(
        part(
            "bezel attitude",
            (Binary64::ratio(12, 1_000), instrument_diameter(), instrument_diameter()),
            (panel_x - Binary64::ratio(3, 100), eye.y, row_top),
            Rgb::thousandths(50, 50, 55),
        ),
    );
    parts.push(
        part(
            "bezel altimeter",
            (Binary64::ratio(12, 1_000), instrument_diameter(), instrument_diameter()),
            (panel_x - Binary64::ratio(3, 100), eye.y + pitch, row_top),
            Rgb::thousandths(50, 50, 55),
        ),
    );
    parts.push(
        part(
            "bezel turn",
            (Binary64::ratio(12, 1_000), instrument_diameter(), instrument_diameter()),
            (panel_x - Binary64::ratio(3, 100), eye.y - pitch, row_bottom),
            Rgb::thousandths(50, 50, 55),
        ),
    );
    parts.push(
        part(
            "bezel heading",
            (Binary64::ratio(12, 1_000), instrument_diameter(), instrument_diameter()),
            (panel_x - Binary64::ratio(3, 100), eye.y, row_bottom),
            Rgb::thousandths(50, 50, 55),
        ),
    );
    parts.push(
        part(
            "bezel vertical speed",
            (Binary64::ratio(12, 1_000), instrument_diameter(), instrument_diameter()),
            (panel_x - Binary64::ratio(3, 100), eye.y + pitch, row_bottom),
            Rgb::thousandths(50, 50, 55),
        ),
    );
    assert(views(parts@) =~= six_pack(eye));
    parts
}

/// The inside of the cockpit around the pilot's eye.
pub fn interior_parts(eye: DVec3) -> (r: Vec<CockpitPart>)
    ensures
        views(r@) == cabin(eye) + six_pack(eye),
{
    let panel_x = eye.x + eye_to_panel();
    let floor_z = eye.z + eye_to_floor();
    let glareshield_z = eye.z + glareshield_drop();
    let panel_centre_z = glareshield_z + panel_height() * Binary64::ratio(5, 10);
    let half_width = cabin_width() * Binary64::ratio(5, 10);
    let eye_x = eye.x;
    let eye_z = eye.z;
    let mut parts: Vec<CockpitPart> = Vec::new();
    parts.push(
        part(
            "instrument panel",
            (Binary64::ratio(5, 100), cabin_width(), panel_height()),
            (panel_x, Binary64::of(0), panel_centre_z),
            Rgb::thousandths(130, 130, 140),
        ),
    );
    parts.push(
        part(
            "glareshield",
            (Binary64::ratio(16, 100), cabin_width(), Binary64::ratio(35, 1_000)),
            (panel_x - Binary64::ratio(8, 100), Binary64::of(0), glareshield_z - Binary64::ratio(2, 100)),
            Rgb::thousandths(80, 80, 90),
        ),
    );
    parts.push(
        part(
            "floor",
            (Binary64::ratio(16, 10), cabin_width(), Binary64::ratio(3, 100)),
            (eye_x - Binary64::ratio(1, 10), Binary64::of(0), floor_z),
            Rgb::thousandths(240, 230, 220),
        ),
    );
    parts.push(
        part(
            "left wall",
            (Binary64::ratio(17, 10), Binary64::ratio(4, 100), window_sill_drop() + Binary64::ratio(55, 100)),
            (eye_x - Binary64::ratio(1, 10), half_width.negate(), eye_z + window_sill_drop() + (window_sill_drop() + Binary64::ratio(55, 100)) * Binary64::ratio(5, 10)),
            Rgb::thousandths(320, 310, 290),
        ),
    );
    parts.push(
        part(
            "right wall",
            (Binary64::ratio(17, 10), Binary64::ratio(4, 100), window_sill_drop() + Binary64::ratio(55, 100)),
            (eye_x - Binary64::ratio(1, 10), half_width, eye_z + window_sill_drop() + (window_sill_drop() + Binary64::ratio(55, 100)) * Binary64::ratio(5, 10)),
            Rgb::thousandths(320, 310, 290),
        ),
    );
    parts.push(
        part(
            "left door post",
            (Binary64::ratio(5, 100), Binary64::ratio(5, 100), Binary64::ratio(55, 100)),
            (eye_x - Binary64::ratio(55, 100), half_width.negate(), eye_z - Binary64::ratio(2, 100)),
            Rgb::thousandths(320, 310, 290),
        ),
    );
    parts.push(
        part(
            "right door post",
            (Binary64::ratio(5, 100), Binary64::ratio(5, 100), Binary64::ratio(55, 100)),
            (eye_x - Binary64::ratio(55, 100), half_width, eye_z - Binary64::ratio(2, 100)),
            Rgb::thousandths(320, 310, 290),
        ),
    );
    parts.push(
        part(
            "roof",
            (Binary64::ratio(17, 10), cabin_width(), Binary64::ratio(4, 100)),
            (eye_x - Binary64::ratio(1, 10), Binary64::of(0), eye_z - Binary64::ratio(32, 100)),
            Rgb::thousandths(320, 310, 290),
        ),
    );
    parts.push(
        part(
            "windscreen post",
            (Binary64::ratio(5, 100), Binary64::ratio(28, 1_000), Binary64::ratio(55, 100)),
            (panel_x + Binary64::ratio(10, 100), Binary64::of(0), glareshield_z - Binary64::ratio(30, 100)),
            Rgb::thousandths(320, 310, 290),
        ),
    );
    parts.push(
        part(
            "centre stack",
            (Binary64::ratio(6, 100), Binary64::ratio(17, 100), Binary64::ratio(30, 100)),
            (panel_x - Binary64::ratio(3, 100), Binary64::of(0), panel_centre_z + Binary64::ratio(2, 100)),
            Rgb::thousandths(90, 90, 100),
        ),
    );
    parts.push(
        part(
            "control yoke column",
            (Binary64::ratio(28, 100), Binary64::ratio(5, 100), Binary64::ratio(5, 100)),
            (panel_x - Binary64::ratio(16, 100), pilot_seat_offset().negate(), panel_centre_z + panel_height() * Binary64::ratio(42, 100)),
            Rgb::thousandths(550, 550, 570),
        ),
    );
    parts.push(
        part(
            "control yoke",
            (Binary64::ratio(4, 100), Binary64::ratio(32, 100), Binary64::ratio(45, 1_000)),
            (panel_x - Binary64::ratio(30, 100), pilot_seat_offset().negate(), panel_centre_z + panel_height() * Binary64::ratio(42, 100)),
            Rgb::thousandths(100, 100, 110),
        ),
    );
    parts.push(
        part(
            "throttle quadrant",
            (Binary64::ratio(12, 100), Binary64::ratio(14, 100), Binary64::ratio(6, 100)),
            (panel_x - Binary64::ratio(6, 100), Binary64::ratio(2, 100), panel_centre_z + panel_height() * Binary64::ratio(55, 100)),
            Rgb::thousandths(550, 550, 570),
        ),
    );
    parts.push(
        part(
            "pilot seat back",
            (Binary64::ratio(6, 100), Binary64::ratio(44, 100), Binary64::ratio(55, 100)),
            (eye_x - Binary64::ratio(45, 100), pilot_seat_offset().negate(), eye_z + Binary64::ratio(30, 100)),
            Rgb::thousandths(240, 230, 220),
        ),
    );
    parts.push(
        part(
            "copilot seat back",
            (Binary64::ratio(6, 100), Binary64::ratio(44, 100), Binary64::ratio(55, 100)),
            (eye_x - Binary64::ratio(45, 100), pilot_seat_offset(), eye_z + Binary64::ratio(30, 100)),
            Rgb::thousandths(240, 230, 220),
        ),
    );
    assert(views(parts@) =~= cabin(eye));
    let mut bezels = six_pack_bezels(eye);
    let ghost before = parts@;
    let ghost rims = bezels@;
    parts.append(&mut bezels);
    assert(views(parts@) =~= views(before) + views(rims));
    parts
}

/// The second part is the first one moved forward and down, but for rounding,
/// and alike in all else.
pub open spec fn moved_part(a: PartView, b: PartView, dx: int, dz: int) -> bool {
    let step = near::single_step();
    &&& b.name == a.name
    &&& b.size == a.size
    &&& b.color == a.color
    &&& b.emissive == a.emissive
    &&& b.place.y == a.place.y
    &&& near::within((b.place.x.value() - a.place.x.value()) * step, dx, pow2(1056))
    &&& near::within((b.place.z.value() - a.place.z.value()) * step, dz, pow2(1056))
}

/// The second part is the first one moved.
#[verifier::opaque]
spec fn went(a: PartView, b: PartView, dx: int, dz: int) -> bool {
    moved_part(a, b, dx, dz)
}

/// Two ways forward or down, one from each eye.
#[verifier::opaque]
spec fn apart(a: Binary64, b: Binary64, d: int) -> bool {
    near::within((b.to_binary32().value() - a.to_binary32().value()) * near::single_step(), d, pow2(1056))
}

/// The small measures of the cabin.
proof fn lemma_cabin_sizes()
    ensures
        near::sized(eye_to_panel(), 1),
        near::sized(eye_to_floor(), 1),
        near::sized(glareshield_drop(), 1),
        near::sized(window_sill_drop(), 1),
        near::sized(six_pack_drop(), 1),
        near::sized(panel_height() * Binary64::ratio(5, 10), 2),
        near::sized(panel_height() * Binary64::ratio(42, 100), 2),
        near::sized(panel_height() * Binary64::ratio(55, 100), 2),
        near::sized(
            (window_sill_drop() + Binary64::ratio(55, 100)) * Binary64::ratio(5, 10),
            4,
        ),
        near::sized(
            (instrument_diameter() * Binary64::ratio(112, 100)) * Binary64::ratio(5, 10),
            2,
        ),
{
    near::lemma_grain();
    near::lemma_small_ratio(78, 100, 1);
    near::lemma_small_ratio(95, 100, 1);
    near::lemma_small_ratio(10, 100, 1);
    near::lemma_small_ratio(14, 100, 1);
    near::lemma_small_ratio(25, 100, 1);
    near::lemma_small_ratio(42, 100, 1);
    near::lemma_small_ratio(55, 100, 1);
    near::lemma_small_ratio(5, 10, 1);
    near::lemma_small_product(panel_height(), Binary64::ratio(5, 10), 1, 1);
    near::lemma_small_product(panel_height(), Binary64::ratio(42, 100), 1, 1);
    near::lemma_small_product(panel_height(), Binary64::ratio(55, 100), 1, 1);
    near::lemma_small_sum(window_sill_drop(), Binary64::ratio(55, 100), 1, 1);
    near::lemma_small_product(
        window_sill_drop() + Binary64::ratio(55, 100),
        Binary64::ratio(5, 10),
        3,
        1,
    );
    near::lemma_small_ratio(3125, 1000, 4);
    near::lemma_ratio(3125, 1000);
    near::lemma_small_ratio(254, 10_000, 1);
    near::lemma_ratio(254, 10_000);
    near::lemma_small_ratio(112, 100, 2);
    near::lemma_ratio(112, 100);
    near::lemma_small_product(Binary64::ratio(3125, 1000), inch(), 4, 1);
    near::lemma_product_between(
        Binary64::ratio(3125, 1000),
        inch(),
        0,
        0x400000000,
        0,
        0x10000000,
    );
    near::lemma_small_product(instrument_diameter(), Binary64::ratio(112, 100), 1, 2);
    near::lemma_product_between(
        instrument_diameter(),
        Binary64::ratio(112, 100),
        0,
        0x50000000,
        0,
        0x200000000,
    );
    near::lemma_small_product(
        instrument_diameter() * Binary64::ratio(112, 100),
        Binary64::ratio(5, 10),
        1,
        1,
    );
}

/// A way from the eye, with a bit more or less, moves as the eye does.
proof fn lemma_bit(a: Binary64, b: Binary64, d: int, m: int, k: int, n: u64)
    requires
        near::moved(a, b, d, m, k),
        0 <= m <= 14,
        k <= 100,
        n < 100,
    ensures
        apart(a + Binary64::ratio(n, 100), b + Binary64::ratio(n, 100), d),
        apart(a - Binary64::ratio(n, 100), b - Binary64::ratio(n, 100), d),
{
    reveal(apart);
    let c = Binary64::ratio(n, 100);
    near::lemma_small_ratio(n, 100, 1);
    near::lemma_moved_sum(a, b, d, m, k, c, 1);
    near::lemma_moved_difference(a, b, d, m, k, c, 1);
    near::lemma_moved_narrowed(a + c, b + c, d, m + 2, k + 2);
    near::lemma_moved_narrowed(a - c, b - c, d, m + 2, k + 2);
}

/// All that lies forward of the eye moves forward with it.
proof fn lemma_forward(a: Binary64, b: Binary64)
    requires
        near::sized(a, 8),
        near::sized(b, 8),
    ensures
        ({
            let d = b.value() - a.value();
            let (p, q) = (a + eye_to_panel(), b + eye_to_panel());
            &&& apart(p, q, d)
            &&& forall|n: u64|
                n < 100 ==> apart(
                    p - #[trigger] Binary64::ratio(n, 100),
                    q - Binary64::ratio(n, 100),
                    d,
                )
            &&& apart(p + Binary64::ratio(10, 100), q + Binary64::ratio(10, 100), d)
            &&& forall|n: u64|
                n < 100 ==> apart(
                    a - #[trigger] Binary64::ratio(n, 100),
                    b - Binary64::ratio(n, 100),
                    d,
                )
            &&& apart(a - Binary64::ratio(1, 10), b - Binary64::ratio(1, 10), d)
        }),
{
    reveal(apart);
    let d = b.value() - a.value();
    let (p, q) = (a + eye_to_panel(), b + eye_to_panel());
    lemma_cabin_sizes();
    near::lemma_moved_sum(a, b, d, 8, 0, eye_to_panel(), 1);
    near::lemma_moved_narrowed(p, q, d, 10, 2);
    assert forall|n: u64| n < 100 implies apart(
        p - #[trigger] Binary64::ratio(n, 100),
        q - Binary64::ratio(n, 100),
        d,
    ) by {
        lemma_bit(p, q, d, 10, 2, n);
    }
    lemma_bit(p, q, d, 10, 2, 10);
    assert forall|n: u64| n < 100 implies apart(
        a - #[trigger] Binary64::ratio(n, 100),
        b - Binary64::ratio(n, 100),
        d,
    ) by {
        lemma_bit(a, b, d, 8, 0, n);
    }
    near::lemma_small_ratio(1, 10, 1);
    near::lemma_moved_difference(a, b, d, 8, 0, Binary64::ratio(1, 10), 1);
    near::lemma_moved_narrowed(a - Binary64::ratio(1, 10), b - Binary64::ratio(1, 10), d, 10, 2);
}

/// All that lies above or below the eye moves down with it.
proof fn lemma_down(a: Binary64, b: Binary64)
    requires
        near::sized(a, 8),
        near::sized(b, 8),
    ensures
        ({
            let d = b.value() - a.value();
            let half = Binary64::ratio(5, 10);
            let (p, q) = (a + glareshield_drop(), b + glareshield_drop());
            let (v, w) = (p + panel_height() * half, q + panel_height() * half);
            let pitch = instrument_diameter() * Binary64::ratio(112, 100);
            let (s, t) = (a + six_pack_drop(), b + six_pack_drop());
            let sill = window_sill_drop() + Binary64::ratio(55, 100);
            &&& apart(a + eye_to_floor(), b + eye_to_floor(), d)
            &&& apart(v, w, d)
            &&& apart(p - Binary64::ratio(2, 100), q - Binary64::ratio(2, 100), d)
            &&& apart(p - Binary64::ratio(30, 100), q - Binary64::ratio(30, 100), d)
            &&& apart(v + Binary64::ratio(2, 100), w + Binary64::ratio(2, 100), d)
            &&& apart(
                v + panel_height() * Binary64::ratio(42, 100),
                w + panel_height() * Binary64::ratio(42, 100),
                d,
            )
            &&& apart(
                v + panel_height() * Binary64::ratio(55, 100),
                w + panel_height() * Binary64::ratio(55, 100),
                d,
            )
            &&& apart(a - Binary64::ratio(2, 100), b - Binary64::ratio(2, 100), d)
            &&& apart(a - Binary64::ratio(32, 100), b - Binary64::ratio(32, 100), d)
            &&& apart(a + Binary64::ratio(30, 100), b + Binary64::ratio(30, 100), d)
            &&& apart(
                a + window_sill_drop() + sill * half,
                b + window_sill_drop() + sill * half,
                d,
            )
            &&& apart(s - pitch * half, t - pitch * half, d)
            &&& apart(s + pitch * half, t + pitch * half, d)
        }),
{
    reveal(apart);
    let d = b.value() - a.value();
    let half = Binary64::ratio(5, 10);
    let (p, q) = (a + glareshield_drop(), b + glareshield_drop());
    let (v, w) = (p + panel_height() * half, q + panel_height() * half);
    let low = panel_height() * Binary64::ratio(42, 100);
    let lower = panel_height() * Binary64::ratio(55, 100);
    let pitch = instrument_diameter() * Binary64::ratio(112, 100);
    let (s, t) = (a + six_pack_drop(), b + six_pack_drop());
    let sill = window_sill_drop() + Binary64::ratio(55, 100);
    lemma_cabin_sizes();
    near::lemma_moved_sum(a, b, d, 8, 0, eye_to_floor(), 1);
    near::lemma_moved_narrowed(a + eye_to_floor(), b + eye_to_floor(), d, 10, 2);
    near::lemma_moved_sum(a, b, d, 8, 0, glareshield_drop(), 1);
    near::lemma_moved_sum(p, q, d, 10, 2, panel_height() * half, 2);
    near::lemma_moved_narrowed(v, w, d, 13, 4);
    lemma_bit(p, q, d, 10, 2, 2);
    lemma_bit(p, q, d, 10, 2, 30);
    lemma_bit(v, w, d, 13, 4, 2);
    near::lemma_moved_sum(v, w, d, 13, 4, low, 2);
    near::lemma_moved_narrowed(v + low, w + low, d, 16, 6);
    near::lemma_moved_sum(v, w, d, 13, 4, lower, 2);
    near::lemma_moved_narrowed(v + lower, w + lower, d, 16, 6);
    lemma_bit(a, b, d, 8, 0, 2);
    lemma_bit(a, b, d, 8, 0, 32);
    lemma_bit(a, b, d, 8, 0, 30);
    near::lemma_moved_sum(a, b, d, 8, 0, window_sill_drop(), 1);
    near::lemma_moved_sum(
        a + window_sill_drop(),
        b + window_sill_drop(),
        d,
        10,
        2,
        sill * half,
        4,
    );
    near::lemma_moved_narrowed(
        a + window_sill_drop() + sill * half,
        b + window_sill_drop() + sill * half,
        d,
        15,
        4,
    );
    near::lemma_moved_sum(a, b, d, 8, 0, six_pack_drop(), 1);
    near::lemma_moved_difference(s, t, d, 10, 2, pitch * half, 2);
    near::lemma_moved_sum(s, t, d, 10, 2, pitch * half, 2);
    near::lemma_moved_narrowed(s - pitch * half, t - pitch * half, d, 13, 4);
    near::lemma_moved_narrowed(s + pitch * half, t + pitch * half, d, 13, 4);
}

/// A part whose ways forward and down have moved has moved.
proof fn lemma_part(
    name: Seq<char>,
    size: (Binary64, Binary64, Binary64),
    a: (Binary64, Binary64, Binary64),
    b: (Binary64, Binary64, Binary64),
    color: Rgb,
    dx: int,
    dz: int,
)
    requires
        apart(a.0, b.0, dx),
        a.1 == b.1,
        apart(a.2, b.2, dz),
    ensures
        went(spec_part(name, size, a, color), spec_part(name, size, b, color), dx, dz),
{
    reveal(went);
    reveal(apart);
}

/// The cabin moves with the eye.
proof fn lemma_cabin_moves(eye: DVec3, moved: DVec3, dx: int, dz: int)
    requires
        near::sized(eye.x, 8),
        near::sized(eye.z, 8),
        near::sized(moved.x, 8),
        near::sized(moved.z, 8),
        moved.y == eye.y,
        dx == moved.x.value() - eye.x.value(),
        dz == moved.z.value() - eye.z.value(),
    ensures
        cabin(eye).len() == 15,
        cabin(moved).len() == 15,
        forall|i: int|
            0 <= i < 15 ==> went(#[trigger] cabin(eye)[i], cabin(moved)[i], dx, dz),
{
    lemma_forward(eye.x, moved.x);
    lemma_down(eye.z, moved.z);
    let half_width = cabin_width() * Binary64::ratio(5, 10);
    let (eye_x, eye_x_moved) = (eye.x, moved.x);
    let (eye_z, eye_z_moved) = (eye.z, moved.z);
    let (panel_x, panel_x_moved) = (eye.x + eye_to_panel(), moved.x + eye_to_panel());
    let (floor_z, floor_z_moved) = (eye.z + eye_to_floor(), moved.z + eye_to_floor());
    let (glareshield_z, glareshield_z_moved) = (
        eye.z + glareshield_drop(),
        moved.z + glareshield_drop(),
    );
    let (panel_centre_z, panel_centre_z_moved) = (
        glareshield_z + panel_height() * Binary64::ratio(5, 10),
        glareshield_z_moved + panel_height() * Binary64::ratio(5, 10),
    );
    lemma_part(
        "instrument panel"@,
        (Binary64::ratio(5, 100), cabin_width(), panel_height()),
        (panel_x, Binary64::of(0), panel_centre_z),
        (panel_x_moved, Binary64::of(0), panel_centre_z_moved),
        Rgb::thousandths(130, 130, 140),
        dx,
        dz,
    );
    lemma_part(
        "glareshield"@,
        (Binary64::ratio(16, 100), cabin_width(), Binary64::ratio(35, 1_000)),
        (panel_x - Binary64::ratio(8, 100), Binary64::of(0), glareshield_z - Binary64::ratio(2, 100)),
        (panel_x_moved - Binary64::ratio(8, 100), Binary64::of(0), glareshield_z_moved - Binary64::ratio(2, 100)),
        Rgb::thousandths(80, 80, 90),
        dx,
        dz,
    );
    lemma_part(
        "floor"@,
        (Binary64::ratio(16, 10), cabin_width(), Binary64::ratio(3, 100)),
        (eye_x - Binary64::ratio(1, 10), Binary64::of(0), floor_z),
        (eye_x_moved - Binary64::ratio(1, 10), Binary64::of(0), floor_z_moved),
        Rgb::thousandths(240, 230, 220),
        dx,
        dz,
    );
    lemma_part(
        "left wall"@,
        (Binary64::ratio(17, 10), Binary64::ratio(4, 100), window_sill_drop() + Binary64::ratio(55, 100)),
        (eye_x - Binary64::ratio(1, 10), half_width.negate(), eye_z + window_sill_drop() + (window_sill_drop() + Binary64::ratio(55, 100)) * Binary64::ratio(5, 10)),
        (eye_x_moved - Binary64::ratio(1, 10), half_width.negate(), eye_z_moved + window_sill_drop() + (window_sill_drop() + Binary64::ratio(55, 100)) * Binary64::ratio(5, 10)),
        Rgb::thousandths(320, 310, 290),
        dx,
        dz,
    );
    lemma_part(
        "right wall"@,
        (Binary64::ratio(17, 10), Binary64::ratio(4, 100), window_sill_drop() + Binary64::ratio(55, 100)),
        (eye_x - Binary64::ratio(1, 10), half_width, eye_z + window_sill_drop() + (window_sill_drop() + Binary64::ratio(55, 100)) * Binary64::ratio(5, 10)),
        (eye_x_moved - Binary64::ratio(1, 10), half_width, eye_z_moved + window_sill_drop() + (window_sill_drop() + Binary64::ratio(55, 100)) * Binary64::ratio(5, 10)),
        Rgb::thousandths(320, 310, 290),
        dx,
        dz,
    );
    lemma_part(
        "left door post"@,
        (Binary64::ratio(5, 100), Binary64::ratio(5, 100), Binary64::ratio(55, 100)),
        (eye_x - Binary64::ratio(55, 100), half_width.negate(), eye_z - Binary64::ratio(2, 100)),
        (eye_x_moved - Binary64::ratio(55, 100), half_width.negate(), eye_z_moved - Binary64::ratio(2, 100)),
        Rgb::thousandths(320, 310, 290),
        dx,
        dz,
    );
    lemma_part(
        "right door post"@,
        (Binary64::ratio(5, 100), Binary64::ratio(5, 100), Binary64::ratio(55, 100)),
        (eye_x - Binary64::ratio(55, 100), half_width, eye_z - Binary64::ratio(2, 100)),
        (eye_x_moved - Binary64::ratio(55, 100), half_width, eye_z_moved - Binary64::ratio(2, 100)),
        Rgb::thousandths(320, 310, 290),
        dx,
        dz,
    );
    lemma_part(
        "roof"@,
        (Binary64::ratio(17, 10), cabin_width(), Binary64::ratio(4, 100)),
        (eye_x - Binary64::ratio(1, 10), Binary64::of(0), eye_z - Binary64::ratio(32, 100)),
        (eye_x_moved - Binary64::ratio(1, 10), Binary64::of(0), eye_z_moved - Binary64::ratio(32, 100)),
        Rgb::thousandths(320, 310, 290),
        dx,
        dz,
    );
    lemma_part(
        "windscreen post"@,
        (Binary64::ratio(5, 100), Binary64::ratio(28, 1_000), Binary64::ratio(55, 100)),
        (panel_x + Binary64::ratio(10, 100), Binary64::of(0), glareshield_z - Binary64::ratio(30, 100)),
        (panel_x_moved + Binary64::ratio(10, 100), Binary64::of(0), glareshield_z_moved - Binary64::ratio(30, 100)),
        Rgb::thousandths(320, 310, 290),
        dx,
        dz,
    );
    lemma_part(
        "centre stack"@,
        (Binary64::ratio(6, 100), Binary64::ratio(17, 100), Binary64::ratio(30, 100)),
        (panel_x - Binary64::ratio(3, 100), Binary64::of(0), panel_centre_z + Binary64::ratio(2, 100)),
        (panel_x_moved - Binary64::ratio(3, 100), Binary64::of(0), panel_centre_z_moved + Binary64::ratio(2, 100)),
        Rgb::thousandths(90, 90, 100),
        dx,
        dz,
    );
    lemma_part(
        "control yoke column"@,
        (Binary64::ratio(28, 100), Binary64::ratio(5, 100), Binary64::ratio(5, 100)),
        (panel_x - Binary64::ratio(16, 100), pilot_seat_offset().negate(), panel_centre_z + panel_height() * Binary64::ratio(42, 100)),
        (panel_x_moved - Binary64::ratio(16, 100), pilot_seat_offset().negate(), panel_centre_z_moved + panel_height() * Binary64::ratio(42, 100)),
        Rgb::thousandths(550, 550, 570),
        dx,
        dz,
    );
    lemma_part(
        "control yoke"@,
        (Binary64::ratio(4, 100), Binary64::ratio(32, 100), Binary64::ratio(45, 1_000)),
        (panel_x - Binary64::ratio(30, 100), pilot_seat_offset().negate(), panel_centre_z + panel_height() * Binary64::ratio(42, 100)),
        (panel_x_moved - Binary64::ratio(30, 100), pilot_seat_offset().negate(), panel_centre_z_moved + panel_height() * Binary64::ratio(42, 100)),
        Rgb::thousandths(100, 100, 110),
        dx,
        dz,
    );
    lemma_part(
        "throttle quadrant"@,
        (Binary64::ratio(12, 100), Binary64::ratio(14, 100), Binary64::ratio(6, 100)),
        (panel_x - Binary64::ratio(6, 100), Binary64::ratio(2, 100), panel_centre_z + panel_height() * Binary64::ratio(55, 100)),
        (panel_x_moved - Binary64::ratio(6, 100), Binary64::ratio(2, 100), panel_centre_z_moved + panel_height() * Binary64::ratio(55, 100)),
        Rgb::thousandths(550, 550, 570),
        dx,
        dz,
    );
    lemma_part(
        "pilot seat back"@,
        (Binary64::ratio(6, 100), Binary64::ratio(44, 100), Binary64::ratio(55, 100)),
        (eye_x - Binary64::ratio(45, 100), pilot_seat_offset().negate(), eye_z + Binary64::ratio(30, 100)),
        (eye_x_moved - Binary64::ratio(45, 100), pilot_seat_offset().negate(), eye_z_moved + Binary64::ratio(30, 100)),
        Rgb::thousandths(240, 230, 220),
        dx,
        dz,
    );
    lemma_part(
        "copilot seat back"@,
        (Binary64::ratio(6, 100), Binary64::ratio(44, 100), Binary64::ratio(55, 100)),
        (eye_x - Binary64::ratio(45, 100), pilot_seat_offset(), eye_z + Binary64::ratio(30, 100)),
        (eye_x_moved - Binary64::ratio(45, 100), pilot_seat_offset(), eye_z_moved + Binary64::ratio(30, 100)),
        Rgb::thousandths(240, 230, 220),
        dx,
        dz,
    );
}

/// The rims of the instruments move with the eye.
proof fn lemma_six_pack_moves(eye: DVec3, moved: DVec3, dx: int, dz: int)
    requires
        near::sized(eye.x, 8),
        near::sized(eye.z, 8),
        near::sized(moved.x, 8),
        near::sized(moved.z, 8),
        moved.y == eye.y,
        dx == moved.x.value() - eye.x.value(),
        dz == moved.z.value() - eye.z.value(),
    ensures
        six_pack(eye).len() == 6,
        six_pack(moved).len() == 6,
        forall|i: int|
            0 <= i < 6 ==> went(#[trigger] six_pack(eye)[i], six_pack(moved)[i], dx, dz),
{
    lemma_forward(eye.x, moved.x);
    lemma_down(eye.z, moved.z);
    let pitch = instrument_diameter() * Binary64::ratio(112, 100);
    let (panel_x, panel_x_moved) = (eye.x + eye_to_panel(), moved.x + eye_to_panel());
    let (row_top, row_top_moved) = (
        eye.z + six_pack_drop() - pitch * Binary64::ratio(5, 10),
        moved.z + six_pack_drop() - pitch * Binary64::ratio(5, 10),
    );
    let (row_bottom, row_bottom_moved) = (
        eye.z + six_pack_drop() + pitch * Binary64::ratio(5, 10),
        moved.z + six_pack_drop() + pitch * Binary64::ratio(5, 10),
    );
    lemma_part(
        "bezel airspeed"@,
        (Binary64::ratio(12, 1_000), instrument_diameter(), instrument_diameter()),
        (panel_x - Binary64::ratio(3, 100), eye.y - pitch, row_top),
        (panel_x_moved - Binary64::ratio(3, 100), moved.y - pitch, row_top_moved),
        Rgb::thousandths(50, 50, 55),
        dx,
        dz,
    );
    lemma_part(
        "bezel attitude"@,
        (Binary64::ratio(12, 1_000), instrument_diameter(), instrument_diameter()),
        (panel_x - Binary64::ratio(3, 100), eye.y, row_top),
        (panel_x_moved - Binary64::ratio(3, 100), moved.y, row_top_moved),
        Rgb::thousandths(50, 50, 55),
        dx,
        dz,
    );
    lemma_part(
        "bezel altimeter"@,
        (Binary64::ratio(12, 1_000), instrument_diameter(), instrument_diameter()),
        (panel_x - Binary64::ratio(3, 100), eye.y + pitch, row_top),
        (panel_x_moved - Binary64::ratio(3, 100), moved.y + pitch, row_top_moved),
        Rgb::thousandths(50, 50, 55),
        dx,
        dz,
    );
    lemma_part(
        "bezel turn"@,
        (Binary64::ratio(12, 1_000), instrument_diameter(), instrument_diameter()),
        (panel_x - Binary64::ratio(3, 100), eye.y - pitch, row_bottom),
        (panel_x_moved - Binary64::ratio(3, 100), moved.y - pitch, row_bottom_moved),
        Rgb::thousandths(50, 50, 55),
        dx,
        dz,
    );
    lemma_part(
        "bezel heading"@,
        (Binary64::ratio(12, 1_000), instrument_diameter(), instrument_diameter()),
        (panel_x - Binary64::ratio(3, 100), eye.y, row_bottom),
        (panel_x_moved - Binary64::ratio(3, 100), moved.y, row_bottom_moved),
        Rgb::thousandths(50, 50, 55),
        dx,
        dz,
    );
    lemma_part(
        "bezel vertical speed"@,
        (Binary64::ratio(12, 1_000), instrument_diameter(), instrument_diameter()),
        (panel_x - Binary64::ratio(3, 100), eye.y + pitch, row_bottom),
        (panel_x_moved - Binary64::ratio(3, 100), moved.y + pitch, row_bottom_moved),
        Rgb::thousandths(50, 50, 55),
        dx,
        dz,
    );
}

/// Moving the eye forward or down moves the whole interior with it: every part
/// stays as it is and is as far from the eye as before, but for rounding.
pub proof fn moving_the_eye_moves_the_whole_interior_with_it(eye: DVec3, moved: DVec3)
    requires
        near::sized(eye.x, 8),
        near::sized(eye.z, 8),
        near::sized(moved.x, 8),
        near::sized(moved.z, 8),
        moved.y == eye.y,
    ensures
        (cabin(moved) + six_pack(moved)).len() == (cabin(eye) + six_pack(eye)).len(),
        forall|i: int|
            0 <= i < (cabin(eye) + six_pack(eye)).len() ==> moved_part(
                #[trigger] (cabin(eye) + six_pack(eye))[i],
                (cabin(moved) + six_pack(moved))[i],
                moved.x.value() - eye.x.value(),
                moved.z.value() - eye.z.value(),
            ),
{
    let (dx, dz) = (moved.x.value() - eye.x.value(), moved.z.value() - eye.z.value());
    lemma_cabin_moves(eye, moved, dx, dz);
    lemma_six_pack_moves(eye, moved, dx, dz);
    let (a, b) = (cabin(eye), cabin(moved));
    let (c, d) = (six_pack(eye), six_pack(moved));
    assert forall|i: int| 0 <= i < (a + c).len() implies moved_part(
        #[trigger] (a + c)[i],
        (b + d)[i],
        dx,
        dz,
    ) by {
        reveal(went);
        if i < 15 {
            assert(went(a[i], b[i], dx, dz));
        } else {
            assert(went(c[i - 15], d[i - 15], dx, dz));
        }
    }
}

} // verus!
