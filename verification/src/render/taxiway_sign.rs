//! The sign beside a holding position: the taxiway in yellow on black, the
//! runway in white on red.
//!
//! Letters are drawn from a bitmap of three by five. A character without one
//! is never replaced by another, which could be misread: the sign is left out.
use crate::binary64;
use crate::binary64::Binary64;
use crate::near;
use crate::render::facing;
use crate::render::mesh;
use crate::render::mesh::{MeshView, TriangleMesh};
use crate::render::surface::{Bearing, Geodetic, LinearColor, Rgb};
use vstd::arithmetic::power2::*;
use vstd::prelude::*;

verus! {

/// The longest text on one panel.
pub const MAX_SIGN_REF_CHARS: usize = 8;

/// Why a sign could not be drawn.
#[derive(Clone, Copy, PartialEq, Eq, Debug, Structural)]
pub enum TaxiwaySignMeshError {
    InvalidPosition,
    InvalidFacing,
    AllocationFailed,
    TooComplex,
}

impl TaxiwaySignMeshError {
    pub open spec fn spec_message(self) -> Seq<char> {
        match self {
            TaxiwaySignMeshError::InvalidPosition => "taxiway sign position is invalid"@,
            TaxiwaySignMeshError::InvalidFacing => "taxiway sign facing is invalid"@,
            TaxiwaySignMeshError::AllocationFailed => "could not allocate taxiway sign mesh"@,
            TaxiwaySignMeshError::TooComplex => "taxiway sign exceeds the mesh limit"@,
        }
    }

    /// The error in words.
    pub fn message(self) -> (r: &'static str)
        ensures
            r@ == self.spec_message(),
    {
        match self {
            TaxiwaySignMeshError::InvalidPosition => "taxiway sign position is invalid",
            TaxiwaySignMeshError::InvalidFacing => "taxiway sign facing is invalid",
            TaxiwaySignMeshError::AllocationFailed => "could not allocate taxiway sign mesh",
            TaxiwaySignMeshError::TooComplex => "taxiway sign exceeds the mesh limit",
        }
    }
}

/// A letter's rows from the top; the low three bits of each are its pixels from
/// the left.
#[derive(Clone, Copy, PartialEq, Eq, Debug, Structural)]
pub struct Glyph {
    pub row0: u8,
    pub row1: u8,
    pub row2: u8,
    pub row3: u8,
    pub row4: u8,
}

impl Glyph {
    pub open spec fn spec_new(row0: u8, row1: u8, row2: u8, row3: u8, row4: u8) -> Glyph {
        Glyph { row0, row1, row2, row3, row4 }
    }

    #[verifier::when_used_as_spec(spec_new)]
    fn new(row0: u8, row1: u8, row2: u8, row3: u8, row4: u8) -> (r: Glyph)
        ensures
            r == Glyph::spec_new(row0, row1, row2, row3, row4),
    {
        Glyph { row0, row1, row2, row3, row4 }
    }

    pub open spec fn spec_row(self, i: u32) -> u8 {
        if i == 0 {
            self.row0
        } else if i == 1 {
            self.row1
        } else if i == 2 {
            self.row2
        } else if i == 3 {
            self.row3
        } else {
            self.row4
        }
    }

    /// A row, the top one being row zero.
    #[verifier::when_used_as_spec(spec_row)]
    pub fn row(self, i: u32) -> (r: u8)
        ensures
            r == self.row(i),
    {
        if i == 0 {
            self.row0
        } else if i == 1 {
            self.row1
        } else if i == 2 {
            self.row2
        } else if i == 3 {
            self.row3
        } else {
            self.row4
        }
    }

    /// Whether the pixel in a row and column is lit.
    pub open spec fn spec_lit(self, row: u32, column: u32) -> bool {
        if column == 0 {
            (self.row(row) / 4) % 2 == 1
        } else if column == 1 {
            (self.row(row) / 2) % 2 == 1
        } else {
            self.row(row) % 2 == 1
        }
    }

    /// Whether the pixel in a row and column is lit.
    #[verifier::when_used_as_spec(spec_lit)]
    pub fn lit(self, row: u32, column: u32) -> (r: bool)
        ensures
            r == self.lit(row, column),
    {
        if column == 0 {
            (self.row(row) / 4) % 2 == 1
        } else if column == 1 {
            (self.row(row) / 2) % 2 == 1
        } else {
            self.row(row) % 2 == 1
        }
    }
}

/// The bitmap of a character, where there is one: digits, capitals, hyphen,
/// slash and space.
pub open spec fn spec_glyph(byte: u8) -> Option<Glyph> {
    if byte == 0x30 {
        // 0
        Some(Glyph::spec_new(0b111, 0b101, 0b101, 0b101, 0b111))
    } else if byte == 0x31 {
        // 1
        Some(Glyph::spec_new(0b010, 0b110, 0b010, 0b010, 0b111))
    } else if byte == 0x32 {
        // 2
        Some(Glyph::spec_new(0b111, 0b001, 0b111, 0b100, 0b111))
    } else if byte == 0x33 {
        // 3
        Some(Glyph::spec_new(0b111, 0b001, 0b111, 0b001, 0b111))
    } else if byte == 0x34 {
        // 4
        Some(Glyph::spec_new(0b101, 0b101, 0b111, 0b001, 0b001))
    } else if byte == 0x35 {
        // 5
        Some(Glyph::spec_new(0b111, 0b100, 0b111, 0b001, 0b111))
    } else if byte == 0x36 {
        // 6
        Some(Glyph::spec_new(0b111, 0b100, 0b111, 0b101, 0b111))
    } else if byte == 0x37 {
        // 7
        Some(Glyph::spec_new(0b111, 0b001, 0b010, 0b010, 0b010))
    } else if byte == 0x38 {
        // 8
        Some(Glyph::spec_new(0b111, 0b101, 0b111, 0b101, 0b111))
    } else if byte == 0x39 {
        // 9
        Some(Glyph::spec_new(0b111, 0b101, 0b111, 0b001, 0b111))
    } else if byte == 0x41 {
        // A
        Some(Glyph::spec_new(0b010, 0b101, 0b111, 0b101, 0b101))
    } else if byte == 0x42 {
        // B
        Some(Glyph::spec_new(0b110, 0b101, 0b110, 0b101, 0b110))
    } else if byte == 0x43 {
        // C
        Some(Glyph::spec_new(0b111, 0b100, 0b100, 0b100, 0b111))
    } else if byte == 0x44 {
        // D
        Some(Glyph::spec_new(0b110, 0b101, 0b101, 0b101, 0b110))
    } else if byte == 0x45 {
        // E
        Some(Glyph::spec_new(0b111, 0b100, 0b110, 0b100, 0b111))
    } else if byte == 0x46 {
        // F
        Some(Glyph::spec_new(0b111, 0b100, 0b110, 0b100, 0b100))
    } else if byte == 0x47 {
        // G
        Some(Glyph::spec_new(0b111, 0b100, 0b101, 0b101, 0b111))
    } else if byte == 0x48 {
        // H
        Some(Glyph::spec_new(0b101, 0b101, 0b111, 0b101, 0b101))
    } else if byte == 0x49 {
        // I
        Some(Glyph::spec_new(0b111, 0b010, 0b010, 0b010, 0b111))
    } else if byte == 0x4a {
        // J
        Some(Glyph::spec_new(0b001, 0b001, 0b001, 0b101, 0b111))
    } else if byte == 0x4b {
        // K
        Some(Glyph::spec_new(0b101, 0b101, 0b110, 0b101, 0b101))
    } else if byte == 0x4c {
        // L
        Some(Glyph::spec_new(0b100, 0b100, 0b100, 0b100, 0b111))
    } else if byte == 0x4d {
        // M
        Some(Glyph::spec_new(0b101, 0b111, 0b111, 0b101, 0b101))
    } else if byte == 0x4e {
        // N
        Some(Glyph::spec_new(0b101, 0b111, 0b111, 0b111, 0b101))
    } else if byte == 0x4f {
        // O
        Some(Glyph::spec_new(0b111, 0b101, 0b101, 0b101, 0b111))
    } else if byte == 0x50 {
        // P
        Some(Glyph::spec_new(0b111, 0b101, 0b111, 0b100, 0b100))
    } else if byte == 0x51 {
        // Q
        Some(Glyph::spec_new(0b111, 0b101, 0b101, 0b111, 0b001))
    } else if byte == 0x52 {
        // R
        Some(Glyph::spec_new(0b110, 0b101, 0b110, 0b101, 0b101))
    } else if byte == 0x53 {
        // S
        Some(Glyph::spec_new(0b111, 0b100, 0b111, 0b001, 0b111))
    } else if byte == 0x54 {
        // T
        Some(Glyph::spec_new(0b111, 0b010, 0b010, 0b010, 0b010))
    } else if byte == 0x55 {
        // U
        Some(Glyph::spec_new(0b101, 0b101, 0b101, 0b101, 0b111))
    } else if byte == 0x56 {
        // V
        Some(Glyph::spec_new(0b101, 0b101, 0b101, 0b101, 0b010))
    } else if byte == 0x57 {
        // W
        Some(Glyph::spec_new(0b101, 0b101, 0b111, 0b111, 0b101))
    } else if byte == 0x58 {
        // X
        Some(Glyph::spec_new(0b101, 0b101, 0b010, 0b101, 0b101))
    } else if byte == 0x59 {
        // Y
        Some(Glyph::spec_new(0b101, 0b101, 0b010, 0b010, 0b010))
    } else if byte == 0x5a {
        // Z
        Some(Glyph::spec_new(0b111, 0b001, 0b010, 0b100, 0b111))
    } else if byte == 0x2d {
        // -
        Some(Glyph::spec_new(0b000, 0b000, 0b111, 0b000, 0b000))
    } else if byte == 0x2f {
        // /
        Some(Glyph::spec_new(0b001, 0b001, 0b010, 0b100, 0b100))
    } else if byte == 0x20 {
        // space
        Some(Glyph::spec_new(0b000, 0b000, 0b000, 0b000, 0b000))
    } else {
        None
    }
}

/// The bitmap of a character, where there is one.
#[verifier::when_used_as_spec(spec_glyph)]
pub fn glyph(byte: u8) -> (r: Option<Glyph>)
    ensures
        r == glyph(byte),
{
    if byte == 0x30 {
        // 0
        Some(Glyph::new(0b111, 0b101, 0b101, 0b101, 0b111))
    } else if byte == 0x31 {
        // 1
        Some(Glyph::new(0b010, 0b110, 0b010, 0b010, 0b111))
    } else if byte == 0x32 {
        // 2
        Some(Glyph::new(0b111, 0b001, 0b111, 0b100, 0b111))
    } else if byte == 0x33 {
        // 3
        Some(Glyph::new(0b111, 0b001, 0b111, 0b001, 0b111))
    } else if byte == 0x34 {
        // 4
        Some(Glyph::new(0b101, 0b101, 0b111, 0b001, 0b001))
    } else if byte == 0x35 {
        // 5
        Some(Glyph::new(0b111, 0b100, 0b111, 0b001, 0b111))
    } else if byte == 0x36 {
        // 6
        Some(Glyph::new(0b111, 0b100, 0b111, 0b101, 0b111))
    } else if byte == 0x37 {
        // 7
        Some(Glyph::new(0b111, 0b001, 0b010, 0b010, 0b010))
    } else if byte == 0x38 {
        // 8
        Some(Glyph::new(0b111, 0b101, 0b111, 0b101, 0b111))
    } else if byte == 0x39 {
        // 9
        Some(Glyph::new(0b111, 0b101, 0b111, 0b001, 0b111))
    } else if byte == 0x41 {
        // A
        Some(Glyph::new(0b010, 0b101, 0b111, 0b101, 0b101))
    } else if byte == 0x42 {
        // B
        Some(Glyph::new(0b110, 0b101, 0b110, 0b101, 0b110))
    } else if byte == 0x43 {
        // C
        Some(Glyph::new(0b111, 0b100, 0b100, 0b100, 0b111))
    } else if byte == 0x44 {
        // D
        Some(Glyph::new(0b110, 0b101, 0b101, 0b101, 0b110))
    } else if byte == 0x45 {
        // E
        Some(Glyph::new(0b111, 0b100, 0b110, 0b100, 0b111))
    } else if byte == 0x46 {
        // F
        Some(Glyph::new(0b111, 0b100, 0b110, 0b100, 0b100))
    } else if byte == 0x47 {
        // G
        Some(Glyph::new(0b111, 0b100, 0b101, 0b101, 0b111))
    } else if byte == 0x48 {
        // H
        Some(Glyph::new(0b101, 0b101, 0b111, 0b101, 0b101))
    } else if byte == 0x49 {
        // I
        Some(Glyph::new(0b111, 0b010, 0b010, 0b010, 0b111))
    } else if byte == 0x4a {
        // J
        Some(Glyph::new(0b001, 0b001, 0b001, 0b101, 0b111))
    } else if byte == 0x4b {
        // K
        Some(Glyph::new(0b101, 0b101, 0b110, 0b101, 0b101))
    } else if byte == 0x4c {
        // L
        Some(Glyph::new(0b100, 0b100, 0b100, 0b100, 0b111))
    } else if byte == 0x4d {
        // M
        Some(Glyph::new(0b101, 0b111, 0b111, 0b101, 0b101))
    } else if byte == 0x4e {
        // N
        Some(Glyph::new(0b101, 0b111, 0b111, 0b111, 0b101))
    } else if byte == 0x4f {
        // O
        Some(Glyph::new(0b111, 0b101, 0b101, 0b101, 0b111))
    } else if byte == 0x50 {
        // P
        Some(Glyph::new(0b111, 0b101, 0b111, 0b100, 0b100))
    } else if byte == 0x51 {
        // Q
        Some(Glyph::new(0b111, 0b101, 0b101, 0b111, 0b001))
    } else if byte == 0x52 {
        // R
        Some(Glyph::new(0b110, 0b101, 0b110, 0b101, 0b101))
    } else if byte == 0x53 {
        // S
        Some(Glyph::new(0b111, 0b100, 0b111, 0b001, 0b111))
    } else if byte == 0x54 {
        // T
        Some(Glyph::new(0b111, 0b010, 0b010, 0b010, 0b010))
    } else if byte == 0x55 {
        // U
        Some(Glyph::new(0b101, 0b101, 0b101, 0b101, 0b111))
    } else if byte == 0x56 {
        // V
        Some(Glyph::new(0b101, 0b101, 0b101, 0b101, 0b010))
    } else if byte == 0x57 {
        // W
        Some(Glyph::new(0b101, 0b101, 0b111, 0b111, 0b101))
    } else if byte == 0x58 {
        // X
        Some(Glyph::new(0b101, 0b101, 0b010, 0b101, 0b101))
    } else if byte == 0x59 {
        // Y
        Some(Glyph::new(0b101, 0b101, 0b010, 0b010, 0b010))
    } else if byte == 0x5a {
        // Z
        Some(Glyph::new(0b111, 0b001, 0b010, 0b100, 0b111))
    } else if byte == 0x2d {
        // -
        Some(Glyph::new(0b000, 0b000, 0b111, 0b000, 0b000))
    } else if byte == 0x2f {
        // /
        Some(Glyph::new(0b001, 0b001, 0b010, 0b100, 0b100))
    } else if byte == 0x20 {
        // space
        Some(Glyph::new(0b000, 0b000, 0b000, 0b000, 0b000))
    } else {
        None
    }
}

/// Every bitmap fits its three columns.
pub proof fn all_glyphs_fit_the_bitmap(byte: u8, row: u32)
    requires
        glyph(byte) is Some,
    ensures
        glyph(byte)->0.row(row) <= 7,
{
}

/// A text that can be shown: from one to eight characters, each with a bitmap.
pub open spec fn supported(text: Seq<char>) -> bool {
    &&& 1 <= text.len() <= MAX_SIGN_REF_CHARS
    &&& vstd::utf8::is_ascii_chars(text)
    &&& forall|i: int| 0 <= i < text.len() ==> glyph((#[trigger] text[i]) as u8) is Some
}

/// The text's characters as bytes.
pub open spec fn bytes_of(text: Seq<char>) -> Seq<u8> {
    Seq::new(text.len(), |i: int| text[i] as u8)
}

/// The bytes of a text that can be shown.
fn validated_ref(value: &str) -> (r: Option<&[u8]>)
    ensures
        r is Some <==> supported(value@),
        r is Some ==> r->0@ == bytes_of(value@),
{
    if value.is_empty() || !value.is_ascii() {
        return None;
    }
    let bytes = value.as_bytes();
    proof {
        vstd::string::is_ascii_spec_bytes(value);
    }
    assert(bytes@ =~= bytes_of(value@));
    if bytes.len() > MAX_SIGN_REF_CHARS {
        return None;
    }
    let mut i: usize = 0;
    while i < bytes.len()
        invariant
            i <= bytes@.len(),
            bytes@ == bytes_of(value@),
            1 <= value@.len() <= MAX_SIGN_REF_CHARS,
            vstd::utf8::is_ascii_chars(value@),
            forall|j: int| 0 <= j < i ==> glyph((#[trigger] value@[j]) as u8) is Some,
        decreases bytes@.len() - i,
    {
        assert(bytes@[i as int] == value@[i as int] as u8);
        if glyph(bytes[i]).is_none() {
            return None;
        }
        i = i + 1;
    }
    Some(bytes)
}

/// A rectangle in the plane of the sign: metres to the reader's right of its
/// middle, above the ground, and in front of its face.
#[derive(Clone, Copy, PartialEq, Eq, Debug, Structural)]
pub struct SignRect {
    pub left: Binary64,
    pub right: Binary64,
    pub bottom: Binary64,
    pub top: Binary64,
    pub depth: Binary64,
    pub color: Rgb,
}

/// A corner to be placed: metres north and east of the sign, at an altitude.
#[derive(Clone, Copy, PartialEq, Eq, Debug, Structural)]
pub struct SignVertex {
    pub north: Binary64,
    pub east: Binary64,
    pub altitude: Binary64,
    pub color: LinearColor,
}

/// One cell of the letter grid.
pub open spec fn cell() -> Binary64 {
    Binary64::ratio(12, 100)
}

/// The lower edge of the panels.
pub open spec fn board_bottom() -> Binary64 {
    Binary64::ratio(48, 100)
}

/// The height of the panels.
pub open spec fn board_height() -> Binary64 {
    Binary64::ratio(92, 100)
}

/// The space beside the text on a panel.
pub open spec fn padding() -> Binary64 {
    Binary64::ratio(14, 100)
}

/// The space between the panels.
pub open spec fn panel_gap() -> Binary64 {
    Binary64::ratio(5, 100)
}

/// The width of a panel for so many characters.
pub open spec fn spec_panel_width(characters: i64) -> Binary64 {
    ((Binary64::of(characters) * Binary64::of(3)) * Binary64::ratio(12, 100) + Binary64::of(
        if characters > 0 {
            (characters - 1) as i64
        } else {
            0
        },
    ) * Binary64::ratio(12, 100)) + Binary64::ratio(14, 100) * Binary64::of(2)
}

/// The width of a panel for so many characters.
#[verifier::when_used_as_spec(spec_panel_width)]
pub fn panel_width(characters: i64) -> (r: Binary64)
    ensures
        r == panel_width(characters),
{
    let gaps: i64 = if characters > 0 {
        characters - 1
    } else {
        0
    };
    ((Binary64::of(characters) * Binary64::of(3)) * Binary64::ratio(12, 100) + Binary64::of(gaps)
        * Binary64::ratio(12, 100)) + Binary64::ratio(14, 100) * Binary64::of(2)
}

/// The lower edge of the text.
pub open spec fn text_bottom() -> Binary64 {
    board_bottom() + (board_height() - Binary64::of(5) * cell()) * Binary64::ratio(1, 2)
}

/// The left edge of the `i`th character of a panel's text.
pub open spec fn character_left(panel_left: Binary64, i: int) -> Binary64
    decreases i,
{
    if i <= 0 {
        panel_left + padding()
    } else {
        character_left(panel_left, i - 1) + (Binary64::of(3) + Binary64::of(1)) * cell()
    }
}

/// The square of the pixel in place `i` of a letter, counted along the rows
/// from the top left.
pub open spec fn pixel_rect(left: Binary64, i: int, color: Rgb) -> SignRect {
    let x = left + Binary64::of((i % 3) as i64) * cell();
    let y = text_bottom() + Binary64::of((4 - i / 3) as i64) * cell();
    SignRect {
        left: x,
        right: x + Binary64::ratio(95, 1000),
        bottom: y,
        top: y + Binary64::ratio(95, 1000),
        depth: Binary64::ratio(18, 1000),
        color,
    }
}

/// The squares of the lit pixels among the first `n` of a letter.
pub open spec fn glyph_rects(g: Glyph, left: Binary64, color: Rgb, n: int) -> Seq<SignRect>
    decreases n,
{
    if n <= 0 {
        Seq::empty()
    } else {
        let before = glyph_rects(g, left, color, n - 1);
        if g.lit(((n - 1) / 3) as u32, ((n - 1) % 3) as u32) {
            before.push(pixel_rect(left, n - 1, color))
        } else {
            before
        }
    }
}

/// The squares of the first `k` letters of a text.
pub open spec fn text_rects(text: Seq<u8>, panel_left: Binary64, color: Rgb, k: int) -> Seq<
    SignRect,
>
    decreases k,
{
    if k <= 0 {
        Seq::empty()
    } else {
        text_rects(text, panel_left, color, k - 1) + glyph_rects(
            glyph(text[k - 1])->0,
            character_left(panel_left, k - 1),
            color,
            15,
        )
    }
}

/// One of the two posts, behind the face of the sign.
pub open spec fn post(x: Binary64) -> SignRect {
    SignRect {
        left: x - Binary64::ratio(35, 1000),
        right: x + Binary64::ratio(35, 1000),
        bottom: Binary64::ratio(4, 100),
        top: board_bottom() + Binary64::ratio(8, 100),
        depth: Binary64::ratio(12, 1000).negate(),
        color: Rgb::thousandths(220, 220, 200),
    }
}

/// A panel.
pub open spec fn panel(left: Binary64, width: Binary64, color: Rgb) -> SignRect {
    SignRect {
        left,
        right: left + width,
        bottom: board_bottom(),
        top: board_bottom() + board_height(),
        depth: Binary64::of(0),
        color,
    }
}

/// The whole sign: posts, panels, then both texts.
pub open spec fn sign_rects(taxiway: Seq<u8>, holding: Seq<u8>) -> Seq<SignRect> {
    let taxi_width = panel_width(taxiway.len() as i64);
    let hold_width = panel_width(holding.len() as i64);
    let total = (taxi_width + panel_gap()) + hold_width;
    let taxi_left = total.negate() * Binary64::ratio(1, 2);
    let hold_left = (taxi_left + taxi_width) + panel_gap();
    seq![
        post(total.negate() * Binary64::ratio(32, 100)),
        post(total * Binary64::ratio(32, 100)),
        panel(taxi_left, taxi_width, Rgb::thousandths(15, 15, 12)),
        panel(hold_left, hold_width, Rgb::thousandths(660, 15, 20)),
    ] + text_rects(taxiway, taxi_left, Rgb::thousandths(1000, 720, 30), taxiway.len() as int)
        + text_rects(holding, hold_left, Rgb::thousandths(1000, 980, 930), holding.len() as int)
}

/// How many pixels are lit among the first `n` of a letter.
pub open spec fn lit_pixels(g: Glyph, n: int) -> nat
    decreases n,
{
    if n <= 0 {
        0
    } else {
        lit_pixels(g, n - 1) + if g.lit(((n - 1) / 3) as u32, ((n - 1) % 3) as u32) {
            1nat
        } else {
            0nat
        }
    }
}

/// How many pixels are lit among the first `k` letters of a text.
pub open spec fn lit_in_text(text: Seq<u8>, k: int) -> nat
    decreases k,
{
    if k <= 0 {
        0
    } else {
        lit_in_text(text, k - 1) + lit_pixels(glyph(text[k - 1])->0, 15)
    }
}

/// One square for each lit pixel.
pub proof fn one_square_for_each_lit_pixel(
    text: Seq<u8>,
    panel_left: Binary64,
    color: Rgb,
    k: int,
)
    requires
        0 <= k,
    ensures
        text_rects(text, panel_left, color, k).len() == lit_in_text(text, k) <= 15 * k,
    decreases k,
{
    if k > 0 {
        one_square_for_each_lit_pixel(text, panel_left, color, k - 1);
        lemma_glyph_rects(
            glyph(text[k - 1])->0,
            character_left(panel_left, k - 1),
            color,
            15,
        );
    }
}

proof fn lemma_glyph_rects(g: Glyph, left: Binary64, color: Rgb, n: int)
    requires
        0 <= n,
    ensures
        glyph_rects(g, left, color, n).len() == lit_pixels(g, n) <= n,
    decreases n,
{
    if n > 0 {
        lemma_glyph_rects(g, left, color, n - 1);
    }
}

/// A sign has two posts, two panels and a square for each lit pixel: 244
/// rectangles at most.
pub proof fn a_sign_is_posts_panels_and_pixels(taxiway: Seq<u8>, holding: Seq<u8>)
    requires
        taxiway.len() <= MAX_SIGN_REF_CHARS,
        holding.len() <= MAX_SIGN_REF_CHARS,
    ensures
        sign_rects(taxiway, holding).len() == 4 + lit_in_text(taxiway, taxiway.len() as int)
            + lit_in_text(holding, holding.len() as int),
        sign_rects(taxiway, holding).len() <= 244,
{
    let taxi_width = panel_width(taxiway.len() as i64);
    let hold_width = panel_width(holding.len() as i64);
    let total = (taxi_width + panel_gap()) + hold_width;
    let taxi_left = total.negate() * Binary64::ratio(1, 2);
    let hold_left = (taxi_left + taxi_width) + panel_gap();
    one_square_for_each_lit_pixel(
        taxiway,
        taxi_left,
        Rgb::thousandths(1000, 720, 30),
        taxiway.len() as int,
    );
    one_square_for_each_lit_pixel(
        holding,
        hold_left,
        Rgb::thousandths(1000, 980, 930),
        holding.len() as int,
    );
}

/// A corner of the sign. Who reads it looks against the way that it faces, so
/// their right is to the left of that way.
pub open spec fn sign_point(
    position: Geodetic,
    facing: Bearing,
    right: Binary64,
    up: Binary64,
    forward: Binary64,
    color: Rgb,
) -> SignVertex {
    SignVertex {
        north: facing.north(forward, right.negate()),
        east: facing.east(forward, right.negate()),
        altitude: position.altitude + up,
        color: color.linear(),
    }
}

/// A mesh with one more rectangle: around from the lower left.
pub open spec fn with_rect(
    m: MeshView<SignVertex>,
    position: Geodetic,
    facing: Bearing,
    r: SignRect,
) -> MeshView<SignVertex> {
    m.with_quad(
        sign_point(position, facing, r.left, r.bottom, r.depth, r.color),
        sign_point(position, facing, r.right, r.bottom, r.depth, r.color),
        sign_point(position, facing, r.right, r.top, r.depth, r.color),
        sign_point(position, facing, r.left, r.top, r.depth, r.color),
        false,
    )
}

/// The mesh of rectangles, in order.
pub open spec fn rects_mesh(position: Geodetic, facing: Bearing, rects: Seq<SignRect>) -> MeshView<
    SignVertex,
>
    decreases rects.len(),
{
    if rects.len() == 0 {
        MeshView::empty()
    } else {
        with_rect(
            rects_mesh(position, facing, rects.drop_last()),
            position,
            facing,
            rects.last(),
        )
    }
}

/// Every rectangle is four vertices and two triangles of a well-formed mesh.
pub proof fn sign_meshes_are_well_formed(
    position: Geodetic,
    facing: Bearing,
    rects: Seq<SignRect>,
)
    ensures
        rects_mesh(position, facing, rects).well_formed(),
        rects_mesh(position, facing, rects).vertices.len() == 4 * rects.len(),
        rects_mesh(position, facing, rects).indices.len() == 6 * rects.len(),
    decreases rects.len(),
{
    if rects.len() > 0 {
        sign_meshes_are_well_formed(position, facing, rects.drop_last());
        let r = rects.last();
        mesh::adding_keeps_meshes_well_formed(
            rects_mesh(position, facing, rects.drop_last()),
            sign_point(position, facing, r.left, r.bottom, r.depth, r.color),
            sign_point(position, facing, r.right, r.bottom, r.depth, r.color),
            sign_point(position, facing, r.right, r.top, r.depth, r.color),
            sign_point(position, facing, r.left, r.top, r.depth, r.color),
            false,
            Seq::empty(),
        );
    }
}

/// The squares of a text's lit pixels.
fn push_text(rects: &mut Vec<SignRect>, panel_left: Binary64, text: &[u8], color: Rgb)
    requires
        text@.len() <= MAX_SIGN_REF_CHARS,
        forall|i: int| 0 <= i < text@.len() ==> glyph(#[trigger] text@[i]) is Some,
    ensures
        final(rects)@ == old(rects)@ + text_rects(text@, panel_left, color, text@.len() as int),
{
    let cell = Binary64::ratio(12, 100);
    let bottom = Binary64::ratio(48, 100) + (Binary64::ratio(92, 100) - Binary64::of(5) * cell)
        * Binary64::ratio(1, 2);
    let pixel = Binary64::ratio(95, 1000);
    let lift = Binary64::ratio(18, 1000);
    let ghost before = rects@;
    let mut left = panel_left + Binary64::ratio(14, 100);
    let mut k: usize = 0;
    assert(before + text_rects(text@, panel_left, color, 0) =~= before);
    while k < text.len()
        invariant
            k <= text@.len(),
            forall|i: int| 0 <= i < text@.len() ==> glyph(#[trigger] text@[i]) is Some,
            cell == crate::render::taxiway_sign::cell(),
            bottom == text_bottom(),
            pixel == Binary64::ratio(95, 1000),
            lift == Binary64::ratio(18, 1000),
            left == character_left(panel_left, k as int),
            rects@ == before + text_rects(text@, panel_left, color, k as int),
        decreases text@.len() - k,
    {
        if let Some(g) = glyph(text[k]) {
            let ghost so_far = rects@;
            let mut n: u32 = 0;
            assert(so_far + glyph_rects(g, left, color, 0) =~= so_far);
            while n < 15
                invariant
                    n <= 15,
                    cell == crate::render::taxiway_sign::cell(),
                    bottom == text_bottom(),
                    pixel == Binary64::ratio(95, 1000),
                    lift == Binary64::ratio(18, 1000),
                    rects@ == so_far + glyph_rects(g, left, color, n as int),
                decreases 15 - n,
            {
                let row: u32 = n / 3;
                let column: u32 = n % 3;
                if g.lit(row, column) {
                    let x = left + Binary64::of(column as i64) * cell;
                    let y = bottom + Binary64::of(4 - row as i64) * cell;
                    let rect = SignRect {
                        left: x,
                        right: x + pixel,
                        bottom: y,
                        top: y + pixel,
                        depth: lift,
                        color,
                    };
                    assert(rect == pixel_rect(left, n as int, color));
                    rects.push(rect);
                }
                n = n + 1;
                assert(rects@ =~= so_far + glyph_rects(g, left, color, n as int));
            }
            assert(rects@ =~= before + text_rects(text@, panel_left, color, k + 1));
        }
        left = left + (Binary64::of(3) + Binary64::of(1)) * cell;
        k = k + 1;
    }
}

/// The sign drawn, and the place it is drawn from.
#[derive(Debug)]
pub struct SignPlan {
    pub mesh: TriangleMesh<SignVertex>,
    pub origin: Geodetic,
}

/// Draws the sign for a taxiway and a runway.
///
/// `facing` is the true bearing of the sign's face, `bearing` its sine and
/// cosine. A text that is empty, longer than eight characters or not made of
/// the letters that there are leaves the sign out.
pub fn holding_position_sign_mesh(
    position: Geodetic,
    facing: Binary64,
    bearing: Bearing,
    taxiway_ref: &str,
    holding_ref: &str,
) -> (r: Result<Option<SignPlan>, TaxiwaySignMeshError>)
    ensures
        r == Err::<Option<SignPlan>, TaxiwaySignMeshError>(TaxiwaySignMeshError::InvalidPosition)
            <==> !position.valid_point(),
        r == Err::<Option<SignPlan>, TaxiwaySignMeshError>(TaxiwaySignMeshError::InvalidFacing)
            <==> position.valid_point() && !facing.is_finite(),
        r is Err ==> !position.valid_point() || !facing.is_finite(),
        r is Ok ==> (r->Ok_0 is Some <==> supported(taxiway_ref@) && supported(holding_ref@)),
        (r is Ok && r->Ok_0 is Some) ==> r->Ok_0->0.mesh@ == rects_mesh(
            position,
            bearing,
            sign_rects(bytes_of(taxiway_ref@), bytes_of(holding_ref@)),
        ) && r->Ok_0->0.origin == position.lifted(Binary64::ratio(4, 100)),
{
    if !position.valid_point() {
        return Err(TaxiwaySignMeshError::InvalidPosition);
    }
    if !facing.is_finite() {
        return Err(TaxiwaySignMeshError::InvalidFacing);
    }
    let taxiway: &[u8] = match validated_ref(taxiway_ref) {
        Some(bytes) => bytes,
        None => {
            return Ok(None);
        },
    };
    let holding: &[u8] = match validated_ref(holding_ref) {
        Some(bytes) => bytes,
        None => {
            return Ok(None);
        },
    };
    assert(forall|i: int|
        0 <= i < taxiway@.len() ==> glyph(#[trigger] taxiway@[i]) is Some) by {
        assert forall|i: int| 0 <= i < taxiway@.len() implies glyph(
            #[trigger] taxiway@[i],
        ) is Some by {
            assert(taxiway@[i] == taxiway_ref@[i] as u8);
        }
    }
    assert(forall|i: int|
        0 <= i < holding@.len() ==> glyph(#[trigger] holding@[i]) is Some) by {
        assert forall|i: int| 0 <= i < holding@.len() implies glyph(
            #[trigger] holding@[i],
        ) is Some by {
            assert(holding@[i] == holding_ref@[i] as u8);
        }
    }
    let gap = Binary64::ratio(5, 100);
    let half = Binary64::ratio(1, 2);
    let taxi_width = panel_width(taxiway.len() as i64);
    let hold_width = panel_width(holding.len() as i64);
    let total = (taxi_width + gap) + hold_width;
    let taxi_left = total.negate() * half;
    let hold_left = (taxi_left + taxi_width) + gap;
    let mut rects: Vec<SignRect> = Vec::new();
    push_post(&mut rects, total.negate() * Binary64::ratio(32, 100));
    push_post(&mut rects, total * Binary64::ratio(32, 100));
    push_panel(&mut rects, taxi_left, taxi_width, Rgb::thousandths(15, 15, 12));
    push_panel(&mut rects, hold_left, hold_width, Rgb::thousandths(660, 15, 20));
    push_text(&mut rects, taxi_left, taxiway, Rgb::thousandths(1000, 720, 30));
    push_text(&mut rects, hold_left, holding, Rgb::thousandths(1000, 980, 930));
    assert(rects@ =~= sign_rects(bytes_of(taxiway_ref@), bytes_of(holding_ref@)));
    proof {
        a_sign_is_posts_panels_and_pixels(taxiway@, holding@);
    }
    let mesh = draw_rects(position, bearing, &rects);
    let origin = position.lifted(Binary64::ratio(4, 100));
    Ok(Some(SignPlan { mesh, origin }))
}

fn push_post(rects: &mut Vec<SignRect>, x: Binary64)
    ensures
        final(rects)@ == old(rects)@.push(post(x)),
{
    rects.push(
        SignRect {
            left: x - Binary64::ratio(35, 1000),
            right: x + Binary64::ratio(35, 1000),
            bottom: Binary64::ratio(4, 100),
            top: Binary64::ratio(48, 100) + Binary64::ratio(8, 100),
            depth: Binary64::ratio(12, 1000).negate(),
            color: Rgb::thousandths(220, 220, 200),
        },
    );
}

fn push_panel(rects: &mut Vec<SignRect>, left: Binary64, width: Binary64, color: Rgb)
    ensures
        final(rects)@ == old(rects)@.push(panel(left, width, color)),
{
    rects.push(
        SignRect {
            left,
            right: left + width,
            bottom: Binary64::ratio(48, 100),
            top: Binary64::ratio(48, 100) + Binary64::ratio(92, 100),
            depth: Binary64::of(0),
            color,
        },
    );
}

fn place(
    position: Geodetic,
    facing: Bearing,
    right: Binary64,
    up: Binary64,
    forward: Binary64,
    color: Rgb,
) -> (r: SignVertex)
    ensures
        r == sign_point(position, facing, right, up, forward, color),
{
    SignVertex {
        north: facing.north(forward, right.negate()),
        east: facing.east(forward, right.negate()),
        altitude: position.altitude + up,
        color: color.linear(),
    }
}

/// Draws rectangles in order.
fn draw_rects(position: Geodetic, facing: Bearing, rects: &Vec<SignRect>) -> (r: TriangleMesh<
    SignVertex,
>)
    requires
        rects@.len() <= 244,
    ensures
        r@ == rects_mesh(position, facing, rects@),
{
    let mut out: TriangleMesh<SignVertex> = TriangleMesh::new();
    let mut k: usize = 0;
    assert(rects@.take(0) =~= Seq::<SignRect>::empty());
    while k < rects.len()
        invariant
            k <= rects@.len() <= 244,
            out@ == rects_mesh(position, facing, rects@.take(k as int)),
        decreases rects@.len() - k,
    {
        let r = rects[k];
        proof {
            sign_meshes_are_well_formed(position, facing, rects@.take(k as int));
            assert(rects@.take(k + 1).drop_last() =~= rects@.take(k as int));
            assert(rects@.take(k + 1).last() == r);
        }
        out.push_quad(
            place(position, facing, r.left, r.bottom, r.depth, r.color),
            place(position, facing, r.right, r.bottom, r.depth, r.color),
            place(position, facing, r.right, r.top, r.depth, r.color),
            place(position, facing, r.left, r.top, r.depth, r.color),
            false,
        );
        k = k + 1;
    }
    assert(rects@.take(k as int) =~= rects@);
    out
}

/// How much of the normal of a triangle, with north, east and up counted,
/// points along a bearing.
pub open spec fn frontal(bearing: Bearing, a: SignVertex, b: SignVertex, c: SignVertex) -> int {
    let (n1, e1) = (b.north.value() - a.north.value(), b.east.value() - a.east.value());
    let (n2, e2) = (c.north.value() - a.north.value(), c.east.value() - a.east.value());
    let (u1, u2) = (
        b.altitude.value() - a.altitude.value(),
        c.altitude.value() - a.altitude.value(),
    );
    (u1 * e2 - e1 * u2) * bearing.cos.value() + (n1 * u2 - u1 * n2) * bearing.sin.value()
}

/// The triangle in place `t` looks along the bearing.
pub open spec fn looks_along(m: MeshView<SignVertex>, bearing: Bearing, t: int) -> bool {
    frontal(
        bearing,
        m.vertices[m.indices[3 * t]],
        m.vertices[m.indices[3 * t + 1]],
        m.vertices[m.indices[3 * t + 2]],
    ) > 0
}

/// A rectangle that does not shrink to nothing when it is placed.
pub open spec fn drawable(r: SignRect) -> bool {
    &&& facing::in_reach(r.left)
    &&& facing::in_reach(r.right)
    &&& facing::in_reach(r.bottom)
    &&& facing::in_reach(r.top)
    &&& facing::in_reach(r.depth)
    &&& facing::beyond(r.left, r.right)
    &&& facing::beyond(r.bottom, r.top)
}

proof fn lemma_rect_looks_along(position: Geodetic, bearing: Bearing, r: SignRect)
    requires
        facing::is_direction(bearing),
        facing::in_reach(position.altitude),
        drawable(r),
    ensures
        ({
            let a = sign_point(position, bearing, r.left, r.bottom, r.depth, r.color);
            let b = sign_point(position, bearing, r.right, r.bottom, r.depth, r.color);
            let c = sign_point(position, bearing, r.right, r.top, r.depth, r.color);
            let d = sign_point(position, bearing, r.left, r.top, r.depth, r.color);
            frontal(bearing, a, b, c) > 0 && frontal(bearing, a, c, d) > 0
        }),
{
    let one = Binary64::one() as int;
    let unit = one * one;
    let (s, c) = (bearing.sin.value(), bearing.cos.value());
    let (left, right) = (r.left.negate(), r.right.negate());
    binary64::lemma_negate(r.left);
    binary64::lemma_negate(r.right);
    facing::lemma_apart(bearing, r.depth, left, r.depth, right);
    lemma_pow2_pos(1074);
    lemma_pow2_pos(1046);
    lemma_pow2_adds(1046, 4);
    lemma_pow2_adds(1043, 7);
    lemma_pow2_adds(1094, 1);
    lemma_pow2_pos(1043);
    lemma2_to64();
    near::lemma_sum(position.altitude, r.bottom, 1095);
    near::lemma_sum(position.altitude, r.top, 1095);
    let h = (position.altitude + r.top).value() - (position.altitude + r.bottom).value();
    assert(h > 0);
    let w = r.right.value() - r.left.value();
    let e = pow2(1046) as int;
    let x = bearing.north(r.depth, right).value() - bearing.north(r.depth, left).value();
    let y = bearing.east(r.depth, right).value() - bearing.east(r.depth, left).value();
    let (dx, dy) = (x * one - w * s, y * one + w * c);
    assert(0 * c == 0 && 0 * s == 0 && (-w) * s == -(w * s) && (-w) * c == -(w * c))
        by (nonlinear_arith);
    facing::lemma_size(dx, s, e * one, one);
    facing::lemma_size(dy, c, e * one, one);
    let square = s * s + c * c;
    let front = x * s - y * c;
    assert(front * one == w * square + dx * s - dy * c) by {
        assert(front * one == (x * one) * s - (y * one) * c) by (nonlinear_arith)
            requires
                front == x * s - y * c,
        ;
        assert((w * s + dx) * s == w * (s * s) + dx * s) by (nonlinear_arith);
        assert((dy - w * c) * c == dy * c - w * (c * c)) by (nonlinear_arith);
        assert(w * square == w * (s * s) + w * (c * c)) by (nonlinear_arith)
            requires
                square == s * s + c * c,
        ;
        assert(x * one == w * s + dx && y * one == dy - w * c);
    }
    assert(2 * (w * square) >= w * unit && w * unit >= 16 * (e * unit) && (e * one) * one == e
        * unit && e * unit > 0) by (nonlinear_arith)
        requires
            w >= 16 * e,
            e > 0,
            unit <= 2 * square,
            unit == one * one,
            one > 0,
    ;
    assert(front > 0) by (nonlinear_arith)
        requires
            front * one > 0,
            one > 0,
    ;
    assert((0 * y - y * h) * c + (x * h - 0 * x) * s == front * h && (h * 0 - y * h) * c + (x * h
        - h * 0) * s == front * h) by (nonlinear_arith)
        requires
            front == x * s - y * c,
    ;
    assert((h * 0 - y * h) * c + (x * h - h * 0) * s == front * h) by (nonlinear_arith)
        requires
            front == x * s - y * c,
    ;
    assert(front * h > 0) by (nonlinear_arith)
        requires
            front > 0,
            h > 0,
    ;
}

/// Every triangle of every rectangle looks along the bearing that is given.
pub proof fn every_rectangle_looks_along_the_bearing(
    position: Geodetic,
    bearing: Bearing,
    rects: Seq<SignRect>,
)
    requires
        facing::is_direction(bearing),
        facing::in_reach(position.altitude),
        forall|i: int| 0 <= i < rects.len() ==> drawable(#[trigger] rects[i]),
    ensures
        forall|t: int|
            0 <= t < 2 * rects.len() ==> #[trigger] looks_along(
                rects_mesh(position, bearing, rects),
                bearing,
                t,
            ),
    decreases rects.len(),
{
    if rects.len() > 0 {
        let rest = rects.drop_last();
        let r = rects.last();
        assert forall|i: int| 0 <= i < rest.len() implies drawable(#[trigger] rest[i]) by {
            assert(rest[i] == rects[i]);
        }
        every_rectangle_looks_along_the_bearing(position, bearing, rest);
        assert(drawable(rects[rects.len() - 1]));
        lemma_rect_looks_along(position, bearing, r);
        sign_meshes_are_well_formed(position, bearing, rest);
        let m = rects_mesh(position, bearing, rest);
        let w = rects_mesh(position, bearing, rects);
        let a = sign_point(position, bearing, r.left, r.bottom, r.depth, r.color);
        let b = sign_point(position, bearing, r.right, r.bottom, r.depth, r.color);
        let c = sign_point(position, bearing, r.right, r.top, r.depth, r.color);
        let d = sign_point(position, bearing, r.left, r.top, r.depth, r.color);
        assert(w == m.with_quad(a, b, c, d, false));
        assert forall|t: int| 0 <= t < 2 * rects.len() implies #[trigger] looks_along(
            w,
            bearing,
            t,
        ) by {
            if t < 2 * rest.len() {
                assert(looks_along(m, bearing, t));
                assert(w.indices[3 * t] == m.indices[3 * t]);
                assert(w.indices[3 * t + 1] == m.indices[3 * t + 1]);
                assert(w.indices[3 * t + 2] == m.indices[3 * t + 2]);
            } else {
                let base = m.vertices.len() as int;
                assert(w.vertices[base] == a && w.vertices[base + 1] == b && w.vertices[base + 2]
                    == c && w.vertices[base + 3] == d);
                assert(t == 2 * rest.len() || t == 2 * rest.len() + 1);
            }
        }
    }
}

/// The sizes that a sign is made from.
proof fn lemma_measures()
    ensures
        near::sized(cell(), 1),
        near::sized(board_bottom(), 1),
        near::sized(board_height(), 1),
        near::sized(padding(), 1),
        near::sized(panel_gap(), 1),
        padding().value() >= 0x10000000 * near::grain(),
        board_height().value() >= 0x10000000 * near::grain(),
        cell().value() >= 0,
        panel_gap().value() >= 0,
        board_bottom().value() >= 0x70000000 * near::grain(),
{
    near::lemma_grain();
    near::lemma_small_ratio(12, 100, 1);
    near::lemma_small_ratio(48, 100, 1);
    near::lemma_small_ratio(92, 100, 1);
    near::lemma_small_ratio(14, 100, 1);
    near::lemma_small_ratio(5, 100, 1);
    near::lemma_ratio(14, 100);
    near::lemma_ratio(92, 100);
    near::lemma_ratio(48, 100);
}

/// A panel is wide enough to be seen, and no wider than ten metres.
proof fn lemma_panel_width(characters: i64)
    requires
        0 <= characters <= 8,
    ensures
        near::sized(panel_width(characters), 10),
        panel_width(characters).value() >= 0x10000000 * near::grain(),
{
    let gaps = if characters > 0 {
        (characters - 1) as i64
    } else {
        0i64
    };
    let three = Binary64::of(3);
    near::lemma_grain();
    lemma_measures();
    near::lemma_small_of(characters, 8);
    near::lemma_small_of(3, 3);
    near::lemma_small_of(2, 2);
    near::lemma_small_of(gaps, 7);
    near::lemma_ratio(12, 100);
    near::lemma_ratio(14, 100);
    let one = Binary64::one() as int;
    let g = near::grain() as int;
    let n = Binary64::of(characters);
    near::lemma_small_product(n, three, 8, 3);
    near::lemma_product_between(
        n,
        three,
        0,
        0x800000000,
        0,
        0x300000000,
    );
    let whole = n * three;
    near::lemma_product_between(whole, cell(), 0, 0x1900000000, 0, 0x20000000);
    near::lemma_small_product(whole, cell(), 25, 1);
    let letters = whole * cell();
    let many = Binary64::of(gaps);
    near::lemma_small_product(many, cell(), 7, 1);
    near::lemma_product_between(many, cell(), 0, 0x700000000, 0, 0x20000000);
    let spaces = many * cell();
    let two = Binary64::of(2);
    near::lemma_small_product(padding(), two, 1, 2);
    near::lemma_product_between(padding(), two, 0x10000000, 0x28000000, 0x200000000, 0x200000000);
    let sides = padding() * two;
    assert(near::sized(letters, 4));
    assert(near::sized(spaces, 1));
    assert(near::sized(sides, 1));
    near::lemma_small_sum(letters, spaces, 4, 1);
    near::lemma_small_sum(letters + spaces, sides, 6, 1);
}

/// A letter's left edge is not far out.
proof fn lemma_character_left(panel_left: Binary64, i: int)
    requires
        near::sized(panel_left, 40),
        0 <= i <= 8,
    ensures
        near::sized(character_left(panel_left, i), 42 + 8 * i),
    decreases i,
{
    lemma_measures();
    if i <= 0 {
        near::lemma_small_sum(panel_left, padding(), 40, 1);
    } else {
        lemma_character_left(panel_left, i - 1);
        near::lemma_small_of(3, 3);
        near::lemma_small_of(1, 1);
        near::lemma_small_sum(Binary64::of(3), Binary64::of(1), 3, 1);
        let four = Binary64::of(3) + Binary64::of(1);
        near::lemma_small_product(four, cell(), 5, 1);
        near::lemma_small_sum(
            character_left(panel_left, i - 1),
            four * cell(),
            42 + 8 * (i - 1),
            6,
        );
        near::lemma_larger(character_left(panel_left, i), 42 + 8 * (i - 1) + 7, 42 + 8 * i);
    }
}

proof fn lemma_pixel(left: Binary64, i: int, color: Rgb)
    requires
        near::sized(left, 120),
        0 <= i < 15,
    ensures
        drawable(pixel_rect(left, i, color)),
{
    let size = Binary64::ratio(95, 1000);
    near::lemma_grain();
    lemma_measures();
    near::lemma_small_ratio(95, 1000, 1);
    near::lemma_ratio(95, 1000);
    near::lemma_small_ratio(18, 1000, 1);
    near::lemma_small_ratio(1, 2, 1);
    near::lemma_small_of((i % 3) as i64, 2);
    near::lemma_small_of((4 - i / 3) as i64, 4);
    near::lemma_small_of(5, 5);
    near::lemma_small_product(Binary64::of((i % 3) as i64), cell(), 2, 1);
    near::lemma_small_sum(left, Binary64::of((i % 3) as i64) * cell(), 120, 3);
    let x = left + Binary64::of((i % 3) as i64) * cell();
    near::lemma_small_sum(x, size, 124, 1);
    near::lemma_small_product(Binary64::of(5), cell(), 5, 1);
    near::lemma_small_difference(board_height(), Binary64::of(5) * cell(), 1, 6);
    let rest = board_height() - Binary64::of(5) * cell();
    near::lemma_small_product(rest, Binary64::ratio(1, 2), 8, 1);
    near::lemma_small_sum(board_bottom(), rest * Binary64::ratio(1, 2), 1, 9);
    near::lemma_small_product(Binary64::of((4 - i / 3) as i64), cell(), 4, 1);
    near::lemma_small_sum(
        text_bottom(),
        Binary64::of((4 - i / 3) as i64) * cell(),
        11,
        5,
    );
    let y = text_bottom() + Binary64::of((4 - i / 3) as i64) * cell();
    near::lemma_small_sum(y, size, 17, 1);
    facing::lemma_small_in_reach(x, 124);
    facing::lemma_small_in_reach(x + size, 126);
    facing::lemma_small_in_reach(y, 17);
    facing::lemma_small_in_reach(y + size, 19);
    facing::lemma_small_in_reach(Binary64::ratio(18, 1000), 1);
}

proof fn lemma_glyph_drawable(g: Glyph, left: Binary64, color: Rgb, n: int)
    requires
        near::sized(left, 120),
        0 <= n <= 15,
    ensures
        forall|i: int|
            0 <= i < glyph_rects(g, left, color, n).len() ==> drawable(
                #[trigger] glyph_rects(g, left, color, n)[i],
            ),
    decreases n,
{
    if n > 0 {
        lemma_glyph_drawable(g, left, color, n - 1);
        lemma_pixel(left, n - 1, color);
        let before = glyph_rects(g, left, color, n - 1);
        let now = glyph_rects(g, left, color, n);
        assert forall|i: int| 0 <= i < now.len() implies drawable(#[trigger] now[i]) by {
            if i < before.len() {
                assert(now[i] == before[i]);
            }
        }
    }
}

proof fn lemma_text_drawable(text: Seq<u8>, panel_left: Binary64, color: Rgb, k: int)
    requires
        near::sized(panel_left, 40),
        0 <= k <= 8,
    ensures
        forall|i: int|
            0 <= i < text_rects(text, panel_left, color, k).len() ==> drawable(
                #[trigger] text_rects(text, panel_left, color, k)[i],
            ),
    decreases k,
{
    if k > 0 {
        lemma_text_drawable(text, panel_left, color, k - 1);
        lemma_character_left(panel_left, k - 1);
        near::lemma_larger(character_left(panel_left, k - 1), 42 + 8 * (k - 1), 120);
        lemma_glyph_drawable(
            glyph(text[k - 1])->0,
            character_left(panel_left, k - 1),
            color,
            15,
        );
        let before = text_rects(text, panel_left, color, k - 1);
        let letter = glyph_rects(
            glyph(text[k - 1])->0,
            character_left(panel_left, k - 1),
            color,
            15,
        );
        let now = text_rects(text, panel_left, color, k);
        assert forall|i: int| 0 <= i < now.len() implies drawable(#[trigger] now[i]) by {
            if i < before.len() {
                assert(now[i] == before[i]);
            } else {
                assert(now[i] == letter[i - before.len()]);
            }
        }
    }
}

proof fn lemma_post(x: Binary64)
    requires
        near::sized(x, 40),
    ensures
        drawable(post(x)),
{
    let half = Binary64::ratio(35, 1000);
    let deep = Binary64::ratio(12, 1000);
    near::lemma_grain();
    lemma_measures();
    near::lemma_small_ratio(35, 1000, 1);
    near::lemma_ratio(35, 1000);
    near::lemma_small_ratio(12, 1000, 1);
    near::lemma_small_ratio(4, 100, 1);
    near::lemma_ratio(4, 100);
    near::lemma_small_ratio(8, 100, 1);
    near::lemma_small_difference(x, half, 40, 1);
    near::lemma_small_sum(x, half, 40, 1);
    near::lemma_small_sum(board_bottom(), Binary64::ratio(8, 100), 1, 1);
    binary64::lemma_negate(deep);
    facing::lemma_small_in_reach(x - half, 42);
    facing::lemma_small_in_reach(x + half, 42);
    facing::lemma_small_in_reach(Binary64::ratio(4, 100), 1);
    facing::lemma_small_in_reach(board_bottom() + Binary64::ratio(8, 100), 3);
    facing::lemma_small_in_reach(deep.negate(), 1);
}

proof fn lemma_panel(left: Binary64, width: Binary64, color: Rgb)
    requires
        near::sized(left, 40),
        near::sized(width, 10),
        width.value() >= 0x10000000 * near::grain(),
    ensures
        drawable(panel(left, width, color)),
{
    near::lemma_grain();
    lemma_measures();
    near::lemma_small_sum(left, width, 40, 10);
    near::lemma_small_sum(board_bottom(), board_height(), 1, 1);
    near::lemma_small_of(0, 0);
    facing::lemma_small_in_reach(left, 40);
    facing::lemma_small_in_reach(left + width, 51);
    facing::lemma_small_in_reach(board_bottom(), 1);
    facing::lemma_small_in_reach(board_bottom() + board_height(), 3);
    facing::lemma_small_in_reach(Binary64::of(0), 0);
}

/// Whatever it says, a sign looks along the bearing that it is given: every
/// triangle of its posts, panels and letters does.
#[verifier::spinoff_prover]
#[verifier::rlimit(80)]
pub proof fn a_sign_looks_along_its_bearing(
    position: Geodetic,
    bearing: Bearing,
    taxiway: Seq<u8>,
    holding: Seq<u8>,
)
    requires
        facing::is_direction(bearing),
        facing::in_reach(position.altitude),
        taxiway.len() <= MAX_SIGN_REF_CHARS,
        holding.len() <= MAX_SIGN_REF_CHARS,
    ensures
        forall|t: int|
            0 <= t < 2 * sign_rects(taxiway, holding).len() ==> #[trigger] looks_along(
                rects_mesh(position, bearing, sign_rects(taxiway, holding)),
                bearing,
                t,
            ),
{
    let rects = sign_rects(taxiway, holding);
    let taxi_width = panel_width(taxiway.len() as i64);
    let hold_width = panel_width(holding.len() as i64);
    let total = (taxi_width + panel_gap()) + hold_width;
    let half = Binary64::ratio(1, 2);
    let third = Binary64::ratio(32, 100);
    lemma_measures();
    near::lemma_grain();
    lemma_panel_width(taxiway.len() as i64);
    lemma_panel_width(holding.len() as i64);
    near::lemma_small_sum(taxi_width, panel_gap(), 10, 1);
    near::lemma_small_sum(taxi_width + panel_gap(), hold_width, 12, 10);
    binary64::lemma_negate(total);
    near::lemma_small_ratio(1, 2, 1);
    near::lemma_small_ratio(32, 100, 1);
    near::lemma_small_product(total.negate(), half, 23, 1);
    near::lemma_small_product(total.negate(), third, 23, 1);
    near::lemma_small_product(total, third, 23, 1);
    let taxi_left = total.negate() * half;
    near::lemma_small_sum(taxi_left, taxi_width, 24, 10);
    near::lemma_small_sum(taxi_left + taxi_width, panel_gap(), 35, 1);
    let hold_left = (taxi_left + taxi_width) + panel_gap();
    near::lemma_larger(taxi_left, 24, 40);
    near::lemma_larger(hold_left, 37, 40);
    near::lemma_larger(total.negate() * third, 24, 40);
    near::lemma_larger(total * third, 24, 40);
    lemma_post(total.negate() * third);
    lemma_post(total * third);
    let (black, red) = (Rgb::thousandths(15, 15, 12), Rgb::thousandths(660, 15, 20));
    let (yellow, white) = (Rgb::thousandths(1000, 720, 30), Rgb::thousandths(1000, 980, 930));
    lemma_panel(taxi_left, taxi_width, black);
    lemma_panel(hold_left, hold_width, red);
    lemma_text_drawable(taxiway, taxi_left, yellow, taxiway.len() as int);
    lemma_text_drawable(holding, hold_left, white, holding.len() as int);
    let board = seq![
        post(total.negate() * third),
        post(total * third),
        panel(taxi_left, taxi_width, black),
        panel(hold_left, hold_width, red),
    ];
    let first = text_rects(taxiway, taxi_left, yellow, taxiway.len() as int);
    let second = text_rects(holding, hold_left, white, holding.len() as int);
    assert(rects == board + first + second);
    assert forall|i: int| 0 <= i < rects.len() implies drawable(#[trigger] rects[i]) by {
        if i < 4 {
            assert(rects[i] == board[i]);
        } else if i < 4 + first.len() {
            assert(rects[i] == first[i - 4]);
        } else {
            assert(rects[i] == second[i - 4 - first.len()]);
        }
    }
    every_rectangle_looks_along_the_bearing(position, bearing, rects);
}

} // verus!
