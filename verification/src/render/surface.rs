//! Points on the ground and what is laid out from them.
use crate::binary32::Binary32;
use crate::binary64::Binary64;
pub use crate::geodetic::Geodetic;
use vstd::prelude::*;

verus! {

/// A colour as it is named, before it is made linear.
#[derive(Clone, Copy, PartialEq, Eq, Debug, Structural)]
pub struct Rgb {
    pub red: Binary32,
    pub green: Binary32,
    pub blue: Binary32,
}

impl Rgb {
    /// The colour given in thousandths.
    pub open spec fn spec_thousandths(red: u64, green: u64, blue: u64) -> Rgb {
        Rgb {
            red: Binary32::ratio(red, 1000),
            green: Binary32::ratio(green, 1000),
            blue: Binary32::ratio(blue, 1000),
        }
    }

    /// The colour given in thousandths.
    #[verifier::when_used_as_spec(spec_thousandths)]
    pub fn thousandths(red: u64, green: u64, blue: u64) -> (r: Rgb)
        ensures
            r == Rgb::thousandths(red, green, blue),
    {
        Rgb {
            red: Binary32::ratio(red, 1000),
            green: Binary32::ratio(green, 1000),
            blue: Binary32::ratio(blue, 1000),
        }
    }

    /// The linear form of the colour, opaque.
    pub open spec fn spec_linear(self) -> LinearColor {
        LinearColor {
            red: srgb_to_linear(self.red),
            green: srgb_to_linear(self.green),
            blue: srgb_to_linear(self.blue),
            alpha: Binary32::of(1),
        }
    }

    /// The linear form of the colour, opaque.
    #[verifier::when_used_as_spec(spec_linear)]
    pub fn linear(self) -> (r: LinearColor)
        ensures
            r == self.linear(),
    {
        LinearColor {
            red: srgb_to_linear(self.red),
            green: srgb_to_linear(self.green),
            blue: srgb_to_linear(self.blue),
            alpha: Binary32::of(1),
        }
    }
}

/// A colour with its opacity.
#[derive(Clone, Copy, PartialEq, Eq, Debug, Structural)]
pub struct Rgba {
    pub red: Binary32,
    pub green: Binary32,
    pub blue: Binary32,
    pub alpha: Binary32,
}

/// A channel made linear: near black it is a straight line, above it the base
/// of a power of 2.4.
#[derive(Clone, Copy, PartialEq, Eq, Debug, Structural)]
pub enum Linearised {
    Straight(Binary32),
    Power(Binary32),
}

pub open spec fn spec_srgb_to_linear(value: Binary32) -> Linearised {
    if value <= Binary32::ratio(40449936, 1000000000) {
        Linearised::Straight(value / Binary32::ratio(1292, 100))
    } else {
        Linearised::Power(
            (value + Binary32::ratio(55, 1000)) / Binary32::ratio(1055, 1000),
        )
    }
}

/// A channel as it is named, made linear.
#[verifier::when_used_as_spec(spec_srgb_to_linear)]
pub fn srgb_to_linear(value: Binary32) -> (r: Linearised)
    ensures
        r == srgb_to_linear(value),
{
    if value.le(Binary32::ratio(40449936, 1000000000)) {
        Linearised::Straight(value / Binary32::ratio(1292, 100))
    } else {
        Linearised::Power((value + Binary32::ratio(55, 1000)) / Binary32::ratio(1055, 1000))
    }
}

impl Linearised {
    /// The channel, once the power of its base is known.
    pub open spec fn spec_resolved(self, power: Binary32) -> Binary32 {
        match self {
            Linearised::Straight(value) => value,
            Linearised::Power(_) => power,
        }
    }

    /// The channel, once the power of its base is known.
    #[verifier::when_used_as_spec(spec_resolved)]
    pub fn resolved(self, power: Binary32) -> (r: Binary32)
        ensures
            r == self.resolved(power),
    {
        match self {
            Linearised::Straight(value) => value,
            Linearised::Power(_) => power,
        }
    }
}

/// A colour made linear.
#[derive(Clone, Copy, PartialEq, Eq, Debug, Structural)]
pub struct LinearColor {
    pub red: Linearised,
    pub green: Linearised,
    pub blue: Linearised,
    pub alpha: Binary32,
}

impl LinearColor {
    /// The colour, once the powers of its channels are known.
    pub open spec fn spec_resolved(self, powers: Rgb) -> Rgb {
        Rgb {
            red: self.red.resolved(powers.red),
            green: self.green.resolved(powers.green),
            blue: self.blue.resolved(powers.blue),
        }
    }

    /// The colour, once the powers of its channels are known.
    #[verifier::when_used_as_spec(spec_resolved)]
    pub fn resolved(self, powers: Rgb) -> (r: Rgb)
        ensures
            r == self.resolved(powers),
    {
        Rgb {
            red: self.red.resolved(powers.red),
            green: self.green.resolved(powers.green),
            blue: self.blue.resolved(powers.blue),
        }
    }
}

/// A heading by its sine and cosine.
#[derive(Clone, Copy, PartialEq, Eq, Debug, Structural)]
pub struct Bearing {
    pub sin: Binary64,
    pub cos: Binary64,
}

impl Bearing {
    /// How far north a point `along` ahead and `across` to the right lies.
    pub open spec fn spec_north(self, along: Binary64, across: Binary64) -> Binary64 {
        along * self.cos - across * self.sin
    }

    /// How far north a point `along` ahead and `across` to the right lies.
    #[verifier::when_used_as_spec(spec_north)]
    pub fn north(self, along: Binary64, across: Binary64) -> (r: Binary64)
        ensures
            r == self.north(along, across),
    {
        along * self.cos - across * self.sin
    }

    /// How far east a point `along` ahead and `across` to the right lies.
    pub open spec fn spec_east(self, along: Binary64, across: Binary64) -> Binary64 {
        along * self.sin + across * self.cos
    }

    /// How far east a point `along` ahead and `across` to the right lies.
    #[verifier::when_used_as_spec(spec_east)]
    pub fn east(self, along: Binary64, across: Binary64) -> (r: Binary64)
        ensures
            r == self.east(along, across),
    {
        along * self.sin + across * self.cos
    }
}

/// A vertex to be placed: `north` and `east` metres from the anchor along the
/// ellipsoid, then `lift` metres up.
#[derive(Clone, Copy, PartialEq, Eq, Debug, Structural)]
pub struct SurfaceVertex {
    pub anchor: Geodetic,
    pub north: Binary64,
    pub east: Binary64,
    pub lift: Binary64,
    pub color: LinearColor,
}

impl SurfaceVertex {
    /// A painted point `along` ahead of the anchor and `across` to its right.
    pub open spec fn spec_ahead(
        anchor: Geodetic,
        heading: Bearing,
        along: Binary64,
        across: Binary64,
        lift: Binary64,
        paint: Rgb,
    ) -> SurfaceVertex {
        SurfaceVertex {
            anchor,
            north: heading.north(along, across),
            east: heading.east(along, across),
            lift,
            color: paint.linear(),
        }
    }

    /// A painted point `along` ahead of the anchor and `across` to its right.
    #[verifier::when_used_as_spec(spec_ahead)]
    pub fn ahead(
        anchor: Geodetic,
        heading: Bearing,
        along: Binary64,
        across: Binary64,
        lift: Binary64,
        paint: Rgb,
    ) -> (r: SurfaceVertex)
        ensures
            r == SurfaceVertex::ahead(anchor, heading, along, across, lift, paint),
    {
        SurfaceVertex {
            anchor,
            north: heading.north(along, across),
            east: heading.east(along, across),
            lift,
            color: paint.linear(),
        }
    }
}

} // verus!
