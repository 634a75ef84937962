//! What surrounds an aircraft, as far as it matters to how it flies.
use crate::binary64::Binary64;
use crate::fdm::atmosphere::Atmosphere;
use crate::fdm::state::LocalFrame;
use crate::fdm::turbulence::Turbulence;
use crate::geodetic::Geodetic;
use crate::vector::DVec3;
use vstd::prelude::*;

verus! {

/// How the ground rises, per metre north and east.
#[derive(Clone, Copy, PartialEq, Eq, Debug, Structural)]
pub struct GroundSlope {
    pub north: Binary64,
    pub east: Binary64,
}

impl GroundSlope {
    pub open spec fn spec_level() -> GroundSlope {
        GroundSlope { north: Binary64::of(0), east: Binary64::of(0) }
    }

    /// Level ground.
    #[verifier::when_used_as_spec(spec_level)]
    pub fn level() -> (r: GroundSlope)
        ensures
            r == GroundSlope::level(),
    {
        GroundSlope { north: Binary64::of(0), east: Binary64::of(0) }
    }

    pub open spec fn spec_new(north: Binary64, east: Binary64) -> GroundSlope {
        GroundSlope { north, east }
    }

    #[verifier::when_used_as_spec(spec_new)]
    pub fn new(north: Binary64, east: Binary64) -> (r: GroundSlope)
        ensures
            r == GroundSlope::new(north, east),
    {
        GroundSlope { north, east }
    }

    pub fn north(self) -> (r: Binary64)
        ensures
            r == self.north,
    {
        self.north
    }

    pub fn east(self) -> (r: Binary64)
        ensures
            r == self.east,
    {
        self.east
    }

    pub open spec fn spec_is_finite(self) -> bool {
        self.north.is_finite() && self.east.is_finite()
    }

    #[verifier::when_used_as_spec(spec_is_finite)]
    pub fn is_finite(self) -> (r: bool)
        ensures
            r == self.is_finite(),
    {
        self.north.is_finite() && self.east.is_finite()
    }
}

impl Default for GroundSlope {
    fn default() -> (r: GroundSlope)
        ensures
            r == GroundSlope::level(),
    {
        GroundSlope::level()
    }
}

/// The air, the wind and the ground.
#[derive(Clone, Copy, PartialEq, Eq, Debug, Structural)]
pub struct Environment {
    pub atmosphere: Atmosphere,
    /// How the air moves over the ground, in earth-fixed metres per second.
    pub wind_ecef: DVec3,
    /// The height of the ground at the reference point, in metres.
    pub ground_elevation: Binary64,
    /// How the ground rises from there.
    pub ground_slope: GroundSlope,
    /// Where the ground is known; level ground can do without.
    pub ground_reference: Option<Geodetic>,
}

impl Environment {
    pub open spec fn spec_still_air() -> Environment {
        Environment {
            atmosphere: Atmosphere::standard(),
            wind_ecef: DVec3::zero(),
            ground_elevation: Binary64::of(0),
            ground_slope: GroundSlope::level(),
            ground_reference: None,
        }
    }

    /// The standard atmosphere, no wind, and level ground at height zero.
    #[verifier::when_used_as_spec(spec_still_air)]
    pub fn still_air() -> (r: Environment)
        ensures
            r == Environment::still_air(),
    {
        Environment {
            atmosphere: Atmosphere::standard(),
            wind_ecef: DVec3::zero(),
            ground_elevation: Binary64::of(0),
            ground_slope: GroundSlope::level(),
            ground_reference: None,
        }
    }

    /// Level ground at height zero under a wind given north, east and down.
    pub fn with_wind_ned(atmosphere: Atmosphere, frame: LocalFrame, wind_ned: DVec3) -> (r:
        Environment)
        ensures
            r == (Environment {
                atmosphere,
                wind_ecef: frame.ned_to_ecef(wind_ned),
                ..Environment::still_air()
            }),
    {
        Environment {
            atmosphere,
            wind_ecef: frame.ned_to_ecef(wind_ned),
            ground_elevation: Binary64::of(0),
            ground_slope: GroundSlope::level(),
            ground_reference: None,
        }
    }

    /// The same with level ground at a height.
    pub fn with_ground(self, ground_elevation: Binary64) -> (r: Environment)
        ensures
            r == (Environment {
                ground_elevation,
                ground_slope: GroundSlope::level(),
                ground_reference: None,
                ..self
            }),
    {
        Environment {
            atmosphere: self.atmosphere,
            wind_ecef: self.wind_ecef,
            ground_elevation,
            ground_slope: GroundSlope::level(),
            ground_reference: None,
        }
    }

    /// The same over ground that rises from a fixed point.
    pub fn with_ground_plane(
        self,
        reference: Geodetic,
        ground_elevation: Binary64,
        ground_slope: GroundSlope,
    ) -> (r: Environment)
        ensures
            r == (Environment {
                ground_elevation,
                ground_slope,
                ground_reference: Some(reference),
                ..self
            }),
    {
        Environment {
            atmosphere: self.atmosphere,
            wind_ecef: self.wind_ecef,
            ground_elevation,
            ground_slope,
            ground_reference: Some(reference),
        }
    }

    pub fn ground_slope(&self) -> (r: GroundSlope)
        ensures
            r == self.ground_slope,
    {
        self.ground_slope
    }

    pub fn ground_reference(&self) -> (r: Option<Geodetic>)
        ensures
            r == self.ground_reference,
    {
        self.ground_reference
    }

    /// The place that the ground is measured from: the reference place where
    /// there is one, else the aircraft's own.
    pub fn ground_place(&self, here: Geodetic) -> (r: Geodetic)
        ensures
            r == match self.ground_reference {
                Some(place) => place,
                None => here,
            },
    {
        match self.ground_reference {
            Some(place) => place,
            None => here,
        }
    }

    /// The same with a gust added to the wind. It stays put for a step, so that
    /// all parts of the step meet the same air.
    pub fn with_turbulence(
        self,
        turbulence: Turbulence,
        elapsed: Binary64,
        position: Geodetic,
        cos_latitude: Binary64,
        frame: LocalFrame,
    ) -> (r: Environment)
        ensures
            r == (Environment {
                wind_ecef: turbulence.wind_with_gust(
                    self.wind_ecef,
                    elapsed,
                    position,
                    cos_latitude,
                    frame,
                ),
                ..self
            }),
    {
        if turbulence.is_calm() {
            return self;
        }
        let gust = frame.ned_to_ecef(turbulence.gust_at(elapsed, position, cos_latitude));
        if !gust.is_finite() {
            return self;
        }
        Environment {
            atmosphere: self.atmosphere,
            wind_ecef: self.wind_ecef.plus(gust),
            ground_elevation: self.ground_elevation,
            ground_slope: self.ground_slope,
            ground_reference: self.ground_reference,
        }
    }

    pub open spec fn ground_known(self) -> bool {
        &&& self.ground_elevation.is_finite()
        &&& self.ground_slope.is_finite()
        &&& match self.ground_reference {
            None => true,
            Some(reference) => reference.latitude.is_finite() && reference.longitude.is_finite()
                && reference.altitude.is_finite(),
        }
    }

    /// Nothing about the ground is broken.
    pub fn ground_input_is_finite(&self) -> (r: bool)
        ensures
            r == self.ground_known(),
    {
        let reference_is_finite = match self.ground_reference {
            None => true,
            Some(reference) => reference.latitude.is_finite() && reference.longitude.is_finite()
                && reference.altitude.is_finite(),
        };
        self.ground_elevation.is_finite() && self.ground_slope.is_finite() && reference_is_finite
    }

    pub open spec fn spec_ground_elevation_at(self, offset_ned: DVec3) -> Binary64 {
        self.ground_elevation + self.ground_slope.north * offset_ned.x + self.ground_slope.east
            * offset_ned.y
    }

    /// The height of the ground so far north and east of the reference point.
    #[verifier::when_used_as_spec(spec_ground_elevation_at)]
    pub fn ground_elevation_at(self, offset_ned: DVec3) -> (r: Binary64)
        ensures
            r == self.ground_elevation_at(offset_ned),
    {
        self.ground_elevation + self.ground_slope.north * offset_ned.x + self.ground_slope.east
            * offset_ned.y
    }

    pub open spec fn spec_ground_normal_ecef(self, ground_frame: LocalFrame) -> DVec3 {
        ground_frame.ned_to_ecef(
            DVec3 {
                x: self.ground_slope.north.negate(),
                y: self.ground_slope.east.negate(),
                z: Binary64::of(1).negate(),
            }.normalized(),
        )
    }

    /// The ground's normal, upwards and of length one.
    #[verifier::when_used_as_spec(spec_ground_normal_ecef)]
    pub fn ground_normal_ecef(self, ground_frame: LocalFrame) -> (r: DVec3)
        ensures
            r == self.ground_normal_ecef(ground_frame),
    {
        ground_frame.ned_to_ecef(
            DVec3 {
                x: self.ground_slope.north.negate(),
                y: self.ground_slope.east.negate(),
                z: Binary64::of(1).negate(),
            }.normalized(),
        )
    }

    pub open spec fn spec_normal_distance_scale(self) -> Binary64 {
        let one = Binary64::of(1);
        let north = self.ground_slope.north;
        let east = self.ground_slope.east;
        one / (one + north * north + east * east).sqrt()
    }

    /// What a height over the ground is multiplied by for the distance from it.
    #[verifier::when_used_as_spec(spec_normal_distance_scale)]
    pub fn normal_distance_scale(self) -> (r: Binary64)
        ensures
            r == self.normal_distance_scale(),
    {
        let one = Binary64::of(1);
        let north = self.ground_slope.north;
        let east = self.ground_slope.east;
        one / (one + north * north + east * east).sqrt()
    }
}

impl Default for Environment {
    fn default() -> (r: Environment)
        ensures
            r == Environment::still_air(),
    {
        Environment::still_air()
    }
}

} // verus!
