//! Places on the earth.
use crate::angle;
use crate::binary64::Binary64;
use vstd::prelude::*;

verus! {

/// A place on the earth: radians, radians, metres above the ellipsoid.
#[derive(Clone, Copy, PartialEq, Eq, Debug, Structural)]
pub struct Geodetic {
    pub latitude: Binary64,
    pub longitude: Binary64,
    pub altitude: Binary64,
}

impl Geodetic {
    /// Every coordinate is finite and the angles are on the globe.
    pub open spec fn spec_valid_point(self) -> bool {
        &&& self.latitude.is_finite()
        &&& self.longitude.is_finite()
        &&& self.altitude.is_finite()
        &&& self.latitude.abs() <= angle::half_pi()
        &&& self.longitude.abs() <= angle::pi()
    }

    /// Every coordinate is finite and the angles are on the globe.
    #[verifier::when_used_as_spec(spec_valid_point)]
    pub fn valid_point(self) -> (r: bool)
        ensures
            r == self.valid_point(),
    {
        self.latitude.is_finite() && self.longitude.is_finite() && self.altitude.is_finite()
            && self.latitude.abs().le(angle::half_pi()) && self.longitude.abs().le(angle::pi())
    }

    pub open spec fn spec_lifted(self, amount: Binary64) -> Geodetic {
        Geodetic { altitude: self.altitude + amount, ..self }
    }

    /// The same place higher up.
    #[verifier::when_used_as_spec(spec_lifted)]
    pub fn lifted(self, amount: Binary64) -> (r: Geodetic)
        ensures
            r == self.lifted(amount),
    {
        Geodetic {
            latitude: self.latitude,
            longitude: self.longitude,
            altitude: self.altitude + amount,
        }
    }
}

} // verus!
