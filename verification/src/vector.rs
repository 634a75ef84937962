//! Vectors of three numbers.
use crate::binary32::Binary32;
use crate::binary64::Binary64;
use vstd::prelude::*;

verus! {

/// A single-precision vector, in drawing coordinates.
#[derive(Clone, Copy, PartialEq, Eq, Debug, Structural)]
pub struct Vec3 {
    pub x: Binary32,
    pub y: Binary32,
    pub z: Binary32,
}

impl Vec3 {
    pub open spec fn spec_new(x: Binary32, y: Binary32, z: Binary32) -> Vec3 {
        Vec3 { x, y, z }
    }

    #[verifier::when_used_as_spec(spec_new)]
    pub fn new(x: Binary32, y: Binary32, z: Binary32) -> (r: Vec3)
        ensures
            r == Vec3::new(x, y, z),
    {
        Vec3 { x, y, z }
    }

    pub open spec fn spec_zero() -> Vec3 {
        Vec3 { x: Binary32::of(0), y: Binary32::of(0), z: Binary32::of(0) }
    }

    #[verifier::when_used_as_spec(spec_zero)]
    pub fn zero() -> (r: Vec3)
        ensures
            r == Vec3::zero(),
    {
        Vec3 { x: Binary32::of(0), y: Binary32::of(0), z: Binary32::of(0) }
    }

    pub open spec fn spec_is_finite(self) -> bool {
        self.x.is_finite() && self.y.is_finite() && self.z.is_finite()
    }

    #[verifier::when_used_as_spec(spec_is_finite)]
    pub fn is_finite(self) -> (r: bool)
        ensures
            r == self.is_finite(),
    {
        self.x.is_finite() && self.y.is_finite() && self.z.is_finite()
    }

    /// The point a fraction `s` of the way to `other`.
    pub open spec fn spec_lerp(self, other: Vec3, s: Binary32) -> Vec3 {
        let t = Binary32::of(1) - s;
        Vec3 {
            x: self.x * t + other.x * s,
            y: self.y * t + other.y * s,
            z: self.z * t + other.z * s,
        }
    }

    /// The point a fraction `s` of the way to `other`.
    #[verifier::when_used_as_spec(spec_lerp)]
    pub fn lerp(self, other: Vec3, s: Binary32) -> (r: Vec3)
        ensures
            r == self.lerp(other, s),
    {
        let t = Binary32::of(1) - s;
        Vec3 {
            x: self.x * t + other.x * s,
            y: self.y * t + other.y * s,
            z: self.z * t + other.z * s,
        }
    }

    pub open spec fn spec_dot(self, other: Vec3) -> Binary32 {
        (self.x * other.x + self.y * other.y) + self.z * other.z
    }

    #[verifier::when_used_as_spec(spec_dot)]
    pub fn dot(self, other: Vec3) -> (r: Binary32)
        ensures
            r == self.dot(other),
    {
        (self.x * other.x + self.y * other.y) + self.z * other.z
    }

    pub open spec fn spec_length(self) -> Binary32 {
        self.dot(self).sqrt()
    }

    #[verifier::when_used_as_spec(spec_length)]
    pub fn length(self) -> (r: Binary32)
        ensures
            r == self.length(),
    {
        self.dot(self).sqrt()
    }

    /// The vector times a number.
    pub open spec fn spec_scaled(self, s: Binary32) -> Vec3 {
        Vec3 { x: self.x * s, y: self.y * s, z: self.z * s }
    }

    /// The vector times a number.
    #[verifier::when_used_as_spec(spec_scaled)]
    pub fn scaled(self, s: Binary32) -> (r: Vec3)
        ensures
            r == self.scaled(s),
    {
        Vec3 { x: self.x * s, y: self.y * s, z: self.z * s }
    }

    /// The vector of length one in the same direction.
    pub open spec fn spec_normalized(self) -> Vec3 {
        self.scaled(Binary32::of(1) / self.length())
    }

    /// The vector of length one in the same direction.
    #[verifier::when_used_as_spec(spec_normalized)]
    pub fn normalized(self) -> (r: Vec3)
        ensures
            r == self.normalized(),
    {
        self.scaled(Binary32::of(1) / self.length())
    }

    /// The vector turned round.
    pub open spec fn spec_opposite(self) -> Vec3 {
        Vec3 { x: self.x.negate(), y: self.y.negate(), z: self.z.negate() }
    }

    /// The vector turned round.
    #[verifier::when_used_as_spec(spec_opposite)]
    pub fn opposite(self) -> (r: Vec3)
        ensures
            r == self.opposite(),
    {
        Vec3 { x: self.x.negate(), y: self.y.negate(), z: self.z.negate() }
    }
}

/// A double-precision vector.
#[derive(Clone, Copy, PartialEq, Eq, Debug, Structural)]
pub struct DVec3 {
    pub x: Binary64,
    pub y: Binary64,
    pub z: Binary64,
}

impl DVec3 {
    pub open spec fn spec_new(x: Binary64, y: Binary64, z: Binary64) -> DVec3 {
        DVec3 { x, y, z }
    }

    #[verifier::when_used_as_spec(spec_new)]
    pub fn new(x: Binary64, y: Binary64, z: Binary64) -> (r: DVec3)
        ensures
            r == DVec3::new(x, y, z),
    {
        DVec3 { x, y, z }
    }

    pub open spec fn spec_zero() -> DVec3 {
        DVec3 { x: Binary64::of(0), y: Binary64::of(0), z: Binary64::of(0) }
    }

    #[verifier::when_used_as_spec(spec_zero)]
    pub fn zero() -> (r: DVec3)
        ensures
            r == DVec3::zero(),
    {
        DVec3 { x: Binary64::of(0), y: Binary64::of(0), z: Binary64::of(0) }
    }

    pub open spec fn spec_is_finite(self) -> bool {
        self.x.is_finite() && self.y.is_finite() && self.z.is_finite()
    }

    #[verifier::when_used_as_spec(spec_is_finite)]
    pub fn is_finite(self) -> (r: bool)
        ensures
            r == self.is_finite(),
    {
        self.x.is_finite() && self.y.is_finite() && self.z.is_finite()
    }

    pub open spec fn spec_plus(self, other: DVec3) -> DVec3 {
        DVec3 { x: self.x + other.x, y: self.y + other.y, z: self.z + other.z }
    }

    #[verifier::when_used_as_spec(spec_plus)]
    pub fn plus(self, other: DVec3) -> (r: DVec3)
        ensures
            r == self.plus(other),
    {
        DVec3 { x: self.x + other.x, y: self.y + other.y, z: self.z + other.z }
    }

    pub open spec fn spec_minus(self, other: DVec3) -> DVec3 {
        DVec3 { x: self.x - other.x, y: self.y - other.y, z: self.z - other.z }
    }

    #[verifier::when_used_as_spec(spec_minus)]
    pub fn minus(self, other: DVec3) -> (r: DVec3)
        ensures
            r == self.minus(other),
    {
        DVec3 { x: self.x - other.x, y: self.y - other.y, z: self.z - other.z }
    }

    /// The vector times a number.
    pub open spec fn spec_scaled(self, s: Binary64) -> DVec3 {
        DVec3 { x: self.x * s, y: self.y * s, z: self.z * s }
    }

    /// The vector times a number.
    #[verifier::when_used_as_spec(spec_scaled)]
    pub fn scaled(self, s: Binary64) -> (r: DVec3)
        ensures
            r == self.scaled(s),
    {
        DVec3 { x: self.x * s, y: self.y * s, z: self.z * s }
    }

    /// The vector divided by a number.
    pub open spec fn spec_divided(self, s: Binary64) -> DVec3 {
        DVec3 { x: self.x / s, y: self.y / s, z: self.z / s }
    }

    /// The vector divided by a number.
    #[verifier::when_used_as_spec(spec_divided)]
    pub fn divided(self, s: Binary64) -> (r: DVec3)
        ensures
            r == self.divided(s),
    {
        DVec3 { x: self.x / s, y: self.y / s, z: self.z / s }
    }

    pub open spec fn spec_dot(self, other: DVec3) -> Binary64 {
        (self.x * other.x + self.y * other.y) + self.z * other.z
    }

    #[verifier::when_used_as_spec(spec_dot)]
    pub fn dot(self, other: DVec3) -> (r: Binary64)
        ensures
            r == self.dot(other),
    {
        (self.x * other.x + self.y * other.y) + self.z * other.z
    }

    pub open spec fn spec_length(self) -> Binary64 {
        self.dot(self).sqrt()
    }

    #[verifier::when_used_as_spec(spec_length)]
    pub fn length(self) -> (r: Binary64)
        ensures
            r == self.length(),
    {
        self.dot(self).sqrt()
    }

    /// The vector of length one in the same direction.
    pub open spec fn spec_normalized(self) -> DVec3 {
        self.scaled(Binary64::of(1) / self.length())
    }

    /// The vector of length one in the same direction.
    #[verifier::when_used_as_spec(spec_normalized)]
    pub fn normalized(self) -> (r: DVec3)
        ensures
            r == self.normalized(),
    {
        self.scaled(Binary64::of(1) / self.length())
    }

    /// The vector turned round.
    pub open spec fn spec_opposite(self) -> DVec3 {
        DVec3 { x: self.x.negate(), y: self.y.negate(), z: self.z.negate() }
    }

    /// The vector turned round.
    #[verifier::when_used_as_spec(spec_opposite)]
    pub fn opposite(self) -> (r: DVec3)
        ensures
            r == self.opposite(),
    {
        DVec3 { x: self.x.negate(), y: self.y.negate(), z: self.z.negate() }
    }

    pub open spec fn spec_cross(self, other: DVec3) -> DVec3 {
        DVec3 {
            x: self.y * other.z - other.y * self.z,
            y: self.z * other.x - other.z * self.x,
            z: self.x * other.y - other.x * self.y,
        }
    }

    #[verifier::when_used_as_spec(spec_cross)]
    pub fn cross(self, other: DVec3) -> (r: DVec3)
        ensures
            r == self.cross(other),
    {
        DVec3 {
            x: self.y * other.z - other.y * self.z,
            y: self.z * other.x - other.z * self.x,
            z: self.x * other.y - other.x * self.y,
        }
    }

    pub open spec fn spec_to_single(self) -> Vec3 {
        Vec3 { x: self.x.to_binary32(), y: self.y.to_binary32(), z: self.z.to_binary32() }
    }

    /// The nearest vector in single precision.
    #[verifier::when_used_as_spec(spec_to_single)]
    pub fn to_single(self) -> (r: Vec3)
        ensures
            r == self.to_single(),
    {
        Vec3 { x: self.x.to_binary32(), y: self.y.to_binary32(), z: self.z.to_binary32() }
    }
}

} // verus!
