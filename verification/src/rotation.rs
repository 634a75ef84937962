//! Turns in space and matrices of three by three.
use crate::binary64::Binary64;
use crate::vector::DVec3;
use vstd::prelude::*;

verus! {

/// Four numbers.
#[derive(Clone, Copy, PartialEq, Eq, Debug, Structural)]
pub struct DVec4 {
    pub x: Binary64,
    pub y: Binary64,
    pub z: Binary64,
    pub w: Binary64,
}

impl DVec4 {
    pub open spec fn spec_plus(self, other: DVec4) -> DVec4 {
        DVec4 {
            x: self.x + other.x,
            y: self.y + other.y,
            z: self.z + other.z,
            w: self.w + other.w,
        }
    }

    #[verifier::when_used_as_spec(spec_plus)]
    pub fn plus(self, other: DVec4) -> (r: DVec4)
        ensures
            r == self.plus(other),
    {
        DVec4 {
            x: self.x + other.x,
            y: self.y + other.y,
            z: self.z + other.z,
            w: self.w + other.w,
        }
    }

    pub open spec fn spec_scaled(self, s: Binary64) -> DVec4 {
        DVec4 { x: self.x * s, y: self.y * s, z: self.z * s, w: self.w * s }
    }

    /// All four times a number.
    #[verifier::when_used_as_spec(spec_scaled)]
    pub fn scaled(self, s: Binary64) -> (r: DVec4)
        ensures
            r == self.scaled(s),
    {
        DVec4 { x: self.x * s, y: self.y * s, z: self.z * s, w: self.w * s }
    }

    pub open spec fn spec_dot(self, other: DVec4) -> Binary64 {
        ((self.x * other.x + self.y * other.y) + self.z * other.z) + self.w * other.w
    }

    #[verifier::when_used_as_spec(spec_dot)]
    pub fn dot(self, other: DVec4) -> (r: Binary64)
        ensures
            r == self.dot(other),
    {
        ((self.x * other.x + self.y * other.y) + self.z * other.z) + self.w * other.w
    }

    pub open spec fn spec_is_finite(self) -> bool {
        self.x.is_finite() && self.y.is_finite() && self.z.is_finite() && self.w.is_finite()
    }

    #[verifier::when_used_as_spec(spec_is_finite)]
    pub fn is_finite(self) -> (r: bool)
        ensures
            r == self.is_finite(),
    {
        self.x.is_finite() && self.y.is_finite() && self.z.is_finite() && self.w.is_finite()
    }

    pub open spec fn spec_normalized(self) -> DVec4 {
        self.scaled(Binary64::of(1) / self.dot(self).sqrt())
    }

    /// The same four brought to length one.
    #[verifier::when_used_as_spec(spec_normalized)]
    pub fn normalized(self) -> (r: DVec4)
        ensures
            r == self.normalized(),
    {
        self.scaled(Binary64::of(1) / self.dot(self).sqrt())
    }
}

/// A turn as a quaternion.
#[derive(Clone, Copy, PartialEq, Eq, Debug, Structural)]
pub struct DQuat {
    pub x: Binary64,
    pub y: Binary64,
    pub z: Binary64,
    pub w: Binary64,
}

impl DQuat {
    pub open spec fn spec_to_vec4(self) -> DVec4 {
        DVec4 { x: self.x, y: self.y, z: self.z, w: self.w }
    }

    /// The four numbers.
    #[verifier::when_used_as_spec(spec_to_vec4)]
    pub fn to_vec4(self) -> (r: DVec4)
        ensures
            r == self.to_vec4(),
    {
        DVec4 { x: self.x, y: self.y, z: self.z, w: self.w }
    }

    pub open spec fn spec_from_vec4(v: DVec4) -> DQuat {
        DQuat { x: v.x, y: v.y, z: v.z, w: v.w }
    }

    /// The turn of four numbers.
    #[verifier::when_used_as_spec(spec_from_vec4)]
    pub fn from_vec4(v: DVec4) -> (r: DQuat)
        ensures
            r == DQuat::from_vec4(v),
    {
        DQuat { x: v.x, y: v.y, z: v.z, w: v.w }
    }

    pub open spec fn spec_inverse(self) -> DQuat {
        DQuat { x: self.x.negate(), y: self.y.negate(), z: self.z.negate(), w: self.w }
    }

    /// The turn of a quaternion of length one the other way.
    #[verifier::when_used_as_spec(spec_inverse)]
    pub fn inverse(self) -> (r: DQuat)
        ensures
            r == self.inverse(),
    {
        DQuat { x: self.x.negate(), y: self.y.negate(), z: self.z.negate(), w: self.w }
    }

    pub open spec fn spec_normalized(self) -> DQuat {
        DQuat::from_vec4(self.to_vec4().normalized())
    }

    /// The turn brought to length one.
    #[verifier::when_used_as_spec(spec_normalized)]
    pub fn normalized(self) -> (r: DQuat)
        ensures
            r == self.normalized(),
    {
        DQuat::from_vec4(self.to_vec4().normalized())
    }

    pub open spec fn spec_is_finite(self) -> bool {
        self.to_vec4().is_finite()
    }

    #[verifier::when_used_as_spec(spec_is_finite)]
    pub fn is_finite(self) -> (r: bool)
        ensures
            r == self.is_finite(),
    {
        self.to_vec4().is_finite()
    }

    pub open spec fn spec_identity() -> DQuat {
        let zero = Binary64::of(0);
        DQuat { x: zero, y: zero, z: zero, w: Binary64::of(1) }
    }

    /// The turn that does nothing.
    #[verifier::when_used_as_spec(spec_identity)]
    pub fn identity() -> (r: DQuat)
        ensures
            r == DQuat::identity(),
    {
        let zero = Binary64::of(0);
        DQuat { x: zero, y: zero, z: zero, w: Binary64::of(1) }
    }

    pub open spec fn spec_rotate(self, v: DVec3) -> DVec3 {
        let b = DVec3 { x: self.x, y: self.y, z: self.z };
        let two = Binary64::of(2);
        v.scaled(self.w * self.w - b.dot(b)).plus(b.scaled(v.dot(b) * two)).plus(
            b.cross(v).scaled(self.w * two),
        )
    }

    /// What the turn makes of a vector.
    #[verifier::when_used_as_spec(spec_rotate)]
    pub fn rotate(self, v: DVec3) -> (r: DVec3)
        ensures
            r == self.rotate(v),
    {
        let b = DVec3 { x: self.x, y: self.y, z: self.z };
        let two = Binary64::of(2);
        v.scaled(self.w * self.w - b.dot(b)).plus(b.scaled(v.dot(b) * two)).plus(
            b.cross(v).scaled(self.w * two),
        )
    }

    pub open spec fn spec_after(self, other: DQuat) -> DQuat {
        DQuat {
            x: self.w * other.x + self.x * other.w + self.y * other.z - self.z * other.y,
            y: self.w * other.y - self.x * other.z + self.y * other.w + self.z * other.x,
            z: self.w * other.z + self.x * other.y - self.y * other.x + self.z * other.w,
            w: self.w * other.w - self.x * other.x - self.y * other.y - self.z * other.z,
        }
    }

    /// First the other turn, then this one.
    #[verifier::when_used_as_spec(spec_after)]
    pub fn after(self, other: DQuat) -> (r: DQuat)
        ensures
            r == self.after(other),
    {
        DQuat {
            x: self.w * other.x + self.x * other.w + self.y * other.z - self.z * other.y,
            y: self.w * other.y - self.x * other.z + self.y * other.w + self.z * other.x,
            z: self.w * other.z + self.x * other.y - self.y * other.x + self.z * other.w,
            w: self.w * other.w - self.x * other.x - self.y * other.y - self.z * other.z,
        }
    }
}

/// A matrix by its columns.
#[derive(Clone, Copy, PartialEq, Eq, Debug, Structural)]
pub struct DMat3 {
    pub x_axis: DVec3,
    pub y_axis: DVec3,
    pub z_axis: DVec3,
}

impl DMat3 {
    pub open spec fn spec_apply(self, v: DVec3) -> DVec3 {
        self.x_axis.scaled(v.x).plus(self.y_axis.scaled(v.y)).plus(self.z_axis.scaled(v.z))
    }

    /// What the matrix makes of a vector.
    #[verifier::when_used_as_spec(spec_apply)]
    pub fn apply(self, v: DVec3) -> (r: DVec3)
        ensures
            r == self.apply(v),
    {
        self.x_axis.scaled(v.x).plus(self.y_axis.scaled(v.y)).plus(self.z_axis.scaled(v.z))
    }

    pub open spec fn spec_transposed(self) -> DMat3 {
        DMat3 {
            x_axis: DVec3 { x: self.x_axis.x, y: self.y_axis.x, z: self.z_axis.x },
            y_axis: DVec3 { x: self.x_axis.y, y: self.y_axis.y, z: self.z_axis.y },
            z_axis: DVec3 { x: self.x_axis.z, y: self.y_axis.z, z: self.z_axis.z },
        }
    }

    /// Rows for columns.
    #[verifier::when_used_as_spec(spec_transposed)]
    pub fn transposed(self) -> (r: DMat3)
        ensures
            r == self.transposed(),
    {
        DMat3 {
            x_axis: DVec3 { x: self.x_axis.x, y: self.y_axis.x, z: self.z_axis.x },
            y_axis: DVec3 { x: self.x_axis.y, y: self.y_axis.y, z: self.z_axis.y },
            z_axis: DVec3 { x: self.x_axis.z, y: self.y_axis.z, z: self.z_axis.z },
        }
    }

    pub open spec fn spec_determinant(self) -> Binary64 {
        self.z_axis.dot(self.x_axis.cross(self.y_axis))
    }

    #[verifier::when_used_as_spec(spec_determinant)]
    pub fn determinant(self) -> (r: Binary64)
        ensures
            r == self.determinant(),
    {
        self.z_axis.dot(self.x_axis.cross(self.y_axis))
    }

    pub open spec fn spec_inverse(self) -> DMat3 {
        let scale = Binary64::of(1) / self.determinant();
        DMat3 {
            x_axis: self.y_axis.cross(self.z_axis).scaled(scale),
            y_axis: self.z_axis.cross(self.x_axis).scaled(scale),
            z_axis: self.x_axis.cross(self.y_axis).scaled(scale),
        }.transposed()
    }

    /// The matrix that undoes this one, where the determinant is not zero.
    #[verifier::when_used_as_spec(spec_inverse)]
    pub fn inverse(self) -> (r: DMat3)
        ensures
            r == self.inverse(),
    {
        let scale = Binary64::of(1) / self.determinant();
        DMat3 {
            x_axis: self.y_axis.cross(self.z_axis).scaled(scale),
            y_axis: self.z_axis.cross(self.x_axis).scaled(scale),
            z_axis: self.x_axis.cross(self.y_axis).scaled(scale),
        }.transposed()
    }
}

} // verus!
