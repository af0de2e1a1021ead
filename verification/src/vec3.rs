//! Three-component fixed-point vectors: an immutable value type with
//! addition, subtraction, scalar multiplication and dot product, each an
//! exact integer operation under bounds that rule overflow out.

use vstd::prelude::*;
use crate::fixed::spec_clamp;

verus! {

/// A vector of three fixed-point scalars (each an `i64` in `1/SCALE` steps).
#[derive(Copy, Clone, Debug, PartialEq, Eq, Structural)]
pub struct Vec3 {
    pub x: i64,
    pub y: i64,
    pub z: i64,
}

/// The mathematical dot product of two vectors, over unbounded integers.
pub open spec fn spec_dot(a: Vec3, b: Vec3) -> int {
    a.x * b.x + a.y * b.y + a.z * b.z
}

/// Every component of `v` lies within `[-b, b]`.
pub open spec fn in_bounds(v: Vec3, b: int) -> bool {
    &&& -b <= v.x <= b
    &&& -b <= v.y <= b
    &&& -b <= v.z <= b
}

impl Vec3 {
    /// The all-zero vector.
    pub fn zero() -> (r: Vec3)
        ensures
            r == (Vec3 { x: 0, y: 0, z: 0 }),
    {
        Vec3 { x: 0, y: 0, z: 0 }
    }

    /// Componentwise sum.
    pub fn add(self, other: Vec3) -> (r: Vec3)
        requires
            i64::MIN <= self.x + other.x <= i64::MAX,
            i64::MIN <= self.y + other.y <= i64::MAX,
            i64::MIN <= self.z + other.z <= i64::MAX,
        ensures
            r.x as int == self.x + other.x,
            r.y as int == self.y + other.y,
            r.z as int == self.z + other.z,
    {
        Vec3 { x: self.x + other.x, y: self.y + other.y, z: self.z + other.z }
    }

    /// Componentwise difference.
    pub fn sub(self, other: Vec3) -> (r: Vec3)
        requires
            i64::MIN <= self.x - other.x <= i64::MAX,
            i64::MIN <= self.y - other.y <= i64::MAX,
            i64::MIN <= self.z - other.z <= i64::MAX,
        ensures
            r.x as int == self.x - other.x,
            r.y as int == self.y - other.y,
            r.z as int == self.z - other.z,
    {
        Vec3 { x: self.x - other.x, y: self.y - other.y, z: self.z - other.z }
    }

    /// Multiplication by a scalar, componentwise.
    pub fn scale(self, k: i64) -> (r: Vec3)
        requires
            i64::MIN <= self.x * k <= i64::MAX,
            i64::MIN <= self.y * k <= i64::MAX,
            i64::MIN <= self.z * k <= i64::MAX,
        ensures
            r.x as int == self.x * k,
            r.y as int == self.y * k,
            r.z as int == self.z * k,
    {
        Vec3 { x: self.x * k, y: self.y * k, z: self.z * k }
    }

    /// Dot product: the scalar sum of elementwise products, used both for
    /// projections and for squared length (`v.dot(v)`).
    pub fn dot(self, other: Vec3) -> (r: i64)
        requires
            -0x2000000000000000 <= self.x * other.x <= 0x2000000000000000,
            -0x2000000000000000 <= self.y * other.y <= 0x2000000000000000,
            -0x2000000000000000 <= self.z * other.z <= 0x2000000000000000,
        ensures
            r as int == spec_dot(self, other),
    {
        self.x * other.x + self.y * other.y + self.z * other.z
    }

    /// Each channel clamped to the unit interval `[0, SCALE]`.
    pub fn clamped(self) -> (r: Vec3)
        ensures
            r.x as int == spec_clamp(self.x as int),
            r.y as int == spec_clamp(self.y as int),
            r.z as int == spec_clamp(self.z as int),
    {
        Vec3 {
            x: clamp_unit(self.x),
            y: clamp_unit(self.y),
            z: clamp_unit(self.z),
        }
    }
}

/// Clamp one fixed-point channel to `[0, SCALE]`.
pub fn clamp_unit(c: i64) -> (r: i64)
    ensures
        r as int == spec_clamp(c as int),
{
    if c < 0 {
        0
    } else if c > 65536 {
        65536
    } else {
        c
    }
}

} // verus!
