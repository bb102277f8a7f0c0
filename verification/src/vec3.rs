//! Three-component transform vectors in fixed-point representation.
//!
//! A coordinate is stored in thousandths of a unit (an `i64` count of
//! "millis"), so the wire value `1.5` is held as `1500`. Coordinates are
//! kept within `[-COORD_LIMIT, COORD_LIMIT]`; additive updates saturate at
//! those bounds instead of overflowing.

use vstd::prelude::*;

verus! {

/// Largest coordinate magnitude the store keeps, in millis (10^12 units).
pub const COORD_LIMIT: i64 = 1_000_000_000_000_000;

/// A coordinate value is in range when its magnitude is at most
/// [`COORD_LIMIT`].
pub open spec fn coord_in_range(c: int) -> bool {
    -(COORD_LIMIT as int) <= c <= COORD_LIMIT as int
}

/// Mathematical clamp of `c` into the coordinate range.
pub open spec fn clamp_coord(c: int) -> int {
    if c < -(COORD_LIMIT as int) {
        -(COORD_LIMIT as int)
    } else if c > COORD_LIMIT as int {
        COORD_LIMIT as int
    } else {
        c
    }
}

/// Saturating addition of two in-range coordinates.
pub open spec fn coord_add_spec(a: int, b: int) -> int {
    clamp_coord(a + b)
}

/// A transform vector: three fixed-point coordinates.
#[derive(Clone, Copy, Debug, PartialEq, Eq, Structural)]
pub struct Vec3 {
    pub x: i64,
    pub y: i64,
    pub z: i64,
}

/// All three coordinates of `v` are in range.
pub open spec fn vec3_in_range(v: Vec3) -> bool {
    &&& coord_in_range(v.x as int)
    &&& coord_in_range(v.y as int)
    &&& coord_in_range(v.z as int)
}

/// Component-wise saturating addition.
pub open spec fn vec3_add_spec(a: Vec3, b: Vec3) -> Vec3 {
    Vec3 {
        x: coord_add_spec(a.x as int, b.x as int) as i64,
        y: coord_add_spec(a.y as int, b.y as int) as i64,
        z: coord_add_spec(a.z as int, b.z as int) as i64,
    }
}

/// The zero vector, the default transform for a user never updated.
pub open spec fn vec3_zero_spec() -> Vec3 {
    Vec3 { x: 0, y: 0, z: 0 }
}

/// Saturating addition of one coordinate pair.
pub fn coord_add(a: i64, b: i64) -> (r: i64)
    ensures
        r == coord_add_spec(a as int, b as int),
        coord_in_range(r as int),
{
    let s: i128 = a as i128 + b as i128;
    if s < -COORD_LIMIT as i128 {
        -COORD_LIMIT
    } else if s > COORD_LIMIT as i128 {
        COORD_LIMIT
    } else {
        s as i64
    }
}

impl Vec3 {
    /// The zero vector.
    pub fn zero() -> (r: Vec3)
        ensures
            r == vec3_zero_spec(),
    {
        Vec3 { x: 0, y: 0, z: 0 }
    }

    /// Component-wise saturating addition of `delta` onto `self`.
    pub fn add(self, delta: Vec3) -> (r: Vec3)
        ensures
            r == vec3_add_spec(self, delta),
            vec3_in_range(r),
    {
        Vec3 { x: coord_add(self.x, delta.x), y: coord_add(self.y, delta.y), z: coord_add(
            self.z,
            delta.z,
        ) }
    }
}

} // verus!
