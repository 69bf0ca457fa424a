//! Three-component points on an integer grid.
//!
//! The index only reads coordinates through comparisons and differences, so
//! points carry plain `i32` components; every derived quantity (extent,
//! volume, slab distances) is computed in a wider type and can never overflow.
use vstd::prelude::*;

verus! {

/// A point (or direction) with three integer components.
#[derive(Clone, Copy, PartialEq, Eq, Structural, Debug)]
pub struct Vec3 {
    pub x: i32,
    pub y: i32,
    pub z: i32,
}

impl Vec3 {
    /// Builds the point `(x, y, z)`.
    pub fn xyz(x: i32, y: i32, z: i32) -> (v: Vec3)
        ensures
            v == (Vec3 { x, y, z }),
    {
        Vec3 { x, y, z }
    }

    /// The origin `(0, 0, 0)`.
    pub fn zero() -> (v: Vec3)
        ensures
            v == (Vec3 { x: 0i32, y: 0i32, z: 0i32 }),
    {
        Vec3 { x: 0, y: 0, z: 0 }
    }

    /// The point `(1, 1, 1)`.
    pub fn one() -> (v: Vec3)
        ensures
            v == (Vec3 { x: 1i32, y: 1i32, z: 1i32 }),
    {
        Vec3 { x: 1, y: 1, z: 1 }
    }
}

} // verus!
