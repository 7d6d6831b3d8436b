//! Integer vectors, as positions on a grid.
use vstd::prelude::*;

verus! {

/// A 2D integer vector.
#[derive(Debug, Clone, Copy, PartialEq, Eq, Structural)]
pub struct IVec2 {
    pub x: i32,
    pub y: i32,
}

/// A 3D integer vector.
#[derive(Debug, Clone, Copy, PartialEq, Eq, Structural)]
pub struct IVec3 {
    pub x: i32,
    pub y: i32,
    pub z: i32,
}

impl IVec2 {
    pub fn new(x: i32, y: i32) -> (v: IVec2)
        ensures
            v.x == x,
            v.y == y,
    {
        IVec2 { x, y }
    }
}

impl IVec3 {
    pub fn new(x: i32, y: i32, z: i32) -> (v: IVec3)
        ensures
            v.x == x,
            v.y == y,
            v.z == z,
    {
        IVec3 { x, y, z }
    }
}

} // verus!
