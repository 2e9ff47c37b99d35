//! Integer lattice points and axis-aligned boxes in voxel units.
use vstd::prelude::*;

verus! {

/// A point (or displacement) on the integer voxel lattice.
#[derive(Clone, Copy, PartialEq, Eq, Structural, Debug, Hash)]
pub struct Point3i {
    pub x: i32,
    pub y: i32,
    pub z: i32,
}

impl Point3i {
    pub fn new(x: i32, y: i32, z: i32) -> (p: Point3i)
        ensures
            p.x == x && p.y == y && p.z == z,
    {
        Point3i { x, y, z }
    }
}

/// A closed axis-aligned box on the voxel lattice.
#[derive(Clone, Copy, PartialEq, Eq, Structural, Debug, Hash)]
pub struct Aabb3i {
    pub min: Point3i,
    pub max: Point3i,
}

impl Aabb3i {
    /// Coordinates stay well inside `i32`, so grown boxes and block tests
    /// stay exact.
    pub open spec fn wf(self) -> bool {
        &&& -0x800000 <= self.min.x <= 0x800000 && -0x800000 <= self.max.x <= 0x800000
        &&& -0x800000 <= self.min.y <= 0x800000 && -0x800000 <= self.max.y <= 0x800000
        &&& -0x800000 <= self.min.z <= 0x800000 && -0x800000 <= self.max.z <= 0x800000
    }
}

} // verus!
