//! Spatial blocks, mesh data, LOD levels and entity ids.
use vstd::prelude::*;
use vstd::arithmetic::div_mod::*;

use crate::field::Material;
use crate::geom::Point3i;

verus! {

/// World space is divided into cubes of this many voxel units per side.
pub const BLOCK_WIDTH: i32 = 8;

/// Coordinate magnitude limit for block positions; keeps all mesh arithmetic
/// inside `i64`.
pub const MAX_BLOCK_COORD: i32 = 0x100000;

/// Mesh coordinates are fixed point with this denominator, in voxel units.
pub const WORLD_SCALE: i64 = 1024;

/// `(d * q + r) / d == q + r / d` for positive `d` and `0 <= r < d`.
proof fn lemma_div_shift(a: int, k: int, d: int)
    requires
        0 < d,
    ensures
        (a + k * d) / d == a / d + k,
{
    lemma_fundamental_div_mod(a, d);
    let q = a / d;
    let r = a % d;
    assert(a + k * d == d * (q + k) + r) by (nonlinear_arith)
        requires
            a == d * q + r,
    ;
    lemma_div_multiples_vanish_fancy(q + k, r, d);
}

/// Shifting by `2^40` then dividing by four recovers the quarter.
pub proof fn lemma_div4_shift(s: int)
    requires
        -0x40_0000_0000 <= s <= 0x40_0000_0000,
    ensures
        (s + 0x100_0000_0000) / 4 == s / 4 + 0x40_0000_0000,
{
    lemma_div_shift(s, 0x40_0000_0000, 4);
}

/// A position on the lattice of blocks: the block covers world voxel
/// coordinates `[8 * p, 8 * p + 8)` on each axis.
#[derive(Clone, Copy, PartialEq, Eq, Structural, Debug, Hash)]
pub struct BlockPosition(pub Point3i);

impl BlockPosition {
    /// Coordinates small enough that every derived mesh coordinate fits.
    pub open spec fn wf(self) -> bool {
        &&& -MAX_BLOCK_COORD <= self.0.x <= MAX_BLOCK_COORD
        &&& -MAX_BLOCK_COORD <= self.0.y <= MAX_BLOCK_COORD
        &&& -MAX_BLOCK_COORD <= self.0.z <= MAX_BLOCK_COORD
    }

    pub fn new(x: i32, y: i32, z: i32) -> (r: BlockPosition)
        ensures
            r == BlockPosition(Point3i { x, y, z }),
    {
        BlockPosition(Point3i { x, y, z })
    }

    pub fn as_pnt(&self) -> (r: &Point3i)
        ensures
            r == self.0,
    {
        let BlockPosition(ref pnt) = *self;
        pnt
    }

    /// The block containing a world voxel coordinate; negative coordinates
    /// floor toward negative infinity, they do not truncate toward zero.
    pub fn from_world_position(wx: i32, wy: i32, wz: i32) -> (r: BlockPosition)
        ensures
            r.0.x == wx as int / 8,
            r.0.y == wy as int / 8,
            r.0.z == wz as int / 8,
    {
        BlockPosition(
            Point3i {
                x: Self::floor_div8(wx),
                y: Self::floor_div8(wy),
                z: Self::floor_div8(wz),
            },
        )
    }

    /// Floor division of a voxel coordinate by the block width.
    fn floor_div8(w: i32) -> (q: i32)
        ensures
            q == w as int / 8,
    {
        let shifted: i64 = w as i64 + 0x8000_0000;
        let q: i64 = shifted / 8 - 0x1000_0000;
        proof {
            lemma_div_shift(w as int, 0x1000_0000, 8);
        }
        q as i32
    }

    /// The world voxel coordinate of the block's low corner.
    pub fn to_world_position(&self) -> (r: Point3i)
        requires
            self.wf(),
        ensures
            r.x == 8 * self.0.x,
            r.y == 8 * self.0.y,
            r.z == 8 * self.0.z,
    {
        Point3i { x: self.0.x * 8, y: self.0.y * 8, z: self.0.z * 8 }
    }

    /// Componentwise translation.
    pub fn add(self, rhs: Point3i) -> (r: BlockPosition)
        requires
            i32::MIN <= self.0.x + rhs.x <= i32::MAX,
            i32::MIN <= self.0.y + rhs.y <= i32::MAX,
            i32::MIN <= self.0.z + rhs.z <= i32::MAX,
        ensures
            r.0.x == self.0.x + rhs.x,
            r.0.y == self.0.y + rhs.y,
            r.0.z == self.0.z + rhs.z,
    {
        BlockPosition(Point3i { x: self.0.x + rhs.x, y: self.0.y + rhs.y, z: self.0.z + rhs.z })
    }
}

/// One of four discrete detail levels; level `l` samples the block laterally
/// `8 >> l` times, with voxels of side `2^l`.
#[derive(Clone, Copy, PartialEq, Eq, Structural, Debug, Hash)]
pub struct LODIndex(pub u8);

impl LODIndex {
    pub open spec fn wf(self) -> bool {
        self.0 < 4
    }
}

/// How many voxels the block is sampled across at this level: 8, 4, 2 or 1.
/// Every count divides `BLOCK_WIDTH` evenly and yields a power-of-two voxel
/// size, so a block always samples cleanly; a mis-configured level cannot be
/// expressed.
pub fn lateral_samples(lod: LODIndex) -> (n: u32)
    requires
        lod.wf(),
    ensures
        n == lateral_samples_of(lod.0 as int),
        1 <= n <= 8,
{
    match lod.0 {
        0 => 8,
        1 => 4,
        2 => 2,
        _ => 1,
    }
}

/// The lateral sample count of level `l`.
pub open spec fn lateral_samples_of(l: int) -> int {
    if l == 0 {
        8
    } else if l == 1 {
        4
    } else if l == 2 {
        2
    } else {
        1
    }
}

/// The voxel size exponent of level `l`: voxels have side `2^l`.
pub open spec fn lg_size_of(l: int) -> int {
    if l == 0 {
        0
    } else if l == 1 {
        1
    } else if l == 2 {
        2
    } else {
        3
    }
}

/// A unique identifier for one triangle of terrain geometry.
#[derive(Clone, Copy, PartialEq, Eq, Structural, Debug, Hash)]
pub struct EntityId(pub u64);

/// A monotonic source of fresh entity ids; ids are never reused.
#[derive(Clone, Copy, PartialEq, Eq, Structural, Debug)]
pub struct IdAllocator {
    pub next: u64,
}

impl IdAllocator {
    pub fn new() -> (r: IdAllocator)
        ensures
            r.next == 0,
    {
        IdAllocator { next: 0 }
    }

    pub fn allocate(&mut self) -> (r: EntityId)
        requires
            old(self).next < u64::MAX,
        ensures
            r == EntityId(old(self).next),
            final(self).next == old(self).next + 1,
    {
        let id = EntityId(self.next);
        self.next = self.next + 1;
        id
    }
}

/// A mesh-space point (or vector): fixed point, `WORLD_SCALE` units per voxel
/// unit.
#[derive(Clone, Copy, PartialEq, Eq, Structural, Debug, Hash)]
pub struct WorldPoint {
    pub x: i64,
    pub y: i64,
    pub z: i64,
}

/// Three mesh-space points; one triangle's vertices, or its three vertex
/// normals.
#[derive(Clone, Copy, PartialEq, Eq, Structural, Debug, Hash)]
pub struct Tri {
    pub a: WorldPoint,
    pub b: WorldPoint,
    pub c: WorldPoint,
}

/// Group three points into a triangle entry.
pub fn tri(a: WorldPoint, b: WorldPoint, c: WorldPoint) -> (r: Tri)
    ensures
        r == (Tri { a, b, c }),
{
    Tri { a, b, c }
}

/// An axis-aligned box in mesh space.
#[derive(Clone, Copy, PartialEq, Eq, Structural, Debug, Hash)]
pub struct WorldAabb {
    pub min: WorldPoint,
    pub max: WorldPoint,
}

impl WorldAabb {
    pub open spec fn contains_point(self, p: WorldPoint) -> bool {
        &&& self.min.x <= p.x <= self.max.x
        &&& self.min.y <= p.y <= self.max.y
        &&& self.min.z <= p.z <= self.max.z
    }
}

/// A block's mesh: parallel vectors, one entry per triangle.
pub struct TerrainBlock {
    /// The three vertices of each triangle.
    pub vertex_coordinates: Vec<Tri>,
    /// The three vertex normals of each triangle.
    pub normals: Vec<Tri>,
    /// A fresh unique id per triangle.
    pub ids: Vec<EntityId>,
    /// Each triangle's id with its bounding box.
    pub bounds: Vec<(EntityId, WorldAabb)>,
    /// Each triangle's material.
    pub materials: Vec<Material>,
}

impl TerrainBlock {
    /// All vectors run in parallel; each triangle's box carries its id and
    /// contains its three vertices.
    pub open spec fn wf(self) -> bool {
        &&& self.normals@.len() == self.vertex_coordinates@.len()
        &&& self.ids@.len() == self.vertex_coordinates@.len()
        &&& self.bounds@.len() == self.vertex_coordinates@.len()
        &&& self.materials@.len() == self.vertex_coordinates@.len()
        &&& forall|i: int|
            0 <= i < self.vertex_coordinates@.len() ==> (#[trigger] self.bounds@[i]).0
                == self.ids@[i]
        &&& forall|i: int|
            0 <= i < self.vertex_coordinates@.len() ==> {
                let t = #[trigger] self.vertex_coordinates@[i];
                let bb = self.bounds@[i].1;
                bb.contains_point(t.a) && bb.contains_point(t.b) && bb.contains_point(t.c)
            }
    }

    /// Construct an empty mesh.
    pub fn empty() -> (r: TerrainBlock)
        ensures
            r.wf(),
            r.vertex_coordinates@.len() == 0,
            r.normals@.len() == 0,
            r.ids@.len() == 0,
            r.bounds@.len() == 0,
            r.materials@.len() == 0,
    {
        TerrainBlock {
            vertex_coordinates: Vec::new(),
            normals: Vec::new(),
            ids: Vec::new(),
            bounds: Vec::new(),
            materials: Vec::new(),
        }
    }

    /// A copy whose vectors hold the same entries.
    pub fn duplicate(&self) -> (r: TerrainBlock)
        ensures
            r.vertex_coordinates@ == self.vertex_coordinates@,
            r.normals@ == self.normals@,
            r.ids@ == self.ids@,
            r.bounds@ == self.bounds@,
            r.materials@ == self.materials@,
    {
        TerrainBlock {
            vertex_coordinates: copy_vec(&self.vertex_coordinates),
            normals: copy_vec(&self.normals),
            ids: copy_vec(&self.ids),
            bounds: copy_vec(&self.bounds),
            materials: copy_vec(&self.materials),
        }
    }
}

/// An element-for-element copy of a vector of plain values.
fn copy_vec<T: Copy>(v: &Vec<T>) -> (r: Vec<T>)
    ensures
        r@ == v@,
{
    let mut r: Vec<T> = Vec::new();
    let mut i: usize = 0;
    while i < v.len()
        invariant
            i <= v.len(),
            r@ =~= v@.subrange(0, i as int),
        decreases v.len() - i,
    {
        r.push(v[i]);
        i = i + 1;
    }
    proof {
        assert(r@ =~= v@);
    }
    r
}

} // verus!
