//! Voxel addressing and per-voxel surface data.
use vstd::prelude::*;
use vstd::arithmetic::power2::*;

verus! {

/// A fixed-point fraction in `[0, 1)` stored as a numerator over 256.
#[derive(Clone, Copy, PartialEq, Eq, Structural, Debug, Hash)]
pub struct Frac8 {
    pub numerator: u8,
}

impl Frac8 {
    pub fn of(numerator: u8) -> (r: Frac8)
        ensures
            r.numerator == numerator,
    {
        Frac8 { numerator }
    }
}

/// The surface vertex of a voxel, one fraction per axis, in the voxel's local
/// coordinates.
#[derive(Clone, Copy, PartialEq, Eq, Structural, Debug, Hash)]
pub struct FracVertex {
    pub x: Frac8,
    pub y: Frac8,
    pub z: Frac8,
}

/// Which of the twelve cube edges the surface crosses, grouped by the axis the
/// edge runs along.  `x_e{j}{k}` is the edge along the x axis whose endpoints
/// sit at local y = j and z = k; `y_e{i}{k}` runs along y at x = i, z = k;
/// `z_e{i}{j}` runs along z at x = i, y = j.
#[derive(Clone, Copy, PartialEq, Eq, Structural, Debug, Hash)]
pub struct EdgeCrosses {
    pub x_e00: bool,
    pub x_e01: bool,
    pub x_e10: bool,
    pub x_e11: bool,
    pub y_e00: bool,
    pub y_e01: bool,
    pub y_e10: bool,
    pub y_e11: bool,
    pub z_e00: bool,
    pub z_e01: bool,
    pub z_e10: bool,
    pub z_e11: bool,
}

/// One flag per axis: true when some crossing edge along that axis has its
/// lower endpoint inside the solid, i.e. the solid lies toward negative
/// infinity and the surface is visible from positive infinity.
#[derive(Clone, Copy, PartialEq, Eq, Structural, Debug, Hash)]
pub struct Facing {
    pub x: bool,
    pub y: bool,
    pub z: bool,
}

/// A surface sample for one voxel.  Created only by the surface sampler.
#[derive(Clone, Copy, PartialEq, Eq, Structural, Debug, Hash)]
pub struct Voxel {
    pub vertex: FracVertex,
    pub edge_crosses: EdgeCrosses,
    pub facing: Facing,
}

/// A cube region of the voxel lattice: side `2^lg_size`, origin `(x, y, z)` in
/// voxel units.  Two bounds are equal exactly when all four fields match.
#[derive(Clone, Copy, PartialEq, Eq, Structural, Debug, Hash)]
pub struct VoxelBounds {
    pub x: i32,
    pub y: i32,
    pub z: i32,
    pub lg_size: u8,
}

impl VoxelBounds {
    pub fn new(x: i32, y: i32, z: i32, lg_size: u8) -> (r: VoxelBounds)
        ensures
            r == (VoxelBounds { x, y, z, lg_size }),
    {
        VoxelBounds { x, y, z, lg_size }
    }

    /// The side length `2^lg_size`.
    pub open spec fn side(self) -> int {
        pow2(self.lg_size as nat) as int
    }

    /// A bounds is well formed when its size is addressable and its origin is
    /// aligned to its size, so that it names a node of the octree.
    pub open spec fn wf(self) -> bool {
        &&& self.lg_size <= 31
        &&& (self.x as int) % self.side() == 0
        &&& (self.y as int) % self.side() == 0
        &&& (self.z as int) % self.side() == 0
    }

    /// The cube's far corner stays on the `i32` lattice, so corner coordinates
    /// can be computed exactly.
    pub open spec fn in_range(self) -> bool {
        &&& self.x + self.side() <= i32::MAX
        &&& self.y + self.side() <= i32::MAX
        &&& self.z + self.side() <= i32::MAX
    }

    /// Whether the half-open cubes of two bounds share a lattice cell.
    pub open spec fn overlaps(self, other: VoxelBounds) -> bool {
        &&& self.x < other.x + other.side() && other.x < self.x + self.side()
        &&& self.y < other.y + other.side() && other.y < self.y + self.side()
        &&& self.z < other.z + other.side() && other.z < self.z + self.side()
    }
}

/// `2^k` as an `i64`.
pub fn exp2(k: u8) -> (r: i64)
    requires
        k <= 62,
    ensures
        r == pow2(k as nat),
{
    let mut r: i64 = 1;
    let mut i: u8 = 0;
    proof {
        lemma2_to64();
    }
    while i < k
        invariant
            i <= k <= 62,
            r == pow2(i as nat),
        decreases k - i,
    {
        proof {
            lemma2_to64();
            lemma2_to64_rest();
            if (i as nat) < 62 {
                lemma_pow2_strictly_increases(i as nat, 62);
            }
            lemma_pow2_adds(i as nat, 1);
            assert(pow2((i + 1) as nat) == pow2(i as nat) * 2);
        }
        r = 2 * r;
        i = i + 1;
    }
    r
}

} // verus!
