//! The block mesher: iterates the voxels of one block at one level of detail,
//! fetching or generating each through the octree, and emits triangles.
//!
//! For every voxel whose first edge along an axis crosses the surface, the
//! surface vertices of the voxel and of its three edge-adjacent neighbours
//! form a quad, fanned into four triangles through its centroid; the winding
//! follows the stored facing flag so the solid side is consistently
//! front-facing.  Output accumulates in a fixed iteration order — axis, then
//! lattice position ascending — so that generation is deterministic.
use vstd::prelude::*;
use vstd::arithmetic::power2::*;
use vstd::arithmetic::div_mod::*;

use crate::block::{
    BlockPosition, EntityId, IdAllocator, LODIndex, TerrainBlock, Tri, WorldAabb, WorldPoint,
    lateral_samples, lateral_samples_of, lg_size_of, tri,
};
use crate::field::{Field, Material};
use crate::tree::VoxelTree;
use crate::voxel::{Voxel, VoxelBounds, exp2};

verus! {

/// The bounds of the lattice cell `(i, j, k)` of a block, at voxel size
/// `2^lg`.
pub open spec fn cell_bounds(pos: BlockPosition, lg: int, i: int, j: int, k: int) -> VoxelBounds {
    VoxelBounds {
        x: (8 * pos.0.x + i * pow2(lg as nat)) as i32,
        y: (8 * pos.0.y + j * pow2(lg as nat)) as i32,
        z: (8 * pos.0.z + k * pow2(lg as nat)) as i32,
        lg_size: lg as u8,
    }
}

/// The mesh-space position of a voxel's surface vertex: the cell origin plus
/// the vertex fractions scaled by the voxel size.
pub open spec fn vertex_world(pos: BlockPosition, lg: int, i: int, j: int, k: int, v: Voxel)
    -> WorldPoint {
    let d = pow2(lg as nat) as int;
    WorldPoint {
        x: ((8 * pos.0.x + i * d) * 1024 + v.vertex.x.numerator * d * 4) as i64,
        y: ((8 * pos.0.y + j * d) * 1024 + v.vertex.y.numerator * d * 4) as i64,
        z: ((8 * pos.0.z + k * d) * 1024 + v.vertex.z.numerator * d * 4) as i64,
    }
}

/// The crossing flag of the cell's first edge along axis `a`.
pub open spec fn edge_of(v: Voxel, a: int) -> bool {
    if a == 0 {
        v.edge_crosses.x_e00
    } else if a == 1 {
        v.edge_crosses.y_e00
    } else {
        v.edge_crosses.z_e00
    }
}

/// The facing flag of axis `a`.
pub open spec fn facing_of(v: Voxel, a: int) -> bool {
    if a == 0 {
        v.facing.x
    } else if a == 1 {
        v.facing.y
    } else {
        v.facing.z
    }
}

/// The first neighbour offset of axis `a`.
pub open spec fn off1(a: int) -> (int, int, int) {
    if a == 0 {
        (0, -1, 0)
    } else if a == 1 {
        (0, 0, -1)
    } else {
        (0, -1, 0)
    }
}

/// The second neighbour offset of axis `a`.
pub open spec fn off2(a: int) -> (int, int, int) {
    if a == 0 {
        (0, 0, -1)
    } else if a == 1 {
        (-1, 0, 0)
    } else {
        (-1, 0, 0)
    }
}

/// The triangles one cell contributes along axis `a`: none unless the cell
/// has a surface voxel whose first edge along `a` crosses and all three
/// edge-adjacent neighbours have surface voxels; otherwise a quad of the four
/// surface vertices fanned into four triangles through its centroid, wound by
/// the facing flag.
#[verifier::opaque]
pub open spec fn cell_tris(
    t: VoxelTree,
    f: Field,
    pos: BlockPosition,
    lg: int,
    a: int,
    i: int,
    j: int,
    k: int,
) -> Seq<Tri> {
    match t.effective(f, cell_bounds(pos, lg, i, j, k)) {
        Option::None => Seq::empty(),
        Option::Some(v) => {
            if !edge_of(v, a) {
                Seq::empty()
            } else {
                let d1 = off1(a);
                let d2 = off2(a);
                let i1 = (i + d1.0 + d2.0, j + d1.1 + d2.1, k + d1.2 + d2.2);
                let i2 = (i + d1.0, j + d1.1, k + d1.2);
                let i4 = (i + d2.0, j + d2.1, k + d2.2);
                let w1 = t.effective(f, cell_bounds(pos, lg, i1.0, i1.1, i1.2));
                let w2 = t.effective(f, cell_bounds(pos, lg, i2.0, i2.1, i2.2));
                let w4 = t.effective(f, cell_bounds(pos, lg, i4.0, i4.1, i4.2));
                if w1 is None || w2 is None || w4 is None {
                    Seq::empty()
                } else {
                    let p1 = vertex_world(pos, lg, i1.0, i1.1, i1.2, w1->Some_0);
                    let p2 = vertex_world(pos, lg, i2.0, i2.1, i2.2, w2->Some_0);
                    let p3 = vertex_world(pos, lg, i, j, k, v);
                    let p4 = vertex_world(pos, lg, i4.0, i4.1, i4.2, w4->Some_0);
                    let c = WorldPoint {
                        x: ((p1.x + p2.x + p3.x + p4.x) / 4) as i64,
                        y: ((p1.y + p2.y + p3.y + p4.y) / 4) as i64,
                        z: ((p1.z + p2.z + p3.z + p4.z) / 4) as i64,
                    };
                    if facing_of(v, a) {
                        seq![
                            Tri { a: p1, b: p4, c },
                            Tri { a: p4, b: p3, c },
                            Tri { a: p3, b: p2, c },
                            Tri { a: p2, b: p1, c },
                        ]
                    } else {
                        seq![
                            Tri { a: p1, b: p2, c },
                            Tri { a: p2, b: p3, c },
                            Tri { a: p3, b: p4, c },
                            Tri { a: p4, b: p1, c },
                        ]
                    }
                }
            }
        },
    }
}

/// Triangles of cells `(a, i, j, 0..kc)`.
pub open spec fn tris_z(
    t: VoxelTree,
    f: Field,
    pos: BlockPosition,
    lg: int,
    a: int,
    i: int,
    j: int,
    kc: int,
) -> Seq<Tri>
    decreases kc,
{
    if kc <= 0 {
        Seq::empty()
    } else {
        tris_z(t, f, pos, lg, a, i, j, kc - 1) + cell_tris(t, f, pos, lg, a, i, j, kc - 1)
    }
}

/// Triangles of cells `(a, i, 0..jc, 0..n)`.
pub open spec fn tris_y(
    t: VoxelTree,
    f: Field,
    pos: BlockPosition,
    lg: int,
    n: int,
    a: int,
    i: int,
    jc: int,
) -> Seq<Tri>
    decreases jc,
{
    if jc <= 0 {
        Seq::empty()
    } else {
        tris_y(t, f, pos, lg, n, a, i, jc - 1) + tris_z(t, f, pos, lg, a, i, jc - 1, n)
    }
}

/// Triangles of cells `(a, 0..ic, 0..n, 0..n)`.
pub open spec fn tris_x(
    t: VoxelTree,
    f: Field,
    pos: BlockPosition,
    lg: int,
    n: int,
    a: int,
    ic: int,
) -> Seq<Tri>
    decreases ic,
{
    if ic <= 0 {
        Seq::empty()
    } else {
        tris_x(t, f, pos, lg, n, a, ic - 1) + tris_y(t, f, pos, lg, n, a, ic - 1, n)
    }
}

/// Triangles of axes `0..ac`.
pub open spec fn tris_axes(
    t: VoxelTree,
    f: Field,
    pos: BlockPosition,
    lg: int,
    n: int,
    ac: int,
) -> Seq<Tri>
    decreases ac,
{
    if ac <= 0 {
        Seq::empty()
    } else {
        tris_axes(t, f, pos, lg, n, ac - 1) + tris_x(t, f, pos, lg, n, ac - 1, n)
    }
}

/// Every triangle the mesher emits for a block, in emission order.
pub open spec fn block_tris(t: VoxelTree, f: Field, pos: BlockPosition, lod: int) -> Seq<Tri> {
    tris_axes(t, f, pos, lg_size_of(lod), lateral_samples_of(lod), 3)
}

/// The constant upward vertex normal.
pub open spec fn up_tri() -> Tri {
    Tri {
        a: WorldPoint { x: 0, y: 1, z: 0 },
        b: WorldPoint { x: 0, y: 1, z: 0 },
        c: WorldPoint { x: 0, y: 1, z: 0 },
    }
}

pub open spec fn min3(a: int, b: int, c: int) -> int {
    if a <= b && a <= c {
        a
    } else if b <= c {
        b
    } else {
        c
    }
}

pub open spec fn max3(a: int, b: int, c: int) -> int {
    if a >= b && a >= c {
        a
    } else if b >= c {
        b
    } else {
        c
    }
}

/// A triangle's bounding box: the componentwise extremes of its vertices,
/// with the bottom padded one voxel unit downward to tolerate collision
/// rounding.
pub open spec fn tri_aabb(t: Tri) -> WorldAabb {
    WorldAabb {
        min: WorldPoint {
            x: min3(t.a.x as int, t.b.x as int, t.c.x as int) as i64,
            y: (min3(t.a.y as int, t.b.y as int, t.c.y as int) - 1024) as i64,
            z: min3(t.a.z as int, t.b.z as int, t.c.z as int) as i64,
        },
        max: WorldPoint {
            x: max3(t.a.x as int, t.b.x as int, t.c.x as int) as i64,
            y: max3(t.a.y as int, t.b.y as int, t.c.y as int) as i64,
            z: max3(t.a.z as int, t.b.z as int, t.c.z as int) as i64,
        },
    }
}

/// The region a mesher pass may touch: the block's cube grown by one block
/// width, since neighbour fetches reach at most one voxel outward.
pub open spec fn region_overlaps(pos: BlockPosition, b2: VoxelBounds) -> bool {
    &&& 8 * pos.0.x - 8 < b2.x + b2.side() && b2.x < 8 * pos.0.x + 8
    &&& 8 * pos.0.y - 8 < b2.y + b2.side() && b2.y < 8 * pos.0.y + 8
    &&& 8 * pos.0.z - 8 < b2.z + b2.side() && b2.z < 8 * pos.0.z + 8
}

/// Cell bounds are well formed, in range, and their coordinates are exact.
pub proof fn lemma_cell_bounds_wf(pos: BlockPosition, lg: int, i: int, j: int, k: int)
    requires
        pos.wf(),
        0 <= lg <= 3,
        -1 <= i <= 8,
        -1 <= j <= 8,
        -1 <= k <= 8,
    ensures
        ({
            let b = cell_bounds(pos, lg, i, j, k);
            let d = pow2(lg as nat) as int;
            &&& b.wf()
            &&& b.in_range()
            &&& b.x == 8 * pos.0.x + i * d
            &&& b.y == 8 * pos.0.y + j * d
            &&& b.z == 8 * pos.0.z + k * d
            &&& b.side() == d
        }),
{
    lemma2_to64();
    let d = pow2(lg as nat) as int;
    assert(1 <= d <= 8);
    let b = cell_bounds(pos, lg, i, j, k);
    let xi = 8 * pos.0.x + i * d;
    let yi = 8 * pos.0.y + j * d;
    let zi = 8 * pos.0.z + k * d;
    assert(-0x900000 <= xi <= 0x900000 && -0x900000 <= yi <= 0x900000 && -0x900000 <= zi
        <= 0x900000) by (nonlinear_arith)
        requires
            1 <= d <= 8,
            -1 <= i <= 8,
            -1 <= j <= 8,
            -1 <= k <= 8,
            pos.wf(),
            xi == 8 * pos.0.x + i * d,
            yi == 8 * pos.0.y + j * d,
            zi == 8 * pos.0.z + k * d,
    ;
    assert(b.x == xi && b.y == yi && b.z == zi);
    assert((8 * pos.0.x + i * d) % d == 0 && (8 * pos.0.y + j * d) % d == 0 && (8 * pos.0.z + k * d)
        % d == 0) by {
        let e = 8int / d;
        assert(8 == d * e && (8 * pos.0.x == d * (e * pos.0.x)) && (8 * pos.0.y == d * (e * pos.0.y))
            && (8 * pos.0.z == d * (e * pos.0.z))) by (nonlinear_arith)
            requires
                d == 1 || d == 2 || d == 4 || d == 8,
                e == 8int / d,
        ;
        mod_zero_axis(8 * pos.0.x, i, d);
        mod_zero_axis(8 * pos.0.y, j, d);
        mod_zero_axis(8 * pos.0.z, k, d);
    }
}

/// `(m + i * d) % d == 0` when `d` divides `m`.
proof fn mod_zero_axis(m: int, i: int, d: int)
    requires
        d > 0,
        exists|q: int| m == #[trigger] (d * q),
    ensures
        (m + i * d) % d == 0,
{
    let q = choose|q: int| m == #[trigger] (d * q);
    assert(m + i * d == (q + i) * d) by (nonlinear_arith)
        requires
            m == d * q,
    ;
    lemma_mod_multiples_basic(q + i, d);
}


proof fn lemma_tris_z_len(
    t: VoxelTree,
    f: Field,
    pos: BlockPosition,
    lg: int,
    a: int,
    i: int,
    j: int,
    kc: int,
)
    requires
        kc >= 0,
    ensures
        tris_z(t, f, pos, lg, a, i, j, kc).len() <= 4 * kc,
    decreases kc,
{
    if kc > 0 {
        lemma_tris_z_len(t, f, pos, lg, a, i, j, kc - 1);
        lemma_cell_tris_len(t, f, pos, lg, a, i, j, kc - 1);
    }
}

/// One cell emits at most four triangles.
#[verifier::spinoff_prover]
proof fn lemma_cell_tris_len(
    t: VoxelTree,
    f: Field,
    pos: BlockPosition,
    lg: int,
    a: int,
    i: int,
    j: int,
    k: int,
)
    ensures
        cell_tris(t, f, pos, lg, a, i, j, k).len() <= 4,
{
    reveal(cell_tris);
}

proof fn lemma_tris_y_len(
    t: VoxelTree,
    f: Field,
    pos: BlockPosition,
    lg: int,
    n: int,
    a: int,
    i: int,
    jc: int,
)
    requires
        jc >= 0,
        n >= 0,
    ensures
        tris_y(t, f, pos, lg, n, a, i, jc).len() <= 4 * n * jc,
    decreases jc,
{
    if jc > 0 {
        lemma_tris_y_len(t, f, pos, lg, n, a, i, jc - 1);
        lemma_tris_z_len(t, f, pos, lg, a, i, jc - 1, n);
        assert(4 * n * (jc - 1) + 4 * n == 4 * n * jc) by (nonlinear_arith);
    } else {
        assert(4 * n * jc >= 0) by (nonlinear_arith)
            requires
                n >= 0,
                jc == 0,
        ;
    }
}

proof fn lemma_tris_x_len(
    t: VoxelTree,
    f: Field,
    pos: BlockPosition,
    lg: int,
    n: int,
    a: int,
    ic: int,
)
    requires
        ic >= 0,
        n >= 0,
    ensures
        tris_x(t, f, pos, lg, n, a, ic).len() <= 4 * n * n * ic,
    decreases ic,
{
    if ic > 0 {
        lemma_tris_x_len(t, f, pos, lg, n, a, ic - 1);
        lemma_tris_y_len(t, f, pos, lg, n, a, ic - 1, n);
        assert(4 * n * n * (ic - 1) + 4 * n * n == 4 * n * n * ic) by (nonlinear_arith);
    } else {
        assert(4 * n * n * ic >= 0) by (nonlinear_arith)
            requires
                n >= 0,
                ic == 0,
        ;
    }
}

proof fn lemma_tris_axes_len(
    t: VoxelTree,
    f: Field,
    pos: BlockPosition,
    lg: int,
    n: int,
    ac: int,
)
    requires
        ac >= 0,
        n >= 0,
    ensures
        tris_axes(t, f, pos, lg, n, ac).len() <= 4 * n * n * n * ac,
    decreases ac,
{
    if ac > 0 {
        lemma_tris_axes_len(t, f, pos, lg, n, ac - 1);
        lemma_tris_x_len(t, f, pos, lg, n, ac - 1, n);
        assert(4 * n * n * n * (ac - 1) + 4 * n * n * n == 4 * n * n * n * ac) by (nonlinear_arith);
    } else {
        assert(4 * n * n * n * ac >= 0) by (nonlinear_arith)
            requires
                n >= 0,
                ac == 0,
        ;
    }
}

/// The triangle count of a block at a level with `n` lateral samples is at
/// most `4 * 3 * n^3`: at most four triangles per crossing edge, three axes,
/// `n^3` voxels.
pub proof fn lemma_triangle_count(t: VoxelTree, f: Field, pos: BlockPosition, lod: int)
    requires
        0 <= lod < 4,
    ensures
        ({
            let n = lateral_samples_of(lod);
            block_tris(t, f, pos, lod).len() <= 4 * 3 * n * n * n
        }),
{
    let n = lateral_samples_of(lod);
    lemma_tris_axes_len(t, f, pos, lg_size_of(lod), n, 3);
    assert(4 * n * n * n * 3 == 4 * 3 * n * n * n) by (nonlinear_arith);
}

/// A cell's triangles depend only on what a fetch observes at the cell and
/// its neighbours.
#[verifier::spinoff_prover]
#[verifier::rlimit(60)]
proof fn lemma_cell_tris_eq(
    t1: VoxelTree,
    t2: VoxelTree,
    f: Field,
    pos: BlockPosition,
    lg: int,
    a: int,
    i: int,
    j: int,
    k: int,
)
    requires
        pos.wf(),
        0 <= lg <= 3,
        0 <= i <= 8,
        0 <= j <= 8,
        0 <= k <= 8,
        forall|b: VoxelBounds|
            b.wf() && b.lg_size == lg ==> #[trigger] t1.effective(f, b) == t2.effective(f, b),
    ensures
        cell_tris(t1, f, pos, lg, a, i, j, k) == cell_tris(t2, f, pos, lg, a, i, j, k),
{
    reveal(cell_tris);
    let d1 = off1(a);
    let d2 = off2(a);
    lemma_cell_bounds_wf(pos, lg, i, j, k);
    lemma_cell_bounds_wf(pos, lg, i + d1.0 + d2.0, j + d1.1 + d2.1, k + d1.2 + d2.2);
    lemma_cell_bounds_wf(pos, lg, i + d1.0, j + d1.1, k + d1.2);
    lemma_cell_bounds_wf(pos, lg, i + d2.0, j + d2.1, k + d2.2);
}

proof fn lemma_tris_z_eq(
    t1: VoxelTree,
    t2: VoxelTree,
    f: Field,
    pos: BlockPosition,
    lg: int,
    a: int,
    i: int,
    j: int,
    kc: int,
)
    requires
        pos.wf(),
        0 <= lg <= 3,
        0 <= i <= 8,
        0 <= j <= 8,
        kc <= 8,
        forall|b: VoxelBounds|
            b.wf() && b.lg_size == lg ==> #[trigger] t1.effective(f, b) == t2.effective(f, b),
    ensures
        tris_z(t1, f, pos, lg, a, i, j, kc) == tris_z(t2, f, pos, lg, a, i, j, kc),
    decreases kc,
{
    if kc > 0 {
        lemma_tris_z_eq(t1, t2, f, pos, lg, a, i, j, kc - 1);
        lemma_cell_tris_eq(t1, t2, f, pos, lg, a, i, j, kc - 1);
    }
}

proof fn lemma_tris_y_eq(
    t1: VoxelTree,
    t2: VoxelTree,
    f: Field,
    pos: BlockPosition,
    lg: int,
    n: int,
    a: int,
    i: int,
    jc: int,
)
    requires
        pos.wf(),
        0 <= lg <= 3,
        0 <= i <= 8,
        0 <= n <= 8,
        jc <= 8,
        forall|b: VoxelBounds|
            b.wf() && b.lg_size == lg ==> #[trigger] t1.effective(f, b) == t2.effective(f, b),
    ensures
        tris_y(t1, f, pos, lg, n, a, i, jc) == tris_y(t2, f, pos, lg, n, a, i, jc),
    decreases jc,
{
    if jc > 0 {
        lemma_tris_y_eq(t1, t2, f, pos, lg, n, a, i, jc - 1);
        lemma_tris_z_eq(t1, t2, f, pos, lg, a, i, jc - 1, n);
    }
}

proof fn lemma_tris_x_eq(
    t1: VoxelTree,
    t2: VoxelTree,
    f: Field,
    pos: BlockPosition,
    lg: int,
    n: int,
    a: int,
    ic: int,
)
    requires
        pos.wf(),
        0 <= lg <= 3,
        0 <= n <= 8,
        ic <= 8,
        forall|b: VoxelBounds|
            b.wf() && b.lg_size == lg ==> #[trigger] t1.effective(f, b) == t2.effective(f, b),
    ensures
        tris_x(t1, f, pos, lg, n, a, ic) == tris_x(t2, f, pos, lg, n, a, ic),
    decreases ic,
{
    if ic > 0 {
        lemma_tris_x_eq(t1, t2, f, pos, lg, n, a, ic - 1);
        lemma_tris_y_eq(t1, t2, f, pos, lg, n, a, ic - 1, n);
    }
}

/// The emitted triangles depend only on what a fetch observes per lattice
/// slot: two trees that agree there — for example a tree before and after a
/// mesher pass cached its samples — produce identical geometry.
pub proof fn lemma_block_tris_tree_independent(
    t1: VoxelTree,
    t2: VoxelTree,
    f: Field,
    pos: BlockPosition,
    lod: int,
)
    requires
        pos.wf(),
        0 <= lod < 4,
        forall|b: VoxelBounds|
            b.wf() && b.lg_size == lg_size_of(lod) ==> #[trigger] t1.effective(f, b)
                == t2.effective(f, b),
    ensures
        block_tris(t1, f, pos, lod) == block_tris(t2, f, pos, lod),
{
    let lg = lg_size_of(lod);
    let n = lateral_samples_of(lod);
    lemma_tris_x_eq(t1, t2, f, pos, lg, n, 0, n);
    lemma_tris_x_eq(t1, t2, f, pos, lg, n, 1, n);
    lemma_tris_x_eq(t1, t2, f, pos, lg, n, 2, n);
    reveal_with_fuel(tris_axes, 5);
    assert(tris_axes(t1, f, pos, lg, n, 3) == tris_axes(t2, f, pos, lg, n, 3));
}


/// How a mesh under construction relates to the triangles emitted so far:
/// parallel vectors hold, per triangle, its vertices, the constant upward
/// normals, ids counting up from `id0`, the id with the triangle's bounding
/// box, and the terrain material.
pub open spec fn views_ok(block: TerrainBlock, ts: Seq<Tri>, id0: int) -> bool {
    &&& block.vertex_coordinates@ == ts
    &&& block.normals@ == Seq::new(ts.len(), |q: int| up_tri())
    &&& block.ids@ == Seq::new(ts.len(), |q: int| EntityId((id0 + q) as u64))
    &&& block.bounds@ == Seq::new(
        ts.len(),
        |q: int| (EntityId((id0 + q) as u64), tri_aabb(ts[q])),
    )
    &&& block.materials@ == Seq::new(ts.len(), |q: int| Material::Terrain)
    &&& 0 <= id0
    &&& id0 + ts.len() <= u64::MAX
    &&& forall|q: int|
        0 <= q < ts.len() ==> (#[trigger] ts[q]).a.y > i64::MIN + 1024 && ts[q].b.y > i64::MIN
            + 1024 && ts[q].c.y > i64::MIN + 1024
}

/// A mesh whose views are in order is well formed.
pub proof fn lemma_views_ok_wf(block: TerrainBlock, ts: Seq<Tri>, id0: int)
    requires
        views_ok(block, ts, id0),
    ensures
        block.wf(),
{
    assert forall|q: int| 0 <= q < block.vertex_coordinates@.len() implies {
        let t = #[trigger] block.vertex_coordinates@[q];
        let bb = block.bounds@[q].1;
        bb.contains_point(t.a) && bb.contains_point(t.b) && bb.contains_point(t.c)
    } by {
        assert(block.bounds@[q].1 == tri_aabb(ts[q]));
        assert(block.vertex_coordinates@[q] == ts[q]);
    }
}

fn min3e(a: i64, b: i64, c: i64) -> (r: i64)
    ensures
        r == min3(a as int, b as int, c as int),
{
    let m = if a <= b {
        a
    } else {
        b
    };
    if m <= c {
        m
    } else {
        c
    }
}

fn max3e(a: i64, b: i64, c: i64) -> (r: i64)
    ensures
        r == max3(a as int, b as int, c as int),
{
    let m = if a >= b {
        a
    } else {
        b
    };
    if m >= c {
        m
    } else {
        c
    }
}

/// The exact mean of four fixed-point coordinates whose sum is a multiple of
/// four.
fn avg4(x1: i64, x2: i64, x3: i64, x4: i64) -> (r: i64)
    requires
        -0x10_0000_0000 <= x1 <= 0x10_0000_0000,
        -0x10_0000_0000 <= x2 <= 0x10_0000_0000,
        -0x10_0000_0000 <= x3 <= 0x10_0000_0000,
        -0x10_0000_0000 <= x4 <= 0x10_0000_0000,
    ensures
        r == (x1 + x2 + x3 + x4) / 4,
{
    let s: i64 = x1 + x2 + x3 + x4;
    let su: u64 = (s + 0x100_0000_0000) as u64;
    let q: u64 = su / 4;
    proof {
        crate::block::lemma_div4_shift(s as int);
    }
    (q as i64) - 0x40_0000_0000
}

/// Append one triangle: its vertices, the constant normal, a fresh id, its
/// padded bounding box, and the terrain material.
#[verifier::spinoff_prover]
fn add_poly(
    block: &mut TerrainBlock,
    ids: &mut IdAllocator,
    v1: WorldPoint,
    v2: WorldPoint,
    cen: WorldPoint,
    Ghost(ts): Ghost<Seq<Tri>>,
    Ghost(id0): Ghost<int>,
)
    requires
        views_ok(*old(block), ts, id0),
        old(ids).next == id0 + ts.len(),
        old(ids).next < u64::MAX,
        v1.y > i64::MIN + 1024,
        v2.y > i64::MIN + 1024,
        cen.y > i64::MIN + 1024,
    ensures
        views_ok(*final(block), ts.push(Tri { a: v1, b: v2, c: cen }), id0),
        final(ids).next == id0 + ts.len() + 1,
{
    let id = ids.allocate();
    let minx = min3e(v1.x, v2.x, cen.x);
    let miny = min3e(v1.y, v2.y, cen.y);
    let minz = min3e(v1.z, v2.z, cen.z);
    let maxx = max3e(v1.x, v2.x, cen.x);
    let maxy = max3e(v1.y, v2.y, cen.y);
    let maxz = max3e(v1.z, v2.z, cen.z);
    let bb = WorldAabb {
        min: WorldPoint { x: minx, y: miny - 1024, z: minz },
        max: WorldPoint { x: maxx, y: maxy, z: maxz },
    };
    let t = tri(v1, v2, cen);
    let up = WorldPoint { x: 0, y: 1, z: 0 };
    block.vertex_coordinates.push(t);
    block.normals.push(tri(up, up, up));
    block.ids.push(id);
    block.bounds.push((id, bb));
    block.materials.push(Material::Terrain);
    proof {
        let ts2 = ts.push(t);
        assert(bb == tri_aabb(t));
        assert(block.vertex_coordinates@ =~= ts2);
        assert(block.normals@ =~= Seq::new(ts2.len(), |q: int| up_tri()));
        assert(block.ids@ =~= Seq::new(ts2.len(), |q: int| EntityId((id0 + q) as u64)));
        assert(block.bounds@ =~= Seq::new(
            ts2.len(),
            |q: int| (EntityId((id0 + q) as u64), tri_aabb(ts2[q])),
        ));
        assert(block.materials@ =~= Seq::new(ts2.len(), |q: int| Material::Terrain));
    }
}

/// Lateral sample count and voxel size multiply out to the block width.
pub proof fn lemma_lod_pairs(l: int)
    requires
        0 <= l < 4,
    ensures
        lateral_samples_of(l) * pow2(lg_size_of(l) as nat) == 8,
        1 <= lateral_samples_of(l) <= 8,
        0 <= lg_size_of(l) <= 3,
{
    lemma2_to64();
}

/// The mesh-space vertex of a voxel, computed exactly.
fn world_vertex(position: &BlockPosition, lgu: u8, i: i32, j: i32, k: i32, v: &Voxel) -> (p:
    WorldPoint)
    requires
        position.wf(),
        lgu <= 3,
        -1 <= i <= 8,
        -1 <= j <= 8,
        -1 <= k <= 8,
    ensures
        p == vertex_world(*position, lgu as int, i as int, j as int, k as int, *v),
        p.x % 4 == 0 && p.y % 4 == 0 && p.z % 4 == 0,
        -0x10_0000_0000 <= p.x <= 0x10_0000_0000,
        -0x10_0000_0000 <= p.y <= 0x10_0000_0000,
        -0x10_0000_0000 <= p.z <= 0x10_0000_0000,
{
    let d: i64 = exp2(lgu);
    proof {
        lemma2_to64();
        assert(lgu == 0 || lgu == 1 || lgu == 2 || lgu == 3);
        assert(1 <= d <= 8);
        assert(-64 <= (i as int) * (d as int) <= 64 && -64 <= (j as int) * (d as int) <= 64 && -64
            <= (k as int) * (d as int) <= 64) by (nonlinear_arith)
            requires
                -1 <= i <= 8,
                -1 <= j <= 8,
                -1 <= k <= 8,
                1 <= d <= 8,
        ;
    }
    let px: i64 = 8 * (position.0.x as i64) + (i as i64) * d;
    let py: i64 = 8 * (position.0.y as i64) + (j as i64) * d;
    let pz: i64 = 8 * (position.0.z as i64) + (k as i64) * d;
    let x: i64 = px * 1024 + (v.vertex.x.numerator as i64) * d * 4;
    let y: i64 = py * 1024 + (v.vertex.y.numerator as i64) * d * 4;
    let z: i64 = pz * 1024 + (v.vertex.z.numerator as i64) * d * 4;
    proof {
        lemma_world_coord(px as int, v.vertex.x.numerator as int, d as int);
        lemma_world_coord(py as int, v.vertex.y.numerator as int, d as int);
        lemma_world_coord(pz as int, v.vertex.z.numerator as int, d as int);
    }
    WorldPoint { x, y, z }
}

/// A mesh coordinate is a multiple of four and bounded.
proof fn lemma_world_coord(p: int, num: int, d: int)
    requires
        -0x900000 <= p <= 0x900000,
        0 <= num <= 255,
        1 <= d <= 8,
    ensures
        (p * 1024 + num * d * 4) % 4 == 0,
        -0x10_0000_0000 <= p * 1024 + num * d * 4 <= 0x10_0000_0000,
{
    assert(p * 1024 + num * d * 4 == (p * 256 + num * d) * 4) by (nonlinear_arith);
    lemma_mod_multiples_basic(p * 256 + num * d, 4);
    assert((p * 256 + num * d) * 4 % 4 == 0);
    assert(-0x10_0000_0000 <= p * 1024 + num * d * 4 <= 0x10_0000_0000) by (nonlinear_arith)
        requires
            -0x900000 <= p <= 0x900000,
            0 <= num <= 255,
            1 <= d <= 8,
    ;
}


/// What a fetch observes per slot of the working size never changes during a
/// mesher pass: caching a fresh sample is invisible to later fetches.
pub open spec fn eff_inv(cur: VoxelTree, t0: VoxelTree, f: Field, lg: int) -> bool {
    forall|b2: VoxelBounds|
        b2.wf() && b2.lg_size == lg ==> #[trigger] cur.effective(f, b2) == t0.effective(f, b2)
}

/// Slots outside the block's grown region keep their leaves.
pub open spec fn leaf_inv(cur: VoxelTree, t0: VoxelTree, pos: BlockPosition) -> bool {
    forall|b2: VoxelBounds|
        b2.wf() && !region_overlaps(pos, b2) ==> #[trigger] cur.leaf(b2) == t0.leaf(b2)
}

/// The lattice cells processed so far hold exactly what a fetch observed on
/// entry: the block's voxels are cached in the octree as the pass walks them.
pub open spec fn cells_cached(
    cur: VoxelTree,
    t0: VoxelTree,
    f: Field,
    pos: BlockPosition,
    lg: int,
    n: int,
    a: int,
    i: int,
    j: int,
    k: int,
) -> bool {
    forall|i2: int, j2: int, k2: int|
        0 <= i2 < n && 0 <= j2 < n && 0 <= k2 < n && (a >= 1 || i2 < i || (i2 == i && j2 < j) || (
        i2 == i && j2 == j && k2 < k)) ==> #[trigger] cur.leaf(cell_bounds(pos, lg, i2, j2, k2))
            == t0.effective(f, cell_bounds(pos, lg, i2, j2, k2))
}

/// One cell step extends the cached prefix of the lattice by that cell.
#[verifier::spinoff_prover]
proof fn lemma_cells_cached_step(
    vpre: VoxelTree,
    vpost: VoxelTree,
    t0: VoxelTree,
    f: Field,
    pos: BlockPosition,
    lg: int,
    n: int,
    a: int,
    i: int,
    j: int,
    k: int,
)
    requires
        pos.wf(),
        0 <= lg <= 3,
        1 <= n <= 8,
        0 <= i < n,
        0 <= j < n,
        0 <= k < n,
        cells_cached(vpre, t0, f, pos, lg, n, a, i, j, k),
        cache_step(vpost, vpre, t0, f, lg),
        vpost.leaf(cell_bounds(pos, lg, i, j, k)) == t0.effective(f, cell_bounds(pos, lg, i, j, k)),
    ensures
        cells_cached(vpost, t0, f, pos, lg, n, a, i, j, k + 1),
{
    assert forall|i2: int, j2: int, k2: int|
        0 <= i2 < n && 0 <= j2 < n && 0 <= k2 < n && (a >= 1 || i2 < i || (i2 == i && j2 < j) || (
        i2 == i && j2 == j && k2 < k + 1)) implies #[trigger] vpost.leaf(
        cell_bounds(pos, lg, i2, j2, k2),
    ) == t0.effective(f, cell_bounds(pos, lg, i2, j2, k2)) by {
        lemma_cell_bounds_wf(pos, lg, i2, j2, k2);
        if !(i2 == i && j2 == j && k2 == k) {
            assert(vpre.leaf(cell_bounds(pos, lg, i2, j2, k2)) == t0.effective(
                f,
                cell_bounds(pos, lg, i2, j2, k2),
            ));
        }
    }
}

/// One step of the pass either leaves a same-size slot alone or caches in it
/// exactly what a fetch observed on entry.
pub open spec fn cache_step(cur: VoxelTree, prev: VoxelTree, t0: VoxelTree, f: Field, lg: int)
    -> bool {
    forall|b2: VoxelBounds|
        b2.wf() && b2.lg_size == lg ==> #[trigger] cur.leaf(b2) == prev.leaf(b2) || cur.leaf(b2)
            == t0.effective(f, b2)
}

/// Fetch one lattice cell's voxel through the octree, preserving the pass
/// invariants.
#[verifier::spinoff_prover]
#[verifier::rlimit(100)]
fn cell_fetch(
    voxels: &mut VoxelTree,
    field: &Field,
    position: &BlockPosition,
    lgu: u8,
    ci: i32,
    cj: i32,
    ck: i32,
    Ghost(t0): Ghost<VoxelTree>,
) -> (r: Option<Voxel>)
    requires
        old(voxels).wf(),
        field.wf(),
        position.wf(),
        lgu <= 3,
        -1 <= ci <= 8,
        -1 <= cj <= 8,
        -1 <= ck <= 8,
        (ci + 1) * pow2(lgu as nat) <= 8,
        (cj + 1) * pow2(lgu as nat) <= 8,
        (ck + 1) * pow2(lgu as nat) <= 8,
        eff_inv(*old(voxels), t0, *field, lgu as int),
        leaf_inv(*old(voxels), t0, *position),
    ensures
        final(voxels).wf(),
        eff_inv(*final(voxels), t0, *field, lgu as int),
        leaf_inv(*final(voxels), t0, *position),
        r == t0.effective(
            *field,
            cell_bounds(*position, lgu as int, ci as int, cj as int, ck as int),
        ),
        final(voxels).leaf(cell_bounds(*position, lgu as int, ci as int, cj as int, ck as int))
            == t0.effective(
            *field,
            cell_bounds(*position, lgu as int, ci as int, cj as int, ck as int),
        ),
        forall|b2: VoxelBounds|
            b2.wf() && b2.lg_size == lgu && b2 != cell_bounds(
                *position,
                lgu as int,
                ci as int,
                cj as int,
                ck as int,
            ) ==> #[trigger] final(voxels).leaf(b2) == old(voxels).leaf(b2),
{
    proof {
        lemma_cell_bounds_wf(*position, lgu as int, ci as int, cj as int, ck as int);
        lemma2_to64();
    }
    let d: i64 = exp2(lgu);
    let wx: i32 = (8 * (position.0.x as i64) + (ci as i64) * d) as i32;
    let wy: i32 = (8 * (position.0.y as i64) + (cj as i64) * d) as i32;
    let wz: i32 = (8 * (position.0.z as i64) + (ck as i64) * d) as i32;
    let cb = VoxelBounds::new(wx, wy, wz, lgu);
    proof {
        assert(-64 <= (ci as int) * (d as int) <= 64 && -64 <= (cj as int) * (d as int) <= 64 && -64
            <= (ck as int) * (d as int) <= 64) by (nonlinear_arith)
            requires
                -1 <= ci <= 8,
                -1 <= cj <= 8,
                -1 <= ck <= 8,
                1 <= d <= 8,
        ;
        assert(cb == cell_bounds(*position, lgu as int, ci as int, cj as int, ck as int));
    }
    let r = voxels.get_or_generate(cb, field);
    proof {
        let lg = lgu as int;
        assert forall|b2: VoxelBounds| b2.wf() && b2.lg_size == lg implies #[trigger] voxels.effective(
            *field,
            b2,
        ) == t0.effective(*field, b2) by {
            assert(old(voxels).effective(*field, b2) == t0.effective(*field, b2));
        }
        assert forall|b2: VoxelBounds|
            b2.wf() && !region_overlaps(*position, b2) implies #[trigger] voxels.leaf(b2)
            == t0.leaf(b2) by {
            assert((ci as int) * (d as int) + d == ((ci + 1) as int) * (d as int) && (cj as int) * (
            d as int) + d == ((cj + 1) as int) * (d as int) && (ck as int) * (d as int) + d == ((ck
                + 1) as int) * (d as int)) by (nonlinear_arith);
            assert(cb.x + cb.side() <= 8 * position.0.x + 8);
            assert(cb.y + cb.side() <= 8 * position.0.y + 8);
            assert(cb.z + cb.side() <= 8 * position.0.z + 8);
            assert(!cb.overlaps(b2));
            assert(old(voxels).leaf(b2) == t0.leaf(b2));
        }
        assert(old(voxels).effective(*field, cb) == t0.effective(*field, cb));
        assert(voxels.leaf(cb) == r);
        assert forall|b2: VoxelBounds|
            b2.wf() && b2.lg_size == lgu && b2 != cb implies #[trigger] voxels.leaf(b2) == old(
            voxels,
        ).leaf(b2) by {
            crate::tree::lemma_same_size_distinct(cb, b2);
        }
    }
    r
}

/// Distinct lattice indices name distinct cell bounds.
proof fn lemma_cells_distinct(
    pos: BlockPosition,
    lg: int,
    i1: int,
    j1: int,
    k1: int,
    i2: int,
    j2: int,
    k2: int,
)
    requires
        pos.wf(),
        0 <= lg <= 3,
        -1 <= i1 <= 8,
        -1 <= j1 <= 8,
        -1 <= k1 <= 8,
        -1 <= i2 <= 8,
        -1 <= j2 <= 8,
        -1 <= k2 <= 8,
        !(i1 == i2 && j1 == j2 && k1 == k2),
    ensures
        cell_bounds(pos, lg, i1, j1, k1) != cell_bounds(pos, lg, i2, j2, k2),
{
    lemma_cell_bounds_wf(pos, lg, i1, j1, k1);
    lemma_cell_bounds_wf(pos, lg, i2, j2, k2);
    lemma2_to64();
    let d = pow2(lg as nat) as int;
    assert(i1 != i2 ==> i1 * d != i2 * d) by (nonlinear_arith)
        requires
            d >= 1,
    ;
    assert(j1 != j2 ==> j1 * d != j2 * d) by (nonlinear_arith)
        requires
            d >= 1,
    ;
    assert(k1 != k2 ==> k1 * d != k2 * d) by (nonlinear_arith)
        requires
            d >= 1,
    ;
}

/// Fetch the three edge-adjacent neighbour cells of a quad in one step.
#[verifier::spinoff_prover]
#[verifier::rlimit(100)]
fn fetch_three(
    voxels: &mut VoxelTree,
    field: &Field,
    position: &BlockPosition,
    lgu: u8,
    n1: (i32, i32, i32),
    n2: (i32, i32, i32),
    n4: (i32, i32, i32),
    Ghost(t0): Ghost<VoxelTree>,
) -> (w: (Option<Voxel>, Option<Voxel>, Option<Voxel>))
    requires
        old(voxels).wf(),
        field.wf(),
        position.wf(),
        lgu <= 3,
        -1 <= n1.0 <= 8 && -1 <= n1.1 <= 8 && -1 <= n1.2 <= 8,
        -1 <= n2.0 <= 8 && -1 <= n2.1 <= 8 && -1 <= n2.2 <= 8,
        -1 <= n4.0 <= 8 && -1 <= n4.1 <= 8 && -1 <= n4.2 <= 8,
        (n1.0 + 1) * pow2(lgu as nat) <= 8 && (n1.1 + 1) * pow2(lgu as nat) <= 8 && (n1.2 + 1)
            * pow2(lgu as nat) <= 8,
        (n2.0 + 1) * pow2(lgu as nat) <= 8 && (n2.1 + 1) * pow2(lgu as nat) <= 8 && (n2.2 + 1)
            * pow2(lgu as nat) <= 8,
        (n4.0 + 1) * pow2(lgu as nat) <= 8 && (n4.1 + 1) * pow2(lgu as nat) <= 8 && (n4.2 + 1)
            * pow2(lgu as nat) <= 8,
        !(n1.0 == n2.0 && n1.1 == n2.1 && n1.2 == n2.2),
        !(n1.0 == n4.0 && n1.1 == n4.1 && n1.2 == n4.2),
        !(n2.0 == n4.0 && n2.1 == n4.1 && n2.2 == n4.2),
        eff_inv(*old(voxels), t0, *field, lgu as int),
        leaf_inv(*old(voxels), t0, *position),
    ensures
        final(voxels).wf(),
        eff_inv(*final(voxels), t0, *field, lgu as int),
        leaf_inv(*final(voxels), t0, *position),
        w.0 == t0.effective(
            *field,
            cell_bounds(*position, lgu as int, n1.0 as int, n1.1 as int, n1.2 as int),
        ),
        w.1 == t0.effective(
            *field,
            cell_bounds(*position, lgu as int, n2.0 as int, n2.1 as int, n2.2 as int),
        ),
        w.2 == t0.effective(
            *field,
            cell_bounds(*position, lgu as int, n4.0 as int, n4.1 as int, n4.2 as int),
        ),
        cache_step(*final(voxels), *old(voxels), t0, *field, lgu as int),
        forall|b2: VoxelBounds|
            b2.wf() && b2.lg_size == lgu && b2 != cell_bounds(
                *position,
                lgu as int,
                n1.0 as int,
                n1.1 as int,
                n1.2 as int,
            ) && b2 != cell_bounds(*position, lgu as int, n2.0 as int, n2.1 as int, n2.2 as int)
                && b2 != cell_bounds(*position, lgu as int, n4.0 as int, n4.1 as int, n4.2 as int)
                ==> #[trigger] final(voxels).leaf(b2) == old(voxels).leaf(b2),
{
    let w1 = cell_fetch(voxels, field, position, lgu, n1.0, n1.1, n1.2, Ghost(t0));
    let ghost va = *voxels;
    let w2 = cell_fetch(voxels, field, position, lgu, n2.0, n2.1, n2.2, Ghost(t0));
    let ghost vb = *voxels;
    let w4 = cell_fetch(voxels, field, position, lgu, n4.0, n4.1, n4.2, Ghost(t0));
    proof {
        let cb1 = cell_bounds(*position, lgu as int, n1.0 as int, n1.1 as int, n1.2 as int);
        let cb2 = cell_bounds(*position, lgu as int, n2.0 as int, n2.1 as int, n2.2 as int);
        let cb4 = cell_bounds(*position, lgu as int, n4.0 as int, n4.1 as int, n4.2 as int);
        lemma_cell_bounds_wf(*position, lgu as int, n1.0 as int, n1.1 as int, n1.2 as int);
        lemma_cell_bounds_wf(*position, lgu as int, n2.0 as int, n2.1 as int, n2.2 as int);
        lemma_cell_bounds_wf(*position, lgu as int, n4.0 as int, n4.1 as int, n4.2 as int);
        lemma_cells_distinct(
            *position,
            lgu as int,
            n1.0 as int,
            n1.1 as int,
            n1.2 as int,
            n2.0 as int,
            n2.1 as int,
            n2.2 as int,
        );
        lemma_cells_distinct(
            *position,
            lgu as int,
            n1.0 as int,
            n1.1 as int,
            n1.2 as int,
            n4.0 as int,
            n4.1 as int,
            n4.2 as int,
        );
        lemma_cells_distinct(
            *position,
            lgu as int,
            n2.0 as int,
            n2.1 as int,
            n2.2 as int,
            n4.0 as int,
            n4.1 as int,
            n4.2 as int,
        );
        assert forall|b2: VoxelBounds| b2.wf() && b2.lg_size == lgu implies #[trigger] voxels.leaf(
            b2,
        ) == old(voxels).leaf(b2) || voxels.leaf(b2) == t0.effective(*field, b2) by {
            if b2 != cb1 && b2 != cb2 && b2 != cb4 {
                assert(vb.leaf(b2) == va.leaf(b2));
                assert(va.leaf(b2) == old(voxels).leaf(b2));
            } else if b2 == cb4 {
                assert(voxels.leaf(b2) == t0.effective(*field, b2));
            } else if b2 == cb2 {
                assert(vb.leaf(b2) == t0.effective(*field, b2));
                assert(voxels.leaf(b2) == vb.leaf(b2));
            } else {
                assert(va.leaf(b2) == t0.effective(*field, b2));
                assert(vb.leaf(b2) == va.leaf(b2));
                assert(voxels.leaf(b2) == vb.leaf(b2));
            }
        }
    }
    (w1, w2, w4)
}

/// Emit the triangles of one cell along one axis, fetching the cell and its
/// edge-adjacent neighbours through the octree.
#[verifier::spinoff_prover]
#[verifier::rlimit(100)]
fn mesh_cell(
    block: &mut TerrainBlock,
    ids: &mut IdAllocator,
    voxels: &mut VoxelTree,
    field: &Field,
    position: &BlockPosition,
    lgu: u8,
    a: u32,
    ci: u32,
    cj: u32,
    ck: u32,
    Ghost(t0): Ghost<VoxelTree>,
    Ghost(ts): Ghost<Seq<Tri>>,
    Ghost(id0): Ghost<int>,
)
    requires
        old(voxels).wf(),
        field.wf(),
        position.wf(),
        lgu <= 3,
        a < 3,
        ci < 8,
        cj < 8,
        ck < 8,
        (ci + 1) * pow2(lgu as nat) <= 8,
        (cj + 1) * pow2(lgu as nat) <= 8,
        (ck + 1) * pow2(lgu as nat) <= 8,
        eff_inv(*old(voxels), t0, *field, lgu as int),
        leaf_inv(*old(voxels), t0, *position),
        views_ok(*old(block), ts, id0),
        old(ids).next == id0 + ts.len(),
        old(ids).next + 4 <= u64::MAX,
    ensures
        final(voxels).wf(),
        eff_inv(*final(voxels), t0, *field, lgu as int),
        leaf_inv(*final(voxels), t0, *position),
        views_ok(
            *final(block),
            ts + cell_tris(
                t0,
                *field,
                *position,
                lgu as int,
                a as int,
                ci as int,
                cj as int,
                ck as int,
            ),
            id0,
        ),
        final(ids).next == id0 + ts.len() + cell_tris(
            t0,
            *field,
            *position,
            lgu as int,
            a as int,
            ci as int,
            cj as int,
            ck as int,
        ).len(),
        final(voxels).leaf(cell_bounds(*position, lgu as int, ci as int, cj as int, ck as int))
            == t0.effective(
            *field,
            cell_bounds(*position, lgu as int, ci as int, cj as int, ck as int),
        ),
        cache_step(*final(voxels), *old(voxels), t0, *field, lgu as int),
{
    let ghost ct = cell_tris(
        t0,
        *field,
        *position,
        lgu as int,
        a as int,
        ci as int,
        cj as int,
        ck as int,
    );
    let r = cell_fetch(voxels, field, position, lgu, ci as i32, cj as i32, ck as i32, Ghost(t0));
    if r.is_none() {
        proof {
            reveal(cell_tris);
            assert(ct =~= Seq::<Tri>::empty());
            assert(ts + ct =~= ts);
        }
        return ;
    }
    let v = r.unwrap();
    let crossing = if a == 0 {
        v.edge_crosses.x_e00
    } else if a == 1 {
        v.edge_crosses.y_e00
    } else {
        v.edge_crosses.z_e00
    };
    proof {
        assert(crossing == edge_of(v, a as int));
    }
    if !crossing {
        proof {
            reveal(cell_tris);
            assert(ct =~= Seq::<Tri>::empty());
            assert(ts + ct =~= ts);
        }
        return ;
    }
    let d1x: i32 = 0;
    let d1y: i32 = if a == 1 {
        0
    } else {
        -1
    };
    let d1z: i32 = if a == 1 {
        -1
    } else {
        0
    };
    let d2x: i32 = if a == 0 {
        0
    } else {
        -1
    };
    let d2y: i32 = 0;
    let d2z: i32 = if a == 0 {
        -1
    } else {
        0
    };
    proof {
        lemma_pow2_pos(lgu as nat);
        assert((d1x as int, d1y as int, d1z as int) == off1(a as int));
        assert((d2x as int, d2y as int, d2z as int) == off2(a as int));
        assert(((ci + d1x + d2x + 1) as int) * pow2(lgu as nat) <= 8 && ((cj + d1y + d2y + 1) as int)
            * pow2(lgu as nat) <= 8 && ((ck + d1z + d2z + 1) as int) * pow2(lgu as nat)
            <= 8) by (nonlinear_arith)
            requires
                -1 <= d1x + d2x <= 0,
                -1 <= d1y + d2y <= 0,
                -1 <= d1z + d2z <= 0,
                pow2(lgu as nat) >= 1,
                ((ci + 1) as int) * pow2(lgu as nat) <= 8,
                ((cj + 1) as int) * pow2(lgu as nat) <= 8,
                ((ck + 1) as int) * pow2(lgu as nat) <= 8,
        ;
        assert(((ci + d1x + 1) as int) * pow2(lgu as nat) <= 8 && ((cj + d1y + 1) as int) * pow2(
            lgu as nat,
        ) <= 8 && ((ck + d1z + 1) as int) * pow2(lgu as nat) <= 8) by (nonlinear_arith)
            requires
                -1 <= d1x <= 0,
                -1 <= d1y <= 0,
                -1 <= d1z <= 0,
                pow2(lgu as nat) >= 1,
                ((ci + 1) as int) * pow2(lgu as nat) <= 8,
                ((cj + 1) as int) * pow2(lgu as nat) <= 8,
                ((ck + 1) as int) * pow2(lgu as nat) <= 8,
        ;
        assert(((ci + d2x + 1) as int) * pow2(lgu as nat) <= 8 && ((cj + d2y + 1) as int) * pow2(
            lgu as nat,
        ) <= 8 && ((ck + d2z + 1) as int) * pow2(lgu as nat) <= 8) by (nonlinear_arith)
            requires
                -1 <= d2x <= 0,
                -1 <= d2y <= 0,
                -1 <= d2z <= 0,
                pow2(lgu as nat) >= 1,
                ((ci + 1) as int) * pow2(lgu as nat) <= 8,
                ((cj + 1) as int) * pow2(lgu as nat) <= 8,
                ((ck + 1) as int) * pow2(lgu as nat) <= 8,
        ;
    }
    let i1x: i32 = ci as i32 + d1x + d2x;
    let i1y: i32 = cj as i32 + d1y + d2y;
    let i1z: i32 = ck as i32 + d1z + d2z;
    let i2x: i32 = ci as i32 + d1x;
    let i2y: i32 = cj as i32 + d1y;
    let i2z: i32 = ck as i32 + d1z;
    let i4x: i32 = ci as i32 + d2x;
    let i4y: i32 = cj as i32 + d2y;
    let i4z: i32 = ck as i32 + d2z;
    let ghost v0 = *voxels;
    let (w1, w2, w4) = fetch_three(
        voxels,
        field,
        position,
        lgu,
        (i1x, i1y, i1z),
        (i2x, i2y, i2z),
        (i4x, i4y, i4z),
        Ghost(t0),
    );
    proof {
        // The three neighbours are distinct cells, so the cell's own cached
        // sample survives their fetches.
        let own = cell_bounds(*position, lgu as int, ci as int, cj as int, ck as int);
        lemma_cell_bounds_wf(*position, lgu as int, ci as int, cj as int, ck as int);
        lemma_cells_distinct(
            *position,
            lgu as int,
            i1x as int,
            i1y as int,
            i1z as int,
            ci as int,
            cj as int,
            ck as int,
        );
        lemma_cells_distinct(
            *position,
            lgu as int,
            i2x as int,
            i2y as int,
            i2z as int,
            ci as int,
            cj as int,
            ck as int,
        );
        lemma_cells_distinct(
            *position,
            lgu as int,
            i4x as int,
            i4y as int,
            i4z as int,
            ci as int,
            cj as int,
            ck as int,
        );
        assert(v0.leaf(own) == t0.effective(*field, own));
        assert(voxels.leaf(own) == v0.leaf(own));
    }
    if w1.is_none() || w2.is_none() || w4.is_none() {
        proof {
            reveal(cell_tris);
            assert(ct =~= Seq::<Tri>::empty());
            assert(ts + ct =~= ts);
        }
        return ;
    }
    let u1 = w1.unwrap();
    let u2 = w2.unwrap();
    let u4 = w4.unwrap();
    let p1 = world_vertex(position, lgu, i1x, i1y, i1z, &u1);
    let p2 = world_vertex(position, lgu, i2x, i2y, i2z, &u2);
    let p3 = world_vertex(position, lgu, ci as i32, cj as i32, ck as i32, &v);
    let p4 = world_vertex(position, lgu, i4x, i4y, i4z, &u4);
    let cen = WorldPoint {
        x: avg4(p1.x, p2.x, p3.x, p4.x),
        y: avg4(p1.y, p2.y, p3.y, p4.y),
        z: avg4(p1.z, p2.z, p3.z, p4.z),
    };
    let fac = if a == 0 {
        v.facing.x
    } else if a == 1 {
        v.facing.y
    } else {
        v.facing.z
    };
    proof {
        assert(fac == facing_of(v, a as int));
    }
    let (q1, q2, q3, q4) = if fac {
        (p1, p4, p3, p2)
    } else {
        (p1, p2, p3, p4)
    };
    let ghost t_1 = Tri { a: q1, b: q2, c: cen };
    let ghost t_2 = Tri { a: q2, b: q3, c: cen };
    let ghost t_3 = Tri { a: q3, b: q4, c: cen };
    let ghost t_4 = Tri { a: q4, b: q1, c: cen };
    add_poly(block, ids, q1, q2, cen, Ghost(ts), Ghost(id0));
    add_poly(block, ids, q2, q3, cen, Ghost(ts.push(t_1)), Ghost(id0));
    add_poly(block, ids, q3, q4, cen, Ghost(ts.push(t_1).push(t_2)), Ghost(id0));
    add_poly(block, ids, q4, q1, cen, Ghost(ts.push(t_1).push(t_2).push(t_3)), Ghost(id0));
    proof {
        reveal(cell_tris);
        assert(ct =~= seq![t_1, t_2, t_3, t_4]);
        assert(ts + ct =~= ts.push(t_1).push(t_2).push(t_3).push(t_4));
    }
}


/// Generate the mesh of one block at one level of detail.
///
/// Every lattice voxel of the block is fetched through the octree, generated
/// and cached on first access.  The result is exactly the triangles of
/// `block_tris` over the octree as it stood on entry, with ids counting up
/// from the allocator's state; what a fetch observes at the working voxel
/// size is unchanged, so meshing the same block again yields identical
/// geometry.
#[verifier::loop_isolation(false)]
#[verifier::rlimit(100)]
pub fn generate_block(
    id_allocator: &mut IdAllocator,
    field: &Field,
    voxels: &mut VoxelTree,
    position: &BlockPosition,
    lod_index: LODIndex,
) -> (block: TerrainBlock)
    requires
        old(voxels).wf(),
        field.wf(),
        position.wf(),
        lod_index.wf(),
        old(id_allocator).next + 6144 <= u64::MAX,
    ensures
        final(voxels).wf(),
        block.wf(),
        views_ok(
            block,
            block_tris(*old(voxels), *field, *position, lod_index.0 as int),
            old(id_allocator).next as int,
        ),
        final(id_allocator).next == old(id_allocator).next + block_tris(
            *old(voxels),
            *field,
            *position,
            lod_index.0 as int,
        ).len(),
        eff_inv(*final(voxels), *old(voxels), *field, lg_size_of(lod_index.0 as int)),
        leaf_inv(*final(voxels), *old(voxels), *position),
        forall|i: int, j: int, k: int|
            0 <= i < lateral_samples_of(lod_index.0 as int) && 0 <= j < lateral_samples_of(
                lod_index.0 as int,
            ) && 0 <= k < lateral_samples_of(lod_index.0 as int) ==> #[trigger] final(voxels).leaf(
                cell_bounds(*position, lg_size_of(lod_index.0 as int), i, j, k),
            ) == old(voxels).effective(
                *field,
                cell_bounds(*position, lg_size_of(lod_index.0 as int), i, j, k),
            ),
{
    let ghost t0 = *old(voxels);
    let ghost id0 = old(id_allocator).next as int;
    let ghost lod = lod_index.0 as int;
    let ghost lg = lg_size_of(lod);
    let ghost nn = lateral_samples_of(lod);
    let mut block = TerrainBlock::empty();
    let n: u32 = lateral_samples(lod_index);
    let lgu: u8 = lod_index.0;
    proof {
        lemma_lod_pairs(lod);
        assert(lgu as int == lg);
        assert(views_ok(block, Seq::<Tri>::empty(), id0)) by {
            assert(block.vertex_coordinates@ =~= Seq::<Tri>::empty());
            assert(block.normals@ =~= Seq::new(0, |q: int| up_tri()));
            assert(block.ids@ =~= Seq::new(0, |q: int| EntityId((id0 + q) as u64)));
            assert(block.bounds@ =~= Seq::new(
                0,
                |q: int| (EntityId((id0 + q) as u64), tri_aabb(Seq::<Tri>::empty()[q])),
            ));
            assert(block.materials@ =~= Seq::new(0, |q: int| Material::Terrain));
        }
    }
    let mut a: u32 = 0;
    while a < 3
        invariant
            a <= 3,
            voxels.wf(),
            eff_inv(*voxels, t0, *field, lg),
            leaf_inv(*voxels, t0, *position),
            views_ok(block, tris_axes(t0, *field, *position, lg, nn, a as int), id0),
            id_allocator.next == id0 + tris_axes(t0, *field, *position, lg, nn, a as int).len(),
            cells_cached(*voxels, t0, *field, *position, lg, nn, a as int, 0, 0, 0),
        decreases 3 - a,
    {
        let mut i: u32 = 0;
        while i < n
            invariant
                i <= n,
                a < 3,
                voxels.wf(),
                eff_inv(*voxels, t0, *field, lg),
                leaf_inv(*voxels, t0, *position),
                views_ok(
                    block,
                    tris_axes(t0, *field, *position, lg, nn, a as int) + tris_x(
                        t0,
                        *field,
                        *position,
                        lg,
                        nn,
                        a as int,
                        i as int,
                    ),
                    id0,
                ),
                id_allocator.next == id0 + tris_axes(t0, *field, *position, lg, nn, a as int).len()
                    + tris_x(t0, *field, *position, lg, nn, a as int, i as int).len(),
                cells_cached(*voxels, t0, *field, *position, lg, nn, a as int, i as int, 0, 0),
            decreases n - i,
        {
            let mut j: u32 = 0;
            while j < n
                invariant
                    j <= n,
                    i < n,
                    a < 3,
                    voxels.wf(),
                    eff_inv(*voxels, t0, *field, lg),
                    leaf_inv(*voxels, t0, *position),
                    views_ok(
                        block,
                        tris_axes(t0, *field, *position, lg, nn, a as int) + tris_x(
                            t0,
                            *field,
                            *position,
                            lg,
                            nn,
                            a as int,
                            i as int,
                        ) + tris_y(t0, *field, *position, lg, nn, a as int, i as int, j as int),
                        id0,
                    ),
                    id_allocator.next == id0 + tris_axes(
                        t0,
                        *field,
                        *position,
                        lg,
                        nn,
                        a as int,
                    ).len() + tris_x(t0, *field, *position, lg, nn, a as int, i as int).len()
                        + tris_y(
                        t0,
                        *field,
                        *position,
                        lg,
                        nn,
                        a as int,
                        i as int,
                        j as int,
                    ).len(),
                    cells_cached(
                        *voxels,
                        t0,
                        *field,
                        *position,
                        lg,
                        nn,
                        a as int,
                        i as int,
                        j as int,
                        0,
                    ),
                decreases n - j,
            {
                let mut k: u32 = 0;
                while k < n
                    invariant
                        k <= n,
                        j < n,
                        i < n,
                        a < 3,
                        voxels.wf(),
                        eff_inv(*voxels, t0, *field, lg),
                        leaf_inv(*voxels, t0, *position),
                        views_ok(
                            block,
                            tris_axes(t0, *field, *position, lg, nn, a as int) + tris_x(
                                t0,
                                *field,
                                *position,
                                lg,
                                nn,
                                a as int,
                                i as int,
                            ) + tris_y(t0, *field, *position, lg, nn, a as int, i as int, j as int)
                                + tris_z(
                                t0,
                                *field,
                                *position,
                                lg,
                                a as int,
                                i as int,
                                j as int,
                                k as int,
                            ),
                            id0,
                        ),
                        id_allocator.next == id0 + tris_axes(
                            t0,
                            *field,
                            *position,
                            lg,
                            nn,
                            a as int,
                        ).len() + tris_x(t0, *field, *position, lg, nn, a as int, i as int).len()
                            + tris_y(
                            t0,
                            *field,
                            *position,
                            lg,
                            nn,
                            a as int,
                            i as int,
                            j as int,
                        ).len() + tris_z(
                            t0,
                            *field,
                            *position,
                            lg,
                            a as int,
                            i as int,
                            j as int,
                            k as int,
                        ).len(),
                        cells_cached(
                            *voxels,
                            t0,
                            *field,
                            *position,
                            lg,
                            nn,
                            a as int,
                            i as int,
                            j as int,
                            k as int,
                        ),
                    decreases n - k,
                {
                    let ghost cur = tris_axes(t0, *field, *position, lg, nn, a as int) + tris_x(
                        t0,
                        *field,
                        *position,
                        lg,
                        nn,
                        a as int,
                        i as int,
                    ) + tris_y(t0, *field, *position, lg, nn, a as int, i as int, j as int)
                        + tris_z(t0, *field, *position, lg, a as int, i as int, j as int, k as int);
                    proof {
                        lemma_tris_axes_len(t0, *field, *position, lg, nn, a as int);
                        lemma_tris_x_len(t0, *field, *position, lg, nn, a as int, i as int);
                        lemma_tris_y_len(t0, *field, *position, lg, nn, a as int, i as int, j as int);
                        lemma_tris_z_len(t0, *field, *position, lg, a as int, i as int, j as int, k as int);
                        assert(cur.len() <= 6140) by (nonlinear_arith)
                            requires
                                cur.len() <= 4 * nn * nn * nn * (a as int) + 4 * nn * nn * (
                                i as int) + 4 * nn * (j as int) + 4 * (k as int),
                                a < 3,
                                i < nn,
                                j < nn,
                                k < nn,
                                1 <= nn <= 8,
                        ;
                        assert(((i + 1) as int) * pow2(lgu as nat) <= 8 && ((j + 1) as int) * pow2(
                            lgu as nat,
                        ) <= 8 && ((k + 1) as int) * pow2(lgu as nat) <= 8) by (nonlinear_arith)
                            requires
                                i < nn,
                                j < nn,
                                k < nn,
                                nn * pow2(lgu as nat) == 8,
                                pow2(lgu as nat) >= 1,
                        ;
                    }
                    let ghost vpre = *voxels;
                    mesh_cell(
                        &mut block,
                        id_allocator,
                        voxels,
                        field,
                        position,
                        lgu,
                        a,
                        i,
                        j,
                        k,
                        Ghost(t0),
                        Ghost(cur),
                        Ghost(id0),
                    );
                    proof {
                        lemma_cells_cached_step(
                            vpre,
                            *voxels,
                            t0,
                            *field,
                            *position,
                            lg,
                            nn,
                            a as int,
                            i as int,
                            j as int,
                            k as int,
                        );
                        let ct = cell_tris(
                            t0,
                            *field,
                            *position,
                            lg,
                            a as int,
                            i as int,
                            j as int,
                            k as int,
                        );
                        assert(tris_z(
                            t0,
                            *field,
                            *position,
                            lg,
                            a as int,
                            i as int,
                            j as int,
                            (k + 1) as int,
                        ) =~= tris_z(t0, *field, *position, lg, a as int, i as int, j as int, k as int)
                            + ct);
                        assert(cur + ct =~= tris_axes(t0, *field, *position, lg, nn, a as int)
                            + tris_x(t0, *field, *position, lg, nn, a as int, i as int) + tris_y(
                            t0,
                            *field,
                            *position,
                            lg,
                            nn,
                            a as int,
                            i as int,
                            j as int,
                        ) + tris_z(
                            t0,
                            *field,
                            *position,
                            lg,
                            a as int,
                            i as int,
                            j as int,
                            (k + 1) as int,
                        ));
                    }
                    k = k + 1;
                }
                proof {
                    let axes_x = tris_axes(t0, *field, *position, lg, nn, a as int) + tris_x(
                        t0,
                        *field,
                        *position,
                        lg,
                        nn,
                        a as int,
                        i as int,
                    );
                    assert(axes_x + tris_y(
                        t0,
                        *field,
                        *position,
                        lg,
                        nn,
                        a as int,
                        i as int,
                        (j + 1) as int,
                    ) =~= axes_x + tris_y(t0, *field, *position, lg, nn, a as int, i as int, j as int)
                        + tris_z(t0, *field, *position, lg, a as int, i as int, j as int, nn));
                }
                j = j + 1;
            }
            proof {
                let axes = tris_axes(t0, *field, *position, lg, nn, a as int);
                assert(axes + tris_x(t0, *field, *position, lg, nn, a as int, (i + 1) as int)
                    =~= axes + tris_x(t0, *field, *position, lg, nn, a as int, i as int) + tris_y(
                    t0,
                    *field,
                    *position,
                    lg,
                    nn,
                    a as int,
                    i as int,
                    nn,
                ));
            }
            i = i + 1;
        }
        proof {
            assert(tris_axes(t0, *field, *position, lg, nn, (a + 1) as int) =~= tris_axes(
                t0,
                *field,
                *position,
                lg,
                nn,
                a as int,
            ) + tris_x(t0, *field, *position, lg, nn, a as int, nn));
        }
        a = a + 1;
    }
    proof {
        lemma_views_ok_wf(
            block,
            block_tris(t0, *field, *position, lod),
            id0,
        );
    }
    block
}

} // verus!
