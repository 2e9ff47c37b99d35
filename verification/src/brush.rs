//! The brush engine: apply a field-based edit over a bounded region,
//! regenerating the affected voxels and re-meshing every loaded (block, LOD)
//! pair whose extent intersects the brush bound.
use vstd::prelude::*;
use vstd::arithmetic::power2::*;

use crate::block::{BlockPosition, LODIndex, TerrainBlock, lateral_samples, lateral_samples_of, lg_size_of};
use crate::field::{Brush, Field, composed_spec, compose};
use crate::geom::Aabb3i;
use crate::loader::{TerrainLoader, block_eq, entry_matches, has_entry};
use crate::mesher::{cell_bounds, generate_block, lemma_cell_bounds_wf, lemma_lod_pairs, lemma_triangle_count, lemma_views_ok_wf, block_tris, region_overlaps, views_ok};
use crate::sampler::sample_spec;
use crate::tree::VoxelTree;
use crate::voxel::{VoxelBounds, exp2};

verus! {

/// One regenerated block, reported to be fanned out to clients.
pub struct BlockUpdate {
    pub position: BlockPosition,
    pub lod: LODIndex,
    pub block: TerrainBlock,
}

/// Whether a block's closed cube intersects the closed brush bound.
pub open spec fn block_intersects(p: BlockPosition, bound: Aabb3i) -> bool {
    &&& 8 * p.0.x <= bound.max.x && bound.min.x <= 8 * p.0.x + 8
    &&& 8 * p.0.y <= bound.max.y && bound.min.y <= 8 * p.0.y + 8
    &&& 8 * p.0.z <= bound.max.z && bound.min.z <= 8 * p.0.z + 8
}

/// Whether a voxel cube comes near the brush bound: within the bound grown by
/// two block widths, the region a brush pass may touch.
pub open spec fn near_bound(bound: Aabb3i, b2: VoxelBounds) -> bool {
    &&& b2.x <= bound.max.x + 16 && bound.min.x - 16 <= b2.x + b2.side()
    &&& b2.y <= bound.max.y + 16 && bound.min.y - 16 <= b2.y + b2.side()
    &&& b2.z <= bound.max.z + 16 && bound.min.z - 16 <= b2.z + b2.side()
}

/// Whether a lattice cell's closed cube intersects the closed brush bound.
pub open spec fn cell_hits(pos: BlockPosition, lg: int, i: int, j: int, k: int, bound: Aabb3i)
    -> bool {
    let b = cell_bounds(pos, lg, i, j, k);
    &&& b.x <= bound.max.x && bound.min.x <= b.x + b.side()
    &&& b.y <= bound.max.y && bound.min.y <= b.y + b.side()
    &&& b.z <= bound.max.z && bound.min.z <= b.z + b.side()
}

/// Resample every voxel of a block's lattice whose cube intersects the brush
/// bound.  Afterwards a fetch at each such cell observes exactly the sample
/// of the (composed) field; slots away from the bound keep their leaves.
#[verifier::rlimit(100)]
#[verifier::loop_isolation(false)]
fn regenerate_region(
    tree: &mut VoxelTree,
    field: &Field,
    position: &BlockPosition,
    lod: LODIndex,
    bound: &Aabb3i,
)
    requires
        old(tree).wf(),
        field.wf(),
        position.wf(),
        lod.wf(),
        bound.wf(),
        block_intersects(*position, *bound),
    ensures
        final(tree).wf(),
        forall|b2: VoxelBounds|
            b2.wf() && !region_overlaps(*position, b2) ==> #[trigger] final(tree).leaf(b2) == old(
                tree,
            ).leaf(b2),
        forall|i: int, j: int, k: int|
            0 <= i < lateral_samples_of(lod.0 as int) && 0 <= j < lateral_samples_of(lod.0 as int)
                && 0 <= k < lateral_samples_of(lod.0 as int) && #[trigger] cell_hits(
                *position,
                lg_size_of(lod.0 as int),
                i,
                j,
                k,
                *bound,
            ) ==> final(tree).effective(
                *field,
                cell_bounds(*position, lg_size_of(lod.0 as int), i, j, k),
            ) == sample_spec(*field, cell_bounds(*position, lg_size_of(lod.0 as int), i, j, k)),
{
    let ghost t0 = *old(tree);
    let ghost lg = lg_size_of(lod.0 as int);
    let ghost nn = lateral_samples_of(lod.0 as int);
    let n: u32 = lateral_samples(lod);
    let lgu: u8 = lod.0;
    let d: i64 = exp2(lgu);
    proof {
        lemma_lod_pairs(lod.0 as int);
        lemma2_to64();
    }
    let mut i: u32 = 0;
    while i < n
        invariant
            i <= n,
            tree.wf(),
            forall|b2: VoxelBounds|
                b2.wf() && !region_overlaps(*position, b2) ==> #[trigger] tree.leaf(b2) == t0.leaf(
                    b2,
                ),
            forall|i2: int, j2: int, k2: int|
                0 <= i2 < nn && 0 <= j2 < nn && 0 <= k2 < nn && i2 < i && #[trigger] cell_hits(
                    *position,
                    lg,
                    i2,
                    j2,
                    k2,
                    *bound,
                ) ==> tree.effective(*field, cell_bounds(*position, lg, i2, j2, k2)) == sample_spec(
                    *field,
                    cell_bounds(*position, lg, i2, j2, k2),
                ),
        decreases n - i,
    {
        let mut j: u32 = 0;
        while j < n
            invariant
                j <= n,
                i < n,
                tree.wf(),
                forall|b2: VoxelBounds|
                    b2.wf() && !region_overlaps(*position, b2) ==> #[trigger] tree.leaf(b2)
                        == t0.leaf(b2),
                forall|i2: int, j2: int, k2: int|
                    0 <= i2 < nn && 0 <= j2 < nn && 0 <= k2 < nn && (i2 < i || (i2 == i && j2 < j))
                        && #[trigger] cell_hits(*position, lg, i2, j2, k2, *bound) ==> tree.effective(
                        *field,
                        cell_bounds(*position, lg, i2, j2, k2),
                    ) == sample_spec(*field, cell_bounds(*position, lg, i2, j2, k2)),
            decreases n - j,
        {
            let mut k: u32 = 0;
            while k < n
                invariant
                    k <= n,
                    j < n,
                    i < n,
                    tree.wf(),
                    forall|b2: VoxelBounds|
                        b2.wf() && !region_overlaps(*position, b2) ==> #[trigger] tree.leaf(b2)
                            == t0.leaf(b2),
                    forall|i2: int, j2: int, k2: int|
                        0 <= i2 < nn && 0 <= j2 < nn && 0 <= k2 < nn && (i2 < i || (i2 == i && j2
                            < j) || (i2 == i && j2 == j && k2 < k)) && #[trigger] cell_hits(
                            *position,
                            lg,
                            i2,
                            j2,
                            k2,
                            *bound,
                        ) ==> tree.effective(*field, cell_bounds(*position, lg, i2, j2, k2))
                            == sample_spec(*field, cell_bounds(*position, lg, i2, j2, k2)),
                decreases n - k,
            {
                proof {
                    lemma_cell_bounds_wf(*position, lg, i as int, j as int, k as int);
                }
                let wx: i32 = (8 * (position.0.x as i64) + (i as i64) * d) as i32;
                let wy: i32 = (8 * (position.0.y as i64) + (j as i64) * d) as i32;
                let wz: i32 = (8 * (position.0.z as i64) + (k as i64) * d) as i32;
                proof {
                    assert(0 <= (i as int) * (d as int) <= 64 && 0 <= (j as int) * (d as int) <= 64
                        && 0 <= (k as int) * (d as int) <= 64) by (nonlinear_arith)
                        requires
                            0 <= i <= 8,
                            0 <= j <= 8,
                            0 <= k <= 8,
                            1 <= d <= 8,
                    ;
                }
                let cb = VoxelBounds::new(wx, wy, wz, lgu);
                proof {
                    assert(cb == cell_bounds(*position, lg, i as int, j as int, k as int));
                }
                let hits = cb.x <= bound.max.x && bound.min.x <= wx + (d as i32) && cb.y
                    <= bound.max.y && bound.min.y <= wy + (d as i32) && cb.z <= bound.max.z
                    && bound.min.z <= wz + (d as i32);
                if hits {
                    let ghost pre = *tree;
                    let _ = tree.regenerate(cb, field);
                    proof {
                        assert forall|b2: VoxelBounds|
                            b2.wf() && !region_overlaps(*position, b2) implies #[trigger] tree.leaf(
                            b2,
                        ) == t0.leaf(b2) by {
                            assert(((i as int) + 1) * (d as int) <= 8 && ((j as int) + 1) * (
                            d as int) <= 8 && ((k as int) + 1) * (d as int) <= 8) by (nonlinear_arith)
                                requires
                                    i < nn,
                                    j < nn,
                                    k < nn,
                                    nn * (d as int) == 8,
                                    d >= 1,
                            ;
                            assert((i as int) * (d as int) + d == ((i as int) + 1) * (d as int) && (
                            j as int) * (d as int) + d == ((j as int) + 1) * (d as int) && (
                            k as int) * (d as int) + d == ((k as int) + 1) * (d as int))
                                by (nonlinear_arith);
                            assert(!cb.overlaps(b2));
                            assert(pre.leaf(b2) == t0.leaf(b2));
                        }
                        assert forall|i2: int, j2: int, k2: int|
                            0 <= i2 < nn && 0 <= j2 < nn && 0 <= k2 < nn && (i2 < i || (i2 == i
                                && j2 < j) || (i2 == i && j2 == j && k2 <= k)) && #[trigger] cell_hits(
                                *position,
                                lg,
                                i2,
                                j2,
                                k2,
                                *bound,
                            ) implies tree.effective(
                            *field,
                            cell_bounds(*position, lg, i2, j2, k2),
                        ) == sample_spec(*field, cell_bounds(*position, lg, i2, j2, k2)) by {
                            let cb2 = cell_bounds(*position, lg, i2, j2, k2);
                            lemma_cell_bounds_wf(*position, lg, i2, j2, k2);
                            if i2 == i && j2 == j && k2 == k {
                                assert(tree.leaf(cb) == sample_spec(*field, cb));
                            } else {
                                assert(cb2 != cb) by {
                                    assert((i2 as int) * pow2(lg as nat) != (i as int) * pow2(
                                        lg as nat,
                                    ) || (j2 as int) * pow2(lg as nat) != (j as int) * pow2(
                                        lg as nat,
                                    ) || (k2 as int) * pow2(lg as nat) != (k as int) * pow2(
                                        lg as nat,
                                    )) by (nonlinear_arith)
                                        requires
                                            pow2(lg as nat) >= 1,
                                            !(i2 == i && j2 == j && k2 == k),
                                            0 <= i2,
                                            0 <= j2,
                                            0 <= k2,
                                            0 <= i,
                                            0 <= j,
                                            0 <= k,
                                    ;
                                }
                                crate::tree::lemma_same_size_distinct(cb, cb2);
                                assert(tree.leaf(cb2) == pre.leaf(cb2));
                            }
                        }
                    }
                }
                k = k + 1;
            }
            j = j + 1;
        }
        i = i + 1;
    }
}


/// Key, owners and physics flag of an entry are untouched by a brush.
/// The indices of the entries whose blocks the bound touches, in entry
/// order: exactly these pairs are regenerated and reported.
pub open spec fn intersecting_indices(s: Seq<crate::loader::LoadEntry>, bound: Aabb3i) -> Seq<int>
    decreases s.len(),
{
    if s.len() == 0 {
        Seq::empty()
    } else {
        let rest = intersecting_indices(s.drop_last(), bound);
        if block_intersects(s.last().position, bound) {
            rest.push(s.len() - 1)
        } else {
            rest
        }
    }
}

/// Every listed index names an entry whose block the bound touches.
pub proof fn lemma_intersecting_indices_range(
    s: Seq<crate::loader::LoadEntry>,
    bound: Aabb3i,
)
    ensures
        forall|q: int|
            0 <= q < intersecting_indices(s, bound).len() ==> {
                let j = #[trigger] intersecting_indices(s, bound)[q];
                0 <= j < s.len() && block_intersects(s[j].position, bound)
            },
    decreases s.len(),
{
    if s.len() > 0 {
        lemma_intersecting_indices_range(s.drop_last(), bound);
        let rest = intersecting_indices(s.drop_last(), bound);
        assert forall|q: int|
            0 <= q < intersecting_indices(s, bound).len() implies {
            let j = #[trigger] intersecting_indices(s, bound)[q];
            0 <= j < s.len() && block_intersects(s[j].position, bound)
        } by {
            if q < rest.len() {
                assert(intersecting_indices(s, bound)[q] == rest[q]);
                assert(s.drop_last()[rest[q]] == s[rest[q]]);
            }
        }
    }
}

/// A voxel cube that stays clear of every affected block's grown region.
pub open spec fn clear_of_affected(
    entries: Seq<crate::loader::LoadEntry>,
    bound: Aabb3i,
    b2: VoxelBounds,
) -> bool {
    forall|j: int|
        0 <= j < entries.len() && block_intersects((#[trigger] entries[j]).position, bound)
            ==> !region_overlaps(entries[j].position, b2)
}

/// Evidence that a reported block is the mesher's output over an octree state
/// in which every lattice cell the bound touches samples the field `f`: the
/// update's triangles are exactly `block_tris` over that state, with ids
/// counting up from `first_id`.
pub open spec fn remeshed_from(
    u: BlockUpdate,
    f: Field,
    bound: Aabb3i,
    t: VoxelTree,
    first_id: int,
) -> bool {
    &&& t.wf()
    &&& views_ok(u.block, block_tris(t, f, u.position, u.lod.0 as int), first_id)
    &&& forall|i: int, j: int, k: int|
        0 <= i < lateral_samples_of(u.lod.0 as int) && 0 <= j < lateral_samples_of(u.lod.0 as int)
            && 0 <= k < lateral_samples_of(u.lod.0 as int) && #[trigger] cell_hits(
            u.position,
            lg_size_of(u.lod.0 as int),
            i,
            j,
            k,
            bound,
        ) ==> t.effective(f, cell_bounds(u.position, lg_size_of(u.lod.0 as int), i, j, k))
            == sample_spec(f, cell_bounds(u.position, lg_size_of(u.lod.0 as int), i, j, k))
}

/// Some octree state and id start witness that the update was re-meshed from
/// the field with the bound-hitting cells freshly sampled.
pub open spec fn remeshed_evidence(u: BlockUpdate, f: Field, bound: Aabb3i) -> bool {
    exists|t: VoxelTree, first_id: int| remeshed_from(u, f, bound, t, first_id)
}

pub open spec fn same_shape(a: crate::loader::LoadEntry, b: crate::loader::LoadEntry) -> bool {
    &&& a.position == b.position
    &&& a.lod == b.lod
    &&& a.owners@ == b.owners@
    &&& a.has_physics == b.has_physics
}

/// A reported update carries an entry's key and its new mesh.
pub open spec fn corresponds(u: BlockUpdate, e: crate::loader::LoadEntry) -> bool {
    &&& u.position == e.position
    &&& u.lod == e.lod
    &&& block_eq(u.block, e.mesh)
}

impl TerrainLoader {
    /// Apply a brush over a bounded region.
    ///
    /// The terrain field becomes the old field composed with the brush's
    /// field (the brush's material wins inside the brush).  For every loaded
    /// (block, LOD) pair whose extent intersects the bound, the affected
    /// voxels are resampled and the block is re-meshed; each updated block is
    /// reported.  Every loaded block whose extent does not intersect the
    /// bound is left untouched, ownership records and physics registration
    /// are unchanged throughout, and octree slots away from the bound keep
    /// their cached voxels.
    #[verifier::rlimit(100)]
    #[verifier::loop_isolation(false)]
    pub fn brush(&mut self, brush: &Brush, bound: &Aabb3i) -> (updates: Vec<BlockUpdate>)
        requires
            old(self).wf(),
            brush.field.wf(),
            bound.wf(),
            old(self).id_allocator.next + 6144 * old(self).entries@.len() <= u64::MAX,
        ensures
            final(self).wf(),
            final(self).field == composed_spec(old(self).field, brush.field, brush.material),
            final(self).physics.entries@ == old(self).physics.entries@,
            final(self).entries@.len() == old(self).entries@.len(),
            forall|j: int|
                0 <= j < old(self).entries@.len() ==> same_shape(
                    #[trigger] final(self).entries@[j],
                    old(self).entries@[j],
                ),
            forall|j: int|
                0 <= j < old(self).entries@.len() && !block_intersects(
                    old(self).entries@[j].position,
                    *bound,
                ) ==> #[trigger] final(self).entries@[j] == old(self).entries@[j],
            forall|j: int|
                0 <= j < old(self).entries@.len() && block_intersects(
                    old(self).entries@[j].position,
                    *bound,
                ) ==> exists|q: int|
                    0 <= q < updates@.len() && corresponds(
                        #[trigger] updates@[q],
                        final(self).entries@[j],
                    ),
            forall|q: int|
                0 <= q < updates@.len() ==> block_intersects(
                    (#[trigger] updates@[q]).position,
                    *bound,
                ) && has_entry(final(self).entries@, updates@[q].position, updates@[q].lod),
            forall|q: int, j: int|
                0 <= q < updates@.len() && 0 <= j < final(self).entries@.len() && entry_matches(
                    #[trigger] final(self).entries@[j],
                    (#[trigger] updates@[q]).position,
                    updates@[q].lod,
                ) ==> block_eq(updates@[q].block, final(self).entries@[j].mesh),
            forall|b2: VoxelBounds|
                b2.wf() && !near_bound(*bound, b2) ==> #[trigger] final(self).tree.leaf(b2) == old(
                    self,
                ).tree.leaf(b2),
            final(self).id_allocator.next >= old(self).id_allocator.next,
            forall|b2: VoxelBounds|
                b2.wf() && clear_of_affected(old(self).entries@, *bound, b2)
                    ==> #[trigger] final(self).tree.leaf(b2) == old(self).tree.leaf(b2),
            updates@.len() == intersecting_indices(old(self).entries@, *bound).len(),
            forall|q: int|
                0 <= q < updates@.len() ==> {
                    let j = intersecting_indices(old(self).entries@, *bound)[q];
                    &&& 0 <= j < old(self).entries@.len()
                    &&& block_intersects(old(self).entries@[j].position, *bound)
                    &&& (#[trigger] updates@[q]).position == old(self).entries@[j].position
                    &&& updates@[q].lod == old(self).entries@[j].lod
                    &&& block_eq(updates@[q].block, final(self).entries@[j].mesh)
                },
            forall|q: int|
                0 <= q < updates@.len() ==> remeshed_evidence(
                    #[trigger] updates@[q],
                    composed_spec(old(self).field, brush.field, brush.material),
                    *bound,
                ),
            updates@.len() == 0 ==> final(self).tree == old(self).tree && final(self).id_allocator
                == old(self).id_allocator && final(self).entries@ == old(self).entries@,
    {
        let base = self.field.duplicate();
        let addition = brush.field.duplicate();
        self.field = compose(base, addition, brush.material);
        let mut updates: Vec<BlockUpdate> = Vec::new();
        let ghost mut widx: Seq<int> = Seq::empty();
        let ghost mut wtree: Seq<VoxelTree> = Seq::empty();
        let ghost mut wids: Seq<int> = Seq::empty();
        let mut idx: usize = 0;
        let ghost len0 = old(self).entries@.len() as int;
        while idx < self.entries.len()
            invariant
                idx <= self.entries@.len(),
                self.wf(),
                self.field == composed_spec(old(self).field, brush.field, brush.material),
                self.physics.entries@ == old(self).physics.entries@,
                self.entries@.len() == len0,
                self.id_allocator.next >= old(self).id_allocator.next,
                self.id_allocator.next + 6144 * (len0 - idx) <= u64::MAX,
                forall|j: int|
                    0 <= j < len0 ==> same_shape(
                        #[trigger] self.entries@[j],
                        old(self).entries@[j],
                    ),
                forall|j: int| idx <= j < len0 ==> #[trigger] self.entries@[j] == old(self).entries@[j],
                forall|j: int|
                    0 <= j < idx && !block_intersects(old(self).entries@[j].position, *bound)
                        ==> #[trigger] self.entries@[j] == old(self).entries@[j],
                forall|j: int|
                    0 <= j < idx && block_intersects(old(self).entries@[j].position, *bound)
                        ==> exists|q: int|
                        0 <= q < updates@.len() && corresponds(
                            #[trigger] updates@[q],
                            self.entries@[j],
                        ),
                widx.len() == updates@.len(),
                forall|q: int|
                    0 <= q < updates@.len() ==> {
                        let j = #[trigger] widx[q];
                        &&& 0 <= j < idx
                        &&& block_intersects(self.entries@[j].position, *bound)
                        &&& corresponds(updates@[q], self.entries@[j])
                    },
                forall|b2: VoxelBounds|
                    b2.wf() && !near_bound(*bound, b2) ==> #[trigger] self.tree.leaf(b2) == old(
                        self,
                    ).tree.leaf(b2),
                forall|b2: VoxelBounds|
                    b2.wf() && clear_of_affected(old(self).entries@, *bound, b2)
                        ==> #[trigger] self.tree.leaf(b2) == old(self).tree.leaf(b2),
                widx == intersecting_indices(
                    old(self).entries@.subrange(0, idx as int),
                    *bound,
                ),
                wtree.len() == updates@.len(),
                wids.len() == updates@.len(),
                forall|q: int|
                    0 <= q < updates@.len() ==> remeshed_from(
                        #[trigger] updates@[q],
                        self.field,
                        *bound,
                        wtree[q],
                        wids[q],
                    ),
                updates@.len() == 0 ==> self.tree == old(self).tree && self.id_allocator == old(
                    self,
                ).id_allocator && self.entries@ == old(self).entries@,
            decreases self.entries@.len() - idx,
        {
            let p = self.entries[idx].position;
            let l = self.entries[idx].lod;
            let px: i32 = p.0.x * 8;
            let py: i32 = p.0.y * 8;
            let pz: i32 = p.0.z * 8;
            let inter = px <= bound.max.x && bound.min.x <= px + 8 && py <= bound.max.y
                && bound.min.y <= py + 8 && pz <= bound.max.z && bound.min.z <= pz + 8;
            proof {
                assert(inter == block_intersects(p, *bound));
                assert(p == old(self).entries@[idx as int].position);
                assert(l == old(self).entries@[idx as int].lod);
            }
            if inter {
                let ghost tree_a = self.tree;
                regenerate_region(&mut self.tree, &self.field, &p, l, bound);
                let ghost tree_b = self.tree;
                proof {
                    assert(6144 * (len0 - idx) >= 6144) by (nonlinear_arith)
                        requires
                            len0 - idx >= 1,
                    ;
                }
                let ghost ids_b = self.id_allocator.next;
                let mesh = generate_block(
                    &mut self.id_allocator,
                    &self.field,
                    &mut self.tree,
                    &p,
                    l,
                );
                proof {
                    let tris = block_tris(tree_b, self.field, p, l.0 as int);
                    lemma_views_ok_wf(mesh, tris, ids_b as int);
                }
                let copy = mesh.duplicate();
                let ghost entries_a = self.entries@;
                let ghost updates_a = updates@;
                let mut e = self.entries.remove(idx);
                e.mesh = mesh;
                self.entries.insert(idx, e);
                updates.push(BlockUpdate { position: p, lod: l, block: copy });
                proof {
                    widx = widx.push(idx as int);
                    wtree = wtree.push(tree_b);
                    wids = wids.push(ids_b as int);
                }
                proof {
                    assert(self.entries@ =~= entries_a.update(idx as int, self.entries@[idx as int]));
                    let nn = lateral_samples_of(l.0 as int);
                    lemma_triangle_count(tree_b, self.field, p, l.0 as int);
                    assert(4 * 3 * nn * nn * nn <= 6144) by (nonlinear_arith)
                        requires
                            1 <= nn <= 8,
                    ;
                    assert(self.id_allocator.next + 6144 * (len0 - (idx + 1)) <= u64::MAX)
                        by (nonlinear_arith)
                        requires
                            self.id_allocator.next + 6144 * (len0 - idx) - 6144 <= u64::MAX,
                    ;
                    assert forall|b2: VoxelBounds|
                        b2.wf() && !near_bound(*bound, b2) implies #[trigger] self.tree.leaf(b2)
                        == old(self).tree.leaf(b2) by {
                        assert(!region_overlaps(p, b2));
                        assert(tree_b.leaf(b2) == tree_a.leaf(b2));
                    }
                    assert(corresponds(updates@.last(), self.entries@[idx as int]));
                    assert forall|q: int| 0 <= q < updates@.len() implies {
                        let j = #[trigger] widx[q];
                        &&& 0 <= j <= idx
                        &&& block_intersects(self.entries@[j].position, *bound)
                        &&& corresponds(updates@[q], self.entries@[j])
                    } by {
                        if q < updates_a.len() {
                            assert(updates@[q] == updates_a[q]);
                            assert(self.entries@[widx[q]] == entries_a[widx[q]]);
                        } else {
                            assert(widx[q] == idx as int);
                            assert(updates@[q] == updates@.last());
                        }
                    }
                    assert forall|j: int|
                        0 <= j <= idx && block_intersects(old(self).entries@[j].position, *bound)
                            implies exists|q: int|
                            0 <= q < updates@.len() && corresponds(
                                #[trigger] updates@[q],
                                self.entries@[j],
                            ) by {
                        if j < idx {
                            let q0 = choose|q: int|
                                0 <= q < updates_a.len() && corresponds(
                                    #[trigger] updates_a[q],
                                    entries_a[j],
                                );
                            assert(updates@[q0] == updates_a[q0]);
                            assert(self.entries@[j] == entries_a[j]);
                            assert(corresponds(updates@[q0], self.entries@[j]));
                        } else {
                            let q1 = updates@.len() - 1;
                            assert(corresponds(updates@[q1], self.entries@[idx as int]));
                        }
                    }
                    assert forall|b2: VoxelBounds|
                        b2.wf() && clear_of_affected(old(self).entries@, *bound, b2)
                            implies #[trigger] self.tree.leaf(b2) == old(self).tree.leaf(b2) by {
                        assert(block_intersects(
                            (#[trigger] old(self).entries@[idx as int]).position,
                            *bound,
                        ));
                        assert(!region_overlaps(p, b2));
                        assert(tree_b.leaf(b2) == tree_a.leaf(b2));
                    }
                    assert(block_eq(copy, mesh));
                    assert(views_ok(
                        copy,
                        block_tris(tree_b, self.field, p, l.0 as int),
                        ids_b as int,
                    ));
                    assert(remeshed_from(
                        updates@.last(),
                        self.field,
                        *bound,
                        tree_b,
                        ids_b as int,
                    ));
                    assert forall|q: int| 0 <= q < updates@.len() implies remeshed_from(
                        #[trigger] updates@[q],
                        self.field,
                        *bound,
                        wtree[q],
                        wids[q],
                    ) by {
                        if q < updates_a.len() {
                            assert(updates@[q] == updates_a[q]);
                        } else {
                            assert(updates@[q] == updates@.last());
                        }
                    }
                }
            }
            proof {
                let pre_k = intersecting_indices(
                    old(self).entries@.subrange(0, idx as int),
                    *bound,
                );
                let next_sub = old(self).entries@.subrange(0, idx as int + 1);
                assert(next_sub.drop_last() =~= old(self).entries@.subrange(0, idx as int));
                assert(next_sub.last() == old(self).entries@[idx as int]);
                if inter {
                    assert(intersecting_indices(next_sub, *bound) =~= pre_k.push(idx as int));
                } else {
                    assert(intersecting_indices(next_sub, *bound) =~= pre_k);
                }
            }
            idx = idx + 1;
        }
        proof {
            assert(old(self).entries@.subrange(0, len0) =~= old(self).entries@);
            assert(widx == intersecting_indices(old(self).entries@, *bound));
            assert forall|q: int| 0 <= q < updates@.len() implies {
                let j = intersecting_indices(old(self).entries@, *bound)[q];
                &&& 0 <= j < len0
                &&& block_intersects(old(self).entries@[j].position, *bound)
                &&& (#[trigger] updates@[q]).position == old(self).entries@[j].position
                &&& updates@[q].lod == old(self).entries@[j].lod
                &&& block_eq(updates@[q].block, self.entries@[j].mesh)
            } by {
                let j = widx[q];
                assert(same_shape(self.entries@[j], old(self).entries@[j]));
                assert(corresponds(updates@[q], self.entries@[j]));
            }
            assert forall|q: int| 0 <= q < updates@.len() implies remeshed_evidence(
                #[trigger] updates@[q],
                composed_spec(old(self).field, brush.field, brush.material),
                *bound,
            ) by {
                assert(remeshed_from(
                    updates@[q],
                    composed_spec(old(self).field, brush.field, brush.material),
                    *bound,
                    wtree[q],
                    wids[q],
                ));
            }
            assert forall|q: int| 0 <= q < updates@.len() implies block_intersects(
                (#[trigger] updates@[q]).position,
                *bound,
            ) && has_entry(self.entries@, updates@[q].position, updates@[q].lod) by {
                let j = widx[q];
                assert(entry_matches(self.entries@[j], updates@[q].position, updates@[q].lod));
            }
            assert forall|q: int, j: int|
                0 <= q < updates@.len() && 0 <= j < self.entries@.len() && entry_matches(
                    #[trigger] self.entries@[j],
                    (#[trigger] updates@[q]).position,
                    updates@[q].lod,
                ) implies block_eq(updates@[q].block, self.entries@[j].mesh) by {
                let j0 = widx[q];
                assert(entry_matches(self.entries@[j0], updates@[q].position, updates@[q].lod));
                if j != j0 {
                    if j < j0 {
                        assert(!entry_matches(
                            self.entries@[j],
                            self.entries@[j0].position,
                            self.entries@[j0].lod,
                        ));
                    } else {
                        assert(!entry_matches(
                            self.entries@[j0],
                            self.entries@[j].position,
                            self.entries@[j].lod,
                        ));
                    }
                    assert(false);
                }
            }
        }
        updates
    }
}

} // verus!
