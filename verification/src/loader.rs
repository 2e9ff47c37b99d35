//! Load/LOD bookkeeping: which blocks are loaded at which detail levels, for
//! which owners, together with the collision bounds handed to physics.
//!
//! The loader is the single owning object for the terrain state: the current
//! field, the octree, the cached meshes with their ownership records, the
//! physics registry and the id source.  All terrain mutation goes through it
//! under one exclusive borrow, which is the single-writer discipline.
use vstd::prelude::*;

use crate::block::{BlockPosition, EntityId, IdAllocator, LODIndex, TerrainBlock, WorldAabb, lg_size_of};
use crate::field::Field;
use crate::mesher::{block_tris, eff_inv, generate_block, leaf_inv, views_ok};
use crate::tree::VoxelTree;

verus! {

/// A local subsystem that keeps blocks loaded.
#[derive(Clone, Copy, PartialEq, Eq, Structural, Debug, Hash)]
pub struct OwnerId(pub u32);

/// A connected client.
#[derive(Clone, Copy, PartialEq, Eq, Structural, Debug, Hash)]
pub struct ClientId(pub u32);

/// Who requires a (block, LOD) pair to stay loaded.
#[derive(Clone, Copy, PartialEq, Eq, Structural, Debug, Hash)]
pub enum Owner {
    Local(OwnerId),
    Client(ClientId),
}

/// One loaded (block, LOD) pair: its owners and its cached mesh.  Collision
/// bounds are registered exactly when the pair was first loaded for a local
/// owner.
pub struct LoadEntry {
    pub position: BlockPosition,
    pub lod: LODIndex,
    pub owners: Vec<Owner>,
    pub mesh: TerrainBlock,
    pub has_physics: bool,
}

/// The collision bounds currently registered with the physics collaborator,
/// one entry per triangle.
pub struct PhysicsRegistry {
    pub entries: Vec<(EntityId, WorldAabb)>,
}

/// Two meshes hold the same entries.
pub open spec fn block_eq(a: TerrainBlock, b: TerrainBlock) -> bool {
    &&& a.vertex_coordinates@ == b.vertex_coordinates@
    &&& a.normals@ == b.normals@
    &&& a.ids@ == b.ids@
    &&& a.bounds@ == b.bounds@
    &&& a.materials@ == b.materials@
}

pub open spec fn entry_matches(e: LoadEntry, p: BlockPosition, l: LODIndex) -> bool {
    e.position == p && e.lod == l
}

/// Whether some entry is registered for `(p, l)`.
pub open spec fn has_entry(s: Seq<LoadEntry>, p: BlockPosition, l: LODIndex) -> bool {
    exists|i: int| 0 <= i < s.len() && entry_matches(#[trigger] s[i], p, l)
}

/// The physics entries that remain after deregistering the given ids.
pub open spec fn without(s: Seq<(EntityId, WorldAabb)>, ids: Seq<EntityId>) -> Seq<
    (EntityId, WorldAabb),
>
    decreases s.len(),
{
    if s.len() == 0 {
        Seq::empty()
    } else {
        let rest = without(s.drop_last(), ids);
        if ids.contains(s.last().0) {
            rest
        } else {
            rest.push(s.last())
        }
    }
}

/// Deregistering a superset of every registered id empties the registry.
pub proof fn lemma_without_all(s: Seq<(EntityId, WorldAabb)>, ids: Seq<EntityId>)
    requires
        forall|q: int| 0 <= q < s.len() ==> ids.contains((#[trigger] s[q]).0),
    ensures
        without(s, ids).len() == 0,
    decreases s.len(),
{
    if s.len() > 0 {
        lemma_without_all(s.drop_last(), ids);
    }
}

/// The ownership record, mesh cache, physics registry and id source behind
/// one exclusive-access object.
pub struct TerrainLoader {
    pub field: Field,
    pub tree: VoxelTree,
    pub entries: Vec<LoadEntry>,
    pub physics: PhysicsRegistry,
    pub id_allocator: IdAllocator,
}

impl TerrainLoader {
    /// Keys are unique; every entry carries a well-formed mesh and a
    /// non-empty duplicate-free owner set.
    pub open spec fn wf(self) -> bool {
        &&& self.field.wf()
        &&& self.tree.wf()
        &&& forall|i: int, j: int|
            0 <= i < j < self.entries@.len() ==> !entry_matches(
                #[trigger] self.entries@[i],
                (#[trigger] self.entries@[j]).position,
                self.entries@[j].lod,
            )
        &&& forall|i: int|
            0 <= i < self.entries@.len() ==> {
                let e = #[trigger] self.entries@[i];
                &&& e.position.wf()
                &&& e.lod.wf()
                &&& e.mesh.wf()
                &&& e.owners@.len() >= 1
                &&& forall|a: int, b: int|
                    0 <= a < b < e.owners@.len() ==> e.owners@[a] != e.owners@[b]
            }
    }

    /// A fresh loader over a terrain field: nothing loaded, nothing
    /// registered.
    pub fn new(field: Field) -> (r: TerrainLoader)
        requires
            field.wf(),
        ensures
            r.wf(),
            r.field == field,
            r.entries@.len() == 0,
            r.physics.entries@.len() == 0,
            r.id_allocator.next == 0,
            forall|b: crate::voxel::VoxelBounds| b.wf() ==> #[trigger] r.tree.leaf(b) is None,
    {
        TerrainLoader {
            field,
            tree: VoxelTree::new(),
            entries: Vec::new(),
            physics: PhysicsRegistry { entries: Vec::new() },
            id_allocator: IdAllocator::new(),
        }
    }

    /// How many (block, LOD) pairs are loaded.
    pub fn loaded_count(&self) -> (n: usize)
        ensures
            n == self.entries@.len(),
    {
        self.entries.len()
    }

    /// How many collision bounds are registered.
    pub fn physics_count(&self) -> (n: usize)
        ensures
            n == self.physics.entries@.len(),
    {
        self.physics.entries.len()
    }

    /// The next entity id that would be allocated.
    pub fn next_entity_id(&self) -> (n: u64)
        ensures
            n == self.id_allocator.next,
    {
        self.id_allocator.next
    }
}

/// The index of the entry for `(p, l)`, if one is registered.
fn find_entry_idx(entries: &Vec<LoadEntry>, p: &BlockPosition, l: LODIndex) -> (r: Option<usize>)
    ensures
        match r {
            Some(i) => i < entries@.len() && entry_matches(entries@[i as int], *p, l),
            None => !has_entry(entries@, *p, l),
        },
{
    let mut i: usize = 0;
    while i < entries.len()
        invariant
            i <= entries@.len(),
            forall|q: int| 0 <= q < i ==> !entry_matches(#[trigger] entries@[q], *p, l),
        decreases entries@.len() - i,
    {
        if entries[i].position == *p && entries[i].lod == l {
            return Some(i);
        }
        i = i + 1;
    }
    None
}

/// Whether an owner is in the set.
fn owner_in(owners: &Vec<Owner>, o: Owner) -> (r: bool)
    ensures
        r == owners@.contains(o),
{
    let mut i: usize = 0;
    while i < owners.len()
        invariant
            i <= owners@.len(),
            forall|q: int| 0 <= q < i ==> owners@[q] != o,
        decreases owners@.len() - i,
    {
        if owners[i] == o {
            assert(owners@.contains(o));
            return true;
        }
        i = i + 1;
    }
    assert(!owners@.contains(o));
    false
}

/// Whether an id is in the list.
fn id_in(ids: &Vec<EntityId>, id: EntityId) -> (r: bool)
    ensures
        r == ids@.contains(id),
{
    let mut i: usize = 0;
    while i < ids.len()
        invariant
            i <= ids@.len(),
            forall|q: int| 0 <= q < i ==> ids@[q] != id,
        decreases ids@.len() - i,
    {
        if ids[i] == id {
            assert(ids@.contains(id));
            return true;
        }
        i = i + 1;
    }
    assert(!ids@.contains(id));
    false
}

/// Remove every physics entry whose id is listed.
fn deregister_ids(phys: &mut PhysicsRegistry, ids: &Vec<EntityId>)
    ensures
        final(phys).entries@ == without(old(phys).entries@, ids@),
{
    let mut kept: Vec<(EntityId, WorldAabb)> = Vec::new();
    let mut i: usize = 0;
    while i < phys.entries.len()
        invariant
            i <= phys.entries@.len(),
            phys.entries@ == old(phys).entries@,
            kept@ == without(old(phys).entries@.subrange(0, i as int), ids@),
        decreases phys.entries@.len() - i,
    {
        let entry = phys.entries[i];
        let keep = !id_in(ids, entry.0);
        proof {
            let pre = old(phys).entries@.subrange(0, i as int);
            let cur = old(phys).entries@.subrange(0, i as int + 1);
            assert(cur.drop_last() =~= pre);
            assert(cur.last() == entry);
        }
        if keep {
            kept.push(entry);
        }
        i = i + 1;
    }
    proof {
        assert(old(phys).entries@.subrange(0, old(phys).entries@.len() as int) =~= old(
            phys,
        ).entries@);
    }
    phys.entries = kept;
}


/// What a load of an already-registered pair does: the existing mesh is
/// reused — the octree, the id source and the mesh cache are untouched, so
/// the mesher does not run again — and the owner joins the set.
pub open spec fn load_cached_post(
    pre: TerrainLoader,
    post: TerrainLoader,
    block: TerrainBlock,
    p: BlockPosition,
    l: LODIndex,
    o: Owner,
) -> bool {
    &&& post.field == pre.field
    &&& post.tree == pre.tree
    &&& post.id_allocator == pre.id_allocator
    &&& post.physics.entries@ == pre.physics.entries@
    &&& post.entries@.len() == pre.entries@.len()
    &&& exists|i: int|
        {
            &&& 0 <= i < pre.entries@.len()
            &&& entry_matches(#[trigger] pre.entries@[i], p, l)
            &&& (forall|j: int|
                0 <= j < pre.entries@.len() && j != i ==> #[trigger] post.entries@[j]
                    == pre.entries@[j])
            &&& post.entries@[i].position == pre.entries@[i].position
            &&& post.entries@[i].lod == pre.entries@[i].lod
            &&& block_eq(post.entries@[i].mesh, pre.entries@[i].mesh)
            &&& post.entries@[i].has_physics == pre.entries@[i].has_physics
            &&& post.entries@[i].owners@ == (if pre.entries@[i].owners@.contains(o) {
                pre.entries@[i].owners@
            } else {
                pre.entries@[i].owners@.push(o)
            })
            &&& block_eq(block, pre.entries@[i].mesh)
        }
}

/// What a first load of a pair does: the mesher runs against the octree as it
/// stood, the pair is registered for the owner, and for a local owner the
/// block's collision bounds are registered with physics.
pub open spec fn load_fresh_post(
    pre: TerrainLoader,
    post: TerrainLoader,
    block: TerrainBlock,
    p: BlockPosition,
    l: LODIndex,
    o: Owner,
) -> bool {
    &&& post.field == pre.field
    &&& views_ok(
        block,
        block_tris(pre.tree, pre.field, p, l.0 as int),
        pre.id_allocator.next as int,
    )
    &&& post.id_allocator.next == pre.id_allocator.next + block_tris(
        pre.tree,
        pre.field,
        p,
        l.0 as int,
    ).len()
    &&& post.tree.wf()
    &&& eff_inv(post.tree, pre.tree, pre.field, lg_size_of(l.0 as int))
    &&& leaf_inv(post.tree, pre.tree, p)
    &&& post.entries@.len() == pre.entries@.len() + 1
    &&& forall|j: int| 0 <= j < pre.entries@.len() ==> #[trigger] post.entries@[j] == pre.entries@[j]
    &&& entry_matches(post.entries@.last(), p, l)
    &&& post.entries@.last().owners@ == seq![o]
    &&& post.entries@.last().has_physics == (o is Local)
    &&& block_eq(post.entries@.last().mesh, block)
    &&& post.physics.entries@ == (if o is Local {
        pre.physics.entries@ + block.bounds@
    } else {
        pre.physics.entries@
    })
}

/// What an unload reports, and with it what it did.
#[derive(Clone, Copy, PartialEq, Eq, Structural, Debug)]
pub enum UnloadOutcome {
    /// No entry is registered for the pair.
    NotLoaded,
    /// The pair is loaded, but not for this owner.
    NotAnOwner,
    /// The owner left; other owners keep the pair loaded.
    Released,
    /// The last owner left: the mesh is discarded and its collision bounds
    /// are deregistered.
    Unloaded,
}

pub open spec fn unload_post(
    pre: TerrainLoader,
    post: TerrainLoader,
    p: BlockPosition,
    l: LODIndex,
    o: Owner,
    outcome: UnloadOutcome,
) -> bool {
    &&& post.field == pre.field
    &&& post.tree == pre.tree
    &&& post.id_allocator == pre.id_allocator
    &&& match outcome {
        UnloadOutcome::NotLoaded => {
            &&& !has_entry(pre.entries@, p, l)
            &&& post.entries@ == pre.entries@
            &&& post.physics.entries@ == pre.physics.entries@
        },
        UnloadOutcome::NotAnOwner => {
            &&& exists|i: int|
                0 <= i < pre.entries@.len() && entry_matches(#[trigger] pre.entries@[i], p, l)
                    && !pre.entries@[i].owners@.contains(o)
            &&& post.entries@ == pre.entries@
            &&& post.physics.entries@ == pre.physics.entries@
        },
        UnloadOutcome::Released => {
            &&& post.physics.entries@ == pre.physics.entries@
            &&& exists|i: int|
                {
                    &&& 0 <= i < pre.entries@.len()
                    &&& entry_matches(#[trigger] pre.entries@[i], p, l)
                    &&& pre.entries@[i].owners@.len() >= 2
                    &&& post.entries@.len() == pre.entries@.len()
                    &&& (forall|j: int|
                        0 <= j < pre.entries@.len() && j != i ==> #[trigger] post.entries@[j]
                            == pre.entries@[j])
                    &&& post.entries@[i].position == pre.entries@[i].position
                    &&& post.entries@[i].lod == pre.entries@[i].lod
                    &&& block_eq(post.entries@[i].mesh, pre.entries@[i].mesh)
                    &&& post.entries@[i].has_physics == pre.entries@[i].has_physics
                    &&& exists|oi: int|
                        0 <= oi < pre.entries@[i].owners@.len() && pre.entries@[i].owners@[oi] == o
                            && post.entries@[i].owners@ == pre.entries@[i].owners@.remove(oi)
                }
        },
        UnloadOutcome::Unloaded => {
            exists|i: int|
                {
                    &&& 0 <= i < pre.entries@.len()
                    &&& entry_matches(#[trigger] pre.entries@[i], p, l)
                    &&& pre.entries@[i].owners@ == seq![o]
                    &&& post.entries@ == pre.entries@.remove(i)
                    &&& post.physics.entries@ == (if pre.entries@[i].has_physics {
                        without(pre.physics.entries@, pre.entries@[i].mesh.ids@)
                    } else {
                        pre.physics.entries@
                    })
                }
        },
    }
}

impl TerrainLoader {
    /// Load a block at a level of detail for an owner.
    ///
    /// If the pair is already registered for any owner, the cached mesh is
    /// reused — the mesher does not run — and the owner is added to the set.
    /// Otherwise the mesher runs, the pair is registered, and for a local
    /// owner the block's per-triangle bounds go to the physics registry.
    #[verifier::rlimit(100)]
    pub fn load(&mut self, position: &BlockPosition, lod: LODIndex, owner: Owner) -> (block:
        TerrainBlock)
        requires
            old(self).wf(),
            position.wf(),
            lod.wf(),
            old(self).id_allocator.next + 6144 <= u64::MAX,
        ensures
            final(self).wf(),
            block.wf(),
            if has_entry(old(self).entries@, *position, lod) {
                load_cached_post(*old(self), *final(self), block, *position, lod, owner)
            } else {
                load_fresh_post(*old(self), *final(self), block, *position, lod, owner)
            },
    {
        let found = find_entry_idx(&self.entries, position, lod);
        match found {
            Some(i) => {
                proof {
                    assert(has_entry(self.entries@, *position, lod));
                }
                let ghost entries0 = self.entries@;
                let ghost e0 = self.entries@[i as int];
                let mut e = self.entries.remove(i);
                if !owner_in(&e.owners, owner) {
                    e.owners.push(owner);
                }
                let ghost e2 = e;
                let block = e.mesh.duplicate();
                self.entries.insert(i, e);
                proof {
                    assert(self.entries@ =~= entries0.update(i as int, e2));
                    assert(forall|j: int|
                        0 <= j < entries0.len() && j != i ==> #[trigger] self.entries@[j]
                            == entries0[j]);
                    assert(self.entries@[i as int] == e2);
                    assert(e2.owners@ == (if e0.owners@.contains(owner) {
                        e0.owners@
                    } else {
                        e0.owners@.push(owner)
                    }));
                    assert(block_eq(e2.mesh, e0.mesh));
                    assert(block_eq(block, e0.mesh));
                    assert forall|a: int, b: int|
                        0 <= a < b < e2.owners@.len() implies e2.owners@[a] != e2.owners@[b] by {
                        if b == e2.owners@.len() - 1 && e2.owners@.len() > e0.owners@.len() {
                            assert(!e0.owners@.contains(owner));
                            assert(e0.owners@[a] != owner);
                        }
                    }
                    assert(load_cached_post(*old(self), *self, block, *position, lod, owner));
                    assert(has_entry(old(self).entries@, *position, lod));
                    assert(self.wf());
                }
                block
            },
            None => {
                let mesh = generate_block(
                    &mut self.id_allocator,
                    &self.field,
                    &mut self.tree,
                    position,
                    lod,
                );
                proof {
                    crate::mesher::lemma_views_ok_wf(
                        mesh,
                        block_tris(old(self).tree, old(self).field, *position, lod.0 as int),
                        old(self).id_allocator.next as int,
                    );
                }
                let block = mesh.duplicate();
                let is_local = match owner {
                    Owner::Local(_) => true,
                    Owner::Client(_) => false,
                };
                if is_local {
                    let ghost phys0 = self.physics.entries@;
                    let ghost tree1 = self.tree;
                    let ghost ids1 = self.id_allocator;
                    let ghost field1 = self.field;
                    let mut q: usize = 0;
                    while q < mesh.bounds.len()
                        invariant
                            q <= mesh.bounds@.len(),
                            self.physics.entries@ == phys0 + mesh.bounds@.subrange(0, q as int),
                            self.entries@ == old(self).entries@,
                            self.tree == tree1,
                            self.id_allocator == ids1,
                            self.field == field1,
                        decreases mesh.bounds@.len() - q,
                    {
                        let entry = mesh.bounds[q];
                        self.physics.entries.push(entry);
                        proof {
                            assert(phys0 + mesh.bounds@.subrange(0, q as int + 1) =~= (phys0
                                + mesh.bounds@.subrange(0, q as int)).push(entry));
                        }
                        q = q + 1;
                    }
                    proof {
                        assert(mesh.bounds@.subrange(0, mesh.bounds@.len() as int) =~= mesh.bounds@);
                    }
                }
                let mut owners: Vec<Owner> = Vec::new();
                owners.push(owner);
                let entry = LoadEntry {
                    position: *position,
                    lod,
                    owners,
                    mesh,
                    has_physics: is_local,
                };
                self.entries.push(entry);
                proof {
                    assert(entry.owners@ =~= seq![owner]);
                    assert(!has_entry(old(self).entries@, *position, lod));
                    assert(self.entries@.last() == entry);
                    assert(forall|j: int|
                        0 <= j < old(self).entries@.len() ==> #[trigger] self.entries@[j] == old(
                            self,
                        ).entries@[j]);
                    assert(block_eq(entry.mesh, block));
                    assert(load_fresh_post(*old(self), *self, block, *position, lod, owner));
                    assert forall|i2: int, j2: int|
                        0 <= i2 < j2 < self.entries@.len() implies !entry_matches(
                        #[trigger] self.entries@[i2],
                        (#[trigger] self.entries@[j2]).position,
                        self.entries@[j2].lod,
                    ) by {
                        if j2 == self.entries@.len() - 1 {
                            assert(self.entries@[i2] == old(self).entries@[i2]);
                            if entry_matches(self.entries@[i2], *position, lod) {
                                assert(has_entry(old(self).entries@, *position, lod));
                            }
                        }
                    }
                    assert(self.wf());
                }
                block
            },
        }
    }

    /// Remove an owner from a (block, LOD) pair.
    ///
    /// When the owner set becomes empty the cached mesh is discarded and its
    /// collision bounds are deregistered.  A pair or owner that is not
    /// registered is reported, not treated as fatal.
    #[verifier::rlimit(100)]
    pub fn unload(&mut self, position: &BlockPosition, lod: LODIndex, owner: Owner) -> (outcome:
        UnloadOutcome)
        requires
            old(self).wf(),
        ensures
            final(self).wf(),
            unload_post(*old(self), *final(self), *position, lod, owner, outcome),
    {
        let found = find_entry_idx(&self.entries, position, lod);
        let i = match found {
            None => {
                return UnloadOutcome::NotLoaded;
            },
            Some(i) => i,
        };
        let ghost entries0 = self.entries@;
        let mut e = self.entries.remove(i);
        let mut oi: usize = 0;
        let mut found_owner = false;
        while oi < e.owners.len()
            invariant_except_break
                !found_owner,
            invariant
                oi <= e.owners@.len(),
                forall|q: int| 0 <= q < oi ==> e.owners@[q] != owner,
            ensures
                found_owner ==> oi < e.owners@.len() && e.owners@[oi as int] == owner,
                !found_owner ==> forall|q: int| 0 <= q < e.owners@.len() ==> e.owners@[q] != owner,
            decreases e.owners@.len() - oi,
        {
            if e.owners[oi] == owner {
                found_owner = true;
                break ;
            }
            oi = oi + 1;
        }
        if !found_owner {
            proof {
                assert(!e.owners@.contains(owner));
            }
            self.entries.insert(i, e);
            proof {
                assert(self.entries@ =~= entries0);
            }
            return UnloadOutcome::NotAnOwner;
        }
        if e.owners.len() == 1 {
            proof {
                assert(e.owners@ =~= seq![owner]);
                assert(self.entries@ =~= entries0.remove(i as int));
            }
            if e.has_physics {
                deregister_ids(&mut self.physics, &e.mesh.ids);
            }
            UnloadOutcome::Unloaded
        } else {
            e.owners.remove(oi);
            self.entries.insert(i, e);
            proof {
                assert(self.entries@ =~= entries0.update(i as int, self.entries@[i as int]));
            }
            UnloadOutcome::Released
        }
    }
}

/// Loading then unloading a pair by the same single owner, starting from an
/// empty record, returns the ownership record and the physics registration to
/// empty.
pub proof fn lemma_load_unload_roundtrip(
    pre: TerrainLoader,
    mid: TerrainLoader,
    block: TerrainBlock,
    post: TerrainLoader,
    p: BlockPosition,
    l: LODIndex,
    o: OwnerId,
    outcome: UnloadOutcome,
)
    requires
        pre.entries@.len() == 0,
        pre.physics.entries@.len() == 0,
        load_fresh_post(pre, mid, block, p, l, Owner::Local(o)),
        unload_post(mid, post, p, l, Owner::Local(o), outcome),
    ensures
        outcome is Unloaded,
        post.entries@.len() == 0,
        post.physics.entries@.len() == 0,
{
    assert(mid.entries@.len() == 1);
    assert(entry_matches(mid.entries@[0], p, l));
    assert(has_entry(mid.entries@, p, l));
    match outcome {
        UnloadOutcome::NotLoaded => {
            assert(false);
        },
        UnloadOutcome::NotAnOwner => {
            let i = choose|i: int|
                0 <= i < mid.entries@.len() && entry_matches(#[trigger] mid.entries@[i], p, l)
                    && !mid.entries@[i].owners@.contains(Owner::Local(o));
            assert(i == 0);
            assert(mid.entries@[0].owners@[0] == Owner::Local(o));
            assert(false);
        },
        UnloadOutcome::Released => {
            let i = choose|i: int|
                {
                    &&& 0 <= i < mid.entries@.len()
                    &&& entry_matches(#[trigger] mid.entries@[i], p, l)
                    &&& mid.entries@[i].owners@.len() >= 2
                    &&& post.entries@.len() == mid.entries@.len()
                    &&& (forall|j: int|
                        0 <= j < mid.entries@.len() && j != i ==> #[trigger] post.entries@[j]
                            == mid.entries@[j])
                    &&& post.entries@[i].position == mid.entries@[i].position
                    &&& post.entries@[i].lod == mid.entries@[i].lod
                    &&& block_eq(post.entries@[i].mesh, mid.entries@[i].mesh)
                    &&& post.entries@[i].has_physics == mid.entries@[i].has_physics
                    &&& exists|oi: int|
                        0 <= oi < mid.entries@[i].owners@.len() && mid.entries@[i].owners@[oi]
                            == Owner::Local(o) && post.entries@[i].owners@
                            == mid.entries@[i].owners@.remove(oi)
                };
            assert(i == 0);
            assert(false);
        },
        UnloadOutcome::Unloaded => {
            let i = choose|i: int|
                {
                    &&& 0 <= i < mid.entries@.len()
                    &&& entry_matches(#[trigger] mid.entries@[i], p, l)
                    &&& mid.entries@[i].owners@ == seq![Owner::Local(o)]
                    &&& post.entries@ == mid.entries@.remove(i)
                    &&& post.physics.entries@ == (if mid.entries@[i].has_physics {
                        without(mid.physics.entries@, mid.entries@[i].mesh.ids@)
                    } else {
                        mid.physics.entries@
                    })
                };
            assert(i == 0);
            assert(post.entries@.len() == 0);
            assert(mid.entries@[0].has_physics);
            let mesh = mid.entries@[0].mesh;
            let ts = block_tris(pre.tree, pre.field, p, l.0 as int);
            assert(mid.physics.entries@ =~= block.bounds@);
            assert forall|q: int| 0 <= q < mid.physics.entries@.len() implies mesh.ids@.contains(
                (#[trigger] mid.physics.entries@[q]).0,
            ) by {
                assert(block.bounds@[q].0 == block.ids@[q]);
                assert(mesh.ids@[q] == block.ids@[q]);
            }
            lemma_without_all(mid.physics.entries@, mesh.ids@);
        },
    }
}

/// Two loads of the same pair do not run the mesher twice: after a first load
/// created the entry, a second load for any owner hands back the same
/// geometry and leaves the octree, the id source and the physics registry
/// untouched.
pub proof fn lemma_load_coalesces(
    pre: TerrainLoader,
    mid: TerrainLoader,
    block1: TerrainBlock,
    post: TerrainLoader,
    block2: TerrainBlock,
    p: BlockPosition,
    l: LODIndex,
    o1: Owner,
    o2: Owner,
)
    requires
        !has_entry(pre.entries@, p, l),
        load_fresh_post(pre, mid, block1, p, l, o1),
        load_cached_post(mid, post, block2, p, l, o2),
    ensures
        block_eq(block2, block1),
        post.tree == mid.tree,
        post.id_allocator == mid.id_allocator,
        post.physics.entries@ == mid.physics.entries@,
{
    let i = choose|i: int|
        {
            &&& 0 <= i < mid.entries@.len()
            &&& entry_matches(#[trigger] mid.entries@[i], p, l)
            &&& (forall|j: int|
                0 <= j < mid.entries@.len() && j != i ==> #[trigger] post.entries@[j]
                    == mid.entries@[j])
            &&& post.entries@[i].position == mid.entries@[i].position
            &&& post.entries@[i].lod == mid.entries@[i].lod
            &&& block_eq(post.entries@[i].mesh, mid.entries@[i].mesh)
            &&& post.entries@[i].has_physics == mid.entries@[i].has_physics
            &&& post.entries@[i].owners@ == (if mid.entries@[i].owners@.contains(o2) {
                mid.entries@[i].owners@
            } else {
                mid.entries@[i].owners@.push(o2)
            })
            &&& block_eq(block2, mid.entries@[i].mesh)
        };
    if i != mid.entries@.len() - 1 {
        assert(entry_matches(mid.entries@[i], p, l));
        assert(mid.entries@[i] == pre.entries@[i]);
        assert(has_entry(pre.entries@, p, l));
        assert(false);
    }
    assert(block_eq(mid.entries@[i].mesh, block1));
}

} // verus!
