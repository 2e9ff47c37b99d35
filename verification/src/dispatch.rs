//! The dispatcher: the single serialization point that turns load and edit
//! requests into octree and bookkeeping operations and fans results out to
//! clients.
//!
//! A `Load` for a client is answered to that client alone; a local load is
//! registered with physics and not broadcast.  `AddTree` and `RemoveSphere`
//! run the brush engine and send every updated block to every connected
//! client.  A request that names an unknown client or carries out-of-range
//! parameters is answered with an explicit error instead of failing the
//! dispatcher.
use vstd::prelude::*;
use vstd::arithmetic::div_mod::*;

use crate::block::{BlockPosition, LODIndex, MAX_BLOCK_COORD, TerrainBlock};
use crate::brush::{BlockUpdate, block_intersects, lemma_intersecting_indices_range, near_bound};
use crate::field::{Brush, Field, Material, composed_spec};
use crate::geom::{Aabb3i, Point3i};
use crate::loader::{
    ClientId, Owner, OwnerId, TerrainLoader, block_eq, entry_matches, has_entry, load_cached_post,
    load_fresh_post,
};

verus! {

/// Why a block is being loaded: for the local simulation, or on behalf of one
/// connected client.
#[derive(Clone, Copy, PartialEq, Eq, Structural, Debug)]
pub enum LoadReason {
    Local(OwnerId),
    ForClient(ClientId),
}

/// A tree edit: a capped-cylinder trunk standing at `bottom` with a sphere of
/// leaves on top.  All lengths in Q8 fixed point.
#[derive(Clone, Copy, PartialEq, Eq, Structural, Debug)]
pub struct TreeBrush {
    pub bottom_x: i64,
    pub bottom_y: i64,
    pub bottom_z: i64,
    pub trunk_height: i64,
    pub trunk_radius: i64,
    pub leaf_radius: i64,
}

/// A sphere-removal edit, in Q8 fixed point.
#[derive(Clone, Copy, PartialEq, Eq, Structural, Debug)]
pub struct SphereBrush {
    pub center_x: i64,
    pub center_y: i64,
    pub center_z: i64,
    pub radius: i64,
}

/// A terrain-mutating request.
#[derive(Clone, Copy, PartialEq, Eq, Structural, Debug)]
pub enum ServerToGaia {
    Load(BlockPosition, LODIndex, LoadReason),
    AddTree(TreeBrush),
    RemoveSphere(SphereBrush),
}

/// One outbound block update addressed to one client.
pub struct TerrainBlockSend {
    pub client: ClientId,
    pub position: BlockPosition,
    pub lod: LODIndex,
    pub block: TerrainBlock,
}

/// Why a request was refused; the terrain state is untouched on any error.
#[derive(Clone, Copy, PartialEq, Eq, Structural, Debug)]
pub enum DispatchError {
    /// The request names a client that is not connected.
    NoSuchClient,
    /// The level of detail is not one of the four levels.
    InvalidLod,
    /// The block position lies outside the supported coordinate range.
    InvalidPosition,
    /// The brush parameters lie outside the supported range.
    InvalidBrush,
    /// Too little id space remains to mesh the affected blocks.
    IdsExhausted,
}

/// The server's terrain-facing state: the loader and the connected clients.
pub struct Server {
    pub loader: TerrainLoader,
    pub clients: Vec<ClientId>,
}

impl Server {
    pub open spec fn wf(self) -> bool {
        self.loader.wf()
    }

    pub fn new(field: Field) -> (r: Server)
        requires
            field.wf(),
        ensures
            r.wf(),
            r.loader.entries@.len() == 0,
            r.loader.physics.entries@.len() == 0,
            r.loader.field == field,
            r.clients@.len() == 0,
    {
        Server { loader: TerrainLoader::new(field), clients: Vec::new() }
    }

    /// Connect a client so that broadcasts reach it.
    pub fn connect(&mut self, c: ClientId)
        ensures
            final(self).clients@ == old(self).clients@.push(c),
            final(self).loader == old(self).loader,
    {
        self.clients.push(c);
    }
}

/// Clamp a Q8 value into a closed range.
pub open spec fn clamp_spec(s: int, lo: int, hi: int) -> int {
    if s < lo {
        lo
    } else if s > hi {
        hi
    } else {
        s
    }
}

/// A sampled trunk radius clamps to `[1, 3]` world units.
pub fn clamp_trunk_radius(sample: i64) -> (r: i64)
    ensures
        r == clamp_spec(sample as int, 256, 768),
{
    if sample < 256 {
        256
    } else if sample > 768 {
        768
    } else {
        sample
    }
}

/// A sampled trunk height clamps to `[4r, 12r]` around its mean of `8r`.
pub fn clamp_trunk_height(sample: i64, trunk_radius: i64) -> (r: i64)
    requires
        0 <= trunk_radius <= 0x100000,
    ensures
        r == clamp_spec(sample as int, 4 * trunk_radius, 12 * trunk_radius),
{
    let lo = 4 * trunk_radius;
    let hi = 12 * trunk_radius;
    if sample < lo {
        lo
    } else if sample > hi {
        hi
    } else {
        sample
    }
}

/// A sampled leaf radius clamps to `[2r, 6r]` around its mean of `4r`.
pub fn clamp_leaf_radius(sample: i64, trunk_radius: i64) -> (r: i64)
    requires
        0 <= trunk_radius <= 0x100000,
    ensures
        r == clamp_spec(sample as int, 2 * trunk_radius, 6 * trunk_radius),
{
    let lo = 2 * trunk_radius;
    let hi = 6 * trunk_radius;
    if sample < lo {
        lo
    } else if sample > hi {
        hi
    } else {
        sample
    }
}

impl TreeBrush {
    /// Parameters small enough that the brush bound stays on the supported
    /// lattice.
    pub open spec fn wf(self) -> bool {
        &&& -0x8000000 <= self.bottom_x <= 0x8000000
        &&& -0x8000000 <= self.bottom_y <= 0x8000000
        &&& -0x8000000 <= self.bottom_z <= 0x8000000
        &&& 0 <= self.trunk_height <= 0x100000
        &&& 0 <= self.trunk_radius <= 0x100000
        &&& 0 <= self.leaf_radius <= 0x100000
    }
}

impl SphereBrush {
    pub open spec fn wf(self) -> bool {
        &&& -0x8000000 <= self.center_x <= 0x8000000
        &&& -0x8000000 <= self.center_y <= 0x8000000
        &&& -0x8000000 <= self.center_z <= 0x8000000
        &&& 0 <= self.radius <= 0x100000
    }
}

/// The trunk: a capped cylinder standing at the tree's bottom.
pub open spec fn trunk_field_spec(t: TreeBrush) -> Field {
    Field::Cylinder {
        cx: t.bottom_x,
        cz: t.bottom_z,
        y0: t.bottom_y,
        y1: (t.bottom_y + t.trunk_height) as i64,
        r: t.trunk_radius,
    }
}

/// The leaf ball centred at the trunk's top.
pub open spec fn leaf_field_spec(t: TreeBrush) -> Field {
    Field::Sphere {
        cx: t.bottom_x,
        cy: (t.bottom_y + t.trunk_height) as i64,
        cz: t.bottom_z,
        r: t.leaf_radius,
    }
}

/// The occupancy field of a tree: the trunk cylinder united with the leaf
/// sphere centred at the trunk's top.
pub open spec fn tree_field_spec(t: TreeBrush) -> Field {
    Field::Union(Box::new(trunk_field_spec(t)), Box::new(leaf_field_spec(t)))
}

/// What planting a tree makes of the terrain field: the trunk painted in
/// wood, then the leaf ball painted in leaf material, both additive.
pub open spec fn tree_composed_spec(base: Field, t: TreeBrush) -> Field {
    composed_spec(
        composed_spec(base, trunk_field_spec(t), Material::Wood),
        leaf_field_spec(t),
        Material::Leaf,
    )
}

/// The occupancy field of a sphere removal.
pub open spec fn sphere_field_spec(s: SphereBrush) -> Field {
    Field::Sphere { cx: s.center_x, cy: s.center_y, cz: s.center_z, r: s.radius }
}

/// Floor of `x / 256` for a Q8 coordinate.
pub open spec fn q8_floor(x: i64) -> int {
    x as int / 256
}

/// Ceiling of `x / 256` for a Q8 coordinate.
pub open spec fn q8_ceil(x: i64) -> int {
    (x + 255) as int / 256
}

/// The brush bound of a tree: a box centred halfway up the trunk whose
/// half-width is half the trunk height plus the leaf radius plus a twenty
/// unit margin, rounded outward to the voxel lattice.
pub open spec fn tree_bound_spec(t: TreeBrush) -> Aabb3i {
    let cy = t.bottom_y + t.trunk_height / 2;
    let r = t.trunk_height / 2 + t.leaf_radius + 5120;
    Aabb3i {
        min: Point3i {
            x: q8_floor((t.bottom_x - r) as i64) as i32,
            y: q8_floor((cy - r) as i64) as i32,
            z: q8_floor((t.bottom_z - r) as i64) as i32,
        },
        max: Point3i {
            x: q8_ceil((t.bottom_x + r) as i64) as i32,
            y: q8_ceil((cy + r) as i64) as i32,
            z: q8_ceil((t.bottom_z + r) as i64) as i32,
        },
    }
}

/// The brush bound of a sphere removal: the sphere's box grown by one unit,
/// rounded outward to the voxel lattice.
pub open spec fn sphere_bound_spec(s: SphereBrush) -> Aabb3i {
    let r = s.radius + 256;
    Aabb3i {
        min: Point3i {
            x: q8_floor((s.center_x - r) as i64) as i32,
            y: q8_floor((s.center_y - r) as i64) as i32,
            z: q8_floor((s.center_z - r) as i64) as i32,
        },
        max: Point3i {
            x: q8_ceil((s.center_x + r) as i64) as i32,
            y: q8_ceil((s.center_y + r) as i64) as i32,
            z: q8_ceil((s.center_z + r) as i64) as i32,
        },
    }
}

/// Floor division of a Q8 value by 256.
fn q8_floor_exec(x: i64) -> (q: i64)
    requires
        -0x1000_0000_0000 <= x <= 0x1000_0000_0000,
    ensures
        q == q8_floor(x),
{
    let shifted: i64 = x + 0x1_0000_0000_0000;
    let q: i64 = shifted / 256 - 0x100_0000_0000;
    proof {
        lemma_q8_shift(x as int);
    }
    q
}

proof fn lemma_q8_shift(x: int)
    ensures
        (x + 0x1_0000_0000_0000) / 256 == x / 256 + 0x100_0000_0000,
{
    lemma_fundamental_div_mod(x, 256);
    let q = x / 256;
    let r = x % 256;
    assert(x + 0x1_0000_0000_0000 == 256 * (q + 0x100_0000_0000) + r) by (nonlinear_arith)
        requires
            x == 256 * q + r,
    ;
    lemma_div_multiples_vanish_fancy(q + 0x100_0000_0000, r, 256);
}

/// Ceiling division of a Q8 value by 256.
fn q8_ceil_exec(x: i64) -> (q: i64)
    requires
        -0x1000_0000_0000 <= x <= 0xFFF_FFFF_FF00,
    ensures
        q == q8_ceil(x),
{
    q8_floor_exec(x + 255)
}


/// Compute the tree's brush bound.
fn make_tree_bound(t: &TreeBrush) -> (b: Aabb3i)
    requires
        t.wf(),
    ensures
        b == tree_bound_spec(*t),
        b.wf(),
{
    let cy: i64 = t.bottom_y + t.trunk_height / 2;
    let r: i64 = t.trunk_height / 2 + t.leaf_radius + 5120;
    let min_x = q8_floor_exec(t.bottom_x - r);
    let min_y = q8_floor_exec(cy - r);
    let min_z = q8_floor_exec(t.bottom_z - r);
    let max_x = q8_ceil_exec(t.bottom_x + r);
    let max_y = q8_ceil_exec(cy + r);
    let max_z = q8_ceil_exec(t.bottom_z + r);
    proof {
        lemma_q8_range(t.bottom_x as int - r, t.bottom_x as int + r);
        lemma_q8_range(cy as int - r, cy as int + r);
        lemma_q8_range(t.bottom_z as int - r, t.bottom_z as int + r);
    }
    Aabb3i {
        min: Point3i { x: min_x as i32, y: min_y as i32, z: min_z as i32 },
        max: Point3i { x: max_x as i32, y: max_y as i32, z: max_z as i32 },
    }
}

/// The rounded bound coordinates of an in-range Q8 box stay on the supported
/// lattice.
proof fn lemma_q8_range(lo: int, hi: int)
    requires
        -0x10000000 <= lo <= 0x10000000,
        -0x10000000 <= hi <= 0x10000000,
    ensures
        -0x800000 <= lo / 256 <= 0x800000,
        -0x800000 <= (hi + 255) / 256 <= 0x800000,
{
    lemma_fundamental_div_mod(lo, 256);
    lemma_fundamental_div_mod(hi + 255, 256);
    assert(-0x800000 <= lo / 256 <= 0x800000) by (nonlinear_arith)
        requires
            lo == 256 * (lo / 256) + lo % 256,
            0 <= lo % 256 < 256,
            -0x10000000 <= lo <= 0x10000000,
    ;
    assert(-0x800000 <= (hi + 255) / 256 <= 0x800000) by (nonlinear_arith)
        requires
            hi + 255 == 256 * ((hi + 255) / 256) + (hi + 255) % 256,
            0 <= (hi + 255) % 256 < 256,
            -0x10000000 <= hi <= 0x10000000,
    ;
}

/// Compute the sphere removal's brush bound.
fn make_sphere_bound(s: &SphereBrush) -> (b: Aabb3i)
    requires
        s.wf(),
    ensures
        b == sphere_bound_spec(*s),
        b.wf(),
{
    let r: i64 = s.radius + 256;
    let min_x = q8_floor_exec(s.center_x - r);
    let min_y = q8_floor_exec(s.center_y - r);
    let min_z = q8_floor_exec(s.center_z - r);
    let max_x = q8_ceil_exec(s.center_x + r);
    let max_y = q8_ceil_exec(s.center_y + r);
    let max_z = q8_ceil_exec(s.center_z + r);
    proof {
        lemma_q8_range(s.center_x as int - r, s.center_x as int + r);
        lemma_q8_range(s.center_y as int - r, s.center_y as int + r);
        lemma_q8_range(s.center_z as int - r, s.center_z as int + r);
    }
    Aabb3i {
        min: Point3i { x: min_x as i32, y: min_y as i32, z: min_z as i32 },
        max: Point3i { x: max_x as i32, y: max_y as i32, z: max_z as i32 },
    }
}

/// Whether a client is connected.
fn client_in(clients: &Vec<ClientId>, c: ClientId) -> (r: bool)
    ensures
        r == clients@.contains(c),
{
    let mut i: usize = 0;
    while i < clients.len()
        invariant
            i <= clients@.len(),
            forall|q: int| 0 <= q < i ==> clients@[q] != c,
        decreases clients@.len() - i,
    {
        if clients[i] == c {
            assert(clients@.contains(c));
            return true;
        }
        i = i + 1;
    }
    assert(!clients@.contains(c));
    false
}

/// Fan reported block updates out to every connected client, updates-major:
/// delivery `q` carries update `q / clients` to client `q % clients`.
#[verifier::loop_isolation(false)]
#[verifier::rlimit(100)]
fn broadcast(clients: &Vec<ClientId>, updates: &Vec<BlockUpdate>) -> (out: Vec<TerrainBlockSend>)
    ensures
        out@.len() == updates@.len() * clients@.len(),
        forall|q: int|
            0 <= q < out@.len() ==> {
                let u = q / (clients@.len() as int);
                let c = q % (clients@.len() as int);
                &&& (#[trigger] out@[q]).client == clients@[c]
                &&& out@[q].position == updates@[u].position
                &&& out@[q].lod == updates@[u].lod
                &&& block_eq(out@[q].block, updates@[u].block)
            },
{
    let mut out: Vec<TerrainBlockSend> = Vec::new();
    let cl = clients.len();
    let mut ui: usize = 0;
    while ui < updates.len()
        invariant
            ui <= updates@.len(),
            out@.len() == ui * cl,
            forall|q: int|
                0 <= q < out@.len() ==> {
                    let u = q / (cl as int);
                    let c = q % (cl as int);
                    &&& (#[trigger] out@[q]).client == clients@[c]
                    &&& out@[q].position == updates@[u].position
                    &&& out@[q].lod == updates@[u].lod
                    &&& block_eq(out@[q].block, updates@[u].block)
                },
        decreases updates@.len() - ui,
    {
        let mut ci: usize = 0;
        while ci < cl
            invariant
                ci <= cl,
                ui < updates@.len(),
                out@.len() == ui * cl + ci,
                forall|q: int|
                    0 <= q < out@.len() ==> {
                        let u = q / (cl as int);
                        let c = q % (cl as int);
                        &&& (#[trigger] out@[q]).client == clients@[c]
                        &&& out@[q].position == updates@[u].position
                        &&& out@[q].lod == updates@[u].lod
                        &&& block_eq(out@[q].block, updates@[u].block)
                    },
            decreases cl - ci,
        {
            let u = &updates[ui];
            let d = TerrainBlockSend {
                client: clients[ci],
                position: u.position,
                lod: u.lod,
                block: u.block.duplicate(),
            };
            out.push(d);
            proof {
                let q0 = out@.len() - 1;
                assert(q0 == (ui as int) * (cl as int) + ci);
                lemma_div_multiples_vanish_fancy(ui as int, ci as int, cl as int);
                lemma_mod_multiples_vanish(ui as int, ci as int, cl as int);
                lemma_small_mod(ci as nat, cl as nat);
                assert((cl as int) * (ui as int) + ci == q0) by (nonlinear_arith)
                    requires
                        q0 == (ui as int) * (cl as int) + ci,
                ;
                assert(q0 / (cl as int) == ui as int);
                assert(q0 % (cl as int) == ci as int);
            }
            ci = ci + 1;
        }
        proof {
            assert((ui + 1) * cl == ui * cl + cl) by (nonlinear_arith);
        }
        ui = ui + 1;
    }
    proof {
        assert(updates@.len() * clients@.len() == out@.len()) by (nonlinear_arith)
            requires
                out@.len() == updates@.len() * (cl as int),
                cl == clients@.len(),
        ;
    }
    out
}

/// The loader-level effects of one brush pass, as the dispatcher's callers
/// see them: the field is composed with the brush, bookkeeping shapes and
/// physics are untouched, blocks away from the bound keep their meshes and
/// octree slots away from it keep their voxels.
pub open spec fn brush_effects(
    pre: TerrainLoader,
    post: TerrainLoader,
    new_field: Field,
    bound: Aabb3i,
) -> bool {
    &&& post.field == new_field
    &&& post.physics.entries@ == pre.physics.entries@
    &&& post.entries@.len() == pre.entries@.len()
    &&& forall|j: int|
        0 <= j < pre.entries@.len() ==> crate::brush::same_shape(
            #[trigger] post.entries@[j],
            pre.entries@[j],
        )
    &&& forall|j: int|
        0 <= j < pre.entries@.len() && !block_intersects(pre.entries@[j].position, bound)
            ==> #[trigger] post.entries@[j] == pre.entries@[j]
    &&& forall|b2: crate::voxel::VoxelBounds|
        b2.wf() && !near_bound(bound, b2) ==> #[trigger] post.tree.leaf(b2) == pre.tree.leaf(b2)
    &&& post.id_allocator.next >= pre.id_allocator.next
}

/// Deliveries report real, currently cached meshes of blocks the bound
/// touches, to connected clients only.
pub open spec fn deliveries_sound(
    out: Seq<TerrainBlockSend>,
    loader: TerrainLoader,
    clients: Seq<ClientId>,
    bound: Aabb3i,
) -> bool {
    &&& forall|q: int|
        0 <= q < out.len() ==> clients.contains((#[trigger] out[q]).client) && has_entry(
            loader.entries@,
            out[q].position,
            out[q].lod,
        ) && block_intersects(out[q].position, bound)
    &&& forall|q: int, j: int|
        0 <= q < out.len() && 0 <= j < loader.entries@.len() && entry_matches(
            #[trigger] loader.entries@[j],
            (#[trigger] out[q]).position,
            out[q].lod,
        ) ==> block_eq(out[q].block, loader.entries@[j].mesh)
}

/// A cached load's effect on the state, with the returned mesh left out.
pub open spec fn load_cached_state(
    pre: TerrainLoader,
    post: TerrainLoader,
    p: BlockPosition,
    l: LODIndex,
    o: Owner,
) -> bool {
    &&& post.field == pre.field
    &&& post.tree == pre.tree
    &&& post.id_allocator == pre.id_allocator
    &&& post.physics.entries@ == pre.physics.entries@
    &&& post.entries@.len() == pre.entries@.len()
}

/// A first load's effect on the state, with the returned mesh left out: the
/// stored mesh is the mesher's output and, for a local owner, its bounds are
/// what physics gained.
pub open spec fn load_fresh_state(
    pre: TerrainLoader,
    post: TerrainLoader,
    p: BlockPosition,
    l: LODIndex,
    o: Owner,
) -> bool {
    &&& post.field == pre.field
    &&& post.entries@.len() == pre.entries@.len() + 1
    &&& forall|j: int| 0 <= j < pre.entries@.len() ==> #[trigger] post.entries@[j] == pre.entries@[j]
    &&& entry_matches(post.entries@.last(), p, l)
    &&& post.entries@.last().owners@ == seq![o]
    &&& crate::mesher::views_ok(
        post.entries@.last().mesh,
        crate::mesher::block_tris(pre.tree, pre.field, p, l.0 as int),
        pre.id_allocator.next as int,
    )
    &&& post.id_allocator.next == pre.id_allocator.next + crate::mesher::block_tris(
        pre.tree,
        pre.field,
        p,
        l.0 as int,
    ).len()
    &&& post.tree.wf()
    &&& crate::mesher::eff_inv(post.tree, pre.tree, pre.field, crate::block::lg_size_of(l.0 as int))
    &&& crate::mesher::leaf_inv(post.tree, pre.tree, p)
    &&& post.physics.entries@ == (if o is Local {
        pre.physics.entries@ + post.entries@.last().mesh.bounds@
    } else {
        pre.physics.entries@
    })
}

/// The fan-out is complete and ordered: with `ks` the indices of the loaded
/// entries the bound touches (in entry order), delivery `q` carries entry
/// `ks[q / clients]`'s new mesh to client `q % clients` — every touched pair
/// reaches every connected client.
pub open spec fn deliveries_complete(
    out: Seq<TerrainBlockSend>,
    pre_entries: Seq<crate::loader::LoadEntry>,
    post: TerrainLoader,
    clients: Seq<ClientId>,
    bound: Aabb3i,
) -> bool {
    let ks = crate::brush::intersecting_indices(pre_entries, bound);
    &&& out.len() == ks.len() * clients.len()
    &&& forall|q: int|
        0 <= q < out.len() ==> {
            let j = ks[q / (clients.len() as int)];
            &&& (#[trigger] out[q]).client == clients[q % (clients.len() as int)]
            &&& out[q].position == pre_entries[j].position
            &&& out[q].lod == pre_entries[j].lod
            &&& block_eq(out[q].block, post.entries@[j].mesh)
        }
}

/// A bound no block meets: composing a field part with it regenerates and
/// reports nothing.
fn absorb_bound() -> (b: Aabb3i)
    ensures
        b.wf(),
        forall|p: BlockPosition| !(#[trigger] block_intersects(p, b)),
{
    Aabb3i {
        min: Point3i { x: 0x800000, y: 0x800000, z: 0x800000 },
        max: Point3i { x: -0x800000, y: -0x800000, z: -0x800000 },
    }
}

/// Handle a `Load` request.
#[verifier::rlimit(100)]
fn handle_load(
    server: &mut Server,
    p: BlockPosition,
    l: LODIndex,
    reason: LoadReason,
) -> (result: Result<Vec<TerrainBlockSend>, DispatchError>)
    requires
        old(server).wf(),
    ensures
        final(server).wf(),
        final(server).clients@ == old(server).clients@,
        result is Err ==> *final(server) == *old(server),
        (result == Result::<Vec<TerrainBlockSend>, DispatchError>::Err(DispatchError::InvalidLod))
            <==> !l.wf(),
        (result == Result::<Vec<TerrainBlockSend>, DispatchError>::Err(
            DispatchError::InvalidPosition,
        )) <==> (l.wf() && !p.wf()),
        (result == Result::<Vec<TerrainBlockSend>, DispatchError>::Err(
            DispatchError::IdsExhausted,
        )) <==> (l.wf() && p.wf() && old(server).loader.id_allocator.next + 6144 > u64::MAX),
        (result == Result::<Vec<TerrainBlockSend>, DispatchError>::Err(
            DispatchError::NoSuchClient,
        )) <==> (l.wf() && p.wf() && old(server).loader.id_allocator.next + 6144 <= u64::MAX && (
        match reason {
            LoadReason::ForClient(c) => !old(server).clients@.contains(c),
            LoadReason::Local(_) => false,
        })),
        (l.wf() && p.wf() && old(server).loader.id_allocator.next + 6144 <= u64::MAX && (
        match reason {
            LoadReason::ForClient(c) => old(server).clients@.contains(c),
            LoadReason::Local(_) => true,
        })) ==> result is Ok,
        result matches Ok(out) ==> {
            let o = (match reason {
                LoadReason::Local(oid) => Owner::Local(oid),
                LoadReason::ForClient(c) => Owner::Client(c),
            });
            &&& (reason matches LoadReason::ForClient(c) ==> old(server).clients@.contains(c)
                && out@.len() == 1 && out@[0].client == c && out@[0].position == p && out@[0].lod
                == l && (if has_entry(old(server).loader.entries@, p, l) {
                load_cached_post(old(server).loader, final(server).loader, out@[0].block, p, l, o)
            } else {
                load_fresh_post(old(server).loader, final(server).loader, out@[0].block, p, l, o)
            }))
            &&& (reason matches LoadReason::Local(oid) ==> out@.len() == 0 && (if has_entry(
                old(server).loader.entries@,
                p,
                l,
            ) {
                load_cached_state(old(server).loader, final(server).loader, p, l, o)
            } else {
                load_fresh_state(old(server).loader, final(server).loader, p, l, o)
            }))
        },
{
    let position = p;
    let lod = l;

            if lod.0 >= 4 {
                return Err(DispatchError::InvalidLod);
            }
            if position.0.x < -MAX_BLOCK_COORD || position.0.x > MAX_BLOCK_COORD || position.0.y
                < -MAX_BLOCK_COORD || position.0.y > MAX_BLOCK_COORD || position.0.z
                < -MAX_BLOCK_COORD || position.0.z > MAX_BLOCK_COORD {
                return Err(DispatchError::InvalidPosition);
            }
            if server.loader.next_entity_id() > u64::MAX - 6144 {
                return Err(DispatchError::IdsExhausted);
            }
            match reason {
                LoadReason::Local(oid) => {
                    let b = server.loader.load(&position, lod, Owner::Local(oid));
                    proof {
                        let bb = b;
                        if has_entry(old(server).loader.entries@, position, lod) {
                            assert(load_cached_post(
                                old(server).loader,
                                server.loader,
                                bb,
                                position,
                                lod,
                                Owner::Local(oid),
                            ));
                            assert(load_cached_state(
                                old(server).loader,
                                server.loader,
                                position,
                                lod,
                                Owner::Local(oid),
                            ));
                        } else {
                            assert(load_fresh_post(
                                old(server).loader,
                                server.loader,
                                bb,
                                position,
                                lod,
                                Owner::Local(oid),
                            ));
                            assert(block_eq(server.loader.entries@.last().mesh, bb));
                            assert(server.loader.entries@.last().mesh.bounds@ == bb.bounds@);
                            assert(load_fresh_state(
                                old(server).loader,
                                server.loader,
                                position,
                                lod,
                                Owner::Local(oid),
                            ));
                        }
                    }
                    Ok(Vec::new())
                },
                LoadReason::ForClient(c) => {
                    if !client_in(&server.clients, c) {
                        return Err(DispatchError::NoSuchClient);
                    }
                    let b = server.loader.load(&position, lod, Owner::Client(c));
                    let ghost bb = b;
                    let mut out: Vec<TerrainBlockSend> = Vec::new();
                    out.push(TerrainBlockSend { client: c, position, lod, block: b });
                    proof {
                        assert(out@.len() == 1);
                        assert(out@[0].block == bb);
                        if has_entry(old(server).loader.entries@, position, lod) {
                            assert(load_cached_post(
                                old(server).loader,
                                server.loader,
                                out@[0].block,
                                position,
                                lod,
                                Owner::Client(c),
                            ));
                        } else {
                            assert(load_fresh_post(
                                old(server).loader,
                                server.loader,
                                out@[0].block,
                                position,
                                lod,
                                Owner::Client(c),
                            ));
                        }
                    }
                    Ok(out)
                },
            }
        
}

/// Handle one terrain-mutating request.
#[verifier::rlimit(100)]
pub fn update_gaia(server: &mut Server, update: ServerToGaia) -> (result: Result<
    Vec<TerrainBlockSend>,
    DispatchError,
>)
    requires
        old(server).wf(),
    ensures
        final(server).wf(),
        final(server).clients@ == old(server).clients@,
        result is Err ==> *final(server) == *old(server),
        match update {
            ServerToGaia::Load(p, l, reason) => {
                &&& (result == Result::<Vec<TerrainBlockSend>, DispatchError>::Err(
                    DispatchError::InvalidLod,
                )) <==> !l.wf()
                &&& (result == Result::<Vec<TerrainBlockSend>, DispatchError>::Err(
                    DispatchError::InvalidPosition,
                )) <==> (l.wf() && !p.wf())
                &&& (result == Result::<Vec<TerrainBlockSend>, DispatchError>::Err(
                    DispatchError::IdsExhausted,
                )) <==> (l.wf() && p.wf() && old(server).loader.id_allocator.next + 6144
                    > u64::MAX)
                &&& (result == Result::<Vec<TerrainBlockSend>, DispatchError>::Err(
                    DispatchError::NoSuchClient,
                )) <==> (l.wf() && p.wf() && old(server).loader.id_allocator.next + 6144
                    <= u64::MAX && (match reason {
                    LoadReason::ForClient(c) => !old(server).clients@.contains(c),
                    LoadReason::Local(_) => false,
                }))
                &&& (l.wf() && p.wf() && old(server).loader.id_allocator.next + 6144 <= u64::MAX
                    && (match reason {
                    LoadReason::ForClient(c) => old(server).clients@.contains(c),
                    LoadReason::Local(_) => true,
                })) ==> result is Ok
                &&& result matches Ok(out) ==> {
                    let o = (match reason {
                        LoadReason::Local(oid) => Owner::Local(oid),
                        LoadReason::ForClient(c) => Owner::Client(c),
                    });
                    &&& (reason matches LoadReason::ForClient(c) ==> old(
                        server,
                    ).clients@.contains(c) && out@.len() == 1 && out@[0].client == c
                        && out@[0].position == p && out@[0].lod == l && (if has_entry(
                        old(server).loader.entries@,
                        p,
                        l,
                    ) {
                        load_cached_post(
                            old(server).loader,
                            final(server).loader,
                            out@[0].block,
                            p,
                            l,
                            o,
                        )
                    } else {
                        load_fresh_post(
                            old(server).loader,
                            final(server).loader,
                            out@[0].block,
                            p,
                            l,
                            o,
                        )
                    }))
                    &&& (reason matches LoadReason::Local(oid) ==> out@.len() == 0 && (
                    if has_entry(old(server).loader.entries@, p, l) {
                        load_cached_state(old(server).loader, final(server).loader, p, l, o)
                    } else {
                        load_fresh_state(old(server).loader, final(server).loader, p, l, o)
                    }))
                }
            },
            ServerToGaia::AddTree(t) => {
                &&& (result == Result::<Vec<TerrainBlockSend>, DispatchError>::Err(
                    DispatchError::InvalidBrush,
                )) <==> !t.wf()
                &&& (result == Result::<Vec<TerrainBlockSend>, DispatchError>::Err(
                    DispatchError::IdsExhausted,
                )) <==> (t.wf() && old(server).loader.id_allocator.next + 6144 * old(
                    server,
                ).loader.entries@.len() > u64::MAX)
                &&& (t.wf() && old(server).loader.id_allocator.next + 6144 * old(
                    server,
                ).loader.entries@.len() <= u64::MAX) ==> result is Ok
                &&& result matches Ok(out) ==> brush_effects(
                    old(server).loader,
                    final(server).loader,
                    tree_composed_spec(old(server).loader.field, t),
                    tree_bound_spec(t),
                ) && deliveries_sound(
                    out@,
                    final(server).loader,
                    old(server).clients@,
                    tree_bound_spec(t),
                ) && deliveries_complete(
                    out@,
                    old(server).loader.entries@,
                    final(server).loader,
                    old(server).clients@,
                    tree_bound_spec(t),
                )
            },
            ServerToGaia::RemoveSphere(sp) => {
                &&& (result == Result::<Vec<TerrainBlockSend>, DispatchError>::Err(
                    DispatchError::InvalidBrush,
                )) <==> !sp.wf()
                &&& (result == Result::<Vec<TerrainBlockSend>, DispatchError>::Err(
                    DispatchError::IdsExhausted,
                )) <==> (sp.wf() && old(server).loader.id_allocator.next + 6144 * old(
                    server,
                ).loader.entries@.len() > u64::MAX)
                &&& (sp.wf() && old(server).loader.id_allocator.next + 6144 * old(
                    server,
                ).loader.entries@.len() <= u64::MAX) ==> result is Ok
                &&& result matches Ok(out) ==> brush_effects(
                    old(server).loader,
                    final(server).loader,
                    composed_spec(old(server).loader.field, sphere_field_spec(sp), Material::Empty),
                    sphere_bound_spec(sp),
                ) && deliveries_sound(
                    out@,
                    final(server).loader,
                    old(server).clients@,
                    sphere_bound_spec(sp),
                ) && deliveries_complete(
                    out@,
                    old(server).loader.entries@,
                    final(server).loader,
                    old(server).clients@,
                    sphere_bound_spec(sp),
                )
            },
        },
{
    match update {
        ServerToGaia::Load(position, lod, reason) => handle_load(
            server,
            position,
            lod,
            reason,
        ),
        ServerToGaia::AddTree(t) => {
            if t.bottom_x < -0x8000000 || t.bottom_x > 0x8000000 || t.bottom_y < -0x8000000
                || t.bottom_y > 0x8000000 || t.bottom_z < -0x8000000 || t.bottom_z > 0x8000000
                || t.trunk_height < 0 || t.trunk_height > 0x100000 || t.trunk_radius < 0
                || t.trunk_radius > 0x100000 || t.leaf_radius < 0 || t.leaf_radius > 0x100000 {
                return Err(DispatchError::InvalidBrush);
            }
            // Check the id headroom before composing anything, so an
            // exhausted id space leaves the state untouched.
            let next = server.loader.next_entity_id();
            let count = server.loader.loaded_count();
            let room: u64 = (u64::MAX - next) / 6144;
            if count as u64 > room {
                proof {
                    lemma_fundamental_div_mod((u64::MAX - next) as int, 6144);
                    assert(6144 * (count as int) > (u64::MAX - next) as int) by (nonlinear_arith)
                        requires
                            count as int > ((u64::MAX - next) as int) / 6144,
                            (u64::MAX - next) as int == 6144 * (((u64::MAX - next) as int) / 6144)
                                + ((u64::MAX - next) as int) % 6144,
                            ((u64::MAX - next) as int) % 6144 < 6144,
                    ;
                }
                return Err(DispatchError::IdsExhausted);
            }
            proof {
                lemma_fundamental_div_mod((u64::MAX - next) as int, 6144);
                assert(6144 * (count as int) <= u64::MAX - next) by (nonlinear_arith)
                    requires
                        count as int <= ((u64::MAX - next) as int) / 6144,
                        (u64::MAX - next) as int == 6144 * (((u64::MAX - next) as int) / 6144) + ((
                        u64::MAX - next) as int) % 6144,
                        0 <= ((u64::MAX - next) as int) % 6144,
                ;
            }
            // Absorb the trunk as a wood brush: a bound no block meets, so
            // nothing regenerates yet.
            let trunk = Brush {
                field: Field::Cylinder {
                    cx: t.bottom_x,
                    cz: t.bottom_z,
                    y0: t.bottom_y,
                    y1: t.bottom_y + t.trunk_height,
                    r: t.trunk_radius,
                },
                material: Material::Wood,
            };
            proof {
                assert(trunk.field.wf());
                assert(trunk.field == trunk_field_spec(t));
            }
            let nb = absorb_bound();
            let absorbed = server.loader.brush(&trunk, &nb);
            proof {
                crate::brush::lemma_intersecting_indices_range(old(server).loader.entries@, nb);
                if absorbed@.len() > 0 {
                    let j0 = crate::brush::intersecting_indices(old(server).loader.entries@, nb)[0];
                    assert(block_intersects(old(server).loader.entries@[j0].position, nb));
                    assert(false);
                }
                assert(absorbed@.len() == 0);
            }
            // Then the leaf ball as a leaf brush over the real bound: one
            // regeneration pass sees the whole tree.
            let ghost mid = *server;
            let leaves = Brush {
                field: Field::Sphere {
                    cx: t.bottom_x,
                    cy: t.bottom_y + t.trunk_height,
                    cz: t.bottom_z,
                    r: t.leaf_radius,
                },
                material: Material::Leaf,
            };
            proof {
                assert(leaves.field.wf());
                assert(leaves.field == leaf_field_spec(t));
                assert(mid.loader.entries@ == old(server).loader.entries@);
                assert(mid.loader.tree == old(server).loader.tree);
                assert(mid.loader.id_allocator == old(server).loader.id_allocator);
                assert(mid.loader.physics.entries@ == old(server).loader.physics.entries@);
                assert(mid.loader.field == composed_spec(
                    old(server).loader.field,
                    trunk_field_spec(t),
                    Material::Wood,
                ));
            }
            let bound = make_tree_bound(&t);
            let r = apply_brush(server, leaves, bound);
            proof {
                if r is Ok {
                    assert(server.loader.field == tree_composed_spec(old(server).loader.field, t));
                    assert(brush_effects(
                        old(server).loader,
                        server.loader,
                        tree_composed_spec(old(server).loader.field, t),
                        tree_bound_spec(t),
                    ));
                    assert(deliveries_complete(
                        r->Ok_0@,
                        old(server).loader.entries@,
                        server.loader,
                        old(server).clients@,
                        tree_bound_spec(t),
                    ));
                } else {
                    assert(mid.loader.id_allocator.next + 6144 * mid.loader.entries@.len()
                        > u64::MAX);
                    assert(false);
                }
            }
            r
        },
        ServerToGaia::RemoveSphere(sp) => {
            if sp.center_x < -0x8000000 || sp.center_x > 0x8000000 || sp.center_y < -0x8000000
                || sp.center_y > 0x8000000 || sp.center_z < -0x8000000 || sp.center_z > 0x8000000
                || sp.radius < 0 || sp.radius > 0x100000 {
                return Err(DispatchError::InvalidBrush);
            }
            let field = Field::Sphere {
                cx: sp.center_x,
                cy: sp.center_y,
                cz: sp.center_z,
                r: sp.radius,
            };
            let bound = make_sphere_bound(&sp);
            let brush = Brush { field, material: Material::Empty };
            apply_brush(server, brush, bound)
        },
    }
}

/// Composing the brush's exact update list with the updates-major fan-out
/// yields a complete, ordered delivery list.
#[verifier::spinoff_prover]
proof fn lemma_broadcast_complete(
    out: Seq<TerrainBlockSend>,
    ups: Seq<BlockUpdate>,
    pre_entries: Seq<crate::loader::LoadEntry>,
    post: TerrainLoader,
    clients: Seq<ClientId>,
    bound: Aabb3i,
)
    requires
        out.len() == ups.len() * clients.len(),
        forall|q: int|
            0 <= q < out.len() ==> {
                let u = q / (clients.len() as int);
                let c = q % (clients.len() as int);
                &&& (#[trigger] out[q]).client == clients[c]
                &&& out[q].position == ups[u].position
                &&& out[q].lod == ups[u].lod
                &&& block_eq(out[q].block, ups[u].block)
            },
        ups.len() == crate::brush::intersecting_indices(pre_entries, bound).len(),
        forall|q: int|
            0 <= q < ups.len() ==> {
                let j = crate::brush::intersecting_indices(pre_entries, bound)[q];
                &&& (#[trigger] ups[q]).position == pre_entries[j].position
                &&& ups[q].lod == pre_entries[j].lod
                &&& block_eq(ups[q].block, post.entries@[j].mesh)
            },
    ensures
        deliveries_complete(out, pre_entries, post, clients, bound),
{
    let ks = crate::brush::intersecting_indices(pre_entries, bound);
    let cl = clients.len() as int;
    lemma_intersecting_indices_range(pre_entries, bound);
    assert forall|q: int| 0 <= q < out.len() implies {
        let j = crate::brush::intersecting_indices(pre_entries, bound)[q / (clients.len() as int)];
        &&& (#[trigger] out[q]).client == clients[q % (clients.len() as int)]
        &&& out[q].position == pre_entries[j].position
        &&& out[q].lod == pre_entries[j].lod
        &&& block_eq(out[q].block, post.entries@[j].mesh)
    } by {
        let u = q / cl;
        let c = q % cl;
        lemma_fundamental_div_mod(q, cl);
        assert(0 <= u < ups.len()) by (nonlinear_arith)
            requires
                q == cl * u + c,
                0 <= c < cl,
                0 <= q < ups.len() * cl,
        ;
        let du = ups[u];
        assert(du.position == pre_entries[ks[u]].position);
        assert(out[q].position == du.position);
        assert(block_eq(out[q].block, du.block));
        assert(block_eq(du.block, post.entries@[ks[u]].mesh));
    }
}

/// Run a brush and fan the reported blocks out to every connected client.
#[verifier::rlimit(100)]
fn apply_brush(server: &mut Server, brush: Brush, bound: Aabb3i) -> (result: Result<
    Vec<TerrainBlockSend>,
    DispatchError,
>)
    requires
        old(server).wf(),
        brush.field.wf(),
        bound.wf(),
    ensures
        final(server).wf(),
        final(server).clients@ == old(server).clients@,
        result is Err ==> *final(server) == *old(server),
        result is Err ==> result == Result::<Vec<TerrainBlockSend>, DispatchError>::Err(
            DispatchError::IdsExhausted,
        ),
        (result is Err) <==> old(server).loader.id_allocator.next + 6144 * old(
            server,
        ).loader.entries@.len() > u64::MAX,
        result matches Ok(out) ==> brush_effects(
            old(server).loader,
            final(server).loader,
            composed_spec(old(server).loader.field, brush.field, brush.material),
            bound,
        ) && deliveries_sound(out@, final(server).loader, old(server).clients@, bound)
            && deliveries_complete(
            out@,
            old(server).loader.entries@,
            final(server).loader,
            old(server).clients@,
            bound,
        ),
{
    let next = server.loader.next_entity_id();
    let count = server.loader.loaded_count();
    let room: u64 = (u64::MAX - next) / 6144;
    if count as u64 > room {
        proof {
            lemma_fundamental_div_mod((u64::MAX - next) as int, 6144);
            assert(6144 * (count as int) > (u64::MAX - next) as int) by (nonlinear_arith)
                requires
                    count as int > ((u64::MAX - next) as int) / 6144,
                    (u64::MAX - next) as int == 6144 * (((u64::MAX - next) as int) / 6144) + ((
                    u64::MAX - next) as int) % 6144,
                    ((u64::MAX - next) as int) % 6144 < 6144,
            ;
        }
        return Err(DispatchError::IdsExhausted);
    }
    proof {
        lemma_fundamental_div_mod((u64::MAX - next) as int, 6144);
        assert(6144 * (count as int) <= u64::MAX - next) by (nonlinear_arith)
            requires
                count as int <= ((u64::MAX - next) as int) / 6144,
                (u64::MAX - next) as int == 6144 * (((u64::MAX - next) as int) / 6144) + ((
                u64::MAX - next) as int) % 6144,
                0 <= ((u64::MAX - next) as int) % 6144,
        ;
    }
    let updates = server.loader.brush(&brush, &bound);
    let out = broadcast(&server.clients, &updates);
    proof {
        let cl = old(server).clients@.len() as int;
        assert forall|q: int| 0 <= q < out@.len() implies old(server).clients@.contains(
            (#[trigger] out@[q]).client,
        ) && has_entry(server.loader.entries@, out@[q].position, out@[q].lod) && block_intersects(
            out@[q].position,
            bound,
        ) by {
            let u = q / cl;
            let c = q % cl;
            lemma_fundamental_div_mod(q, cl);
            assert(0 <= u < updates@.len()) by (nonlinear_arith)
                requires
                    q == cl * u + c,
                    0 <= c < cl,
                    0 <= q < updates@.len() * cl,
            ;
            assert(old(server).clients@[c] == out@[q].client);
            assert(old(server).clients@.contains(out@[q].client));
        }
        assert forall|q: int, j: int|
            0 <= q < out@.len() && 0 <= j < server.loader.entries@.len() && entry_matches(
                #[trigger] server.loader.entries@[j],
                (#[trigger] out@[q]).position,
                out@[q].lod,
            ) implies block_eq(out@[q].block, server.loader.entries@[j].mesh) by {
            let u = q / cl;
            let c = q % cl;
            lemma_fundamental_div_mod(q, cl);
            assert(0 <= u < updates@.len()) by (nonlinear_arith)
                requires
                    q == cl * u + c,
                    0 <= c < cl,
                    0 <= q < updates@.len() * cl,
            ;
        }
        assert forall|q: int| 0 <= q < updates@.len() implies {
            let j = crate::brush::intersecting_indices(old(server).loader.entries@, bound)[q];
            &&& (#[trigger] updates@[q]).position == old(server).loader.entries@[j].position
            &&& updates@[q].lod == old(server).loader.entries@[j].lod
            &&& block_eq(updates@[q].block, server.loader.entries@[j].mesh)
        } by {
            let du = updates@[q];
            assert(du.position == old(server).loader.entries@[crate::brush::intersecting_indices(
                old(server).loader.entries@,
                bound,
            )[q]].position);
        }
        lemma_broadcast_complete(
            out@,
            updates@,
            old(server).loader.entries@,
            server.loader,
            old(server).clients@,
            bound,
        );
    }
    Ok(out)
}


/// An integer point whose scaled coordinate lies within `c ± r` lies between
/// the outward-rounded lattice bounds.
proof fn lemma_cover_axis(c: int, r: int, v: int)
    requires
        0 <= r,
        c - r <= 256 * v <= c + r,
    ensures
        (c - r) / 256 <= v <= (c + r + 255) / 256,
{
    lemma_fundamental_div_mod(c - r, 256);
    lemma_fundamental_div_mod(c + r + 255, 256);
    let q1 = (c - r) / 256;
    let q2 = (c + r + 255) / 256;
    assert(q1 <= v) by (nonlinear_arith)
        requires
            c - r == 256 * q1 + (c - r) % 256,
            0 <= (c - r) % 256 < 256,
            c - r <= 256 * v,
    ;
    assert(v <= q2) by (nonlinear_arith)
        requires
            c + r + 255 == 256 * q2 + (c + r + 255) % 256,
            0 <= (c + r + 255) % 256 < 256,
            256 * v <= c + r,
    ;
}

/// A squared distance within a squared radius bounds the distance itself.
proof fn lemma_abs_from_square(d: int, r: int)
    requires
        0 <= r,
        d * d <= r * r,
    ensures
        -r <= d <= r,
{
    assert(-r <= d <= r) by (nonlinear_arith)
        requires
            0 <= r,
            d * d <= r * r,
    ;
}

/// The sphere removal's bound covers every lattice point its field reaches:
/// nothing the brush can change lies outside the regenerated region.
pub proof fn lemma_sphere_bound_covers(s: SphereBrush, x: int, y: int, z: int)
    requires
        s.wf(),
        sphere_field_spec(s).contains_spec(x, y, z),
    ensures
        ({
            let b = sphere_bound_spec(s);
            &&& b.min.x <= x <= b.max.x
            &&& b.min.y <= y <= b.max.y
            &&& b.min.z <= z <= b.max.z
        }),
{
    let r = s.radius as int;
    let dx = 256 * x - s.center_x;
    let dy = 256 * y - s.center_y;
    let dz = 256 * z - s.center_z;
    assert(dx * dx <= r * r && dy * dy <= r * r && dz * dz <= r * r) by (nonlinear_arith)
        requires
            dx * dx + dy * dy + dz * dz <= r * r,
    ;
    lemma_abs_from_square(dx, r);
    lemma_abs_from_square(dy, r);
    lemma_abs_from_square(dz, r);
    lemma_cover_axis(s.center_x as int, r + 256, x);
    lemma_cover_axis(s.center_y as int, r + 256, y);
    lemma_cover_axis(s.center_z as int, r + 256, z);
}

/// The tree's bound covers every lattice point its field reaches, for the
/// trunk radii the clamp admits: the twenty unit margin swallows the trunk's
/// width, and half the trunk height plus the leaf radius reach both the
/// trunk's ends and the whole leaf ball.
pub proof fn lemma_tree_bound_covers(t: TreeBrush, x: int, y: int, z: int)
    requires
        t.wf(),
        t.trunk_radius <= 5120,
        tree_field_spec(t).contains_spec(x, y, z),
    ensures
        ({
            let b = tree_bound_spec(t);
            &&& b.min.x <= x <= b.max.x
            &&& b.min.y <= y <= b.max.y
            &&& b.min.z <= z <= b.max.z
        }),
{
    let h = t.trunk_height as int;
    let cy = t.bottom_y + h / 2;
    let r = h / 2 + t.leaf_radius + 5120;
    lemma_fundamental_div_mod(h, 2);
    if (Field::Cylinder {
        cx: t.bottom_x,
        cz: t.bottom_z,
        y0: t.bottom_y,
        y1: (t.bottom_y + t.trunk_height) as i64,
        r: t.trunk_radius,
    }).contains_spec(x, y, z) {
        let dx = 256 * x - t.bottom_x;
        let dz = 256 * z - t.bottom_z;
        let tr = t.trunk_radius as int;
        assert(dx * dx <= tr * tr && dz * dz <= tr * tr) by (nonlinear_arith)
            requires
                dx * dx + dz * dz <= tr * tr,
        ;
        lemma_abs_from_square(dx, tr);
        lemma_abs_from_square(dz, tr);
        lemma_cover_axis(t.bottom_x as int, r, x);
        lemma_cover_axis(t.bottom_z as int, r, z);
        lemma_cover_axis(cy, r, y);
    } else {
        let dx = 256 * x - t.bottom_x;
        let dy = 256 * y - (t.bottom_y + h);
        let dz = 256 * z - t.bottom_z;
        let lr = t.leaf_radius as int;
        assert((Field::Sphere {
            cx: t.bottom_x,
            cy: (t.bottom_y + t.trunk_height) as i64,
            cz: t.bottom_z,
            r: t.leaf_radius,
        }).contains_spec(x, y, z));
        assert(dx * dx + dy * dy + dz * dz <= lr * lr);
        assert(dx * dx <= lr * lr && dy * dy <= lr * lr && dz * dz <= lr * lr) by (nonlinear_arith)
            requires
                dx * dx + dy * dy + dz * dz <= lr * lr,
        ;
        lemma_abs_from_square(dx, lr);
        lemma_abs_from_square(dy, lr);
        lemma_abs_from_square(dz, lr);
        lemma_cover_axis(t.bottom_x as int, r, x);
        lemma_cover_axis(t.bottom_z as int, r, z);
        lemma_cover_axis(cy, r, y);
    }
}

} // verus!
