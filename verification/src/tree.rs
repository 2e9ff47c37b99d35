//! The sparse voxel octree.
//!
//! Nodes are `Empty`, a `Leaf` holding one surface sample, or a `Branch` of
//! eight octants.  A slot is addressed by a well-formed `VoxelBounds`:
//! starting from a root cube that covers the whole `i32` lattice, each level
//! halves the cube until it equals the bounds' cube.  Addressing a slot
//! allocates branches along the way; a leaf or branch standing in the path, or
//! a branch standing at the slot itself, is overwritten — a documented, lossy
//! "regenerate and replace" behaviour that discards finer data.
use vstd::prelude::*;
use vstd::arithmetic::power2::*;
use vstd::arithmetic::div_mod::*;

use crate::field::Field;
use crate::geom::Point3i;
use crate::sampler::{generate_voxel, sample_spec};
use crate::voxel::{Voxel, VoxelBounds, exp2};

verus! {

pub enum TreeBody {
    Empty,
    Leaf(Voxel),
    Branch(Box<Branches>),
}

/// The eight octants of a branch, indexed `4 * bx + 2 * by + bz` where each
/// bit says whether the octant sits in the upper half of its axis.
pub struct Branches {
    pub children: Vec<TreeBody>,
}

/// Every branch has exactly eight children.
pub open spec fn body_wf(body: TreeBody) -> bool
    decreases body,
{
    match body {
        TreeBody::Branch(bs) => bs.children.len() == 8 && (forall|i: int|
            0 <= i < 8 ==> body_wf(#[trigger] bs.children[i])),
        _ => true,
    }
}

/// Half of `i32` space: the root cube spans `[-HALF_SPACE, HALF_SPACE)` on
/// each axis.
pub const HALF_SPACE: i64 = 0x8000_0000;

/// The node cube `[o, o + 2^level)` sits on the dyadic grid of its level.
pub open spec fn node_aligned(ox: int, oy: int, oz: int, level: nat) -> bool {
    &&& level <= 32
    &&& (ox + HALF_SPACE) % (pow2(level) as int) == 0
    &&& (oy + HALF_SPACE) % (pow2(level) as int) == 0
    &&& (oz + HALF_SPACE) % (pow2(level) as int) == 0
    &&& -HALF_SPACE <= ox && ox + pow2(level) <= HALF_SPACE
    &&& -HALF_SPACE <= oy && oy + pow2(level) <= HALF_SPACE
    &&& -HALF_SPACE <= oz && oz + pow2(level) <= HALF_SPACE
}

/// The node cube contains the bounds' cube.
pub open spec fn covers(ox: int, oy: int, oz: int, level: nat, b: VoxelBounds) -> bool {
    &&& b.lg_size <= level
    &&& ox <= b.x && b.x + b.side() <= ox + pow2(level)
    &&& oy <= b.y && b.y + b.side() <= oy + pow2(level)
    &&& oz <= b.z && b.z + b.side() <= oz + pow2(level)
}

/// Which octant of a node at `level` the bounds descends into.
pub open spec fn child_bit(o: int, half: int, c: int) -> int {
    if c >= o + half {
        1
    } else {
        0
    }
}

pub open spec fn child_index(ox: int, oy: int, oz: int, level: nat, b: VoxelBounds) -> int {
    let half = pow2((level - 1) as nat) as int;
    4 * child_bit(ox, half, b.x as int) + 2 * child_bit(oy, half, b.y as int) + child_bit(oz, half, b.z as int)
}

/// The leaf stored for `b`, if the path from this node down to `b`'s cube
/// consists of branches and ends in a leaf.
pub open spec fn leaf_at(
    body: TreeBody,
    ox: int,
    oy: int,
    oz: int,
    level: nat,
    b: VoxelBounds,
) -> Option<Voxel>
    decreases level,
{
    if level == b.lg_size {
        match body {
            TreeBody::Leaf(v) => Some(v),
            _ => None,
        }
    } else if level == 0 {
        None
    } else {
        match body {
            TreeBody::Branch(bs) => {
                let half = pow2((level - 1) as nat) as int;
                let bx = child_bit(ox, half, b.x as int);
                let by = child_bit(oy, half, b.y as int);
                let bz = child_bit(oz, half, b.z as int);
                leaf_at(
                    bs.children[4 * bx + 2 * by + bz],
                    ox + bx * half,
                    oy + by * half,
                    oz + bz * half,
                    (level - 1) as nat,
                    b,
                )
            },
            _ => None,
        }
    }
}

/// An integer multiple of `s` strictly between `0` and `s` cannot exist.
proof fn lemma_multiple_in_gap(d: int, s: int)
    requires
        s > 0,
        d % s == 0,
        -s < d < s,
    ensures
        d == 0,
{
    lemma_fundamental_div_mod(d, s);
    assert(d == s * (d / s));
    if d > 0 {
        assert(s * (d / s) > 0);
        assert(d / s > 0) by (nonlinear_arith)
            requires
                s > 0,
                s * (d / s) > 0,
        ;
        assert(s * (d / s) >= s) by (nonlinear_arith)
            requires
                s > 0,
                d / s >= 1,
        ;
    } else if d < 0 {
        assert(d / s < 0) by (nonlinear_arith)
            requires
                s > 0,
                s * (d / s) < 0,
                d == s * (d / s),
        ;
        assert(s * (d / s) <= -s) by (nonlinear_arith)
            requires
                s > 0,
                d / s <= -1,
        ;
    }
}

/// Divisibility by a larger power of two implies divisibility by a smaller.
proof fn lemma_pow2_divides(a: int, e1: nat, e2: nat)
    requires
        e1 <= e2,
        a % (pow2(e2) as int) == 0,
    ensures
        a % (pow2(e1) as int) == 0,
{
    lemma_pow2_adds(e1, (e2 - e1) as nat);
    lemma_pow2_pos(e1);
    lemma_pow2_pos((e2 - e1) as nat);
    let p1 = pow2(e1) as int;
    let q = pow2((e2 - e1) as nat) as int;
    assert(p1 * q > 0) by (nonlinear_arith)
        requires
            p1 > 0,
            q > 0,
    ;
    assert(pow2(e2) as int == p1 * q);
    lemma_fundamental_div_mod(a, p1 * q);
    assert(a % (p1 * q) == 0);
    assert(a == p1 * q * (a / (p1 * q)));
    let k = q * (a / (p1 * q));
    assert(a == k * p1) by (nonlinear_arith)
        requires
            a == p1 * q * (a / (p1 * q)),
            k == q * (a / (p1 * q)),
    ;
    lemma_mod_multiples_basic(k, p1);
}

/// Descending one level: the chosen octant still covers the bounds and is
/// aligned one level down.
proof fn lemma_child_step(ox: int, oy: int, oz: int, level: nat, b: VoxelBounds)
    requires
        1 <= level <= 32,
        b.wf(),
        b.lg_size < level,
        node_aligned(ox, oy, oz, level),
        covers(ox, oy, oz, level, b),
    ensures
        ({
            let h = pow2((level - 1) as nat) as int;
            let bx = child_bit(ox, h, b.x as int);
            let by = child_bit(oy, h, b.y as int);
            let bz = child_bit(oz, h, b.z as int);
            &&& node_aligned(ox + bx * h, oy + by * h, oz + bz * h, (level - 1) as nat)
            &&& covers(ox + bx * h, oy + by * h, oz + bz * h, (level - 1) as nat, b)
            &&& 0 <= 4 * bx + 2 * by + bz < 8
        }),
{
    let lvm1 = (level - 1) as nat;
    let h = pow2(lvm1) as int;
    lemma_pow2_pos(lvm1);
    lemma_pow2_adds(lvm1, 1);
    lemma2_to64();
    assert(pow2(level) == 2 * h);
    axis_child(ox, b.x as int, b.side(), b.lg_size as nat, lvm1);
    axis_child(oy, b.y as int, b.side(), b.lg_size as nat, lvm1);
    axis_child(oz, b.z as int, b.side(), b.lg_size as nat, lvm1);
}

/// Two distinct well-formed bounds of the same size never overlap.
pub proof fn lemma_same_size_distinct(b: VoxelBounds, b2: VoxelBounds)
    requires
        b.wf(),
        b2.wf(),
        b.lg_size == b2.lg_size,
        b != b2,
    ensures
        !b.overlaps(b2),
{
    let s = b.side();
    lemma_pow2_pos(b.lg_size as nat);
    if b.overlaps(b2) {
        assert(b.x == b2.x) by {
            mod_zero_diff(b.x as int, b2.x as int, s);
            lemma_multiple_in_gap(b.x - b2.x, s);
        }
        assert(b.y == b2.y) by {
            mod_zero_diff(b.y as int, b2.y as int, s);
            lemma_multiple_in_gap(b.y - b2.y, s);
        }
        assert(b.z == b2.z) by {
            mod_zero_diff(b.z as int, b2.z as int, s);
            lemma_multiple_in_gap(b.z - b2.z, s);
        }
    }
}

/// A well-formed bounds is covered by the root cube.
pub proof fn lemma_root_covers(b: VoxelBounds)
    requires
        b.wf(),
    ensures
        covers(-HALF_SPACE as int, -HALF_SPACE as int, -HALF_SPACE as int, 32, b),
        node_aligned(-HALF_SPACE as int, -HALF_SPACE as int, -HALF_SPACE as int, 32),
{
    lemma2_to64();
    lemma2_to64_rest();
    lemma_pow2_pos(b.lg_size as nat);
    let s = b.side();
    assert(s <= 0x8000_0000) by {
        lemma_pow2_adds(b.lg_size as nat, (31 - b.lg_size) as nat);
        lemma_pow2_pos((31 - b.lg_size) as nat);
        assert(pow2(31) == pow2(b.lg_size as nat) * pow2((31 - b.lg_size) as nat));
        assert(pow2((31 - b.lg_size) as nat) >= 1);
        assert(pow2(31) >= pow2(b.lg_size as nat)) by (nonlinear_arith)
            requires
                pow2(31) == pow2(b.lg_size as nat) * pow2((31 - b.lg_size) as nat),
                pow2((31 - b.lg_size) as nat) >= 1,
                pow2(b.lg_size as nat) >= 1,
        ;
    }
    assert((0x8000_0000int) % s == 0) by {
        lemma_mod_self_0(pow2(31) as int);
        lemma_pow2_divides(0x8000_0000int, b.lg_size as nat, 31);
    }
    assert(b.x + s <= 0x8000_0000) by {
        axis_upper(b.x as int, s);
    }
    assert(b.y + s <= 0x8000_0000) by {
        axis_upper(b.y as int, s);
    }
    assert(b.z + s <= 0x8000_0000) by {
        axis_upper(b.z as int, s);
    }
    assert((pow2(32) as int) == 0x1_0000_0000);
    assert((-HALF_SPACE + HALF_SPACE) as int % (pow2(32) as int) == 0) by {
        lemma_mod_self_0(pow2(32) as int);
        assert((0int) % (pow2(32) as int) == 0) by (nonlinear_arith)
            requires
                pow2(32) > 0,
        ;
    }
}

/// One axis of the descent: a covered, aligned cube falls entirely inside one
/// half of the node, and the chosen half is aligned one level down.
proof fn axis_child(o: int, c: int, s: int, lg: nat, lvm1: nat)
    requires
        s == pow2(lg),
        lg <= lvm1,
        lvm1 <= 31,
        (o + 0x8000_0000) % (pow2((lvm1 + 1) as nat) as int) == 0,
        c % s == 0,
        o <= c,
        c + s <= o + 2 * pow2(lvm1),
    ensures
        ({
            let h = pow2(lvm1) as int;
            let bit = child_bit(o, h, c);
            &&& o + bit * h <= c
            &&& c + s <= o + bit * h + h
            &&& (o + bit * h + 0x8000_0000) % h == 0
        }),
{
    let h = pow2(lvm1) as int;
    lemma_pow2_pos(lvm1);
    lemma_pow2_pos(lg);
    lemma_pow2_adds(lvm1, 1);
    lemma2_to64();
    assert(pow2((lvm1 + 1) as nat) == 2 * h);
    lemma_pow2_divides(o + 0x8000_0000, lvm1, (lvm1 + 1) as nat);
    assert((o + 0x8000_0000) % h == 0);
    assert(h % s == 0) by {
        lemma_mod_self_0(h);
        lemma_pow2_divides(h, lg, lvm1);
    }
    assert((0x8000_0000int) % s == 0) by {
        lemma_mod_self_0(pow2(31) as int);
        lemma_pow2_divides(0x8000_0000int, lg, 31);
        lemma2_to64_rest();
    }
    let bit = child_bit(o, h, c);
    assert((o + bit * h + 0x8000_0000) % h == 0) by {
        lemma_mod_multiples_vanish(bit, o + 0x8000_0000, h);
        assert(h * bit + (o + 0x8000_0000) == o + bit * h + 0x8000_0000) by (nonlinear_arith);
    }
    if bit == 0 {
        assert(c + s <= o + h) by {
            let d = o + h - c;
            assert(d % s == 0) by {
                lemma_pow2_divides(o + 0x8000_0000, lg, lvm1);
                mod_zero_sum(c, 0x8000_0000, s);
                mod_zero_linear(o + 0x8000_0000, h, c + 0x8000_0000, s);
            }
            if d < s {
                lemma_multiple_in_gap(d, s);
            }
        }
    }
}

/// The sum of two multiples of `s` is a multiple of `s`.
proof fn mod_zero_sum(a: int, b: int, s: int)
    requires
        s > 0,
        a % s == 0,
        b % s == 0,
    ensures
        (a + b) % s == 0,
{
    lemma_fundamental_div_mod(a, s);
    lemma_fundamental_div_mod(b, s);
    assert(a + b == s * (a / s + b / s)) by (nonlinear_arith)
        requires
            a == s * (a / s),
            b == s * (b / s),
    ;
    lemma_mod_multiples_basic(a / s + b / s, s);
    assert(s * (a / s + b / s) == (a / s + b / s) * s) by (nonlinear_arith);
}

/// The difference of two multiples of `s` is a multiple of `s`.
proof fn mod_zero_diff(a: int, c: int, s: int)
    requires
        s > 0,
        a % s == 0,
        c % s == 0,
    ensures
        (a - c) % s == 0,
{
    lemma_fundamental_div_mod(a, s);
    lemma_fundamental_div_mod(c, s);
    assert(a - c == (a / s - c / s) * s) by (nonlinear_arith)
        requires
            a == s * (a / s),
            c == s * (c / s),
    ;
    lemma_mod_multiples_basic(a / s - c / s, s);
}

/// `a + b - c` is a multiple of `s` when all three terms are.
proof fn mod_zero_linear(a: int, b: int, c: int, s: int)
    requires
        s > 0,
        a % s == 0,
        b % s == 0,
        c % s == 0,
    ensures
        (a + b - c) % s == 0,
{
    lemma_fundamental_div_mod(a, s);
    lemma_fundamental_div_mod(b, s);
    lemma_fundamental_div_mod(c, s);
    assert(a + b - c == (a / s + b / s - c / s) * s) by (nonlinear_arith)
        requires
            a == s * (a / s),
            b == s * (b / s),
            c == s * (c / s),
    ;
    lemma_mod_multiples_basic(a / s + b / s - c / s, s);
}

/// An `s`-aligned coordinate below `2^31` stays at least `s` below it.
proof fn axis_upper(x: int, s: int)
    requires
        s > 0,
        x % s == 0,
        x < 0x8000_0000,
        s <= 0x8000_0000,
        (0x8000_0000int) % s == 0,
    ensures
        x + s <= 0x8000_0000,
{
    let d = 0x8000_0000int - x;
    lemma_mod_adds(0x8000_0000int, -x, s);
    assert(d % s == 0) by {
        lemma_fundamental_div_mod(x, s);
        lemma_fundamental_div_mod(0x8000_0000int, s);
        assert(x == s * (x / s));
        assert(0x8000_0000int == s * (0x8000_0000int / s));
        assert(d == s * (0x8000_0000int / s - x / s)) by (nonlinear_arith)
            requires
                x == s * (x / s),
                0x8000_0000int == s * (0x8000_0000int / s),
                d == 0x8000_0000int - x,
        ;
        lemma_mod_multiples_basic(0x8000_0000int / s - x / s, s);
    }
    if d < s {
        lemma_multiple_in_gap(d, s);
    }
}


/// A vector of eight empty octants.
fn make_empty_children() -> (v: Vec<TreeBody>)
    ensures
        v.len() == 8,
        forall|i: int| 0 <= i < 8 ==> #[trigger] v@[i] is Empty,
{
    let mut v: Vec<TreeBody> = Vec::new();
    let mut i: usize = 0;
    while i < 8
        invariant
            i <= 8,
            v.len() == i,
            forall|j: int| 0 <= j < i ==> #[trigger] v@[j] is Empty,
        decreases 8 - i,
    {
        v.push(TreeBody::Empty);
        i = i + 1;
    }
    v
}

/// What a branch update preserves: bounds covered by the node that do not
/// overlap the addressed bounds keep their leaf.
#[verifier::spinoff_prover]
proof fn lemma_branch_update_preserves(
    old_body: TreeBody,
    children0: Seq<TreeBody>,
    out: TreeBody,
    child2: TreeBody,
    ox: int,
    oy: int,
    oz: int,
    level: nat,
    b: VoxelBounds,
    idx: int,
)
    requires
        1 <= level <= 32,
        b.wf(),
        b.lg_size < level,
        node_aligned(ox, oy, oz, level),
        covers(ox, oy, oz, level, b),
        idx == child_index(ox, oy, oz, level, b),
        children0.len() == 8,
        out matches TreeBody::Branch(bs) && bs.children@ == children0.update(idx, child2),
        old_body matches TreeBody::Branch(bs0) ==> children0 == bs0.children@,
        !(old_body is Branch) ==> children0.len() == 8 && (forall|i: int|
            0 <= i < 8 ==> #[trigger] children0[i] is Empty),
        ({
            let h = pow2((level - 1) as nat) as int;
            let cox = ox + child_bit(ox, h, b.x as int) * h;
            let coy = oy + child_bit(oy, h, b.y as int) * h;
            let coz = oz + child_bit(oz, h, b.z as int) * h;
            forall|b2: VoxelBounds|
                b2.wf() && covers(cox, coy, coz, (level - 1) as nat, b2) && !b.overlaps(b2)
                    ==> #[trigger] leaf_at(child2, cox, coy, coz, (level - 1) as nat, b2)
                    == leaf_at(children0[idx], cox, coy, coz, (level - 1) as nat, b2)
        }),
    ensures
        forall|b2: VoxelBounds|
            b2.wf() && covers(ox, oy, oz, level, b2) && !b.overlaps(b2) ==> #[trigger] leaf_at(
                out,
                ox,
                oy,
                oz,
                level,
                b2,
            ) == leaf_at(old_body, ox, oy, oz, level, b2),
{
    let h = pow2((level - 1) as nat) as int;
    let children = children0.update(idx, child2);
    assert forall|b2: VoxelBounds|
        b2.wf() && covers(ox, oy, oz, level, b2) && !b.overlaps(b2) implies #[trigger] leaf_at(
        out,
        ox,
        oy,
        oz,
        level,
        b2,
    ) == leaf_at(old_body, ox, oy, oz, level, b2) by {
        lemma_pow2_pos(b2.lg_size as nat);
        lemma_pow2_pos(b.lg_size as nat);
        if b2.lg_size == level {
            assert(b.overlaps(b2));
        } else {
            lemma_child_step(ox, oy, oz, level, b2);
            let bx2 = child_bit(ox, h, b2.x as int);
            let by2 = child_bit(oy, h, b2.y as int);
            let bz2 = child_bit(oz, h, b2.z as int);
            let idx2 = 4 * bx2 + 2 * by2 + bz2;
            let cox2 = ox + bx2 * h;
            let coy2 = oy + by2 * h;
            let coz2 = oz + bz2 * h;
            assert(leaf_at(out, ox, oy, oz, level, b2) == leaf_at(
                children[idx2],
                cox2,
                coy2,
                coz2,
                (level - 1) as nat,
                b2,
            ));
            if idx2 == idx {
                assert(children[idx2] == child2);
            } else {
                assert(children[idx2] == children0[idx2]);
            }
            if old_body matches TreeBody::Branch(bs0) {
                assert(leaf_at(old_body, ox, oy, oz, level, b2) == leaf_at(
                    children0[idx2],
                    cox2,
                    coy2,
                    coz2,
                    (level - 1) as nat,
                    b2,
                ));
            } else {
                assert(children0[idx2] is Empty);
                assert(leaf_at(old_body, ox, oy, oz, level, b2) is None);
                assert(leaf_at(children0[idx2], cox2, coy2, coz2, (level - 1) as nat, b2)
                    is None);
            }
        }
    }
}

/// Walk down to the slot of `b`.  With `regen` false this returns a cached
/// leaf when one stands at the slot and otherwise samples the field, caching a
/// produced voxel; with `regen` true it always resamples and the slot becomes
/// exactly the sample.
#[verifier::rlimit(100)]
#[verifier::spinoff_prover]
fn walk(
    body: TreeBody,
    ox: i64,
    oy: i64,
    oz: i64,
    level: u8,
    b: VoxelBounds,
    field: &Field,
    regen: bool,
) -> (res: (TreeBody, Option<Voxel>))
    requires
        body_wf(body),
        field.wf(),
        b.wf(),
        b.in_range(),
        node_aligned(ox as int, oy as int, oz as int, level as nat),
        covers(ox as int, oy as int, oz as int, level as nat, b),
    ensures
        body_wf(res.0),
        res.1 == (if !regen && leaf_at(body, ox as int, oy as int, oz as int, level as nat, b)
            is Some {
            leaf_at(body, ox as int, oy as int, oz as int, level as nat, b)
        } else {
            sample_spec(*field, b)
        }),
        leaf_at(res.0, ox as int, oy as int, oz as int, level as nat, b) == res.1,
        forall|b2: VoxelBounds|
            b2.wf() && covers(ox as int, oy as int, oz as int, level as nat, b2) && !b.overlaps(
                b2,
            ) ==> #[trigger] leaf_at(res.0, ox as int, oy as int, oz as int, level as nat, b2)
                == leaf_at(body, ox as int, oy as int, oz as int, level as nat, b2),
    decreases level,
{
    let ghost old_body = body;
    proof {
        lemma_pow2_pos(b.lg_size as nat);
    }
    if level == b.lg_size {
        proof {
            assert(ox as int == b.x && oy as int == b.y && oz as int == b.z);
        }
        let res: (TreeBody, Option<Voxel>) = match body {
            TreeBody::Leaf(v) => {
                if regen {
                    let s = generate_voxel(field, b);
                    match s {
                        Some(w) => (TreeBody::Leaf(w), Some(w)),
                        None => (TreeBody::Empty, None),
                    }
                } else {
                    (TreeBody::Leaf(v), Some(v))
                }
            },
            other => {
                let s = generate_voxel(field, b);
                match s {
                    Some(w) => (TreeBody::Leaf(w), Some(w)),
                    None => {
                        if regen {
                            (TreeBody::Empty, None)
                        } else {
                            (other, None)
                        }
                    },
                }
            },
        };
        proof {
            // The node cube is exactly the slot's cube, so any covered bounds
            // overlaps `b`: the preservation claim is vacuous here.
            assert forall|b2: VoxelBounds|
                b2.wf() && covers(ox as int, oy as int, oz as int, level as nat, b2)
                    && !b.overlaps(b2) implies #[trigger] leaf_at(
                res.0,
                ox as int,
                oy as int,
                oz as int,
                level as nat,
                b2,
            ) == leaf_at(old_body, ox as int, oy as int, oz as int, level as nat, b2) by {
                lemma_pow2_pos(b2.lg_size as nat);
                assert(b.overlaps(b2));
            }
        }
        res
    } else {
        let half: i64 = exp2(level - 1);
        proof {
            lemma_child_step(ox as int, oy as int, oz as int, level as nat, b);
        }
        let bx: i64 = if (b.x as i64) >= ox + half {
            1
        } else {
            0
        };
        let by: i64 = if (b.y as i64) >= oy + half {
            1
        } else {
            0
        };
        let bz: i64 = if (b.z as i64) >= oz + half {
            1
        } else {
            0
        };
        let idx: usize = (4 * bx + 2 * by + bz) as usize;
        let mut children: Vec<TreeBody> = match body {
            TreeBody::Branch(bs) => {
                let Branches { children } = *bs;
                children
            },
            _ => make_empty_children(),
        };
        let ghost children0 = children@;
        let child = children.remove(idx);
        let cox: i64 = ox + bx * half;
        let coy: i64 = oy + by * half;
        let coz: i64 = oz + bz * half;
        let (child2, r) = walk(child, cox, coy, coz, level - 1, b, field, regen);
        children.insert(idx, child2);
        proof {
            assert(children@ =~= children0.update(idx as int, child2));
        }
        let out = TreeBody::Branch(Box::new(Branches { children }));
        proof {
            let lv = level as nat;
            let lvm1 = (level - 1) as nat;
            let h = pow2(lvm1) as int;
            assert(bx == child_bit(ox as int, h, b.x as int));
            assert(by == child_bit(oy as int, h, b.y as int));
            assert(bz == child_bit(oz as int, h, b.z as int));
            assert forall|i: int| 0 <= i < 8 implies body_wf(#[trigger] children0.update(idx as int, child2)[i]) by {
                if i == idx as int {
                } else {
                    if old_body is Branch {
                        assert(body_wf(children0[i]));
                    } else {
                        assert(children0[i] is Empty);
                    }
                }
            }
            assert(body_wf(out));
            if old_body is Branch {
                assert(leaf_at(old_body, ox as int, oy as int, oz as int, lv, b) == leaf_at(
                    children0[idx as int],
                    cox as int,
                    coy as int,
                    coz as int,
                    lvm1,
                    b,
                ));
            } else {
                assert(leaf_at(old_body, ox as int, oy as int, oz as int, lv, b) is None);
                assert(children0[idx as int] is Empty);
                assert(leaf_at(children0[idx as int], cox as int, coy as int, coz as int, lvm1, b)
                    is None);
            }
            assert(leaf_at(out, ox as int, oy as int, oz as int, lv, b) == leaf_at(
                child2,
                cox as int,
                coy as int,
                coz as int,
                lvm1,
                b,
            ));
            lemma_branch_update_preserves(
                old_body,
                children0,
                out,
                child2,
                ox as int,
                oy as int,
                oz as int,
                lv,
                b,
                idx as int,
            );
        }
        (out, r)
    }
}

/// Read-only lookup of the slot of `b`.
fn peek(body: &TreeBody, ox: i64, oy: i64, oz: i64, level: u8, b: VoxelBounds) -> (r: Option<
    Voxel,
>)
    requires
        body_wf(*body),
        b.wf(),
        node_aligned(ox as int, oy as int, oz as int, level as nat),
        covers(ox as int, oy as int, oz as int, level as nat, b),
    ensures
        r == leaf_at(*body, ox as int, oy as int, oz as int, level as nat, b),
    decreases level,
{
    if level == b.lg_size {
        match body {
            TreeBody::Leaf(v) => Some(*v),
            _ => None,
        }
    } else {
        match body {
            TreeBody::Branch(bs) => {
                let half: i64 = exp2(level - 1);
                proof {
                    lemma_child_step(ox as int, oy as int, oz as int, level as nat, b);
                }
                let bx: i64 = if (b.x as i64) >= ox + half {
                    1
                } else {
                    0
                };
                let by: i64 = if (b.y as i64) >= oy + half {
                    1
                } else {
                    0
                };
                let bz: i64 = if (b.z as i64) >= oz + half {
                    1
                } else {
                    0
                };
                let idx: usize = (4 * bx + 2 * by + bz) as usize;
                proof {
                    assert(body_wf(bs.children@[idx as int]));
                }
                peek(&bs.children[idx], ox + bx * half, oy + by * half, oz + bz * half, level - 1, b)
            },
            _ => None,
        }
    }
}

/// The octree, rooted in a cube covering the whole `i32` lattice.
pub struct VoxelTree {
    root: TreeBody,
}

impl VoxelTree {
    pub closed spec fn wf(self) -> bool {
        body_wf(self.root)
    }

    /// The cached surface sample stored at the slot of `b`, if any.
    pub closed spec fn leaf(self, b: VoxelBounds) -> Option<Voxel> {
        leaf_at(self.root, -HALF_SPACE as int, -HALF_SPACE as int, -HALF_SPACE as int, 32, b)
    }

    /// What a fetch of `b` observes: the cached leaf when present, a fresh
    /// sample of the field otherwise.
    pub open spec fn effective(self, f: Field, b: VoxelBounds) -> Option<Voxel> {
        if self.leaf(b) is Some {
            self.leaf(b)
        } else {
            sample_spec(f, b)
        }
    }

    pub fn new() -> (t: VoxelTree)
        ensures
            t.wf(),
            forall|b: VoxelBounds| b.wf() ==> #[trigger] t.leaf(b) is None,
    {
        let t = VoxelTree { root: TreeBody::Empty };
        proof {
            assert forall|b: VoxelBounds| b.wf() implies #[trigger] t.leaf(b) is None by {
                assert(b.lg_size <= 31);
            }
        }
        t
    }

    /// The cached sample at the slot of `b`, without generating anything.
    pub fn lookup(&self, b: VoxelBounds) -> (r: Option<Voxel>)
        requires
            self.wf(),
            b.wf(),
        ensures
            r == self.leaf(b),
    {
        proof {
            lemma_root_covers(b);
        }
        peek(&self.root, -2147483648i64, -2147483648i64, -2147483648i64, 32, b)
    }

    /// Fetch the voxel of `b`, generating and caching it on first access.
    ///
    /// A cached leaf is returned as is; otherwise the field is sampled and a
    /// produced voxel is stored.  Slots of non-overlapping bounds are
    /// untouched, and what a fetch at any bounds of the same size observes is
    /// unchanged.
    pub fn get_or_generate(&mut self, b: VoxelBounds, field: &Field) -> (r: Option<Voxel>)
        requires
            old(self).wf(),
            field.wf(),
            b.wf(),
            b.in_range(),
        ensures
            final(self).wf(),
            r == old(self).effective(*field, b),
            final(self).leaf(b) == r,
            forall|b2: VoxelBounds|
                b2.wf() && !b.overlaps(b2) ==> #[trigger] final(self).leaf(b2) == old(self).leaf(
                    b2,
                ),
            forall|b2: VoxelBounds|
                b2.wf() && b2.lg_size == b.lg_size ==> #[trigger] final(self).effective(*field, b2)
                    == old(self).effective(*field, b2),
    {
        proof {
            lemma_root_covers(b);
        }
        let mut tmp = TreeBody::Empty;
        core::mem::swap(&mut self.root, &mut tmp);
        let (nr, r) = walk(tmp, -2147483648i64, -2147483648i64, -2147483648i64, 32, b, field, false);
        self.root = nr;
        proof {
            assert forall|b2: VoxelBounds| b2.wf() && !b.overlaps(b2) implies #[trigger] self.leaf(
                b2,
            ) == old(self).leaf(b2) by {
                lemma_root_covers(b2);
            }
            assert forall|b2: VoxelBounds| b2.wf() && b2.lg_size == b.lg_size implies #[trigger] self.effective(
                *field,
                b2,
            ) == old(self).effective(*field, b2) by {
                if b2 == b {
                    assert(self.leaf(b) == r);
                } else {
                    lemma_same_size_distinct(b, b2);
                    lemma_root_covers(b2);
                }
            }
        }
        r
    }

    /// Regenerate the slot of `b` from the field, overwriting whatever stood
    /// there: afterwards the slot holds exactly the sample.  Slots of
    /// non-overlapping bounds are untouched.
    pub fn regenerate(&mut self, b: VoxelBounds, field: &Field) -> (r: Option<Voxel>)
        requires
            old(self).wf(),
            field.wf(),
            b.wf(),
            b.in_range(),
        ensures
            final(self).wf(),
            r == sample_spec(*field, b),
            final(self).leaf(b) == r,
            final(self).effective(*field, b) == r,
            forall|b2: VoxelBounds|
                b2.wf() && !b.overlaps(b2) ==> #[trigger] final(self).leaf(b2) == old(self).leaf(
                    b2,
                ),
    {
        proof {
            lemma_root_covers(b);
        }
        let mut tmp = TreeBody::Empty;
        core::mem::swap(&mut self.root, &mut tmp);
        let (nr, r) = walk(tmp, -2147483648i64, -2147483648i64, -2147483648i64, 32, b, field, true);
        self.root = nr;
        proof {
            assert forall|b2: VoxelBounds| b2.wf() && !b.overlaps(b2) implies #[trigger] self.leaf(
                b2,
            ) == old(self).leaf(b2) by {
                lemma_root_covers(b2);
            }
        }
        r
    }
}


/// The unit voxel the ray occupies after `k` steps from `origin` along
/// `step`.
pub open spec fn ray_cell(origin: Point3i, step: Point3i, k: int) -> VoxelBounds {
    VoxelBounds {
        x: (origin.x + k * step.x) as i32,
        y: (origin.y + k * step.y) as i32,
        z: (origin.z + k * step.z) as i32,
        lg_size: 0,
    }
}

/// The first of the ray's first `n` cells whose slot holds a cached surface
/// voxel.
pub open spec fn ray_first_hit(t: VoxelTree, origin: Point3i, step: Point3i, n: int) -> Option<
    VoxelBounds,
>
    decreases n,
{
    if n <= 0 {
        None
    } else {
        let prev = ray_first_hit(t, origin, step, n - 1);
        if prev is Some {
            prev
        } else {
            let b = ray_cell(origin, step, n - 1);
            if t.leaf(b) is Some {
                Some(b)
            } else {
                None
            }
        }
    }
}

/// A found hit stays the answer for any longer walk.
proof fn lemma_ray_hit_extends(t: VoxelTree, origin: Point3i, step: Point3i, n: int, m: int)
    requires
        0 <= n <= m,
        ray_first_hit(t, origin, step, n) is Some,
    ensures
        ray_first_hit(t, origin, step, m) == ray_first_hit(t, origin, step, n),
    decreases m,
{
    if m > n {
        lemma_ray_hit_extends(t, origin, step, n, m - 1);
    }
}

/// Unit cells anywhere on the lattice are well formed.
proof fn lemma_unit_cell_wf(b: VoxelBounds)
    requires
        b.lg_size == 0,
    ensures
        b.wf(),
{
    lemma2_to64();
    lemma_fundamental_div_mod(b.x as int, 1);
    lemma_fundamental_div_mod(b.y as int, 1);
    lemma_fundamental_div_mod(b.z as int, 1);
}

impl VoxelTree {
    /// Walk a lattice ray through unit voxels and return the bounds of the
    /// first slot holding a cached surface voxel, if any within `max_steps`.
    /// This is the read-only aim-assist query: it inspects existing voxel
    /// bounds and never mutates the octree.
    pub fn cast_ray(&self, origin: Point3i, step: Point3i, max_steps: u32) -> (r: Option<
        VoxelBounds,
    >)
        requires
            self.wf(),
            -0x400000 <= origin.x <= 0x400000,
            -0x400000 <= origin.y <= 0x400000,
            -0x400000 <= origin.z <= 0x400000,
            -256 <= step.x <= 256,
            -256 <= step.y <= 256,
            -256 <= step.z <= 256,
            max_steps <= 4096,
        ensures
            r == ray_first_hit(*self, origin, step, max_steps as int),
    {
        let mut k: u32 = 0;
        while k < max_steps
            invariant
                k <= max_steps,
                self.wf(),
                -0x400000 <= origin.x <= 0x400000,
                -0x400000 <= origin.y <= 0x400000,
                -0x400000 <= origin.z <= 0x400000,
                -256 <= step.x <= 256,
                -256 <= step.y <= 256,
                -256 <= step.z <= 256,
                max_steps <= 4096,
                ray_first_hit(*self, origin, step, k as int) is None,
            decreases max_steps - k,
        {
            proof {
                assert(-0x200000 <= (k as int) * (step.x as int) <= 0x200000 && -0x200000 <= (
                k as int) * (step.y as int) <= 0x200000 && -0x200000 <= (k as int) * (
                step.z as int) <= 0x200000) by (nonlinear_arith)
                    requires
                        0 <= k <= 4096,
                        -256 <= step.x <= 256,
                        -256 <= step.y <= 256,
                        -256 <= step.z <= 256,
                ;
            }
            let cx: i32 = ((origin.x as i64) + (k as i64) * (step.x as i64)) as i32;
            let cy: i32 = ((origin.y as i64) + (k as i64) * (step.y as i64)) as i32;
            let cz: i32 = ((origin.z as i64) + (k as i64) * (step.z as i64)) as i32;
            let b = VoxelBounds::new(cx, cy, cz, 0);
            proof {
                assert(b == ray_cell(origin, step, k as int));
                lemma_unit_cell_wf(b);
            }
            let hit = self.lookup(b);
            if hit.is_some() {
                proof {
                    assert(ray_first_hit(*self, origin, step, k as int + 1) == Some(b));
                    lemma_ray_hit_extends(*self, origin, step, k as int + 1, max_steps as int);
                }
                return Some(b);
            }
            proof {
                assert(ray_first_hit(*self, origin, step, k as int + 1) is None);
            }
            k = k + 1;
        }
        None
    }
}

} // verus!
