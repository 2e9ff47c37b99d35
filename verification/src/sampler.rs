//! The surface sampler: evaluates a field at the eight corners of a voxel and
//! produces the voxel's surface data, if the surface passes through it.
//!
//! This is a simplified dual-contouring rule: the surface vertex is the
//! arithmetic mean of the midpoints of all crossing edges, quantized to the
//! nearest 1/256 (ties round up).
use vstd::prelude::*;
use vstd::arithmetic::div_mod::*;

use crate::field::Field;
use crate::voxel::{EdgeCrosses, Facing, Frac8, FracVertex, Voxel, VoxelBounds, exp2};

verus! {

/// The field value at corner `(i, j, k)` (each 0 or 1) of the cube.
pub open spec fn corner(f: Field, b: VoxelBounds, i: int, j: int, k: int) -> bool {
    f.contains_spec(b.x + i * b.side(), b.y + j * b.side(), b.z + k * b.side())
}

/// Whether the edge along x at `(y, z) = (j, k)` crosses the surface.
pub open spec fn cross_x(f: Field, b: VoxelBounds, j: int, k: int) -> bool {
    corner(f, b, 0, j, k) != corner(f, b, 1, j, k)
}

/// Whether the edge along y at `(x, z) = (i, k)` crosses the surface.
pub open spec fn cross_y(f: Field, b: VoxelBounds, i: int, k: int) -> bool {
    corner(f, b, i, 0, k) != corner(f, b, i, 1, k)
}

/// Whether the edge along z at `(x, y) = (i, j)` crosses the surface.
pub open spec fn cross_z(f: Field, b: VoxelBounds, i: int, j: int) -> bool {
    corner(f, b, i, j, 0) != corner(f, b, i, j, 1)
}

pub open spec fn edges_spec(f: Field, b: VoxelBounds) -> EdgeCrosses {
    EdgeCrosses {
        x_e00: cross_x(f, b, 0, 0),
        x_e01: cross_x(f, b, 0, 1),
        x_e10: cross_x(f, b, 1, 0),
        x_e11: cross_x(f, b, 1, 1),
        y_e00: cross_y(f, b, 0, 0),
        y_e01: cross_y(f, b, 0, 1),
        y_e10: cross_y(f, b, 1, 0),
        y_e11: cross_y(f, b, 1, 1),
        z_e00: cross_z(f, b, 0, 0),
        z_e01: cross_z(f, b, 0, 1),
        z_e10: cross_z(f, b, 1, 0),
        z_e11: cross_z(f, b, 1, 1),
    }
}

/// An axis faces positive infinity when some crossing edge along it has its
/// lower endpoint inside the solid.
pub open spec fn facing_spec(f: Field, b: VoxelBounds) -> Facing {
    Facing {
        x: (cross_x(f, b, 0, 0) && corner(f, b, 0, 0, 0)) || (cross_x(f, b, 0, 1) && corner(
            f,
            b,
            0,
            0,
            1,
        )) || (cross_x(f, b, 1, 0) && corner(f, b, 0, 1, 0)) || (cross_x(f, b, 1, 1) && corner(
            f,
            b,
            0,
            1,
            1,
        )),
        y: (cross_y(f, b, 0, 0) && corner(f, b, 0, 0, 0)) || (cross_y(f, b, 0, 1) && corner(
            f,
            b,
            0,
            0,
            1,
        )) || (cross_y(f, b, 1, 0) && corner(f, b, 1, 0, 0)) || (cross_y(f, b, 1, 1) && corner(
            f,
            b,
            1,
            0,
            1,
        )),
        z: (cross_z(f, b, 0, 0) && corner(f, b, 0, 0, 0)) || (cross_z(f, b, 0, 1) && corner(
            f,
            b,
            0,
            1,
            0,
        )) || (cross_z(f, b, 1, 0) && corner(f, b, 1, 0, 0)) || (cross_z(f, b, 1, 1) && corner(
            f,
            b,
            1,
            1,
            0,
        )),
    }
}

pub open spec fn bi(b: bool) -> int {
    if b {
        1
    } else {
        0
    }
}

/// How many x edges cross.
pub open spec fn countx(e: EdgeCrosses) -> int {
    bi(e.x_e00) + bi(e.x_e01) + bi(e.x_e10) + bi(e.x_e11)
}

/// How many y edges cross.
pub open spec fn county(e: EdgeCrosses) -> int {
    bi(e.y_e00) + bi(e.y_e01) + bi(e.y_e10) + bi(e.y_e11)
}

/// How many z edges cross.
pub open spec fn countz(e: EdgeCrosses) -> int {
    bi(e.z_e00) + bi(e.z_e01) + bi(e.z_e10) + bi(e.z_e11)
}

/// How many of a cube's edges cross.
pub open spec fn count_of(e: EdgeCrosses) -> int {
    countx(e) + county(e) + countz(e)
}

/// How many crossing edges sit on the cube's far face along x.
pub open spec fn farx(e: EdgeCrosses) -> int {
    bi(e.y_e10) + bi(e.y_e11) + bi(e.z_e10) + bi(e.z_e11)
}

/// How many crossing edges sit on the cube's far face along y.
pub open spec fn fary(e: EdgeCrosses) -> int {
    bi(e.x_e10) + bi(e.x_e11) + bi(e.z_e01) + bi(e.z_e11)
}

/// How many crossing edges sit on the cube's far face along z.
pub open spec fn farz(e: EdgeCrosses) -> int {
    bi(e.x_e01) + bi(e.x_e11) + bi(e.y_e01) + bi(e.y_e11)
}

pub open spec fn sumx_of(e: EdgeCrosses) -> int {
    128 * countx(e) + 256 * farx(e)
}

pub open spec fn sumy_of(e: EdgeCrosses) -> int {
    128 * county(e) + 256 * fary(e)
}

pub open spec fn sumz_of(e: EdgeCrosses) -> int {
    128 * countz(e) + 256 * farz(e)
}

/// How many of the twelve edges cross the surface.
pub open spec fn crossing_count(f: Field, b: VoxelBounds) -> int {
    count_of(edges_spec(f, b))
}

/// Sum over all crossing edges of the x coordinate of the edge midpoint, in
/// the cube's local 1/256 units (an edge midpoint coordinate is 0, 128 or
/// 256).
pub open spec fn sum_x(f: Field, b: VoxelBounds) -> int {
    sumx_of(edges_spec(f, b))
}

/// As `sum_x`, for the y coordinate.
pub open spec fn sum_y(f: Field, b: VoxelBounds) -> int {
    sumy_of(edges_spec(f, b))
}

/// As `sum_x`, for the z coordinate.
pub open spec fn sum_z(f: Field, b: VoxelBounds) -> int {
    sumz_of(edges_spec(f, b))
}

/// Round `s / n` to the nearest integer, ties up.
pub open spec fn quantize(s: int, n: int) -> int {
    (2 * s + n) / (2 * n)
}

/// What the sampler returns: nothing when no edge crosses, otherwise the
/// quantized mean vertex together with the crossing and facing flags.
pub open spec fn sample_spec(f: Field, b: VoxelBounds) -> Option<Voxel> {
    let n = crossing_count(f, b);
    if n == 0 {
        None
    } else {
        Some(
            Voxel {
                vertex: FracVertex {
                    x: Frac8 { numerator: quantize(sum_x(f, b), n) as u8 },
                    y: Frac8 { numerator: quantize(sum_y(f, b), n) as u8 },
                    z: Frac8 { numerator: quantize(sum_z(f, b), n) as u8 },
                },
                edge_crosses: edges_spec(f, b),
                facing: facing_spec(f, b),
            },
        )
    }
}

/// On every axis the midpoint sum stays at least 128 below `256 * n`: not all
/// crossing edges can sit on the far face of the cube.
#[verifier::rlimit(100)]
#[verifier::spinoff_prover]
proof fn lemma_sum_bounds(f: Field, b: VoxelBounds)
    requires
        crossing_count(f, b) >= 1,
    ensures
        0 <= sum_x(f, b) <= 256 * crossing_count(f, b) - 128,
        0 <= sum_y(f, b) <= 256 * crossing_count(f, b) - 128,
        0 <= sum_z(f, b) <= 256 * crossing_count(f, b) - 128,
{
    let e = edges_spec(f, b);
    if !e.x_e00 && !e.x_e01 && !e.x_e10 && !e.x_e11 {
        assert(e.y_e10 == e.y_e00 && e.y_e11 == e.y_e01);
        assert(e.z_e10 == e.z_e00 && e.z_e11 == e.z_e01);
    }
    if !e.y_e00 && !e.y_e01 && !e.y_e10 && !e.y_e11 {
        assert(e.x_e10 == e.x_e00 && e.x_e11 == e.x_e01);
        assert(e.z_e01 == e.z_e00 && e.z_e11 == e.z_e10);
    }
    if !e.z_e00 && !e.z_e01 && !e.z_e10 && !e.z_e11 {
        assert(e.x_e01 == e.x_e00 && e.x_e11 == e.x_e10);
        assert(e.y_e01 == e.y_e00 && e.y_e11 == e.y_e10);
    }
}

/// Range and accuracy of the rounded mean.
proof fn lemma_quantize_bounds(s: int, n: int)
    requires
        1 <= n <= 12,
        0 <= s,
        s <= 256 * n - 128,
    ensures
        0 <= quantize(s, n) <= 255,
        2 * (quantize(s, n) * n - s) <= n,
        2 * (s - quantize(s, n) * n) <= n - 1,
{
    let q = quantize(s, n);
    lemma_fundamental_div_mod(2 * s + n, 2 * n);
    let r = (2 * s + n) % (2 * n);
    assert(2 * s + n == 2 * n * q + r);
    assert(q >= 0) by (nonlinear_arith)
        requires
            2 * s + n == 2 * n * q + r,
            0 <= r < 2 * n,
            s >= 0,
            n >= 1,
    ;
    assert(q <= 255) by (nonlinear_arith)
        requires
            2 * s + n == 2 * n * q + r,
            0 <= r < 2 * n,
            s <= 256 * n - 128,
            1 <= n <= 12,
    ;
    assert(2 * (q * n - s) <= n && 2 * (s - q * n) <= n - 1) by (nonlinear_arith)
        requires
            2 * s + n == 2 * n * q + r,
            0 <= r < 2 * n,
    ;
}

/// The sampler returns no voxel exactly when all eight corners agree: a cube
/// uniformly inside or outside the field has no surface.
pub proof fn lemma_sample_none_iff_uniform(f: Field, b: VoxelBounds)
    ensures
        (sample_spec(f, b) is None) <==> (forall|i: int, j: int, k: int|
            0 <= i <= 1 && 0 <= j <= 1 && 0 <= k <= 1 ==> #[trigger] corner(f, b, i, j, k)
                == corner(f, b, 0, 0, 0)),
{
    if sample_spec(f, b) is None {
        assert forall|i: int, j: int, k: int|
            0 <= i <= 1 && 0 <= j <= 1 && 0 <= k <= 1 implies #[trigger] corner(f, b, i, j, k)
            == corner(f, b, 0, 0, 0) by {
            assert(corner(f, b, 0, 0, 0) == corner(f, b, 1, 0, 0));
            assert(corner(f, b, 0, 0, 0) == corner(f, b, 0, 1, 0));
            assert(corner(f, b, 0, 0, 0) == corner(f, b, 0, 0, 1));
            assert(corner(f, b, 1, 0, 0) == corner(f, b, 1, 1, 0));
            assert(corner(f, b, 1, 0, 0) == corner(f, b, 1, 0, 1));
            assert(corner(f, b, 0, 1, 0) == corner(f, b, 0, 1, 1));
            assert(corner(f, b, 1, 1, 0) == corner(f, b, 1, 1, 1));
            assert(i == 0 || i == 1);
            assert(j == 0 || j == 1);
            assert(k == 0 || k == 1);
        }
    } else {
        assert(crossing_count(f, b) >= 1);
        if forall|i: int, j: int, k: int|
            0 <= i <= 1 && 0 <= j <= 1 && 0 <= k <= 1 ==> #[trigger] corner(f, b, i, j, k)
                == corner(f, b, 0, 0, 0) {
            assert(corner(f, b, 1, 0, 0) == corner(f, b, 0, 0, 0));
            assert(corner(f, b, 0, 1, 0) == corner(f, b, 0, 0, 0));
            assert(corner(f, b, 0, 0, 1) == corner(f, b, 0, 0, 0));
            assert(corner(f, b, 1, 1, 0) == corner(f, b, 0, 0, 0));
            assert(corner(f, b, 1, 0, 1) == corner(f, b, 0, 0, 0));
            assert(corner(f, b, 0, 1, 1) == corner(f, b, 0, 0, 0));
            assert(corner(f, b, 1, 1, 1) == corner(f, b, 0, 0, 0));
            assert(crossing_count(f, b) == 0);
        }
    }
}

/// Count the crossing edges and accumulate the midpoint sums per axis.
#[verifier::spinoff_prover]
fn sum4(a: bool, b: bool, c: bool, d: bool) -> (r: u32)
    ensures
        r == bi(a) + bi(b) + bi(c) + bi(d),
{
    (if a {
        1u32
    } else {
        0u32
    }) + (if b {
        1u32
    } else {
        0u32
    }) + (if c {
        1u32
    } else {
        0u32
    }) + (if d {
        1u32
    } else {
        0u32
    })
}

#[verifier::spinoff_prover]
fn tally_n(e: &EdgeCrosses) -> (n: u32)
    ensures
        n == count_of(*e),
{
    let nx: u32 = sum4(e.x_e00, e.x_e01, e.x_e10, e.x_e11);
    let ny: u32 = sum4(e.y_e00, e.y_e01, e.y_e10, e.y_e11);
    let nz: u32 = sum4(e.z_e00, e.z_e01, e.z_e10, e.z_e11);
    nx + ny + nz
}

#[verifier::spinoff_prover]
fn tally_sx(e: &EdgeCrosses) -> (s: u32)
    ensures
        s == sumx_of(*e),
{
    let nx: u32 = sum4(e.x_e00, e.x_e01, e.x_e10, e.x_e11);
    let fx: u32 = sum4(e.y_e10, e.y_e11, e.z_e10, e.z_e11);
    128 * nx + 256 * fx
}

#[verifier::spinoff_prover]
fn tally_sy(e: &EdgeCrosses) -> (s: u32)
    ensures
        s == sumy_of(*e),
{
    let ny: u32 = sum4(e.y_e00, e.y_e01, e.y_e10, e.y_e11);
    let fy: u32 = sum4(e.x_e10, e.x_e11, e.z_e01, e.z_e11);
    128 * ny + 256 * fy
}

#[verifier::spinoff_prover]
fn tally_sz(e: &EdgeCrosses) -> (s: u32)
    ensures
        s == sumz_of(*e),
{
    let nz: u32 = sum4(e.z_e00, e.z_e01, e.z_e10, e.z_e11);
    let fz: u32 = sum4(e.x_e01, e.x_e11, e.y_e01, e.y_e11);
    128 * nz + 256 * fz
}

/// The eight corner values of a cube, indexed `c{i}{j}{k}`.
struct Corners {
    c000: bool,
    c001: bool,
    c010: bool,
    c011: bool,
    c100: bool,
    c101: bool,
    c110: bool,
    c111: bool,
}

fn eval_corners(field: &Field, bounds: VoxelBounds) -> (c: Corners)
    requires
        field.wf(),
        bounds.wf(),
        bounds.in_range(),
    ensures
        c.c000 == corner(*field, bounds, 0, 0, 0),
        c.c001 == corner(*field, bounds, 0, 0, 1),
        c.c010 == corner(*field, bounds, 0, 1, 0),
        c.c011 == corner(*field, bounds, 0, 1, 1),
        c.c100 == corner(*field, bounds, 1, 0, 0),
        c.c101 == corner(*field, bounds, 1, 0, 1),
        c.c110 == corner(*field, bounds, 1, 1, 0),
        c.c111 == corner(*field, bounds, 1, 1, 1),
{
    let d: i64 = exp2(bounds.lg_size);
    let x1: i32 = bounds.x;
    let y1: i32 = bounds.y;
    let z1: i32 = bounds.z;
    let x2: i32 = (bounds.x as i64 + d) as i32;
    let y2: i32 = (bounds.y as i64 + d) as i32;
    let z2: i32 = (bounds.z as i64 + d) as i32;
    proof {
        assert(x2 == bounds.x + 1 * bounds.side());
        assert(y2 == bounds.y + 1 * bounds.side());
        assert(z2 == bounds.z + 1 * bounds.side());
        assert(x1 == bounds.x + 0 * bounds.side());
    }
    Corners {
        c000: field.contains(x1, y1, z1),
        c001: field.contains(x1, y1, z2),
        c010: field.contains(x1, y2, z1),
        c011: field.contains(x1, y2, z2),
        c100: field.contains(x2, y1, z1),
        c101: field.contains(x2, y1, z2),
        c110: field.contains(x2, y2, z1),
        c111: field.contains(x2, y2, z2),
    }
}

/// Sample a field over the cube of `bounds`.
///
/// Returns `None` exactly when the cube has no surface; callers must treat
/// that as "no geometry here", not as an error.
#[verifier::rlimit(100)]
#[verifier::spinoff_prover]
pub fn generate_voxel(field: &Field, bounds: VoxelBounds) -> (r: Option<Voxel>)
    requires
        field.wf(),
        bounds.wf(),
        bounds.in_range(),
    ensures
        r == sample_spec(*field, bounds),
{
    let c = eval_corners(field, bounds);
    let Corners { c000, c001, c010, c011, c100, c101, c110, c111 } = c;
    let e = EdgeCrosses {
        x_e00: c000 != c100,
        x_e01: c001 != c101,
        x_e10: c010 != c110,
        x_e11: c011 != c111,
        y_e00: c000 != c010,
        y_e01: c001 != c011,
        y_e10: c100 != c110,
        y_e11: c101 != c111,
        z_e00: c000 != c001,
        z_e01: c010 != c011,
        z_e10: c100 != c101,
        z_e11: c110 != c111,
    };
    let facing = Facing {
        x: (e.x_e00 && c000) || (e.x_e01 && c001) || (e.x_e10 && c010) || (e.x_e11 && c011),
        y: (e.y_e00 && c000) || (e.y_e01 && c001) || (e.y_e10 && c100) || (e.y_e11 && c101),
        z: (e.z_e00 && c000) || (e.z_e01 && c010) || (e.z_e10 && c100) || (e.z_e11 && c110),
    };
    proof {
        assert(e == edges_spec(*field, bounds));
        assert(facing == facing_spec(*field, bounds));
    }
    let n = tally_n(&e);
    let sx = tally_sx(&e);
    let sy = tally_sy(&e);
    let sz = tally_sz(&e);
    proof {
        assert(n == crossing_count(*field, bounds));
        assert(sx == sum_x(*field, bounds));
        assert(sy == sum_y(*field, bounds));
        assert(sz == sum_z(*field, bounds));
    }
    if n == 0 {
        return None;
    }
    proof {
        lemma_sum_bounds(*field, bounds);
        lemma_quantize_bounds(sx as int, n as int);
        lemma_quantize_bounds(sy as int, n as int);
        lemma_quantize_bounds(sz as int, n as int);
    }
    let qx: u32 = (2 * sx + n) / (2 * n);
    let qy: u32 = (2 * sy + n) / (2 * n);
    let qz: u32 = (2 * sz + n) / (2 * n);
    proof {
        assert(qx == quantize(sum_x(*field, bounds), n as int));
        assert(qy == quantize(sum_y(*field, bounds), n as int));
        assert(qz == quantize(sum_z(*field, bounds), n as int));
    }
    let v = Voxel {
        vertex: FracVertex {
            x: Frac8 { numerator: qx as u8 },
            y: Frac8 { numerator: qy as u8 },
            z: Frac8 { numerator: qz as u8 },
        },
        edge_crosses: e,
        facing,
    };
    Some(v)
}

/// The quantized surface vertex lies inside the unit cube, and each axis is
/// within half a step (so within 1/256) of the exact mean of the crossing-edge
/// midpoints: with `n` crossings and midpoint sum `s`, the numerator `q`
/// satisfies `|q - s/n| <= 1/2`.
pub proof fn lemma_vertex_quantization(f: Field, b: VoxelBounds)
    requires
        sample_spec(f, b) is Some,
    ensures
        ({
            let v = sample_spec(f, b)->Some_0.vertex;
            let n = crossing_count(f, b);
            &&& v.x.numerator <= 255
            &&& v.y.numerator <= 255
            &&& v.z.numerator <= 255
            &&& 2 * (v.x.numerator * n - sum_x(f, b)) <= n
            &&& 2 * (sum_x(f, b) - v.x.numerator * n) <= n - 1
            &&& 2 * (v.y.numerator * n - sum_y(f, b)) <= n
            &&& 2 * (sum_y(f, b) - v.y.numerator * n) <= n - 1
            &&& 2 * (v.z.numerator * n - sum_z(f, b)) <= n
            &&& 2 * (sum_z(f, b) - v.z.numerator * n) <= n - 1
        }),
{
    let n = crossing_count(f, b);
    assert(n >= 1);
    assert(n <= 12);
    lemma_sum_bounds(f, b);
    lemma_quantize_bounds(sum_x(f, b), n);
    lemma_quantize_bounds(sum_y(f, b), n);
    lemma_quantize_bounds(sum_z(f, b), n);
}

} // verus!
