//! Occupancy fields: predicates over lattice points that drive both terrain
//! synthesis and brush edits.
//!
//! A field decides, for every integer lattice point, whether that point lies
//! inside solid material.  Geometry parameters are held in fixed point with a
//! denominator of 256 ("Q8"), so a field can be evaluated exactly in integer
//! arithmetic: a lattice point `(x, y, z)` is compared against the shape after
//! scaling it by 256.
use vstd::prelude::*;

verus! {

/// Material carried by a brush or assigned to a triangle.
#[derive(Clone, Copy, PartialEq, Eq, Structural, Debug, Hash)]
pub enum Material {
    /// No material: a brush with this material removes solid.
    Empty,
    /// Plain ground.
    Terrain,
    Wood,
    Leaf,
}

/// A closed set of occupancy-field shapes.
///
/// All lengths are in Q8 fixed point (value = field / 256 voxel units).
#[derive(Debug)]
pub enum Field {
    /// Solid at every point with `256 * y < height`.
    Halfspace { height: i64 },
    /// Solid inside the closed ball of radius `r` around `(cx, cy, cz)`.
    Sphere { cx: i64, cy: i64, cz: i64, r: i64 },
    /// Capped vertical cylinder: solid where the horizontal distance to the
    /// axis `(cx, cz)` is at most `r` and `y0 <= 256 * y <= y1`.
    Cylinder { cx: i64, cz: i64, y0: i64, y1: i64, r: i64 },
    /// Solid where either operand is solid.
    Union(Box<Field>, Box<Field>),
    /// Solid where the first operand is solid and the second is not.
    Minus(Box<Field>, Box<Field>),
}

/// Largest magnitude allowed for a Q8 field parameter.  World coordinates stay
/// far below this; the bound only serves to keep the squared distances of
/// `Field::contains` inside `i128`.
pub const PARAM_LIMIT: i64 = 0x100_0000_0000;

proof fn lemma_square_bound(a: int, b: int)
    requires
        -b <= a <= b,
    ensures
        0 <= a * a <= b * b,
{
    assert(0 <= a * a <= b * b) by (nonlinear_arith)
        requires
            -b <= a <= b,
    ;
}

impl Field {
    /// All shape parameters are within `PARAM_LIMIT`; radii are non-negative.
    pub open spec fn wf(self) -> bool
        decreases self,
    {
        match self {
            Field::Halfspace { height } => -PARAM_LIMIT <= height <= PARAM_LIMIT,
            Field::Sphere { cx, cy, cz, r } => {
                &&& -PARAM_LIMIT <= cx <= PARAM_LIMIT
                &&& -PARAM_LIMIT <= cy <= PARAM_LIMIT
                &&& -PARAM_LIMIT <= cz <= PARAM_LIMIT
                &&& 0 <= r <= PARAM_LIMIT
            },
            Field::Cylinder { cx, cz, y0, y1, r } => {
                &&& -PARAM_LIMIT <= cx <= PARAM_LIMIT
                &&& -PARAM_LIMIT <= cz <= PARAM_LIMIT
                &&& -PARAM_LIMIT <= y0 <= PARAM_LIMIT
                &&& -PARAM_LIMIT <= y1 <= PARAM_LIMIT
                &&& 0 <= r <= PARAM_LIMIT
            },
            Field::Union(a, b) => a.wf() && b.wf(),
            Field::Minus(a, b) => a.wf() && b.wf(),
        }
    }

    /// Whether the lattice point `(x, y, z)` lies inside solid material.
    pub open spec fn contains_spec(self, x: int, y: int, z: int) -> bool
        decreases self,
    {
        match self {
            Field::Halfspace { height } => 256 * y < height,
            Field::Sphere { cx, cy, cz, r } => {
                let dx = 256 * x - cx;
                let dy = 256 * y - cy;
                let dz = 256 * z - cz;
                dx * dx + dy * dy + dz * dz <= r * r
            },
            Field::Cylinder { cx, cz, y0, y1, r } => {
                let dx = 256 * x - cx;
                let dz = 256 * z - cz;
                dx * dx + dz * dz <= r * r && y0 <= 256 * y <= y1
            },
            Field::Union(a, b) => a.contains_spec(x, y, z) || b.contains_spec(x, y, z),
            Field::Minus(a, b) => a.contains_spec(x, y, z) && !b.contains_spec(x, y, z),
        }
    }

    /// Evaluate the field at a lattice point.
    pub fn contains(&self, x: i32, y: i32, z: i32) -> (r: bool)
        requires
            self.wf(),
        ensures
            r == self.contains_spec(x as int, y as int, z as int),
        decreases *self,
    {
        match self {
            Field::Halfspace { height } => {
                let sy: i64 = 256 * (y as i64);
                sy < *height
            },
            Field::Sphere { cx, cy, cz, r } => {
                let dx: i128 = 256 * (x as i128) - (*cx as i128);
                let dy: i128 = 256 * (y as i128) - (*cy as i128);
                let dz: i128 = 256 * (z as i128) - (*cz as i128);
                proof {
                    lemma_square_bound(dx as int, 0x20000000000);
                    lemma_square_bound(dy as int, 0x20000000000);
                    lemma_square_bound(dz as int, 0x20000000000);
                    lemma_square_bound(*r as int, PARAM_LIMIT as int);
                }
                let rr: i128 = (*r as i128) * (*r as i128);
                dx * dx + dy * dy + dz * dz <= rr
            },
            Field::Cylinder { cx, cz, y0, y1, r } => {
                let dx: i128 = 256 * (x as i128) - (*cx as i128);
                let dz: i128 = 256 * (z as i128) - (*cz as i128);
                proof {
                    lemma_square_bound(dx as int, 0x20000000000);
                    lemma_square_bound(dz as int, 0x20000000000);
                    lemma_square_bound(*r as int, PARAM_LIMIT as int);
                }
                let rr: i128 = (*r as i128) * (*r as i128);
                let sy: i64 = 256 * (y as i64);
                dx * dx + dz * dz <= rr && *y0 <= sy && sy <= *y1
            },
            Field::Union(a, b) => a.contains(x, y, z) || b.contains(x, y, z),
            Field::Minus(a, b) => a.contains(x, y, z) && !b.contains(x, y, z),
        }
    }

    /// A structurally equal copy of the field.
    pub fn duplicate(&self) -> (r: Field)
        ensures
            r == *self,
        decreases *self,
    {
        match self {
            Field::Halfspace { height } => Field::Halfspace { height: *height },
            Field::Sphere { cx, cy, cz, r } => (Field::Sphere {
                cx: *cx,
                cy: *cy,
                cz: *cz,
                r: *r,
            }),
            Field::Cylinder { cx, cz, y0, y1, r } => (Field::Cylinder {
                cx: *cx,
                cz: *cz,
                y0: *y0,
                y1: *y1,
                r: *r,
            }),
            Field::Union(a, b) => Field::Union(Box::new(a.duplicate()), Box::new(b.duplicate())),
            Field::Minus(a, b) => Field::Minus(Box::new(a.duplicate()), Box::new(b.duplicate())),
        }
    }
}

/// A bounded terrain edit: an occupancy field plus the material it paints.
#[derive(Debug)]
pub struct Brush {
    pub field: Field,
    pub material: Material,
}

/// What a brush makes of the pre-existing terrain field: inside the brush the
/// brush's material wins, so an `Empty` brush carves its field out of the base
/// and any other material adds it.
pub open spec fn composed_spec(base: Field, brush_field: Field, material: Material) -> Field {
    if material is Empty {
        Field::Minus(Box::new(base), Box::new(brush_field))
    } else {
        Field::Union(Box::new(base), Box::new(brush_field))
    }
}

/// Compose the current terrain field with a brush.
pub fn compose(base: Field, brush_field: Field, material: Material) -> (r: Field)
    ensures
        r == composed_spec(base, brush_field, material),
        base.wf() && brush_field.wf() ==> r.wf(),
{
    match material {
        Material::Empty => Field::Minus(Box::new(base), Box::new(brush_field)),
        _ => Field::Union(Box::new(base), Box::new(brush_field)),
    }
}

} // verus!
