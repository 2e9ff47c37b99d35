//! A verified voxel-terrain engine: a sparse voxel octree, a dual-contouring
//! surface sampler, a block mesher, field-based brush edits, load/LOD
//! bookkeeping, and the single-writer dispatcher that coordinates them.
pub mod block;
pub mod brush;
pub mod dispatch;
pub mod field;
pub mod geom;
pub mod loader;
pub mod mesher;
pub mod queue;
pub mod sampler;
pub mod series;
pub mod tree;
pub mod voxel;

pub use geom::Point3i;
