use voxel_terrain::block::BlockPosition;
use voxel_terrain::field::{compose, Field, Material};
use voxel_terrain::series::{next_step, Return, Step};
use voxel_terrain::block::{IdAllocator, LODIndex};
use voxel_terrain::mesher::generate_block;
use voxel_terrain::tree::VoxelTree;
use voxel_terrain::voxel::VoxelBounds;

#[test]
fn halfspace_is_solid_strictly_below_its_height() {
    let f = Field::Halfspace { height: 5 * 256 };
    assert!(f.contains(0, 4, 0));
    assert!(!f.contains(0, 5, 0));
    assert!(f.contains(100, -100, 100));
}

#[test]
fn sphere_contains_its_centre_and_boundary() {
    let f = Field::Sphere { cx: 0, cy: 0, cz: 0, r: 256 };
    assert!(f.contains(0, 0, 0));
    assert!(f.contains(1, 0, 0));
    assert!(!f.contains(1, 1, 0));
    assert!(!f.contains(2, 0, 0));
}

#[test]
fn cylinder_is_capped_on_both_ends() {
    let f = Field::Cylinder { cx: 0, cz: 0, y0: 0, y1: 2 * 256, r: 256 };
    assert!(f.contains(0, 0, 0));
    assert!(f.contains(1, 2, 0));
    assert!(!f.contains(0, 3, 0));
    assert!(!f.contains(0, -1, 0));
    assert!(!f.contains(2, 1, 0));
}

#[test]
fn composing_an_empty_brush_removes_material() {
    let base = Field::Halfspace { height: 5 * 256 };
    let ball = Field::Sphere { cx: 0, cy: 0, cz: 0, r: 256 };
    let carved = compose(base, ball, Material::Empty);
    assert!(!carved.contains(0, 0, 0));
    assert!(carved.contains(5, 0, 5));
}

#[test]
fn composing_a_solid_brush_adds_material() {
    let base = Field::Halfspace { height: 0 };
    let ball = Field::Sphere { cx: 0, cy: 10 * 256, cz: 0, r: 256 };
    let grown = compose(base, ball, Material::Wood);
    assert!(grown.contains(0, 10, 0));
    assert!(!grown.contains(0, 5, 0));
}

#[test]
fn block_positions_floor_toward_negative_infinity() {
    let p = BlockPosition::from_world_position(-1, -8, -9);
    assert_eq!(p.as_pnt().x, -1);
    assert_eq!(p.as_pnt().y, -1);
    assert_eq!(p.as_pnt().z, -2);
    let q = BlockPosition::from_world_position(0, 7, 8);
    assert_eq!(q.as_pnt().x, 0);
    assert_eq!(q.as_pnt().y, 0);
    assert_eq!(q.as_pnt().z, 1);
    let w = BlockPosition::new(-1, 2, 0).to_world_position();
    assert_eq!((w.x, w.y, w.z), (-8, 16, 0));
}

#[test]
fn octree_caches_what_it_generates() {
    let f = Field::Halfspace { height: 5 * 256 };
    let mut tree = VoxelTree::new();
    let b = VoxelBounds::new(0, 4, 0, 0);
    assert!(tree.lookup(b).is_none());
    let v = tree.get_or_generate(b, &f);
    assert!(v.is_some());
    assert_eq!(tree.lookup(b), v);
    // A second fetch observes the cached sample.
    let v2 = tree.get_or_generate(b, &f);
    assert_eq!(v, v2);
}

#[test]
fn regenerating_overwrites_a_cached_sample() {
    let f = Field::Halfspace { height: 5 * 256 };
    let mut tree = VoxelTree::new();
    let b = VoxelBounds::new(0, 4, 0, 0);
    let v = tree.get_or_generate(b, &f);
    assert!(v.is_some());
    // Remove the ground: the slot now samples to nothing.
    let empty = Field::Halfspace { height: -1000 * 256 };
    let r = tree.regenerate(b, &empty);
    assert!(r.is_none());
    assert!(tree.lookup(b).is_none());
}

#[test]
fn series_steps_wrap_and_quit() {
    assert_eq!(next_step(0, 3, Return::Quit), Step::Done);
    assert_eq!(next_step(0, 3, Return::Continue), Step::Run(1));
    assert_eq!(next_step(2, 3, Return::Continue), Step::Run(0));
    assert_eq!(next_step(2, 3, Return::Restart), Step::Run(0));
}

#[test]
fn ray_cast_finds_the_first_cached_surface_voxel() {
    // Mesh the flat-ground block so its surface voxels are cached, then aim
    // straight down from above: the first slot holding a cached voxel is the
    // crossing layer's cell.
    let f = Field::Halfspace { height: 5 * 256 };
    let mut tree = VoxelTree::new();
    let mut ids = IdAllocator::new();
    let p = BlockPosition::new(0, 0, 0);
    let _ = generate_block(&mut ids, &f, &mut tree, &p, LODIndex(0));
    let origin = voxel_terrain::geom::Point3i { x: 4, y: 20, z: 4 };
    let step = voxel_terrain::geom::Point3i { x: 0, y: -1, z: 0 };
    let hit = tree.cast_ray(origin, step, 64).unwrap();
    assert_eq!((hit.x, hit.y, hit.z, hit.lg_size), (4, 4, 4, 0));
    // A ray that never meets cached geometry reports nothing.
    let side = voxel_terrain::geom::Point3i { x: 1, y: 0, z: 0 };
    let miss_origin = voxel_terrain::geom::Point3i { x: 100, y: 50, z: 100 };
    assert!(tree.cast_ray(miss_origin, side, 16).is_none());
}
