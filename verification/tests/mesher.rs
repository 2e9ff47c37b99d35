use voxel_terrain::block::{BlockPosition, IdAllocator, LODIndex};
use voxel_terrain::field::Field;
use voxel_terrain::mesher::generate_block;
use voxel_terrain::tree::VoxelTree;

fn flat_ground() -> Field {
    Field::Halfspace { height: 5 * 256 }
}

#[test]
fn flat_field_gives_one_quad_layer() {
    // Solid iff y < 5, one block at the origin, full detail: the mesher
    // emits one flat horizontal layer of quads — four triangles per lattice
    // cell of the 8 x 8 crossing layer — facing up because the solid lies
    // below.
    let mut ids = IdAllocator::new();
    let mut tree = VoxelTree::new();
    let field = flat_ground();
    let position = BlockPosition::new(0, 0, 0);
    let block = generate_block(&mut ids, &field, &mut tree, &position, LODIndex(0));
    assert_eq!(block.vertex_coordinates.len(), 8 * 8 * 4);
    assert_eq!(block.normals.len(), 256);
    assert_eq!(block.ids.len(), 256);
    assert_eq!(block.bounds.len(), 256);
    assert_eq!(block.materials.len(), 256);
    // Every vertex sits at the surface height 4.5, i.e. 4608 in 1/1024
    // units.
    for t in block.vertex_coordinates.iter() {
        assert_eq!(t.a.y, 4608);
        assert_eq!(t.b.y, 4608);
        assert_eq!(t.c.y, 4608);
    }
    // Ids count up from the allocator's start.
    for (i, id) in block.ids.iter().enumerate() {
        assert_eq!(id.0, i as u64);
    }
    // Each triangle's box carries its id and pads one unit downward.
    for (i, (id, bb)) in block.bounds.iter().enumerate() {
        assert_eq!(id.0, block.ids[i].0);
        assert_eq!(bb.min.y, 4608 - 1024);
        assert_eq!(bb.max.y, 4608);
    }
}

#[test]
fn generation_is_deterministic_across_reruns() {
    // A second run over the now-cached octree with a reset id source
    // produces byte-identical sequences.
    let field = flat_ground();
    let position = BlockPosition::new(0, 0, 0);
    let mut tree = VoxelTree::new();
    let mut ids1 = IdAllocator::new();
    let b1 = generate_block(&mut ids1, &field, &mut tree, &position, LODIndex(0));
    let mut ids2 = IdAllocator::new();
    let b2 = generate_block(&mut ids2, &field, &mut tree, &position, LODIndex(0));
    assert_eq!(b1.vertex_coordinates, b2.vertex_coordinates);
    assert_eq!(b1.normals, b2.normals);
    assert_eq!(b1.ids, b2.ids);
    assert_eq!(b1.bounds, b2.bounds);
    assert_eq!(b1.materials, b2.materials);
}

#[test]
fn triangle_count_stays_under_the_bound() {
    // At most 4 triangles per crossing edge, 3 axes, n^3 voxels.
    let field = Field::Sphere { cx: 4 * 256, cy: 4 * 256, cz: 4 * 256, r: 3 * 256 };
    let position = BlockPosition::new(0, 0, 0);
    for lod in 0..4u8 {
        let n = [8usize, 4, 2, 1][lod as usize];
        let mut tree = VoxelTree::new();
        let mut ids = IdAllocator::new();
        let b = generate_block(&mut ids, &field, &mut tree, &position, LODIndex(lod));
        assert!(b.vertex_coordinates.len() <= 4 * 3 * n * n * n);
    }
}

#[test]
fn coarser_lods_still_mesh_the_flat_field() {
    let field = flat_ground();
    let position = BlockPosition::new(0, 0, 0);
    // At LOD 1 the voxel side is 2, and the layer y in [4, 6) crosses the
    // surface at y = 5: one 4 x 4 layer of quads.
    let mut tree = VoxelTree::new();
    let mut ids = IdAllocator::new();
    let b = generate_block(&mut ids, &field, &mut tree, &position, LODIndex(1));
    assert_eq!(b.vertex_coordinates.len(), 4 * 4 * 4);
}
