use voxel_terrain::block::{BlockPosition, LODIndex};
use voxel_terrain::field::Field;
use voxel_terrain::loader::{ClientId, Owner, OwnerId, TerrainLoader, UnloadOutcome};

fn flat_ground() -> Field {
    Field::Halfspace { height: 5 * 256 }
}

#[test]
fn load_then_unload_returns_to_empty() {
    // A single local owner loads one block; unloading it returns the
    // ownership record and the physics registration to empty.
    let mut loader = TerrainLoader::new(flat_ground());
    assert_eq!(loader.loaded_count(), 0);
    assert_eq!(loader.physics_count(), 0);
    let p = BlockPosition::new(0, 0, 0);
    let block = loader.load(&p, LODIndex(0), Owner::Local(OwnerId(1)));
    assert_eq!(loader.loaded_count(), 1);
    // A local load registers one collision box per triangle.
    assert_eq!(loader.physics_count(), block.bounds.len());
    assert!(loader.physics_count() > 0);
    let outcome = loader.unload(&p, LODIndex(0), Owner::Local(OwnerId(1)));
    assert_eq!(outcome, UnloadOutcome::Unloaded);
    assert_eq!(loader.loaded_count(), 0);
    assert_eq!(loader.physics_count(), 0);
}

#[test]
fn client_loads_register_no_physics() {
    let mut loader = TerrainLoader::new(flat_ground());
    let p = BlockPosition::new(0, 0, 0);
    let _ = loader.load(&p, LODIndex(0), Owner::Client(ClientId(7)));
    assert_eq!(loader.loaded_count(), 1);
    assert_eq!(loader.physics_count(), 0);
}

#[test]
fn second_load_reuses_the_cached_mesh() {
    // Two loads of the same pair must not run the mesher twice: the second
    // caller observes the result of the first, and no new ids are drawn.
    let mut loader = TerrainLoader::new(flat_ground());
    let p = BlockPosition::new(0, 0, 0);
    let b1 = loader.load(&p, LODIndex(0), Owner::Local(OwnerId(1)));
    let ids_after_first = loader.next_entity_id();
    let b2 = loader.load(&p, LODIndex(0), Owner::Client(ClientId(3)));
    assert_eq!(loader.next_entity_id(), ids_after_first);
    assert_eq!(loader.loaded_count(), 1);
    assert_eq!(b1.vertex_coordinates, b2.vertex_coordinates);
    assert_eq!(b1.normals, b2.normals);
    assert_eq!(b1.ids, b2.ids);
    assert_eq!(b1.bounds, b2.bounds);
    assert_eq!(b1.materials, b2.materials);
}

#[test]
fn unload_reports_missing_pairs_and_owners() {
    let mut loader = TerrainLoader::new(flat_ground());
    let p = BlockPosition::new(0, 0, 0);
    assert_eq!(
        loader.unload(&p, LODIndex(0), Owner::Local(OwnerId(1))),
        UnloadOutcome::NotLoaded
    );
    let _ = loader.load(&p, LODIndex(0), Owner::Local(OwnerId(1)));
    assert_eq!(
        loader.unload(&p, LODIndex(0), Owner::Local(OwnerId(2))),
        UnloadOutcome::NotAnOwner
    );
    let _ = loader.load(&p, LODIndex(0), Owner::Client(ClientId(9)));
    assert_eq!(
        loader.unload(&p, LODIndex(0), Owner::Local(OwnerId(1))),
        UnloadOutcome::Released
    );
    assert_eq!(loader.loaded_count(), 1);
    assert_eq!(
        loader.unload(&p, LODIndex(0), Owner::Client(ClientId(9))),
        UnloadOutcome::Unloaded
    );
    assert_eq!(loader.loaded_count(), 0);
}

#[test]
fn different_lods_are_distinct_pairs() {
    let mut loader = TerrainLoader::new(flat_ground());
    let p = BlockPosition::new(0, 0, 0);
    let b0 = loader.load(&p, LODIndex(0), Owner::Local(OwnerId(1)));
    let b1 = loader.load(&p, LODIndex(1), Owner::Local(OwnerId(1)));
    assert_eq!(loader.loaded_count(), 2);
    // Coarser detail means fewer triangles for the flat field.
    assert!(b1.vertex_coordinates.len() < b0.vertex_coordinates.len());
}
