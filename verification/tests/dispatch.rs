use voxel_terrain::block::{BlockPosition, LODIndex};
use voxel_terrain::dispatch::{
    clamp_leaf_radius, clamp_trunk_height, clamp_trunk_radius, update_gaia, DispatchError,
    LoadReason, Server, ServerToGaia, SphereBrush, TreeBrush,
};
use voxel_terrain::field::Field;
use voxel_terrain::loader::{ClientId, OwnerId};

fn flat_ground() -> Field {
    Field::Halfspace { height: 5 * 256 }
}

#[test]
fn clamps_follow_the_documented_ranges() {
    // Trunk radius clamps into [1, 3] world units (Q8).
    assert_eq!(clamp_trunk_radius(100), 256);
    assert_eq!(clamp_trunk_radius(500), 500);
    assert_eq!(clamp_trunk_radius(10_000), 768);
    // Trunk height clamps into [4r, 12r].
    assert_eq!(clamp_trunk_height(0, 256), 4 * 256);
    assert_eq!(clamp_trunk_height(2000, 256), 2000);
    assert_eq!(clamp_trunk_height(100_000, 256), 12 * 256);
    // Leaf radius clamps into [2r, 6r].
    assert_eq!(clamp_leaf_radius(0, 256), 2 * 256);
    assert_eq!(clamp_leaf_radius(1000, 256), 1000);
    assert_eq!(clamp_leaf_radius(100_000, 256), 6 * 256);
}

#[test]
fn load_for_unknown_client_is_reported() {
    let mut server = Server::new(flat_ground());
    let p = BlockPosition::new(0, 0, 0);
    let r = update_gaia(
        &mut server,
        ServerToGaia::Load(p, LODIndex(0), LoadReason::ForClient(ClientId(5))),
    );
    assert_eq!(r.err(), Some(DispatchError::NoSuchClient));
}

#[test]
fn invalid_lod_and_position_are_reported() {
    let mut server = Server::new(flat_ground());
    let p = BlockPosition::new(0, 0, 0);
    let r = update_gaia(
        &mut server,
        ServerToGaia::Load(p, LODIndex(9), LoadReason::Local(OwnerId(1))),
    );
    assert_eq!(r.err(), Some(DispatchError::InvalidLod));
    let far = BlockPosition::new(0x200000, 0, 0);
    let r2 = update_gaia(
        &mut server,
        ServerToGaia::Load(far, LODIndex(0), LoadReason::Local(OwnerId(1))),
    );
    assert_eq!(r2.err(), Some(DispatchError::InvalidPosition));
}

#[test]
fn client_load_is_delivered_to_that_client_only() {
    let mut server = Server::new(flat_ground());
    server.connect(ClientId(5));
    server.connect(ClientId(6));
    let p = BlockPosition::new(0, 0, 0);
    let out = update_gaia(
        &mut server,
        ServerToGaia::Load(p, LODIndex(0), LoadReason::ForClient(ClientId(6))),
    )
    .unwrap();
    assert_eq!(out.len(), 1);
    assert_eq!(out[0].client, ClientId(6));
    assert_eq!(out[0].position, p);
    assert_eq!(out[0].lod, LODIndex(0));
    assert!(out[0].block.vertex_coordinates.len() > 0);
}

#[test]
fn local_load_is_not_broadcast() {
    let mut server = Server::new(flat_ground());
    server.connect(ClientId(5));
    let p = BlockPosition::new(0, 0, 0);
    let out = update_gaia(
        &mut server,
        ServerToGaia::Load(p, LODIndex(0), LoadReason::Local(OwnerId(1))),
    )
    .unwrap();
    assert_eq!(out.len(), 0);
}

#[test]
fn coalesced_loads_observe_identical_geometry() {
    // A local load and a client load of the same pair: the mesher runs
    // once, both observe the same triangles.
    let mut server = Server::new(flat_ground());
    server.connect(ClientId(5));
    let p = BlockPosition::new(0, 0, 0);
    let _ = update_gaia(
        &mut server,
        ServerToGaia::Load(p, LODIndex(0), LoadReason::Local(OwnerId(1))),
    )
    .unwrap();
    let ids_after_first = server.loader.next_entity_id();
    let out = update_gaia(
        &mut server,
        ServerToGaia::Load(p, LODIndex(0), LoadReason::ForClient(ClientId(5))),
    )
    .unwrap();
    assert_eq!(server.loader.next_entity_id(), ids_after_first);
    assert_eq!(out.len(), 1);
    assert_eq!(out[0].block.ids.len(), 8 * 8 * 4);
}

#[test]
fn edits_are_broadcast_to_every_client() {
    let mut server = Server::new(flat_ground());
    server.connect(ClientId(1));
    server.connect(ClientId(2));
    // Load one block near the origin so the edit has something to update.
    let p = BlockPosition::new(0, 0, 0);
    let _ = update_gaia(
        &mut server,
        ServerToGaia::Load(p, LODIndex(0), LoadReason::Local(OwnerId(1))),
    )
    .unwrap();
    let sphere = SphereBrush { center_x: 4 * 256, center_y: 5 * 256, center_z: 4 * 256, radius: 512 };
    let out = update_gaia(&mut server, ServerToGaia::RemoveSphere(sphere)).unwrap();
    // One updated block, sent to both clients.
    assert_eq!(out.len(), 2);
    assert_eq!(out[0].position, p);
    assert_eq!(out[1].position, p);
    assert!(out.iter().any(|d| d.client == ClientId(1)));
    assert!(out.iter().any(|d| d.client == ClientId(2)));
}

#[test]
fn brush_leaves_non_intersecting_blocks_byte_identical() {
    // A block far from the brush bound keeps its cached mesh, byte for
    // byte.
    let mut server = Server::new(flat_ground());
    let near = BlockPosition::new(0, 0, 0);
    let far = BlockPosition::new(100, 0, 0);
    let _ = update_gaia(
        &mut server,
        ServerToGaia::Load(near, LODIndex(0), LoadReason::Local(OwnerId(1))),
    )
    .unwrap();
    let far_before = server
        .loader
        .load(&far, LODIndex(0), voxel_terrain::loader::Owner::Local(OwnerId(1)));
    let sphere = SphereBrush { center_x: 4 * 256, center_y: 5 * 256, center_z: 4 * 256, radius: 512 };
    let out = update_gaia(&mut server, ServerToGaia::RemoveSphere(sphere)).unwrap();
    // No delivery names the far block; no client is connected, so none at
    // all.  The far mesh is observed again through a reload.
    assert_eq!(out.len(), 0);
    let far_after = server
        .loader
        .load(&far, LODIndex(0), voxel_terrain::loader::Owner::Local(OwnerId(1)));
    assert_eq!(far_before.vertex_coordinates, far_after.vertex_coordinates);
    assert_eq!(far_before.normals, far_after.normals);
    assert_eq!(far_before.ids, far_after.ids);
    assert_eq!(far_before.bounds, far_after.bounds);
    assert_eq!(far_before.materials, far_after.materials);
}

#[test]
fn removing_a_sphere_carves_the_ground() {
    // Removing a ball around the surface leaves the crossing layer with
    // fewer full quads than the flat field had.
    let mut server = Server::new(flat_ground());
    server.connect(ClientId(1));
    let p = BlockPosition::new(0, 0, 0);
    let _ = update_gaia(
        &mut server,
        ServerToGaia::Load(p, LODIndex(0), LoadReason::Local(OwnerId(1))),
    )
    .unwrap();
    let sphere = SphereBrush {
        center_x: 4 * 256,
        center_y: 5 * 256,
        center_z: 4 * 256,
        radius: 2 * 256,
    };
    let out = update_gaia(&mut server, ServerToGaia::RemoveSphere(sphere)).unwrap();
    assert_eq!(out.len(), 1);
    assert_ne!(out[0].block.vertex_coordinates.len(), 8 * 8 * 4);
}

#[test]
fn adding_a_tree_raises_solid_ground() {
    let mut server = Server::new(flat_ground());
    server.connect(ClientId(1));
    let p = BlockPosition::new(0, 0, 0);
    let before = update_gaia(
        &mut server,
        ServerToGaia::Load(p, LODIndex(0), LoadReason::ForClient(ClientId(1))),
    )
    .unwrap();
    let tree = TreeBrush {
        bottom_x: 4 * 256,
        bottom_y: 5 * 256,
        bottom_z: 4 * 256,
        trunk_height: 2 * 256,
        trunk_radius: 256,
        leaf_radius: 2 * 256,
    };
    let out = update_gaia(&mut server, ServerToGaia::AddTree(tree)).unwrap();
    assert_eq!(out.len(), 1);
    assert_ne!(
        out[0].block.vertex_coordinates,
        before[0].block.vertex_coordinates
    );
}

#[test]
fn out_of_range_brushes_are_reported() {
    let mut server = Server::new(flat_ground());
    let tree = TreeBrush {
        bottom_x: 0,
        bottom_y: 0,
        bottom_z: 0,
        trunk_height: -5,
        trunk_radius: 256,
        leaf_radius: 256,
    };
    let r = update_gaia(&mut server, ServerToGaia::AddTree(tree));
    assert_eq!(r.err(), Some(DispatchError::InvalidBrush));
    let sphere = SphereBrush { center_x: 0, center_y: 0, center_z: 0, radius: -1 };
    let r2 = update_gaia(&mut server, ServerToGaia::RemoveSphere(sphere));
    assert_eq!(r2.err(), Some(DispatchError::InvalidBrush));
}
