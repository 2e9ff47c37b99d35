use voxel_terrain::field::Field;
use voxel_terrain::sampler::generate_voxel;
use voxel_terrain::voxel::VoxelBounds;

fn flat_ground() -> Field {
    // Solid exactly below y = 5.
    Field::Halfspace { height: 5 * 256 }
}

#[test]
fn uniform_cube_has_no_surface() {
    // All eight corners inside the solid: no voxel.
    let f = Field::Halfspace { height: 1000 * 256 };
    let r = generate_voxel(&f, VoxelBounds::new(0, 0, 0, 0));
    assert!(r.is_none());
    // All eight corners outside.
    let f2 = Field::Halfspace { height: -1000 * 256 };
    let r2 = generate_voxel(&f2, VoxelBounds::new(0, 0, 0, 0));
    assert!(r2.is_none());
}

#[test]
fn mixed_corners_always_give_a_surface() {
    // The cube [0,64]^3 straddles y = 5, so corners disagree.
    let f = flat_ground();
    let r = generate_voxel(&f, VoxelBounds::new(0, 0, 0, 6));
    assert!(r.is_some());
}

#[test]
fn crossing_layer_vertex_and_flags() {
    let f = flat_ground();
    let v = generate_voxel(&f, VoxelBounds::new(0, 4, 0, 0)).unwrap();
    // All four vertical edges cross; no horizontal edge does.
    assert!(v.edge_crosses.y_e00);
    assert!(v.edge_crosses.y_e01);
    assert!(v.edge_crosses.y_e10);
    assert!(v.edge_crosses.y_e11);
    assert!(!v.edge_crosses.x_e00);
    assert!(!v.edge_crosses.x_e11);
    assert!(!v.edge_crosses.z_e00);
    assert!(!v.edge_crosses.z_e11);
    // The mean of the four edge midpoints is the cube centre.
    assert_eq!(v.vertex.x.numerator, 128);
    assert_eq!(v.vertex.y.numerator, 128);
    assert_eq!(v.vertex.z.numerator, 128);
    // Solid sits below: the surface faces positive infinity along y.
    assert!(v.facing.y);
    assert!(!v.facing.x);
    assert!(!v.facing.z);
}

#[test]
fn vertex_rounds_to_nearest() {
    // A ball around the origin of radius 1.5 units: of the cube [0,1]^3
    // only the far corner (1,1,1) is outside, so the three edges ending
    // there cross.  The midpoint mean is 640/3 per axis in 1/256 units,
    // which rounds to 213.
    let f = Field::Sphere { cx: 0, cy: 0, cz: 0, r: 384 };
    let v = generate_voxel(&f, VoxelBounds::new(0, 0, 0, 0)).unwrap();
    assert!(v.edge_crosses.x_e11);
    assert!(v.edge_crosses.y_e11);
    assert!(v.edge_crosses.z_e11);
    assert!(!v.edge_crosses.x_e00);
    assert!(!v.edge_crosses.y_e00);
    assert!(!v.edge_crosses.z_e00);
    assert_eq!(v.vertex.x.numerator, 213);
    assert_eq!(v.vertex.y.numerator, 213);
    assert_eq!(v.vertex.z.numerator, 213);
    // The solid sits toward the low end of each crossing edge.
    assert!(v.facing.x && v.facing.y && v.facing.z);
}

#[test]
fn sampler_is_deterministic() {
    let f = flat_ground();
    let a = generate_voxel(&f, VoxelBounds::new(3, 4, -2, 0));
    let b = generate_voxel(&f, VoxelBounds::new(3, 4, -2, 0));
    assert_eq!(a, b);
}
