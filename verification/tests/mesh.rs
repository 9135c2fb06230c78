//! The repair of normals with a kernel in whole numbers.
use octree_dual_contour::mesh::{
    give_own_vertices, repair_sharp_normals, MeshNumerics, NULL_MESH_VERTEX_ID,
};

/// Vectors hold numbers by their patterns. The normal of a triangle is taken
/// to be the position of its first corner with 100 added to the first
/// coordinate; the inner product is the product of the first coordinates.
struct FirstCoordinate;

fn number(x: f32) -> u32 {
    x.to_bits()
}

fn vector(x: f32) -> [u32; 3] {
    [number(x), 0, 0]
}

impl MeshNumerics for FirstCoordinate {
    // The functions that the contracts name: what the operations compute.
    fn normal_of(&self, corners: [[u32; 3]; 3]) -> [u32; 3] {
        self.triangle_normal(&corners)
    }

    fn product_of(&self, a: [u32; 3], b: [u32; 3]) -> u32 {
        self.dot(&a, &b)
    }

    fn triangle_normal(&self, corners: &[[u32; 3]; 3]) -> [u32; 3] {
        vector(f32::from_bits(corners[0][0]) + 100.0)
    }

    fn dot(&self, a: &[u32; 3], b: &[u32; 3]) -> u32 {
        number(f32::from_bits(a[0]) * f32::from_bits(b[0]))
    }
}

#[test]
fn null_mesh_vertex_is_the_greatest_identifier() {
    assert_eq!(NULL_MESH_VERTEX_ID, u32::MAX);
}

#[test]
fn agreeing_normals_leave_the_mesh_alone() {
    let mut indices = vec![0, 1, 2, 2, 1, 3];
    let mut positions = vec![vector(1.0), vector(2.0), vector(3.0), vector(4.0)];
    let mut normals = vec![vector(1.0); 4];
    // The inner products are 101 and 103.
    let threshold = number(50.0);
    repair_sharp_normals(&FirstCoordinate, threshold, &mut indices, &mut positions, &mut normals);
    assert_eq!(indices, vec![0, 1, 2, 2, 1, 3]);
    assert_eq!(positions.len(), 4);
    assert_eq!(normals, vec![vector(1.0); 4]);
}

#[test]
fn dissident_corner_gets_a_vertex_of_its_own() {
    let mut indices = vec![0, 1, 2, 2, 1, 3];
    let mut positions = vec![vector(1.0), vector(2.0), vector(3.0), vector(4.0)];
    // Vertex 1 has a normal that points the other way.
    let mut normals = vec![vector(1.0), vector(-1.0), vector(1.0), vector(1.0)];
    repair_sharp_normals(&FirstCoordinate, number(0.0), &mut indices, &mut positions, &mut normals);
    // Each of the two triangles uses vertex 1 and gets its own copy of it.
    assert_eq!(indices, vec![0, 4, 2, 2, 5, 3]);
    assert_eq!(
        positions,
        vec![vector(1.0), vector(2.0), vector(3.0), vector(4.0), vector(2.0), vector(2.0)]
    );
    assert_eq!(
        normals,
        vec![vector(1.0), vector(-1.0), vector(1.0), vector(1.0), vector(101.0), vector(103.0)]
    );
}

#[test]
fn threshold_is_strict() {
    let mut indices = vec![0, 1, 2];
    let mut positions = vec![vector(1.0), vector(2.0), vector(3.0)];
    let mut normals = vec![vector(1.0), vector(2.0), vector(0.5)];
    // The inner products are 101, 202 and 50.5.
    let threshold = number(101.0);
    repair_sharp_normals(&FirstCoordinate, threshold, &mut indices, &mut positions, &mut normals);
    assert_eq!(indices, vec![0, 1, 3]);
    assert_eq!(positions[3], vector(3.0));
    assert_eq!(normals[3], vector(101.0));
    assert_eq!(positions.len(), 4);
}

#[test]
fn all_corners_of_a_triangle_can_be_dissident() {
    let mut indices = vec![2, 0, 1];
    let mut positions = vec![vector(1.0), vector(2.0), vector(3.0)];
    let mut normals = vec![vector(-1.0); 3];
    repair_sharp_normals(&FirstCoordinate, number(0.0), &mut indices, &mut positions, &mut normals);
    assert_eq!(indices, vec![3, 4, 5]);
    assert_eq!(&positions[3..], &[vector(3.0), vector(1.0), vector(2.0)]);
    assert_eq!(&normals[3..], &[vector(103.0); 3]);
    assert_eq!(&normals[..3], &[vector(-1.0); 3]);
}

#[test]
fn indices_behind_the_last_whole_triangle_are_left_alone() {
    let mut indices = vec![0, 1, 2, 1, 0];
    let mut positions = vec![vector(1.0), vector(2.0), vector(3.0)];
    let mut normals = vec![vector(-1.0); 3];
    repair_sharp_normals(&FirstCoordinate, number(0.0), &mut indices, &mut positions, &mut normals);
    assert_eq!(indices, vec![3, 4, 5, 1, 0]);
    assert_eq!(positions.len(), 6);
}

#[test]
fn nan_agreement_is_not_below_any_threshold() {
    let mut indices = vec![0, 1, 2];
    let mut positions = vec![vector(1.0), vector(2.0), vector(3.0)];
    let mut normals = vec![vector(f32::NAN); 3];
    let threshold = number(1000.0);
    repair_sharp_normals(&FirstCoordinate, threshold, &mut indices, &mut positions, &mut normals);
    assert_eq!(indices, vec![0, 1, 2]);
    assert_eq!(positions.len(), 3);
}

#[test]
fn empty_mesh_stays_empty() {
    let mut indices: Vec<u32> = vec![];
    let mut positions: Vec<[u32; 3]> = vec![];
    let mut normals: Vec<[u32; 3]> = vec![];
    repair_sharp_normals(&FirstCoordinate, number(0.0), &mut indices, &mut positions, &mut normals);
    assert!(indices.is_empty() && positions.is_empty() && normals.is_empty());
}

#[test]
fn own_vertices_are_added_in_the_order_of_the_corners() {
    let mut indices = vec![2, 0, 1, 1, 0, 2];
    let mut positions = vec![vector(10.0), vector(20.0), vector(30.0)];
    let mut normals = vec![vector(1.0), vector(2.0), vector(3.0)];
    let own = vec![None, Some(vector(7.0)), None, Some(vector(8.0)), Some(vector(9.0)), None];
    give_own_vertices(&mut indices, &mut positions, &mut normals, &own);
    assert_eq!(indices, vec![2, 3, 1, 4, 5, 2]);
    assert_eq!(
        positions,
        vec![vector(10.0), vector(20.0), vector(30.0), vector(10.0), vector(20.0), vector(10.0)]
    );
    assert_eq!(
        normals,
        vec![vector(1.0), vector(2.0), vector(3.0), vector(7.0), vector(8.0), vector(9.0)]
    );
}

#[test]
fn no_own_vertex_leaves_the_mesh_alone() {
    let mut indices = vec![0, 1, 2];
    let mut positions = vec![vector(10.0), vector(20.0), vector(30.0)];
    let mut normals = vec![vector(1.0), vector(2.0), vector(3.0)];
    give_own_vertices(&mut indices, &mut positions, &mut normals, &vec![None; 3]);
    assert_eq!(indices, vec![0, 1, 2]);
    assert_eq!(positions.len(), 3);
    assert_eq!(normals.len(), 3);
}
