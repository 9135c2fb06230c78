//! Classification of cells by their samples, and the quadrics of a cell.
use octree_dual_contour::builder::MAX_DEPTH;
use octree_dual_contour::cell_octree::{Cell, Extent};
use octree_dual_contour::mesh::NULL_MESH_VERTEX_ID;
use octree_dual_contour::numerics::Numerics;
use octree_dual_contour::qef::Qef;
use octree_dual_contour::sdf::{
    bipolar_edges, branch_empty_check, cell_is_bipolar, estimate_interior_vertex_qef,
};
use std::cell::RefCell;

fn bits(values: [f32; 8]) -> [u32; 8] {
    values.map(f32::to_bits)
}

fn extent() -> Extent {
    Extent { minimum: [0; 3], shape: [1.0f32.to_bits(); 3] }
}

#[test]
fn bipolar_needs_a_negative_and_a_non_negative_sample() {
    assert!(cell_is_bipolar(&bits([-1.0, 1.0, 1.0, 1.0, 1.0, 1.0, 1.0, 1.0])));
    assert!(cell_is_bipolar(&bits([1.0, 1.0, 1.0, 1.0, 1.0, 1.0, 1.0, -1.0])));
    assert!(cell_is_bipolar(&bits([-1.0, -1.0, -1.0, 2.0, -1.0, -1.0, -1.0, -1.0])));
    assert!(!cell_is_bipolar(&bits([1.0; 8])));
    assert!(!cell_is_bipolar(&bits([-1.0; 8])));
}

#[test]
fn zero_counts_as_positive() {
    assert!(cell_is_bipolar(&bits([-1.0, 0.0, -1.0, -1.0, -1.0, -1.0, -1.0, -1.0])));
    assert!(cell_is_bipolar(&bits([-1.0, -0.0, -1.0, -1.0, -1.0, -1.0, -1.0, -1.0])));
    assert!(!cell_is_bipolar(&bits([0.0, 1.0, 1.0, 1.0, 1.0, 1.0, 1.0, 1.0])));
    assert!(!cell_is_bipolar(&bits([0.0; 8])));
}

#[test]
fn nan_has_no_sign() {
    let nan = f32::NAN;
    assert!(!cell_is_bipolar(&bits([nan, 1.0, 1.0, 1.0, 1.0, 1.0, 1.0, 1.0])));
    assert!(!cell_is_bipolar(&bits([nan, -1.0, -1.0, -1.0, -1.0, -1.0, -1.0, -1.0])));
    assert!(!cell_is_bipolar(&bits([nan; 8])));
    assert!(cell_is_bipolar(&bits([nan, -1.0, 1.0, nan, nan, nan, nan, nan])));
}

#[test]
fn branch_is_empty_when_every_corner_is_out_of_reach() {
    // The diagonal is 2, padded to 3.
    assert!(branch_empty_check(2.0f32.to_bits(), &bits([3.5; 8])));
    assert!(branch_empty_check(2.0f32.to_bits(), &bits([-3.5; 8])));
    let mixed = bits([3.5, -4.0, 5.0, -6.0, 7.0, -8.0, 9.0, 3.1]);
    assert!(branch_empty_check(2.0f32.to_bits(), &mixed));
    // One corner within reach keeps the branch.
    for near in [
        [3.5, 3.5, 3.5, 2.9, 3.5, 3.5, 3.5, 3.5],
        [2.9, 9.0, 9.0, 9.0, 9.0, 9.0, 9.0, 9.0],
        [9.0, 9.0, 9.0, 9.0, 9.0, 9.0, 9.0, -1.0],
    ] {
        assert!(!branch_empty_check(2.0f32.to_bits(), &bits(near)));
    }
    // A corner exactly at the padded diagonal is within reach.
    assert!(!branch_empty_check(2.0f32.to_bits(), &bits([3.0; 8])));
    let one_at_the_bound = bits([3.5, 3.5, 3.5, 3.5, -3.0, 3.5, 3.5, 3.5]);
    assert!(!branch_empty_check(2.0f32.to_bits(), &one_at_the_bound));
    // Without samples that are numbers nothing is known.
    assert!(!branch_empty_check(2.0f32.to_bits(), &bits([f32::NAN; 8])));
    assert!(!branch_empty_check(f32::NAN.to_bits(), &bits([9.0; 8])));
}

#[test]
fn bipolar_edges_are_those_with_one_negative_end() {
    // Only corner 0 is negative: the three edges at corner 0.
    let samples = bits([-1.0, 1.0, 1.0, 1.0, 1.0, 1.0, 1.0, 1.0]);
    assert_eq!(bipolar_edges(&samples), vec![[0, 1], [0, 2], [0, 4]]);
    // Only corner 7 is negative: the three edges at corner 7, in the order of
    // the table.
    let samples = bits([1.0, 1.0, 1.0, 1.0, 1.0, 1.0, 1.0, -1.0]);
    assert_eq!(bipolar_edges(&samples), vec![[6, 7], [5, 7], [3, 7]]);
    // Negative where x is low: the four edges along x.
    let samples = bits([-1.0, 1.0, -1.0, 1.0, -1.0, 1.0, -1.0, 1.0]);
    assert_eq!(bipolar_edges(&samples), vec![[0, 1], [2, 3], [4, 5], [6, 7]]);
    // Negative where z is low: the four edges along z.
    let samples = bits([-1.0, -1.0, -1.0, -1.0, 1.0, 1.0, 1.0, 1.0]);
    assert_eq!(bipolar_edges(&samples), vec![[0, 4], [1, 5], [2, 6], [3, 7]]);
    assert!(bipolar_edges(&bits([1.0; 8])).is_empty());
    assert!(bipolar_edges(&bits([-1.0; 8])).is_empty());
    // Zero is on the side of the positive numbers.
    let samples = bits([0.0, -1.0, 0.0, 0.0, 0.0, 0.0, 0.0, 0.0]);
    assert_eq!(bipolar_edges(&samples), vec![[0, 1], [1, 3], [1, 5]]);
}

#[test]
fn all_twelve_edges_are_listed_once() {
    // Alternating signs: every edge joins corners of different sign.
    let samples = bits([-1.0, 1.0, 1.0, -1.0, 1.0, -1.0, -1.0, 1.0]);
    let edges = bipolar_edges(&samples);
    assert_eq!(
        edges,
        vec![
            [0, 1],
            [0, 2],
            [0, 4],
            [1, 3],
            [1, 5],
            [2, 3],
            [2, 6],
            [4, 5],
            [4, 6],
            [6, 7],
            [5, 7],
            [3, 7],
        ]
    );
    for [a, b] in edges {
        assert_eq!((a ^ b).count_ones(), 1);
    }
}

#[test]
fn classified_cell_is_fresh() {
    let samples = bits([-1.0, 1.0, 1.0, 1.0, 1.0, 1.0, 1.0, 1.0]);
    let cell = Cell::classified(extent(), samples, 2.0f32.to_bits(), 3, true).unwrap();
    assert_eq!(cell.samples, samples);
    assert_eq!(cell.extent.shape, extent().shape);
    assert_eq!(cell.children, [None; 8]);
    assert_eq!(cell.vertex_estimate, [0; 3]);
    assert_eq!(cell.mesh_vertex_id, NULL_MESH_VERTEX_ID);
    assert_eq!(cell.qef_error, 0);
    assert_eq!(cell.depth, 3);
    assert!(cell.is_leaf);
    let cell = Cell::classified(extent(), samples, 2.0f32.to_bits(), 0, false).unwrap();
    assert!(!cell.is_leaf);
    assert_eq!(cell.depth, 0);
}

#[test]
fn leaf_must_be_bipolar_and_branch_need_not_be() {
    let one_sign = bits([1.0; 8]);
    assert!(Cell::classified(extent(), one_sign, 2.0f32.to_bits(), 1, true).is_none());
    assert!(Cell::classified(extent(), one_sign, 2.0f32.to_bits(), 1, false).is_some());
}

#[test]
fn cell_out_of_reach_is_not_made() {
    let far = bits([5.0; 8]);
    assert!(Cell::classified(extent(), far, 2.0f32.to_bits(), 1, false).is_none());
    let far_and_bipolar = bits([5.0, -5.0, 5.0, 5.0, 5.0, 5.0, 5.0, 5.0]);
    assert!(Cell::classified(extent(), far_and_bipolar, 2.0f32.to_bits(), 1, true).is_none());
    assert!(Cell::classified(extent(), far_and_bipolar, 2.0f32.to_bits(), 1, false).is_none());
    let one_near = bits([5.0, -5.0, 5.0, 5.0, 5.0, 5.0, 5.0, 1.0]);
    assert!(Cell::classified(extent(), one_near, 2.0f32.to_bits(), 1, true).is_some());
}

#[test]
fn coefficients_keep_one_triangle_of_the_matrix() {
    let q = Qef::from_coefficients([[1, 2, 3], [4, 5, 6], [7, 8, 9]], [10, 11, 12], 13);
    assert_eq!((q.a00, q.a01, q.a02, q.a11, q.a12, q.a22), (1, 2, 3, 5, 6, 9));
    assert_eq!(q.b, [10, 11, 12]);
    assert_eq!(q.c, 13);
    // What lies above the diagonal is not looked at.
    let other = Qef::from_coefficients([[1, 2, 3], [40, 5, 6], [70, 80, 9]], [10, 11, 12], 13);
    assert_eq!((other.a00, other.a01, other.a02), (1, 2, 3));
    assert_eq!((other.a11, other.a12, other.a22), (5, 6, 9));
}

#[test]
fn default_quadric_is_zero() {
    let q = Qef::default();
    assert_eq!((q.a00, q.a01, q.a02, q.a11, q.a12, q.a22), (0, 0, 0, 0, 0, 0));
    assert_eq!(q.b, [0; 3]);
    assert_eq!(q.c, 0);
}

#[test]
fn depth_bound_leaves_room_for_all_cells() {
    // A complete octree of the greatest depth has (8^11 - 1) / 7 cells.
    let cells = (8u64.pow(MAX_DEPTH as u32 + 1) - 1) / 7;
    assert!(cells < u32::MAX as u64);
    assert!((8u64.pow(MAX_DEPTH as u32 + 2) - 1) / 7 > u32::MAX as u64);
}

/// A kernel that counts in whole numbers: a quadric holds in `c` how many
/// crossings went into it, in `a00` the corners of the last one.
struct Counting {
    crossings: RefCell<Vec<(usize, usize)>>,
}

impl Numerics for Counting {
    // The functions that the contracts name: what the operations compute.
    fn samples_of(&self, extent: Extent) -> [u32; 8] {
        self.corner_samples(&extent)
    }

    fn diagonal_of(&self, extent: Extent) -> u32 {
        self.diagonal(&extent)
    }

    fn octants_of(&self, extent: Extent) -> [Extent; 8] {
        self.split(&extent)
    }

    fn crossing_of(
        &self,
        extent: Extent,
        samples: [u32; 8],
        corner_a: usize,
        corner_b: usize,
        precision: u32,
    ) -> (Qef, Qef) {
        self.edge_crossing(&extent, &samples, corner_a, corner_b, precision)
    }

    fn sum_of(&self, a: Qef, b: Qef) -> Qef {
        self.sum(&a, &b)
    }

    fn minimizer_of(&self, qef: Qef) -> [u32; 3] {
        self.minimizer(&qef)
    }

    fn error_of(&self, qef: Qef, point: [u32; 3]) -> u32 {
        self.error(&qef, &point)
    }

    fn corner_samples(&self, _extent: &Extent) -> [u32; 8] {
        [0; 8]
    }

    fn diagonal(&self, _extent: &Extent) -> u32 {
        0
    }

    fn split(&self, extent: &Extent) -> [Extent; 8] {
        [*extent; 8]
    }

    fn edge_crossing(
        &self,
        _extent: &Extent,
        _samples: &[u32; 8],
        corner_a: usize,
        corner_b: usize,
        precision: u32,
    ) -> (Qef, Qef) {
        self.crossings.borrow_mut().push((corner_a, corner_b));
        let code = (corner_a * 8 + corner_b) as u32;
        (
            Qef::from_coefficients([[code, 0, 0], [0, 0, 0], [0, 0, 0]], [0; 3], 1),
            Qef::from_coefficients([[code, 0, 0], [0, 0, 0], [0, 0, 0]], [precision, 0, 0], 100),
        )
    }

    fn sum(&self, a: &Qef, b: &Qef) -> Qef {
        Qef::from_coefficients([[b.a00, 0, 0], [0, 0, 0], [0, 0, 0]], b.b, a.c + b.c)
    }

    fn minimizer(&self, _qef: &Qef) -> [u32; 3] {
        [0; 3]
    }

    fn error(&self, _qef: &Qef, _point: &[u32; 3]) -> u32 {
        0
    }
}

#[test]
fn cell_quadrics_sum_one_crossing_per_bipolar_edge() {
    let kernel = Counting { crossings: RefCell::new(Vec::new()) };
    let samples = bits([-1.0, 1.0, -1.0, 1.0, -1.0, 1.0, -1.0, 1.0]);
    let (regularized, exact) = estimate_interior_vertex_qef(&extent(), &samples, &kernel, 7);
    assert_eq!(*kernel.crossings.borrow(), vec![(0, 1), (2, 3), (4, 5), (6, 7)]);
    assert_eq!(regularized.c, 4);
    assert_eq!(exact.c, 400);
    assert_eq!(regularized.a00, 6 * 8 + 7);
    assert_eq!(exact.b, [7, 0, 0]);
}

#[test]
fn cell_without_bipolar_edge_has_zero_quadrics() {
    let kernel = Counting { crossings: RefCell::new(Vec::new()) };
    let (regularized, exact) = estimate_interior_vertex_qef(&extent(), &bits([1.0; 8]), &kernel, 7);
    assert!(kernel.crossings.borrow().is_empty());
    assert_eq!((regularized.a00, regularized.b, regularized.c), (0, [0; 3], 0));
    assert_eq!((exact.a00, exact.b, exact.c), (0, [0; 3], 0));
}
