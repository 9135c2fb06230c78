//! The builder driven by kernels whose answers are chosen cell by cell.
use octree_dual_contour::builder::MAX_DEPTH;
use octree_dual_contour::cell_octree::{Cell, CellOctree, Extent};
use octree_dual_contour::mesh::NULL_MESH_VERTEX_ID;
use octree_dual_contour::numerics::Numerics;
use octree_dual_contour::qef::Qef;
use octree_dual_contour::sdf::cell_is_bipolar;

const NEG: u32 = 0xBF80_0000; // -1.0
const POS: u32 = 0x3F80_0000; // 1.0

fn bipolar() -> [u32; 8] {
    [NEG, POS, NEG, POS, NEG, POS, NEG, POS]
}

fn one_sign() -> [u32; 8] {
    [POS; 8]
}

/// A kernel over cells that are named by their path from the root: the root is
/// cell 1, and the child of cell `n` in octant `o` is cell `8 n + o`. The name
/// of a cell stands in the first coordinate of its extent.
///
/// A quadric counts in `c`, as a number, the crossings that went into it; its
/// error is that count, and its minimizer holds the count in each coordinate.
struct Paths<S: Fn(u32) -> [u32; 8]> {
    samples: S,
    diagonal: f32,
}

fn named(name: u32) -> Extent {
    Extent { minimum: [name, 0, 0], shape: [0; 3] }
}

fn count(value: f32) -> Qef {
    Qef::from_coefficients([[0; 3]; 3], [0; 3], value.to_bits())
}

impl<S: Fn(u32) -> [u32; 8]> Numerics for Paths<S> {
    // The functions that the contracts name: what the operations compute.
    fn samples_of(&self, extent: Extent) -> [u32; 8] {
        self.corner_samples(&extent)
    }

    fn diagonal_of(&self, extent: Extent) -> u32 {
        self.diagonal(&extent)
    }

    fn octants_of(&self, extent: Extent) -> [Extent; 8] {
        self.split(&extent)
    }

    fn crossing_of(
        &self,
        extent: Extent,
        samples: [u32; 8],
        corner_a: usize,
        corner_b: usize,
        precision: u32,
    ) -> (Qef, Qef) {
        self.edge_crossing(&extent, &samples, corner_a, corner_b, precision)
    }

    fn sum_of(&self, a: Qef, b: Qef) -> Qef {
        self.sum(&a, &b)
    }

    fn minimizer_of(&self, qef: Qef) -> [u32; 3] {
        self.minimizer(&qef)
    }

    fn error_of(&self, qef: Qef, point: [u32; 3]) -> u32 {
        self.error(&qef, &point)
    }

    fn corner_samples(&self, extent: &Extent) -> [u32; 8] {
        (self.samples)(extent.minimum[0])
    }

    fn diagonal(&self, _extent: &Extent) -> u32 {
        self.diagonal.to_bits()
    }

    fn split(&self, extent: &Extent) -> [Extent; 8] {
        let name = extent.minimum[0];
        [0, 1, 2, 3, 4, 5, 6, 7].map(|octant| named(8 * name + octant))
    }

    fn edge_crossing(
        &self,
        _extent: &Extent,
        _samples: &[u32; 8],
        _corner_a: usize,
        _corner_b: usize,
        _precision: u32,
    ) -> (Qef, Qef) {
        (count(1.0), count(1.0))
    }

    fn sum(&self, a: &Qef, b: &Qef) -> Qef {
        count(f32::from_bits(a.c) + f32::from_bits(b.c))
    }

    fn minimizer(&self, qef: &Qef) -> [u32; 3] {
        [qef.c; 3]
    }

    fn error(&self, qef: &Qef, point: &[u32; 3]) -> u32 {
        assert_eq!(point[0], point[2]);
        qef.c
    }
}

fn build(
    samples: impl Fn(u32) -> [u32; 8],
    max_depth: u8,
    tolerance: f32,
) -> Option<CellOctree> {
    let kernel = Paths { samples, diagonal: 1.0 };
    CellOctree::build(named(1), max_depth, tolerance.to_bits(), 0.1f32.to_bits(), &kernel)
}

fn name(cell: &Cell) -> u32 {
    cell.extent.minimum[0]
}

#[test]
fn depth_zero_gives_the_root_alone() {
    let octree = build(|_| bipolar(), 0, 0.0).unwrap();
    assert_eq!(octree.root_id(), 0);
    let cells = octree.all_cells();
    assert_eq!(cells.len(), 1);
    assert!(cells[0].is_leaf);
    assert_eq!(cells[0].depth, 0);
    assert_eq!(name(&cells[0]), 1);
    assert_eq!(cells[0].samples, bipolar());
    assert_eq!(cells[0].children, [None; 8]);
    // Four edges cross, so the quadrics count four.
    assert_eq!(cells[0].vertex_estimate, [4.0f32.to_bits(); 3]);
    assert_eq!(cells[0].qef_error, 4.0f32.to_bits());
    assert_eq!(cells[0].mesh_vertex_id, NULL_MESH_VERTEX_ID);
}

#[test]
fn root_of_one_sign_at_depth_zero_gives_nothing() {
    assert!(build(|_| one_sign(), 0, 0.0).is_none());
    assert!(build(|_| [NEG; 8], 0, 100.0).is_none());
}

#[test]
fn root_out_of_reach_gives_nothing() {
    let far = [5.0f32, -5.0, 5.0, 5.0, 9.0, 9.0, 9.0, 9.0].map(f32::to_bits);
    assert!(cell_is_bipolar(&far));
    for depth in 0..4 {
        assert!(build(|_| far, depth, 0.0).is_none());
    }
}

#[test]
fn branch_without_surface_below_it_gives_nothing() {
    // No cell at the depth bound is bipolar.
    for depth in 1..4 {
        assert!(build(|_| one_sign(), depth, 100.0).is_none());
    }
    // The root is bipolar, its children are not.
    assert!(build(|name| if name == 1 { bipolar() } else { one_sign() }, 1, 100.0).is_none());
}

#[test]
fn children_come_before_their_parent_in_the_order_of_the_octants() {
    let octree = build(|_| bipolar(), 1, 0.0).unwrap();
    let cells = octree.all_cells();
    assert_eq!(cells.len(), 9);
    assert_eq!(octree.root_id(), 8);
    for octant in 0..8 {
        assert_eq!(name(&cells[octant]), 8 + octant as u32);
        assert!(cells[octant].is_leaf);
        assert_eq!(cells[octant].depth, 1);
        assert_eq!(cells[octant].children, [None; 8]);
        assert_eq!(cells[octant].qef_error, 4.0f32.to_bits());
    }
    assert_eq!(name(&cells[8]), 1);
    assert_eq!(cells[8].depth, 0);
    assert_eq!(cells[8].children, [0, 1, 2, 3, 4, 5, 6, 7].map(Some));
    // The merged vertex would err by 32, which is above the tolerance.
    assert!(!cells[8].is_leaf);
    assert_eq!(cells[8].qef_error, 32.0f32.to_bits());
    assert_eq!(cells[8].vertex_estimate, [32.0f32.to_bits(); 3]);
}

#[test]
fn branch_within_tolerance_is_merged() {
    let mut octree = build(|_| bipolar(), 1, 32.0).unwrap();
    {
        let cells = octree.all_cells();
        assert_eq!(cells.len(), 9);
        assert!(cells[8].is_leaf);
        assert_eq!(cells[8].children, [0, 1, 2, 3, 4, 5, 6, 7].map(Some));
        assert_eq!(cells[8].qef_error, 32.0f32.to_bits());
        assert_eq!(cells[8].vertex_estimate, [32.0f32.to_bits(); 3]);
    }
    let contour = octree.contour();
    assert_eq!(contour.leaves, vec![8]);
    assert!(contour.facets.is_empty());
}

#[test]
fn tolerance_is_met_at_equality_and_missed_just_below() {
    assert!(build(|_| bipolar(), 1, 32.0).unwrap().all_cells()[8].is_leaf);
    let just_below = f32::from_bits(32.0f32.to_bits() - 1);
    assert!(!build(|_| bipolar(), 1, just_below).unwrap().all_cells()[8].is_leaf);
    assert!(!build(|_| bipolar(), 1, f32::NAN).unwrap().all_cells()[8].is_leaf);
    assert!(build(|_| bipolar(), 1, f32::INFINITY).unwrap().all_cells()[8].is_leaf);
}

#[test]
fn branch_of_one_sign_is_not_merged() {
    // The children are bipolar, the root is not: however great the tolerance,
    // the root stays a branch.
    let octree = build(|name| if name == 1 { one_sign() } else { bipolar() }, 1, 1000.0).unwrap();
    let cells = octree.all_cells();
    assert_eq!(cells.len(), 9);
    assert!(!cells[8].is_leaf);
    // No vertex was estimated for it.
    assert_eq!(cells[8].qef_error, 0);
    assert_eq!(cells[8].vertex_estimate, [0; 3]);
}

#[test]
fn octants_without_surface_stay_empty() {
    // Only the children in octants 2 and 5 are bipolar.
    let octree = build(
        |name| if name == 1 || name == 8 + 2 || name == 8 + 5 { bipolar() } else { one_sign() },
        1,
        0.0,
    )
    .unwrap();
    let cells = octree.all_cells();
    assert_eq!(cells.len(), 3);
    assert_eq!(name(&cells[0]), 10);
    assert_eq!(name(&cells[1]), 13);
    assert_eq!(cells[2].children, [None, None, Some(0), None, None, Some(1), None, None]);
    assert!(!cells[2].is_leaf);
    assert_eq!(cells[2].qef_error, 8.0f32.to_bits());
}

#[test]
fn merged_child_stays_a_leaf_when_its_parent_is_kept() {
    // Depth 2. Below the child in octant 0 only one cell is bipolar, below the
    // child in octant 1 all eight are. With tolerance 4 the first merges (its
    // quadrics count 4) and the second does not (32).
    let samples = |name: u32| {
        if name == 1 || name == 8 || name == 9 || name == 64 || (72..80).contains(&name) {
            bipolar()
        } else {
            one_sign()
        }
    };
    let mut octree = build(samples, 2, 4.0).unwrap();
    {
        let cells = octree.all_cells();
        let names: Vec<u32> = cells.iter().map(name).collect();
        assert_eq!(names, vec![64, 8, 72, 73, 74, 75, 76, 77, 78, 79, 9, 1]);
        let leaves: Vec<bool> = cells.iter().map(|c| c.is_leaf).collect();
        assert_eq!(
            leaves,
            vec![true, true, true, true, true, true, true, true, true, true, false, false]
        );
        assert_eq!(cells[1].children, [Some(0), None, None, None, None, None, None, None]);
        assert_eq!(cells[1].qef_error, 4.0f32.to_bits());
        assert_eq!(cells[10].children, [2, 3, 4, 5, 6, 7, 8, 9].map(Some));
        assert_eq!(cells[10].qef_error, 32.0f32.to_bits());
        assert_eq!(cells[11].children, [Some(1), Some(10), None, None, None, None, None, None]);
        // The root was never a candidate: not all of its children merged.
        assert_eq!(cells[11].qef_error, 0);
        let depths: Vec<u8> = cells.iter().map(|c| c.depth).collect();
        assert_eq!(depths, vec![2, 1, 2, 2, 2, 2, 2, 2, 2, 2, 1, 0]);
    }
    let contour = octree.contour();
    assert_eq!(contour.leaves, vec![9, 8, 7, 6, 5, 4, 3, 2, 1]);
}

#[test]
fn merging_goes_up_as_far_as_the_tolerance_allows() {
    let samples = |name: u32| {
        if name == 1 || name == 8 || name == 9 || name == 64 || (72..80).contains(&name) {
            bipolar()
        } else {
            one_sign()
        }
    };
    let leaves_at = |tolerance: f32| {
        let mut octree = build(samples, 2, tolerance).unwrap();
        octree.contour().leaves
    };
    assert_eq!(leaves_at(0.0), vec![9, 8, 7, 6, 5, 4, 3, 2, 0]);
    assert_eq!(leaves_at(3.9), vec![9, 8, 7, 6, 5, 4, 3, 2, 0]);
    assert_eq!(leaves_at(4.0), vec![9, 8, 7, 6, 5, 4, 3, 2, 1]);
    assert_eq!(leaves_at(31.0), vec![9, 8, 7, 6, 5, 4, 3, 2, 1]);
    assert_eq!(leaves_at(32.0), vec![10, 1]);
    assert_eq!(leaves_at(35.9), vec![10, 1]);
    assert_eq!(leaves_at(36.0), vec![11]);
}

#[test]
fn empty_branch_leaves_no_cell_behind() {
    // The child in octant 3 is a branch of which no child is bipolar; the
    // child in octant 4 is a branch with one bipolar child.
    let samples = |name: u32| if name == 1 || name == 8 * 12 + 6 { bipolar() } else { one_sign() };
    let octree = build(samples, 2, 0.0).unwrap();
    let cells = octree.all_cells();
    let names: Vec<u32> = cells.iter().map(name).collect();
    assert_eq!(names, vec![102, 12, 1]);
    assert_eq!(cells[1].children, [None, None, None, None, None, None, Some(0), None]);
    assert_eq!(cells[2].children, [None, None, None, None, Some(1), None, None, None]);
    // A branch of one sign with one leaf below it is kept as a branch.
    assert!(!cells[1].is_leaf);
    assert!(!cells[2].is_leaf);
}

#[test]
fn cells_at_the_depth_bound_are_leaves() {
    for depth in 0..=3u8 {
        let octree = build(|_| bipolar(), depth, 0.0).unwrap();
        let cells = octree.all_cells();
        let expected = (8usize.pow(depth as u32 + 1) - 1) / 7;
        assert_eq!(cells.len(), expected);
        for cell in cells {
            assert_eq!(cell.is_leaf, cell.depth == depth);
            assert_eq!(cell.children == [None; 8], cell.depth == depth);
        }
        assert!(octree.is_wf());
    }
}

#[test]
fn greatest_depth_is_accepted() {
    // One path of bipolar cells down to the depth bound.
    let on_path = |name: u32| {
        let mut n = name;
        while n > 1 {
            if n % 8 != 0 {
                return false;
            }
            n /= 8;
        }
        true
    };
    // The cells off the path are out of reach of the surface.
    let far = [5.0f32.to_bits(); 8];
    let octree = build(|name| if on_path(name) { bipolar() } else { far }, MAX_DEPTH, 0.0).unwrap();
    let cells = octree.all_cells();
    assert_eq!(cells.len(), MAX_DEPTH as usize + 1);
    assert!(cells[0].is_leaf);
    assert_eq!(cells[0].depth, MAX_DEPTH);
    assert_eq!(name(&cells[0]), 8u32.pow(MAX_DEPTH as u32));
}
