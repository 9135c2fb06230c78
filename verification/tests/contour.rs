//! Contours of octrees that are put together cell by cell.
use octree_dual_contour::cell_octree::{Cell, CellId, CellOctree, Extent, Facet};
use octree_dual_contour::contour_octree::ContourVisitor;
use octree_dual_contour::mesh::NULL_MESH_VERTEX_ID;

const NEG: u32 = 0xBF80_0000; // -1.0
const POS: u32 = 0x3F80_0000; // 1.0

/// Samples that are negative at the corners on the negative side of `axis`.
fn rising_along(axis: usize) -> [u32; 8] {
    let mut samples = [POS; 8];
    for (corner, sample) in samples.iter_mut().enumerate() {
        if (corner >> axis) & 1 == 0 {
            *sample = NEG;
        }
    }
    samples
}

/// Samples that are negative at the corners on the positive side of `axis`.
fn falling_along(axis: usize) -> [u32; 8] {
    rising_along(axis).map(|s| if s == NEG { POS } else { NEG })
}

fn cell(depth: u8, is_leaf: bool, samples: [u32; 8], children: [Option<CellId>; 8]) -> Cell {
    Cell {
        extent: Extent { minimum: [0; 3], shape: [0; 3] },
        samples,
        children,
        vertex_estimate: [0; 3],
        mesh_vertex_id: NULL_MESH_VERTEX_ID,
        qef_error: 0,
        depth,
        is_leaf,
    }
}

fn leaf(depth: u8, samples: [u32; 8]) -> Cell {
    cell(depth, true, samples, [None; 8])
}

fn branch(depth: u8, samples: [u32; 8], children: [Option<CellId>; 8]) -> Cell {
    cell(depth, false, samples, children)
}

/// A root whose eight children are leaves with the given samples.
fn one_level(samples: [u32; 8]) -> CellOctree {
    let mut cells: Vec<Cell> = (0..8).map(|_| leaf(1, samples)).collect();
    cells.push(branch(0, samples, [0, 1, 2, 3, 4, 5, 6, 7].map(Some)));
    CellOctree::from_cells(8, cells).unwrap()
}

/// A leaf in octant 0 of the root next to a branch in octant 1 whose eight
/// children are leaves.
fn leaf_beside_branch(samples: [u32; 8]) -> CellOctree {
    let mut cells = vec![leaf(1, samples)];
    for _ in 0..8 {
        cells.push(leaf(2, samples));
    }
    cells.push(branch(1, samples, [1, 2, 3, 4, 5, 6, 7, 8].map(Some)));
    let mut children = [None; 8];
    children[0] = Some(0);
    children[1] = Some(9);
    cells.push(branch(0, samples, children));
    CellOctree::from_cells(10, cells).unwrap()
}

fn has_repeated_cell(facet: &Facet) -> bool {
    let ids: Vec<CellId> = match facet {
        Facet::Quad(q) => q.to_vec(),
        Facet::Triangle(t) => t.to_vec(),
    };
    (0..ids.len()).any(|i| (0..i).any(|j| ids[i] == ids[j]))
}

#[test]
fn single_leaf_is_visited_and_yields_no_facet() {
    let mut octree = CellOctree::from_cells(0, vec![leaf(0, rising_along(0))]).unwrap();
    let contour = octree.contour();
    assert_eq!(contour.leaves, vec![0]);
    assert!(contour.facets.is_empty());
}

#[test]
fn children_are_visited_highest_octant_first() {
    let mut octree = one_level(rising_along(0));
    assert_eq!(octree.contour().leaves, vec![7, 6, 5, 4, 3, 2, 1, 0]);
}

#[test]
fn one_quad_per_bipolar_inner_edge() {
    // The field changes sign along X only, from negative to positive: the two
    // inner edges along X carry a quad each, wound the other way round.
    let mut octree = one_level(rising_along(0));
    let contour = octree.contour();
    assert_eq!(contour.facets, vec![Facet::Quad([5, 7, 1, 3]), Facet::Quad([4, 6, 0, 2])]);

    let mut octree = one_level(rising_along(1));
    let contour = octree.contour();
    assert_eq!(contour.facets, vec![Facet::Quad([3, 7, 2, 6]), Facet::Quad([1, 5, 0, 4])]);

    let mut octree = one_level(rising_along(2));
    let contour = octree.contour();
    assert_eq!(contour.facets, vec![Facet::Quad([6, 7, 4, 5]), Facet::Quad([2, 3, 0, 1])]);
}

#[test]
fn winding_follows_the_direction_of_the_sign_change() {
    let mut octree = one_level(falling_along(0));
    let contour = octree.contour();
    assert_eq!(contour.facets, vec![Facet::Quad([1, 3, 5, 7]), Facet::Quad([0, 2, 4, 6])]);
}

#[test]
fn no_facet_where_the_field_keeps_its_sign() {
    // Bipolar cells whose samples differ at one corner only: no edge that the
    // contour looks at changes sign.
    let mut samples = [POS; 8];
    samples[0] = NEG;
    let mut octree = one_level(samples);
    let contour = octree.contour();
    assert_eq!(contour.leaves.len(), 8);
    assert!(contour.facets.is_empty());
}

#[test]
fn zero_counts_as_positive_at_the_end_of_an_edge() {
    let zero_on_positive_side = rising_along(0).map(|s| if s == POS { 0 } else { s });
    let mut octree = one_level(zero_on_positive_side);
    assert_eq!(octree.contour().facets.len(), 2);
    let negative_zero = rising_along(0).map(|s| if s == NEG { 0x8000_0000 } else { s });
    let mut octree = one_level(negative_zero);
    assert!(octree.contour().facets.is_empty());
}

#[test]
fn absent_child_removes_the_edges_around_it() {
    let samples = rising_along(0);
    let mut cells: Vec<Cell> = (0..7).map(|_| leaf(1, samples)).collect();
    // Octant 7 is empty.
    let children = [Some(0), Some(1), Some(2), Some(3), Some(4), Some(5), Some(6), None];
    cells.push(branch(0, samples, children));
    let mut octree = CellOctree::from_cells(7, cells).unwrap();
    let contour = octree.contour();
    assert_eq!(contour.leaves, vec![6, 5, 4, 3, 2, 1, 0]);
    assert_eq!(contour.facets, vec![Facet::Quad([4, 6, 0, 2])]);
}

#[test]
fn coarse_leaf_beside_fine_cells_gives_triangles() {
    // Along Z the field changes sign. The face between the leaf and the
    // branch holds two edges along Z, on each of which the leaf fills two
    // slots: the triangle that would join it to itself is left out.
    let mut octree = leaf_beside_branch(rising_along(2));
    let contour = octree.contour();
    assert_eq!(contour.leaves, vec![8, 7, 6, 5, 4, 3, 2, 1, 0]);
    assert_eq!(
        contour.facets,
        vec![
            Facet::Triangle([5, 7, 0]),
            Facet::Triangle([1, 3, 0]),
            Facet::Quad([7, 8, 5, 6]),
            Facet::Quad([3, 4, 1, 2]),
        ]
    );
}

#[test]
fn coarse_leaf_beside_fine_cells_along_y() {
    let mut octree = leaf_beside_branch(rising_along(1));
    let contour = octree.contour();
    assert_eq!(
        contour.facets,
        vec![
            Facet::Triangle([0, 7, 3]),
            Facet::Triangle([0, 5, 1]),
            Facet::Quad([4, 8, 3, 7]),
            Facet::Quad([2, 6, 1, 5]),
        ]
    );
    for facet in &contour.facets {
        assert!(!has_repeated_cell(facet));
    }
}

#[test]
fn leaf_two_levels_above_its_neighbours_gives_no_degenerate_facet() {
    // Octant 0 of the root is a leaf at depth 1. Octant 1 is a branch whose
    // children on the side of the leaf are branches with leaves at depth 3.
    let samples = rising_along(2);
    let mut cells = vec![leaf(1, samples)];
    let mut children_of_branch = [None; 8];
    for octant in 0..8usize {
        if octant % 2 == 0 {
            let first = cells.len() as CellId;
            for _ in 0..8 {
                cells.push(leaf(3, samples));
            }
            let grandchildren = [0, 1, 2, 3, 4, 5, 6, 7].map(|k| Some(first + k));
            cells.push(branch(2, samples, grandchildren));
        } else {
            cells.push(leaf(2, samples));
        }
        children_of_branch[octant] = Some(cells.len() as CellId - 1);
    }
    cells.push(branch(1, samples, children_of_branch));
    let mut children = [None; 8];
    children[0] = Some(0);
    children[1] = Some(cells.len() as CellId - 1);
    cells.push(branch(0, samples, children));
    let root = cells.len() as CellId - 1;
    let mut octree = CellOctree::from_cells(root, cells).unwrap();
    let contour = octree.contour();
    assert_eq!(contour.leaves.len(), 1 + 4 + 4 * 8);
    assert!(!contour.facets.is_empty());
    let with_the_coarse_leaf: Vec<&Facet> = contour
        .facets
        .iter()
        .filter(|f| match f {
            Facet::Quad(q) => q.contains(&0),
            Facet::Triangle(t) => t.contains(&0),
        })
        .collect();
    // The two edges along Z in the face are cut in two, which gives four
    // edges; each of the four faces below the face holds two more.
    assert_eq!(with_the_coarse_leaf.len(), 12);
    for facet in &contour.facets {
        assert!(!has_repeated_cell(facet), "{facet:?} joins a cell to itself");
    }
    for facet in with_the_coarse_leaf {
        assert!(matches!(facet, Facet::Triangle(_)));
    }
}

#[test]
fn samples_are_read_from_the_first_of_the_deepest_cells() {
    // All four cells around an edge are equally deep: the first decides. In
    // the quiet cells no edge that is read changes sign.
    let quiet = [NEG, POS, POS, POS, POS, POS, POS, POS];
    let mut cells: Vec<Cell> = (0..8).map(|_| leaf(1, quiet)).collect();
    cells[0] = leaf(1, rising_along(0));
    cells.push(branch(0, quiet, [0, 1, 2, 3, 4, 5, 6, 7].map(Some)));
    let mut octree = CellOctree::from_cells(8, cells).unwrap();
    assert_eq!(octree.contour().facets, vec![Facet::Quad([4, 6, 0, 2])]);

    // The same samples in the second cell around that edge are not read.
    let mut cells: Vec<Cell> = (0..8).map(|_| leaf(1, quiet)).collect();
    cells[2] = leaf(1, rising_along(0));
    cells.push(branch(0, quiet, [0, 1, 2, 3, 4, 5, 6, 7].map(Some)));
    let mut octree = CellOctree::from_cells(8, cells).unwrap();
    assert!(octree.contour().facets.is_empty());
}

#[test]
fn deeper_cell_decides_over_an_earlier_shallow_one() {
    // Around the Z edges in the face the leaf at depth 1 stands in the first
    // slot; the samples are read from the first cell at depth 2.
    let mut octree = leaf_beside_branch(rising_along(2));
    let cells: Vec<Cell> = octree.all_cells().to_vec();
    let quiet = [NEG, POS, POS, POS, POS, POS, POS, POS];
    let mut changed = cells.clone();
    changed[0] = leaf(1, quiet);
    let mut other = CellOctree::from_cells(10, changed).unwrap();
    assert_eq!(other.contour().facets, octree.contour().facets);
}

#[test]
fn contour_can_be_repeated_and_leaves_the_cells_alone() {
    let mut octree = leaf_beside_branch(rising_along(2));
    let before: Vec<(bool, u8, [Option<CellId>; 8])> =
        octree.all_cells().iter().map(|c| (c.is_leaf, c.depth, c.children)).collect();
    let first = octree.contour();
    let second = octree.contour();
    assert_eq!(first.leaves, second.leaves);
    assert_eq!(first.facets, second.facets);
    let after: Vec<(bool, u8, [Option<CellId>; 8])> =
        octree.all_cells().iter().map(|c| (c.is_leaf, c.depth, c.children)).collect();
    assert_eq!(before, after);
}

#[test]
fn merged_cell_hides_the_cells_below_it() {
    // The branch in octant 1 is marked as a leaf: its children stay in the
    // collection but are not visited.
    let samples = rising_along(0);
    let mut cells = vec![leaf(1, samples)];
    for _ in 0..8 {
        cells.push(leaf(2, samples));
    }
    cells.push(cell(1, true, samples, [1, 2, 3, 4, 5, 6, 7, 8].map(Some)));
    let mut children = [None; 8];
    children[0] = Some(0);
    children[1] = Some(9);
    cells.push(branch(0, samples, children));
    let mut octree = CellOctree::from_cells(10, cells).unwrap();
    let contour = octree.contour();
    assert_eq!(contour.leaves, vec![9, 0]);
    assert!(contour.facets.is_empty());
}

#[test]
fn mesh_vertex_can_be_given_to_each_visited_leaf() {
    let mut octree = one_level(rising_along(0));
    let contour = octree.contour();
    for (vertex, id) in contour.leaves.iter().enumerate() {
        octree.set_mesh_vertex_id(*id, vertex as u32);
    }
    assert!(octree.is_wf());
    let cells = octree.all_cells();
    assert_eq!(cells[7].mesh_vertex_id, 0);
    assert_eq!(cells[0].mesh_vertex_id, 7);
    assert_eq!(cells[8].mesh_vertex_id, NULL_MESH_VERTEX_ID);
}

#[test]
fn cells_out_of_post_order_are_refused() {
    let samples = rising_along(0);
    // The root before its child.
    let mut children = [None; 8];
    children[0] = Some(1);
    let cells = vec![branch(0, samples, children), leaf(1, samples)];
    assert!(CellOctree::from_cells(0, cells).is_none());
    // A cell that is its own child.
    children[0] = Some(0);
    assert!(CellOctree::from_cells(0, vec![branch(0, samples, children)]).is_none());
    // Children against the order of the octants.
    let mut children = [None; 8];
    children[0] = Some(1);
    children[1] = Some(0);
    let cells = vec![leaf(1, samples), leaf(1, samples), branch(0, samples, children)];
    assert!(CellOctree::from_cells(2, cells).is_none());
    // One cell as the child of two octants.
    let mut children = [None; 8];
    children[0] = Some(0);
    children[1] = Some(0);
    let cells = vec![leaf(1, samples), branch(0, samples, children)];
    assert!(CellOctree::from_cells(1, cells).is_none());
    // A root that is no cell.
    assert!(CellOctree::from_cells(1, vec![leaf(0, samples)]).is_none());
    assert!(CellOctree::from_cells(0, vec![]).is_none());
    // A subtree that reaches into that of an elder sibling.
    let mut inner = [None; 8];
    inner[0] = Some(0);
    let mut children = [None; 8];
    children[0] = Some(0);
    children[1] = Some(1);
    let cells = vec![leaf(2, samples), branch(1, samples, inner), branch(0, samples, children)];
    assert!(CellOctree::from_cells(2, cells).is_none());
}

#[test]
fn cells_in_post_order_are_accepted() {
    let octree = leaf_beside_branch(rising_along(0));
    assert!(octree.is_wf());
    assert_eq!(octree.root_id(), 10);
    assert_eq!(octree.all_cells().len(), 11);
}

/// What a visitor was handed, in the order in which it was handed over.
#[derive(Debug, PartialEq)]
enum Visit {
    Leaf(CellId),
    Quad([CellId; 4]),
    Triangle([CellId; 3]),
}

/// A visitor that keeps a record and gives every leaf the next mesh vertex.
struct Recorder {
    visits: Vec<Visit>,
    meddle: bool,
}

impl ContourVisitor for Recorder {
    fn visit_leaf_cell(&mut self, cell_id: CellId, cell: &mut Cell) {
        assert!(cell.is_leaf);
        cell.mesh_vertex_id = self.visits.len() as u32;
        cell.vertex_estimate = [cell_id, cell_id + 1, cell_id + 2];
        cell.qef_error = 100 + cell_id;
        if self.meddle {
            cell.is_leaf = false;
            cell.children = [Some(0); 8];
            cell.depth = 200;
            cell.samples = [0; 8];
            cell.extent.minimum = [7; 3];
        }
        self.visits.push(Visit::Leaf(cell_id));
    }

    fn visit_quad(&mut self, cells: [CellId; 4]) {
        self.visits.push(Visit::Quad(cells));
    }

    fn visit_triangle(&mut self, cells: [CellId; 3]) {
        self.visits.push(Visit::Triangle(cells));
    }
}

#[test]
fn visitor_gets_the_leaves_and_then_the_facets() {
    let mut octree = leaf_beside_branch(rising_along(2));
    let mut recorder = Recorder { visits: Vec::new(), meddle: false };
    let contour = octree.dual_contour(&mut recorder);
    let mut expected: Vec<Visit> = [8, 7, 6, 5, 4, 3, 2, 1, 0].map(Visit::Leaf).into();
    expected.push(Visit::Triangle([5, 7, 0]));
    expected.push(Visit::Triangle([1, 3, 0]));
    expected.push(Visit::Quad([7, 8, 5, 6]));
    expected.push(Visit::Quad([3, 4, 1, 2]));
    assert_eq!(recorder.visits, expected);
    assert_eq!(contour.leaves, vec![8, 7, 6, 5, 4, 3, 2, 1, 0]);
    assert_eq!(contour.facets.len(), 4);
    // What is handed to the visitor is what a contour without a visitor finds.
    let mut again = leaf_beside_branch(rising_along(2));
    let plain = again.contour();
    assert_eq!(plain.leaves, contour.leaves);
    assert_eq!(plain.facets, contour.facets);
}

#[test]
fn visitor_settles_the_vertex_of_each_leaf() {
    let mut octree = leaf_beside_branch(rising_along(2));
    let mut recorder = Recorder { visits: Vec::new(), meddle: false };
    octree.dual_contour(&mut recorder);
    let cells = octree.all_cells();
    // Cell 8 was visited first, cell 0 last.
    assert_eq!(cells[8].mesh_vertex_id, 0);
    assert_eq!(cells[0].mesh_vertex_id, 8);
    assert_eq!(cells[3].vertex_estimate, [3, 4, 5]);
    assert_eq!(cells[3].qef_error, 103);
    // The branches were not visited.
    assert_eq!(cells[9].mesh_vertex_id, NULL_MESH_VERTEX_ID);
    assert_eq!(cells[10].mesh_vertex_id, NULL_MESH_VERTEX_ID);
    assert_eq!(cells[9].vertex_estimate, [0; 3]);
}

#[test]
fn visitor_cannot_change_the_shape_of_the_octree() {
    let mut octree = leaf_beside_branch(rising_along(2));
    let mut recorder = Recorder { visits: Vec::new(), meddle: true };
    let first = octree.dual_contour(&mut recorder);
    assert!(octree.is_wf());
    for (id, cell) in octree.all_cells().iter().enumerate() {
        assert_eq!(cell.is_leaf, id < 9);
        assert_eq!(cell.samples, rising_along(2));
        assert_eq!(cell.extent.minimum, [0; 3]);
        assert!(cell.depth <= 2);
        if id < 9 {
            assert_eq!(cell.children, [None; 8]);
        }
    }
    let second = octree.contour();
    assert_eq!(first.leaves, second.leaves);
    assert_eq!(first.facets, second.facets);
}
