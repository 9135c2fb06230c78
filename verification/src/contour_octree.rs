//! Dual contouring of a finished octree.
//!
//! The contour joins the vertices of the leaf cells around every edge of the
//! octree on which the field changes sign. It is found without recursion, on
//! three stacks that are emptied one after the other: cells, then the faces
//! between cells, then the edges between cells.
use crate::cell_octree::{
    cells_wf, lemma_wf_keeps_children, Cell, CellId, CellOctree, Edge, Face, Facet,
};
use crate::scalar::negative;
use crate::tables::{
    EDGE_ADJACENT_OCTANTS, FACE_ADJACENT_OCTANTS, FACE_TO_EDGE_ADJACENT_OCTANTS, FACE_TO_EDGE_AXIS,
    FACE_TO_EDGE_MIRRORS, FACE_TO_EDGE_NODE_ORDERS,
};
use crate::walk::{
    cell_stack_ok, cell_stack_reached, cell_stack_walk, cell_walk, children_walk, contour_edges,
    contour_facets, contour_leaves, deepest_slot, edge_is_terminal, edge_ok, edge_stack_ok,
    edge_stack_reached, edge_stack_walk, edge_walk, face_edges, face_is_terminal, face_ok,
    face_stack_ok, face_stack_reached, face_stack_walk, face_walk, facet_among, facet_distinct,
    interior_edges, interior_faces, leaf_edge_facet, participant, present_children, reachable,
    sub_edges, sub_edges_walk, sub_faces, sub_faces_walk, CellWalk,
};
use crate::walk_lemmas::{
    lemma_cell_stack_children, lemma_edge_stack_sub_edges, lemma_face_edges_ok,
    lemma_face_edges_reached, lemma_face_stack_sub_faces, lemma_interior_edges_ok,
    lemma_interior_edges_reached, lemma_interior_faces_ok, lemma_interior_faces_reached,
    lemma_leaf_edge_facet_among, lemma_leaf_edge_facet_distinct, lemma_present_children_ok,
    lemma_present_children_reached, lemma_reachable_leaf_is_visited, lemma_sub_edges_ok,
    lemma_sub_edges_reached, lemma_sub_faces_ok, lemma_sub_faces_reached,
    lemma_visited_is_reachable_leaf, lemma_walk_visits_once,
};
use vstd::prelude::*;

verus! {

/// The cell that takes part below `parent` in `octant`, and whether it is
/// `parent` itself, a leaf.
fn get_child_cell_id(octree: &CellOctree, parent: CellId, octant: u8) -> (r: (
    Option<CellId>,
    bool,
))
    requires
        parent < octree.all_cells@.len(),
        octant < 8,
    ensures
        r.0 == participant(octree.all_cells@, parent, octant as int),
        r.1 == octree.all_cells@[parent as int].is_leaf,
{
    let cell = &octree.all_cells[parent as usize];
    if cell.is_leaf {
        (Some(parent), true)
    } else {
        (cell.children[octant as usize], false)
    }
}

/// Visits one cell: reports a leaf, and puts the children of another cell on
/// the stack of cells and the faces and edges between them on their stacks.
fn contour_cell_interior(octree: &mut CellOctree, cell_id: CellId, leaves: &mut Vec<CellId>)
    requires
        cells_wf(old(octree).all_cells@),
        cell_id < old(octree).all_cells@.len(),
    ensures
        final(octree).all_cells@ == old(octree).all_cells@,
        final(octree).root_id == old(octree).root_id,
        old(octree).all_cells@[cell_id as int].is_leaf ==> {
            &&& final(leaves)@ == old(leaves)@.push(cell_id)
            &&& final(octree).cell_stack@ == old(octree).cell_stack@
            &&& final(octree).face_stack@ == old(octree).face_stack@
            &&& final(octree).edge_stack@ == old(octree).edge_stack@
        },
        !old(octree).all_cells@[cell_id as int].is_leaf ==> {
            &&& final(leaves)@ == old(leaves)@
            &&& final(octree).cell_stack@ == old(octree).cell_stack@ + present_children(
                old(octree).all_cells@,
                cell_id,
                8,
            )
            &&& final(octree).face_stack@ == old(octree).face_stack@ + interior_faces(
                old(octree).all_cells@,
                cell_id,
                12,
            )
            &&& final(octree).edge_stack@ == old(octree).edge_stack@ + interior_edges(
                old(octree).all_cells@,
                cell_id,
                6,
            )
        },
{
    let ghost cells = octree.all_cells@;
    let ghost cell_stack = octree.cell_stack@;
    let ghost face_stack = octree.face_stack@;
    let ghost edge_stack = octree.edge_stack@;
    let cell = octree.all_cells[cell_id as usize];
    if cell.is_leaf {
        leaves.push(cell_id);
        return ;
    }
    // The rest of the interior of this cell lies within its children and on
    // the faces and edges between them.
    let mut octant: usize = 0;
    while octant < 8
        invariant
            octant <= 8,
            octree.all_cells@ == cells,
            octree.root_id == old(octree).root_id,
            cell_id < cells.len(),
            cell == cells[cell_id as int],
            octree.face_stack@ == face_stack,
            octree.edge_stack@ == edge_stack,
            octree.cell_stack@ == cell_stack + present_children(cells, cell_id, octant as nat),
        decreases 8 - octant,
    {
        if let Some(c) = cell.children[octant] {
            octree.cell_stack.push(c);
        }
        octant += 1;
        assert(octree.cell_stack@ =~= cell_stack + present_children(cells, cell_id, octant as nat));
    }
    let mut axis: usize = 0;
    while axis < 3
        invariant
            axis <= 3,
            octree.all_cells@ == cells,
            octree.root_id == old(octree).root_id,
            cell_id < cells.len(),
            cell == cells[cell_id as int],
            octree.cell_stack@ == cell_stack + present_children(cells, cell_id, 8),
            octree.face_stack@ == face_stack + interior_faces(cells, cell_id, (4 * axis) as nat),
            octree.edge_stack@ == edge_stack + interior_edges(cells, cell_id, (2 * axis) as nat),
        decreases 3 - axis,
    {
        let mut face: usize = 0;
        while face < 4
            invariant
                face <= 4,
                axis < 3,
                octree.all_cells@ == cells,
                octree.root_id == old(octree).root_id,
                cell_id < cells.len(),
                cell == cells[cell_id as int],
                octree.cell_stack@ == cell_stack + present_children(cells, cell_id, 8),
                octree.face_stack@ == face_stack + interior_faces(
                    cells,
                    cell_id,
                    (4 * axis + face) as nat,
                ),
                octree.edge_stack@ == edge_stack + interior_edges(
                    cells,
                    cell_id,
                    (2 * axis) as nat,
                ),
            decreases 4 - face,
        {
            let o = FACE_ADJACENT_OCTANTS[axis][face];
            if let (Some(f0), Some(f1)) = (
                cell.children[o[0] as usize],
                cell.children[o[1] as usize],
            ) {
                octree.face_stack.push(Face { axis, cells: [f0, f1] });
            }
            face += 1;
            assert(octree.face_stack@ =~= face_stack + interior_faces(
                cells,
                cell_id,
                (4 * axis + face) as nat,
            ));
        }
        let mut half: usize = 0;
        while half < 2
            invariant
                half <= 2,
                axis < 3,
                octree.all_cells@ == cells,
                octree.root_id == old(octree).root_id,
                cell_id < cells.len(),
                cell == cells[cell_id as int],
                octree.cell_stack@ == cell_stack + present_children(cells, cell_id, 8),
                octree.face_stack@ == face_stack + interior_faces(
                    cells,
                    cell_id,
                    (4 * axis + 4) as nat,
                ),
                octree.edge_stack@ == edge_stack + interior_edges(
                    cells,
                    cell_id,
                    (2 * axis + half) as nat,
                ),
            decreases 2 - half,
        {
            let o = EDGE_ADJACENT_OCTANTS[axis][half];
            if let (Some(e0), Some(e1), Some(e2), Some(e3)) = (
                cell.children[o[0] as usize],
                cell.children[o[1] as usize],
                cell.children[o[2] as usize],
                cell.children[o[3] as usize],
            ) {
                octree.edge_stack.push(
                    Edge {
                        axis,
                        cells: [e0, e1, e2, e3],
                        is_duplicate: [false, false, false, false],
                    },
                );
            }
            half += 1;
            assert(octree.edge_stack@ =~= edge_stack + interior_edges(
                cells,
                cell_id,
                (2 * axis + half) as nat,
            ));
        }
        axis += 1;
    }
}

/// Visits one face: unless both of its cells are leaves, puts the faces below
/// it on the stack of faces and the edges that lie in it on the stack of edges.
fn contour_face_interior(octree: &mut CellOctree, face: Face)
    requires
        cells_wf(old(octree).all_cells@),
        face_ok(old(octree).all_cells@, face),
    ensures
        final(octree).all_cells@ == old(octree).all_cells@,
        final(octree).root_id == old(octree).root_id,
        final(octree).cell_stack@ == old(octree).cell_stack@,
        face_is_terminal(old(octree).all_cells@, face) ==> {
            &&& final(octree).face_stack@ == old(octree).face_stack@
            &&& final(octree).edge_stack@ == old(octree).edge_stack@
        },
        !face_is_terminal(old(octree).all_cells@, face) ==> {
            &&& final(octree).face_stack@ == old(octree).face_stack@ + sub_faces(
                old(octree).all_cells@,
                face,
                4,
            )
            &&& final(octree).edge_stack@ == old(octree).edge_stack@ + face_edges(
                old(octree).all_cells@,
                face,
                4,
            )
        },
{
    let ghost cells = octree.all_cells@;
    let ghost face_stack = octree.face_stack@;
    let ghost edge_stack = octree.edge_stack@;
    if octree.all_cells[face.cells[0] as usize].is_leaf
        && octree.all_cells[face.cells[1] as usize].is_leaf {
        // No edges on the face interior.
        return ;
    }
    // Split both sides. A leaf takes part again and so fills two slots of an
    // edge; the triangle that would join it to itself is left out later.
    let mut face_i: usize = 0;
    while face_i < 4
        invariant
            face_i <= 4,
            face_ok(cells, face),
            octree.all_cells@ == cells,
            octree.root_id == old(octree).root_id,
            octree.cell_stack@ == old(octree).cell_stack@,
            octree.edge_stack@ == edge_stack,
            octree.face_stack@ == face_stack + sub_faces(cells, face, face_i as nat),
        decreases 4 - face_i,
    {
        let o = FACE_ADJACENT_OCTANTS[face.axis][face_i];
        // The two cells meet in the octants that mirror each other across the face.
        let (minus, _) = get_child_cell_id(octree, face.cells[0], o[1]);
        let (plus, _) = get_child_cell_id(octree, face.cells[1], o[0]);
        if let (Some(f0), Some(f1)) = (minus, plus) {
            octree.face_stack.push(Face { axis: face.axis, cells: [f0, f1] });
        }
        face_i += 1;
        assert(octree.face_stack@ =~= face_stack + sub_faces(cells, face, face_i as nat));
    }
    let mut edge_i: usize = 0;
    while edge_i < 4
        invariant
            edge_i <= 4,
            face_ok(cells, face),
            octree.all_cells@ == cells,
            octree.root_id == old(octree).root_id,
            octree.cell_stack@ == old(octree).cell_stack@,
            octree.face_stack@ == face_stack + sub_faces(cells, face, 4),
            octree.edge_stack@ == edge_stack + face_edges(cells, face, edge_i as nat),
        decreases 4 - edge_i,
    {
        let o = FACE_TO_EDGE_ADJACENT_OCTANTS[face.axis][edge_i];
        // The side of the face from which each slot of the edge is filled, and
        // the octant of the quartet in which the cell of that side takes part.
        let order = FACE_TO_EDGE_NODE_ORDERS[edge_i];
        let mirror = FACE_TO_EDGE_MIRRORS[edge_i];
        let (c0, d0) = get_child_cell_id(octree, face.cells[order[0]], o[mirror[0]]);
        let (c1, d1) = get_child_cell_id(octree, face.cells[order[1]], o[mirror[1]]);
        let (c2, d2) = get_child_cell_id(octree, face.cells[order[2]], o[mirror[2]]);
        let (c3, d3) = get_child_cell_id(octree, face.cells[order[3]], o[mirror[3]]);
        // The axis of the edge is not that of the face.
        let edge_axis = FACE_TO_EDGE_AXIS[face.axis][edge_i];
        if let (Some(e0), Some(e1), Some(e2), Some(e3)) = (c0, c1, c2, c3) {
            octree.edge_stack.push(
                Edge { axis: edge_axis, cells: [e0, e1, e2, e3], is_duplicate: [d0, d1, d2, d3] },
            );
        }
        edge_i += 1;
        assert(octree.edge_stack@ =~= edge_stack + face_edges(cells, face, edge_i as nat));
    }
}

/// Emits the facet around an edge between four leaves, if the field changes
/// sign along the edge.
fn visit_leaf_edge(octree: &CellOctree, edge: Edge, facets: &mut Vec<Facet>)
    requires
        edge_ok(octree.all_cells@, edge),
    ensures
        final(facets)@ == old(facets)@ + (match leaf_edge_facet(octree.all_cells@, edge) {
            Some(facet) => seq![facet],
            None => Seq::empty(),
        }),
{
    let ghost cells = octree.all_cells@;
    // The samples of the smallest cell tell whether the field changes sign
    // along this edge.
    let mut min_cell: usize = 0;
    let mut max_depth: u8 = 0;
    let mut i: usize = 0;
    while i < 4
        invariant
            i <= 4,
            min_cell < 4,
            octree.all_cells@ == cells,
            edge_ok(cells, edge),
            forall|j: int|
                0 <= j < i ==> cells[(#[trigger] edge.cells[j]) as int].depth <= max_depth,
            (max_depth == 0 && min_cell == 0) || {
                &&& min_cell < i
                &&& cells[edge.cells[min_cell as int] as int].depth == max_depth
                &&& forall|j: int|
                    0 <= j < min_cell ==> cells[(#[trigger] edge.cells[j]) as int].depth < max_depth
            },
        decreases 4 - i,
    {
        let depth = octree.all_cells[edge.cells[i] as usize].depth;
        if depth > max_depth {
            max_depth = depth;
            min_cell = i;
        }
        i += 1;
    }
    assert(min_cell == deepest_slot(cells, edge)) by {
        let _ = edge.cells[0];
        let _ = edge.cells[1];
        let _ = edge.cells[2];
        let _ = edge.cells[3];
    }
    // The edge lies at the corner of that cell that is opposite its slot.
    let octants = EDGE_ADJACENT_OCTANTS[edge.axis];
    let opposite_corner: usize = 3 - min_cell;
    let c0 = octants[0][opposite_corner];
    let c1 = octants[1][opposite_corner];
    let samples = &octree.all_cells[edge.cells[min_cell] as usize].samples;
    let d0 = samples[c0 as usize];
    let d1 = samples[c1 as usize];
    let flip = match (negative(d0), negative(d1)) {
        (true, false) => true,
        (false, true) => false,
        _ => {
            // The field does not change sign here.
            assert(old(facets)@ + Seq::<Facet>::empty() =~= old(facets)@);
            return ;
        },
    };
    // A leaf that fills two slots would make one of the two triangles of the
    // quad degenerate. The two triangles share a diagonal, on which no such
    // leaf lies, so at most one of them is.
    let c = edge.cells;
    let d = edge.is_duplicate;
    let first_tri_num_dups: u8 = (if d[0] {
        1u8
    } else {
        0u8
    }) + (if d[2] {
        1u8
    } else {
        0u8
    }) + (if d[1] {
        1u8
    } else {
        0u8
    });
    let facet = if first_tri_num_dups > 0 {
        if first_tri_num_dups == 1 {
            if flip {
                Facet::Triangle([c[0], c[1], c[2]])
            } else {
                Facet::Triangle([c[0], c[2], c[1]])
            }
        } else {
            if flip {
                Facet::Triangle([c[1], c[3], c[2]])
            } else {
                Facet::Triangle([c[1], c[2], c[3]])
            }
        }
    } else {
        if flip {
            Facet::Quad([c[2], c[3], c[0], c[1]])
        } else {
            Facet::Quad(c)
        }
    };
    assert(c =~= [c[0], c[1], c[2], c[3]]);
    assert(leaf_edge_facet(cells, edge) == Some(facet));
    facets.push(facet);
    assert(facets@ =~= old(facets)@ + seq![facet]);
}

/// Visits one edge: emits its facet if its four cells are leaves, and puts the
/// edges below it on the stack of edges otherwise.
fn contour_edge_interior(octree: &mut CellOctree, edge: Edge, facets: &mut Vec<Facet>)
    requires
        cells_wf(old(octree).all_cells@),
        edge_ok(old(octree).all_cells@, edge),
    ensures
        final(octree).all_cells@ == old(octree).all_cells@,
        final(octree).root_id == old(octree).root_id,
        final(octree).cell_stack@ == old(octree).cell_stack@,
        final(octree).face_stack@ == old(octree).face_stack@,
        edge_is_terminal(old(octree).all_cells@, edge) ==> {
            &&& final(octree).edge_stack@ == old(octree).edge_stack@
            &&& final(facets)@ == old(facets)@ + (match leaf_edge_facet(
                old(octree).all_cells@,
                edge,
            ) {
                Some(facet) => seq![facet],
                None => Seq::empty(),
            })
        },
        !edge_is_terminal(old(octree).all_cells@, edge) ==> {
            &&& final(facets)@ == old(facets)@
            &&& final(octree).edge_stack@ == old(octree).edge_stack@ + sub_edges(
                old(octree).all_cells@,
                edge,
                2,
            )
        },
{
    let ghost cells = octree.all_cells@;
    let ghost edge_stack = octree.edge_stack@;
    let axis = edge.axis;
    assert(edge.cells[0] < cells.len() && edge.cells[1] < cells.len() && edge.cells[2]
        < cells.len() && edge.cells[3] < cells.len());
    if octree.all_cells[edge.cells[0] as usize].is_leaf
        && octree.all_cells[edge.cells[1] as usize].is_leaf
        && octree.all_cells[edge.cells[2] as usize].is_leaf
        && octree.all_cells[edge.cells[3] as usize].is_leaf {
        visit_leaf_edge(octree, edge, facets);
    } else {
        // This edge must be bisected further.
        let mut edge_i: usize = 0;
        while edge_i < 2
            invariant
                edge_i <= 2,
                axis == edge.axis,
                edge_ok(cells, edge),
                octree.all_cells@ == cells,
                octree.root_id == old(octree).root_id,
                octree.cell_stack@ == old(octree).cell_stack@,
                octree.face_stack@ == old(octree).face_stack@,
                octree.edge_stack@ == edge_stack + sub_edges(cells, edge, edge_i as nat),
            decreases 2 - edge_i,
        {
            let o = EDGE_ADJACENT_OCTANTS[axis][edge_i];
            assert(edge.cells[0] < cells.len() && edge.cells[1] < cells.len() && edge.cells[2]
                < cells.len() && edge.cells[3] < cells.len());
            // The four cells meet in the octants that lie diagonally opposite
            // their slots.
            let (c0, _) = get_child_cell_id(octree, edge.cells[0], o[3]);
            let (c1, _) = get_child_cell_id(octree, edge.cells[1], o[2]);
            let (c2, _) = get_child_cell_id(octree, edge.cells[2], o[1]);
            let (c3, _) = get_child_cell_id(octree, edge.cells[3], o[0]);
            if let (Some(e0), Some(e1), Some(e2), Some(e3)) = (c0, c1, c2, c3) {
                octree.edge_stack.push(
                    Edge { axis, cells: [e0, e1, e2, e3], is_duplicate: edge.is_duplicate },
                );
            }
            edge_i += 1;
            assert(octree.edge_stack@ =~= edge_stack + sub_edges(cells, edge, edge_i as nat));
        }
    }
}

/// The outcome of a contour: the leaves in the order in which they were
/// visited, and the facets in the order in which they were emitted.
#[derive(Debug)]
pub struct Contour {
    pub leaves: Vec<CellId>,
    pub facets: Vec<Facet>,
}

impl CellOctree {
    /// Contours the octree: finds every leaf that can be reached from the root
    /// without passing through a leaf, each once, and one quad or triangle for
    /// every edge between four such leaves along which the field changes sign.
    /// No facet joins a cell to itself.
    pub fn contour(&mut self) -> (contour: Contour)
        requires
            old(self).wf(),
        ensures
            final(self).cells() == old(self).cells(),
            final(self).root() == old(self).root(),
            contour.leaves@ == contour_leaves(old(self).cells(), old(self).root()),
            contour.facets@ == contour_facets(old(self).cells(), old(self).root()),
            forall|k: int|
                0 <= k < contour.leaves@.len() ==> (#[trigger] contour.leaves@[k]) < old(
                    self,
                ).cells().len() && old(self).cells()[contour.leaves@[k] as int].is_leaf,
            contour.leaves@.no_duplicates(),
            forall|id: CellId|
                #[trigger] contour.leaves@.contains(id) <==> id < old(self).cells().len() && old(
                    self,
                ).cells()[id as int].is_leaf && reachable(
                    old(self).cells(),
                    old(self).root(),
                    id,
                ),
            forall|k: int|
                0 <= k < contour.facets@.len() ==> facet_distinct(#[trigger] contour.facets@[k]),
            forall|k: int|
                0 <= k < contour.facets@.len() ==> facet_among(
                    #[trigger] contour.facets@[k],
                    contour.leaves@,
                ),
    {
        proof {
            self.lemma_fields();
        }
        let ghost cells = self.all_cells@;
        let ghost root = self.root_id;
        self.clear_stacks();
        let mut leaves: Vec<CellId> = Vec::new();
        let mut facets: Vec<Facet> = Vec::new();

        // Every edge of the octree on which the field changes sign lies within
        // a cell, within a face between two cells or between four cells. The
        // three stacks are emptied in this order, since cells yield faces and
        // edges, and faces yield edges.
        self.cell_stack.push(self.root_id);
        assert(self.cell_stack@ =~= seq![root]);
        assert(self.cell_stack@.drop_last() =~= Seq::<CellId>::empty());
        assert(self.face_stack@ =~= Seq::<Face>::empty());
        assert(self.edge_stack@ =~= Seq::<Edge>::empty());
        assert(cell_stack_walk(cells, self.cell_stack@.drop_last()) == CellWalk::empty());
        assert(cell_stack_walk(cells, self.cell_stack@) == cell_walk(cells, root).followed_by(
            CellWalk::empty(),
        ));
        assert(leaves@ + cell_stack_walk(cells, self.cell_stack@).leaves =~= cell_walk(
            cells,
            root,
        ).leaves);
        assert(self.face_stack@ + cell_stack_walk(cells, self.cell_stack@).faces =~= cell_walk(
            cells,
            root,
        ).faces);
        assert(self.edge_stack@ + cell_stack_walk(cells, self.cell_stack@).edges =~= cell_walk(
            cells,
            root,
        ).edges);
        while self.cell_stack.len() > 0
            invariant
                self.all_cells@ == cells,
                self.root_id == root,
                cells_wf(cells),
                root < cells.len(),
                cell_stack_ok(cells, self.cell_stack@),
                face_stack_ok(cells, self.face_stack@),
                edge_stack_ok(cells, self.edge_stack@),
                cell_stack_reached(cells, root, self.cell_stack@),
                face_stack_reached(cells, root, self.face_stack@),
                edge_stack_reached(cells, root, self.edge_stack@),
                forall|k: int|
                    0 <= k < leaves@.len() ==> (#[trigger] leaves@[k]) < cells.len()
                        && cells[leaves@[k] as int].is_leaf,
                leaves@ + cell_stack_walk(cells, self.cell_stack@).leaves == cell_walk(
                    cells,
                    root,
                ).leaves,
                self.face_stack@ + cell_stack_walk(cells, self.cell_stack@).faces == cell_walk(
                    cells,
                    root,
                ).faces,
                self.edge_stack@ + cell_stack_walk(cells, self.cell_stack@).edges == cell_walk(
                    cells,
                    root,
                ).edges,
            decreases cell_stack_walk(cells, self.cell_stack@).visits,
        {
            let ghost stack = self.cell_stack@;
            let ghost found_leaves = leaves@;
            let ghost found_faces = self.face_stack@;
            let ghost found_edges = self.edge_stack@;
            let cell = self.cell_stack.pop().unwrap();
            let ghost below = self.cell_stack@;
            assert(below =~= stack.drop_last());
            assert(cell == stack.last());
            assert(cell < cells.len());
            contour_cell_interior(self, cell, &mut leaves);
            proof {
                let rest = cell_stack_walk(cells, below);
                let this = cell_walk(cells, cell);
                if cells[cell as int].is_leaf {
                    assert(leaves@ + rest.leaves =~= found_leaves + this.followed_by(rest).leaves);
                    assert(self.face_stack@ + rest.faces =~= found_faces + this.followed_by(
                        rest,
                    ).faces);
                    assert(self.edge_stack@ + rest.edges =~= found_edges + this.followed_by(
                        rest,
                    ).edges);
                } else {
                    lemma_cell_stack_children(cells, below, cell, 8);
                    lemma_present_children_ok(cells, cell, 8);
                    lemma_interior_faces_ok(cells, cell, 12);
                    lemma_interior_edges_ok(cells, cell, 6);
                    lemma_present_children_reached(cells, root, cell, 8);
                    lemma_interior_faces_reached(cells, root, cell, 12);
                    lemma_interior_edges_reached(cells, root, cell, 6);
                    let sub = children_walk(cells, cell, 8);
                    assert(leaves@ + sub.followed_by(rest).leaves =~= found_leaves
                        + this.followed_by(rest).leaves);
                    assert(self.face_stack@ + sub.followed_by(rest).faces =~= found_faces
                        + this.followed_by(rest).faces);
                    assert(self.edge_stack@ + sub.followed_by(rest).edges =~= found_edges
                        + this.followed_by(rest).edges);
                }
            }
        }
        let ghost cell_faces = self.face_stack@;
        let ghost cell_edges = self.edge_stack@;
        assert(cell_faces =~= cell_walk(cells, root).faces);
        assert(cell_edges =~= cell_walk(cells, root).edges);
        assert(leaves@ =~= cell_walk(cells, root).leaves);

        // The edges in the faces between cells.
        while self.face_stack.len() > 0
            invariant
                self.all_cells@ == cells,
                self.root_id == root,
                cells_wf(cells),
                root < cells.len(),
                face_stack_ok(cells, self.face_stack@),
                edge_stack_ok(cells, self.edge_stack@),
                face_stack_reached(cells, root, self.face_stack@),
                edge_stack_reached(cells, root, self.edge_stack@),
                self.edge_stack@ + face_stack_walk(cells, self.face_stack@).edges == cell_edges
                    + face_stack_walk(cells, cell_faces).edges,
            decreases face_stack_walk(cells, self.face_stack@).visits,
        {
            let ghost stack = self.face_stack@;
            let ghost found_edges = self.edge_stack@;
            let face = self.face_stack.pop().unwrap();
            let ghost below = self.face_stack@;
            assert(below =~= stack.drop_last());
            assert(face == stack.last());
            assert(face_ok(cells, face));
            contour_face_interior(self, face);
            proof {
                let rest = face_stack_walk(cells, below);
                let this = face_walk(cells, face);
                if face_is_terminal(cells, face) {
                    assert(self.edge_stack@ + rest.edges =~= found_edges + this.followed_by(
                        rest,
                    ).edges);
                } else {
                    lemma_face_stack_sub_faces(cells, below, face, 4);
                    lemma_sub_faces_ok(cells, face, 4);
                    lemma_face_edges_ok(cells, face, 4);
                    lemma_sub_faces_reached(cells, root, face, 4);
                    lemma_face_edges_reached(cells, root, face, 4);
                    let sub = sub_faces_walk(cells, face, 4);
                    assert(self.edge_stack@ + sub.followed_by(rest).edges =~= found_edges
                        + this.followed_by(rest).edges);
                }
            }
        }
        let ghost all_edges = self.edge_stack@;
        assert(all_edges =~= contour_edges(cells, root));

        // The facets around the edges between cells.
        while self.edge_stack.len() > 0
            invariant
                self.all_cells@ == cells,
                self.root_id == root,
                cells_wf(cells),
                root < cells.len(),
                edge_stack_ok(cells, self.edge_stack@),
                edge_stack_reached(cells, root, self.edge_stack@),
                leaves@ == contour_leaves(cells, root),
                forall|k: int| 0 <= k < facets@.len() ==> facet_distinct(#[trigger] facets@[k]),
                forall|k: int|
                    0 <= k < facets@.len() ==> facet_among(#[trigger] facets@[k], leaves@),
                facets@ + edge_stack_walk(cells, self.edge_stack@).facets == edge_stack_walk(
                    cells,
                    all_edges,
                ).facets,
            decreases edge_stack_walk(cells, self.edge_stack@).visits,
        {
            let ghost stack = self.edge_stack@;
            let ghost found_facets = facets@;
            let edge = self.edge_stack.pop().unwrap();
            let ghost below = self.edge_stack@;
            assert(below =~= stack.drop_last());
            assert(edge == stack.last());
            assert(edge_ok(cells, edge));
            contour_edge_interior(self, edge, &mut facets);
            proof {
                let rest = edge_stack_walk(cells, below);
                let this = edge_walk(cells, edge);
                if edge_is_terminal(cells, edge) {
                    if leaf_edge_facet(cells, edge).is_some() {
                        lemma_leaf_edge_facet_distinct(cells, edge);
                        lemma_leaf_edge_facet_among(cells, root, edge);
                    }
                    assert(facets@ + rest.facets =~= found_facets + this.followed_by(
                        rest,
                    ).facets);
                } else {
                    lemma_edge_stack_sub_edges(cells, below, edge, 2);
                    lemma_sub_edges_ok(cells, edge, 2);
                    lemma_sub_edges_reached(cells, root, edge, 2);
                    let sub = sub_edges_walk(cells, edge, 2);
                    assert(facets@ + sub.followed_by(rest).facets =~= found_facets
                        + this.followed_by(rest).facets);
                }
            }
        }
        assert(facets@ =~= contour_facets(cells, root));
        proof {
            lemma_walk_visits_once(cells, root);
            assert forall|id: CellId| #[trigger]
                leaves@.contains(id) <==> id < cells.len() && cells[id as int].is_leaf && reachable(
                    cells,
                    root,
                    id,
                ) by {
                if leaves@.contains(id) {
                    lemma_visited_is_reachable_leaf(cells, root, id);
                }
                if id < cells.len() && cells[id as int].is_leaf && reachable(cells, root, id) {
                    lemma_reachable_leaf_is_visited(cells, root, id);
                }
            }
            self.lemma_fields();
        }
        Contour { leaves, facets }
    }
}

/// A receiver of what a contour finds.
pub trait ContourVisitor {
    /// Takes a leaf of the contour. The visitor may settle the vertex of the
    /// cell and give it a vertex of a mesh: what it makes of `vertex_estimate`,
    /// `qef_error` and `mesh_vertex_id` is kept in the octree, whatever else it
    /// does to the cell is not.
    fn visit_leaf_cell(&mut self, cell_id: CellId, cell: &mut Cell);

    /// Takes a quad of the contour, by its four cells.
    fn visit_quad(&mut self, cells: [CellId; 4]);

    /// Takes a triangle of the contour, by its three cells.
    fn visit_triangle(&mut self, cells: [CellId; 3]);
}

/// Whether `after` is the cell `before` but for its vertex, the error of its
/// vertex and its mesh vertex.
pub open spec fn same_but_vertex(before: Cell, after: Cell) -> bool {
    after == (Cell {
        vertex_estimate: after.vertex_estimate,
        qef_error: after.qef_error,
        mesh_vertex_id: after.mesh_vertex_id,
        ..before
    })
}

impl CellOctree {
    /// Contours the octree and hands what is found to the visitor: first every
    /// leaf, in the order of `contour_leaves`, then every facet, in the order
    /// of `contour_facets`. What was handed over is returned as well.
    ///
    /// The octree is as before but for the vertices of the leaves that were
    /// visited.
    pub fn dual_contour<V: ContourVisitor>(&mut self, visitor: &mut V) -> (contour: Contour)
        requires
            old(self).wf(),
        ensures
            final(self).wf(),
            final(self).root() == old(self).root(),
            final(self).cells().len() == old(self).cells().len(),
            forall|id: int|
                0 <= id < old(self).cells().len() ==> same_but_vertex(
                    old(self).cells()[id],
                    #[trigger] final(self).cells()[id],
                ),
            forall|id: int|
                0 <= id < old(self).cells().len() && !contour.leaves@.contains(id as CellId)
                    ==> #[trigger] final(self).cells()[id] == old(self).cells()[id],
            contour.leaves@ == contour_leaves(old(self).cells(), old(self).root()),
            contour.facets@ == contour_facets(old(self).cells(), old(self).root()),
            forall|k: int|
                0 <= k < contour.leaves@.len() ==> (#[trigger] contour.leaves@[k]) < old(
                    self,
                ).cells().len() && old(self).cells()[contour.leaves@[k] as int].is_leaf,
            contour.leaves@.no_duplicates(),
            forall|id: CellId|
                #[trigger] contour.leaves@.contains(id) <==> id < old(self).cells().len() && old(
                    self,
                ).cells()[id as int].is_leaf && reachable(
                    old(self).cells(),
                    old(self).root(),
                    id,
                ),
            forall|k: int|
                0 <= k < contour.facets@.len() ==> facet_distinct(#[trigger] contour.facets@[k]),
            forall|k: int|
                0 <= k < contour.facets@.len() ==> facet_among(
                    #[trigger] contour.facets@[k],
                    contour.leaves@,
                ),
    {
        proof {
            self.lemma_fields();
        }
        let contour = self.contour();
        proof {
            self.lemma_fields();
        }
        let ghost cells = self.all_cells@;
        let mut i: usize = 0;
        while i < contour.leaves.len()
            invariant
                i <= contour.leaves@.len(),
                self.root_id == old(self).root_id,
                self.root_id < cells.len(),
                self.all_cells@.len() == cells.len(),
                forall|k: int|
                    0 <= k < contour.leaves@.len() ==> (#[trigger] contour.leaves@[k])
                        < cells.len(),
                forall|id: int|
                    0 <= id < cells.len() ==> same_but_vertex(
                        cells[id],
                        #[trigger] self.all_cells@[id],
                    ),
                forall|id: int|
                    0 <= id < cells.len() && !contour.leaves@.subrange(0, i as int).contains(
                        id as CellId,
                    ) ==> #[trigger] self.all_cells@[id] == cells[id],
            decreases contour.leaves@.len() - i,
        {
            let ghost before = self.all_cells@;
            let cell_id = contour.leaves[i];
            let mut cell = self.all_cells[cell_id as usize];
            visitor.visit_leaf_cell(cell_id, &mut cell);
            let mut kept = self.all_cells[cell_id as usize];
            kept.vertex_estimate = cell.vertex_estimate;
            kept.qef_error = cell.qef_error;
            kept.mesh_vertex_id = cell.mesh_vertex_id;
            self.all_cells[cell_id as usize] = kept;
            i += 1;
            proof {
                let visited = contour.leaves@.subrange(0, i as int);
                assert(visited[i - 1] == cell_id);
                assert forall|id: int|
                    0 <= id < cells.len() && !visited.contains(
                        id as CellId,
                    ) implies #[trigger] self.all_cells@[id] == cells[id] by {
                    let earlier = contour.leaves@.subrange(0, i - 1);
                    if earlier.contains(id as CellId) {
                        let k = choose|k: int|
                            0 <= k < earlier.len() && #[trigger] earlier[k] == id as CellId;
                        assert(visited[k] == id as CellId);
                    }
                    assert(self.all_cells@[id] == before[id]);
                }
            }
        }
        proof {
            assert(contour.leaves@.subrange(0, i as int) =~= contour.leaves@);
            assert forall|id: int| 0 <= id < cells.len() implies (
            #[trigger] self.all_cells@[id]).children == cells[id].children by {
                assert(same_but_vertex(cells[id], self.all_cells@[id]));
            }
            lemma_wf_keeps_children(cells, self.all_cells@);
            self.lemma_fields();
        }
        let mut k: usize = 0;
        while k < contour.facets.len()
            invariant
                k <= contour.facets@.len(),
            decreases contour.facets@.len() - k,
        {
            match contour.facets[k] {
                Facet::Quad(quad) => visitor.visit_quad(quad),
                Facet::Triangle(triangle) => visitor.visit_triangle(triangle),
            }
            k += 1;
        }
        contour
    }
}

} // verus!
