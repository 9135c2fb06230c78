//! The walk of a contour over an octree, as a mathematical object.
//!
//! A contour visits cells, then the faces between cells, then the edges
//! between cells. What it visits and in which order is laid down here by
//! recursion over the octree; the stacks on which the contour works are shown
//! elsewhere to come to the same.
use crate::cell_octree::{apart, cells_wf, child, subtree_low, Cell, CellId, Edge, Face, Facet};
use crate::scalar::{is_negative, Scalar};
use crate::tables::{
    EDGE_ADJACENT_OCTANTS, FACE_ADJACENT_OCTANTS, FACE_TO_EDGE_ADJACENT_OCTANTS, FACE_TO_EDGE_AXIS,
    FACE_TO_EDGE_MIRRORS, FACE_TO_EDGE_NODE_ORDERS,
};
use vstd::prelude::*;

verus! {

/// The cell that takes part below `parent` in `octant`: a leaf takes part
/// again as itself, another cell through its child in that octant, if it has
/// one.
pub open spec fn participant(cells: Seq<Cell>, parent: CellId, octant: int) -> Option<CellId> {
    if cells[parent as int].is_leaf {
        Some(parent)
    } else {
        child(cells, parent as int, octant)
    }
}

/// A face between two cells of the octree that lie apart.
pub open spec fn face_ok(cells: Seq<Cell>, f: Face) -> bool {
    &&& f.axis < 3
    &&& f.cells[0] < cells.len()
    &&& f.cells[1] < cells.len()
    &&& apart(cells, f.cells[0] as int, f.cells[1] as int)
}

/// Slots `i` and `j` of the edge hold cells that lie apart, or both are marked
/// as duplicates and hold the same cell.
pub open spec fn slots_ok(cells: Seq<Cell>, e: Edge, i: int, j: int) -> bool {
    if e.is_duplicate[i] && e.is_duplicate[j] {
        e.cells[i] == e.cells[j]
    } else {
        apart(cells, e.cells[i] as int, e.cells[j] as int)
    }
}

/// The marks of an edge are those of no cell, or of two cells that are
/// neighbours across a face: never of a diagonal pair, never of more than two.
pub open spec fn marks_ok(e: Edge) -> bool {
    let d = e.is_duplicate;
    ||| (!d[0] && !d[1] && !d[2] && !d[3])
    ||| (d[0] && d[1] && !d[2] && !d[3])
    ||| (!d[0] && !d[1] && d[2] && d[3])
    ||| (d[0] && !d[1] && d[2] && !d[3])
    ||| (!d[0] && d[1] && !d[2] && d[3])
}

/// An edge between four cells of the octree, of which a cell is marked as a
/// duplicate exactly if it is a leaf that fills two slots; the cells of
/// different slots lie apart otherwise.
pub open spec fn edge_ok(cells: Seq<Cell>, e: Edge) -> bool {
    &&& e.axis < 3
    &&& forall|i: int| 0 <= i < 4 ==> (#[trigger] e.cells[i]) < cells.len()
    &&& forall|i: int|
        0 <= i < 4 && #[trigger] e.is_duplicate[i] ==> cells[e.cells[i] as int].is_leaf
    &&& marks_ok(e)
    &&& slots_ok(cells, e, 0, 1)
    &&& slots_ok(cells, e, 0, 2)
    &&& slots_ok(cells, e, 0, 3)
    &&& slots_ok(cells, e, 1, 2)
    &&& slots_ok(cells, e, 1, 3)
    &&& slots_ok(cells, e, 2, 3)
}

/// The face between the two children of cell `id` in the `face`-th pair of
/// octants that are adjacent along `axis`, if both children are present.
pub open spec fn interior_face(cells: Seq<Cell>, id: CellId, axis: int, face: int) -> Option<Face> {
    let o = FACE_ADJACENT_OCTANTS[axis][face];
    match (child(cells, id as int, o[0] as int), child(cells, id as int, o[1] as int)) {
        (Some(f0), Some(f1)) => Some(Face { axis: axis as usize, cells: [f0, f1] }),
        _ => None,
    }
}

/// The first `n` of the up to twelve faces between the children of a cell: axis
/// by axis, four pairs of octants each.
pub open spec fn interior_faces(cells: Seq<Cell>, id: CellId, n: nat) -> Seq<Face>
    decreases n,
{
    if n == 0 {
        Seq::empty()
    } else {
        let k = (n - 1) as int;
        let before = interior_faces(cells, id, k as nat);
        match interior_face(cells, id, k / 4, k % 4) {
            Some(f) => before.push(f),
            None => before,
        }
    }
}

/// The edge between the four children of cell `id` in the quartet of octants
/// around the inner edge along `axis` in the given half, if all four are
/// present. No cell is a duplicate on it.
pub open spec fn interior_edge(cells: Seq<Cell>, id: CellId, axis: int, half: int) -> Option<Edge> {
    let o = EDGE_ADJACENT_OCTANTS[axis][half];
    match (
        child(cells, id as int, o[0] as int),
        child(cells, id as int, o[1] as int),
        child(cells, id as int, o[2] as int),
        child(cells, id as int, o[3] as int),
    ) {
        (Some(e0), Some(e1), Some(e2), Some(e3)) => Some(
            Edge {
                axis: axis as usize,
                cells: [e0, e1, e2, e3],
                is_duplicate: [false, false, false, false],
            },
        ),
        _ => None,
    }
}

/// The first `n` of the up to six edges between the children of a cell: axis by
/// axis, two halves each.
pub open spec fn interior_edges(cells: Seq<Cell>, id: CellId, n: nat) -> Seq<Edge>
    decreases n,
{
    if n == 0 {
        Seq::empty()
    } else {
        let k = (n - 1) as int;
        let before = interior_edges(cells, id, k as nat);
        match interior_edge(cells, id, k / 2, k % 2) {
            Some(e) => before.push(e),
            None => before,
        }
    }
}

/// The present children of a cell in its first `n` octants, in the order of
/// the octants.
pub open spec fn present_children(cells: Seq<Cell>, id: CellId, n: nat) -> Seq<CellId>
    decreases n,
{
    if n == 0 {
        Seq::empty()
    } else {
        let before = present_children(cells, id, (n - 1) as nat);
        match child(cells, id as int, n - 1) {
            Some(c) => before.push(c),
            None => before,
        }
    }
}

/// What the walk over a set of cells yields: the leaves in the order in which
/// they are visited, the faces and the edges in the order in which they are
/// found, and the number of cells visited.
pub struct CellWalk {
    pub leaves: Seq<CellId>,
    pub faces: Seq<Face>,
    pub edges: Seq<Edge>,
    pub visits: nat,
}

impl CellWalk {
    pub open spec fn empty() -> Self {
        CellWalk { leaves: Seq::empty(), faces: Seq::empty(), edges: Seq::empty(), visits: 0 }
    }

    /// This walk followed by `next`.
    pub open spec fn followed_by(self, next: Self) -> Self {
        CellWalk {
            leaves: self.leaves + next.leaves,
            faces: self.faces + next.faces,
            edges: self.edges + next.edges,
            visits: self.visits + next.visits,
        }
    }
}

/// The walk over the subtree of a cell. A leaf is visited and ends the walk. Of
/// another cell the faces and edges between its children are found, and then
/// the subtrees of its children are walked, the highest octant first.
pub open spec fn cell_walk(cells: Seq<Cell>, id: CellId) -> CellWalk
    decreases id, 9nat,
    when cells_wf(cells) && id < cells.len()
{
    if cells[id as int].is_leaf {
        CellWalk { leaves: seq![id], faces: Seq::empty(), edges: Seq::empty(), visits: 1 }
    } else {
        CellWalk {
            leaves: Seq::empty(),
            faces: interior_faces(cells, id, 12),
            edges: interior_edges(cells, id, 6),
            visits: 1,
        }.followed_by(children_walk(cells, id, 8))
    }
}

/// The walks over the subtrees of the children of a cell in its first `n`
/// octants, the highest octant first.
pub open spec fn children_walk(cells: Seq<Cell>, id: CellId, n: nat) -> CellWalk
    decreases id, n,
    when cells_wf(cells) && id < cells.len() && n <= 8
{
    if n == 0 {
        CellWalk::empty()
    } else {
        let rest = children_walk(cells, id, (n - 1) as nat);
        match child(cells, id as int, n - 1) {
            Some(c) => cell_walk(cells, c).followed_by(rest),
            None => rest,
        }
    }
}

/// The walk that empties a stack of cells, the top of the stack (its last
/// cell) first.
pub open spec fn cell_stack_walk(cells: Seq<Cell>, stack: Seq<CellId>) -> CellWalk
    decreases stack.len(),
{
    if stack.len() == 0 {
        CellWalk::empty()
    } else {
        cell_walk(cells, stack.last()).followed_by(cell_stack_walk(cells, stack.drop_last()))
    }
}

/// The face below face `f` in the `i`-th pair of octants adjacent along the
/// axis of `f`: the cell on the negative side takes part in its octant on the
/// positive side and the other way round, since the two cells meet there.
pub open spec fn sub_face(cells: Seq<Cell>, f: Face, i: int) -> Option<Face> {
    let o = FACE_ADJACENT_OCTANTS[f.axis as int][i];
    match (
        participant(cells, f.cells[0], o[1] as int),
        participant(cells, f.cells[1], o[0] as int),
    ) {
        (Some(f0), Some(f1)) => Some(Face { axis: f.axis, cells: [f0, f1] }),
        _ => None,
    }
}

/// The first `n` of the up to four faces below a face.
pub open spec fn sub_faces(cells: Seq<Cell>, f: Face, n: nat) -> Seq<Face>
    decreases n,
{
    if n == 0 {
        Seq::empty()
    } else {
        let before = sub_faces(cells, f, (n - 1) as nat);
        match sub_face(cells, f, n - 1) {
            Some(s) => before.push(s),
            None => before,
        }
    }
}

/// The cell in slot `k` of the `i`-th edge that lies in face `f`.
pub open spec fn face_edge_cell(cells: Seq<Cell>, f: Face, i: int, k: int) -> Option<CellId> {
    let o = FACE_TO_EDGE_ADJACENT_OCTANTS[f.axis as int][i];
    let side = FACE_TO_EDGE_NODE_ORDERS[i][k];
    participant(cells, f.cells[side as int], o[FACE_TO_EDGE_MIRRORS[i][k] as int] as int)
}

/// Whether slot `k` of the `i`-th edge that lies in face `f` is filled by a
/// leaf, which then fills the other slot on its side of the face too.
pub open spec fn face_edge_mark(cells: Seq<Cell>, f: Face, i: int, k: int) -> bool {
    cells[f.cells[FACE_TO_EDGE_NODE_ORDERS[i][k] as int] as int].is_leaf
}

/// The `i`-th of the four edges that lie in face `f`, if a cell takes part in
/// each of its four slots.
pub open spec fn face_edge(cells: Seq<Cell>, f: Face, i: int) -> Option<Edge> {
    match (
        face_edge_cell(cells, f, i, 0),
        face_edge_cell(cells, f, i, 1),
        face_edge_cell(cells, f, i, 2),
        face_edge_cell(cells, f, i, 3),
    ) {
        (Some(e0), Some(e1), Some(e2), Some(e3)) => Some(
            Edge {
                axis: FACE_TO_EDGE_AXIS[f.axis as int][i],
                cells: [e0, e1, e2, e3],
                is_duplicate: [
                    face_edge_mark(cells, f, i, 0),
                    face_edge_mark(cells, f, i, 1),
                    face_edge_mark(cells, f, i, 2),
                    face_edge_mark(cells, f, i, 3),
                ],
            },
        ),
        _ => None,
    }
}

/// The first `n` of the up to four edges that lie in a face.
pub open spec fn face_edges(cells: Seq<Cell>, f: Face, n: nat) -> Seq<Edge>
    decreases n,
{
    if n == 0 {
        Seq::empty()
    } else {
        let before = face_edges(cells, f, (n - 1) as nat);
        match face_edge(cells, f, n - 1) {
            Some(e) => before.push(e),
            None => before,
        }
    }
}

/// Whether both cells of the face are leaves, so that nothing lies below it.
pub open spec fn face_is_terminal(cells: Seq<Cell>, f: Face) -> bool {
    cells[f.cells[0] as int].is_leaf && cells[f.cells[1] as int].is_leaf
}

/// What the walk over a set of faces yields: the edges in the order in which
/// they are found, and the number of faces visited.
pub struct FaceWalk {
    pub edges: Seq<Edge>,
    pub visits: nat,
}

impl FaceWalk {
    pub open spec fn empty() -> Self {
        FaceWalk { edges: Seq::empty(), visits: 0 }
    }

    /// This walk followed by `next`.
    pub open spec fn followed_by(self, next: Self) -> Self {
        FaceWalk { edges: self.edges + next.edges, visits: self.visits + next.visits }
    }
}

/// The walk over a face and all faces below it. A face between two leaves
/// yields nothing. Of another face the edges in it are found, and then the
/// faces below it are walked, the last first.
pub open spec fn face_walk(cells: Seq<Cell>, f: Face) -> FaceWalk
    decreases f.cells[0] + f.cells[1], 5nat,
    when cells_wf(cells) && face_ok(cells, f)
{
    if face_is_terminal(cells, f) {
        FaceWalk { edges: Seq::empty(), visits: 1 }
    } else {
        FaceWalk { edges: face_edges(cells, f, 4), visits: 1 }.followed_by(
            sub_faces_walk(cells, f, 4),
        )
    }
}

/// The walks over the first `n` faces below a face that is not terminal, the
/// last first.
pub open spec fn sub_faces_walk(cells: Seq<Cell>, f: Face, n: nat) -> FaceWalk
    decreases f.cells[0] + f.cells[1], n,
    when cells_wf(cells) && face_ok(cells, f) && !face_is_terminal(cells, f) && n <= 4
{
    if n == 0 {
        FaceWalk::empty()
    } else {
        let rest = sub_faces_walk(cells, f, (n - 1) as nat);
        match sub_face(cells, f, n - 1) {
            Some(s) => face_walk(cells, s).followed_by(rest),
            None => rest,
        }
    }
}

/// The walk that empties a stack of faces, the top of the stack first.
pub open spec fn face_stack_walk(cells: Seq<Cell>, stack: Seq<Face>) -> FaceWalk
    decreases stack.len(),
{
    if stack.len() == 0 {
        FaceWalk::empty()
    } else {
        face_walk(cells, stack.last()).followed_by(face_stack_walk(cells, stack.drop_last()))
    }
}

/// The edge below edge `e` in the given half of its axis: the cell in slot `k`
/// takes part in its octant that lies diagonally opposite slot `k`, since the
/// four cells meet there. A cell that is marked as a duplicate is a leaf, takes
/// part as itself and keeps its mark.
pub open spec fn sub_edge(cells: Seq<Cell>, e: Edge, half: int) -> Option<Edge> {
    let o = EDGE_ADJACENT_OCTANTS[e.axis as int][half];
    match (
        participant(cells, e.cells[0], o[3] as int),
        participant(cells, e.cells[1], o[2] as int),
        participant(cells, e.cells[2], o[1] as int),
        participant(cells, e.cells[3], o[0] as int),
    ) {
        (Some(e0), Some(e1), Some(e2), Some(e3)) => Some(
            Edge { axis: e.axis, cells: [e0, e1, e2, e3], is_duplicate: e.is_duplicate },
        ),
        _ => None,
    }
}

/// The first `n` of the up to two edges below an edge.
pub open spec fn sub_edges(cells: Seq<Cell>, e: Edge, n: nat) -> Seq<Edge>
    decreases n,
{
    if n == 0 {
        Seq::empty()
    } else {
        let before = sub_edges(cells, e, (n - 1) as nat);
        match sub_edge(cells, e, n - 1) {
            Some(s) => before.push(s),
            None => before,
        }
    }
}

/// Whether all four cells of the edge are leaves, so that a facet may be
/// stretched between them.
pub open spec fn edge_is_terminal(cells: Seq<Cell>, e: Edge) -> bool {
    &&& cells[e.cells[0] as int].is_leaf
    &&& cells[e.cells[1] as int].is_leaf
    &&& cells[e.cells[2] as int].is_leaf
    &&& cells[e.cells[3] as int].is_leaf
}

/// The slot of the deepest cell of the edge; of several cells of that depth the
/// first.
pub open spec fn deepest_slot(cells: Seq<Cell>, e: Edge) -> int {
    let d0 = cells[e.cells[0] as int].depth;
    let d1 = cells[e.cells[1] as int].depth;
    let d2 = cells[e.cells[2] as int].depth;
    let d3 = cells[e.cells[3] as int].depth;
    if d0 >= d1 && d0 >= d2 && d0 >= d3 {
        0
    } else if d1 >= d2 && d1 >= d3 {
        1
    } else if d2 >= d3 {
        2
    } else {
        3
    }
}

/// The samples at the two ends of the edge, the end on the negative side of the
/// axis first, read off the deepest cell: the edge runs between those two of
/// its corners that lie opposite its slot.
pub open spec fn edge_samples(cells: Seq<Cell>, e: Edge) -> (Scalar, Scalar) {
    let slot = deepest_slot(cells, e);
    let c0 = EDGE_ADJACENT_OCTANTS[e.axis as int][0][3 - slot];
    let c1 = EDGE_ADJACENT_OCTANTS[e.axis as int][1][3 - slot];
    let samples = cells[e.cells[slot] as int].samples;
    (samples[c0 as int], samples[c1 as int])
}

/// Whether the triangle between slots 0, 2 and 1 would join a cell to itself.
pub open spec fn first_triangle_degenerate(e: Edge) -> bool {
    let d = e.is_duplicate;
    (d[0] && d[1]) || (d[0] && d[2]) || (d[1] && d[2])
}

/// Whether the triangle between slots 1, 2 and 3 would join a cell to itself.
pub open spec fn second_triangle_degenerate(e: Edge) -> bool {
    let d = e.is_duplicate;
    (d[1] && d[2]) || (d[1] && d[3]) || (d[2] && d[3])
}

/// The facet around an edge between four leaves. There is none unless the field
/// is negative at exactly one end of the edge. Else it is the quad through the
/// four cells, or, where one of the two triangles that make up the quad would
/// join a cell to itself, the other triangle alone. Where the field is negative
/// at the first end, the facet is wound the other way round.
pub open spec fn leaf_edge_facet(cells: Seq<Cell>, e: Edge) -> Option<Facet> {
    let (s0, s1) = edge_samples(cells, e);
    let c = e.cells;
    if is_negative(s0) == is_negative(s1) {
        None
    } else {
        let flip = is_negative(s0);
        if first_triangle_degenerate(e) {
            Some(Facet::Triangle(if flip { [c[1], c[3], c[2]] } else { [c[1], c[2], c[3]] }))
        } else if second_triangle_degenerate(e) {
            Some(Facet::Triangle(if flip { [c[0], c[1], c[2]] } else { [c[0], c[2], c[1]] }))
        } else {
            Some(
                Facet::Quad(if flip { [c[2], c[3], c[0], c[1]] } else { [c[0], c[1], c[2], c[3]] }),
            )
        }
    }
}

/// What the walk over a set of edges yields: the facets in the order in which
/// they are emitted, and the number of edges visited.
pub struct EdgeWalk {
    pub facets: Seq<Facet>,
    pub visits: nat,
}

impl EdgeWalk {
    pub open spec fn empty() -> Self {
        EdgeWalk { facets: Seq::empty(), visits: 0 }
    }

    /// This walk followed by `next`.
    pub open spec fn followed_by(self, next: Self) -> Self {
        EdgeWalk { facets: self.facets + next.facets, visits: self.visits + next.visits }
    }
}

/// The walk over an edge and all edges below it. An edge between four leaves
/// yields its facet, if it has one. Of another edge the edges below it are
/// walked, the last first.
pub open spec fn edge_walk(cells: Seq<Cell>, e: Edge) -> EdgeWalk
    decreases e.cells[0] + e.cells[1] + e.cells[2] + e.cells[3], 3nat,
    when cells_wf(cells) && edge_ok(cells, e)
{
    if edge_is_terminal(cells, e) {
        EdgeWalk {
            facets: match leaf_edge_facet(cells, e) {
                Some(facet) => seq![facet],
                None => Seq::empty(),
            },
            visits: 1,
        }
    } else {
        EdgeWalk { facets: Seq::empty(), visits: 1 }.followed_by(sub_edges_walk(cells, e, 2))
    }
}

/// The walks over the first `n` edges below an edge that is not terminal, the
/// last first.
pub open spec fn sub_edges_walk(cells: Seq<Cell>, e: Edge, n: nat) -> EdgeWalk
    decreases e.cells[0] + e.cells[1] + e.cells[2] + e.cells[3], n,
    when cells_wf(cells) && edge_ok(cells, e) && !edge_is_terminal(cells, e) && n <= 2
{
    if n == 0 {
        EdgeWalk::empty()
    } else {
        let rest = sub_edges_walk(cells, e, (n - 1) as nat);
        match sub_edge(cells, e, n - 1) {
            Some(s) => edge_walk(cells, s).followed_by(rest),
            None => rest,
        }
    }
}

/// The walk that empties a stack of edges, the top of the stack first.
pub open spec fn edge_stack_walk(cells: Seq<Cell>, stack: Seq<Edge>) -> EdgeWalk
    decreases stack.len(),
{
    if stack.len() == 0 {
        EdgeWalk::empty()
    } else {
        edge_walk(cells, stack.last()).followed_by(edge_stack_walk(cells, stack.drop_last()))
    }
}

/// Whether no cell occurs twice among those that the facet joins.
pub open spec fn facet_distinct(facet: Facet) -> bool {
    match facet {
        Facet::Quad(c) => c[0] != c[1] && c[0] != c[2] && c[0] != c[3] && c[1] != c[2] && c[1]
            != c[3] && c[2] != c[3],
        Facet::Triangle(c) => c[0] != c[1] && c[0] != c[2] && c[1] != c[2],
    }
}

/// Whether every cell of the stack is a cell of the octree.
pub open spec fn cell_stack_ok(cells: Seq<Cell>, stack: Seq<CellId>) -> bool {
    forall|k: int| 0 <= k < stack.len() ==> (#[trigger] stack[k]) < cells.len()
}

/// Whether every face of the stack is a face of the octree.
pub open spec fn face_stack_ok(cells: Seq<Cell>, stack: Seq<Face>) -> bool {
    forall|k: int| 0 <= k < stack.len() ==> face_ok(cells, #[trigger] stack[k])
}

/// Whether every edge of the stack is an edge of the octree.
pub open spec fn edge_stack_ok(cells: Seq<Cell>, stack: Seq<Edge>) -> bool {
    forall|k: int| 0 <= k < stack.len() ==> edge_ok(cells, #[trigger] stack[k])
}

/// Whether the cell lies in the subtree of one of the children of cell `id`
/// in its first `n` octants.
pub open spec fn below_child(cells: Seq<Cell>, id: CellId, n: nat, leaf: CellId) -> bool {
    exists|o: int|
        0 <= o < n && match #[trigger] child(cells, id as int, o) {
            Some(c) => subtree_low(cells, c as int) <= leaf <= c,
            None => false,
        }
}

/// Whether every cell of the sequence lies in the subtree of one of the
/// children of cell `id` in its first `n` octants.
pub open spec fn within_children(
    cells: Seq<Cell>,
    id: CellId,
    n: nat,
    leaves: Seq<CellId>,
) -> bool {
    forall|k: int| 0 <= k < leaves.len() ==> below_child(cells, id, n, #[trigger] leaves[k])
}

/// Whether cell `id` can be reached from cell `from` without passing through
/// a leaf: it is `from` itself, or `from` is no leaf and `id` can be reached
/// from one of its children.
pub open spec fn reachable(cells: Seq<Cell>, from: CellId, id: CellId) -> bool
    decreases from, 9nat,
    when cells_wf(cells) && from < cells.len()
{
    id == from || (!cells[from as int].is_leaf && reachable_below(cells, from, id, 8))
}

/// Whether cell `id` can be reached from one of the children of `from` in its
/// first `n` octants without passing through a leaf.
pub open spec fn reachable_below(cells: Seq<Cell>, from: CellId, id: CellId, n: nat) -> bool
    decreases from, n,
    when cells_wf(cells) && from < cells.len() && n <= 8
{
    if n == 0 {
        false
    } else {
        reachable_below(cells, from, id, (n - 1) as nat) || match child(cells, from as int, n - 1) {
            Some(c) => reachable(cells, c, id),
            None => false,
        }
    }
}

/// Whether both cells of the face can be reached from `root`.
pub open spec fn face_reached(cells: Seq<Cell>, root: CellId, f: Face) -> bool {
    reachable(cells, root, f.cells[0]) && reachable(cells, root, f.cells[1])
}

/// Whether the four cells of the edge can be reached from `root`.
pub open spec fn edge_reached(cells: Seq<Cell>, root: CellId, e: Edge) -> bool {
    &&& reachable(cells, root, e.cells[0])
    &&& reachable(cells, root, e.cells[1])
    &&& reachable(cells, root, e.cells[2])
    &&& reachable(cells, root, e.cells[3])
}

/// Whether every cell of the stack can be reached from `root`.
pub open spec fn cell_stack_reached(cells: Seq<Cell>, root: CellId, stack: Seq<CellId>) -> bool {
    forall|k: int| 0 <= k < stack.len() ==> reachable(cells, root, #[trigger] stack[k])
}

/// Whether the cells of every face of the stack can be reached from `root`.
pub open spec fn face_stack_reached(cells: Seq<Cell>, root: CellId, stack: Seq<Face>) -> bool {
    forall|k: int| 0 <= k < stack.len() ==> face_reached(cells, root, #[trigger] stack[k])
}

/// Whether the cells of every edge of the stack can be reached from `root`.
pub open spec fn edge_stack_reached(cells: Seq<Cell>, root: CellId, stack: Seq<Edge>) -> bool {
    forall|k: int| 0 <= k < stack.len() ==> edge_reached(cells, root, #[trigger] stack[k])
}

/// The cells that a facet joins.
pub open spec fn facet_cells(facet: Facet) -> Seq<CellId> {
    match facet {
        Facet::Quad(c) => c@,
        Facet::Triangle(c) => c@,
    }
}

/// Whether every cell that the facet joins is one of `leaves`.
pub open spec fn facet_among(facet: Facet, leaves: Seq<CellId>) -> bool {
    forall|i: int|
        0 <= i < facet_cells(facet).len() ==> leaves.contains(#[trigger] facet_cells(facet)[i])
}

/// The leaves that a contour of the octree below `root` visits: those at which
/// the walk from the root ends.
pub open spec fn contour_leaves(cells: Seq<Cell>, root: CellId) -> Seq<CellId> {
    cell_walk(cells, root).leaves
}

/// The edges that a contour of the octree below `root` has found when its stack
/// of faces is empty: those between the children of each cell, then those in
/// the faces between cells.
pub open spec fn contour_edges(cells: Seq<Cell>, root: CellId) -> Seq<Edge> {
    let walk = cell_walk(cells, root);
    walk.edges + face_stack_walk(cells, walk.faces).edges
}

/// The facets that a contour of the octree below `root` emits.
pub open spec fn contour_facets(cells: Seq<Cell>, root: CellId) -> Seq<Facet> {
    edge_stack_walk(cells, contour_edges(cells, root)).facets
}

/// Whether `coarse` is the subdivision `fine` with more of it merged: the
/// cells are the same in number and have the same children, and every leaf of
/// `fine` is a leaf of `coarse`.
pub open spec fn coarsens(fine: Seq<Cell>, coarse: Seq<Cell>) -> bool {
    &&& fine.len() == coarse.len()
    &&& forall|id: int|
        0 <= id < fine.len() ==> (#[trigger] coarse[id]).children == fine[id].children && (
        fine[id].is_leaf ==> coarse[id].is_leaf)
}

/// Whether every cell that is not a leaf has a child.
pub open spec fn branches_have_children(cells: Seq<Cell>) -> bool {
    forall|id: int|
        0 <= id < cells.len() && !(#[trigger] cells[id]).is_leaf ==> exists|o: int|
            0 <= o < 8 && (#[trigger] child(cells, id, o)).is_some()
}

} // verus!
