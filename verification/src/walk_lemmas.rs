//! Facts about the walk of a contour.
use crate::cell_octree::{
    apart, cells_wf, child, lemma_apart_distinct, lemma_apart_within, lemma_child_within,
    lemma_children_apart, lemma_subtree_low_bound, subtree_low, Cell, CellId, Edge, Face,
};
use crate::tables::{
    EDGE_ADJACENT_OCTANTS, FACE_ADJACENT_OCTANTS, FACE_TO_EDGE_ADJACENT_OCTANTS,
    FACE_TO_EDGE_MIRRORS, FACE_TO_EDGE_NODE_ORDERS,
};
use crate::walk::{
    below_child, branches_have_children, cell_stack_ok, cell_stack_reached, cell_stack_walk,
    cell_walk, children_walk, coarsens, contour_leaves, edge_is_terminal, edge_ok, edge_reached,
    edge_stack_ok, edge_stack_reached, edge_stack_walk, edge_walk, face_edge, face_edge_cell,
    face_edges, face_is_terminal, face_ok, face_reached, face_stack_ok, face_stack_reached,
    face_stack_walk, face_walk, facet_among, facet_distinct, interior_edge, interior_edges,
    interior_face, interior_faces, leaf_edge_facet, participant, present_children, reachable,
    reachable_below, slots_ok, sub_edge, sub_edges, sub_edges_walk, sub_face, sub_faces,
    sub_faces_walk, within_children, CellWalk, EdgeWalk, FaceWalk,
};
use vstd::prelude::*;

verus! {

/// The facet of an edge joins each cell once: no facet is degenerate.
pub proof fn lemma_leaf_edge_facet_distinct(cells: Seq<Cell>, e: Edge)
    requires
        edge_ok(cells, e),
        leaf_edge_facet(cells, e).is_some(),
    ensures
        facet_distinct(leaf_edge_facet(cells, e).unwrap()),
{
    lemma_slots_distinct(cells, e, 0, 1);
    lemma_slots_distinct(cells, e, 0, 2);
    lemma_slots_distinct(cells, e, 0, 3);
    lemma_slots_distinct(cells, e, 1, 2);
    lemma_slots_distinct(cells, e, 1, 3);
    lemma_slots_distinct(cells, e, 2, 3);
}

pub(crate) proof fn lemma_slots_distinct(cells: Seq<Cell>, e: Edge, i: int, j: int)
    requires
        slots_ok(cells, e, i, j),
    ensures
        !(e.is_duplicate[i] && e.is_duplicate[j]) ==> e.cells[i] != e.cells[j],
{
    if !(e.is_duplicate[i] && e.is_duplicate[j]) {
        lemma_apart_distinct(cells, e.cells[i] as int, e.cells[j] as int);
    }
}

/// The marks of an edge say which cells fill two slots: a slot is marked
/// exactly if another slot holds the same cell.
pub proof fn lemma_marks_are_duplicates(cells: Seq<Cell>, e: Edge, i: int)
    requires
        edge_ok(cells, e),
        0 <= i < 4,
    ensures
        e.is_duplicate[i] <==> exists|j: int|
            0 <= j < 4 && j != i && #[trigger] e.cells[j] == e.cells[i],
{
    lemma_slots_distinct(cells, e, 0, 1);
    lemma_slots_distinct(cells, e, 0, 2);
    lemma_slots_distinct(cells, e, 0, 3);
    lemma_slots_distinct(cells, e, 1, 2);
    lemma_slots_distinct(cells, e, 1, 3);
    lemma_slots_distinct(cells, e, 2, 3);
    let d = e.is_duplicate;
    if d[i] {
        let j: int = if d[0] && i != 0 {
            0
        } else if d[1] && i != 1 {
            1
        } else if d[2] && i != 2 {
            2
        } else {
            3
        };
        assert(e.cells[j] == e.cells[i]);
    }
}

pub(crate) proof fn lemma_present_children_ok(cells: Seq<Cell>, id: CellId, n: nat)
    requires
        cells_wf(cells),
        id < cells.len(),
        n <= 8,
    ensures
        cell_stack_ok(cells, present_children(cells, id, n)),
    decreases n,
{
    if n > 0 {
        lemma_present_children_ok(cells, id, (n - 1) as nat);
        let _ = child(cells, id as int, n - 1);
    }
}

pub(crate) proof fn lemma_interior_faces_ok(cells: Seq<Cell>, id: CellId, n: nat)
    requires
        cells_wf(cells),
        id < cells.len(),
        n <= 12,
    ensures
        face_stack_ok(cells, interior_faces(cells, id, n)),
    decreases n,
{
    if n > 0 {
        lemma_interior_faces_ok(cells, id, (n - 1) as nat);
        let k = (n - 1) as int;
        let o = FACE_ADJACENT_OCTANTS[k / 4][k % 4];
        if interior_face(cells, id, k / 4, k % 4).is_some() {
            lemma_children_apart(cells, id as int, o[0] as int, o[1] as int);
        }
    }
}

pub(crate) proof fn lemma_interior_edges_ok(cells: Seq<Cell>, id: CellId, n: nat)
    requires
        cells_wf(cells),
        id < cells.len(),
        n <= 6,
    ensures
        edge_stack_ok(cells, interior_edges(cells, id, n)),
    decreases n,
{
    if n > 0 {
        lemma_interior_edges_ok(cells, id, (n - 1) as nat);
        let k = (n - 1) as int;
        let o = EDGE_ADJACENT_OCTANTS[k / 2][k % 2];
        if interior_edge(cells, id, k / 2, k % 2).is_some() {
            lemma_children_apart(cells, id as int, o[0] as int, o[1] as int);
            lemma_children_apart(cells, id as int, o[0] as int, o[2] as int);
            lemma_children_apart(cells, id as int, o[0] as int, o[3] as int);
            lemma_children_apart(cells, id as int, o[1] as int, o[2] as int);
            lemma_children_apart(cells, id as int, o[1] as int, o[3] as int);
            lemma_children_apart(cells, id as int, o[2] as int, o[3] as int);
        }
    }
}

/// A cell that takes part below a cell lies in the subtree of that cell.
pub(crate) proof fn lemma_participant_within(cells: Seq<Cell>, parent: CellId, octant: int)
    requires
        cells_wf(cells),
        parent < cells.len(),
        0 <= octant < 8,
        participant(cells, parent, octant).is_some(),
    ensures
        subtree_low(cells, parent as int) <= subtree_low(
            cells,
            participant(cells, parent, octant).unwrap() as int,
        ),
        participant(cells, parent, octant).unwrap() <= parent,
        participant(cells, parent, octant).unwrap() < cells.len(),
        participant(cells, parent, octant).unwrap() < parent || cells[parent as int].is_leaf,
{
    if !cells[parent as int].is_leaf {
        lemma_child_within(cells, parent as int, octant);
    }
}

/// Cells that take part below two cells that lie apart lie apart.
pub(crate) proof fn lemma_participants_apart(
    cells: Seq<Cell>,
    a: CellId,
    oa: int,
    b: CellId,
    ob: int,
)
    requires
        cells_wf(cells),
        a < cells.len(),
        b < cells.len(),
        0 <= oa < 8,
        0 <= ob < 8,
        apart(cells, a as int, b as int),
        participant(cells, a, oa).is_some(),
        participant(cells, b, ob).is_some(),
    ensures
        apart(
            cells,
            participant(cells, a, oa).unwrap() as int,
            participant(cells, b, ob).unwrap() as int,
        ),
{
    lemma_participant_within(cells, a, oa);
    lemma_participant_within(cells, b, ob);
    let a2 = participant(cells, a, oa).unwrap() as int;
    lemma_apart_within(cells, a as int, b as int, a2);
    lemma_apart_within(cells, b as int, a2, participant(cells, b, ob).unwrap() as int);
}

pub(crate) proof fn lemma_sub_face_ok(cells: Seq<Cell>, f: Face, i: int)
    requires
        cells_wf(cells),
        face_ok(cells, f),
        0 <= i < 4,
        sub_face(cells, f, i).is_some(),
    ensures
        face_ok(cells, sub_face(cells, f, i).unwrap()),
        !face_is_terminal(cells, f) ==> sub_face(cells, f, i).unwrap().cells[0] + sub_face(
            cells,
            f,
            i,
        ).unwrap().cells[1] < f.cells[0] + f.cells[1],
{
    let o = FACE_ADJACENT_OCTANTS[f.axis as int][i];
    lemma_participant_within(cells, f.cells[0], o[1] as int);
    lemma_participant_within(cells, f.cells[1], o[0] as int);
    lemma_participants_apart(cells, f.cells[0], o[1] as int, f.cells[1], o[0] as int);
}

pub(crate) proof fn lemma_sub_faces_ok(cells: Seq<Cell>, f: Face, n: nat)
    requires
        cells_wf(cells),
        face_ok(cells, f),
        n <= 4,
    ensures
        face_stack_ok(cells, sub_faces(cells, f, n)),
    decreases n,
{
    if n > 0 {
        lemma_sub_faces_ok(cells, f, (n - 1) as nat);
        if sub_face(cells, f, n - 1).is_some() {
            lemma_sub_face_ok(cells, f, n - 1);
        }
    }
}

/// Slots `j` and `k` of the `i`-th edge in a face are filled as an edge asks.
pub(crate) proof fn lemma_face_edge_slots(cells: Seq<Cell>, f: Face, i: int, j: int, k: int)
    requires
        cells_wf(cells),
        face_ok(cells, f),
        !face_is_terminal(cells, f),
        0 <= i < 4,
        0 <= j < k < 4,
        face_edge(cells, f, i).is_some(),
    ensures
        slots_ok(cells, face_edge(cells, f, i).unwrap(), j, k),
{
    let o = FACE_TO_EDGE_ADJACENT_OCTANTS[f.axis as int][i];
    let sj = FACE_TO_EDGE_NODE_ORDERS[i][j] as int;
    let sk = FACE_TO_EDGE_NODE_ORDERS[i][k] as int;
    let oj = o[FACE_TO_EDGE_MIRRORS[i][j] as int] as int;
    let ok = o[FACE_TO_EDGE_MIRRORS[i][k] as int] as int;
    if sj == sk {
        if !cells[f.cells[sj] as int].is_leaf {
            lemma_children_apart(cells, f.cells[sj] as int, oj, ok);
        }
    } else {
        lemma_participants_apart(cells, f.cells[sj], oj, f.cells[sk], ok);
    }
}

pub(crate) proof fn lemma_face_edge_ok(cells: Seq<Cell>, f: Face, i: int)
    requires
        cells_wf(cells),
        face_ok(cells, f),
        !face_is_terminal(cells, f),
        0 <= i < 4,
        face_edge(cells, f, i).is_some(),
    ensures
        edge_ok(cells, face_edge(cells, f, i).unwrap()),
{
    let e = face_edge(cells, f, i).unwrap();
    lemma_face_edge_slots(cells, f, i, 0, 1);
    lemma_face_edge_slots(cells, f, i, 0, 2);
    lemma_face_edge_slots(cells, f, i, 0, 3);
    lemma_face_edge_slots(cells, f, i, 1, 2);
    lemma_face_edge_slots(cells, f, i, 1, 3);
    lemma_face_edge_slots(cells, f, i, 2, 3);
    let o = FACE_TO_EDGE_ADJACENT_OCTANTS[f.axis as int][i];
    assert forall|k: int| 0 <= k < 4 implies (#[trigger] e.cells[k]) < cells.len() by {
        lemma_participant_within(
            cells,
            f.cells[FACE_TO_EDGE_NODE_ORDERS[i][k] as int],
            o[FACE_TO_EDGE_MIRRORS[i][k] as int] as int,
        );
    }
}

pub(crate) proof fn lemma_face_edges_ok(cells: Seq<Cell>, f: Face, n: nat)
    requires
        cells_wf(cells),
        face_ok(cells, f),
        !face_is_terminal(cells, f),
        n <= 4,
    ensures
        edge_stack_ok(cells, face_edges(cells, f, n)),
    decreases n,
{
    if n > 0 {
        lemma_face_edges_ok(cells, f, (n - 1) as nat);
        if face_edge(cells, f, n - 1).is_some() {
            lemma_face_edge_ok(cells, f, n - 1);
        }
    }
}

pub(crate) proof fn lemma_sub_edge_slots(cells: Seq<Cell>, e: Edge, half: int, j: int, k: int)
    requires
        cells_wf(cells),
        edge_ok(cells, e),
        0 <= half < 2,
        0 <= j < k < 4,
        slots_ok(cells, e, j, k),
        sub_edge(cells, e, half).is_some(),
    ensures
        slots_ok(cells, sub_edge(cells, e, half).unwrap(), j, k),
{
    let o = EDGE_ADJACENT_OCTANTS[e.axis as int][half];
    let _ = e.cells[j];
    let _ = e.cells[k];
    let _ = e.is_duplicate[j];
    let _ = e.is_duplicate[k];
    if !(e.is_duplicate[j] && e.is_duplicate[k]) {
        lemma_participants_apart(cells, e.cells[j], o[3 - j] as int, e.cells[k], o[3 - k] as int);
    }
}

pub(crate) proof fn lemma_sub_edge_ok(cells: Seq<Cell>, e: Edge, half: int)
    requires
        cells_wf(cells),
        edge_ok(cells, e),
        0 <= half < 2,
        sub_edge(cells, e, half).is_some(),
    ensures
        edge_ok(cells, sub_edge(cells, e, half).unwrap()),
        !edge_is_terminal(cells, e) ==> {
            let s = sub_edge(cells, e, half).unwrap();
            s.cells[0] + s.cells[1] + s.cells[2] + s.cells[3] < e.cells[0] + e.cells[1]
                + e.cells[2] + e.cells[3]
        },
{
    let s = sub_edge(cells, e, half).unwrap();
    let o = EDGE_ADJACENT_OCTANTS[e.axis as int][half];
    lemma_sub_edge_slots(cells, e, half, 0, 1);
    lemma_sub_edge_slots(cells, e, half, 0, 2);
    lemma_sub_edge_slots(cells, e, half, 0, 3);
    lemma_sub_edge_slots(cells, e, half, 1, 2);
    lemma_sub_edge_slots(cells, e, half, 1, 3);
    lemma_sub_edge_slots(cells, e, half, 2, 3);
    let _ = e.cells[0];
    let _ = e.cells[1];
    let _ = e.cells[2];
    let _ = e.cells[3];
    lemma_participant_within(cells, e.cells[0], o[3] as int);
    lemma_participant_within(cells, e.cells[1], o[2] as int);
    lemma_participant_within(cells, e.cells[2], o[1] as int);
    lemma_participant_within(cells, e.cells[3], o[0] as int);
    assert forall|k: int|
        0 <= k < 4 && #[trigger] s.is_duplicate[k] implies cells[s.cells[k] as int].is_leaf by {
        let _ = e.is_duplicate[k];
    }
}

pub(crate) proof fn lemma_sub_edges_ok(cells: Seq<Cell>, e: Edge, n: nat)
    requires
        cells_wf(cells),
        edge_ok(cells, e),
        n <= 2,
    ensures
        edge_stack_ok(cells, sub_edges(cells, e, n)),
    decreases n,
{
    if n > 0 {
        lemma_sub_edges_ok(cells, e, (n - 1) as nat);
        if sub_edge(cells, e, n - 1).is_some() {
            lemma_sub_edge_ok(cells, e, n - 1);
        }
    }
}

/// Emptying a stack on which the children of a cell lie on top comes to
/// walking the children and then emptying the rest.
pub(crate) proof fn lemma_cell_stack_children(
    cells: Seq<Cell>,
    stack: Seq<CellId>,
    id: CellId,
    n: nat,
)
    requires
        cells_wf(cells),
        id < cells.len(),
        n <= 8,
    ensures
        cell_stack_walk(cells, stack + present_children(cells, id, n)) == children_walk(
            cells,
            id,
            n,
        ).followed_by(cell_stack_walk(cells, stack)),
    decreases n,
{
    let rest = cell_stack_walk(cells, stack);
    if n == 0 {
        assert(stack + present_children(cells, id, n) =~= stack);
        assert(CellWalk::empty().followed_by(rest).leaves =~= rest.leaves);
        assert(CellWalk::empty().followed_by(rest).faces =~= rest.faces);
        assert(CellWalk::empty().followed_by(rest).edges =~= rest.edges);
    } else {
        let before = present_children(cells, id, (n - 1) as nat);
        lemma_cell_stack_children(cells, stack, id, (n - 1) as nat);
        match child(cells, id as int, n - 1) {
            Some(c) => {
                let top = cell_walk(cells, c);
                let below = children_walk(cells, id, (n - 1) as nat);
                assert(stack + before.push(c) =~= (stack + before).push(c));
                assert((stack + before).push(c).drop_last() =~= stack + before);
                let lhs = top.followed_by(below.followed_by(rest));
                let rhs = top.followed_by(below).followed_by(rest);
                assert(lhs.leaves =~= rhs.leaves);
                assert(lhs.faces =~= rhs.faces);
                assert(lhs.edges =~= rhs.edges);
            },
            None => {},
        }
    }
}

/// Emptying a stack on which the faces below a face lie on top comes to
/// walking these faces and then emptying the rest.
pub(crate) proof fn lemma_face_stack_sub_faces(cells: Seq<Cell>, stack: Seq<Face>, f: Face, n: nat)
    requires
        cells_wf(cells),
        face_ok(cells, f),
        !face_is_terminal(cells, f),
        n <= 4,
    ensures
        face_stack_walk(cells, stack + sub_faces(cells, f, n)) == sub_faces_walk(
            cells,
            f,
            n,
        ).followed_by(face_stack_walk(cells, stack)),
    decreases n,
{
    let rest = face_stack_walk(cells, stack);
    if n == 0 {
        assert(stack + sub_faces(cells, f, n) =~= stack);
        assert(FaceWalk::empty().followed_by(rest).edges =~= rest.edges);
    } else {
        let before = sub_faces(cells, f, (n - 1) as nat);
        lemma_face_stack_sub_faces(cells, stack, f, (n - 1) as nat);
        match sub_face(cells, f, n - 1) {
            Some(s) => {
                lemma_sub_face_ok(cells, f, n - 1);
                let top = face_walk(cells, s);
                let below = sub_faces_walk(cells, f, (n - 1) as nat);
                assert(stack + before.push(s) =~= (stack + before).push(s));
                assert((stack + before).push(s).drop_last() =~= stack + before);
                let lhs = top.followed_by(below.followed_by(rest));
                let rhs = top.followed_by(below).followed_by(rest);
                assert(lhs.edges =~= rhs.edges);
            },
            None => {},
        }
    }
}

/// Emptying a stack on which the edges below an edge lie on top comes to
/// walking these edges and then emptying the rest.
pub(crate) proof fn lemma_edge_stack_sub_edges(cells: Seq<Cell>, stack: Seq<Edge>, e: Edge, n: nat)
    requires
        cells_wf(cells),
        edge_ok(cells, e),
        !edge_is_terminal(cells, e),
        n <= 2,
    ensures
        edge_stack_walk(cells, stack + sub_edges(cells, e, n)) == sub_edges_walk(
            cells,
            e,
            n,
        ).followed_by(edge_stack_walk(cells, stack)),
    decreases n,
{
    let rest = edge_stack_walk(cells, stack);
    if n == 0 {
        assert(stack + sub_edges(cells, e, n) =~= stack);
        assert(EdgeWalk::empty().followed_by(rest).facets =~= rest.facets);
    } else {
        let before = sub_edges(cells, e, (n - 1) as nat);
        lemma_edge_stack_sub_edges(cells, stack, e, (n - 1) as nat);
        match sub_edge(cells, e, n - 1) {
            Some(s) => {
                lemma_sub_edge_ok(cells, e, n - 1);
                let top = edge_walk(cells, s);
                let below = sub_edges_walk(cells, e, (n - 1) as nat);
                assert(stack + before.push(s) =~= (stack + before).push(s));
                assert((stack + before).push(s).drop_last() =~= stack + before);
                let lhs = top.followed_by(below.followed_by(rest));
                let rhs = top.followed_by(below).followed_by(rest);
                assert(lhs.facets =~= rhs.facets);
            },
            None => {},
        }
    }
}

/// The walk over a subtree visits leaves of the subtree, each once.
pub proof fn lemma_walk_visits_once(cells: Seq<Cell>, id: CellId)
    requires
        cells_wf(cells),
        id < cells.len(),
    ensures
        cell_walk(cells, id).leaves.no_duplicates(),
        forall|k: int|
            0 <= k < cell_walk(cells, id).leaves.len() ==> subtree_low(cells, id as int) <= (
            #[trigger] cell_walk(cells, id).leaves[k]) <= id,
    decreases id, 9nat,
{
    lemma_subtree_low_bound(cells, id as int);
    if !cells[id as int].is_leaf {
        lemma_children_visited_once(cells, id, 8);
        let leaves = children_walk(cells, id, 8).leaves;
        assert(cell_walk(cells, id).leaves =~= leaves);
        assert forall|k: int| 0 <= k < leaves.len() implies subtree_low(cells, id as int) <= (
        #[trigger] leaves[k]) <= id by {
            assert(below_child(cells, id, 8, leaves[k]));
            let o = choose|o: int|
                0 <= o < 8 && match #[trigger] child(cells, id as int, o) {
                    Some(c) => subtree_low(cells, c as int) <= leaves[k] <= c,
                    None => false,
                };
            lemma_child_within(cells, id as int, o);
        }
    }
}

/// The walks over the children of a cell visit leaves of their subtrees, each
/// once.
pub(crate) proof fn lemma_children_visited_once(cells: Seq<Cell>, id: CellId, n: nat)
    requires
        cells_wf(cells),
        id < cells.len(),
        n <= 8,
    ensures
        children_walk(cells, id, n).leaves.no_duplicates(),
        within_children(cells, id, n, children_walk(cells, id, n).leaves),
    decreases id, n,
{
    let all = children_walk(cells, id, n).leaves;
    if n == 0 {
        assert(all.len() == 0);
    } else {
        lemma_children_visited_once(cells, id, (n - 1) as nat);
        let rest = children_walk(cells, id, (n - 1) as nat).leaves;
        assert forall|k: int| 0 <= k < rest.len() implies below_child(
            cells,
            id,
            n,
            #[trigger] rest[k],
        ) by {
            assert(below_child(cells, id, (n - 1) as nat, rest[k]));
            let o = choose|o: int|
                0 <= o < n - 1 && match #[trigger] child(cells, id as int, o) {
                    Some(d) => subtree_low(cells, d as int) <= rest[k] <= d,
                    None => false,
                };
            assert(child(cells, id as int, o).is_some());
        }
        match child(cells, id as int, n - 1) {
            Some(c) => {
                lemma_walk_visits_once(cells, c);
                let first = cell_walk(cells, c).leaves;
                assert(all =~= first + rest);
                assert forall|k: int| 0 <= k < first.len() implies below_child(
                    cells,
                    id,
                    n,
                    #[trigger] first[k],
                ) by {
                    assert(child(cells, id as int, n - 1) == Some(c));
                }
                assert forall|k: int| 0 <= k < all.len() implies below_child(
                    cells,
                    id,
                    n,
                    #[trigger] all[k],
                ) by {
                    if k < first.len() {
                        assert(all[k] == first[k]);
                    } else {
                        assert(all[k] == rest[k - first.len()]);
                    }
                }
                assert forall|i: int, j: int|
                    0 <= i < first.len() && 0 <= j < rest.len() implies first[i] != rest[j] by {
                    assert(below_child(cells, id, (n - 1) as nat, rest[j]));
                    let o = choose|o: int|
                        0 <= o < n - 1 && match #[trigger] child(cells, id as int, o) {
                            Some(d) => subtree_low(cells, d as int) <= rest[j] <= d,
                            None => false,
                        };
                    assert(child(cells, id as int, n - 1) == Some(c));
                    assert(child(cells, id as int, o).is_some());
                }
                assert forall|i: int, j: int|
                    0 <= i < all.len() && 0 <= j < all.len() && i != j implies all[i] != all[j] by {
                    if i < first.len() && j < first.len() {
                        assert(all[i] == first[i] && all[j] == first[j]);
                    } else if i >= first.len() && j >= first.len() {
                        assert(all[i] == rest[i - first.len()] && all[j] == rest[j - first.len()]);
                    } else if i < first.len() {
                        assert(all[i] == first[i] && all[j] == rest[j - first.len()]);
                    } else {
                        assert(all[j] == first[j] && all[i] == rest[i - first.len()]);
                    }
                }
            },
            None => {
                assert(all == rest);
            },
        }
    }
}

/// What can be reached from a child of a cell in one of its first `n` octants
/// can be reached from below the cell.
pub(crate) proof fn lemma_reachable_through(
    cells: Seq<Cell>,
    from: CellId,
    id: CellId,
    n: nat,
    o: int,
)
    requires
        cells_wf(cells),
        from < cells.len(),
        n <= 8,
        0 <= o < n,
        match child(cells, from as int, o) {
            Some(c) => reachable(cells, c, id),
            None => false,
        },
    ensures
        reachable_below(cells, from, id, n),
    decreases n,
{
    if o < n - 1 {
        lemma_reachable_through(cells, from, id, (n - 1) as nat, o);
    }
}

/// What can be reached from below a cell can be reached from one of its
/// children.
pub(crate) proof fn lemma_reachable_below(
    cells: Seq<Cell>,
    from: CellId,
    id: CellId,
    n: nat,
) -> (o: int)
    requires
        cells_wf(cells),
        from < cells.len(),
        n <= 8,
        reachable_below(cells, from, id, n),
    ensures
        0 <= o < n,
        match child(cells, from as int, o) {
            Some(c) => reachable(cells, c, id),
            None => false,
        },
    decreases n,
{
    if reachable_below(cells, from, id, (n - 1) as nat) {
        lemma_reachable_below(cells, from, id, (n - 1) as nat)
    } else {
        n - 1
    }
}

/// A child of a cell that can be reached and is no leaf can be reached.
pub proof fn lemma_reachable_child(cells: Seq<Cell>, from: CellId, id: CellId, octant: int)
    requires
        cells_wf(cells),
        from < cells.len(),
        reachable(cells, from, id),
        id < cells.len(),
        !cells[id as int].is_leaf,
        0 <= octant < 8,
        child(cells, id as int, octant).is_some(),
    ensures
        reachable(cells, from, child(cells, id as int, octant).unwrap()),
    decreases from,
{
    let c = child(cells, id as int, octant).unwrap();
    if id == from {
        assert(reachable(cells, c, c));
        lemma_reachable_through(cells, from, c, 8, octant);
    } else {
        let o = lemma_reachable_below(cells, from, id, 8);
        let d = child(cells, from as int, o).unwrap();
        lemma_reachable_child(cells, d, id, octant);
        lemma_reachable_through(cells, from, c, 8, o);
    }
}

/// The walks over the children of a cell visit what the walk over each child
/// visits.
pub(crate) proof fn lemma_children_walk_holds(
    cells: Seq<Cell>,
    from: CellId,
    n: nat,
    o: int,
    id: CellId,
)
    requires
        cells_wf(cells),
        from < cells.len(),
        n <= 8,
        0 <= o < n,
        match child(cells, from as int, o) {
            Some(c) => cell_walk(cells, c).leaves.contains(id),
            None => false,
        },
    ensures
        children_walk(cells, from, n).leaves.contains(id),
    decreases n,
{
    let c = child(cells, from as int, o).unwrap();
    let rest = children_walk(cells, from, (n - 1) as nat).leaves;
    if o < n - 1 {
        lemma_children_walk_holds(cells, from, (n - 1) as nat, o, id);
        let k = choose|k: int| 0 <= k < rest.len() && rest[k] == id;
        match child(cells, from as int, n - 1) {
            Some(d) => {
                let first = cell_walk(cells, d).leaves;
                assert((first + rest)[first.len() + k] == id);
            },
            None => {},
        }
    } else {
        let first = cell_walk(cells, c).leaves;
        let k = choose|k: int| 0 <= k < first.len() && first[k] == id;
        assert((first + rest)[k] == id);
    }
}

/// A leaf that can be reached from a cell is visited by the walk over the cell.
pub proof fn lemma_reachable_leaf_is_visited(cells: Seq<Cell>, from: CellId, id: CellId)
    requires
        cells_wf(cells),
        from < cells.len(),
        reachable(cells, from, id),
        id < cells.len(),
        cells[id as int].is_leaf,
    ensures
        cell_walk(cells, from).leaves.contains(id),
    decreases from,
{
    if id == from {
        assert(cell_walk(cells, from).leaves[0] == id);
    } else {
        let o = lemma_reachable_below(cells, from, id, 8);
        lemma_reachable_leaf_is_visited(cells, child(cells, from as int, o).unwrap(), id);
        lemma_children_walk_holds(cells, from, 8, o, id);
        assert(cell_walk(cells, from).leaves =~= children_walk(cells, from, 8).leaves);
    }
}

/// What the walks over the children of a cell visit, the walk over one of the
/// children visits.
pub(crate) proof fn lemma_children_walk_from(
    cells: Seq<Cell>,
    from: CellId,
    n: nat,
    id: CellId,
) -> (o: int)
    requires
        cells_wf(cells),
        from < cells.len(),
        n <= 8,
        children_walk(cells, from, n).leaves.contains(id),
    ensures
        0 <= o < n,
        match child(cells, from as int, o) {
            Some(c) => cell_walk(cells, c).leaves.contains(id),
            None => false,
        },
    decreases n,
{
    let all = children_walk(cells, from, n).leaves;
    let rest = children_walk(cells, from, (n - 1) as nat).leaves;
    let k = choose|k: int| 0 <= k < all.len() && all[k] == id;
    match child(cells, from as int, n - 1) {
        Some(c) => {
            let first = cell_walk(cells, c).leaves;
            assert(all =~= first + rest);
            if k < first.len() {
                assert(first[k] == id);
                n - 1
            } else {
                assert(rest[k - first.len()] == id);
                lemma_children_walk_from(cells, from, (n - 1) as nat, id)
            }
        },
        None => {
            lemma_children_walk_from(cells, from, (n - 1) as nat, id)
        },
    }
}

/// What the walk over a cell visits is a leaf that can be reached from the
/// cell.
pub proof fn lemma_visited_is_reachable_leaf(cells: Seq<Cell>, from: CellId, id: CellId)
    requires
        cells_wf(cells),
        from < cells.len(),
        cell_walk(cells, from).leaves.contains(id),
    ensures
        reachable(cells, from, id),
        id < cells.len(),
        cells[id as int].is_leaf,
    decreases from,
{
    let leaves = cell_walk(cells, from).leaves;
    let k = choose|k: int| 0 <= k < leaves.len() && leaves[k] == id;
    if cells[from as int].is_leaf {
        assert(leaves[k] == from);
    } else {
        assert(leaves =~= children_walk(cells, from, 8).leaves);
        let o = lemma_children_walk_from(cells, from, 8, id);
        let c = child(cells, from as int, o).unwrap();
        lemma_visited_is_reachable_leaf(cells, c, id);
        lemma_reachable_through(cells, from, id, 8, o);
    }
}

/// A cell that takes part below a cell that can be reached can be reached.
pub(crate) proof fn lemma_participant_reached(
    cells: Seq<Cell>,
    root: CellId,
    parent: CellId,
    octant: int,
)
    requires
        cells_wf(cells),
        root < cells.len(),
        parent < cells.len(),
        reachable(cells, root, parent),
        0 <= octant < 8,
        participant(cells, parent, octant).is_some(),
    ensures
        reachable(cells, root, participant(cells, parent, octant).unwrap()),
{
    if !cells[parent as int].is_leaf {
        lemma_reachable_child(cells, root, parent, octant);
    }
}

pub(crate) proof fn lemma_present_children_reached(
    cells: Seq<Cell>,
    root: CellId,
    id: CellId,
    n: nat,
)
    requires
        cells_wf(cells),
        root < cells.len(),
        id < cells.len(),
        reachable(cells, root, id),
        !cells[id as int].is_leaf,
        n <= 8,
    ensures
        cell_stack_reached(cells, root, present_children(cells, id, n)),
    decreases n,
{
    if n > 0 {
        lemma_present_children_reached(cells, root, id, (n - 1) as nat);
        if child(cells, id as int, n - 1).is_some() {
            lemma_reachable_child(cells, root, id, n - 1);
        }
    }
}

pub(crate) proof fn lemma_interior_faces_reached(cells: Seq<Cell>, root: CellId, id: CellId, n: nat)
    requires
        cells_wf(cells),
        root < cells.len(),
        id < cells.len(),
        reachable(cells, root, id),
        !cells[id as int].is_leaf,
        n <= 12,
    ensures
        face_stack_reached(cells, root, interior_faces(cells, id, n)),
    decreases n,
{
    if n > 0 {
        lemma_interior_faces_reached(cells, root, id, (n - 1) as nat);
        let k = (n - 1) as int;
        let o = FACE_ADJACENT_OCTANTS[k / 4][k % 4];
        if interior_face(cells, id, k / 4, k % 4).is_some() {
            lemma_reachable_child(cells, root, id, o[0] as int);
            lemma_reachable_child(cells, root, id, o[1] as int);
        }
    }
}

pub(crate) proof fn lemma_interior_edges_reached(cells: Seq<Cell>, root: CellId, id: CellId, n: nat)
    requires
        cells_wf(cells),
        root < cells.len(),
        id < cells.len(),
        reachable(cells, root, id),
        !cells[id as int].is_leaf,
        n <= 6,
    ensures
        edge_stack_reached(cells, root, interior_edges(cells, id, n)),
    decreases n,
{
    if n > 0 {
        lemma_interior_edges_reached(cells, root, id, (n - 1) as nat);
        let k = (n - 1) as int;
        let o = EDGE_ADJACENT_OCTANTS[k / 2][k % 2];
        if interior_edge(cells, id, k / 2, k % 2).is_some() {
            lemma_reachable_child(cells, root, id, o[0] as int);
            lemma_reachable_child(cells, root, id, o[1] as int);
            lemma_reachable_child(cells, root, id, o[2] as int);
            lemma_reachable_child(cells, root, id, o[3] as int);
        }
    }
}

pub(crate) proof fn lemma_sub_faces_reached(cells: Seq<Cell>, root: CellId, f: Face, n: nat)
    requires
        cells_wf(cells),
        root < cells.len(),
        face_ok(cells, f),
        face_reached(cells, root, f),
        n <= 4,
    ensures
        face_stack_reached(cells, root, sub_faces(cells, f, n)),
    decreases n,
{
    if n > 0 {
        lemma_sub_faces_reached(cells, root, f, (n - 1) as nat);
        let o = FACE_ADJACENT_OCTANTS[f.axis as int][n - 1];
        if sub_face(cells, f, n - 1).is_some() {
            lemma_participant_reached(cells, root, f.cells[0], o[1] as int);
            lemma_participant_reached(cells, root, f.cells[1], o[0] as int);
        }
    }
}

pub(crate) proof fn lemma_face_edges_reached(cells: Seq<Cell>, root: CellId, f: Face, n: nat)
    requires
        cells_wf(cells),
        root < cells.len(),
        face_ok(cells, f),
        face_reached(cells, root, f),
        n <= 4,
    ensures
        edge_stack_reached(cells, root, face_edges(cells, f, n)),
    decreases n,
{
    if n > 0 {
        lemma_face_edges_reached(cells, root, f, (n - 1) as nat);
        let i = n - 1;
        let o = FACE_TO_EDGE_ADJACENT_OCTANTS[f.axis as int][i];
        if face_edge(cells, f, i).is_some() {
            assert forall|k: int| 0 <= k < 4 implies reachable(
                cells,
                root,
                (#[trigger] face_edge_cell(cells, f, i, k)).unwrap(),
            ) by {
                lemma_participant_reached(
                    cells,
                    root,
                    f.cells[FACE_TO_EDGE_NODE_ORDERS[i][k] as int],
                    o[FACE_TO_EDGE_MIRRORS[i][k] as int] as int,
                );
            }
            assert(face_edge_cell(cells, f, i, 0).is_some());
            assert(face_edge_cell(cells, f, i, 1).is_some());
            assert(face_edge_cell(cells, f, i, 2).is_some());
            assert(face_edge_cell(cells, f, i, 3).is_some());
        }
    }
}

pub(crate) proof fn lemma_sub_edges_reached(cells: Seq<Cell>, root: CellId, e: Edge, n: nat)
    requires
        cells_wf(cells),
        root < cells.len(),
        edge_ok(cells, e),
        edge_reached(cells, root, e),
        n <= 2,
    ensures
        edge_stack_reached(cells, root, sub_edges(cells, e, n)),
    decreases n,
{
    if n > 0 {
        lemma_sub_edges_reached(cells, root, e, (n - 1) as nat);
        let o = EDGE_ADJACENT_OCTANTS[e.axis as int][n - 1];
        if sub_edge(cells, e, n - 1).is_some() {
            let _ = e.cells[0];
            let _ = e.cells[1];
            let _ = e.cells[2];
            let _ = e.cells[3];
            lemma_participant_reached(cells, root, e.cells[0], o[3] as int);
            lemma_participant_reached(cells, root, e.cells[1], o[2] as int);
            lemma_participant_reached(cells, root, e.cells[2], o[1] as int);
            lemma_participant_reached(cells, root, e.cells[3], o[0] as int);
        }
    }
}

/// The facet of an edge between leaves that can be reached joins leaves that
/// the walk from the root visits.
pub(crate) proof fn lemma_leaf_edge_facet_among(cells: Seq<Cell>, root: CellId, e: Edge)
    requires
        cells_wf(cells),
        root < cells.len(),
        edge_ok(cells, e),
        edge_reached(cells, root, e),
        edge_is_terminal(cells, e),
        leaf_edge_facet(cells, e).is_some(),
    ensures
        facet_among(leaf_edge_facet(cells, e).unwrap(), contour_leaves(cells, root)),
{
    let _ = e.cells[0];
    let _ = e.cells[1];
    let _ = e.cells[2];
    let _ = e.cells[3];
    lemma_reachable_leaf_is_visited(cells, root, e.cells[0]);
    lemma_reachable_leaf_is_visited(cells, root, e.cells[1]);
    lemma_reachable_leaf_is_visited(cells, root, e.cells[2]);
    lemma_reachable_leaf_is_visited(cells, root, e.cells[3]);
}

/// Merging never adds leaves: of two octrees over one subdivision, of which the
/// second has merged at least what the first has merged, the contour of the
/// second visits at most as many leaves as that of the first, and at least one.
pub proof fn lemma_coarser_has_fewer_leaves(fine: Seq<Cell>, coarse: Seq<Cell>, id: CellId)
    requires
        cells_wf(fine),
        cells_wf(coarse),
        coarsens(fine, coarse),
        branches_have_children(fine),
        id < fine.len(),
    ensures
        1 <= contour_leaves(coarse, id).len() <= contour_leaves(fine, id).len(),
    decreases id, 9nat,
{
    assert(coarse[id as int].children == fine[id as int].children);
    if !coarse[id as int].is_leaf {
        let o = choose|o: int| 0 <= o < 8 && (#[trigger] child(fine, id as int, o)).is_some();
        lemma_coarser_children(fine, coarse, id, 8, o);
    } else if !fine[id as int].is_leaf {
        let o = choose|o: int| 0 <= o < 8 && (#[trigger] child(fine, id as int, o)).is_some();
        lemma_coarser_children(fine, coarse, id, 8, o);
    }
}

/// The same of the children of a cell in its first `n` octants, of which the
/// one in octant `present` is there.
pub(crate) proof fn lemma_coarser_children(
    fine: Seq<Cell>,
    coarse: Seq<Cell>,
    id: CellId,
    n: nat,
    present: int,
)
    requires
        cells_wf(fine),
        cells_wf(coarse),
        coarsens(fine, coarse),
        branches_have_children(fine),
        id < fine.len(),
        n <= 8,
        0 <= present < 8,
        child(fine, id as int, present).is_some(),
    ensures
        children_walk(coarse, id, n).leaves.len() <= children_walk(fine, id, n).leaves.len(),
        present < n ==> 1 <= children_walk(coarse, id, n).leaves.len(),
    decreases id, n,
{
    assert(coarse[id as int].children == fine[id as int].children);
    if n > 0 {
        lemma_coarser_children(fine, coarse, id, (n - 1) as nat, present);
        assert(child(coarse, id as int, n - 1) == child(fine, id as int, n - 1));
        match child(fine, id as int, n - 1) {
            Some(c) => {
                lemma_coarser_has_fewer_leaves(fine, coarse, c);
            },
            None => {},
        }
    }
}

} // verus!
