//! Building an octree over a scalar field.
//!
//! A cell is divided until the depth bound is reached or the samples at its
//! corners show the surface to be out of reach. On the way back up, a cell
//! whose children all came down to one vertex each is merged into a leaf if
//! the vertex that stands for all of them fits the surface within the
//! tolerance.
use crate::cell_octree::{
    cells_wf, child, first_child, keeps_children, lemma_subtree_low_stable, subtree_low, Cell,
    CellId, CellOctree, Extent,
};
use crate::walk::{coarsens, contour_leaves};
use crate::walk_lemmas::lemma_coarser_has_fewer_leaves;
use crate::mesh::NULL_MESH_VERTEX_ID;
use crate::numerics::Numerics;
use crate::qef::Qef;
use crate::scalar::{at_most, is_at_most, Scalar};
use crate::sdf::{
    branch_empty_check, cell_is_bipolar, cell_qefs, estimate_interior_vertex_qef, is_bipolar,
    is_branch_empty,
};
use vstd::prelude::*;

verus! {

/// The greatest depth to which an octree can be built: an octree of this depth
/// has fewer cells than there are identifiers.
pub const MAX_DEPTH: u8 = 10;

/// The number of cells of a complete octree with `levels` levels below its
/// root.
pub open spec fn capacity(levels: nat) -> nat
    decreases levels,
{
    if levels == 0 {
        1
    } else {
        1 + 8 * capacity((levels - 1) as nat)
    }
}

/// What became of a branch once its children were built.
#[derive(Clone, Copy, Debug)]
pub enum VertexState {
    /// No child holds a part of the surface: the branch is dropped.
    EmptySpace,
    /// The branch is kept as it is, with its children.
    CannotSimplify,
    /// The branch was merged into a leaf; the quadrics are the sums of those
    /// of the leaves below it.
    HasVertex { regularized_qef: Qef, exact_qef: Qef },
}

/// Whether a cell with these samples is made at all: a leaf only if its
/// samples are of both signs, and no cell of which every corner is out of
/// reach of the surface.
pub open spec fn is_materialized(samples: [Scalar; 8], diagonal: Scalar, is_leaf: bool) -> bool {
    !((is_leaf && !is_bipolar(samples)) || is_branch_empty(diagonal, samples))
}

/// The cell as it is made: without children, vertex or mesh vertex.
pub open spec fn fresh_cell(
    extent: Extent,
    samples: [Scalar; 8],
    depth: u8,
    is_leaf: bool,
) -> Cell {
    Cell {
        extent,
        samples,
        children: [None, None, None, None, None, None, None, None],
        vertex_estimate: [0, 0, 0],
        mesh_vertex_id: NULL_MESH_VERTEX_ID,
        qef_error: 0,
        depth,
        is_leaf,
    }
}

/// Whether the cell is as it was made, at the given depth, and has samples of
/// both signs if it was made as a leaf.
pub open spec fn is_fresh(cell: Cell, depth: u8, is_leaf: bool) -> bool {
    &&& cell == fresh_cell(cell.extent, cell.samples, depth, is_leaf)
    &&& is_leaf ==> is_bipolar(cell.samples)
}

/// Whether a branch is merged into a leaf: all of its children that hold a
/// part of the surface came down to one vertex each, its own samples are of
/// both signs, and the error of the merged vertex is within the tolerance.
pub open spec fn is_merged(
    all_children_can_merge: bool,
    samples: [Scalar; 8],
    error: Scalar,
    tolerance: Scalar,
) -> bool {
    all_children_can_merge && is_bipolar(samples) && is_at_most(error, tolerance)
}

/// Whether the cell has no child.
pub open spec fn childless(cell: Cell) -> bool {
    forall|o: int| 0 <= o < 8 ==> (#[trigger] cell.children[o]).is_none()
}

/// What holds of each cell of an octree built to `max_depth` with the given
/// tolerance. A leaf has samples of both signs. A cell without children is a
/// leaf, a cell at the depth bound is a leaf without children. A leaf with
/// children has been merged: the error of its vertex is within the tolerance.
/// No mesh vertex has been given yet.
pub open spec fn cell_built(cell: Cell, max_depth: u8, tolerance: Scalar) -> bool {
    &&& cell.is_leaf ==> is_bipolar(cell.samples)
    &&& cell.depth <= max_depth
    &&& cell.depth == max_depth ==> childless(cell)
    &&& childless(cell) ==> cell.is_leaf
    &&& cell.is_leaf && !childless(cell) ==> is_at_most(cell.qef_error, tolerance)
    &&& cell.mesh_vertex_id == NULL_MESH_VERTEX_ID
}

/// Whether every cell named in `ids` is a leaf.
pub open spec fn ids_are_leaves(cells: Seq<Cell>, ids: [Option<CellId>; 8]) -> bool {
    forall|o: int|
        0 <= o < 8 ==> match #[trigger] ids[o] {
            Some(c) => cells[c as int].is_leaf,
            None => true,
        }
}

/// Whether every child of the cell is a leaf.
pub open spec fn children_are_leaves(cells: Seq<Cell>, id: int) -> bool {
    forall|o: int|
        0 <= o < 8 ==> match #[trigger] child(cells, id, o) {
            Some(c) => cells[c as int].is_leaf,
            None => true,
        }
}

/// What holds of the cells of an octree built to `max_depth` with the given
/// tolerance: of each what `cell_built` says; every child is one level below
/// its parent; and a cell with children is a leaf exactly if it is merged by
/// the rule of `is_merged`, applied to the error that it records.
pub open spec fn cells_built(cells: Seq<Cell>, max_depth: u8, tolerance: Scalar) -> bool {
    &&& forall|id: int|
        0 <= id < cells.len() ==> cell_built(#[trigger] cells[id], max_depth, tolerance)
    &&& forall|id: int|
        0 <= id < cells.len() && !childless(#[trigger] cells[id]) ==> cells[id].is_leaf
            == is_merged(
            children_are_leaves(cells, id),
            cells[id].samples,
            cells[id].qef_error,
            tolerance,
        )
    &&& forall|id: int, o: int|
        0 <= id < cells.len() && 0 <= o < 8 ==> match #[trigger] child(cells, id, o) {
            Some(c) => c < id && cells[c as int].depth == cells[id].depth + 1,
            None => true,
        }
}

/// Every leaf of the octree has samples of both signs.
pub open spec fn leaves_bipolar(cells: Seq<Cell>) -> bool {
    forall|id: int|
        0 <= id < cells.len() && (#[trigger] cells[id]).is_leaf ==> is_bipolar(cells[id].samples)
}

/// An octree built to a depth bound has leaves with samples of both signs
/// only.
pub proof fn lemma_built_leaves_bipolar(cells: Seq<Cell>, max_depth: u8, tolerance: Scalar)
    requires
        cells_built(cells, max_depth, tolerance),
    ensures
        leaves_bipolar(cells),
{
}

/// Whether two octrees are built over one subdivision of one field: they have
/// the same cells but for what merging makes of them, and where both record
/// the error of a merged vertex for a cell, they record the same.
pub open spec fn same_subdivision(a: Seq<Cell>, b: Seq<Cell>) -> bool {
    &&& a.len() == b.len()
    &&& forall|id: int|
        0 <= id < a.len() ==> (#[trigger] b[id]).children == a[id].children && b[id].samples
            == a[id].samples
    &&& forall|id: int|
        0 <= id < a.len() && children_are_leaves(a, id) && children_are_leaves(b, id)
            && is_bipolar(a[id].samples) && !childless(a[id]) ==> (#[trigger] b[id]).qef_error
            == a[id].qef_error
}

/// A leaf of the octree built with the lesser tolerance is a leaf of the one
/// built with the greater.
proof fn lemma_leaf_stays_leaf(
    a: Seq<Cell>,
    b: Seq<Cell>,
    max_depth: u8,
    tolerance: Scalar,
    greater_tolerance: Scalar,
    id: int,
)
    requires
        cells_built(a, max_depth, tolerance),
        cells_built(b, max_depth, greater_tolerance),
        same_subdivision(a, b),
        is_at_most(tolerance, greater_tolerance),
        0 <= id < a.len(),
        a[id].is_leaf,
    ensures
        b[id].is_leaf,
    decreases id,
{
    assert(b[id].children == a[id].children);
    assert(cell_built(a[id], max_depth, tolerance));
    assert(cell_built(b[id], max_depth, greater_tolerance));
    if !childless(a[id]) {
        assert(children_are_leaves(a, id));
        assert forall|o: int| 0 <= o < 8 implies match #[trigger] child(b, id, o) {
            Some(c) => b[c as int].is_leaf,
            None => true,
        } by {
            assert(child(b, id, o) == child(a, id, o));
            match child(a, id, o) {
                Some(c) => {
                    lemma_leaf_stays_leaf(a, b, max_depth, tolerance, greater_tolerance, c as int);
                },
                None => {},
            }
        }
        assert(children_are_leaves(b, id));
    }
}

/// Simplification is monotone in the tolerance: of two octrees built over one
/// subdivision of one field, the one built with the greater tolerance has at
/// most as many leaves to visit as the other.
pub proof fn lemma_simplification_monotone(
    a: Seq<Cell>,
    b: Seq<Cell>,
    root: CellId,
    max_depth: u8,
    tolerance: Scalar,
    greater_tolerance: Scalar,
)
    requires
        cells_wf(a),
        cells_wf(b),
        cells_built(a, max_depth, tolerance),
        cells_built(b, max_depth, greater_tolerance),
        same_subdivision(a, b),
        is_at_most(tolerance, greater_tolerance),
        root < a.len(),
    ensures
        coarsens(a, b),
        1 <= contour_leaves(b, root).len() <= contour_leaves(a, root).len(),
{
    assert forall|id: int| 0 <= id < a.len() implies (#[trigger] b[id]).children == a[id].children
        && (a[id].is_leaf ==> b[id].is_leaf) by {
        if a[id].is_leaf {
            lemma_leaf_stays_leaf(a, b, max_depth, tolerance, greater_tolerance, id);
        }
    }
    assert forall|id: int| 0 <= id < a.len() && !(#[trigger] a[id]).is_leaf implies exists|o: int|
        0 <= o < 8 && (#[trigger] child(a, id, o)).is_some() by {
        assert(cell_built(a[id], max_depth, tolerance));
        assert(!childless(a[id]));
        let o = choose|o: int| 0 <= o < 8 && !(#[trigger] a[id].children[o]).is_none();
        assert(child(a, id, o).is_some());
    }
    lemma_coarser_has_fewer_leaves(a, b, root);
}

/// Whether `after` holds the cells of `before` unchanged, followed by more.
pub open spec fn extends(before: Seq<Cell>, after: Seq<Cell>) -> bool {
    &&& before.len() <= after.len()
    &&& forall|id: int| 0 <= id < before.len() ==> #[trigger] after[id] == before[id]
}

/// What is extended keeps its children.
proof fn lemma_extends_keeps(before: Seq<Cell>, after: Seq<Cell>)
    requires
        extends(before, after),
    ensures
        keeps_children(before, after),
{
}

/// A cell may be added behind its children if their subtrees follow one
/// another in the order of the octants.
pub proof fn lemma_wf_push(cells: Seq<Cell>, cell: Cell)
    requires
        cells_wf(cells),
        cells.len() < u32::MAX,
        forall|o: int|
            0 <= o < 8 ==> match #[trigger] cell.children[o] {
                Some(c) => c < cells.len(),
                None => true,
            },
        forall|o1: int, o2: int|
            0 <= o1 < o2 < 8 ==> match (
                #[trigger] cell.children[o1],
                #[trigger] cell.children[o2],
            ) {
                (Some(c1), Some(c2)) => c1 < subtree_low(cells, c2 as int),
                _ => true,
            },
    ensures
        cells_wf(cells.push(cell)),
        extends(cells, cells.push(cell)),
{
    let after = cells.push(cell);
    assert(extends(cells, after));
    assert forall|id: int, o: int|
        0 <= id < after.len() && 0 <= o < 8 implies match #[trigger] child(
        after,
        id,
        o,
    ) {
        Some(c) => c < id,
        None => true,
    } by {
        if id < cells.len() {
            assert(child(after, id, o) == child(cells, id, o));
        } else {
            assert(child(after, id, o) == cell.children[o]);
        }
    }
    assert forall|id: int, o1: int, o2: int|
        0 <= id < after.len() && 0 <= o1 < o2 < 8 implies match (
        #[trigger] child(after, id, o1),
        #[trigger] child(after, id, o2),
    ) {
        (Some(c1), Some(c2)) => c1 < subtree_low(after, c2 as int),
        _ => true,
    } by {
        if id < cells.len() {
            assert(child(after, id, o1) == child(cells, id, o1));
            assert(child(after, id, o2) == child(cells, id, o2));
        } else {
            assert(child(after, id, o1) == cell.children[o1]);
            assert(child(after, id, o2) == cell.children[o2]);
        }
        match (child(after, id, o1), child(after, id, o2)) {
            (Some(c1), Some(c2)) => {
                lemma_extends_keeps(cells, after);
                lemma_subtree_low_stable(cells, after, c2 as int);
            },
            _ => {},
        }
    }
}

/// At least the root is counted.
proof fn lemma_capacity_positive(levels: nat)
    ensures
        capacity(levels) >= 1,
    decreases levels,
{
    if levels > 0 {
        lemma_capacity_positive((levels - 1) as nat);
    }
}

/// An octree of the greatest depth has fewer cells than there are identifiers.
proof fn lemma_capacity_fits(levels: nat)
    requires
        levels <= MAX_DEPTH,
    ensures
        capacity(levels) < u32::MAX,
    decreases levels,
{
    reveal_with_fuel(capacity, 12);
}

/// The cell that is made of a box: the cell with the samples of the field at
/// the corners of the box, unless a cell with these samples is not made.
pub open spec fn new_cell<N: Numerics>(
    numerics: &N,
    extent: Extent,
    depth: u8,
    is_leaf: bool,
) -> Option<Cell> {
    let samples = numerics.samples_of(extent);
    if is_materialized(samples, numerics.diagonal_of(extent), is_leaf) {
        Some(fresh_cell(extent, samples, depth, is_leaf))
    } else {
        None
    }
}

/// The cell with its vertex placed where the first quadric is least, and with
/// the value of the second quadric there as the error of the vertex.
pub open spec fn with_vertex<N: Numerics>(
    numerics: &N,
    cell: Cell,
    regularized_qef: Qef,
    exact_qef: Qef,
) -> Cell {
    let vertex = numerics.minimizer_of(regularized_qef);
    Cell { vertex_estimate: vertex, qef_error: numerics.error_of(exact_qef, vertex), ..cell }
}

impl Cell {
    /// Makes the cell with the given samples, unless it is not to be made.
    pub fn classified(
        extent: Extent,
        samples: [Scalar; 8],
        diagonal: Scalar,
        depth: u8,
        is_leaf: bool,
    ) -> (r: Option<Cell>)
        ensures
            r == if is_materialized(samples, diagonal, is_leaf) {
                Some(fresh_cell(extent, samples, depth, is_leaf))
            } else {
                None::<Cell>
            },
    {
        // A leaf must have samples of both signs. A branch is kept on the
        // chance that a cell within it has.
        if (is_leaf && !cell_is_bipolar(&samples)) || branch_empty_check(diagonal, &samples) {
            return None;
        }
        Some(
            Cell {
                extent,
                samples,
                children: [None, None, None, None, None, None, None, None],
                vertex_estimate: [0, 0, 0],
                mesh_vertex_id: NULL_MESH_VERTEX_ID,
                qef_error: 0,
                depth,
                is_leaf,
            },
        )
    }

    /// Samples the field at the corners of the box and makes the cell, unless
    /// it is not to be made.
    pub fn new<N: Numerics>(extent: Extent, numerics: &N, depth: u8, is_leaf: bool) -> (r: Option<
        Cell,
    >)
        ensures
            r == new_cell(numerics, extent, depth, is_leaf),
            match r {
                Some(cell) => is_fresh(cell, depth, is_leaf) && cell.extent == extent,
                None => true,
            },
    {
        let samples = numerics.corner_samples(&extent);
        let diagonal = numerics.diagonal(&extent);
        Cell::classified(extent, samples, diagonal, depth, is_leaf)
    }
}

/// Whether the children named in `ids` stand in `cells` as the children of
/// one cell may: each is a cell at depth `depth` whose subtree begins at `low`
/// or later, and their subtrees follow one another in the order of the
/// octants.
pub open spec fn children_placed(
    cells: Seq<Cell>,
    ids: [Option<CellId>; 8],
    low: int,
    depth: int,
) -> bool {
    &&& forall|o: int|
        0 <= o < 8 ==> match #[trigger] ids[o] {
            Some(c) => {
                &&& low <= subtree_low(cells, c as int)
                &&& c < cells.len()
                &&& cells[c as int].depth == depth
            },
            None => true,
        }
    &&& forall|o1: int, o2: int|
        0 <= o1 < o2 < 8 ==> match (#[trigger] ids[o1], #[trigger] ids[o2]) {
            (Some(c1), Some(c2)) => c1 < subtree_low(cells, c2 as int),
            _ => true,
        }
}

/// Children stay placed when cells are added behind them.
proof fn lemma_children_placed_stable(
    before: Seq<Cell>,
    after: Seq<Cell>,
    ids: [Option<CellId>; 8],
    low: int,
    depth: int,
)
    requires
        extends(before, after),
        children_placed(before, ids, low, depth),
    ensures
        children_placed(after, ids, low, depth),
{
    assert forall|o: int| 0 <= o < 8 implies match #[trigger] ids[o] {
        Some(c) => low <= subtree_low(after, c as int) && c < after.len() && after[c as int].depth
            == depth,
        None => true,
    } by {
        match ids[o] {
            Some(c) => {
                lemma_extends_keeps(before, after);
                lemma_subtree_low_stable(before, after, c as int);
            },
            None => {},
        }
    }
    assert forall|o1: int, o2: int| 0 <= o1 < o2 < 8 implies match (
        #[trigger] ids[o1],
        #[trigger] ids[o2],
    ) {
        (Some(c1), Some(c2)) => c1 < subtree_low(after, c2 as int),
        _ => true,
    } by {
        match (ids[o1], ids[o2]) {
            (Some(c1), Some(c2)) => {
                lemma_extends_keeps(before, after);
                lemma_subtree_low_stable(before, after, c2 as int);
            },
            _ => {},
        }
    }
}

/// The subtree of a cell with placed children begins where the subtree of its
/// first child begins.
proof fn lemma_pushed_low(cells: Seq<Cell>, cell: Cell, low: int, depth: int)
    requires
        children_placed(cells, cell.children, low, depth),
        low <= cells.len(),
    ensures
        low <= subtree_low(cells.push(cell), cells.len() as int),
{
    let after = cells.push(cell);
    let id = cells.len() as int;
    assert(extends(cells, after));
    lemma_first_child_is_child(after, id, 0);
    match first_child(after, id, 0) {
        Some(c) => {
            lemma_extends_keeps(cells, after);
            lemma_subtree_low_stable(cells, after, c as int);
        },
        None => {},
    }
}

/// The first present child is one of the children.
proof fn lemma_first_child_is_child(cells: Seq<Cell>, id: int, from: int)
    requires
        0 <= from <= 8,
    ensures
        match first_child(cells, id, from) {
            Some(c) => exists|o: int| from <= o < 8 && #[trigger] child(cells, id, o) == Some(c),
            None => true,
        },
    decreases 8 - from,
{
    if from < 8 {
        if child(cells, id, from).is_none() {
            lemma_first_child_is_child(cells, id, from + 1);
        }
    }
}

impl Cell {
    /// Divides the cell into its eight octants and makes the cell of each,
    /// unless it is not to be made.
    pub fn get_children<N: Numerics>(&self, numerics: &N, is_leaf: bool) -> (r: [Option<Cell>; 8])
        requires
            !self.is_leaf,
            self.depth < u8::MAX,
        ensures
            forall|o: int|
                0 <= o < 8 ==> #[trigger] r[o] == new_cell(
                    numerics,
                    numerics.octants_of(self.extent)[o],
                    (self.depth + 1) as u8,
                    is_leaf,
                ),
            forall|o: int|
                0 <= o < 8 ==> match #[trigger] r[o] {
                    Some(cell) => is_fresh(cell, (self.depth + 1) as u8, is_leaf),
                    None => true,
                },
    {
        let child_extents = numerics.split(&self.extent);
        let mut children: [Option<Cell>; 8] = [None, None, None, None, None, None, None, None];
        let mut octant: usize = 0;
        while octant < 8
            invariant
                octant <= 8,
                self.depth < u8::MAX,
                child_extents == numerics.octants_of(self.extent),
                forall|o: int|
                    0 <= o < octant ==> #[trigger] children[o] == new_cell(
                        numerics,
                        child_extents[o],
                        (self.depth + 1) as u8,
                        is_leaf,
                    ),
                forall|o: int|
                    0 <= o < 8 ==> match #[trigger] children[o] {
                        Some(cell) => is_fresh(cell, (self.depth + 1) as u8, is_leaf),
                        None => true,
                    },
            decreases 8 - octant,
        {
            children[octant] = Cell::new(child_extents[octant], numerics, self.depth + 1, is_leaf);
            octant += 1;
        }
        children
    }

    /// Places the vertex of the cell where the first quadric is least, and
    /// records the value of the second quadric there as the error.
    pub fn estimate_vertex_with_qef<N: Numerics>(
        &mut self,
        numerics: &N,
        regularized_qef: &Qef,
        exact_qef: &Qef,
    )
        ensures
            *final(self) == with_vertex(numerics, *old(self), *regularized_qef, *exact_qef),
    {
        let p = numerics.minimizer(regularized_qef);
        self.qef_error = numerics.error(exact_qef, &p);
        self.vertex_estimate = p;
    }

    /// Estimates the quadrics of the cell from its samples, places its vertex
    /// by them, and returns them: the one that allows for noise, then the exact
    /// one.
    pub fn estimate_vertex<N: Numerics>(&mut self, numerics: &N, precision: Scalar) -> (r: (
        Qef,
        Qef,
    ))
        ensures
            r == cell_qefs(numerics, old(self).extent, old(self).samples, precision),
            *final(self) == with_vertex(numerics, *old(self), r.0, r.1),
    {
        let (regularized_qef, exact_qef) = estimate_interior_vertex_qef(
            &self.extent,
            &self.samples,
            numerics,
            precision,
        );
        self.estimate_vertex_with_qef(numerics, &regularized_qef, &exact_qef);
        (regularized_qef, exact_qef)
    }
}

/// What the children of a branch in its first octants come to: the cells that
/// are made for them and below them, the identifier of the child in each
/// octant, the sums of the quadrics of the children that came down to one
/// vertex, whether all children that hold a part of the surface did so, and
/// whether any child holds a part of the surface.
pub struct Fold {
    pub cells: Seq<Cell>,
    pub ids: Seq<Option<CellId>>,
    pub regularized_qef: Qef,
    pub exact_qef: Qef,
    pub all_can_merge: bool,
    pub any_nonempty: bool,
}

/// What a branch comes to: the cells that are made below it and for it, the
/// branch last, and what became of it.
pub struct Built {
    pub cells: Seq<Cell>,
    pub state: VertexState,
}

/// What the children of `branch` in its first `n` octants come to, where the
/// first cell that is made gets the identifier `base`.
///
/// The child in an octant is the cell made of that octant of the branch, a
/// leaf exactly at the depth bound. A leaf gets its vertex from the quadrics of
/// its own edges; another child is built as a branch in turn.
#[verifier::opaque]
pub open spec fn built_children<N: Numerics>(
    numerics: &N,
    max_depth: u8,
    tolerance: Scalar,
    precision: Scalar,
    branch: Cell,
    base: int,
    n: nat,
) -> Fold
    decreases max_depth - branch.depth, n,
{
    if n == 0 || branch.depth >= max_depth {
        Fold {
            cells: Seq::empty(),
            ids: Seq::new(8, |o: int| None),
            regularized_qef: Qef::zero(),
            exact_qef: Qef::zero(),
            all_can_merge: true,
            any_nonempty: false,
        }
    } else {
        let before = built_children(
            numerics,
            max_depth,
            tolerance,
            precision,
            branch,
            base,
            (n - 1) as nat,
        );
        let octant = n - 1;
        let here = base + before.cells.len();
        match new_cell(
            numerics,
            numerics.octants_of(branch.extent)[octant],
            (branch.depth + 1) as u8,
            branch.depth + 1 == max_depth,
        ) {
            None => before,
            Some(child) => if child.is_leaf {
                let qefs = cell_qefs(numerics, child.extent, child.samples, precision);
                Fold {
                    cells: before.cells.push(with_vertex(numerics, child, qefs.0, qefs.1)),
                    ids: before.ids.update(octant, Some(here as CellId)),
                    regularized_qef: numerics.sum_of(before.regularized_qef, qefs.0),
                    exact_qef: numerics.sum_of(before.exact_qef, qefs.1),
                    any_nonempty: true,
                    ..before
                }
            } else {
                let below = built_branch(numerics, max_depth, tolerance, precision, child, here);
                let id = Some((here + below.cells.len() - 1) as CellId);
                match below.state {
                    VertexState::EmptySpace => before,
                    VertexState::CannotSimplify => Fold {
                        cells: before.cells + below.cells,
                        ids: before.ids.update(octant, id),
                        all_can_merge: false,
                        any_nonempty: true,
                        ..before
                    },
                    VertexState::HasVertex { regularized_qef, exact_qef } => Fold {
                        cells: before.cells + below.cells,
                        ids: before.ids.update(octant, id),
                        regularized_qef: numerics.sum_of(before.regularized_qef, regularized_qef),
                        exact_qef: numerics.sum_of(before.exact_qef, exact_qef),
                        any_nonempty: true,
                        ..before
                    },
                }
            },
        }
    }
}

/// What `branch` comes to, where the first cell that is made gets the
/// identifier `base`.
///
/// A branch of which no child holds a part of the surface comes to nothing.
/// Another branch is made behind the cells of its children, with their
/// identifiers. If all of its children that hold a part of the surface came
/// down to one vertex and its own samples are of both signs, its vertex is
/// placed by the sums of their quadrics; if the error of that vertex is within
/// the tolerance, the branch is merged into a leaf.
#[verifier::opaque]
pub open spec fn built_branch<N: Numerics>(
    numerics: &N,
    max_depth: u8,
    tolerance: Scalar,
    precision: Scalar,
    branch: Cell,
    base: int,
) -> Built
    decreases max_depth - branch.depth, 9nat,
{
    let fold = built_children(numerics, max_depth, tolerance, precision, branch, base, 8);
    if !fold.any_nonempty {
        Built { cells: Seq::empty(), state: VertexState::EmptySpace }
    } else {
        let ids = fold.ids;
        let kept = Cell {
            children: [ids[0], ids[1], ids[2], ids[3], ids[4], ids[5], ids[6], ids[7]],
            ..branch
        };
        if fold.all_can_merge && is_bipolar(branch.samples) {
            let placed = with_vertex(numerics, kept, fold.regularized_qef, fold.exact_qef);
            if is_at_most(placed.qef_error, tolerance) {
                Built {
                    cells: fold.cells.push(Cell { is_leaf: true, ..placed }),
                    state: VertexState::HasVertex {
                        regularized_qef: fold.regularized_qef,
                        exact_qef: fold.exact_qef,
                    },
                }
            } else {
                Built { cells: fold.cells.push(placed), state: VertexState::CannotSimplify }
            }
        } else {
            Built { cells: fold.cells.push(kept), state: VertexState::CannotSimplify }
        }
    }
}

/// The cells of the octree that is built over the field within `root_cell`, if
/// there is one: the root alone where the depth bound is zero, and what the
/// root comes to as a branch otherwise.
pub open spec fn built_cells<N: Numerics>(
    numerics: &N,
    root_cell: Extent,
    max_depth: u8,
    tolerance: Scalar,
    precision: Scalar,
) -> Option<Seq<Cell>> {
    match new_cell(numerics, root_cell, 0, max_depth == 0) {
        None => None,
        Some(root) => if root.is_leaf {
            let qefs = cell_qefs(numerics, root.extent, root.samples, precision);
            Some(seq![with_vertex(numerics, root, qefs.0, qefs.1)])
        } else {
            let built = built_branch(numerics, max_depth, tolerance, precision, root, 0);
            if built.cells.len() == 0 {
                None
            } else {
                Some(built.cells)
            }
        },
    }
}

/// Whether the state of the builder after the first octants of a branch is
/// what the children in these octants come to.
pub open spec fn fold_reached(
    fold: Fold,
    cells_before: Seq<Cell>,
    cells: Seq<Cell>,
    ids: [Option<CellId>; 8],
    regularized_qef: Qef,
    exact_qef: Qef,
    all_can_merge: bool,
    any_nonempty: bool,
) -> bool {
    &&& cells == cells_before + fold.cells
    &&& ids@ == fold.ids
    &&& regularized_qef == fold.regularized_qef
    &&& exact_qef == fold.exact_qef
    &&& all_can_merge == fold.all_can_merge
    &&& any_nonempty == fold.any_nonempty
}

/// Whether the builder has gone from one state to the next as the child of
/// `branch` in `octant` asks.
pub open spec fn step_made<N: Numerics>(
    numerics: &N,
    max_depth: u8,
    tolerance: Scalar,
    precision: Scalar,
    branch: Cell,
    octant: int,
    before: (Seq<Cell>, [Option<CellId>; 8], Qef, Qef, bool, bool),
    after: (Seq<Cell>, [Option<CellId>; 8], Qef, Qef, bool, bool),
) -> bool {
    match new_cell(
        numerics,
        numerics.octants_of(branch.extent)[octant],
        (branch.depth + 1) as u8,
        branch.depth + 1 == max_depth,
    ) {
        None => after == before,
        Some(child) => if child.is_leaf {
            let qefs = cell_qefs(numerics, child.extent, child.samples, precision);
            &&& after.0 == before.0.push(with_vertex(numerics, child, qefs.0, qefs.1))
            &&& after.1@ == before.1@.update(octant, Some(before.0.len() as CellId))
            &&& after.2 == numerics.sum_of(before.2, qefs.0)
            &&& after.3 == numerics.sum_of(before.3, qefs.1)
            &&& after.4 == before.4
            &&& after.5
        } else {
            let below = built_branch(
                numerics,
                max_depth,
                tolerance,
                precision,
                child,
                before.0.len() as int,
            );
            let id = Some((after.0.len() - 1) as CellId);
            &&& after.0 == before.0 + below.cells
            &&& match below.state {
                VertexState::EmptySpace => {
                    &&& after.1 == before.1
                    &&& after.2 == before.2
                    &&& after.3 == before.3
                    &&& after.4 == before.4
                    &&& after.5 == before.5
                },
                VertexState::CannotSimplify => {
                    &&& after.1@ == before.1@.update(octant, id)
                    &&& after.2 == before.2
                    &&& after.3 == before.3
                    &&& !after.4
                    &&& after.5
                },
                VertexState::HasVertex { regularized_qef, exact_qef } => {
                    &&& after.1@ == before.1@.update(octant, id)
                    &&& after.2 == numerics.sum_of(before.2, regularized_qef)
                    &&& after.3 == numerics.sum_of(before.3, exact_qef)
                    &&& after.4 == before.4
                    &&& after.5
                },
            }
        },
    }
}

/// A step of the builder takes it from what the children in the first octants
/// come to to what the children in one more octant come to.
proof fn lemma_fold_step<N: Numerics>(
    numerics: &N,
    max_depth: u8,
    tolerance: Scalar,
    precision: Scalar,
    branch: Cell,
    cells0: Seq<Cell>,
    octant: nat,
    before: (Seq<Cell>, [Option<CellId>; 8], Qef, Qef, bool, bool),
    after: (Seq<Cell>, [Option<CellId>; 8], Qef, Qef, bool, bool),
)
    requires
        octant < 8,
        branch.depth < max_depth,
        fold_reached(
            built_children(
                numerics,
                max_depth,
                tolerance,
                precision,
                branch,
                cells0.len() as int,
                octant,
            ),
            cells0,
            before.0,
            before.1,
            before.2,
            before.3,
            before.4,
            before.5,
        ),
        step_made(numerics, max_depth, tolerance, precision, branch, octant as int, before, after),
    ensures
        fold_reached(
            built_children(
                numerics,
                max_depth,
                tolerance,
                precision,
                branch,
                cells0.len() as int,
                octant + 1,
            ),
            cells0,
            after.0,
            after.1,
            after.2,
            after.3,
            after.4,
            after.5,
        ),
{
    reveal(built_children);
    reveal(built_branch);
    let base = cells0.len() as int;
    let fold = built_children(numerics, max_depth, tolerance, precision, branch, base, octant);
    let next = built_children(
        numerics,
        max_depth,
        tolerance,
        precision,
        branch,
        base,
        octant + 1,
    );
    assert(base + fold.cells.len() == before.0.len());
    match new_cell(
        numerics,
        numerics.octants_of(branch.extent)[octant as int],
        (branch.depth + 1) as u8,
        branch.depth + 1 == max_depth,
    ) {
        None => {},
        Some(child) => {
            if child.is_leaf {
                assert(after.0 =~= cells0 + next.cells);
            } else {
                let below = built_branch(
                    numerics,
                    max_depth,
                    tolerance,
                    precision,
                    child,
                    before.0.len() as int,
                );
                assert(after.0 =~= cells0 + next.cells);
                assert(after.0.len() == base + fold.cells.len() + below.cells.len());
            }
        },
    }
}

impl CellOctree {
    /// Builds the cells below `branch` and then the branch itself, behind the
    /// cells that are there. A branch without a child that holds a part of the
    /// surface is dropped, and nothing is added.
    #[verifier::rlimit(60)]
    pub(crate) fn build_recursive_from_branch<N: Numerics>(
        &mut self,
        max_depth: u8,
        error_tolerance: Scalar,
        precision: Scalar,
        numerics: &N,
        branch: Cell,
    ) -> (r: (Option<CellId>, VertexState))
        requires
            cells_wf(old(self).all_cells@),
            cells_built(old(self).all_cells@, max_depth, error_tolerance),
            !branch.is_leaf,
            branch.depth < max_depth,
            branch.mesh_vertex_id == NULL_MESH_VERTEX_ID,
            old(self).all_cells@.len() + capacity((max_depth - branch.depth) as nat) <= u32::MAX,
        ensures
            ({
                let built = built_branch(
                    numerics,
                    max_depth,
                    error_tolerance,
                    precision,
                    branch,
                    old(self).all_cells@.len() as int,
                );
                &&& final(self).all_cells@ == old(self).all_cells@ + built.cells
                &&& r.1 == built.state
                &&& r.0.is_some() == (built.cells.len() > 0)
            }),
            final(self).root_id == old(self).root_id,
            extends(old(self).all_cells@, final(self).all_cells@),
            cells_wf(final(self).all_cells@),
            cells_built(final(self).all_cells@, max_depth, error_tolerance),
            final(self).all_cells@.len() <= old(self).all_cells@.len() + capacity(
                (max_depth - branch.depth) as nat,
            ),
            match r.0 {
                None => r.1 is EmptySpace && final(self).all_cells@ == old(self).all_cells@,
                Some(id) => {
                    let cell = final(self).all_cells@[id as int];
                    &&& id + 1 == final(self).all_cells@.len()
                    &&& old(self).all_cells@.len() <= subtree_low(final(self).all_cells@, id as int)
                    &&& !(r.1 is EmptySpace)
                    &&& (r.1 is HasVertex) == cell.is_leaf
                    &&& cell.depth == branch.depth
                    &&& cell.extent == branch.extent
                    &&& cell.samples == branch.samples
                },
            },
        decreases max_depth - branch.depth,
    {
        let ghost cells0 = self.all_cells@;
        let ghost low = cells0.len() as int;
        let ghost room = capacity((max_depth - branch.depth - 1) as nat);
        proof {
            lemma_capacity_positive((max_depth - branch.depth - 1) as nat);
        }
        // Create all descendant cells.
        let mut sum_descendant_regularized_qef = Qef::default();
        let mut sum_descendant_exact_qef = Qef::default();
        let mut child_cell_ids: [Option<CellId>; 8] = [
            None,
            None,
            None,
            None,
            None,
            None,
            None,
            None,
        ];
        let mut all_nonempty_children_can_merge = true;
        let mut any_nonempty_children = false;
        let mut has_vert: [bool; 8] = [false, false, false, false, false, false, false, false];
        let children = branch.get_children(numerics, branch.depth + 1 == max_depth);
        proof {
            let fold = built_children(
                numerics,
                max_depth,
                error_tolerance,
                precision,
                branch,
                low,
                0,
            );
            assert(self.all_cells@ =~= cells0 + fold.cells && child_cell_ids@ =~= fold.ids
                && !fold.any_nonempty && fold.all_can_merge && fold.regularized_qef == Qef::zero()
                && fold.exact_qef == Qef::zero()) by {
                reveal(built_children);
                reveal(built_branch);
            }
        }
        let mut octant: usize = 0;
        while octant < 8
            invariant
                octant <= 8,
                self.root_id == old(self).root_id,
                branch.depth < max_depth,
                low == cells0.len(),
                room == capacity((max_depth - branch.depth - 1) as nat),
                room >= 1,
                low + 1 + 8 * room <= u32::MAX,
                extends(cells0, self.all_cells@),
                cells_wf(self.all_cells@),
                cells_built(self.all_cells@, max_depth, error_tolerance),
                self.all_cells@.len() <= low + octant * room,
                children_placed(self.all_cells@, child_cell_ids, low, branch.depth + 1),
                forall|o: int| octant <= o < 8 ==> (#[trigger] child_cell_ids[o]).is_none(),
                forall|o: int|
                    0 <= o < 8 && #[trigger] has_vert[o] ==> match child_cell_ids[o] {
                        Some(c) => self.all_cells@[c as int].is_leaf,
                        None => false,
                    },
                !any_nonempty_children ==> self.all_cells@ == cells0 && forall|o: int|
                    0 <= o < 8 ==> (#[trigger] child_cell_ids[o]).is_none(),
                any_nonempty_children ==> exists|o: int|
                    0 <= o < 8 && (#[trigger] child_cell_ids[o]).is_some(),
                all_nonempty_children_can_merge == ids_are_leaves(
                    self.all_cells@,
                    child_cell_ids,
                ),
                fold_reached(
                    built_children(
                        numerics,
                        max_depth,
                        error_tolerance,
                        precision,
                        branch,
                        low,
                        octant as nat,
                    ),
                    cells0,
                    self.all_cells@,
                    child_cell_ids,
                    sum_descendant_regularized_qef,
                    sum_descendant_exact_qef,
                    all_nonempty_children_can_merge,
                    any_nonempty_children,
                ),
                forall|o: int|
                    0 <= o < 8 ==> #[trigger] children[o] == new_cell(
                        numerics,
                        numerics.octants_of(branch.extent)[o],
                        (branch.depth + 1) as u8,
                        branch.depth + 1 == max_depth,
                    ),
                forall|o: int|
                    0 <= o < 8 ==> match #[trigger] children[o] {
                        Some(cell) => is_fresh(
                            cell,
                            (branch.depth + 1) as u8,
                            branch.depth + 1 == max_depth,
                        ),
                        None => true,
                    },
            decreases 8 - octant,
        {
            let ghost before = self.all_cells@;
            let ghost ids_before = child_cell_ids;
            let ghost state_before = (
                before,
                ids_before,
                sum_descendant_regularized_qef,
                sum_descendant_exact_qef,
                all_nonempty_children_can_merge,
                any_nonempty_children,
            );
            assert(before.len() + room <= low + 8 * room) by (nonlinear_arith)
                requires
                    before.len() <= low + octant * room,
                    octant <= 7,
                    room >= 1,
            ;
            match children[octant] {
                None => {
                    proof {
                        lemma_fold_step(
                            numerics,
                            max_depth,
                            error_tolerance,
                            precision,
                            branch,
                            cells0,
                            octant as nat,
                            state_before,
                            (
                                self.all_cells@,
                                child_cell_ids,
                                sum_descendant_regularized_qef,
                                sum_descendant_exact_qef,
                                all_nonempty_children_can_merge,
                                any_nonempty_children,
                            ),
                        );
                    }
                },
                Some(child) => {
                    let mut child_cell = child;
                    if child_cell.is_leaf {
                        let (regularized_qef, exact_qef) = child_cell.estimate_vertex(
                            numerics,
                            precision,
                        );
                        sum_descendant_regularized_qef =
                        numerics.sum(&sum_descendant_regularized_qef, &regularized_qef);
                        sum_descendant_exact_qef =
                        numerics.sum(&sum_descendant_exact_qef, &exact_qef);

                        any_nonempty_children = true;
                        let child_id = self.all_cells.len() as CellId;
                        proof {
                            lemma_wf_push(before, child_cell);
                            lemma_pushed_low(before, child_cell, child_id as int, 0);
                        }
                        self.all_cells.push(child_cell);
                        child_cell_ids[octant] = Some(child_id);
                        proof {
                            let after = self.all_cells@;
                            assert(after == before.push(child_cell));
                            lemma_children_placed_stable(
                                before,
                                after,
                                ids_before,
                                low,
                                branch.depth + 1,
                            );
                            lemma_place_child(
                                after,
                                ids_before,
                                child_cell_ids,
                                octant as int,
                                child_id,
                                low,
                                branch.depth + 1,
                            );
                            lemma_built_push(before, child_cell, max_depth, error_tolerance);
                            assert(child_cell == with_vertex(
                                numerics,
                                child,
                                regularized_qef,
                                exact_qef,
                            ));
                            lemma_fold_step(
                                numerics,
                                max_depth,
                                error_tolerance,
                                precision,
                                branch,
                                cells0,
                                octant as nat,
                                state_before,
                                (
                                    self.all_cells@,
                                    child_cell_ids,
                                    sum_descendant_regularized_qef,
                                    sum_descendant_exact_qef,
                                    all_nonempty_children_can_merge,
                                    any_nonempty_children,
                                ),
                            );
                        }
                    } else {
                        let (child_id, child_state) = self.build_recursive_from_branch(
                            max_depth,
                            error_tolerance,
                            precision,
                            numerics,
                            child_cell,
                        );
                        match child_state {
                            VertexState::EmptySpace => {},
                            VertexState::CannotSimplify => {
                                any_nonempty_children = true;
                                all_nonempty_children_can_merge = false;
                            },
                            VertexState::HasVertex { regularized_qef, exact_qef } => {
                                any_nonempty_children = true;
                                sum_descendant_regularized_qef =
                                numerics.sum(&sum_descendant_regularized_qef, &regularized_qef);
                                sum_descendant_exact_qef =
                                numerics.sum(&sum_descendant_exact_qef, &exact_qef);
                                has_vert[octant] = true;
                            },
                        }
                        child_cell_ids[octant] = child_id;
                        proof {
                            let after = self.all_cells@;
                            lemma_children_placed_stable(
                                before,
                                after,
                                ids_before,
                                low,
                                branch.depth + 1,
                            );
                            match child_id {
                                Some(id) => {
                                    lemma_place_child(
                                        after,
                                        ids_before,
                                        child_cell_ids,
                                        octant as int,
                                        id,
                                        low,
                                        branch.depth + 1,
                                    );
                                },
                                None => {
                                    assert(child_cell_ids =~= ids_before);
                                },
                            }
                            lemma_fold_step(
                                numerics,
                                max_depth,
                                error_tolerance,
                                precision,
                                branch,
                                cells0,
                                octant as nat,
                                state_before,
                                (
                                    self.all_cells@,
                                    child_cell_ids,
                                    sum_descendant_regularized_qef,
                                    sum_descendant_exact_qef,
                                    all_nonempty_children_can_merge,
                                    any_nonempty_children,
                                ),
                            );
                        }
                    }
                },
            }
            proof {
                let after = self.all_cells@;
                assert(extends(cells0, after));
                assert(forall|o: int|
                    0 <= o < 8 && o != octant ==> #[trigger] child_cell_ids[o] == ids_before[o]);
                lemma_ids_are_leaves_step(before, after, ids_before, child_cell_ids, octant as int);
                assert(after.len() <= low + (octant + 1) * room) by (nonlinear_arith)
                    requires
                        after.len() <= before.len() + room,
                        before.len() <= low + octant * room,
                ;
                assert forall|o: int|
                    0 <= o < 8 && #[trigger] has_vert[o] implies match child_cell_ids[o] {
                    Some(c) => after[c as int].is_leaf,
                    None => false,
                } by {
                    if o != octant {
                        assert(child_cell_ids[o] == ids_before[o]);
                    }
                }
            }
            octant += 1;
        }

        let ghost whole = branch;
        let ghost fold = built_children(
            numerics,
            max_depth,
            error_tolerance,
            precision,
            whole,
            low,
            8,
        );
        if !any_nonempty_children {
            // Empty branch.
            assert(self.all_cells@ =~= cells0 + Seq::<Cell>::empty());
            assert(built_branch(numerics, max_depth, error_tolerance, precision, whole, low) == (
            Built { cells: Seq::empty(), state: VertexState::EmptySpace })) by {
                reveal(built_children);
                reveal(built_branch);
            }
            return (None, VertexState::EmptySpace);
        }
        let mut branch = branch;
        branch.children = child_cell_ids;
        let ghost ids = fold.ids;
        assert(branch.children =~= [
            ids[0],
            ids[1],
            ids[2],
            ids[3],
            ids[4],
            ids[5],
            ids[6],
            ids[7],
        ]);

        // Post-order simplification can change branches into pseudo-leaves.
        let mut vertex_state = VertexState::CannotSimplify;
        if all_nonempty_children_can_merge && cell_is_bipolar(&branch.samples) {
            // The vertex of the branch is estimated, and kept only if it meets
            // the error criterion.
            branch.estimate_vertex_with_qef(
                numerics,
                &sum_descendant_regularized_qef,
                &sum_descendant_exact_qef,
            );
            if at_most(branch.qef_error, error_tolerance) {
                // Simplify by choosing a vertex in this branch node.
                branch.is_leaf = true;
                vertex_state =
                VertexState::HasVertex {
                    regularized_qef: sum_descendant_regularized_qef,
                    exact_qef: sum_descendant_exact_qef,
                };
            }
        }
        if let VertexState::CannotSimplify = vertex_state {
            // Lock child vertices: a child that came down to one vertex stays
            // the leaf that it has become.
            let ghost locked = self.all_cells@;
            let mut o: usize = 0;
            #[verifier::loop_isolation(false)]
            while o < 8
                invariant
                    o <= 8,
                    self.root_id == old(self).root_id,
                    self.all_cells@ == locked,
                decreases 8 - o,
            {
                if has_vert[o] {
                    let child = branch.children[o].unwrap();
                    let mut cell = self.all_cells[child as usize];
                    cell.is_leaf = true;
                    self.all_cells[child as usize] = cell;
                    assert(self.all_cells@ =~= locked);
                }
                o += 1;
            }
        }
        let ghost before = self.all_cells@;
        let branch_id = self.all_cells.len() as CellId;
        proof {
            lemma_wf_push(before, branch);
            lemma_pushed_low(before, branch, low, branch.depth + 1);
            lemma_built_push(before, branch, max_depth, error_tolerance);
            reveal_with_fuel(capacity, 2);
            let built = built_branch(
                numerics,
                max_depth,
                error_tolerance,
                precision,
                whole,
                low,
            );
            assert(before.push(branch) =~= cells0 + built.cells && vertex_state == built.state) by {
                reveal(built_children);
                reveal(built_branch);
            }
        }
        self.all_cells.push(branch);
        (Some(branch_id), vertex_state)
    }
}

impl CellOctree {
    /// Builds the octree over the field that `numerics` samples, within
    /// `root_cell` and down to `max_depth` levels below it, merging cells
    /// whose vertex errs by no more than `error_tolerance`.
    ///
    /// There is no octree where the root is not made or no cell below it
    /// holds a part of the surface; `built_cells` says which cells the octree
    /// has otherwise. An octree that is built is in post-order
    /// with its root last, each of its leaves has samples of both signs, and
    /// its cells at `max_depth` are leaves.
    pub fn build<N: Numerics>(
        root_cell: Extent,
        max_depth: u8,
        error_tolerance: Scalar,
        precision: Scalar,
        numerics: &N,
    ) -> (r: Option<Self>)
        requires
            max_depth <= MAX_DEPTH,
        ensures
            match built_cells(numerics, root_cell, max_depth, error_tolerance, precision) {
                Some(cells) => match r {
                    Some(octree) => octree.cells() == cells && octree.root() + 1 == cells.len(),
                    None => false,
                },
                None => r.is_none(),
            },
            match r {
                Some(octree) => {
                    &&& octree.wf()
                    &&& cells_built(octree.cells(), max_depth, error_tolerance)
                    &&& leaves_bipolar(octree.cells())
                    &&& octree.root() + 1 == octree.cells().len()
                    &&& octree.cells()[octree.root() as int].depth == 0
                    &&& octree.cells()[octree.root() as int].extent == root_cell
                },
                None => true,
            },
    {
        let mut root = match Cell::new(root_cell, numerics, 0, max_depth == 0) {
            Some(cell) => cell,
            None => {
                return None;
            },
        };
        if root.is_leaf {
            let _qef = root.estimate_vertex(numerics, precision);
            let mut all_cells: Vec<Cell> = Vec::new();
            proof {
                lemma_wf_push(all_cells@, root);
                lemma_built_push(all_cells@, root, max_depth, error_tolerance);
            }
            all_cells.push(root);
            let octree = Self::new(0, all_cells);
            proof {
                octree.lemma_fields();
            }
            return Some(octree);
        }
        let mut me = Self::new(0xFFFF_FFFF, Vec::new());
        proof {
            me.lemma_fields();
            lemma_capacity_fits(max_depth as nat);
        }
        let (maybe_root_id, _) = me.build_recursive_from_branch(
            max_depth,
            error_tolerance,
            precision,
            numerics,
            root,
        );
        match maybe_root_id {
            Some(root_id) => {
                me.root_id = root_id;
                proof {
                    me.lemma_fields();
                }
                Some(me)
            },
            None => None,
        }
    }
}

/// Whether all children are leaves once one more octant is filled.
proof fn lemma_ids_are_leaves_step(
    before: Seq<Cell>,
    after: Seq<Cell>,
    ids_before: [Option<CellId>; 8],
    ids: [Option<CellId>; 8],
    octant: int,
)
    requires
        0 <= octant < 8,
        extends(before, after),
        ids_before[octant].is_none(),
        forall|o: int| 0 <= o < 8 && o != octant ==> #[trigger] ids[o] == ids_before[o],
        forall|o: int|
            0 <= o < 8 ==> match #[trigger] ids_before[o] {
                Some(c) => c < before.len(),
                None => true,
            },
    ensures
        ids_are_leaves(after, ids) == (ids_are_leaves(before, ids_before) && match ids[octant] {
            Some(c) => after[c as int].is_leaf,
            None => true,
        }),
{
    if ids_are_leaves(after, ids) {
        assert forall|o: int| 0 <= o < 8 implies match #[trigger] ids_before[o] {
            Some(c) => before[c as int].is_leaf,
            None => true,
        } by {
            if o != octant {
                assert(ids[o] == ids_before[o]);
            }
        }
        let _ = ids[octant];
    }
    if ids_are_leaves(before, ids_before) && (match ids[octant] {
        Some(c) => after[c as int].is_leaf,
        None => true,
    }) {
        assert forall|o: int| 0 <= o < 8 implies match #[trigger] ids[o] {
            Some(c) => after[c as int].is_leaf,
            None => true,
        } by {
            if o != octant {
                assert(ids[o] == ids_before[o]);
                let _ = ids_before[o];
            }
        }
    }
}

/// A child that is added behind its elder siblings is placed with them.
proof fn lemma_place_child(
    cells: Seq<Cell>,
    ids_before: [Option<CellId>; 8],
    ids: [Option<CellId>; 8],
    octant: int,
    id: CellId,
    low: int,
    depth: int,
)
    requires
        0 <= octant < 8,
        children_placed(cells, ids_before, low, depth),
        forall|o: int| octant <= o < 8 ==> (#[trigger] ids_before[o]).is_none(),
        forall|o: int| 0 <= o < 8 && o != octant ==> #[trigger] ids[o] == ids_before[o],
        ids[octant] == Some(id),
        id < cells.len(),
        cells[id as int].depth == depth,
        low <= subtree_low(cells, id as int),
        forall|o: int|
            0 <= o < octant ==> match #[trigger] ids_before[o] {
                Some(c) => c < subtree_low(cells, id as int),
                None => true,
            },
    ensures
        children_placed(cells, ids, low, depth),
{
    assert forall|o: int| 0 <= o < 8 implies match #[trigger] ids[o] {
        Some(c) => low <= subtree_low(cells, c as int) && c < cells.len() && cells[c as int].depth
            == depth,
        None => true,
    } by {
        if o != octant {
            assert(ids[o] == ids_before[o]);
        }
    }
    assert forall|o1: int, o2: int| 0 <= o1 < o2 < 8 implies match (
        #[trigger] ids[o1],
        #[trigger] ids[o2],
    ) {
        (Some(c1), Some(c2)) => c1 < subtree_low(cells, c2 as int),
        _ => true,
    } by {
        if o1 != octant {
            assert(ids[o1] == ids_before[o1]);
        }
        if o2 != octant {
            assert(ids[o2] == ids_before[o2]);
        }
    }
}

/// Whether the children of a cell are leaves is not changed by cells that are
/// added behind the cell.
proof fn lemma_children_are_leaves_stable(before: Seq<Cell>, after: Seq<Cell>, id: int)
    requires
        extends(before, after),
        0 <= id < before.len(),
        forall|o: int|
            0 <= o < 8 ==> match #[trigger] child(before, id, o) {
                Some(c) => c < id,
                None => true,
            },
    ensures
        children_are_leaves(after, id) == children_are_leaves(before, id),
{
    assert forall|o: int| 0 <= o < 8 implies (match #[trigger] child(after, id, o) {
        Some(c) => after[c as int].is_leaf,
        None => true,
    }) == (match child(before, id, o) {
        Some(c) => before[c as int].is_leaf,
        None => true,
    }) by {
        assert(child(after, id, o) == child(before, id, o));
    }
    if children_are_leaves(before, id) {
        assert forall|o: int| 0 <= o < 8 implies match #[trigger] child(after, id, o) {
            Some(c) => after[c as int].is_leaf,
            None => true,
        } by {
            assert(child(after, id, o) == child(before, id, o));
        }
    }
    if children_are_leaves(after, id) {
        assert forall|o: int| 0 <= o < 8 implies match #[trigger] child(before, id, o) {
            Some(c) => before[c as int].is_leaf,
            None => true,
        } by {
            assert(child(after, id, o) == child(before, id, o));
        }
    }
}

/// What is built stays built when a cell is added that is as a built cell is
/// and stands to its children as a built cell does.
proof fn lemma_built_push(cells: Seq<Cell>, cell: Cell, max_depth: u8, tolerance: Scalar)
    requires
        cells_built(cells, max_depth, tolerance),
        cell_built(cell, max_depth, tolerance),
        children_placed(cells, cell.children, 0, cell.depth + 1),
        !childless(cell) ==> cell.is_leaf == is_merged(
            ids_are_leaves(cells, cell.children),
            cell.samples,
            cell.qef_error,
            tolerance,
        ),
    ensures
        cells_built(cells.push(cell), max_depth, tolerance),
{
    let after = cells.push(cell);
    let new_id = cells.len() as int;
    assert(extends(cells, after));
    assert forall|id: int, o: int|
        0 <= id < after.len() && 0 <= o < 8 implies match #[trigger] child(
        after,
        id,
        o,
    ) {
        Some(c) => c < id && after[c as int].depth == after[id].depth + 1,
        None => true,
    } by {
        if id < cells.len() {
            assert(child(after, id, o) == child(cells, id, o));
        } else {
            assert(child(after, id, o) == cell.children[o]);
        }
    }
    assert forall|id: int|
        0 <= id < after.len() && !childless(#[trigger] after[id]) implies after[id].is_leaf
        == is_merged(
        children_are_leaves(after, id),
        after[id].samples,
        after[id].qef_error,
        tolerance,
    ) by {
        if id < cells.len() {
            assert(after[id] == cells[id]);
            lemma_children_are_leaves_stable(cells, after, id);
        } else {
            if ids_are_leaves(cells, cell.children) {
                assert forall|o: int| 0 <= o < 8 implies match #[trigger] child(after, id, o) {
                    Some(c) => after[c as int].is_leaf,
                    None => true,
                } by {
                    assert(child(after, id, o) == cell.children[o]);
                }
            }
            if children_are_leaves(after, id) {
                assert forall|o: int| 0 <= o < 8 implies match #[trigger] cell.children[o] {
                    Some(c) => cells[c as int].is_leaf,
                    None => true,
                } by {
                    assert(child(after, id, o) == cell.children[o]);
                }
            }
        }
    }
}

} // verus!
