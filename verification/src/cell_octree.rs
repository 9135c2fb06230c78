//! The octree of cells: its data, and what makes it well formed.
use crate::mesh::MeshVertexId;
use crate::scalar::Scalar;
use vstd::prelude::*;

verus! {

/// Identifier of a cell: its index in the octree's collection of cells.
pub type CellId = u32;

/// An axis-aligned box: its least corner and the length of each side.
#[derive(Clone, Copy, Debug)]
pub struct Extent {
    pub minimum: [Scalar; 3],
    pub shape: [Scalar; 3],
}

/// A node of the octree.
#[derive(Clone, Copy, Debug)]
pub struct Cell {
    /// The cubic region of space that the cell covers.
    pub extent: Extent,
    /// The field at the eight corners, the corner of octant code `i` at index `i`.
    pub samples: [Scalar; 8],
    /// The child in each octant; an absent child is an empty octant.
    pub children: [Option<CellId>; 8],
    /// The point that stands for the cell in a mesh; it means something for a
    /// leaf only.
    pub vertex_estimate: [Scalar; 3],
    /// The vertex given to the cell in an output mesh, if any.
    pub mesh_vertex_id: MeshVertexId,
    /// The error of `vertex_estimate` against the cell's exact quadric.
    pub qef_error: Scalar,
    /// The number of subdivisions between the root and the cell.
    pub depth: u8,
    /// Whether the contour stops at this cell: it was never divided, or its
    /// descendants were merged into it.
    pub is_leaf: bool,
}

/// Two cells on either side of a face, the one on the negative side of `axis`
/// first.
#[derive(Clone, Copy, Debug)]
pub struct Face {
    pub axis: usize,
    pub cells: [CellId; 2],
}

/// Four cells around an edge along `axis`, in Z order.
#[derive(Clone, Copy, Debug)]
pub struct Edge {
    pub axis: usize,
    pub cells: [CellId; 4],
    /// True if the corresponding cell appears twice on this edge.
    pub is_duplicate: [bool; 4],
}

/// A facet of the contour: the cells whose vertices it joins, in winding order.
#[derive(Clone, Copy, Debug, PartialEq, Eq)]
pub enum Facet {
    Quad([CellId; 4]),
    Triangle([CellId; 3]),
}

/// An octree of cells, held as one collection in which a cell's identifier is
/// its index, with the three stacks that a contour works on.
#[derive(Debug)]
pub struct CellOctree {
    pub(crate) root_id: CellId,
    pub(crate) all_cells: Vec<Cell>,
    pub(crate) cell_stack: Vec<CellId>,
    pub(crate) face_stack: Vec<Face>,
    pub(crate) edge_stack: Vec<Edge>,
}

/// The child of cell `id` in `octant`.
pub open spec fn child(cells: Seq<Cell>, id: int, octant: int) -> Option<CellId> {
    cells[id].children[octant]
}

/// The present child of lowest octant among the octants from `from` on.
pub open spec fn first_child(cells: Seq<Cell>, id: int, from: int) -> Option<CellId>
    decreases 8 - from,
{
    if from < 0 || from >= 8 {
        None
    } else if child(cells, id, from).is_some() {
        child(cells, id, from)
    } else {
        first_child(cells, id, from + 1)
    }
}

/// The least identifier in the subtree of `id`, in a collection that holds
/// each subtree as one run of cells that ends with the subtree's root.
pub open spec fn subtree_low(cells: Seq<Cell>, id: int) -> int
    decreases id,
{
    match first_child(cells, id, 0) {
        Some(c) => if c < id {
            subtree_low(cells, c as int)
        } else {
            id
        },
        None => id,
    }
}

/// Whether neither of two cells lies in the subtree of the other.
pub open spec fn apart(cells: Seq<Cell>, a: int, b: int) -> bool {
    a < subtree_low(cells, b) || b < subtree_low(cells, a)
}

/// The collection holds a forest in post-order: every child comes before its
/// parent, and the subtrees of a cell's children are disjoint runs that follow
/// one another in the order of the octants.
pub open spec fn cells_wf(cells: Seq<Cell>) -> bool {
    &&& cells.len() <= u32::MAX
    &&& forall|id: int, o: int|
        0 <= id < cells.len() && 0 <= o < 8 ==> match #[trigger] child(cells, id, o) {
            Some(c) => c < id,
            None => true,
        }
    &&& forall|id: int, o1: int, o2: int|
        0 <= id < cells.len() && 0 <= o1 < o2 < 8 ==> match (
            #[trigger] child(cells, id, o1),
            #[trigger] child(cells, id, o2),
        ) {
            (Some(c1), Some(c2)) => c1 < subtree_low(cells, c2 as int),
            _ => true,
        }
}

/// Tells whether the cells are held as `cells_wf` asks.
pub fn cells_are_wf(all_cells: &Vec<Cell>) -> (r: bool)
    ensures
        r == cells_wf(all_cells@),
{
    let ghost cells = all_cells@;
    if all_cells.len() > 0xFFFF_FFFF {
        return false;
    }
    // The least identifier in the subtree of each cell seen so far.
    let mut lows: Vec<CellId> = Vec::new();
    let mut id: usize = 0;
    while id < all_cells.len()
        invariant
            id <= all_cells@.len(),
            all_cells@ == cells,
            cells.len() <= u32::MAX,
            lows@.len() == id,
            forall|k: int| 0 <= k < id ==> (#[trigger] lows@[k]) == subtree_low(cells, k),
            cell_wf_below(cells, id as int),
        decreases all_cells@.len() - id,
    {
        let cell = &all_cells[id];
        let mut first: Option<CellId> = None;
        let mut last: Option<CellId> = None;
        let mut octant: usize = 0;
        while octant < 8
            invariant
                octant <= 8,
                id < all_cells@.len(),
                all_cells@ == cells,
                cells.len() <= u32::MAX,
                *cell == cells[id as int],
                lows@.len() == id,
                forall|k: int| 0 <= k < id ==> (#[trigger] lows@[k]) == subtree_low(cells, k),
                cell_wf_below(cells, id as int),
                children_wf_below(cells, id as int, octant as int),
                first == first_child_below(cells, id as int, octant as int),
                last.is_none() == first.is_none(),
                forall|o: int|
                    0 <= o < octant ==> match (#[trigger] child(cells, id as int, o), last) {
                        (Some(c), Some(l)) => c <= l,
                        (Some(c), None) => false,
                        _ => true,
                    },
                match last {
                    Some(l) => l < id && exists|o: int|
                        0 <= o < octant && #[trigger] child(cells, id as int, o) == Some(l),
                    None => true,
                },
                match first {
                    Some(f) => f < id,
                    None => true,
                },
            decreases 8 - octant,
        {
            if let Some(c) = cell.children[octant] {
                assert(child(cells, id as int, octant as int) == Some(c));
                if c as usize >= id {
                    return false;
                }
                if let Some(l) = last {
                    if l >= lows[c as usize] {
                        return false;
                    }
                }
                proof {
                    lemma_subtree_low_bound(cells, c as int);
                }
                if first.is_none() {
                    first = Some(c);
                }
                last = Some(c);
            }
            octant += 1;
        }
        let low = match first {
            Some(c) => lows[c as usize],
            None => id as CellId,
        };
        proof {
            lemma_first_child_below(cells, id as int, 8);
            assert(low == subtree_low(cells, id as int));
            assert(children_wf_below(cells, id_of(id as int), 8));
        }
        lows.push(low);
        id += 1;
    }
    proof {
        assert forall|i: int, o: int|
            0 <= i < cells.len() && 0 <= o < 8 implies match #[trigger] child(
            cells,
            i,
            o,
        ) {
            Some(c) => c < i,
            None => true,
        } by {
            assert(children_wf_below(cells, id_of(i), 8));
        }
        assert forall|i: int, o1: int, o2: int|
            0 <= i < cells.len() && 0 <= o1 < o2 < 8 implies match (
            #[trigger] child(cells, i, o1),
            #[trigger] child(cells, i, o2),
        ) {
            (Some(c1), Some(c2)) => c1 < subtree_low(cells, c2 as int),
            _ => true,
        } by {
            assert(children_wf_below(cells, id_of(i), 8));
        }
    }
    true
}

impl CellOctree {
    /// The cells of the octree, each at the index that is its identifier.
    pub closed spec fn cells(&self) -> Seq<Cell> {
        self.all_cells@
    }

    /// The identifier of the root cell.
    pub closed spec fn root(&self) -> CellId {
        self.root_id
    }

    /// The cells are held in post-order and the root is one of them.
    pub open spec fn wf(&self) -> bool {
        cells_wf(self.cells()) && self.root() < self.cells().len()
    }

    /// What `cells` and `root` stand for, for the modules that work on the
    /// fields.
    pub(crate) proof fn lemma_fields(&self)
        ensures
            self.cells() == self.all_cells@,
            self.root() == self.root_id,
    {
    }

    pub(crate) fn new(root_id: CellId, all_cells: Vec<Cell>) -> (r: Self)
        ensures
            r.cells() == all_cells@,
            r.root() == root_id,
            r.cell_stack@.len() == 0,
            r.face_stack@.len() == 0,
            r.edge_stack@.len() == 0,
    {
        Self {
            root_id,
            all_cells,
            cell_stack: Vec::new(),
            face_stack: Vec::new(),
            edge_stack: Vec::new(),
        }
    }

    /// Makes an octree of cells that were put together by hand, if they are
    /// well formed and `root_id` is one of them.
    pub fn from_cells(root_id: CellId, all_cells: Vec<Cell>) -> (r: Option<Self>)
        ensures
            r.is_some() == (cells_wf(all_cells@) && root_id < all_cells@.len()),
            match r {
                Some(octree) => octree.cells() == all_cells@ && octree.root() == root_id,
                None => true,
            },
    {
        if root_id as usize >= all_cells.len() || !cells_are_wf(&all_cells) {
            return None;
        }
        Some(Self::new(root_id, all_cells))
    }

    /// Tells whether the octree is well formed. One that was built or made of
    /// cells by this library is.
    pub fn is_wf(&self) -> (r: bool)
        ensures
            r == self.wf(),
    {
        (self.root_id as usize) < self.all_cells.len() && cells_are_wf(&self.all_cells)
    }

    /// All cells of the octree, indexable by `CellId`.
    pub fn all_cells(&self) -> (r: &[Cell])
        ensures
            r@ == self.cells(),
    {
        self.all_cells.as_slice()
    }

    /// The identifier of the root cell.
    pub fn root_id(&self) -> (r: CellId)
        ensures
            r == self.root(),
    {
        self.root_id
    }

    /// Gives the cell a vertex of the output mesh.
    pub fn set_mesh_vertex_id(&mut self, cell_id: CellId, mesh_vertex_id: MeshVertexId)
        requires
            cell_id < old(self).cells().len(),
        ensures
            final(self).root() == old(self).root(),
            final(self).cells() == old(self).cells().update(
                cell_id as int,
                Cell { mesh_vertex_id, ..old(self).cells()[cell_id as int] },
            ),
            old(self).wf() ==> final(self).wf(),
    {
        let ghost before = self.all_cells@;
        let mut cell = self.all_cells[cell_id as usize];
        cell.mesh_vertex_id = mesh_vertex_id;
        self.all_cells[cell_id as usize] = cell;
        proof {
            if cells_wf(before) {
                lemma_wf_keeps_children(before, self.all_cells@);
            }
        }
    }

    pub(crate) fn clear_stacks(&mut self)
        ensures
            final(self).all_cells == old(self).all_cells,
            final(self).root_id == old(self).root_id,
            final(self).cell_stack@.len() == 0,
            final(self).face_stack@.len() == 0,
            final(self).edge_stack@.len() == 0,
    {
        self.cell_stack.clear();
        self.face_stack.clear();
        self.edge_stack.clear();
    }
}

/// Whether the cells below `bound` stand to their children as `cells_wf` asks.
pub open spec fn cell_wf_below(cells: Seq<Cell>, bound: int) -> bool {
    forall|id: int| 0 <= id < bound ==> children_wf_below(cells, #[trigger] id_of(id), 8)
}

/// The identifier itself; it marks the cell of which a fact is stated.
pub open spec fn id_of(id: int) -> int {
    id
}

/// Whether the children of cell `id` in the octants below `bound` stand to the
/// cell and to one another as `cells_wf` asks.
pub open spec fn children_wf_below(cells: Seq<Cell>, id: int, bound: int) -> bool {
    &&& forall|o: int|
        0 <= o < bound ==> match #[trigger] child(cells, id, o) {
            Some(c) => c < id,
            None => true,
        }
    &&& forall|o1: int, o2: int|
        0 <= o1 < o2 < bound ==> match (
            #[trigger] child(cells, id, o1),
            #[trigger] child(cells, id, o2),
        ) {
            (Some(c1), Some(c2)) => c1 < subtree_low(cells, c2 as int),
            _ => true,
        }
}

/// The present child of lowest octant among the octants below `bound`.
pub open spec fn first_child_below(cells: Seq<Cell>, id: int, bound: int) -> Option<CellId>
    decreases bound,
{
    if bound <= 0 {
        None
    } else {
        match first_child_below(cells, id, bound - 1) {
            Some(c) => Some(c),
            None => child(cells, id, bound - 1),
        }
    }
}

/// Looking for the first child from below comes to looking for it from above.
proof fn lemma_first_child_below(cells: Seq<Cell>, id: int, bound: int)
    requires
        0 <= bound <= 8,
    ensures
        first_child_below(cells, id, bound).is_none() ==> first_child(cells, id, 0) == first_child(
            cells,
            id,
            bound,
        ),
        first_child_below(cells, id, bound).is_some() ==> first_child(cells, id, 0)
            == first_child_below(cells, id, bound),
    decreases bound,
{
    if bound > 0 {
        lemma_first_child_below(cells, id, bound - 1);
    }
}

/// The subtree of a cell ends with the cell.
pub proof fn lemma_subtree_low_bound(cells: Seq<Cell>, id: int)
    ensures
        subtree_low(cells, id) <= id,
    decreases id,
{
    match first_child(cells, id, 0) {
        Some(c) => {
            if c < id {
                lemma_subtree_low_bound(cells, c as int);
            }
        },
        None => {},
    }
}

/// The first present child is a child, and no child of a lower octant from
/// `from` on is present.
proof fn lemma_first_child(cells: Seq<Cell>, id: int, from: int, o: int)
    requires
        0 <= from <= o < 8,
        child(cells, id, o).is_some(),
    ensures
        first_child(cells, id, from).is_some(),
        exists|f: int|
            from <= f <= o && #[trigger] child(cells, id, f) == first_child(cells, id, from),
    decreases 8 - from,
{
    if child(cells, id, from).is_some() {
    } else {
        lemma_first_child(cells, id, from + 1, o);
    }
}

/// The subtree of a child lies within the subtree of its parent.
pub proof fn lemma_child_within(cells: Seq<Cell>, id: int, o: int)
    requires
        cells_wf(cells),
        0 <= id < cells.len(),
        0 <= o < 8,
        child(cells, id, o).is_some(),
    ensures
        subtree_low(cells, id) <= subtree_low(cells, child(cells, id, o).unwrap() as int),
        subtree_low(cells, child(cells, id, o).unwrap() as int) <= child(
            cells,
            id,
            o,
        ).unwrap(),
        child(cells, id, o).unwrap() < id,
{
    let c = child(cells, id, o).unwrap();
    lemma_subtree_low_bound(cells, c as int);
    lemma_first_child(cells, id, 0, o);
    let f = choose|f: int|
        0 <= f <= o && #[trigger] child(cells, id, f) == first_child(cells, id, 0);
    let c0 = child(cells, id, f).unwrap();
    assert(c0 < id);
    assert(subtree_low(cells, id) == subtree_low(cells, c0 as int));
    if f < o {
        lemma_subtree_low_bound(cells, c0 as int);
    }
}

/// Whether `after` holds at least the cells of `before`, each with the
/// children that it has in `before`.
pub open spec fn keeps_children(before: Seq<Cell>, after: Seq<Cell>) -> bool {
    &&& before.len() <= after.len()
    &&& forall|id: int|
        0 <= id < before.len() ==> (#[trigger] after[id]).children == before[id].children
}

proof fn lemma_first_child_stable(before: Seq<Cell>, after: Seq<Cell>, id: int, from: int)
    requires
        keeps_children(before, after),
        0 <= id < before.len(),
    ensures
        first_child(after, id, from) == first_child(before, id, from),
    decreases 8 - from,
{
    assert(after[id].children == before[id].children);
    if 0 <= from < 8 {
        if child(before, id, from).is_none() {
            lemma_first_child_stable(before, after, id, from + 1);
        }
    }
}

/// A subtree stays as it is where the cells keep their children, whatever is
/// added behind them.
pub proof fn lemma_subtree_low_stable(before: Seq<Cell>, after: Seq<Cell>, id: int)
    requires
        keeps_children(before, after),
        0 <= id < before.len(),
    ensures
        subtree_low(after, id) == subtree_low(before, id),
    decreases id,
{
    lemma_first_child_stable(before, after, id, 0);
    match first_child(before, id, 0) {
        Some(c) => {
            if c < id {
                lemma_subtree_low_stable(before, after, c as int);
            }
        },
        None => {},
    }
}

/// A collection stays well formed where its cells keep their children.
pub proof fn lemma_wf_keeps_children(before: Seq<Cell>, after: Seq<Cell>)
    requires
        cells_wf(before),
        keeps_children(before, after),
        after.len() == before.len(),
    ensures
        cells_wf(after),
{
    assert forall|id: int, o: int|
        0 <= id < after.len() && 0 <= o < 8 implies match #[trigger] child(
        after,
        id,
        o,
    ) {
        Some(c) => c < id,
        None => true,
    } by {
        assert(after[id].children == before[id].children);
        assert(child(after, id, o) == child(before, id, o));
    }
    assert forall|id: int, o1: int, o2: int|
        0 <= id < after.len() && 0 <= o1 < o2 < 8 implies match (
        #[trigger] child(after, id, o1),
        #[trigger] child(after, id, o2),
    ) {
        (Some(c1), Some(c2)) => c1 < subtree_low(after, c2 as int),
        _ => true,
    } by {
        assert(after[id].children == before[id].children);
        assert(child(after, id, o1) == child(before, id, o1));
        assert(child(after, id, o2) == child(before, id, o2));
        match (child(after, id, o1), child(after, id, o2)) {
            (Some(c1), Some(c2)) => {
                lemma_subtree_low_stable(before, after, c2 as int);
            },
            _ => {},
        }
    }
}

/// Cells that are apart stay apart when one is replaced by a cell of its
/// subtree.
pub proof fn lemma_apart_within(cells: Seq<Cell>, a: int, b: int, a2: int)
    requires
        apart(cells, a, b),
        subtree_low(cells, a) <= subtree_low(cells, a2),
        a2 <= a,
    ensures
        apart(cells, a2, b),
        apart(cells, b, a2),
{
}

/// Two children of one cell are apart.
pub proof fn lemma_children_apart(cells: Seq<Cell>, id: int, o1: int, o2: int)
    requires
        cells_wf(cells),
        0 <= id < cells.len(),
        0 <= o1 < 8,
        0 <= o2 < 8,
        o1 != o2,
        child(cells, id, o1).is_some(),
        child(cells, id, o2).is_some(),
    ensures
        apart(
            cells,
            child(cells, id, o1).unwrap() as int,
            child(cells, id, o2).unwrap() as int,
        ),
{
}

/// Cells that are apart differ.
pub proof fn lemma_apart_distinct(cells: Seq<Cell>, a: int, b: int)
    requires
        apart(cells, a, b),
    ensures
        a != b,
{
    lemma_subtree_low_bound(cells, a);
    lemma_subtree_low_bound(cells, b);
}

} // verus!
