//! Identifiers of the vertices of an output mesh, and the repair of its
//! normals at sharp features.
use crate::scalar::{is_less_than, less_than, Scalar};
use vstd::prelude::*;

verus! {

/// Index of a vertex in the mesh that a caller assembles from a contour.
pub type MeshVertexId = u32;

/// The identifier of a cell to which no mesh vertex has been given.
pub const NULL_MESH_VERTEX_ID: MeshVertexId = 0xFFFF_FFFF;

/// The arithmetic on vectors that the repair of normals leaves to its caller.
///
/// Each operation is a function of its arguments: what it answers once, it
/// answers always. The contracts name the answer and say no more of it.
pub trait MeshNumerics {
    /// What `triangle_normal` answers.
    spec fn normal_of(&self, corners: [[Scalar; 3]; 3]) -> [Scalar; 3];

    /// What `dot` answers.
    spec fn product_of(&self, a: [Scalar; 3], b: [Scalar; 3]) -> Scalar;

    /// The unit normal of the triangle through three points, by the order of
    /// the points.
    fn triangle_normal(&self, corners: &[[Scalar; 3]; 3]) -> (r: [Scalar; 3])
        ensures
            r == self.normal_of(*corners),
    ;

    /// The inner product of two vectors.
    fn dot(&self, a: &[Scalar; 3], b: &[Scalar; 3]) -> (r: Scalar)
        ensures
            r == self.product_of(*a, *b),
    ;
}

/// The normal of the vertex that corner `k` of the mesh is to get, if it is to
/// get one: the corner belongs to a whole triangle, and the normal of its
/// vertex agrees with the normal of the triangle by less than the threshold.
pub open spec fn own_normal_of<M: MeshNumerics>(
    numerics: &M,
    threshold: Scalar,
    tri: Seq<u32>,
    positions: Seq<[Scalar; 3]>,
    normals: Seq<[Scalar; 3]>,
    k: int,
) -> Option<[Scalar; 3]> {
    let base = 3 * (k / 3);
    if base + 3 > tri.len() {
        None
    } else {
        let tri_normal = numerics.normal_of(
            [
                positions[tri[base] as int],
                positions[tri[base + 1] as int],
                positions[tri[base + 2] as int],
            ],
        );
        if is_less_than(numerics.product_of(normals[tri[k] as int], tri_normal), threshold) {
            Some(tri_normal)
        } else {
            None
        }
    }
}

/// For each corner of the mesh the normal of the vertex that it is to get, if
/// any.
pub open spec fn dissident_normals<M: MeshNumerics>(
    numerics: &M,
    threshold: Scalar,
    tri: Seq<u32>,
    positions: Seq<[Scalar; 3]>,
    normals: Seq<[Scalar; 3]>,
) -> Seq<Option<[Scalar; 3]>> {
    Seq::new(tri.len(), |k: int| own_normal_of(numerics, threshold, tri, positions, normals, k))
}

/// Whether `after` holds the vectors of `before` unchanged, followed by more.
pub open spec fn grows(before: Seq<[Scalar; 3]>, after: Seq<[Scalar; 3]>) -> bool {
    &&& before.len() <= after.len()
    &&& forall|v: int| 0 <= v < before.len() ==> #[trigger] after[v] == before[v]
}

/// Whether the mesh after the repair is the mesh before it with some corners
/// of triangles given vertices of their own: every index is as it was or names
/// a vertex that was added, and the corner lies where it lay.
pub open spec fn corners_kept(
    tri_before: Seq<u32>,
    tri_after: Seq<u32>,
    positions_before: Seq<[Scalar; 3]>,
    positions_after: Seq<[Scalar; 3]>,
) -> bool {
    &&& tri_after.len() == tri_before.len()
    &&& forall|k: int|
        0 <= k < tri_after.len() ==> {
            &&& (#[trigger] tri_after[k]) < positions_after.len()
            &&& positions_after[tri_after[k] as int] == positions_before[tri_before[k] as int]
            &&& tri_after[k] == tri_before[k] || tri_after[k] >= positions_before.len()
        }
}

/// How many of the first `n` corners are given a vertex of their own.
pub open spec fn own_count(own: Seq<Option<[Scalar; 3]>>, n: int) -> nat
    decreases n,
{
    if n <= 0 {
        0
    } else {
        own_count(own, n - 1) + if own[n - 1].is_some() {
            1nat
        } else {
            0nat
        }
    }
}

/// The positions of the vertices that the first `n` corners are given: for
/// each corner that gets a vertex of its own, the position of the vertex that
/// it had.
pub open spec fn own_positions(
    tri: Seq<u32>,
    positions: Seq<[Scalar; 3]>,
    own: Seq<Option<[Scalar; 3]>>,
    n: int,
) -> Seq<[Scalar; 3]>
    decreases n,
{
    if n <= 0 {
        Seq::empty()
    } else {
        let before = own_positions(tri, positions, own, n - 1);
        if own[n - 1].is_some() {
            before.push(positions[tri[n - 1] as int])
        } else {
            before
        }
    }
}

/// The normals of the vertices that the first `n` corners are given.
pub open spec fn own_normals(own: Seq<Option<[Scalar; 3]>>, n: int) -> Seq<[Scalar; 3]>
    decreases n,
{
    if n <= 0 {
        Seq::empty()
    } else {
        let before = own_normals(own, n - 1);
        match own[n - 1] {
            Some(normal) => before.push(normal),
            None => before,
        }
    }
}

/// As many positions and normals are added as corners get a vertex of their
/// own, which are at most all.
pub proof fn lemma_own_count(
    tri: Seq<u32>,
    positions: Seq<[Scalar; 3]>,
    own: Seq<Option<[Scalar; 3]>>,
    n: int,
)
    requires
        0 <= n,
    ensures
        own_positions(tri, positions, own, n).len() == own_count(own, n),
        own_normals(own, n).len() == own_count(own, n),
        own_count(own, n) <= n,
    decreases n,
{
    if n > 0 {
        lemma_own_count(tri, positions, own, n - 1);
    }
}

/// Gives each corner for which `own` holds a normal a vertex of its own: a new
/// vertex at the position of the one that the corner had, with that normal.
/// The new vertices are added in the order of the corners.
pub fn give_own_vertices(
    tri_indices: &mut Vec<u32>,
    positions: &mut Vec<[Scalar; 3]>,
    normals: &mut Vec<[Scalar; 3]>,
    own: &Vec<Option<[Scalar; 3]>>,
)
    requires
        own@.len() == old(tri_indices)@.len(),
        old(positions)@.len() == old(normals)@.len(),
        old(positions)@.len() + old(tri_indices)@.len() <= u32::MAX,
        forall|k: int|
            0 <= k < old(tri_indices)@.len() ==> (#[trigger] old(tri_indices)@[k]) < old(
                positions,
            )@.len(),
    ensures
        final(tri_indices)@.len() == old(tri_indices)@.len(),
        forall|k: int|
            0 <= k < own@.len() ==> #[trigger] final(tri_indices)@[k] == (if own@[k].is_some() {
                old(positions)@.len() + own_count(own@, k)
            } else {
                old(tri_indices)@[k] as nat
            }),
        final(positions)@ == old(positions)@ + own_positions(
            old(tri_indices)@,
            old(positions)@,
            own@,
            own@.len() as int,
        ),
        final(normals)@ == old(normals)@ + own_normals(own@, own@.len() as int),
{
    let ghost tri0 = tri_indices@;
    let ghost positions0 = positions@;
    let ghost normals0 = normals@;
    let mut k: usize = 0;
    while k < tri_indices.len()
        invariant
            k <= tri0.len(),
            own@.len() == tri0.len(),
            tri_indices@.len() == tri0.len(),
            positions0.len() == normals0.len(),
            positions0.len() + tri0.len() <= u32::MAX,
            forall|j: int| 0 <= j < tri0.len() ==> (#[trigger] tri0[j]) < positions0.len(),
            forall|j: int| k <= j < tri0.len() ==> #[trigger] tri_indices@[j] == tri0[j],
            forall|j: int|
                0 <= j < k ==> #[trigger] tri_indices@[j] == (if own@[j].is_some() {
                    positions0.len() + own_count(own@, j)
                } else {
                    tri0[j] as nat
                }),
            positions@ == positions0 + own_positions(tri0, positions0, own@, k as int),
            normals@ == normals0 + own_normals(own@, k as int),
        decreases tri0.len() - k,
    {
        proof {
            lemma_own_count(tri0, positions0, own@, k as int);
        }
        if let Some(normal) = own[k] {
            let new_vert = positions.len() as MeshVertexId;
            let position = positions[tri_indices[k] as usize];
            positions.push(position);
            normals.push(normal);
            tri_indices[k] = new_vert;
        }
        k += 1;
        assert(positions@ =~= positions0 + own_positions(tri0, positions0, own@, k as int));
        assert(normals@ =~= normals0 + own_normals(own@, k as int));
    }
}

/// What `give_own_vertices` does keeps every corner where it lay.
proof fn lemma_own_vertices_keep_corners(
    tri: Seq<u32>,
    positions: Seq<[Scalar; 3]>,
    own: Seq<Option<[Scalar; 3]>>,
    k: int,
)
    requires
        own.len() == tri.len(),
        0 <= k < tri.len(),
        own[k].is_some(),
    ensures
        own_count(own, k) < own_positions(tri, positions, own, tri.len() as int).len(),
        own_positions(tri, positions, own, tri.len() as int)[own_count(own, k) as int]
            == positions[tri[k] as int],
{
    lemma_own_position_at(tri, positions, own, k, tri.len() as int);
}

proof fn lemma_own_position_at(
    tri: Seq<u32>,
    positions: Seq<[Scalar; 3]>,
    own: Seq<Option<[Scalar; 3]>>,
    k: int,
    n: int,
)
    requires
        0 <= k < n,
        own[k].is_some(),
    ensures
        own_count(own, k) < own_positions(tri, positions, own, n).len(),
        own_positions(tri, positions, own, n)[own_count(own, k) as int] == positions[tri[k] as int],
    decreases n,
{
    lemma_own_count(tri, positions, own, k);
    lemma_own_count(tri, positions, own, n - 1);
    if k < n - 1 {
        lemma_own_position_at(tri, positions, own, k, n - 1);
    }
}

/// Repairs the normals of vertices on sharp edges.
///
/// A corner of a triangle whose vertex has a normal that agrees with the normal
/// of the triangle by less than `normal_similarity_threshold` (as the inner
/// product of the two) is given a vertex of its own, at the same position and
/// with the normal of the triangle. Indices behind the last whole triangle are
/// left alone. The new vertices are added in the order of the corners.
pub fn repair_sharp_normals<M: MeshNumerics>(
    numerics: &M,
    normal_similarity_threshold: Scalar,
    tri_indices: &mut Vec<u32>,
    positions: &mut Vec<[Scalar; 3]>,
    normals: &mut Vec<[Scalar; 3]>,
)
    requires
        old(positions)@.len() == old(normals)@.len(),
        old(positions)@.len() + old(tri_indices)@.len() <= u32::MAX,
        forall|k: int|
            0 <= k < old(tri_indices)@.len() ==> (#[trigger] old(tri_indices)@[k]) < old(
                positions,
            )@.len(),
    ensures
        final(tri_indices)@.len() == old(tri_indices)@.len(),
        ({
            let own = dissident_normals(
                numerics,
                normal_similarity_threshold,
                old(tri_indices)@,
                old(positions)@,
                old(normals)@,
            );
            &&& forall|k: int|
                0 <= k < own.len() ==> #[trigger] final(tri_indices)@[k] == (if own[k].is_some() {
                    old(positions)@.len() + own_count(own, k)
                } else {
                    old(tri_indices)@[k] as nat
                })
            &&& final(positions)@ == old(positions)@ + own_positions(
                old(tri_indices)@,
                old(positions)@,
                own,
                own.len() as int,
            )
            &&& final(normals)@ == old(normals)@ + own_normals(own, own.len() as int)
        }),
        final(positions)@.len() == final(normals)@.len(),
        final(positions)@.len() <= old(positions)@.len() + old(tri_indices)@.len(),
        grows(old(positions)@, final(positions)@),
        grows(old(normals)@, final(normals)@),
        corners_kept(old(tri_indices)@, final(tri_indices)@, old(positions)@, final(positions)@),
        forall|k: int|
            3 * (old(tri_indices)@.len() / 3) <= k < old(tri_indices)@.len()
                ==> #[trigger] final(tri_indices)@[k] == old(tri_indices)@[k],
{
    let ghost tri0 = tri_indices@;
    let ghost positions0 = positions@;
    let ghost normals0 = normals@;
    let ghost threshold = normal_similarity_threshold;
    let triangles = tri_indices.len() / 3;
    // For each corner the normal of the vertex that it is to get, if any.
    let mut own: Vec<Option<[Scalar; 3]>> = Vec::new();
    let mut t: usize = 0;
    while t < triangles
        invariant
            t <= triangles,
            triangles == tri0.len() / 3,
            tri0.len() <= usize::MAX,
            tri_indices@ == tri0,
            positions@ == positions0,
            normals@ == normals0,
            positions@.len() == normals@.len(),
            threshold == normal_similarity_threshold,
            own@.len() == 3 * t,
            forall|k: int| 0 <= k < tri0.len() ==> (#[trigger] tri0[k]) < positions0.len(),
            forall|k: int|
                0 <= k < own@.len() ==> #[trigger] own@[k] == own_normal_of(
                    numerics,
                    threshold,
                    tri0,
                    positions0,
                    normals0,
                    k,
                ),
        decreases triangles - t,
    {
        let base: usize = 3 * t;
        let tri: [u32; 3] = [tri_indices[base], tri_indices[base + 1], tri_indices[base + 2]];
        assert(tri[0] == tri0[base as int] && tri[1] == tri0[base + 1] && tri[2] == tri0[base + 2]);
        let n: [[Scalar; 3]; 3] = [
            normals[tri[0] as usize],
            normals[tri[1] as usize],
            normals[tri[2] as usize],
        ];
        let p: [[Scalar; 3]; 3] = [
            positions[tri[0] as usize],
            positions[tri[1] as usize],
            positions[tri[2] as usize],
        ];
        let tri_normal = numerics.triangle_normal(&p);

        // Force dissident normals to use the normal of the triangle.
        let mut ti: usize = 0;
        while ti < 3
            invariant
                ti <= 3,
                t < triangles,
                triangles == tri0.len() / 3,
                base == 3 * t,
                own@.len() == 3 * t + ti,
                threshold == normal_similarity_threshold,
                tri_normal == numerics.normal_of(p),
                p == [
                    positions0[tri0[base as int] as int],
                    positions0[tri0[base + 1] as int],
                    positions0[tri0[base + 2] as int],
                ],
                forall|j: int| 0 <= j < 3 ==> (#[trigger] n[j]) == normals0[tri0[base + j] as int],
                forall|k: int|
                    0 <= k < own@.len() ==> #[trigger] own@[k] == own_normal_of(
                        numerics,
                        threshold,
                        tri0,
                        positions0,
                        normals0,
                        k,
                    ),
            decreases 3 - ti,
        {
            if less_than(numerics.dot(&n[ti], &tri_normal), normal_similarity_threshold) {
                own.push(Some(tri_normal));
            } else {
                own.push(None);
            }
            ti += 1;
        }
        t += 1;
    }
    while own.len() < tri_indices.len()
        invariant
            3 * triangles <= own@.len() <= tri0.len(),
            triangles == tri0.len() / 3,
            tri_indices@ == tri0,
            forall|k: int| 3 * triangles <= k < own@.len() ==> (#[trigger] own@[k]).is_none(),
            forall|k: int|
                0 <= k < own@.len() ==> #[trigger] own@[k] == own_normal_of(
                    numerics,
                    threshold,
                    tri0,
                    positions0,
                    normals0,
                    k,
                ),
        decreases tri0.len() - own@.len(),
    {
        own.push(None);
    }
    assert(own@ =~= dissident_normals(numerics, threshold, tri0, positions0, normals0));
    give_own_vertices(tri_indices, positions, normals, &own);
    proof {
        let n = tri0.len() as int;
        lemma_own_count(tri0, positions0, own@, n);
        assert forall|k: int| 0 <= k < n implies {
            &&& (#[trigger] tri_indices@[k]) < positions@.len()
            &&& positions@[tri_indices@[k] as int] == positions0[tri0[k] as int]
            &&& tri_indices@[k] == tri0[k] || tri_indices@[k] >= positions0.len()
        } by {
            if own@[k].is_some() {
                lemma_own_vertices_keep_corners(tri0, positions0, own@, k);
            }
        }
    }
}

} // verus!
