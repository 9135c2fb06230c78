//! Classification of a cell by the samples of the field at its corners.
use crate::cell_octree::Extent;
use crate::numerics::Numerics;
use crate::qef::Qef;
use crate::scalar::{
    exceeds_padded, is_infinite, is_nan, is_negative, is_non_negative,
    lemma_out_of_reach_keeps_sign, magnitude_exceeds_padded, negative, non_negative, scaled_value,
    Scalar,
};
use vstd::prelude::*;

verus! {

/// Whether every corner of the cell is farther from the surface than one and
/// a half diagonals of the cell.
pub open spec fn is_branch_empty(extent_diagonal: Scalar, samples: [Scalar; 8]) -> bool {
    forall|i: int| 0 <= i < 8 ==> exceeds_padded(#[trigger] samples[i], extent_diagonal)
}

/// Whether at least one sample is below zero and at least one is zero or
/// above.
pub open spec fn is_bipolar(samples: [Scalar; 8]) -> bool {
    &&& exists|i: int| 0 <= i < 8 && is_negative(#[trigger] samples[i])
    &&& exists|i: int| 0 <= i < 8 && is_non_negative(#[trigger] samples[i])
}

/// Tells whether the surface is out of reach of the cell and of all cells
/// within it: whether the magnitude of the field at every corner exceeds the
/// diagonal of the cell, padded by half. May say no of a cell that the surface
/// does not meet, never yes of one that it meets.
pub fn branch_empty_check(extent_diagonal: Scalar, samples: &[Scalar; 8]) -> (r: bool)
    ensures
        r == is_branch_empty(extent_diagonal, *samples),
{
    let mut i: usize = 0;
    while i < 8
        invariant
            i <= 8,
            forall|j: int| 0 <= j < i ==> exceeds_padded(#[trigger] samples[j], extent_diagonal),
        decreases 8 - i,
    {
        if !magnitude_exceeds_padded(samples[i], extent_diagonal) {
            // Even a cell whose samples all have one sign may meet the
            // surface after further subdivision.
            return false;
        }
        i += 1;
    }
    true
}

/// Pruning is sound for a field that changes by no more than the distance, as
/// a signed distance does. Every point of a cell lies within the diagonal of
/// each corner, so the field at the point differs from the field at the corner
/// by no more than the diagonal; in a branch that is pruned it is then nowhere
/// zero and has everywhere the sign that it has at the corner: the surface does
/// not cross the cell.
pub proof fn lemma_empty_branch_has_no_crossing(
    extent_diagonal: Scalar,
    samples: [Scalar; 8],
    corner: int,
    within: Scalar,
)
    requires
        is_branch_empty(extent_diagonal, samples),
        0 <= corner < 8,
        is_non_negative(extent_diagonal),
        !is_infinite(extent_diagonal),
        !is_infinite(samples[corner]),
        !is_nan(within),
        !is_infinite(within),
        -scaled_value(extent_diagonal) <= scaled_value(within) - scaled_value(samples[corner])
            <= scaled_value(extent_diagonal),
    ensures
        scaled_value(within) != 0,
        is_negative(within) == is_negative(samples[corner]),
{
    lemma_out_of_reach_keeps_sign(samples[corner], extent_diagonal, within);
}

/// Tells whether the samples are of both signs, zero counting as positive.
pub fn cell_is_bipolar(samples: &[Scalar; 8]) -> (r: bool)
    ensures
        r == is_bipolar(*samples),
{
    let mut any_negative = false;
    let mut any_positive = false;
    let mut i: usize = 0;
    while i < 8
        invariant
            i <= 8,
            any_negative == exists|j: int| 0 <= j < i && is_negative(#[trigger] samples[j]),
            any_positive == exists|j: int| 0 <= j < i && is_non_negative(#[trigger] samples[j]),
        decreases 8 - i,
    {
        let sample = samples[i];
        any_negative = any_negative || negative(sample);
        any_positive = any_positive || non_negative(sample);
        i += 1;
    }
    any_negative && any_positive
}

/// The pairs of corners that the twelve edges of a cell join, each corner by
/// its octant code.
pub open spec fn cube_edge_table() -> [[usize; 2]; 12] {
    [
        [0b000, 0b001],
        [0b000, 0b010],
        [0b000, 0b100],
        [0b001, 0b011],
        [0b001, 0b101],
        [0b010, 0b011],
        [0b010, 0b110],
        [0b100, 0b101],
        [0b100, 0b110],
        [0b110, 0b111],
        [0b101, 0b111],
        [0b011, 0b111],
    ]
}

/// The edges of a box as `ilattice` lists them in `Extent::EDGES3`: twelve
/// pairs of corner indices. The contract repeats the list.
#[verifier::external_body]
fn cube_edges() -> (r: [[usize; 2]; 12])
    ensures
        r == cube_edge_table(),
{
    ilattice::extent::Extent::<glam::Vec3A>::EDGES3
}

/// Whether the field changes sign between the two corners: whether exactly
/// one of the two samples is below zero.
pub open spec fn is_bipolar_edge(samples: [Scalar; 8], edge: [usize; 2]) -> bool {
    is_negative(samples[edge[0] as int]) != is_negative(samples[edge[1] as int])
}

/// Those of the first `n` edges of a cell along which the field changes sign,
/// in the order of the table.
pub open spec fn bipolar_edges_of(samples: [Scalar; 8], n: nat) -> Seq<[usize; 2]>
    decreases n,
{
    if n == 0 {
        Seq::empty()
    } else {
        let before = bipolar_edges_of(samples, (n - 1) as nat);
        let edge = cube_edge_table()[n - 1];
        if is_bipolar_edge(samples, edge) {
            before.push(edge)
        } else {
            before
        }
    }
}

/// The edges of a cell along which the field changes sign, each as its two
/// corners.
pub fn bipolar_edges(samples: &[Scalar; 8]) -> (r: Vec<[usize; 2]>)
    ensures
        r@ == bipolar_edges_of(*samples, 12),
        forall|k: int| 0 <= k < r@.len() ==> (#[trigger] r@[k])[0] < 8 && r@[k][1] < 8,
{
    let edges = cube_edges();
    let mut found: Vec<[usize; 2]> = Vec::new();
    let mut i: usize = 0;
    while i < 12
        invariant
            i <= 12,
            edges == cube_edge_table(),
            found@ == bipolar_edges_of(*samples, i as nat),
            forall|k: int|
                0 <= k < found@.len() ==> (#[trigger] found@[k])[0] < 8 && found@[k][1] < 8,
        decreases 12 - i,
    {
        let edge = edges[i];
        assert(edge[0] < 8 && edge[1] < 8);
        if negative(samples[edge[0]]) != negative(samples[edge[1]]) {
            found.push(edge);
        }
        i += 1;
    }
    found
}

/// The sums of the quadrics that the kernel gives for the first `n` of the
/// given edges of a cell: the one that allows for noise, then the exact one.
/// Each sum begins with the zero quadric and takes the edges in their order.
pub open spec fn crossing_sums<N: Numerics>(
    numerics: &N,
    extent: Extent,
    samples: [Scalar; 8],
    precision: Scalar,
    edges: Seq<[usize; 2]>,
    n: nat,
) -> (Qef, Qef)
    decreases n,
{
    if n == 0 {
        (Qef::zero(), Qef::zero())
    } else {
        let before = crossing_sums(numerics, extent, samples, precision, edges, (n - 1) as nat);
        let edge = edges[n - 1];
        let crossing = numerics.crossing_of(extent, samples, edge[0], edge[1], precision);
        (numerics.sum_of(before.0, crossing.0), numerics.sum_of(before.1, crossing.1))
    }
}

/// The quadrics of a cell: the sums of the quadrics that the kernel gives for
/// the edges along which the field changes sign.
pub open spec fn cell_qefs<N: Numerics>(
    numerics: &N,
    extent: Extent,
    samples: [Scalar; 8],
    precision: Scalar,
) -> (Qef, Qef) {
    let edges = bipolar_edges_of(samples, 12);
    crossing_sums(numerics, extent, samples, precision, edges, edges.len())
}

/// Estimates the quadrics of a cell from the planes in which the surface
/// crosses its edges: the sums, over the edges along which the field changes
/// sign, of the quadrics that the kernel gives for the crossing, the one that
/// allows for noise first, the exact one second. Of a cell without such an
/// edge both are zero.
pub fn estimate_interior_vertex_qef<N: Numerics>(
    extent: &Extent,
    samples: &[Scalar; 8],
    numerics: &N,
    precision: Scalar,
) -> (r: (Qef, Qef))
    ensures
        r == cell_qefs(numerics, *extent, *samples, precision),
        bipolar_edges_of(*samples, 12).len() == 0 ==> r.0 == Qef::zero() && r.1 == Qef::zero(),
{
    let mut regularized_qef = Qef::default();
    let mut exact_qef = Qef::default();
    let crossings = bipolar_edges(samples);
    let mut i: usize = 0;
    while i < crossings.len()
        invariant
            i <= crossings@.len(),
            crossings@ == bipolar_edges_of(*samples, 12),
            forall|k: int|
                0 <= k < crossings@.len() ==> (#[trigger] crossings@[k])[0] < 8 && crossings@[k][1]
                    < 8,
            (regularized_qef, exact_qef) == crossing_sums(
                numerics,
                *extent,
                *samples,
                precision,
                crossings@,
                i as nat,
            ),
        decreases crossings@.len() - i,
    {
        let edge = crossings[i];
        let (regularized, exact) = numerics.edge_crossing(
            extent,
            samples,
            edge[0],
            edge[1],
            precision,
        );
        regularized_qef = numerics.sum(&regularized_qef, &regularized);
        exact_qef = numerics.sum(&exact_qef, &exact);
        i += 1;
    }
    (regularized_qef, exact_qef)
}

} // verus!
