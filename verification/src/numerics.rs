//! The arithmetic that the library leaves to its caller.
use crate::cell_octree::Extent;
use crate::qef::Qef;
use crate::scalar::Scalar;
use vstd::prelude::*;

verus! {

/// The scalar field to be contoured together with the arithmetic on scalars
/// that building an octree over it takes.
///
/// The library decides which cells are made, kept and merged; it computes no
/// number. The field is a function of the point, and so is each operation a
/// function of its arguments: what it answers once, it answers always. The
/// contracts name each answer and say no more of it: for an implementation
/// that is not verified, the named function is what the operation computes.
pub trait Numerics {
    /// What `corner_samples` answers.
    spec fn samples_of(&self, extent: Extent) -> [Scalar; 8];

    /// What `diagonal` answers.
    spec fn diagonal_of(&self, extent: Extent) -> Scalar;

    /// What `split` answers.
    spec fn octants_of(&self, extent: Extent) -> [Extent; 8];

    /// What `edge_crossing` answers.
    spec fn crossing_of(
        &self,
        extent: Extent,
        samples: [Scalar; 8],
        corner_a: usize,
        corner_b: usize,
        precision: Scalar,
    ) -> (Qef, Qef);

    /// What `sum` answers.
    spec fn sum_of(&self, a: Qef, b: Qef) -> Qef;

    /// What `minimizer` answers.
    spec fn minimizer_of(&self, qef: Qef) -> [Scalar; 3];

    /// What `error` answers.
    spec fn error_of(&self, qef: Qef, point: [Scalar; 3]) -> Scalar;

    /// The field at the eight corners of the box, the corner of octant code
    /// `i` at index `i`.
    fn corner_samples(&self, extent: &Extent) -> (r: [Scalar; 8])
        ensures
            r == self.samples_of(*extent),
    ;

    /// The length of the diagonal of the box.
    fn diagonal(&self, extent: &Extent) -> (r: Scalar)
        ensures
            r == self.diagonal_of(*extent),
    ;

    /// The eight boxes into which the box falls when it is cut through its
    /// centre, the box of octant code `i` at index `i`.
    fn split(&self, extent: &Extent) -> (r: [Extent; 8])
        ensures
            r == self.octants_of(*extent),
    ;

    /// The quadrics of the plane in which the surface crosses the edge of the
    /// box between the corners `corner_a` and `corner_b`, where the samples
    /// differ in sign: the one that allows for noise of the given precision,
    /// then the exact one.
    ///
    /// The surface crosses the edge at the point `p` where the field, taken to
    /// be linear along the edge, is zero; its normal `n` there is the gradient
    /// of the field by central differences, brought to length one. The exact
    /// quadric of the plane is `A = n n^T`, `b = (p . n) n`, `c = (p . n)^2`.
    /// The other one takes `p` and `n` to be known up to noise that is alike in
    /// all directions, with a standard deviation of `precision` times the first
    /// side of the box for the point and of `precision` for the normal; its
    /// matrix is never singular.
    fn edge_crossing(
        &self,
        extent: &Extent,
        samples: &[Scalar; 8],
        corner_a: usize,
        corner_b: usize,
        precision: Scalar,
    ) -> (r: (Qef, Qef))
        ensures
            r == self.crossing_of(*extent, *samples, corner_a, corner_b, precision),
    ;

    /// The sum of two quadrics, coefficient by coefficient.
    fn sum(&self, a: &Qef, b: &Qef) -> (r: Qef)
        ensures
            r == self.sum_of(*a, *b),
    ;

    /// The point at which the quadric is least: the solution `x` of `A x = b`.
    fn minimizer(&self, qef: &Qef) -> (r: [Scalar; 3])
        ensures
            r == self.minimizer_of(*qef),
    ;

    /// The value `x^T A x - 2 b^T x + c` of the quadric at the point `x`.
    fn error(&self, qef: &Qef, point: &[Scalar; 3]) -> (r: Scalar)
        ensures
            r == self.error_of(*qef, *point),
    ;
}

} // verus!
