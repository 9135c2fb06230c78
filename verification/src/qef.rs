//! The coefficients of a quadric error function.
use crate::scalar::Scalar;
use vstd::prelude::*;

verus! {

/// A quadric error function `x^T A x - 2 b^T x + c`, the sum of the squared
/// distances of `x` from a set of planes.
///
/// `A` is symmetric, so one triangle of it is kept. The library keeps the
/// coefficients and passes them on; evaluating and minimizing the function is
/// the work of the caller's numeric kernel.
#[derive(Clone, Copy, Debug)]
pub struct Qef {
    pub a00: Scalar,
    pub a01: Scalar,
    pub a02: Scalar,
    pub a11: Scalar,
    pub a12: Scalar,
    pub a22: Scalar,
    pub b: [Scalar; 3],
    pub c: Scalar,
}

impl Qef {
    /// The function that is zero everywhere: the sum of no planes.
    pub open spec fn zero() -> Self {
        Qef { a00: 0, a01: 0, a02: 0, a11: 0, a12: 0, a22: 0, b: [0, 0, 0], c: 0 }
    }

    /// The function with the matrix `A` given by its columns, of which the
    /// part on and below the diagonal is kept.
    pub fn from_coefficients(a_cols: [[Scalar; 3]; 3], b: [Scalar; 3], c: Scalar) -> (r: Self)
        ensures
            r == (Qef {
                a00: a_cols[0][0],
                a01: a_cols[0][1],
                a02: a_cols[0][2],
                a11: a_cols[1][1],
                a12: a_cols[1][2],
                a22: a_cols[2][2],
                b,
                c,
            }),
    {
        Self {
            a00: a_cols[0][0],
            a01: a_cols[0][1],
            a02: a_cols[0][2],
            a11: a_cols[1][1],
            a12: a_cols[1][2],
            a22: a_cols[2][2],
            b,
            c,
        }
    }
}

impl Default for Qef {
    fn default() -> (r: Self)
        ensures
            r == Qef::zero(),
    {
        Qef { a00: 0, a01: 0, a02: 0, a11: 0, a12: 0, a22: 0, b: [0, 0, 0], c: 0 }
    }
}

} // verus!
