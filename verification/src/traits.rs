use vstd::prelude::*;

verus! {

/// Errors that can occur during matrix operations and Padé matrix exponential computations.
#[derive(Debug, Clone, Copy, PartialEq, Eq)]
pub enum MathError {
    /// Matrix dimensions do not match the expected `(rows, cols)` dimensions.
    DimensionMismatch { expected: (usize, usize), found: (usize, usize) },
    /// In a matrix product, the column count of the left-hand matrix differs from the
    /// row count of the right-hand matrix.
    IncompatibleInnerDimensions { lhs: (usize, usize), rhs: (usize, usize) },
    /// A square matrix was required.
    NotSquare { rows: usize, cols: usize },
    /// The matrix of a linear system `A X = B` is singular.
    SingularMatrix,
    /// An unsupported Padé degree was requested (supported: 3, 4, 5, 6, 7, 9, 13).
    InvalidPolDeg(usize),
}

} // verus!
