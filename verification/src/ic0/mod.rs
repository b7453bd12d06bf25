//! Zero-fill incomplete Cholesky preconditioner.
//!
//! [`Ic0::try_new`] computes a lower-triangular factor `L` such that:
//!
//! - `pattern(L)` equals the *lower triangular* subset of `pattern(A)` (no
//!   fill-in),
//! - `L L^H` agrees with `A` at every entry in `pattern(A)` on or below the
//!   diagonal.
//!
//! Only the lower triangle of the input matrix is used: entries above the
//! diagonal are ignored, so either the full Hermitian matrix or just its lower
//! triangle is accepted. `L` is stored with its diagonal *first* in each
//! column. Refactorising against new values of the same pattern allocates
//! nothing.
use crate::util::text::{not_square, not_square_text, phrase, with_number};
use vstd::prelude::*;

pub mod apply;
pub mod laws;
pub mod numeric;
pub mod symbolic;

pub use numeric::Ic0;
pub use symbolic::SymbolicIc0;

verus! {

/// Error returned by IC(0) construction or refactorisation.
#[derive(Debug, Clone, Copy, PartialEq, Eq, Structural)]
pub enum Ic0Error {
    /// The source matrix was not square.
    NonSquareMatrix { nrows: usize, ncols: usize },
    /// Column `col` of the source matrix does not contain its diagonal entry.
    MissingDiagonal { col: usize },
    /// Row indices in column `col` are not sorted ascending.
    UnsortedRowIndices { col: usize },
    /// A refactorisation was attempted with a matrix whose pattern does not
    /// match the symbolic factor.
    PatternMismatch,
    /// A non-positive pivot was encountered at column `col`: the matrix is not
    /// positive definite, or IC(0) has broken down on a non-H-matrix input.
    NotPositiveDefinite { col: usize },
}

impl Ic0Error {
    /// What the error says.
    pub open spec fn text(self) -> Seq<char> {
        match self {
            Ic0Error::NonSquareMatrix { nrows, ncols } => not_square(nrows, ncols),
            Ic0Error::MissingDiagonal { col } => with_number(
                "column "@,
                col,
                " is missing its diagonal entry"@,
            ),
            Ic0Error::UnsortedRowIndices { col } => with_number(
                "column "@,
                col,
                " has unsorted row indices"@,
            ),
            Ic0Error::PatternMismatch => "refactorisation pattern does not match symbolic"@,
            Ic0Error::NotPositiveDefinite { col } => with_number(
                "encountered a non-positive pivot at column "@,
                col,
                ""@,
            ),
        }
    }

    /// What the error says.
    pub fn message(&self) -> (r: String)
        ensures
            r@ == self.text(),
    {
        match self {
            Ic0Error::NonSquareMatrix { nrows, ncols } => not_square_text(*nrows, *ncols),
            Ic0Error::MissingDiagonal { col } => phrase(
                "column ",
                *col,
                " is missing its diagonal entry",
            ),
            Ic0Error::UnsortedRowIndices { col } => phrase(
                "column ",
                *col,
                " has unsorted row indices",
            ),
            Ic0Error::PatternMismatch => {
                "refactorisation pattern does not match symbolic".to_owned()
            },
            Ic0Error::NotPositiveDefinite { col } => phrase(
                "encountered a non-positive pivot at column ",
                *col,
                "",
            ),
        }
    }
}

} // verus!
