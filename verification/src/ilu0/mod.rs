//! Zero-fill incomplete LU preconditioner.
//!
//! Given a sparse CSC matrix `A`, [`Ilu0::try_new`] computes the factors `L`
//! (unit lower) and `U` (upper) such that:
//!
//! - `pattern(L)` and `pattern(U)` are the two triangles of `pattern(A)` (no
//!   fill-in),
//! - `L * U` agrees with `A` at every entry in `pattern(A)`.
//!
//! `L`'s unit diagonal is stored *first* in each column and `U`'s diagonal is
//! stored *last*. Refactorising against new values of the same pattern
//! allocates nothing.
use crate::util::text::{not_square, not_square_text, phrase, with_number};
use vstd::prelude::*;

pub mod apply;
pub mod laws;
pub mod numeric;
pub mod symbolic;

pub use numeric::Ilu0;
pub use symbolic::SymbolicIlu0;

verus! {

/// Error returned by ILU(0) construction or refactorisation.
#[derive(Debug, Clone, Copy, PartialEq, Eq, Structural)]
pub enum Ilu0Error {
    /// The source matrix was not square.
    NonSquareMatrix { nrows: usize, ncols: usize },
    /// Column `col` of the source matrix does not contain its diagonal entry.
    MissingDiagonal { col: usize },
    /// Row indices in column `col` are not sorted ascending.
    UnsortedRowIndices { col: usize },
    /// A refactorisation was attempted with a matrix whose pattern does not
    /// match the symbolic factor.
    PatternMismatch,
    /// A zero pivot was encountered while eliminating column `col`.
    ZeroPivot { col: usize },
}

impl Ilu0Error {
    /// What the error says.
    pub open spec fn text(self) -> Seq<char> {
        match self {
            Ilu0Error::NonSquareMatrix { nrows, ncols } => not_square(nrows, ncols),
            Ilu0Error::MissingDiagonal { col } => with_number(
                "column "@,
                col,
                " is missing its diagonal entry"@,
            ),
            Ilu0Error::UnsortedRowIndices { col } => with_number(
                "column "@,
                col,
                " has unsorted row indices"@,
            ),
            Ilu0Error::PatternMismatch => "refactorisation pattern does not match symbolic"@,
            Ilu0Error::ZeroPivot { col } => with_number(
                "encountered a zero pivot at column "@,
                col,
                ""@,
            ),
        }
    }

    /// What the error says.
    pub fn message(&self) -> (r: String)
        ensures
            r@ == self.text(),
    {
        match self {
            Ilu0Error::NonSquareMatrix { nrows, ncols } => not_square_text(*nrows, *ncols),
            Ilu0Error::MissingDiagonal { col } => phrase(
                "column ",
                *col,
                " is missing its diagonal entry",
            ),
            Ilu0Error::UnsortedRowIndices { col } => phrase(
                "column ",
                *col,
                " has unsorted row indices",
            ),
            Ilu0Error::PatternMismatch => {
                "refactorisation pattern does not match symbolic".to_owned()
            },
            Ilu0Error::ZeroPivot { col } => phrase("encountered a zero pivot at column ", *col, ""),
        }
    }
}

} // verus!
