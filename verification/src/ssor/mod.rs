//! SSOR / symmetric Gauss-Seidel preconditioner.
//!
//! SSOR is a *stationary* preconditioner: it asks for no factorisation and adds
//! no fill. It is built straight from `A`'s own splitting `A = D + L + U` (the
//! diagonal, strict-lower and strict-upper parts) and a relaxation factor
//! `w in (0, 2)`:
//!
//! ```text
//! M = 1 / (w (2 - w)) * (D + w L) D^{-1} (D + w U)
//! ```
//!
//! With `w = 1` this is the symmetric Gauss-Seidel preconditioner
//! `(D + L) D^{-1} (D + U)`. Applying `M^{-1}` is one lower triangular solve, a
//! diagonal scaling, and one upper triangular solve.
//!
//! `(D + w L)` keeps its diagonal first in each column and `(D + w U)` keeps it
//! last. The scalar `w (2 - w)` is folded into the diagonal scaling.
use crate::scalar::RealScalar;
use crate::util::text::{not_square, not_square_text, phrase, with_number};
use vstd::prelude::*;

pub mod apply;
pub mod factor;
pub mod laws;

pub use factor::Ssor;

verus! {

/// Tuning parameters for [`Ssor`].
#[derive(Debug, Clone, Copy, PartialEq)]
pub struct SsorParams<R> {
    /// Relaxation factor `w`, required to lie in `(0, 2)`. `w = 1` gives
    /// symmetric Gauss-Seidel. Default one.
    pub omega: R,
}

impl<R: RealScalar> Default for SsorParams<R> {
    fn default() -> (r: Self)
        ensures
            r.is_default(),
    {
        SsorParams { omega: R::from_ratio(1, 1) }
    }
}

impl<R: RealScalar> SsorParams<R> {
    /// The parameters that are used where none are given.
    pub open spec fn is_default(&self) -> bool {
        self.omega == R::ratio(1, 1)
    }
}

/// Why SSOR construction or refactorisation failed.
#[derive(Debug, Clone, Copy, PartialEq, Eq)]
pub enum SsorError {
    /// The source matrix was not square.
    NonSquareMatrix { nrows: usize, ncols: usize },
    /// Column `col` of the source matrix does not contain its diagonal entry.
    MissingDiagonal { col: usize },
    /// Row indices in column `col` are not sorted ascending.
    UnsortedRowIndices { col: usize },
    /// Diagonal entry `col` was zero, so the triangular factors are singular.
    ZeroDiagonal { col: usize },
    /// `omega` was not in the open interval `(0, 2)`.
    InvalidOmega,
    /// A refactorisation was attempted with a matrix whose pattern does not
    /// match the stored factor.
    PatternMismatch,
}

impl SsorError {
    /// What the error says.
    pub open spec fn text(self) -> Seq<char> {
        match self {
            SsorError::NonSquareMatrix { nrows, ncols } => not_square(nrows, ncols),
            SsorError::MissingDiagonal { col } => with_number(
                "column "@,
                col,
                " is missing its diagonal entry"@,
            ),
            SsorError::UnsortedRowIndices { col } => with_number(
                "column "@,
                col,
                " has unsorted row indices"@,
            ),
            SsorError::ZeroDiagonal { col } => with_number("diagonal entry "@, col, " is zero"@),
            SsorError::InvalidOmega => "omega must lie in the open interval (0, 2)"@,
            SsorError::PatternMismatch => "refactorisation pattern does not match"@,
        }
    }

    /// What the error says.
    pub fn message(&self) -> (r: String)
        ensures
            r@ == self.text(),
    {
        match self {
            SsorError::NonSquareMatrix { nrows, ncols } => not_square_text(*nrows, *ncols),
            SsorError::MissingDiagonal { col } => phrase(
                "column ",
                *col,
                " is missing its diagonal entry",
            ),
            SsorError::UnsortedRowIndices { col } => phrase(
                "column ",
                *col,
                " has unsorted row indices",
            ),
            SsorError::ZeroDiagonal { col } => phrase("diagonal entry ", *col, " is zero"),
            SsorError::InvalidOmega => "omega must lie in the open interval (0, 2)".to_owned(),
            SsorError::PatternMismatch => "refactorisation pattern does not match".to_owned(),
        }
    }
}

} // verus!
