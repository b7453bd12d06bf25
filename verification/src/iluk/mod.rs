//! Level-of-fill incomplete LU preconditioner, ILU(k).
//!
//! Where ILU(0) is locked to `A`'s own sparsity pattern, ILU(k) admits
//! *structural* fill up to a chosen level `k`: entries of `A` have level 0, and
//! each elimination step that meets two entries of levels `a` and `b` can
//! create a fill entry of level `a + b + 1`, kept only while that level stays
//! at most `k`. The pattern depends only on the structure of `A`, so the
//! symbolic factor can be built once and reused.
//!
//! `k = 0` reproduces [`crate::ilu0::Ilu0`] exactly.
use crate::util::text::{not_square, not_square_text, phrase, with_number};
use vstd::prelude::*;

pub mod apply;
pub mod fill;
pub mod laws;
pub mod numeric;
pub mod symbolic;

pub use numeric::Iluk;
pub use symbolic::SymbolicIluk;

verus! {

/// Tuning parameters for the level-of-fill factorisation.
#[derive(Debug, Clone, Copy, PartialEq, Eq, Structural)]
pub struct IlukParams {
    /// Fill level `k`. `0` reproduces ILU(0); higher admits more fill.
    pub level: usize,
}

impl Default for IlukParams {
    fn default() -> (r: Self)
        ensures
            r.level == 1,
    {
        IlukParams { level: 1 }
    }
}

/// Error returned by ILU(k) construction or refactorisation.
#[derive(Debug, Clone, Copy, PartialEq, Eq, Structural)]
pub enum IlukError {
    /// The source matrix was not square.
    NonSquareMatrix { nrows: usize, ncols: usize },
    /// Column `col` of the source matrix does not contain its diagonal entry.
    MissingDiagonal { col: usize },
    /// Row indices in column `col` are not sorted ascending.
    UnsortedRowIndices { col: usize },
    /// A refactorisation was attempted with a matrix whose pattern does not
    /// match the symbolic factor.
    PatternMismatch,
    /// A zero pivot was encountered while eliminating column `col`.
    ZeroPivot { col: usize },
}

impl IlukError {
    /// What the error says.
    pub open spec fn text(self) -> Seq<char> {
        match self {
            IlukError::NonSquareMatrix { nrows, ncols } => not_square(nrows, ncols),
            IlukError::MissingDiagonal { col } => with_number(
                "column "@,
                col,
                " is missing its diagonal entry"@,
            ),
            IlukError::UnsortedRowIndices { col } => with_number(
                "column "@,
                col,
                " has unsorted row indices"@,
            ),
            IlukError::PatternMismatch => "refactorisation pattern does not match symbolic"@,
            IlukError::ZeroPivot { col } => with_number(
                "encountered a zero pivot at column "@,
                col,
                ""@,
            ),
        }
    }

    /// What the error says.
    pub fn message(&self) -> (r: String)
        ensures
            r@ == self.text(),
    {
        match self {
            IlukError::NonSquareMatrix { nrows, ncols } => not_square_text(*nrows, *ncols),
            IlukError::MissingDiagonal { col } => phrase(
                "column ",
                *col,
                " is missing its diagonal entry",
            ),
            IlukError::UnsortedRowIndices { col } => phrase(
                "column ",
                *col,
                " has unsorted row indices",
            ),
            IlukError::PatternMismatch => {
                "refactorisation pattern does not match symbolic".to_owned()
            },
            IlukError::ZeroPivot { col } => phrase("encountered a zero pivot at column ", *col, ""),
        }
    }
}

} // verus!
