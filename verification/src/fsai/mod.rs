//! Factorized sparse approximate inverse (FSAI) preconditioner.
//!
//! FSAI builds an *explicit* approximation to `A^{-1}` for a Hermitian
//! positive-definite `A`: a sparse lower-triangular factor `G ~= L^{-1}` (with
//! `A = L L^H`) such that `M^{-1} = G^H G`. Applying the preconditioner is two
//! sparse products. Each row of `G` comes from an independent small dense
//! positive-definite system.
//!
//! The accuracy/cost knob is the prescribed lower-triangular pattern of `G`, see
//! [`FsaiPattern`]. The dense Cholesky kernel is passed in.
use crate::util::text::{not_square, not_square_text, phrase, with_number};
use vstd::prelude::*;

pub mod apply;
pub mod factor;
pub mod laws;

pub use factor::Fsai;

verus! {

/// Prescribed lower-triangular pattern for the FSAI factor `G`.
#[derive(Debug, Clone, Copy, PartialEq, Eq)]
pub enum FsaiPattern {
    /// Lower triangle of `A`.
    LowerOfA,
    /// Lower triangle of `pattern(A^power)` (`power >= 1`; `1` equals
    /// [`FsaiPattern::LowerOfA`]).
    LowerOfPower { power: usize },
}

impl Default for FsaiPattern {
    fn default() -> (r: Self)
        ensures
            r is LowerOfA,
    {
        FsaiPattern::LowerOfA
    }
}

impl FsaiPattern {
    pub open spec fn power(self) -> int {
        match self {
            FsaiPattern::LowerOfA => 1,
            FsaiPattern::LowerOfPower { power } => power as int,
        }
    }
}

/// Why FSAI construction failed.
#[derive(Debug, Clone, Copy, PartialEq, Eq)]
pub enum FsaiError {
    /// The source matrix was not square.
    NonSquareMatrix { nrows: usize, ncols: usize },
    /// A `LowerOfPower` power of zero was requested.
    InvalidPower,
    /// The local block at row `row` was not positive definite.
    NotPositiveDefinite { row: usize },
}

impl FsaiError {
    /// What the error says.
    pub open spec fn text(self) -> Seq<char> {
        match self {
            FsaiError::NonSquareMatrix { nrows, ncols } => not_square(nrows, ncols),
            FsaiError::InvalidPower => "FSAI pattern power must be at least 1"@,
            FsaiError::NotPositiveDefinite { row } => with_number(
                "local block at row "@,
                row,
                " is not positive definite"@,
            ),
        }
    }

    /// What the error says.
    pub fn message(&self) -> (r: String)
        ensures
            r@ == self.text(),
    {
        match self {
            FsaiError::NonSquareMatrix { nrows, ncols } => not_square_text(*nrows, *ncols),
            FsaiError::InvalidPower => "FSAI pattern power must be at least 1".to_owned(),
            FsaiError::NotPositiveDefinite { row } => phrase(
                "local block at row ",
                *row,
                " is not positive definite",
            ),
        }
    }
}

} // verus!
