//! Sparse approximate inverse (SPAI) preconditioner.
//!
//! SPAI builds an explicit sparse `M ~= A^{-1}` by minimising `||A M - I||_F`.
//! That objective separates by column, so `M` is assembled from independent
//! small least-squares problems. Applying the preconditioner is a single sparse
//! product; the transpose and adjoint are products with the transposed `M`.
//!
//! Unlike [`crate::fsai::Fsai`], SPAI does not assume symmetry.
//!
//! The accuracy/cost knob is the prescribed column pattern of `M`, see
//! [`SpaiPattern`]. The dense least-squares kernel is passed in.
use crate::util::text::{not_square, not_square_text};
use vstd::prelude::*;

pub mod apply;
pub mod factor;
pub mod laws;

pub use factor::Spai;

verus! {

/// Prescribed column pattern for the SPAI factor `M`.
#[derive(Debug, Clone, Copy, PartialEq, Eq)]
pub enum SpaiPattern {
    /// Each column of `M` takes the pattern of the matching column of `A`.
    ColumnsOfA,
    /// Columns take the pattern of `A^power` (`power >= 1`; `1` equals
    /// [`SpaiPattern::ColumnsOfA`]).
    ColumnsOfPower { power: usize },
}

impl Default for SpaiPattern {
    fn default() -> (r: Self)
        ensures
            r is ColumnsOfA,
    {
        SpaiPattern::ColumnsOfA
    }
}

impl SpaiPattern {
    pub open spec fn power(self) -> int {
        match self {
            SpaiPattern::ColumnsOfA => 1,
            SpaiPattern::ColumnsOfPower { power } => power as int,
        }
    }
}

/// Why SPAI construction failed.
#[derive(Debug, Clone, Copy, PartialEq, Eq)]
pub enum SpaiError {
    /// The source matrix was not square.
    NonSquareMatrix { nrows: usize, ncols: usize },
    /// A `ColumnsOfPower` power of zero was requested.
    InvalidPower,
}

impl SpaiError {
    /// What the error says.
    pub open spec fn text(self) -> Seq<char> {
        match self {
            SpaiError::NonSquareMatrix { nrows, ncols } => not_square(nrows, ncols),
            SpaiError::InvalidPower => "SPAI pattern power must be at least 1"@,
        }
    }

    /// What the error says.
    pub fn message(&self) -> (r: String)
        ensures
            r@ == self.text(),
    {
        match self {
            SpaiError::NonSquareMatrix { nrows, ncols } => not_square_text(*nrows, *ncols),
            SpaiError::InvalidPower => "SPAI pattern power must be at least 1".to_owned(),
        }
    }
}

} // verus!
