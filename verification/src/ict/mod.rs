//! Threshold incomplete Cholesky preconditioner (ICT).
//!
//! The symmetric-positive-definite factorisation made *adaptive*: instead of
//! being locked to `A`'s sparsity pattern, it keeps the most significant fill
//! each column produces, governed by a relative drop tolerance and a per-column
//! fill budget, and discards the rest. The pattern depends on the values, so
//! there is no separate symbolic phase.
//!
//! The factor `L` is stored with its diagonal *first* in each column.
use crate::scalar::RealScalar;
use crate::util::text::{not_square, not_square_text, phrase, with_number};
use vstd::prelude::*;

pub mod apply;
pub mod choices;
pub mod dropping;
pub mod laws;
pub mod numeric;
pub mod order;
pub mod scaling;
pub mod ties;
pub mod unique;

pub use crate::ilutp::{FillControl, RowNorm};
pub use numeric::Ict;

verus! {

/// Tuning parameters for [`Ict`].
#[derive(Debug, Clone, Copy, PartialEq)]
pub struct IctParams<R> {
    /// Relative drop tolerance. An entry is dropped when its magnitude is below
    /// `drop_tol * ||column||`. Default `1e-3`.
    pub drop_tol: R,
    /// Per-column fill budget. Default `FillControl::Factor(5.0)`.
    pub fill: FillControl<R>,
    /// Norm used to scale `drop_tol`. Default `RowNorm::Two`.
    pub norm: RowNorm,
}

/// Error returned by ICT construction or refactorisation.
#[derive(Debug, Clone, Copy, PartialEq, Eq, Structural)]
pub enum IctError {
    /// The source matrix was not square.
    NonSquareMatrix { nrows: usize, ncols: usize },
    /// A non-positive pivot was encountered at column `col`: the matrix is not
    /// positive definite, or ICT has broken down for these parameters.
    NotPositiveDefinite { col: usize },
    /// A refactorisation was attempted with a matrix of a different dimension.
    PatternMismatch,
    /// `drop_tol` was negative or not finite.
    InvalidDropTol,
    /// `FillControl::Factor` was non-positive or not finite.
    InvalidFillControl,
}

impl IctError {
    /// What the error says.
    pub open spec fn text(self) -> Seq<char> {
        match self {
            IctError::NonSquareMatrix { nrows, ncols } => not_square(nrows, ncols),
            IctError::NotPositiveDefinite { col } => with_number(
                "encountered a non-positive pivot at column "@,
                col,
                ""@,
            ),
            IctError::PatternMismatch => "refactorisation dimension does not match"@,
            IctError::InvalidDropTol => "drop_tol must be finite and non-negative"@,
            IctError::InvalidFillControl => "fill factor must be finite and positive"@,
        }
    }

    /// What the error says.
    pub fn message(&self) -> (r: String)
        ensures
            r@ == self.text(),
    {
        match self {
            IctError::NonSquareMatrix { nrows, ncols } => not_square_text(*nrows, *ncols),
            IctError::NotPositiveDefinite { col } => phrase(
                "encountered a non-positive pivot at column ",
                *col,
                "",
            ),
            IctError::PatternMismatch => "refactorisation dimension does not match".to_owned(),
            IctError::InvalidDropTol => "drop_tol must be finite and non-negative".to_owned(),
            IctError::InvalidFillControl => "fill factor must be finite and positive".to_owned(),
        }
    }
}

impl<R: RealScalar> Default for IctParams<R> {
    fn default() -> (r: Self)
        ensures
            r.is_default(),
    {
        IctParams {
            drop_tol: R::from_ratio(1, 1000),
            fill: FillControl::Factor(R::from_ratio(5, 1)),
            norm: RowNorm::Two,
        }
    }
}

impl<R: RealScalar> IctParams<R> {
    /// The parameters that are used where none are given.
    pub open spec fn is_default(&self) -> bool {
        &&& self.drop_tol == R::ratio(1, 1000)
        &&& self.fill == FillControl::Factor(R::ratio(5, 1))
        &&& self.norm == RowNorm::Two
    }

    /// `drop_tol` is finite and not negative.
    pub open spec fn drop_tol_ok(&self) -> bool {
        self.drop_tol.is_finite_spec() && !self.drop_tol.below(R::null())
    }

    /// The fill factor, if there is one, is finite and positive.
    pub open spec fn fill_ok(&self) -> bool {
        match self.fill {
            FillControl::PerRow(_) => true,
            FillControl::Factor(f) => f.is_finite_spec() && !f.at_most(R::null()),
        }
    }

    /// Every parameter lies in its range.
    pub open spec fn usable(&self) -> bool {
        self.drop_tol_ok() && self.fill_ok()
    }

    /// Checks the parameters: the drop tolerance first, then the fill control.
    pub fn validate(&self) -> (r: Result<(), IctError>)
        ensures
            r == if !self.drop_tol_ok() {
                Err(IctError::InvalidDropTol)
            } else if !self.fill_ok() {
                Err(IctError::InvalidFillControl)
            } else {
                Ok::<(), IctError>(())
            },
    {
        let zero: R = R::zero();
        if !self.drop_tol.is_finite() || self.drop_tol.lt(&zero) {
            return Err(IctError::InvalidDropTol);
        }
        if let FillControl::Factor(f) = &self.fill {
            if !f.is_finite() || f.le(&zero) {
                return Err(IctError::InvalidFillControl);
            }
        }
        Ok(())
    }
}

} // verus!
