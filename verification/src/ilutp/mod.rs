//! Threshold ILU with partial pivoting (ILUTP).
//!
//! Where ILU(0) is locked to `A`'s sparsity pattern, ILUTP builds its factors
//! *adaptively*: it keeps the most significant fill each row produces (governed
//! by a drop tolerance and a fill budget) and pivots columns for numerical
//! stability, so that it handles matrices with small or absent diagonal entries.
//!
//! - `drop_tol`: relative threshold; an entry is dropped when its magnitude
//!   falls below `drop_tol * ||row||`.
//! - `fill`: how many entries to keep per row (see [`FillControl`]).
//! - `pivot_tol`: in `[0, 1]`; how eagerly to pivot. `0` disables pivoting and
//!   reduces the method to plain ILUT.
//!
//! The factors satisfy `L U = A P` up to what was dropped, where `P` is the
//! column permutation found while pivoting. `L`'s unit diagonal is stored first
//! in each column and `U`'s diagonal last.
use crate::scalar::RealScalar;
use crate::util::text::{not_square, not_square_text, phrase, with_number};
use vstd::prelude::*;

pub mod apply;
pub mod assemble;
pub mod choices;
pub mod dropping;
pub mod laws;
pub mod numeric;
pub mod row;
pub mod scaling;
pub mod ties;
pub mod unique;

pub use numeric::Ilutp;

verus! {

/// How the per-row fill budget is chosen for each triangular part.
#[derive(Debug, Clone, Copy, PartialEq)]
pub enum FillControl<R> {
    /// Keep at most `p` off-diagonal entries per row in `L` and `p` in `U`; the
    /// diagonal is always kept.
    PerRow(usize),
    /// Derive the per-row budget as `round(factor * nnz(A) / n)`, and at least
    /// one: a multiple of `A`'s average number of nonzeros per row.
    Factor(R),
}

/// Row norm used to scale the relative drop tolerance.
#[derive(Debug, Clone, Copy, PartialEq, Eq, Structural)]
pub enum RowNorm {
    /// `||row||_1`: sum of magnitudes.
    One,
    /// `||row||_2`: Euclidean norm.
    Two,
}

/// Tuning parameters for [`Ilutp`].
#[derive(Debug, Clone, Copy, PartialEq)]
pub struct IlutpParams<R> {
    /// Relative drop tolerance. An entry is dropped when its magnitude is below
    /// `drop_tol * ||row||`. Default `1e-3`.
    pub drop_tol: R,
    /// Per-row fill budget. Default `FillControl::Factor(5.0)`.
    pub fill: FillControl<R>,
    /// Column pivot tolerance in `[0, 1]`; `0` disables pivoting. Default `0.1`.
    pub pivot_tol: R,
    /// Norm used to scale `drop_tol`. Default `RowNorm::Two`.
    pub norm: RowNorm,
}

/// Error returned by ILUTP construction or refactorisation.
#[derive(Debug, Clone, Copy, PartialEq, Eq, Structural)]
pub enum IlutpError {
    /// The source matrix was not square.
    NonSquareMatrix { nrows: usize, ncols: usize },
    /// Row `row` reduced to a zero pivot even after pivoting: the matrix is
    /// numerically singular for these parameters.
    ZeroPivot { row: usize },
    /// `drop_tol` was negative or not finite.
    InvalidDropTol,
    /// `pivot_tol` was outside `[0, 1]` or not finite.
    InvalidPivotTol,
    /// `FillControl::Factor` was non-positive or not finite.
    InvalidFillControl,
}

impl IlutpError {
    /// What the error says.
    pub open spec fn text(self) -> Seq<char> {
        match self {
            IlutpError::NonSquareMatrix { nrows, ncols } => not_square(nrows, ncols),
            IlutpError::ZeroPivot { row } => with_number(
                "encountered a zero pivot at row "@,
                row,
                ""@,
            ),
            IlutpError::InvalidDropTol => "drop_tol must be finite and non-negative"@,
            IlutpError::InvalidPivotTol => "pivot_tol must be finite and within [0, 1]"@,
            IlutpError::InvalidFillControl => "fill factor must be finite and positive"@,
        }
    }

    /// What the error says.
    pub fn message(&self) -> (r: String)
        ensures
            r@ == self.text(),
    {
        match self {
            IlutpError::NonSquareMatrix { nrows, ncols } => not_square_text(*nrows, *ncols),
            IlutpError::ZeroPivot { row } => phrase("encountered a zero pivot at row ", *row, ""),
            IlutpError::InvalidDropTol => "drop_tol must be finite and non-negative".to_owned(),
            IlutpError::InvalidPivotTol => "pivot_tol must be finite and within [0, 1]".to_owned(),
            IlutpError::InvalidFillControl => "fill factor must be finite and positive".to_owned(),
        }
    }
}

impl<R: RealScalar> Default for IlutpParams<R> {
    fn default() -> (r: Self)
        ensures
            r.is_default(),
    {
        IlutpParams {
            drop_tol: R::from_ratio(1, 1000),
            fill: FillControl::Factor(R::from_ratio(5, 1)),
            pivot_tol: R::from_ratio(1, 10),
            norm: RowNorm::Two,
        }
    }
}

impl<R: RealScalar> IlutpParams<R> {
    /// The parameters that are used where none are given.
    pub open spec fn is_default(&self) -> bool {
        &&& self.drop_tol == R::ratio(1, 1000)
        &&& self.fill == FillControl::Factor(R::ratio(5, 1))
        &&& self.pivot_tol == R::ratio(1, 10)
        &&& self.norm == RowNorm::Two
    }

    /// `drop_tol` is finite and not negative.
    pub open spec fn drop_tol_ok(&self) -> bool {
        self.drop_tol.is_finite_spec() && !self.drop_tol.below(R::null())
    }

    /// `pivot_tol` is finite and within `[0, 1]`.
    pub open spec fn pivot_tol_ok(&self) -> bool {
        &&& self.pivot_tol.is_finite_spec()
        &&& !self.pivot_tol.below(R::null())
        &&& !R::ratio(1, 1).below(self.pivot_tol)
    }

    /// The fill factor, if there is one, is finite and positive.
    pub open spec fn fill_ok(&self) -> bool {
        match self.fill {
            FillControl::PerRow(_) => true,
            FillControl::Factor(f) => f.is_finite_spec() && !f.at_most(R::null()),
        }
    }

    /// Every parameter lies in its range.
    pub open spec fn usable(&self) -> bool {
        self.drop_tol_ok() && self.pivot_tol_ok() && self.fill_ok()
    }

    /// Checks the parameters: the drop tolerance first, then the pivot
    /// tolerance, then the fill control.
    pub fn validate(&self) -> (r: Result<(), IlutpError>)
        ensures
            r == if !self.drop_tol_ok() {
                Err(IlutpError::InvalidDropTol)
            } else if !self.pivot_tol_ok() {
                Err(IlutpError::InvalidPivotTol)
            } else if !self.fill_ok() {
                Err(IlutpError::InvalidFillControl)
            } else {
                Ok::<(), IlutpError>(())
            },
    {
        let zero: R = R::zero();
        if !self.drop_tol.is_finite() || self.drop_tol.lt(&zero) {
            return Err(IlutpError::InvalidDropTol);
        }
        if !self.pivot_tol.is_finite() || self.pivot_tol.lt(&zero) || R::from_ratio(1, 1).lt(
            &self.pivot_tol,
        ) {
            return Err(IlutpError::InvalidPivotTol);
        }
        if let FillControl::Factor(f) = &self.fill {
            if !f.is_finite() || f.le(&zero) {
                return Err(IlutpError::InvalidFillControl);
            }
        }
        Ok(())
    }
}

} // verus!
