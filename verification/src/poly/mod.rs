//! Polynomial preconditioner (Neumann series and Chebyshev).
//!
//! A polynomial preconditioner approximates `A^{-1}` by a polynomial in `A`:
//! `M^{-1} = p(A)`. Applying it is nothing but a handful of sparse
//! matrix-vector products and vector updates; there are no triangular solves.
//!
//! - **Neumann series**: `M^{-1} = w * sum_{k=0}^{d} (I - w A)^k`, with one real
//!   damping parameter `w`.
//! - **Chebyshev**: `d` steps of the Chebyshev iteration over
//!   `[lambda_min, lambda_max]`. Sharper than Neumann for the same degree, but
//!   it needs an estimate of the spectral interval.
//!
//! Chebyshev assumes a Hermitian positive-definite operator and is only as good
//! as its interval. Pass [`BoundEstimate::Manual`] when you know the spectrum;
//! otherwise [`BoundEstimate::PowerIteration`] gives a tight `lambda_max` and a
//! conservative `lambda_min`.
use crate::scalar::Scalar;
use crate::util::text::{not_square, not_square_text};
use vstd::prelude::*;

pub mod alternation;
pub mod apply;
pub mod bounds;
pub mod chebyshev;
pub mod differences;
pub mod factor;
pub mod forms;
pub mod laws;
pub mod minimax;
pub mod spectral;

pub use factor::Poly;

verus! {

/// Which polynomial to use for `M^{-1} = p(A)`.
#[derive(Debug, Clone, Copy, PartialEq)]
pub enum PolyKind<R> {
    /// Neumann series with real damping `omega`. `M^{-1} = w sum (I - w A)^k`.
    Neumann { omega: R },
    /// Chebyshev polynomial over the spectral interval `[lambda_min, lambda_max]`.
    Chebyshev { lambda_min: R, lambda_max: R },
}

/// How to obtain the spectral interval for [`Poly::try_new_auto`].
#[derive(Debug, Clone, Copy, PartialEq)]
pub enum BoundEstimate<R> {
    /// Gershgorin discs: a closed-form bracket from the entries.
    Gershgorin,
    /// `iters` steps of power iteration for a tight `lambda_max`; `lambda_min`
    /// falls back to the (conservative) Gershgorin lower bound.
    PowerIteration { iters: usize },
    /// Caller-supplied bounds.
    Manual { lambda_min: R, lambda_max: R },
}

/// Tuning parameters for [`Poly::try_new`].
#[derive(Debug, Clone, Copy, PartialEq)]
pub struct PolyParams<R> {
    /// Polynomial degree (number of recurrence steps). Must be at least one.
    pub degree: usize,
    /// Which polynomial to build.
    pub kind: PolyKind<R>,
}

/// Why a polynomial preconditioner could not be built or refactorised.
#[derive(Debug, Clone, Copy, PartialEq, Eq)]
pub enum PolyError {
    /// The source matrix was not square.
    NonSquareMatrix { nrows: usize, ncols: usize },
    /// `degree` was zero.
    ZeroDegree,
    /// A Neumann `omega` was non-positive or non-finite.
    InvalidOmega,
    /// The Chebyshev interval was not a usable `0 < lambda_min < lambda_max`.
    InvalidBounds,
    /// A refactorisation was attempted with a mismatched sparsity pattern.
    PatternMismatch,
}

impl PolyError {
    /// What the error says.
    pub open spec fn text(self) -> Seq<char> {
        match self {
            PolyError::NonSquareMatrix { nrows, ncols } => not_square(nrows, ncols),
            PolyError::ZeroDegree => "polynomial degree must be at least 1"@,
            PolyError::InvalidOmega => "neumann omega must be finite and positive"@,
            PolyError::InvalidBounds =>
                "chebyshev bounds must satisfy 0 < lambda_min < lambda_max"@,
            PolyError::PatternMismatch => "refactorisation pattern does not match"@,
        }
    }

    /// What the error says.
    pub fn message(&self) -> (r: String)
        ensures
            r@ == self.text(),
    {
        match self {
            PolyError::NonSquareMatrix { nrows, ncols } => not_square_text(*nrows, *ncols),
            PolyError::ZeroDegree => "polynomial degree must be at least 1".to_owned(),
            PolyError::InvalidOmega => "neumann omega must be finite and positive".to_owned(),
            PolyError::InvalidBounds => {
                "chebyshev bounds must satisfy 0 < lambda_min < lambda_max".to_owned()
            },
            PolyError::PatternMismatch => "refactorisation pattern does not match".to_owned(),
        }
    }
}

/// Resolved polynomial coefficients (real values stored as matrix entries).
#[derive(Debug, Clone, Copy, PartialEq)]
pub enum Coeffs<T> {
    Neumann { omega: T },
    Chebyshev { lambda_min: T, lambda_max: T },
}

impl<T: Scalar> Coeffs<T> {
    /// The damping factor of the Neumann series is a real number. (The Chebyshev
    /// iteration reads the real parts of its bounds.)
    pub open spec fn is_real(self) -> bool {
        self matches Coeffs::Neumann { omega } ==> exists|r: T::Real|
            omega == #[trigger] T::embed(r)
    }
}

} // verus!
