//! Preconditioners for iterative linear solvers, with proofs.
//!
//! Every preconditioner approximates `A^{-1}` for a sparse matrix `A` and
//! implements [`op::Preconditioner`], which says exactly what each of its four
//! forms (apply, conjugate, transpose, adjoint) makes of a right-hand side.
//!
//! | Type | Source | Notes |
//! |---|---|---|
//! | [`JacobiPrecond`] | diagonal of `A` | Diagonally-dominant problems. |
//! | [`BlockJacobiPrecond`] | dense diagonal blocks of `A` | Arbitrary block partition; LU per block. |
//! | [`Ssor`] | `A`'s `D`/`L`/`U` split + relaxation | Two triangular solves, no fill. |
//! | [`Ilu0`] | CSC sparsity of `A` | Zero-fill incomplete LU. |
//! | [`Iluk`] | CSC of `A` + fill level `k` | Level-of-fill incomplete LU. |
//! | [`Ic0`] | CSC lower triangle of `A` | Zero-fill incomplete Cholesky for Hermitian positive-definite `A`. |
//! | [`Ict`] | CSC of `A` + threshold/fill params | Threshold incomplete Cholesky. |
//! | [`Ilutp`] | CSC of `A` + threshold/fill params | Threshold ILU with partial pivoting. |
//! | [`Poly`] | `A` + polynomial degree/bounds | Products only (Neumann/Chebyshev). |
//! | [`Fsai`] | CSC of `A` + pattern | Factorised approximate inverse for Hermitian positive-definite `A`. |
//! | [`Spai`] | CSC of `A` + pattern | Sparse approximate inverse. |
//! | [`SolvePrecond`] | any solver | Adapter, not a factorisation. |
//!
//! The arithmetic of matrix entries is abstract, see [`scalar`]; [`fixed`] is
//! one concrete instance. Dense kernels (Cholesky, LU and least squares of small
//! blocks) are passed in where a preconditioner needs them.
//!
//! Laws are proof functions whose names begin with `law_`. Those that need exact
//! arithmetic ask for it.

pub mod adapters;
pub mod block_jacobi;
pub mod conjugates;
pub mod dense;
pub mod fixed;
pub mod forms;
pub mod fsai;
pub mod heap;
pub mod ic0;
pub mod ict;
pub mod ilu0;
pub mod iluk;
pub mod ilutp;
pub mod inverse;
pub mod jacobi;
pub mod lengths;
pub mod linalg;
pub mod lu;
pub mod op;
pub mod overlay;
pub mod poly;
pub mod reading;
pub mod reals;
pub mod scalar;
pub mod scaling;
pub mod scratch;
pub mod spai;
pub mod sparse;
pub mod ssor;
pub mod sums;
pub mod transpose;
pub mod triangular;
pub mod util;

pub use adapters::SolvePrecond;
pub use block_jacobi::{BlockJacobiError, BlockJacobiPrecond};
pub use fsai::{Fsai, FsaiError, FsaiPattern};
pub use ic0::{Ic0, Ic0Error, SymbolicIc0};
pub use ict::{Ict, IctError, IctParams};
pub use ilu0::{Ilu0, Ilu0Error, SymbolicIlu0};
pub use iluk::{Iluk, IlukError, IlukParams, SymbolicIluk};
pub use ilutp::{FillControl, Ilutp, IlutpError, IlutpParams, RowNorm};
pub use jacobi::{JacobiError, JacobiPrecond};
pub use poly::{BoundEstimate, Poly, PolyError, PolyKind, PolyParams};
pub use spai::{Spai, SpaiError, SpaiPattern};
pub use ssor::{Ssor, SsorError, SsorParams};
