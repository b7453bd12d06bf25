//! Applying ICT: a solve with `L`, then one with `L^H`.
use super::numeric::Ict;
use crate::dense::Mat;
use crate::op::{Op, Preconditioner, Work};
use crate::scalar::Scalar;
use crate::triangular::{llh_action, solve_llh_in_place};
use vstd::prelude::*;

verus! {

impl<T: Scalar> Preconditioner<T> for Ict<T> {
    open spec fn ready(&self) -> bool {
        self.wf()
    }

    open spec fn order(&self) -> nat {
        self.dim as nat
    }

    /// `M^{-1} = L^{-H} L^{-1}`. `M` is Hermitian, so the adjoint is the
    /// apply and the transpose is the conjugate.
    open spec fn action(&self, op: Op, x: Seq<T>) -> Seq<T> {
        llh_action(self.l_model(), op is Conj || op is Transpose, x)
    }

    fn nrows(&self) -> (n: usize) {
        self.dim()
    }

    fn ncols(&self) -> (n: usize) {
        self.dim()
    }

    fn apply_in_place(&self, op: Op, rhs: &mut Mat<T>, work: &mut Work<T>) {
        let conj: bool = op.is_conj() != op.is_transpose();
        solve_llh_in_place(self.l_view(), conj, rhs);
    }
}

} // verus!
