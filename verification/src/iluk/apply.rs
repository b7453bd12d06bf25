//! Applying ILU(k): two triangular solves.
use super::numeric::Iluk;
use crate::dense::Mat;
use crate::op::{Op, Preconditioner, Work};
use crate::scalar::Scalar;
use crate::triangular::{lu_action, solve_lu_in_place};
use vstd::prelude::*;

verus! {

impl<T: Scalar> Preconditioner<T> for Iluk<T> {
    open spec fn ready(&self) -> bool {
        self.wf()
    }

    open spec fn order(&self) -> nat {
        self.symbolic.dim as nat
    }

    /// `M^{-1} = U^{-1} L^{-1}`.
    open spec fn action(&self, op: Op, x: Seq<T>) -> Seq<T> {
        lu_action(self.l_model(), self.u_model(), op, x)
    }

    fn nrows(&self) -> (n: usize) {
        self.dim()
    }

    fn ncols(&self) -> (n: usize) {
        self.dim()
    }

    fn apply_in_place(&self, op: Op, rhs: &mut Mat<T>, work: &mut Work<T>) {
        solve_lu_in_place(self.l_view(), self.u_view(), op, rhs);
    }
}

} // verus!
