//! Applying FSAI: `M^{-1} = G^H G` as two sparse products.
//!
//! `M` is Hermitian, so `M^{-1}` and its adjoint coincide, while the transpose
//! and the conjugate apply `M^{-T} = G^T conj(G)`.
use super::factor::Fsai;
use crate::dense::Mat;
use crate::linalg::{product, sparse_dense_matmul};
use crate::op::{Op, Preconditioner, Work};
use crate::scalar::Scalar;
use crate::scratch::{scratch_for, Scratch};
use crate::sparse::CscModel;
use vstd::prelude::*;

verus! {

/// `G^H (G x)`, or `G^T (conj(G) x)` with `conj` set.
pub open spec fn gram_action<T: Scalar>(g: CscModel<T>, conj: bool, x: Seq<T>) -> Seq<T> {
    product(g, true, !conj, product(g, false, conj, x))
}

impl<T: Scalar> Fsai<T> {
    /// Scratch memory for either apply: one block of columns.
    pub fn apply_scratch(&self, rhs_ncols: usize) -> (r: Scratch)
        requires
            self.g.pattern.ncols * rhs_ncols <= usize::MAX,
        ensures
            r == scratch_for::<T>((self.g.pattern.ncols * rhs_ncols) as nat),
    {
        Scratch::elements::<T>(self.g.pattern.ncols * rhs_ncols)
    }
}

impl<T: Scalar> Preconditioner<T> for Fsai<T> {
    open spec fn ready(&self) -> bool {
        self.wf()
    }

    open spec fn order(&self) -> nat {
        self.g.pattern.ncols as nat
    }

    open spec fn action(&self, op: Op, x: Seq<T>) -> Seq<T> {
        gram_action(self.g_model(), op is Conj || op is Transpose, x)
    }

    fn nrows(&self) -> (n: usize) {
        self.dim()
    }

    fn ncols(&self) -> (n: usize) {
        self.dim()
    }

    fn apply_in_place(&self, op: Op, rhs: &mut Mat<T>, work: &mut Work<T>) {
        let ghost m0 = *rhs;
        let conj: bool = op.is_conj() != op.is_transpose();
        let len: usize = rhs.data.len();
        assert(len == rhs.nrows * rhs.ncols);
        work.shape(rhs.nrows, rhs.ncols);
        sparse_dense_matmul(self.g_view(), false, conj, rhs, &mut work.a);
        let ghost y = work.a;
        sparse_dense_matmul(self.g_view(), true, !conj, &work.a, rhs);
        assert forall|c: int| 0 <= c < m0.ncols implies #[trigger] rhs.col(c) == self.action(
            op,
            m0.col(c),
        ) by {
            assert(y.col(c) == product(self.g_model(), false, conj, m0.col(c)));
        }
    }

    fn apply(&self, op: Op, out: &mut Mat<T>, rhs: &Mat<T>, work: &mut Work<T>) {
        let conj: bool = op.is_conj() != op.is_transpose();
        let len: usize = rhs.data.len();
        assert(len == rhs.nrows * rhs.ncols);
        work.shape(rhs.nrows, rhs.ncols);
        sparse_dense_matmul(self.g_view(), false, conj, rhs, &mut work.a);
        let ghost y = work.a;
        sparse_dense_matmul(self.g_view(), true, !conj, &work.a, out);
        assert forall|c: int| 0 <= c < rhs.ncols implies #[trigger] out.col(c) == self.action(
            op,
            rhs.col(c),
        ) by {
            assert(y.col(c) == product(self.g_model(), false, conj, rhs.col(c)));
        }
    }
}

} // verus!
