//! Applying SPAI: a single sparse product.
use super::factor::Spai;
use crate::dense::Mat;
use crate::linalg::{product, sparse_dense_matmul};
use crate::op::{Op, Preconditioner, Work};
use crate::scalar::Scalar;
use crate::scratch::{scratch_for, Scratch};
use vstd::prelude::*;

verus! {

impl<T: Scalar> Spai<T> {
    /// Scratch memory for the in-place apply: one block of columns.
    pub fn apply_in_place_scratch(&self, rhs_ncols: usize) -> (r: Scratch)
        requires
            self.m.pattern.ncols * rhs_ncols <= usize::MAX,
        ensures
            r == scratch_for::<T>((self.m.pattern.ncols * rhs_ncols) as nat),
    {
        Scratch::elements::<T>(self.m.pattern.ncols * rhs_ncols)
    }
}

impl<T: Scalar> Preconditioner<T> for Spai<T> {
    open spec fn ready(&self) -> bool {
        self.wf()
    }

    open spec fn order(&self) -> nat {
        self.m.pattern.ncols as nat
    }

    /// The product with `M`, transposed and conjugated as `op` says.
    open spec fn action(&self, op: Op, x: Seq<T>) -> Seq<T> {
        product(self.m_model(), op.transposes(), op.conjugates(), x)
    }

    fn nrows(&self) -> (n: usize) {
        self.dim()
    }

    fn ncols(&self) -> (n: usize) {
        self.dim()
    }

    fn apply_in_place(&self, op: Op, rhs: &mut Mat<T>, work: &mut Work<T>) {
        let len: usize = rhs.data.len();
        assert(len == rhs.nrows * rhs.ncols);
        work.shape(rhs.nrows, rhs.ncols);
        sparse_dense_matmul(self.m_view(), op.is_transpose(), op.is_conj(), rhs, &mut work.a);
        rhs.copy_from(&work.a);
    }

    fn apply(&self, op: Op, out: &mut Mat<T>, rhs: &Mat<T>, work: &mut Work<T>) {
        sparse_dense_matmul(self.m_view(), op.is_transpose(), op.is_conj(), rhs, out);
    }
}

} // verus!
