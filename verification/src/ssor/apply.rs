//! Applying SSOR.
//!
//! `M^{-1} = w (2 - w) (D + w U)^{-1} D (D + w L)^{-1}` is a lower solve, a
//! diagonal scaling, and an upper solve, all in place.
use super::factor::Ssor;
use crate::dense::Mat;
use crate::linalg::{
    lower_solve, lower_transpose_solve, scale_rows_in_place, scaled_rows,
    solve_lower_triangular_in_place, solve_lower_triangular_transpose_in_place,
    solve_upper_triangular_in_place, solve_upper_triangular_transpose_in_place, upper_solve,
    upper_transpose_solve,
};
use crate::op::{Op, Preconditioner, Work};
use crate::scalar::Scalar;
use vstd::prelude::*;

verus! {

impl<T: Scalar> Preconditioner<T> for Ssor<T> {
    open spec fn ready(&self) -> bool {
        self.wf()
    }

    open spec fn order(&self) -> nat {
        self.pattern.dim as nat
    }

    open spec fn action(&self, op: Op, x: Seq<T>) -> Seq<T> {
        let n = x.len() as int;
        let conj = op.conjugates();
        if op.transposes() {
            let y = upper_transpose_solve(self.u_model(), conj, x, n);
            let z = scaled_rows(self.scaled_diag@, conj, y);
            lower_transpose_solve(self.l_model(), false, conj, z, n)
        } else {
            let y = lower_solve(self.l_model(), false, conj, x, n);
            let z = scaled_rows(self.scaled_diag@, conj, y);
            upper_solve(self.u_model(), conj, z, n)
        }
    }

    fn nrows(&self) -> (n: usize) {
        self.dim()
    }

    fn ncols(&self) -> (n: usize) {
        self.dim()
    }

    fn apply_in_place(&self, op: Op, rhs: &mut Mat<T>, work: &mut Work<T>) {
        let conj: bool = op.is_conj();
        let ghost m0 = *rhs;
        let ghost n = rhs.nrows as int;
        if op.is_transpose() {
            solve_upper_triangular_transpose_in_place(self.u_view(), conj, rhs);
            let ghost m1 = *rhs;
            scale_rows_in_place(self.scaled_diag.as_slice(), conj, rhs);
            let ghost m2 = *rhs;
            solve_lower_triangular_transpose_in_place(self.l_view(), false, conj, rhs);
            assert forall|c: int| 0 <= c < m0.ncols implies #[trigger] rhs.col(c) == self.action(
                op,
                m0.col(c),
            ) by {
                assert(m1.col(c) == upper_transpose_solve(self.u_model(), conj, m0.col(c), n));
                assert(m2.col(c) == scaled_rows(self.scaled_diag@, conj, m1.col(c)));
            }
        } else {
            solve_lower_triangular_in_place(self.l_view(), false, conj, rhs);
            let ghost m1 = *rhs;
            scale_rows_in_place(self.scaled_diag.as_slice(), conj, rhs);
            let ghost m2 = *rhs;
            solve_upper_triangular_in_place(self.u_view(), conj, rhs);
            assert forall|c: int| 0 <= c < m0.ncols implies #[trigger] rhs.col(c) == self.action(
                op,
                m0.col(c),
            ) by {
                assert(m1.col(c) == lower_solve(self.l_model(), false, conj, m0.col(c), n));
                assert(m2.col(c) == scaled_rows(self.scaled_diag@, conj, m1.col(c)));
            }
        }
    }
}

} // verus!
