//! Over real scalars conjugation changes nothing, so the conjugated applies are
//! the plain ones.
use crate::fsai::Fsai;
use crate::ic0::Ic0;
use crate::ict::Ict;
use crate::ilu0::Ilu0;
use crate::iluk::Iluk;
use crate::ilutp::apply::gathered;
use crate::ilutp::Ilutp;
use crate::linalg::{
    dot, dot_rev, lower_solve, lower_transpose_solve, product, scaled_rows, scatter_add, spmv,
    spmv_transpose, upper_solve, upper_transpose_solve,
};
use crate::op::{Op, Preconditioner};
use crate::scalar::Scalar;
use crate::spai::Spai;
use crate::sparse::CscModel;
use crate::ssor::Ssor;
use crate::triangular::{llh_action, lu_action};
use vstd::prelude::*;

verus! {

/// Conjugation changes no scalar.
pub open spec fn all_real<T: Scalar>() -> bool {
    forall|a: T| #[trigger] a.conjugate() == a
}

proof fn lemma_lower<T: Scalar>(l: CscModel<T>, unit: bool, x: Seq<T>, k: int)
    requires
        all_real::<T>(),
    ensures
        lower_solve(l, unit, true, x, k) == lower_solve(l, unit, false, x, k),
    decreases k,
{
    if k > 0 {
        lemma_lower(l, unit, x, k - 1);
        assert(lower_solve(l, unit, true, x, k) =~= lower_solve(l, unit, false, x, k));
    }
}

proof fn lemma_upper<T: Scalar>(u: CscModel<T>, x: Seq<T>, k: int)
    requires
        all_real::<T>(),
    ensures
        upper_solve(u, true, x, k) == upper_solve(u, false, x, k),
    decreases k,
{
    if k > 0 {
        lemma_upper(u, x, k - 1);
        assert(upper_solve(u, true, x, k) =~= upper_solve(u, false, x, k));
    }
}

proof fn lemma_dot<T: Scalar>(m: CscModel<T>, x: Seq<T>, lo: int, hi: int)
    requires
        all_real::<T>(),
    ensures
        dot(m, true, x, lo, hi) == dot(m, false, x, lo, hi),
        dot_rev(m, true, x, lo, hi) == dot_rev(m, false, x, lo, hi),
    decreases hi - lo,
{
    if lo < hi {
        lemma_dot(m, x, lo, hi - 1);
        lemma_dot(m, x, lo + 1, hi);
    }
}

proof fn lemma_lower_transpose<T: Scalar>(l: CscModel<T>, unit: bool, x: Seq<T>, k: int)
    requires
        all_real::<T>(),
    ensures
        lower_transpose_solve(l, unit, true, x, k) == lower_transpose_solve(l, unit, false, x, k),
    decreases k,
{
    if k > 0 {
        lemma_lower_transpose(l, unit, x, k - 1);
        let y = lower_transpose_solve(l, unit, false, x, k - 1);
        let j = x.len() - k;
        lemma_dot(l, y, l.pattern.start(j) + 1, l.pattern.end(j));
    }
}

proof fn lemma_upper_transpose<T: Scalar>(u: CscModel<T>, x: Seq<T>, k: int)
    requires
        all_real::<T>(),
    ensures
        upper_transpose_solve(u, true, x, k) == upper_transpose_solve(u, false, x, k),
    decreases k,
{
    if k > 0 {
        lemma_upper_transpose(u, x, k - 1);
        let y = upper_transpose_solve(u, false, x, k - 1);
        lemma_dot(u, y, u.pattern.start(k - 1), u.pattern.end(k - 1) - 1);
    }
}

proof fn lemma_scatter<T: Scalar>(m: CscModel<T>, xk: T, y: Seq<T>, lo: int, hi: int)
    requires
        all_real::<T>(),
    ensures
        scatter_add(m, true, xk, y, lo, hi) == scatter_add(m, false, xk, y, lo, hi),
    decreases hi - lo,
{
    if lo < hi {
        lemma_scatter(m, xk, y, lo, hi - 1);
    }
}

proof fn lemma_spmv<T: Scalar>(m: CscModel<T>, x: Seq<T>, k: int)
    requires
        all_real::<T>(),
    ensures
        spmv(m, true, x, k) == spmv(m, false, x, k),
    decreases k,
{
    if k > 0 {
        lemma_spmv(m, x, k - 1);
        lemma_scatter(
            m,
            x[k - 1],
            spmv(m, false, x, k - 1),
            m.pattern.start(k - 1),
            m.pattern.end(k - 1),
        );
    }
}

/// A product does not depend on conjugation.
proof fn lemma_product<T: Scalar>(m: CscModel<T>, transpose: bool, x: Seq<T>)
    requires
        all_real::<T>(),
    ensures
        product(m, transpose, true, x) == product(m, transpose, false, x),
{
    if transpose {
        assert forall|j: int| 0 <= j < m.pattern.ncols implies #[trigger] spmv_transpose(
            m,
            true,
            x,
        )[j] == spmv_transpose(m, false, x)[j] by {
            lemma_dot(m, x, m.pattern.start(j), m.pattern.end(j));
        }
        assert(spmv_transpose(m, true, x) =~= spmv_transpose(m, false, x));
    } else {
        lemma_spmv(m, x, m.pattern.ncols as int);
    }
}

/// An LU action does not depend on conjugation.
proof fn lemma_lu<T: Scalar>(l: CscModel<T>, u: CscModel<T>, x: Seq<T>)
    requires
        all_real::<T>(),
    ensures
        lu_action(l, u, Op::Conj, x) == lu_action(l, u, Op::Apply, x),
        lu_action(l, u, Op::Adjoint, x) == lu_action(l, u, Op::Transpose, x),
{
    let n = x.len() as int;
    lemma_lower(l, true, x, n);
    lemma_upper(u, lower_solve(l, true, false, x, n), n);
    lemma_upper_transpose(u, x, n);
    lemma_lower_transpose(l, true, upper_transpose_solve(u, false, x, n), n);
}

/// A Cholesky action does not depend on conjugation.
proof fn lemma_llh<T: Scalar>(l: CscModel<T>, x: Seq<T>)
    requires
        all_real::<T>(),
    ensures
        llh_action(l, true, x) == llh_action(l, false, x),
{
    let n = x.len() as int;
    lemma_lower(l, false, x, n);
    lemma_lower_transpose(l, false, lower_solve(l, false, false, x, n), n);
}

/// Over real scalars the adjoint apply of an LU-type preconditioner is its
/// transposed apply, and its conjugated apply is the plain one.
pub proof fn law_real_lu_applies<T: Scalar>(
    a: Ilu0<T>,
    b: Iluk<T>,
    c: Ilutp<T>,
    d: Ssor<T>,
    x: Seq<T>,
)
    requires
        all_real::<T>(),
    ensures
        a.action(Op::Adjoint, x) == a.action(Op::Transpose, x),
        a.action(Op::Conj, x) == a.action(Op::Apply, x),
        b.action(Op::Adjoint, x) == b.action(Op::Transpose, x),
        b.action(Op::Conj, x) == b.action(Op::Apply, x),
        c.action(Op::Adjoint, x) == c.action(Op::Transpose, x),
        c.action(Op::Conj, x) == c.action(Op::Apply, x),
        d.action(Op::Adjoint, x) == d.action(Op::Transpose, x),
        d.action(Op::Conj, x) == d.action(Op::Apply, x),
{
    let n = x.len() as int;
    lemma_lu(a.l_model(), a.u_model(), x);
    lemma_lu(b.l_model(), b.u_model(), x);
    lemma_lu(c.l_model(), c.u_model(), x);
    lemma_lu(c.l_model(), c.u_model(), gathered(x, c.perm@));
    let l = d.l_model();
    let u = d.u_model();
    lemma_lower(l, false, x, n);
    let y = lower_solve(l, false, false, x, n);
    assert(scaled_rows(d.scaled_diag@, true, y) =~= scaled_rows(d.scaled_diag@, false, y));
    lemma_upper(u, scaled_rows(d.scaled_diag@, false, y), n);
    lemma_upper_transpose(u, x, n);
    let z = upper_transpose_solve(u, false, x, n);
    assert(scaled_rows(d.scaled_diag@, true, z) =~= scaled_rows(d.scaled_diag@, false, z));
    lemma_lower_transpose(l, false, scaled_rows(d.scaled_diag@, false, z), n);
}

/// Over real scalars all four applies of a Hermitian preconditioner are one.
pub proof fn law_real_hermitian_applies<T: Scalar>(
    a: Ic0<T>,
    b: Ict<T>,
    c: Fsai<T>,
    op: Op,
    x: Seq<T>,
)
    requires
        all_real::<T>(),
    ensures
        a.action(op, x) == a.action(Op::Apply, x),
        b.action(op, x) == b.action(Op::Apply, x),
        c.action(op, x) == c.action(Op::Apply, x),
{
    lemma_llh(a.l_model(), x);
    lemma_llh(b.l_model(), x);
    let g = c.g_model();
    lemma_product(g, false, x);
    lemma_product(g, true, product(g, false, false, x));
}

/// Over real scalars the adjoint apply of SPAI is its transposed apply, and its
/// conjugated apply is the plain one.
pub proof fn law_real_spai_applies<T: Scalar>(f: Spai<T>, x: Seq<T>)
    requires
        all_real::<T>(),
    ensures
        f.action(Op::Adjoint, x) == f.action(Op::Transpose, x),
        f.action(Op::Conj, x) == f.action(Op::Apply, x),
{
    lemma_product(f.m_model(), true, x);
    lemma_product(f.m_model(), false, x);
}

} // verus!
