//! Solves with the two triangular factors of a factorisation, one after the
//! other.
use crate::dense::Mat;
use crate::linalg::{
    dot, dot_rev, lower_diag_ok, lower_solve, lower_transpose_solve, matvec,
    solve_lower_triangular_in_place, solve_lower_triangular_transpose_in_place,
    solve_upper_triangular_in_place, solve_upper_triangular_transpose_in_place, upper_diag_ok,
    upper_solve, upper_transpose_solve,
};
use crate::linalg::{
    law_lower_solve, law_lower_transpose_solve, law_upper_solve, law_upper_transpose_solve,
    lemma_solve_lengths,
};
use crate::lu::{lower_ok, upper_ok};
use crate::op::Op;
use crate::scalar::{exact_conjugation, exact_field, lemma_conj_if_inverts, vanishes, Scalar};
use crate::sparse::{CscModel, CscRef};
use vstd::prelude::*;

verus! {

/// What the inverse of `M = L U`, with `L` of unit diagonal, makes of `x`.
pub open spec fn lu_action<T: Scalar>(l: CscModel<T>, u: CscModel<T>, op: Op, x: Seq<T>) -> Seq<T> {
    let n = x.len() as int;
    let conj = op.conjugates();
    if op.transposes() {
        lower_transpose_solve(l, true, conj, upper_transpose_solve(u, conj, x, n), n)
    } else {
        upper_solve(u, conj, lower_solve(l, true, conj, x, n), n)
    }
}

/// What the inverse of `M = L L^H` makes of `x`; with `conj` set, what the
/// inverse of `conj(M) = M^T` makes of it.
pub open spec fn llh_action<T: Scalar>(l: CscModel<T>, conj: bool, x: Seq<T>) -> Seq<T> {
    let n = x.len() as int;
    lower_transpose_solve(l, false, !conj, lower_solve(l, false, conj, x, n), n)
}

/// Applies `op` of `M^{-1} = U^{-1} L^{-1}` to every column of `rhs`.
pub fn solve_lu_in_place<T: Scalar>(l: CscRef<'_, T>, u: CscRef<'_, T>, op: Op, rhs: &mut Mat<T>)
    requires
        l.wf(),
        u.wf(),
        lower_ok(*l.pattern, old(rhs).nrows as int),
        upper_ok(*u.pattern, old(rhs).nrows as int),
        old(rhs).wf(),
    ensures
        final(rhs).wf(),
        final(rhs).nrows == old(rhs).nrows,
        final(rhs).ncols == old(rhs).ncols,
        forall|c: int|
            0 <= c < old(rhs).ncols ==> #[trigger] final(rhs).col(c) == lu_action(
                l@,
                u@,
                op,
                old(rhs).col(c),
            ),
{
    let conj: bool = op.is_conj();
    let ghost m0 = *rhs;
    if op.is_transpose() {
        solve_upper_triangular_transpose_in_place(u, conj, rhs);
        let ghost m1 = *rhs;
        solve_lower_triangular_transpose_in_place(l, true, conj, rhs);
        assert forall|c: int| 0 <= c < m0.ncols implies #[trigger] rhs.col(c) == lu_action(
            l@,
            u@,
            op,
            m0.col(c),
        ) by {
            assert(m1.col(c) == upper_transpose_solve(u@, conj, m0.col(c), m0.nrows as int));
        }
    } else {
        solve_lower_triangular_in_place(l, true, conj, rhs);
        let ghost m1 = *rhs;
        solve_upper_triangular_in_place(u, conj, rhs);
        assert forall|c: int| 0 <= c < m0.ncols implies #[trigger] rhs.col(c) == lu_action(
            l@,
            u@,
            op,
            m0.col(c),
        ) by {
            assert(m1.col(c) == lower_solve(l@, true, conj, m0.col(c), m0.nrows as int));
        }
    }
}

/// Applies `M^{-1} = L^{-H} L^{-1}` to every column of `rhs`, or its conjugate
/// with `conj` set.
pub fn solve_llh_in_place<T: Scalar>(l: CscRef<'_, T>, conj: bool, rhs: &mut Mat<T>)
    requires
        l.wf(),
        lower_ok(*l.pattern, old(rhs).nrows as int),
        old(rhs).wf(),
    ensures
        final(rhs).wf(),
        final(rhs).nrows == old(rhs).nrows,
        final(rhs).ncols == old(rhs).ncols,
        forall|c: int|
            0 <= c < old(rhs).ncols ==> #[trigger] final(rhs).col(c) == llh_action(
                l@,
                conj,
                old(rhs).col(c),
            ),
{
    let ghost m0 = *rhs;
    solve_lower_triangular_in_place(l, false, conj, rhs);
    let ghost m1 = *rhs;
    solve_lower_triangular_transpose_in_place(l, false, !conj, rhs);
    assert forall|c: int| 0 <= c < m0.ncols implies #[trigger] rhs.col(c) == llh_action(
        l@,
        conj,
        m0.col(c),
    ) by {
        assert(m1.col(c) == lower_solve(l@, false, conj, m0.col(c), m0.nrows as int));
    }
}

/// The product `m * x` with a square `m`.
pub open spec fn times_vector<T: Scalar>(m: CscModel<T>, x: Seq<T>) -> Seq<T> {
    Seq::new(x.len(), |i: int| matvec(m, x, i, x.len() as int))
}

/// The product `l^T * x` (`conj(l)^T * x` with `conj` set) with a square `l`
/// that keeps the diagonal first in each column.
pub open spec fn lower_transpose_times<T: Scalar>(l: CscModel<T>, conj: bool, x: Seq<T>) -> Seq<T> {
    Seq::new(x.len(), |j: int| dot_rev(l, conj, x, l.pattern.start(j), l.pattern.end(j)))
}

/// The product `u^T * x` (`conj(u)^T * x` with `conj` set) with a square `u`.
pub open spec fn upper_transpose_times<T: Scalar>(u: CscModel<T>, conj: bool, x: Seq<T>) -> Seq<T> {
    Seq::new(x.len(), |j: int| dot(u, conj, x, u.pattern.start(j), u.pattern.end(j)))
}

/// In exact arithmetic the LU action inverts `M = L U`: `L (U y) = x`.
pub proof fn law_lu_inverts<T: Scalar>(l: CscModel<T>, u: CscModel<T>, x: Seq<T>)
    requires
        exact_field::<T>(),
        l.wf(),
        u.wf(),
        lower_ok(l.pattern, x.len() as int),
        upper_ok(u.pattern, x.len() as int),
        lower_diag_ok(l, true, x.len() as int),
        upper_diag_ok(u, x.len() as int),
    ensures
        times_vector(l, times_vector(u, lu_action(l, u, Op::Apply, x))) == x,
{
    let n = x.len() as int;
    let z = lower_solve(l, true, false, x, n);
    lemma_solve_lengths(l, u, true, false, x);
    lemma_solve_lengths(l, u, true, false, z);
    let y = upper_solve(u, false, z, n);
    assert forall|i: int| 0 <= i < n implies #[trigger] times_vector(u, y)[i] == z[i] by {
        law_upper_solve(u, z, i);
    }
    assert(times_vector(u, y) =~= z);
    assert forall|i: int| 0 <= i < n implies #[trigger] times_vector(l, z)[i] == x[i] by {
        law_lower_solve(l, true, x, i);
    }
    assert(times_vector(l, z) =~= x);
}

/// In exact arithmetic the transposed LU action inverts `M^T = U^T L^T` (or
/// `M^H` when `op` conjugates): `U^T (L^T y) = x`.
pub proof fn law_lu_transpose_inverts<T: Scalar>(
    l: CscModel<T>,
    u: CscModel<T>,
    op: Op,
    x: Seq<T>,
)
    requires
        exact_field::<T>(),
        exact_conjugation::<T>(),
        op.transposes(),
        l.wf(),
        u.wf(),
        lower_ok(l.pattern, x.len() as int),
        upper_ok(u.pattern, x.len() as int),
        lower_diag_ok(l, true, x.len() as int),
        upper_diag_ok(u, x.len() as int),
    ensures
        upper_transpose_times(
            u,
            op.conjugates(),
            lower_transpose_times(l, op.conjugates(), lu_action(l, u, op, x)),
        ) == x,
{
    let n = x.len() as int;
    let conj = op.conjugates();
    let z = upper_transpose_solve(u, conj, x, n);
    lemma_solve_lengths(l, u, true, conj, x);
    lemma_solve_lengths(l, u, true, conj, z);
    let y = lower_transpose_solve(l, true, conj, z, n);
    assert forall|j: int| 0 <= j < n implies #[trigger] lower_transpose_times(l, conj, y)[j]
        == z[j] by {
        assert(l.values[l.pattern.start(j)] == T::unit());
        assert(!vanishes(u.values[u.pattern.end(j) - 1]));
        lemma_conj_if_inverts(conj, u.values[u.pattern.end(j) - 1]);
        law_lower_transpose_solve(l, true, conj, z, j);
    }
    assert(lower_transpose_times(l, conj, y) =~= z);
    assert forall|j: int| 0 <= j < n implies #[trigger] upper_transpose_times(u, conj, z)[j]
        == x[j] by {
        assert(!vanishes(u.values[u.pattern.end(j) - 1]));
        lemma_conj_if_inverts(conj, u.values[u.pattern.end(j) - 1]);
        law_upper_transpose_solve(u, conj, x, j);
    }
    assert(upper_transpose_times(u, conj, z) =~= x);
}

/// In exact arithmetic the Cholesky action inverts `M = L L^H`:
/// `L (L^H y) = x`.
pub proof fn law_llh_inverts<T: Scalar>(l: CscModel<T>, x: Seq<T>)
    requires
        exact_field::<T>(),
        exact_conjugation::<T>(),
        l.wf(),
        lower_ok(l.pattern, x.len() as int),
        lower_diag_ok(l, false, x.len() as int),
    ensures
        times_vector(l, lower_transpose_times(l, true, llh_action(l, false, x))) == x,
{
    let n = x.len() as int;
    let z = lower_solve(l, false, false, x, n);
    lemma_solve_lengths(l, l, false, false, x);
    lemma_solve_lengths(l, l, false, true, z);
    let y = lower_transpose_solve(l, false, true, z, n);
    assert forall|j: int| 0 <= j < n implies #[trigger] lower_transpose_times(l, true, y)[j]
        == z[j] by {
        assert(!vanishes(l.values[l.pattern.start(j)]));
        lemma_conj_if_inverts(true, l.values[l.pattern.start(j)]);
        law_lower_transpose_solve(l, false, true, z, j);
    }
    assert(lower_transpose_times(l, true, y) =~= z);
    assert forall|i: int| 0 <= i < n implies #[trigger] times_vector(l, z)[i] == x[i] by {
        law_lower_solve(l, false, x, i);
    }
    assert(times_vector(l, z) =~= x);
}

} // verus!
