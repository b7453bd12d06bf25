//! When ILU(k) is exact, and what a refactorisation computes.
use super::numeric::Iluk;
use super::symbolic::{kept, law_fill_covers, law_no_fill_pattern};
use crate::inverse::{
    dense_times, eliminates_within, law_lu_recovers, law_lu_solves, law_lu_transpose_recovers,
    law_lu_transpose_solves, law_tridiagonal_makes_no_fill, lemma_lu_diagonals,
    lemma_no_fill_reproduces, lu_is, transposed, tridiagonal,
};
use crate::linalg::{lower_diag_ok, upper_diag_ok};
use crate::lu::{
    dense_entry, lemma_done_agree, lemma_factor_entries, lemma_factors_unique, lemma_pivots_agree,
    lu_has, pivots_ok,
};
use crate::op::{Op, Preconditioner};
use crate::overlay::{dense, lemma_overlay_is_dense, overlay};
use crate::scalar::{exact_conjugation, exact_field, Scalar};
use crate::sparse::{stored, CscRef};
use crate::util::diag_split::{diag_col_ok, splittable};
use vstd::prelude::*;

verus! {

/// `f` is what [`Iluk::try_new`] makes of `a` with fill level `level`.
pub open spec fn is_iluk_of<T: Scalar>(f: Iluk<T>, a: CscRef<'_, T>, level: int) -> bool {
    &&& a.wf()
    &&& splittable(*a.pattern)
    &&& pivots_ok(
        kept(stored(*a.pattern), level, a.pattern.ncols as int),
        dense(a),
        a.pattern.ncols as int,
    )
    &&& f.wf()
    &&& f.symbolic.describes(*a.pattern, level)
    &&& f.factors(dense(a))
}

/// In exact arithmetic, once the fill level keeps all the fill that elimination
/// makes, ILU(k) is the LU factorisation: `L U = A`.
pub proof fn law_exact_without_dropping<T: Scalar>(f: Iluk<T>, a: CscRef<'_, T>, level: int)
    requires
        exact_field::<T>(),
        level >= 0,
        is_iluk_of(f, a, level),
        eliminates_within(
            kept(stored(*a.pattern), level, a.pattern.ncols as int),
            a.pattern.ncols as int,
        ),
    ensures
        lu_is(f.l_model(), f.u_model(), dense(a), a.pattern.ncols as int),
        lower_diag_ok(f.l_model(), true, a.pattern.ncols as int),
        upper_diag_ok(f.u_model(), a.pattern.ncols as int),
{
    let n = a.pattern.ncols as int;
    let s = kept(stored(*a.pattern), level, n);
    assert forall|i: int, j: int| 0 <= i < n && 0 <= j < n && !s(i, j) implies #[trigger] dense(a)(
        i,
        j,
    ) == T::null() by {
        if a.pattern.has(i, j) {
            law_fill_covers(*a.pattern, level, n, i, j);
        }
    }
    lemma_no_fill_reproduces(f.l_model(), f.u_model(), dense(a), n);
    lemma_lu_diagonals(f.l_model(), f.u_model(), dense(a), n);
}

/// In exact arithmetic, once the fill level keeps all fill, `M^{-1}` inverts `A`
/// from both sides.
pub proof fn law_inverts_without_dropping<T: Scalar>(
    f: Iluk<T>,
    a: CscRef<'_, T>,
    level: int,
    x: Seq<T>,
)
    requires
        exact_field::<T>(),
        level >= 0,
        is_iluk_of(f, a, level),
        eliminates_within(
            kept(stored(*a.pattern), level, a.pattern.ncols as int),
            a.pattern.ncols as int,
        ),
        x.len() == a.pattern.ncols,
    ensures
        f.action(Op::Apply, dense_times(dense(a), x)) == x,
        dense_times(dense(a), f.action(Op::Apply, x)) == x,
{
    law_exact_without_dropping(f, a, level);
    law_lu_recovers(f.l_model(), f.u_model(), dense(a), x);
    law_lu_solves(f.l_model(), f.u_model(), dense(a), x);
}

/// In exact arithmetic, once the fill level keeps all fill, `M^{-T}` inverts
/// `A^T` and `M^{-H}` inverts `A^H`, from both sides.
pub proof fn law_transpose_inverts_without_dropping<T: Scalar>(
    f: Iluk<T>,
    a: CscRef<'_, T>,
    level: int,
    op: Op,
    x: Seq<T>,
)
    requires
        exact_field::<T>(),
        exact_conjugation::<T>(),
        level >= 0,
        is_iluk_of(f, a, level),
        eliminates_within(
            kept(stored(*a.pattern), level, a.pattern.ncols as int),
            a.pattern.ncols as int,
        ),
        op.transposes(),
        x.len() == a.pattern.ncols,
    ensures
        f.action(op, dense_times(transposed(dense(a), op.conjugates()), x)) == x,
        dense_times(transposed(dense(a), op.conjugates()), f.action(op, x)) == x,
{
    law_exact_without_dropping(f, a, level);
    law_lu_transpose_recovers(f.l_model(), f.u_model(), dense(a), op, x);
    law_lu_transpose_solves(f.l_model(), f.u_model(), dense(a), op, x);
}

/// In exact arithmetic ILU(k) of a tridiagonal matrix inverts it, whatever the
/// fill level.
pub proof fn law_inverts_tridiagonal<T: Scalar>(
    f: Iluk<T>,
    a: CscRef<'_, T>,
    level: int,
    x: Seq<T>,
)
    requires
        exact_field::<T>(),
        level >= 0,
        is_iluk_of(f, a, level),
        tridiagonal(*a.pattern),
        x.len() == a.pattern.ncols,
    ensures
        f.action(Op::Apply, dense_times(dense(a), x)) == x,
        dense_times(dense(a), f.action(Op::Apply, x)) == x,
{
    let n = a.pattern.ncols as int;
    assert forall|k: int| 0 <= k < n implies #[trigger] stored(*a.pattern)(k, k) by {
        assert(diag_col_ok(*a.pattern, k));
    }
    law_tridiagonal_makes_no_fill(*a.pattern, n);
    law_no_fill_pattern(*a.pattern, level, n);
    law_inverts_without_dropping(f, a, level, x);
}

/// Refactorising against a matrix whose pattern was analysed computes the factors
/// that a fresh construction computes. `f` stands for the refactorised factor,
/// `g` for the fresh one.
pub proof fn law_refactorize_matches_fresh<T: Scalar>(
    f: Iluk<T>,
    g: Iluk<T>,
    a: CscRef<'_, T>,
    level: int,
)
    requires
        f.wf(),
        f.symbolic.describes(*a.pattern, level),
        f.factors(overlay(a)),
        is_iluk_of(g, a, level),
    ensures
        pivots_ok(lu_has(f.symbolic.l, f.symbolic.u), overlay(a), f.symbolic.dim as int),
        f.symbolic == g.symbolic ==> f.l_values@ == g.l_values@ && f.u_values@ == g.u_values@,
        forall|i: int, j: int|
            0 <= i < a.pattern.ncols && 0 <= j < a.pattern.ncols ==> #[trigger] dense_entry(
                f.l_model(),
                i,
                j,
            ) == dense_entry(g.l_model(), i, j),
        forall|i: int, j: int|
            0 <= i < a.pattern.ncols && 0 <= j < a.pattern.ncols ==> #[trigger] dense_entry(
                f.u_model(),
                i,
                j,
            ) == dense_entry(g.u_model(), i, j),
{
    let n = a.pattern.ncols as int;
    let s = f.symbolic;
    assert forall|i: int, j: int| #[trigger] lu_has(s.l, s.u)(i, j) implies overlay(a)(i, j)
        == dense(a)(i, j) by {
        assert(diag_col_ok(*a.pattern, j));
        lemma_overlay_is_dense(a, i, j);
    }
    lemma_pivots_agree(s.l, s.u, overlay(a), dense(a), n);
    lemma_done_agree(s.l, s.u, overlay(a), dense(a), f.l_values@, f.u_values@, n);
    if f.symbolic == g.symbolic {
        lemma_factors_unique(
            s.l,
            s.u,
            dense(a),
            f.l_values@,
            f.u_values@,
            g.l_values@,
            g.u_values@,
            n,
        );
    }
    assert forall|i: int, j: int| 0 <= i < n && 0 <= j < n implies #[trigger] dense_entry(
        f.l_model(),
        i,
        j,
    ) == dense_entry(g.l_model(), i, j) && dense_entry(f.u_model(), i, j) == dense_entry(
        g.u_model(),
        i,
        j,
    ) by {
        lemma_factor_entries(f.l_model(), f.u_model(), dense(a), n, i, j);
        lemma_factor_entries(g.l_model(), g.u_model(), dense(a), n, i, j);
    }
    assert forall|i: int, j: int| 0 <= i < n && 0 <= j < n implies #[trigger] dense_entry(
        f.u_model(),
        i,
        j,
    ) == dense_entry(g.u_model(), i, j) by {
        assert(dense_entry(f.l_model(), i, j) == dense_entry(g.l_model(), i, j));
    }
}

} // verus!
