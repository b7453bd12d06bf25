//! When ILU(0) is exact, and what a refactorisation computes.
use super::numeric::{
    lemma_describes_matches, lemma_source_is_entry, pattern_matches, source, Ilu0,
};
use super::symbolic::law_zero_fill;
use crate::inverse::{
    dense_times, eliminates_within, law_lu_recovers, law_lu_solves, law_lu_transpose_recovers,
    law_lu_transpose_solves, law_tridiagonal_makes_no_fill, lemma_lu_diagonals,
    lemma_no_fill_reproduces, lu_is, transposed, tridiagonal,
};
use crate::linalg::{lower_diag_ok, upper_diag_ok};
use crate::lu::{
    dense_entry, lemma_diag_in_pattern, lemma_done_agree, lemma_factor_entries,
    law_product_on_pattern, lemma_factors_unique, lemma_pivots_agree, lu_has, pivots_ok,
    product_entry,
};
use crate::op::{Op, Preconditioner};
use crate::overlay::dense;
use crate::scalar::{exact_conjugation, exact_field, Scalar};
use crate::sparse::{entries, stored, CscRef};
use crate::util::diag_split::splittable;
use vstd::prelude::*;

verus! {

/// `f` is what [`Ilu0::try_new`] makes of `a`.
pub open spec fn is_ilu0_of<T: Scalar>(f: Ilu0<T>, a: CscRef<'_, T>) -> bool {
    &&& a.wf()
    &&& splittable(*a.pattern)
    &&& pivots_ok(stored(*a.pattern), entries(a), a.pattern.ncols as int)
    &&& f.wf()
    &&& f.symbolic.describes(*a.pattern)
    &&& f.factors(entries(a))
}

/// In exact arithmetic, where elimination on the pattern of `A` makes no fill,
/// ILU(0) is the LU factorisation: `L U = A`.
pub proof fn law_exact_without_fill<T: Scalar>(f: Ilu0<T>, a: CscRef<'_, T>)
    requires
        exact_field::<T>(),
        is_ilu0_of(f, a),
        eliminates_within(stored(*a.pattern), a.pattern.ncols as int),
    ensures
        lu_is(f.l_model(), f.u_model(), dense(a), a.pattern.ncols as int),
        lower_diag_ok(f.l_model(), true, a.pattern.ncols as int),
        upper_diag_ok(f.u_model(), a.pattern.ncols as int),
{
    let n = a.pattern.ncols as int;
    let s = f.symbolic;
    law_zero_fill(s, *a.pattern);
    lemma_done_agree(s.l, s.u, entries(a), dense(a), f.l_values@, f.u_values@, n);
    lemma_pivots_agree(s.l, s.u, entries(a), dense(a), n);
    lemma_no_fill_reproduces(f.l_model(), f.u_model(), dense(a), n);
    lemma_lu_diagonals(f.l_model(), f.u_model(), dense(a), n);
}

/// In exact arithmetic, where elimination makes no fill, `M^{-1}` inverts `A`
/// from both sides.
pub proof fn law_inverts_without_fill<T: Scalar>(f: Ilu0<T>, a: CscRef<'_, T>, x: Seq<T>)
    requires
        exact_field::<T>(),
        is_ilu0_of(f, a),
        eliminates_within(stored(*a.pattern), a.pattern.ncols as int),
        x.len() == a.pattern.ncols,
    ensures
        f.action(Op::Apply, dense_times(dense(a), x)) == x,
        dense_times(dense(a), f.action(Op::Apply, x)) == x,
{
    law_exact_without_fill(f, a);
    law_lu_recovers(f.l_model(), f.u_model(), dense(a), x);
    law_lu_solves(f.l_model(), f.u_model(), dense(a), x);
}

/// In exact arithmetic, where elimination makes no fill, `M^{-T}` inverts `A^T`
/// and `M^{-H}` inverts `A^H`, from both sides.
pub proof fn law_transpose_inverts_without_fill<T: Scalar>(
    f: Ilu0<T>,
    a: CscRef<'_, T>,
    op: Op,
    x: Seq<T>,
)
    requires
        exact_field::<T>(),
        exact_conjugation::<T>(),
        is_ilu0_of(f, a),
        eliminates_within(stored(*a.pattern), a.pattern.ncols as int),
        op.transposes(),
        x.len() == a.pattern.ncols,
    ensures
        f.action(op, dense_times(transposed(dense(a), op.conjugates()), x)) == x,
        dense_times(transposed(dense(a), op.conjugates()), f.action(op, x)) == x,
{
    law_exact_without_fill(f, a);
    law_lu_transpose_recovers(f.l_model(), f.u_model(), dense(a), op, x);
    law_lu_transpose_solves(f.l_model(), f.u_model(), dense(a), op, x);
}

/// In exact arithmetic ILU(0) of a tridiagonal matrix inverts it.
pub proof fn law_inverts_tridiagonal<T: Scalar>(f: Ilu0<T>, a: CscRef<'_, T>, x: Seq<T>)
    requires
        exact_field::<T>(),
        is_ilu0_of(f, a),
        tridiagonal(*a.pattern),
        x.len() == a.pattern.ncols,
    ensures
        eliminates_within(stored(*a.pattern), a.pattern.ncols as int),
        f.action(Op::Apply, dense_times(dense(a), x)) == x,
        dense_times(dense(a), f.action(Op::Apply, x)) == x,
{
    let n = a.pattern.ncols as int;
    law_zero_fill(f.symbolic, *a.pattern);
    lemma_diag_in_pattern(f.symbolic.l, f.symbolic.u, n);
    assert forall|k: int| 0 <= k < n implies #[trigger] stored(*a.pattern)(k, k) by {
        assert(lu_has(f.symbolic.l, f.symbolic.u)(k, k));
    }
    law_tridiagonal_makes_no_fill(*a.pattern, n);
    law_inverts_without_fill(f, a, x);
}

/// Refactorising against a matrix whose pattern was analysed computes the factors
/// that a fresh construction computes. `f` stands for the refactorised factor,
/// `g` for the fresh one.
pub proof fn law_refactorize_matches_fresh<T: Scalar>(f: Ilu0<T>, g: Ilu0<T>, a: CscRef<'_, T>)
    requires
        f.wf(),
        f.symbolic.describes(*a.pattern),
        f.factors(source(f.symbolic, a)),
        is_ilu0_of(g, a),
    ensures
        pattern_matches(f.symbolic, *a.pattern),
        pivots_ok(
            lu_has(f.symbolic.l, f.symbolic.u),
            source(f.symbolic, a),
            f.symbolic.dim as int,
        ),
        f.symbolic == g.symbolic ==> f.l_values@ == g.l_values@ && f.u_values@ == g.u_values@,
        forall|i: int, j: int|
            0 <= i < a.pattern.ncols && 0 <= j < a.pattern.ncols ==> #[trigger] dense_entry(
                f.l_model(),
                i,
                j,
            ) == dense_entry(g.l_model(), i, j),
        forall|i: int, j: int|
            0 <= i < a.pattern.ncols && 0 <= j < a.pattern.ncols ==> #[trigger] dense_entry(
                f.u_model(),
                i,
                j,
            ) == dense_entry(g.u_model(), i, j),
{
    let n = a.pattern.ncols as int;
    let s = f.symbolic;
    lemma_describes_matches(s, *a.pattern);
    law_zero_fill(s, *a.pattern);
    law_zero_fill(g.symbolic, *a.pattern);
    lemma_source_is_entry(s, a);
    lemma_pivots_agree(s.l, s.u, source(s, a), entries(a), n);
    lemma_done_agree(s.l, s.u, source(s, a), entries(a), f.l_values@, f.u_values@, n);
    if f.symbolic == g.symbolic {
        lemma_factors_unique(
            s.l,
            s.u,
            entries(a),
            f.l_values@,
            f.u_values@,
            g.l_values@,
            g.u_values@,
            n,
        );
    }
    assert forall|i: int, j: int| 0 <= i < n && 0 <= j < n implies #[trigger] dense_entry(
        f.l_model(),
        i,
        j,
    ) == dense_entry(g.l_model(), i, j) && dense_entry(f.u_model(), i, j) == dense_entry(
        g.u_model(),
        i,
        j,
    ) by {
        lemma_factor_entries(f.l_model(), f.u_model(), entries(a), n, i, j);
        lemma_factor_entries(g.l_model(), g.u_model(), entries(a), n, i, j);
    }
    assert forall|i: int, j: int| 0 <= i < n && 0 <= j < n implies #[trigger] dense_entry(
        f.u_model(),
        i,
        j,
    ) == dense_entry(g.u_model(), i, j) by {
        assert(dense_entry(f.l_model(), i, j) == dense_entry(g.l_model(), i, j));
    }
}

/// A factor that was refactorised against `a` has a unit diagonal in `L` and no
/// zero on the diagonal of `U`, and in exact arithmetic `L * U` agrees with `a` at
/// every entry in its pattern.
pub proof fn law_refactorize_agrees_on_pattern<T: Scalar>(f: Ilu0<T>, a: CscRef<'_, T>)
    requires
        a.wf(),
        splittable(*a.pattern),
        f.wf(),
        f.symbolic.describes(*a.pattern),
        pivots_ok(
            lu_has(f.symbolic.l, f.symbolic.u),
            source(f.symbolic, a),
            f.symbolic.dim as int,
        ),
        f.factors(source(f.symbolic, a)),
    ensures
        lower_diag_ok(f.l_model(), true, a.pattern.ncols as int),
        upper_diag_ok(f.u_model(), a.pattern.ncols as int),
        exact_field::<T>() ==> forall|i: int, j: int| #[trigger]
            stored(*a.pattern)(i, j) ==> product_entry(
                f.l_model(),
                f.u_model(),
                i,
                j,
                a.pattern.ncols as int,
            ) == a.entry(i, j),
{
    let n = a.pattern.ncols as int;
    let s = f.symbolic;
    lemma_describes_matches(s, *a.pattern);
    law_zero_fill(s, *a.pattern);
    lemma_source_is_entry(s, a);
    lemma_lu_diagonals(f.l_model(), f.u_model(), source(s, a), n);
    lemma_pivots_agree(s.l, s.u, source(s, a), entries(a), n);
    lemma_done_agree(s.l, s.u, source(s, a), entries(a), f.l_values@, f.u_values@, n);
    if exact_field::<T>() {
        assert forall|i: int, j: int| #[trigger] stored(*a.pattern)(i, j) implies product_entry(
            f.l_model(),
            f.u_model(),
            i,
            j,
            n,
        ) == a.entry(i, j) by {
            law_product_on_pattern(f.l_model(), f.u_model(), entries(a), n, i, j);
        }
    }
}

} // verus!
