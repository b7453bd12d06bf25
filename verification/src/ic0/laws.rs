//! When IC(0) is exact, what it reads, and what a refactorisation computes.
use super::numeric::{
    chol_col_done, chol_pivot, chol_pivots_ok, gram_entry, law_agrees_on_pattern, lemma_chol_agree,
    lemma_chol_dense, lemma_chol_done_agree, lemma_describes_matches, lemma_diag_stored,
    lemma_source_is_entry, pattern_matches, source, Ic0,
};
use super::symbolic::{law_zero_fill, stored_lower};
use crate::inverse::{
    dense_times, hermitian_of, law_llh_recovers, law_llh_solves, lemma_llh_mirrors, llh_is,
    tridiagonal,
};
use crate::linalg::lower_diag_ok;
use crate::lu::dense_entry;
use crate::op::{Op, Preconditioner};
use crate::overlay::dense;
use crate::scalar::{
    exact_conjugation, exact_field, exact_roots, is_real, lemma_null_absorbs, lemma_null_conjugate,
    lemma_root_squares, lemma_times_commutes, vanishes, RealScalar, Scalar,
};
use crate::sparse::{entries, stored, CscModel, CscRef};
use crate::sums::{lemma_sum_null, sum};
use crate::util::diag_split::{diag_col_ok, splittable};
use vstd::prelude::*;

verus! {

/// `f` is what [`Ic0::try_new`] makes of `a`.
pub open spec fn is_ic0_of<T: Scalar>(f: Ic0<T>, a: CscRef<'_, T>) -> bool {
    &&& a.wf()
    &&& splittable(*a.pattern)
    &&& chol_pivots_ok(stored_lower(*a.pattern), entries(a), a.pattern.ncols as int)
    &&& f.wf()
    &&& f.symbolic.describes(*a.pattern)
    &&& f.factors(entries(a))
}

/// Cholesky elimination on the lower triangular pattern `s` makes no fill.
pub open spec fn factors_within(s: spec_fn(int, int) -> bool, n: int) -> bool {
    forall|i: int, j: int, m: int|
        0 <= m < j <= i < n && #[trigger] s(i, m) && #[trigger] s(j, m) ==> s(i, j)
}

/// The diagonal of `a` is real.
pub open spec fn real_diagonal<T: Scalar>(a: spec_fn(int, int) -> T, n: int) -> bool {
    forall|j: int| 0 <= j < n ==> is_real(#[trigger] a(j, j))
}

/// One entry of `L L^H` is a sum.
pub proof fn lemma_gram_sum<T: Scalar>(l: CscModel<T>, i: int, j: int, k: int)
    ensures
        gram_entry(l, i, j, k) == sum(
            |m: int| dense_entry(l, i, m).times(dense_entry(l, j, m).conjugate()),
            k,
        ),
    decreases k,
{
    if k > 0 {
        lemma_gram_sum(l, i, j, k - 1);
    }
}

/// In exact arithmetic, where elimination on the lower triangle of `A` makes no
/// fill, IC(0) is the Cholesky factorisation of the Hermitian matrix with that
/// lower triangle.
pub proof fn law_exact_without_fill<T: Scalar>(f: Ic0<T>, a: CscRef<'_, T>)
    requires
        exact_field::<T>(),
        exact_conjugation::<T>(),
        exact_roots::<T>(),
        is_ic0_of(f, a),
        real_diagonal(dense(a), a.pattern.ncols as int),
        factors_within(stored_lower(*a.pattern), a.pattern.ncols as int),
    ensures
        llh_is(f.l_model(), hermitian_of(dense(a)), a.pattern.ncols as int),
        lower_diag_ok(f.l_model(), false, a.pattern.ncols as int),
{
    let n = a.pattern.ncols as int;
    let l = f.l_model();
    let s = stored_lower(*a.pattern);
    let src = entries(a);
    law_zero_fill(f.symbolic, *a.pattern);
    lemma_diag_stored(l.pattern, n);
    assert forall|i: int, j: int| 0 <= j <= i < n implies #[trigger] dense(a)(i, j) == sum(
        |m: int| dense_entry(l, i, m).times(dense_entry(l, j, m).conjugate()),
        n,
    ) by {
        lemma_gram_sum(l, i, j, n);
        if s(i, j) {
            assert(stored(l.pattern)(j, j));
            assert(is_real(dense(a)(j, j)));
            law_agrees_on_pattern(f, a, i, j);
        } else {
            let g = |m: int| dense_entry(l, i, m).times(dense_entry(l, j, m).conjugate());
            assert forall|m: int| 0 <= m < n implies #[trigger] g(m) == T::null() by {
                lemma_chol_dense(l, src, n, i, m);
                lemma_chol_dense(l, src, n, j, m);
                if s(i, m) && s(j, m) && m < j {
                    assert(s(i, j));
                }
                let x = dense_entry(l, i, m);
                let y = dense_entry(l, j, m);
                lemma_null_conjugate::<T>();
                lemma_null_absorbs(x);
                lemma_times_commutes(T::null(), y.conjugate());
                lemma_null_absorbs(y.conjugate());
            }
            lemma_sum_null(g, n);
        }
    }
    lemma_llh_mirrors(l, dense(a), n);
    assert forall|j: int| 0 <= j < n implies !vanishes(
        l.values[#[trigger] l.pattern.start(j)],
    ) by {
        assert(chol_col_done(l.pattern, src, l.values, j));
        assert(l.pattern.in_col(l.pattern.start(j), j));
        assert(T::Real::null().below(chol_pivot(s, src, j)));
        lemma_root_squares::<T>(chol_pivot(s, src, j));
    }
}

/// In exact arithmetic, where elimination makes no fill, `M^{-1}` inverts the
/// Hermitian matrix with the lower triangle of `A`, from both sides.
pub proof fn law_inverts_without_fill<T: Scalar>(f: Ic0<T>, a: CscRef<'_, T>, x: Seq<T>)
    requires
        exact_field::<T>(),
        exact_conjugation::<T>(),
        exact_roots::<T>(),
        is_ic0_of(f, a),
        real_diagonal(dense(a), a.pattern.ncols as int),
        factors_within(stored_lower(*a.pattern), a.pattern.ncols as int),
        x.len() == a.pattern.ncols,
    ensures
        f.action(Op::Apply, dense_times(hermitian_of(dense(a)), x)) == x,
        dense_times(hermitian_of(dense(a)), f.action(Op::Apply, x)) == x,
{
    law_exact_without_fill(f, a);
    law_llh_recovers(f.l_model(), hermitian_of(dense(a)), x);
    law_llh_solves(f.l_model(), hermitian_of(dense(a)), x);
}

/// In exact arithmetic IC(0) of a tridiagonal Hermitian matrix inverts it.
pub proof fn law_inverts_tridiagonal<T: Scalar>(f: Ic0<T>, a: CscRef<'_, T>, x: Seq<T>)
    requires
        exact_field::<T>(),
        exact_conjugation::<T>(),
        exact_roots::<T>(),
        is_ic0_of(f, a),
        real_diagonal(dense(a), a.pattern.ncols as int),
        tridiagonal(*a.pattern),
        x.len() == a.pattern.ncols,
    ensures
        f.action(Op::Apply, dense_times(hermitian_of(dense(a)), x)) == x,
        dense_times(hermitian_of(dense(a)), f.action(Op::Apply, x)) == x,
{
    let n = a.pattern.ncols as int;
    let s = stored_lower(*a.pattern);
    assert forall|i: int, j: int, m: int|
        0 <= m < j <= i < n && #[trigger] s(i, m) && #[trigger] s(j, m) implies s(i, j) by {
        assert(stored(*a.pattern)(i, m) && stored(*a.pattern)(j, m));
        assert(i == m + 1 && j == m + 1);
        assert(diag_col_ok(*a.pattern, j));
    }
    law_inverts_without_fill(f, a, x);
}

/// The adjoint apply is the apply, and the transposed apply the conjugated one:
/// `M` is Hermitian.
pub proof fn law_self_adjoint<T: Scalar>(f: Ic0<T>, x: Seq<T>)
    ensures
        f.action(Op::Adjoint, x) == f.action(Op::Apply, x),
        f.action(Op::Transpose, x) == f.action(Op::Conj, x),
{
}

/// The factor depends on the lower triangle of `A` alone.
pub proof fn law_reads_lower_triangle<T: Scalar>(
    f: Ic0<T>,
    a: spec_fn(int, int) -> T,
    b: spec_fn(int, int) -> T,
)
    requires
        f.wf(),
        f.factors(a),
        forall|i: int, j: int| i >= j ==> #[trigger] a(i, j) == b(i, j),
    ensures
        f.factors(b),
        chol_pivots_ok(stored(f.symbolic.l), a, f.symbolic.dim as int) == chol_pivots_ok(
            stored(f.symbolic.l),
            b,
            f.symbolic.dim as int,
        ),
{
    let n = f.symbolic.dim as int;
    let l = f.symbolic.l;
    assert forall|i: int, j: int| #[trigger] stored(l)(i, j) implies a(i, j) == b(i, j) by {
        lemma_chol_dense(f.l_model(), a, n, i, j);
    }
    lemma_chol_agree(l, a, b, n);
    lemma_chol_done_agree(l, a, b, f.l_values@, n);
    if chol_pivots_ok(stored(l), a, n) {
        assert forall|k: int| 0 <= k < n implies T::Real::null().below(
            #[trigger] chol_pivot(stored(l), b, k),
        ) by {
            assert(chol_pivot(stored(l), a, k) == chol_pivot(stored(l), b, k));
        }
    }
    if chol_pivots_ok(stored(l), b, n) {
        assert forall|k: int| 0 <= k < n implies T::Real::null().below(
            #[trigger] chol_pivot(stored(l), a, k),
        ) by {
            assert(chol_pivot(stored(l), a, k) == chol_pivot(stored(l), b, k));
        }
    }
}

/// Refactorising against a matrix whose pattern was analysed computes the factor
/// that a fresh construction computes. `f` stands for the refactorised factor,
/// `g` for the fresh one.
pub proof fn law_refactorize_matches_fresh<T: Scalar>(f: Ic0<T>, g: Ic0<T>, a: CscRef<'_, T>)
    requires
        f.wf(),
        f.symbolic.describes(*a.pattern),
        f.factors(source(f.symbolic, a)),
        is_ic0_of(g, a),
    ensures
        pattern_matches(f.symbolic, *a.pattern),
        chol_pivots_ok(stored(f.symbolic.l), source(f.symbolic, a), f.symbolic.dim as int),
        f.symbolic == g.symbolic ==> f.l_values@ == g.l_values@,
        forall|i: int, j: int|
            0 <= i < a.pattern.ncols && 0 <= j < a.pattern.ncols ==> #[trigger] dense_entry(
                f.l_model(),
                i,
                j,
            ) == dense_entry(g.l_model(), i, j),
{
    let n = a.pattern.ncols as int;
    let s = f.symbolic;
    lemma_describes_matches(s, *a.pattern);
    law_zero_fill(s, *a.pattern);
    law_zero_fill(g.symbolic, *a.pattern);
    lemma_source_is_entry(s, a);
    lemma_chol_agree(s.l, source(s, a), entries(a), n);
    lemma_chol_done_agree(s.l, source(s, a), entries(a), f.l_values@, n);
    assert forall|k: int| 0 <= k < n implies T::Real::null().below(
        #[trigger] chol_pivot(stored(s.l), source(s, a), k),
    ) by {
        assert(chol_pivot(stored(s.l), source(s, a), k) == chol_pivot(stored(s.l), entries(a), k));
    }
    if f.symbolic == g.symbolic {
        assert forall|p: int| 0 <= p < f.l_values@.len() implies #[trigger] f.l_values@[p]
            == g.l_values@[p] by {
            let j = s.l.lemma_some_col(p);
            assert(chol_col_done(s.l, entries(a), f.l_values@, j));
            assert(chol_col_done(s.l, entries(a), g.l_values@, j));
            assert(s.l.in_col(p, j));
        }
        assert(f.l_values@ =~= g.l_values@);
    }
    assert forall|i: int, j: int| 0 <= i < n && 0 <= j < n implies #[trigger] dense_entry(
        f.l_model(),
        i,
        j,
    ) == dense_entry(g.l_model(), i, j) by {
        lemma_chol_dense(f.l_model(), entries(a), n, i, j);
        lemma_chol_dense(g.l_model(), entries(a), n, i, j);
    }
}

} // verus!
