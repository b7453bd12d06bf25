//! What the threshold Cholesky factorisation amounts to when nothing is dropped.
use super::numeric::{
    col_acc, col_maps, col_norm, column_budget, column_built, column_candidates, column_done,
    kept_rows, source_col, updated, Ict,
};
use super::order::{col_scan, rows_below, update_seq};
use crate::ic0::laws::real_diagonal;
use crate::ilutp::laws::lemma_all_kept;
use crate::ilutp::numeric::value_or_null;
use crate::inverse::{
    dense_times, hermitian_of, law_llh_recovers, law_llh_solves, lemma_llh_mirrors, llh_is,
};
use crate::linalg::lower_diag_ok;
use crate::lu::{dense_entry, lemma_lower_col};
use crate::op::{Op, Preconditioner};
use crate::overlay::{lemma_overlay_absent, overlay};
use crate::scalar::{
    exact_conjugation, exact_field, exact_magnitudes, exact_negation, exact_roots, exact_tuning, is_real,
    lemma_embed_conjugate, lemma_minus_is_real, lemma_minus_undoes_plus, lemma_null_absorbs,
    lemma_null_conjugate, lemma_null_is_neutral, lemma_plus_associates, lemma_plus_commutes,
    lemma_reciprocal_inverts, lemma_root_squares, lemma_square_is_real, lemma_times_associates,
    lemma_times_commutes, lemma_unit_is_neutral, vanishes, RealScalar, Scalar,
};
use crate::sparse::{CscModel, CscRef};
use crate::sums::{lemma_sum_equal, lemma_sum_listed, lemma_sum_tail, sum};
use vstd::prelude::*;

verus! {

/// Nothing is small enough to be dropped, and every column fits its budget.
pub open spec fn drops_nothing<T: Scalar>(f: Ict<T>, a: CscRef<'_, T>) -> bool {
    &&& column_budget(f.params, a.pattern.row_idx@.len(), a.pattern.ncols as nat)
        >= a.pattern.ncols
    &&& forall|r: T::Real, x: T|
        #![trigger T::tuned(f.params.drop_tol).times(r), x.magnitude()]
        T::tuned(f.params.drop_tol).times(r).at_most(x.magnitude())
}

/// In exact arithmetic a zero drop tolerance with a full fill budget drops
/// nothing.
pub proof fn law_zero_tolerance_drops_nothing<T: Scalar>(f: Ict<T>, a: CscRef<'_, T>)
    requires
        exact_magnitudes::<T>(),
        f.params.drop_tol == T::Tuning::null(),
        exact_tuning::<T>(),
        column_budget(f.params, a.pattern.row_idx@.len(), a.pattern.ncols as nat)
            >= a.pattern.ncols,
    ensures
        drops_nothing(f, a),
{
}

/// One term of an entry of `L L^H`.
pub open spec fn gram_term<T: Scalar>(l: CscModel<T>, i: int, j: int) -> spec_fn(int) -> T {
    |k: int| dense_entry(l, i, k).times(dense_entry(l, j, k).conjugate())
}

/// What has been subtracted from an entry, and what is left, make up the source
/// entry.
pub proof fn lemma_partial<T: Scalar>(
    f: Ict<T>,
    src: spec_fn(int) -> Option<T>,
    ord: Seq<int>,
    j: int,
    t: int,
    i: int,
)
    requires
        exact_field::<T>(),
        exact_conjugation::<T>(),
        exact_negation::<T>(),
        f.wf(),
        0 <= j <= i < f.dim,
        0 <= t <= ord.len(),
        forall|k: int| #[trigger]
            ord.contains(k) ==> 0 <= k < j && col_maps(f.l, f.l_values@)[k].dom().contains(j),
    ensures
        value_or_null(col_acc(src, col_maps(f.l, f.l_values@), ord, j, t, i)).plus(
            sum(|s: int| gram_term(f.l_model(), i, j)(ord[s]), t),
        ) == value_or_null(src(i)),
    decreases t,
{
    let l = f.l_model();
    let cols = col_maps(f.l, f.l_values@);
    let term = gram_term(l, i, j);
    let listed = |s: int| term(ord[s]);
    if t <= 0 {
        lemma_null_is_neutral(value_or_null(src(i)));
    } else {
        lemma_partial(f, src, ord, j, t - 1, i);
        let k = ord[t - 1];
        assert(ord.contains(k));
        let before = col_acc(src, cols, ord, j, t - 1, i);
        let after = col_acc(src, cols, ord, j, t, i);
        let part = sum(listed, t - 1);
        assert(sum(listed, t) == part.plus(term(k)));
        let b = value_or_null(before);
        let af = value_or_null(after);
        if cols[k].dom().contains(i) {
            assert(dense_entry(l, i, k) == cols[k][i]);
            assert(dense_entry(l, j, k) == cols[k][j]);
            assert(af == b.minus(term(k)));
            lemma_minus_undoes_plus(b, term(k));
            lemma_plus_commutes(part, term(k));
            lemma_plus_associates(af, term(k), part);
        } else {
            assert(dense_entry(l, i, k) == T::null());
            lemma_times_commutes(T::null(), dense_entry(l, j, k).conjugate());
            lemma_null_absorbs(dense_entry(l, j, k).conjugate());
            lemma_null_is_neutral(part);
        }
    }
}

/// What is left on the diagonal stays real.
pub proof fn lemma_diag_real<T: Scalar>(
    src: spec_fn(int) -> Option<T>,
    cols: Seq<Map<int, T>>,
    ord: Seq<int>,
    j: int,
    t: int,
)
    requires
        exact_roots::<T>(),
        src(j) is Some,
        is_real(src(j)->0),
    ensures
        col_acc(src, cols, ord, j, t, j) is Some,
        is_real(col_acc(src, cols, ord, j, t, j)->0),
    decreases t,
{
    if t > 0 {
        lemma_diag_real(src, cols, ord, j, t - 1);
        let k = ord[t - 1];
        let y = col_acc(src, cols, ord, j, t - 1, j)->0;
        lemma_square_is_real(cols[k][j]);
        lemma_minus_is_real(y, cols[k][j].times(cols[k][j].conjugate()));
    }
}

/// The product of an entry of column `j` with the conjugated diagonal is what was
/// left of it.
proof fn lemma_last_term<T: Scalar>(
    f: Ict<T>,
    a: CscRef<'_, T>,
    ord: Seq<int>,
    seen: Seq<usize>,
    i: int,
    j: int,
)
    requires
        exact_field::<T>(),
        exact_roots::<T>(),
        f.wf(),
        f.dim == a.pattern.ncols,
        drops_nothing(f, a),
        0 <= j <= i < f.dim,
        is_real(overlay(a)(j, j)),
        column_built(a, f.params, col_maps(f.l, f.l_values@), ord, seen, j),
    ensures
        gram_term(f.l_model(), i, j)(j) == value_or_null(
            updated(a, col_maps(f.l, f.l_values@), ord, j)(i),
        ),
        !vanishes(dense_entry(f.l_model(), j, j)),
{
    let n = a.pattern.ncols as int;
    let l = f.l_model();
    let cols = col_maps(f.l, f.l_values@);
    let w = updated(a, cols, ord, j);
    let r = value_or_null(w(j)).real_part();
    let pivot = T::embed(r.root());
    assert(dense_entry(l, j, j) == pivot);
    lemma_root_squares::<T>(r);
    lemma_embed_conjugate::<T>(r.root());
    if i == j {
        lemma_diag_real(source_col(a, j), cols, ord, j, ord.len() as int);
    } else {
        let p = column_budget(f.params, a.pattern.row_idx@.len(), a.pattern.ncols as nat);
        let tau = T::tuned(f.params.drop_tol).times(col_norm(f.params.norm, w, rows_below(seen, j)));
        let cand = column_candidates(w, tau, j);
        let kept = kept_rows(cols[j], w, j);
        assert(kept.dom().contains(i) <==> cols[j].dom().contains(i));
        match w(i) {
            Some(y) => {
                assert(tau.at_most(y.magnitude()));
                assert(cand(i) is Some);
                lemma_all_kept(cand, kept, p, n, i);
                assert(dense_entry(l, i, j) == y.times(pivot.reciprocal()));
                lemma_times_associates(y, pivot.reciprocal(), pivot);
                lemma_reciprocal_inverts(pivot);
                lemma_unit_is_neutral(y);
            },
            None => {
                if kept.dom().contains(i) {
                    assert(cand(i) == Some(kept[i]));
                }
                assert(dense_entry(l, i, j) == T::null());
                lemma_times_commutes(T::null(), pivot);
                lemma_null_absorbs(pivot);
            },
        }
    }
}

/// In exact arithmetic, a factorisation that drops nothing is the Cholesky
/// factorisation of the Hermitian matrix with the lower triangle of `A`.
pub proof fn law_exact_without_dropping<T: Scalar>(f: Ict<T>, a: CscRef<'_, T>)
    requires
        exact_field::<T>(),
        exact_conjugation::<T>(),
        exact_negation::<T>(),
        exact_roots::<T>(),
        a.wf(),
        f.wf(),
        f.dim == a.pattern.ncols,
        f.factors(a),
        drops_nothing(f, a),
        real_diagonal(overlay(a), a.pattern.ncols as int),
    ensures
        llh_is(f.l_model(), hermitian_of(overlay(a)), a.pattern.ncols as int),
        lower_diag_ok(f.l_model(), false, a.pattern.ncols as int),
{
    let n = a.pattern.ncols as int;
    let l = f.l_model();
    let cols = col_maps(f.l, f.l_values@);
    assert forall|i: int, j: int| 0 <= j <= i < n implies #[trigger] overlay(a)(i, j) == sum(
        |m: int| dense_entry(l, i, m).times(dense_entry(l, j, m).conjugate()),
        n,
    ) by {
        assert(is_real(overlay(a)(j, j)));
        assert(column_done(a, f.params, cols, j));
        let ord = update_seq(cols, n, j);
        let seen = col_scan(a, cols, ord, j);
        assert(column_built(a, f.params, cols, ord, seen, j));
        let src = source_col(a, j);
        let term = gram_term(l, i, j);
        let w = value_or_null(updated(a, cols, ord, j)(i));
        lemma_last_term(f, a, ord, seen, i, j);
        lemma_partial(f, src, ord, j, ord.len() as int, i);
        lemma_sum_listed(term, ord, j);
        let listed = |k: int|
            if ord.contains(k) {
                term(k)
            } else {
                T::null()
            };
        assert forall|k: int| 0 <= k < j implies #[trigger] listed(k) == term(k) by {
            if !ord.contains(k) {
                assert(dense_entry(l, j, k) == T::null());
                lemma_null_conjugate::<T>();
                lemma_null_absorbs(dense_entry(l, i, k));
            }
        }
        lemma_sum_equal(listed, term, j);
        assert(sum(term, j + 1) == sum(term, j).plus(w));
        lemma_plus_commutes(sum(term, j), w);
        assert forall|k: int| j + 1 <= k < n implies #[trigger] term(k) == T::null() by {
            if f.l.has(j, k) {
                f.l.lemma_find(j, k);
                lemma_lower_col(f.l, n, f.l.find(j, k), k);
            }
            lemma_null_conjugate::<T>();
            lemma_null_absorbs(dense_entry(l, i, k));
        }
        lemma_sum_tail(term, j + 1, n);
        if !a.pattern.has(i, j) {
            lemma_overlay_absent(a, i, j, a.pattern.end(j));
        }
        assert(sum(term, n) == overlay(a)(i, j));
    }
    lemma_llh_mirrors(l, overlay(a), n);
    assert forall|j: int| 0 <= j < n implies !vanishes(
        l.values[#[trigger] l.pattern.start(j)],
    ) by {
        assert(is_real(overlay(a)(j, j)));
        assert(column_done(a, f.params, cols, j));
        let ord = update_seq(cols, n, j);
        let seen = col_scan(a, cols, ord, j);
        assert(column_built(a, f.params, cols, ord, seen, j));
        lemma_last_term(f, a, ord, seen, j, j);
        assert(f.l.start(j) < f.l.end(j) && f.l.row_idx@[f.l.start(j)] == j);
        assert(f.l.sorted_col(j));
        f.l.lemma_find_at(f.l.start(j), j);
    }
}

/// In exact arithmetic, when nothing is dropped, `M^{-1}` inverts the Hermitian
/// matrix with the lower triangle of `A`, from both sides.
pub proof fn law_inverts_without_dropping<T: Scalar>(f: Ict<T>, a: CscRef<'_, T>, x: Seq<T>)
    requires
        exact_field::<T>(),
        exact_conjugation::<T>(),
        exact_negation::<T>(),
        exact_roots::<T>(),
        a.wf(),
        f.wf(),
        f.dim == a.pattern.ncols,
        f.factors(a),
        drops_nothing(f, a),
        real_diagonal(overlay(a), a.pattern.ncols as int),
        x.len() == a.pattern.ncols,
    ensures
        f.action(Op::Apply, dense_times(hermitian_of(overlay(a)), x)) == x,
        dense_times(hermitian_of(overlay(a)), f.action(Op::Apply, x)) == x,
{
    law_exact_without_dropping(f, a);
    law_llh_recovers(f.l_model(), hermitian_of(overlay(a)), x);
    law_llh_solves(f.l_model(), hermitian_of(overlay(a)), x);
}

/// The adjoint apply is the apply, and the transposed apply the conjugated one:
/// `M` is Hermitian.
pub proof fn law_self_adjoint<T: Scalar>(f: Ict<T>, x: Seq<T>)
    ensures
        f.action(Op::Adjoint, x) == f.action(Op::Apply, x),
        f.action(Op::Transpose, x) == f.action(Op::Conj, x),
{
}

} // verus!
