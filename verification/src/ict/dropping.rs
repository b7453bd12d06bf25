//! What the threshold Cholesky factorisation drops, and what it keeps.
use vstd::prelude::*;

use super::laws::{gram_term, lemma_diag_real, lemma_partial};
use super::numeric::{
    col_maps, col_norm, column_budget, column_candidates, column_done, kept_rows, norm_over,
    source_col, updated, Ict,
};
use super::order::{col_scan, rows_below, update_seq};
use super::RowNorm;
use crate::ilutp::numeric::{norm_term, value_or_null};
use crate::lengths::{
    is_length, lemma_length_unique, lemma_real_sum_equal, lemma_real_sum_listed,
    lemma_squares_not_negative, squares,
};
use crate::lu::dense_entry;
use crate::overlay::{lemma_overlay_absent, overlay};
use crate::reading::{
    reads_magnitudes, reads_reals, reads_roots, reads_squares, reads_tuning, real_sum,
};
use crate::scalar::{
    exact_conjugation, exact_field, exact_negation, exact_roots, is_real, lemma_minus_undoes_plus,
    lemma_null_absorbs, lemma_plus_cancels, lemma_reciprocal_inverts, lemma_root_squares,
    lemma_times_associates, lemma_unit_is_neutral, RealScalar, Scalar,
};
use crate::sparse::CscRef;
use crate::sums::{lemma_sum_equal, lemma_sum_listed, sum};

verus! {

/// What the columns of `L` before `j` leave of the entry `(i, j)` of the lower
/// triangle: `a_ij` less the sum of `L_ik conj(L_jk)` over `k < j`.
pub open spec fn left_over<T: Scalar>(f: Ict<T>, a: CscRef<'_, T>, i: int, j: int) -> T {
    overlay(a)(i, j).minus(sum(gram_term(f.l_model(), i, j), j))
}

/// The magnitudes of what is left of column `j` below the diagonal.
pub open spec fn column_magnitudes<T: Scalar>(
    v: spec_fn(T::Real) -> real,
    f: Ict<T>,
    a: CscRef<'_, T>,
    j: int,
) -> spec_fn(int) -> real {
    |i: int|
        if i > j {
            v(left_over(f, a, i, j).magnitude())
        } else {
            0real
        }
}

/// The updated column is what is left.
pub proof fn lemma_left_over<T: Scalar>(f: Ict<T>, a: CscRef<'_, T>, i: int, j: int)
    requires
        exact_field::<T>(),
        exact_conjugation::<T>(),
        exact_negation::<T>(),
        a.wf(),
        f.wf(),
        f.dim == a.pattern.ncols,
        f.factors(a),
        0 <= j <= i < f.dim,
    ensures
        ({
            let cols = col_maps(f.l, f.l_values@);
            let ord = update_seq(cols, f.dim as int, j);
            value_or_null(updated(a, cols, ord, j)(i)) == left_over(f, a, i, j)
        }),
{
    let n = a.pattern.ncols as int;
    let l = f.l_model();
    let cols = col_maps(f.l, f.l_values@);
    assert(column_done(a, f.params, cols, j));
    let ord = update_seq(cols, n, j);
    let src = source_col(a, j);
    let term = gram_term(l, i, j);
    let w = value_or_null(updated(a, cols, ord, j)(i));
    lemma_partial(f, src, ord, j, ord.len() as int, i);
    lemma_sum_listed(term, ord, j);
    let listed = |k: int|
        if ord.contains(k) {
            term(k)
        } else {
            T::null()
        };
    assert forall|k: int| 0 <= k < j implies #[trigger] listed(k) == term(k) by {
        if !ord.contains(k) {
            assert(dense_entry(l, j, k) == T::null());
            reveal(exact_conjugation);
            lemma_null_absorbs(dense_entry(l, i, k));
        }
    }
    lemma_sum_equal(listed, term, j);
    if !a.pattern.has(i, j) {
        lemma_overlay_absent(a, i, j, a.pattern.end(j));
    }
    let x = overlay(a)(i, j);
    let s = sum(term, j);
    assert(w.plus(s) == x);
    lemma_minus_undoes_plus(x, s);
    lemma_plus_cancels(w, x.minus(s), s);
}

/// The norm terms, row by row in the order in which they are met.
pub proof fn lemma_norm_over<T: Scalar>(
    v: spec_fn(T::Real) -> real,
    norm: RowNorm,
    w: spec_fn(int) -> Option<T>,
    touch: Seq<int>,
    t: int,
)
    requires
        reads_reals(v),
        reads_squares::<T>(v),
        0 <= t <= touch.len(),
    ensures
        ({
            let mags = |s: int| v(value_or_null(w(touch[s])).magnitude());
            v(norm_over(norm, w, touch, t)) == match norm {
                RowNorm::One => real_sum(mags, t),
                RowNorm::Two => real_sum(squares(mags), t),
            }
        }),
    decreases t,
{
    reveal(reads_reals);
    if t > 0 {
        lemma_norm_over(v, norm, w, touch, t - 1);
        reveal(reads_squares);
        let x = value_or_null(w(touch[t - 1]));
        assert(v(norm_over(norm, w, touch, t)) == v(norm_over(norm, w, touch, t - 1)) + v(
            norm_term(norm, x),
        ));
    }
}

/// The drop threshold of column `j`.
pub open spec fn column_threshold<T: Scalar>(f: Ict<T>, a: CscRef<'_, T>, j: int) -> T::Real {
    let cols = col_maps(f.l, f.l_values@);
    let ord = update_seq(cols, f.dim as int, j);
    let w = updated(a, cols, ord, j);
    let touch = rows_below(col_scan(a, cols, ord, j), j);
    T::tuned(f.params.drop_tol).times(col_norm(f.params.norm, w, touch))
}

/// The drop threshold is `drop_tol` times the length of what is left below the
/// diagonal.
pub proof fn lemma_column_threshold<T: Scalar>(
    v: spec_fn(T::Real) -> real,
    w: spec_fn(T::Tuning) -> real,
    f: Ict<T>,
    a: CscRef<'_, T>,
    j: int,
    len: real,
)
    requires
        exact_field::<T>(),
        exact_conjugation::<T>(),
        exact_negation::<T>(),
        reads_reals(v),
        reads_magnitudes::<T>(v),
        reads_squares::<T>(v),
        reads_roots(v),
        reads_tuning::<T>(v, w),
        a.wf(),
        f.wf(),
        f.dim == a.pattern.ncols,
        f.factors(a),
        0 <= j < f.dim,
        is_length(f.params.norm, column_magnitudes(v, f, a, j), f.dim as int, len),
    ensures
        v(column_threshold(f, a, j)) == w(f.params.drop_tol) * len,
{
    let n = a.pattern.ncols as int;
    let cols = col_maps(f.l, f.l_values@);
    assert(column_done(a, f.params, cols, j));
    let ord = update_seq(cols, n, j);
    let col = updated(a, cols, ord, j);
    let touch = rows_below(col_scan(a, cols, ord, j), j);
    let norm = f.params.norm;
    let mags = column_magnitudes(v, f, a, j);
    let met = |s: int| v(value_or_null(col(touch[s])).magnitude());
    let m = touch.len() as int;
    lemma_norm_over(v, norm, col, touch, m);
    assert forall|i: int| j < i < n implies #[trigger] mags(i) == v(value_or_null(col(i)).magnitude()) by {
        lemma_left_over(f, a, i, j);
    }
    assert forall|i: int| 0 <= i < n && !touch.contains(i) implies #[trigger] mags(i) == 0real by {
        reveal(reads_magnitudes);
        if i > j {
            assert(col(i) is None);
        }
    }
    let listed = |s: int| mags(touch[s]);
    assert forall|s: int| 0 <= s < m implies #[trigger] listed(s) == met(s) by {
        assert(touch.contains(touch[s]));
        assert(mags(touch[s]) == v(value_or_null(col(touch[s])).magnitude()));
    }
    let sq = squares(mags);
    if norm is One {
        lemma_real_sum_listed(mags, touch, n);
        lemma_real_sum_equal(listed, met, m);
    } else {
        assert forall|i: int| 0 <= i < n && !touch.contains(i) implies #[trigger] sq(i) == 0real by {
            assert(mags(i) == 0real);
            assert(0real * 0real == 0real) by (nonlinear_arith);
        }
        lemma_real_sum_listed(sq, touch, n);
        let placed = |s: int| sq(touch[s]);
        assert forall|s: int| 0 <= s < m implies #[trigger] placed(s) == squares(met)(s) by {
            assert(listed(s) == met(s));
        }
        lemma_real_sum_equal(placed, squares(met), m);
        lemma_squares_not_negative(mags, n);
        reveal(reads_roots);
        let s = norm_over(norm, col, touch, m);
        assert(v(s.root()) * v(s.root()) == v(s));
    }
    let x = v(col_norm(norm, col, touch));
    lemma_length_unique(norm, mags, n, x, len);
    reveal(reads_reals);
    reveal(reads_tuning);
    assert(v(T::tuned(f.params.drop_tol).times(col_norm(norm, col, touch))) == v(
        T::tuned(f.params.drop_tol),
    ) * x);
}

/// What column `j` of `L` stores.
pub proof fn lemma_column_stored<T: Scalar>(f: Ict<T>, a: CscRef<'_, T>, i: int, j: int)
    requires
        exact_field::<T>(),
        exact_conjugation::<T>(),
        exact_negation::<T>(),
        a.wf(),
        f.wf(),
        f.dim == a.pattern.ncols,
        f.factors(a),
        0 <= j < i < f.dim,
    ensures
        ({
            let cols = col_maps(f.l, f.l_values@);
            let ord = update_seq(cols, f.dim as int, j);
            let col = updated(a, cols, ord, j);
            let x = left_over(f, a, i, j);
            &&& x == value_or_null(col(i))
            &&& cols[j].dom().contains(i) == f.l.has(i, j)
            &&& f.l.has(i, j) ==> col(i) == Some(x) && column_threshold(f, a, j).at_most(
                x.magnitude(),
            ) && dense_entry(f.l_model(), i, j) == x.times(
                dense_entry(f.l_model(), j, j).reciprocal(),
            )
            &&& !f.l.has(i, j) ==> dense_entry(f.l_model(), i, j) == T::null()
        }),
{
    let n = a.pattern.ncols as int;
    let cols = col_maps(f.l, f.l_values@);
    assert(column_done(a, f.params, cols, j));
    let ord = update_seq(cols, n, j);
    let col = updated(a, cols, ord, j);
    lemma_left_over(f, a, i, j);
    let cand = column_candidates(col, column_threshold(f, a, j), j);
    let kept = kept_rows(cols[j], col, j);
    assert(kept.dom().contains(i) <==> cols[j].dom().contains(i));
    assert(cols[j].dom().contains(j));
    assert(dense_entry(f.l_model(), j, j) == cols[j][j]);
    if kept.dom().contains(i) {
        assert(cand(i) == Some(kept[i]));
        assert(dense_entry(f.l_model(), i, j) == cols[j][i]);
    }
}

/// Nothing below the diagonal of `L` stems from an entry smaller than `drop_tol`
/// times the length of what was left of its column below the diagonal.
pub proof fn law_kept_entries_are_large<T: Scalar>(
    v: spec_fn(T::Real) -> real,
    w: spec_fn(T::Tuning) -> real,
    f: Ict<T>,
    a: CscRef<'_, T>,
    i: int,
    j: int,
    len: real,
)
    requires
        exact_field::<T>(),
        exact_conjugation::<T>(),
        exact_negation::<T>(),
        reads_reals(v),
        reads_magnitudes::<T>(v),
        reads_squares::<T>(v),
        reads_roots(v),
        reads_tuning::<T>(v, w),
        a.wf(),
        f.wf(),
        f.dim == a.pattern.ncols,
        f.factors(a),
        0 <= j < i < f.dim,
        f.l.has(i, j),
        is_length(f.params.norm, column_magnitudes(v, f, a, j), f.dim as int, len),
    ensures
        w(f.params.drop_tol) * len <= v(left_over(f, a, i, j).magnitude()),
{
    lemma_column_threshold(v, w, f, a, j, len);
    lemma_column_stored(f, a, i, j);
    reveal(reads_reals);
}

/// Column `j` of `L` is full, and stems from nothing below its diagonal that is
/// smaller than `m`.
pub open spec fn outranked<T: Scalar>(
    v: spec_fn(T::Real) -> real,
    f: Ict<T>,
    a: CscRef<'_, T>,
    j: int,
    m: real,
) -> bool {
    &&& col_maps(f.l, f.l_values@)[j].dom().len() == 1 + column_budget(
        f.params,
        a.pattern.row_idx@.len(),
        a.pattern.ncols as nat,
    )
    &&& forall|k: int|
        j < k < f.dim && #[trigger] f.l.has(k, j) ==> m <= v(left_over(f, a, k, j).magnitude())
}

/// What is left below the diagonal and not stored is zero, or smaller than
/// `drop_tol` times the length of what is left of its column there, or gave way to
/// entries at least as large that fill the column.
pub proof fn law_dropped_entries_are_small<T: Scalar>(
    v: spec_fn(T::Real) -> real,
    w: spec_fn(T::Tuning) -> real,
    f: Ict<T>,
    a: CscRef<'_, T>,
    i: int,
    j: int,
    len: real,
)
    requires
        exact_field::<T>(),
        exact_conjugation::<T>(),
        exact_negation::<T>(),
        reads_reals(v),
        reads_magnitudes::<T>(v),
        reads_squares::<T>(v),
        reads_roots(v),
        reads_tuning::<T>(v, w),
        a.wf(),
        f.wf(),
        f.dim == a.pattern.ncols,
        f.factors(a),
        0 <= j < i < f.dim,
        !f.l.has(i, j),
        is_length(f.params.norm, column_magnitudes(v, f, a, j), f.dim as int, len),
    ensures
        ({
            let e = left_over(f, a, i, j);
            ||| e == T::null()
            ||| v(e.magnitude()) < w(f.params.drop_tol) * len
            ||| outranked(v, f, a, j, v(e.magnitude()))
        }),
{
    lemma_column_threshold(v, w, f, a, j, len);
    lemma_column_stored(f, a, i, j);
    let n = a.pattern.ncols as int;
    let cols = col_maps(f.l, f.l_values@);
    assert(column_done(a, f.params, cols, j));
    let ord = update_seq(cols, n, j);
    let col = updated(a, cols, ord, j);
    let e = left_over(f, a, i, j);
    let tau = column_threshold(f, a, j);
    let cand = column_candidates(col, tau, j);
    let kept = kept_rows(cols[j], col, j);
    let p = column_budget(f.params, a.pattern.row_idx@.len(), a.pattern.ncols as nat);
    reveal(reads_reals);
    if col(i) is Some && !(v(e.magnitude()) < v(tau)) {
        assert(cand(i) == Some(e));
        assert(!kept.dom().contains(i));
        assert(kept.dom().len() == p);
        assert(cols[j].dom().contains(j));
        assert(cols[j].dom() =~= kept.dom().insert(j));
        assert forall|k: int| j < k < f.dim && #[trigger] f.l.has(k, j) implies v(e.magnitude())
            <= v(left_over(f, a, k, j).magnitude()) by {
            lemma_column_stored(f, a, k, j);
            assert(kept.dom().contains(k));
            assert(!kept[k].magnitude().below(e.magnitude()));
        }
    }
}

/// In exact arithmetic every entry that `L` stores is what is left there, divided
/// by the diagonal, and the diagonal is the root of the real part of what is left.
pub proof fn law_stored_entries<T: Scalar>(f: Ict<T>, a: CscRef<'_, T>, i: int, j: int)
    requires
        exact_field::<T>(),
        exact_conjugation::<T>(),
        exact_negation::<T>(),
        exact_roots::<T>(),
        a.wf(),
        f.wf(),
        f.dim == a.pattern.ncols,
        f.factors(a),
        0 <= j <= i < f.dim,
        f.l.has(i, j),
    ensures
        ({
            let d = dense_entry(f.l_model(), j, j);
            let x = left_over(f, a, i, j);
            if i == j {
                d.times(d) == T::embed(x.real_part())
            } else {
                dense_entry(f.l_model(), i, j).times(d) == x
            }
        }),
        is_real(overlay(a)(j, j)) && i == j ==> T::embed(left_over(f, a, j, j).real_part())
            == left_over(f, a, j, j),
{
    let n = a.pattern.ncols as int;
    let cols = col_maps(f.l, f.l_values@);
    assert(column_done(a, f.params, cols, j));
    let ord = update_seq(cols, n, j);
    let col = updated(a, cols, ord, j);
    lemma_left_over(f, a, j, j);
    let r = left_over(f, a, j, j).real_part();
    let d = dense_entry(f.l_model(), j, j);
    assert(cols[j].dom().contains(j));
    assert(d == T::embed(r.root()));
    lemma_root_squares::<T>(r);
    if i == j {
        if is_real(overlay(a)(j, j)) {
            lemma_diag_real(source_col(a, j), cols, ord, j, ord.len() as int);
        }
    } else {
        lemma_column_stored(f, a, i, j);
        let x = left_over(f, a, i, j);
        lemma_times_associates(x, d.reciprocal(), d);
        lemma_reciprocal_inverts(d);
        lemma_unit_is_neutral(x);
    }
}

} // verus!
