//! What the threshold factorisation amounts to when nothing is dropped.
use vstd::prelude::*;
use vstd::set_lib::{lemma_int_range, lemma_len_subset, set_int_range};

use super::numeric::{
    budget, eliminated, is_open, keeps_largest, lower_candidates, perm_before, row_done, source_row,
    threshold, upper_candidates, value_or_null, Ilutp,
};
use super::row::{acc, inverse_perms};
use super::apply::gathered;
use crate::inverse::{
    dense_times, law_lu_recovers, law_lu_solves, law_lu_transpose_recovers,
    law_lu_transpose_solves, lu_is, transposed,
};
use crate::linalg::{
    lemma_solve_lengths, lower_diag_ok, lower_solve, upper_diag_ok, upper_transpose_solve,
};
use crate::lu::{dense_entry, lemma_lower_col, lemma_upper_col, product_entry};
use crate::op::{Op, Preconditioner};
use crate::overlay::dense;
use crate::scalar::{
    exact_conjugation, exact_field, exact_magnitudes, exact_tuning, lemma_minus_undoes_plus, lemma_null_absorbs,
    lemma_null_is_neutral, lemma_plus_associates, lemma_plus_commutes, lemma_reciprocal_inverts,
    lemma_times_associates, lemma_times_commutes, lemma_unit_is_neutral, vanishes, RealScalar,
    Scalar,
};
use crate::sparse::CscRef;
use crate::sums::{lemma_sum_equal, lemma_sum_permuted};
use crate::triangular::lu_action;

verus! {

/// Nothing is small enough to be dropped, and every row fits its budget.
pub open spec fn drops_nothing<T: Scalar>(f: Ilutp<T>, a: CscRef<'_, T>) -> bool {
    &&& budget(f.params, a.pattern.row_idx@.len(), a.pattern.ncols as nat) >= a.pattern.ncols
    &&& forall|i: int, x: T|
        #![trigger threshold(a, f.params, i), x.magnitude()]
        !x.magnitude().below(threshold(a, f.params, i)) && threshold(a, f.params, i).at_most(
            x.magnitude(),
        )
}

/// A scalar of positive magnitude does not vanish.
pub open spec fn magnitude_detects<T: Scalar>() -> bool {
    forall|x: T| T::Real::null().below(#[trigger] x.magnitude()) ==> !vanishes(x)
}

/// In exact arithmetic, a factorisation that drops nothing reproduces the
/// matrix with its columns permuted: `L U = A P`.
pub proof fn law_exact_without_dropping<T: Scalar>(
    f: Ilutp<T>,
    a: CscRef<'_, T>,
    i: int,
    k: int,
)
    requires
        exact_field::<T>(),
        magnitude_detects::<T>(),
        a.wf(),
        a.pattern.nrows == a.pattern.ncols,
        f.wf(),
        f.n == a.pattern.ncols,
        f.factors(a),
        drops_nothing(f, a),
        0 <= i < f.n,
        0 <= k < f.n,
    ensures
        product_entry(f.l_model(), f.u_model(), i, k, f.n as int) == dense_entry(a@, i, f.perm@[k] as int),
{
    let n = f.n as int;
    let c = f.perm@[k] as int;
    let piv = f.perm@;
    let u = f.u_rows();
    let src = source_row(a, i);
    let tau = threshold(a, f.params, i);
    assert(piv[k] < n && f.perm_inv@[piv[k] as int] == k);
    assert(row_done(a, f.params, piv, u, f.l_rows(), i));
    if k < i {
        lemma_partial(f, a, i, k, k);
        lemma_multiplier(f, a, i, k);
        lemma_upper_dense(f, a, k, k);
        let x = acc(src, tau, piv, u, k, c);
        let w = value_or_null(x);
        let pv = u[k][c];
        lemma_pivot_invertible(f, a, k);
        let m = dense_entry(f.l_model(), i, k);
        let term = m.times(dense_entry(f.u_model(), k, k));
        match x {
            Some(y) => {
                lemma_times_associates(y, pv.reciprocal(), pv);
                lemma_reciprocal_inverts(pv);
                lemma_unit_is_neutral(y);
            },
            None => {
                lemma_times_commutes(m, pv);
                lemma_null_absorbs(pv);
            },
        }
        assert(term == w);
        lemma_plus_commutes(product_entry(f.l_model(), f.u_model(), i, k, k), term);
        assert(product_entry(f.l_model(), f.u_model(), i, k, k + 1) == dense_entry(a@, i, c));
        lemma_tail(f, a, i, k, k + 1, n);
    } else {
        lemma_partial(f, a, i, k, i);
        lemma_lower_diag(f, i);
        lemma_upper_dense(f, a, i, k);
        let w = value_or_null(acc(src, tau, piv, u, i, c));
        let term = dense_entry(f.l_model(), i, i).times(dense_entry(f.u_model(), i, k));
        lemma_times_commutes(T::unit(), w);
        lemma_unit_is_neutral(w);
        assert(term == w);
        lemma_plus_commutes(product_entry(f.l_model(), f.u_model(), i, k, i), term);
        assert(product_entry(f.l_model(), f.u_model(), i, k, i + 1) == dense_entry(a@, i, c));
        lemma_tail(f, a, i, k, i + 1, n);
    }
}

/// A budget that covers every label keeps every candidate.
pub proof fn lemma_all_kept<T: Scalar>(
    cand: spec_fn(int) -> Option<T>,
    row: Map<int, T>,
    p: nat,
    n: int,
    c: int,
)
    requires
        keeps_largest(cand, row, p, n),
        p >= n,
        0 <= c < n,
        cand(c) is Some,
    ensures
        row.dom().contains(c),
{
    if !row.dom().contains(c) {
        assert(row.dom().len() == p);
        let all = set_int_range(0, n);
        lemma_int_range(0, n);
        let rest = all.remove(c);
        assert forall|x: int| row.dom().contains(x) implies rest.contains(x) by {
            assert(cand(x) == Some(row[x]));
        }
        lemma_len_subset(row.dom(), rest);
    }
}

/// What `U` holds in row `m` at the column of position `k`.
proof fn lemma_upper_dense<T: Scalar>(
    f: Ilutp<T>,
    a: CscRef<'_, T>,
    m: int,
    k: int,
)
    requires
        f.wf(),
        f.n == a.pattern.ncols,
        f.factors(a),
        drops_nothing(f, a),
        0 <= m < f.n,
        0 <= k < f.n,
    ensures
        m <= k ==> dense_entry(f.u_model(), m, k) == value_or_null(
            eliminated(a, f.params, f.perm@, f.u_rows(), m)(f.perm@[k] as int),
        ),
        m > k ==> dense_entry(f.u_model(), m, k) == T::null(),
        f.u_rows()[m].dom().contains(f.perm@[k] as int) ==> dense_entry(f.u_model(), m, k)
            == f.u_rows()[m][f.perm@[k] as int] && m <= k,
        !f.u_rows()[m].dom().contains(f.perm@[k] as int) ==> dense_entry(f.u_model(), m, k) == T::null(),
{
    let n = f.n as int;
    let piv = f.perm@;
    let u = f.u_rows();
    let c = piv[k] as int;
    let q = piv[m] as int;
    let tau = threshold(a, f.params, m);
    let r = eliminated(a, f.params, piv, u, m);
    assert(piv[k] < n && f.perm_inv@[piv[k] as int] == k);
    assert(piv[m] < n && f.perm_inv@[piv[m] as int] == m);
    assert(u[m].dom().contains(c) <==> f.u.has(m, f.perm_inv@[c] as int));
    assert(row_done(a, f.params, piv, u, f.l_rows(), m));
    lemma_open_iff(piv, f.perm_inv@, n, m, k);
    let cand = upper_candidates(r, tau, piv, m, q);
    let p = budget(f.params, a.pattern.row_idx@.len(), a.pattern.ncols as nat);
    if c != q {
        assert(u[m].remove(q).dom().contains(c) <==> u[m].dom().contains(c));
        if m < k {
            if r(c) is Some {
                let y = r(c)->0;
                assert(tau.at_most(y.magnitude()));
                assert(cand(c) == r(c));
                lemma_all_kept(cand, u[m].remove(q), p, n, c);
            } else if u[m].remove(q).dom().contains(c) {
                assert(cand(c) == Some(u[m].remove(q)[c]));
            }
        }
        if u[m].remove(q).dom().contains(c) {
            assert(cand(c) == Some(u[m].remove(q)[c]));
        }
    }
}

/// A label is open at row `m` exactly if its position is not below `m`.
pub proof fn lemma_open_iff(perm: Seq<usize>, inv: Seq<usize>, n: int, m: int, k: int)
    requires
        inverse_perms(perm, inv, n),
        0 <= m < n,
        0 <= k < n,
    ensures
        is_open(perm, m, perm[k] as int) <==> k >= m,
{
    assert(inv[perm[k] as int] == k);
    if k >= m {
        assert forall|x: int| 0 <= x < m implies #[trigger] perm[x] != perm[k] by {
            assert(inv[perm[x] as int] == x);
        }
    }
}

/// The pivot of row `k` has an inverse.
pub proof fn lemma_pivot_invertible<T: Scalar>(f: Ilutp<T>, a: CscRef<'_, T>, k: int)
    requires
        magnitude_detects::<T>(),
        f.wf(),
        f.n == a.pattern.ncols,
        f.factors(a),
        0 <= k < f.n,
    ensures
        f.u_rows()[k].dom().contains(f.perm@[k] as int),
        !vanishes(f.u_rows()[k][f.perm@[k] as int]),
{
    assert(row_done(a, f.params, f.perm@, f.u_rows(), f.l_rows(), k));
}

/// After a pivot has been eliminated nothing touches its label again.
pub proof fn lemma_settled<T: Scalar>(
    f: Ilutp<T>,
    a: CscRef<'_, T>,
    i: int,
    m: int,
    k: int,
)
    requires
        f.wf(),
        f.n == a.pattern.ncols,
        f.factors(a),
        0 <= m < k <= i < f.n,
    ensures
        acc(
            source_row(a, i),
            threshold(a, f.params, i),
            f.perm@,
            f.u_rows(),
            k,
            f.perm@[m] as int,
        ) == acc(
            source_row(a, i),
            threshold(a, f.params, i),
            f.perm@,
            f.u_rows(),
            m + 1,
            f.perm@[m] as int,
        ),
    decreases k,
{
    if m + 1 < k {
        lemma_settled(f, a, i, m, k - 1);
        let piv = f.perm@;
        let q = k - 1;
        let n = f.n as int;
        let c = piv[m] as int;
        assert(f.perm_inv@[piv[m] as int] == m && piv[m] < n);
        assert(f.perm_inv@[piv[q] as int] == q && piv[q] < n);
        assert(piv[m] != piv[q]);
        assert(row_done(a, f.params, piv, f.u_rows(), f.l_rows(), q));
        lemma_open_iff(piv, f.perm_inv@, n, q, m);
        let r = eliminated(a, f.params, piv, f.u_rows(), q);
        let cand = upper_candidates(r, threshold(a, f.params, q), piv, q, piv[q] as int);
        if f.u_rows()[q].dom().contains(c) {
            assert(f.u_rows()[q].remove(piv[q] as int).dom().contains(c));
            assert(cand(c) is Some);
        }
    }
}

/// What `L` holds in row `i` at position `m` before the diagonal: the
/// multiplier.
proof fn lemma_multiplier<T: Scalar>(f: Ilutp<T>, a: CscRef<'_, T>, i: int, m: int)
    requires
        f.wf(),
        f.n == a.pattern.ncols,
        f.factors(a),
        drops_nothing(f, a),
        0 <= m < i < f.n,
    ensures
        dense_entry(f.l_model(), i, m) == match acc(
            source_row(a, i),
            threshold(a, f.params, i),
            f.perm@,
            f.u_rows(),
            m,
            f.perm@[m] as int,
        ) {
            Some(x) => x.times(f.u_rows()[m][f.perm@[m] as int].reciprocal()),
            None => T::null(),
        },
{
    let n = f.n as int;
    let piv = f.perm@;
    let u = f.u_rows();
    let c = piv[m] as int;
    let src = source_row(a, i);
    let tau = threshold(a, f.params, i);
    lemma_settled(f, a, i, m, i);
    let r = eliminated(a, f.params, piv, u, i);
    assert(piv[m] < n && f.perm_inv@[piv[m] as int] == m);
    lemma_open_iff(piv, f.perm_inv@, n, i, m);
    assert(row_done(a, f.params, piv, u, f.l_rows(), i));
    let l = f.l_rows()[i];
    let cand = lower_candidates(r, piv, i);
    let p = budget(f.params, a.pattern.row_idx@.len(), a.pattern.ncols as nat);
    assert(cand(c) == r(c));
    assert(l.dom().contains(c) <==> f.l.has(i, m));
    match acc(src, tau, piv, u, m, c) {
        Some(x) => {
            let mult = x.times(u[m][c].reciprocal());
            assert(!mult.magnitude().below(tau));
            assert(acc(src, tau, piv, u, m + 1, c) == Some(mult));
            lemma_all_kept(cand, l, p, n, c);
            assert(cand(c) == Some(l[c]));
        },
        None => {
            if l.dom().contains(c) {
                assert(cand(c) == Some(l[c]));
            }
        },
    }
}

/// `L` holds one on its diagonal.
pub proof fn lemma_lower_diag<T: Scalar>(f: Ilutp<T>, i: int)
    requires
        f.wf(),
        0 <= i < f.n,
    ensures
        dense_entry(f.l_model(), i, i) == T::unit(),
{
    assert(f.l.start(i) < f.l.end(i) && f.l.row_idx@[f.l.start(i)] == i);
    assert(f.l.sorted_col(i));
    f.l.lemma_find_at(f.l.start(i), i);
    assert(f.l_values@[f.l.start(i)] == T::unit());
}

/// What has been subtracted from an open label, and what is left, make up the
/// source entry.
proof fn lemma_partial<T: Scalar>(
    f: Ilutp<T>,
    a: CscRef<'_, T>,
    i: int,
    k: int,
    s: int,
)
    requires
        exact_field::<T>(),
        a.wf(),
        a.pattern.nrows == a.pattern.ncols,
        f.wf(),
        f.n == a.pattern.ncols,
        f.factors(a),
        drops_nothing(f, a),
        0 <= i < f.n,
        0 <= k < f.n,
        0 <= s <= i,
        s <= k,
    ensures
        value_or_null(
            acc(
                source_row(a, i),
                threshold(a, f.params, i),
                f.perm@,
                f.u_rows(),
                s,
                f.perm@[k] as int,
            ),
        ).plus(product_entry(f.l_model(), f.u_model(), i, k, s)) == dense_entry(a@, i, f.perm@[k] as int),
    decreases s,
{
    let n = f.n as int;
    let piv = f.perm@;
    let u = f.u_rows();
    let c = piv[k] as int;
    let src = source_row(a, i);
    let tau = threshold(a, f.params, i);
    assert(piv[k] < n && f.perm_inv@[piv[k] as int] == k);
    if s <= 0 {
        lemma_null_is_neutral(dense_entry(a@, i, c));
    } else {
        let m = s - 1;
        lemma_partial(f, a, i, k, m);
        lemma_multiplier(f, a, i, m);
        lemma_upper_dense(f, a, m, k);
        assert(piv[m] < n && f.perm_inv@[piv[m] as int] == m);
        assert(piv[m] != piv[k]);
        let before = acc(src, tau, piv, u, m, c);
        let after = acc(src, tau, piv, u, s, c);
        let part = product_entry(f.l_model(), f.u_model(), i, k, m);
        let mult = dense_entry(f.l_model(), i, m);
        let term = mult.times(dense_entry(f.u_model(), m, k));
        match acc(src, tau, piv, u, m, piv[m] as int) {
            None => {
                lemma_times_commutes(mult, dense_entry(f.u_model(), m, k));
                lemma_null_absorbs(dense_entry(f.u_model(), m, k));
                lemma_null_is_neutral(part);
            },
            Some(x) => {
                assert(!mult.magnitude().below(tau));
                if u[m].dom().contains(c) {
                    let b = value_or_null(before);
                    let af = value_or_null(after);
                    assert(af == b.minus(term));
                    lemma_minus_undoes_plus(b, term);
                    lemma_plus_commutes(part, term);
                    lemma_plus_associates(af, term, part);
                } else {
                    lemma_null_absorbs(mult);
                    lemma_null_is_neutral(part);
                }
            },
        }
    }
}

/// The inner indices past both the row and the column add nothing.
proof fn lemma_tail<T: Scalar>(
    f: Ilutp<T>,
    a: CscRef<'_, T>,
    i: int,
    k: int,
    s: int,
    e: int,
)
    requires
        exact_field::<T>(),
        f.wf(),
        f.n == a.pattern.ncols,
        f.factors(a),
        drops_nothing(f, a),
        0 <= i < f.n,
        0 <= k < f.n,
        i < s || k < s,
        0 <= s <= e <= f.n,
    ensures
        product_entry(f.l_model(), f.u_model(), i, k, e) == product_entry(f.l_model(), f.u_model(), i, k, s),
    decreases e,
{
    if s < e {
        lemma_tail(f, a, i, k, s, e - 1);
        let m = e - 1;
        let x = dense_entry(f.l_model(), i, m);
        let y = dense_entry(f.u_model(), m, k);
        if i < s {
            if f.l.has(i, m) {
                f.l.lemma_find(i, m);
                lemma_lower_col(f.l, f.n as int, f.l.find(i, m), m);
            }
            assert(x == T::null());
            lemma_times_commutes(x, y);
            lemma_null_absorbs(y);
        } else {
            lemma_upper_dense(f, a, m, k);
            lemma_null_absorbs(x);
        }
        lemma_null_is_neutral(product_entry(f.l_model(), f.u_model(), i, k, m));
    }
}

/// A zero pivot tolerance disables pivoting: no column leaves its place.
pub proof fn law_zero_tolerance_keeps_columns<T: Scalar>(f: Ilutp<T>, a: CscRef<'_, T>)
    requires
        f.wf(),
        f.n == a.pattern.ncols,
        f.factors(a),
        !T::Tuning::null().below(f.params.pivot_tol),
    ensures
        !f.permuted,
        forall|k: int| 0 <= k < f.n ==> #[trigger] f.perm@[k] == k,
{
    assert forall|k: int| 0 <= k < f.n implies #[trigger] f.perm@[k] == k by {
        lemma_stays(f, a, k);
        assert(row_done(a, f.params, f.perm@, f.u_rows(), f.l_rows(), k));
    }
}

/// Without pivoting the permutation stays the identity.
proof fn lemma_stays<T: Scalar>(f: Ilutp<T>, a: CscRef<'_, T>, i: int)
    requires
        f.wf(),
        f.n == a.pattern.ncols,
        f.factors(a),
        !T::Tuning::null().below(f.params.pivot_tol),
        0 <= i <= f.n,
    ensures
        perm_before(f.perm@, f.n as int, i) == Seq::new(f.n as nat, |k: int| k as usize),
    decreases i,
{
    if i > 0 {
        lemma_stays(f, a, i - 1);
        assert(row_done(a, f.params, f.perm@, f.u_rows(), f.l_rows(), i - 1));
        let id = Seq::new(f.n as nat, |k: int| k as usize);
        assert(id[i - 1] == i - 1);
        assert(f.perm@[i - 1] == i - 1);
        assert(id.contains(f.perm@[i - 1]));
        let b = id.index_of(f.perm@[i - 1]);
        assert(b == i - 1);
        assert(perm_before(f.perm@, f.n as int, i) =~= id);
    }
}

/// In exact arithmetic a zero drop tolerance with a full fill budget drops
/// nothing.
pub proof fn law_zero_tolerance_drops_nothing<T: Scalar>(f: Ilutp<T>, a: CscRef<'_, T>)
    requires
        exact_magnitudes::<T>(),
        f.params.drop_tol == T::Tuning::null(),
        exact_tuning::<T>(),
        budget(f.params, a.pattern.row_idx@.len(), a.pattern.ncols as nat) >= a.pattern.ncols,
    ensures
        drops_nothing(f, a),
{
}

/// The matrix with its columns in the order of the permutation.
pub open spec fn column_permuted<T: Scalar>(
    a: spec_fn(int, int) -> T,
    perm: Seq<usize>,
) -> spec_fn(int, int) -> T {
    |i: int, k: int| a(i, perm[k] as int)
}

/// The factors multiply to `A P` and have usable diagonals.
proof fn lemma_factors_permuted<T: Scalar>(f: Ilutp<T>, a: CscRef<'_, T>)
    requires
        exact_field::<T>(),
        magnitude_detects::<T>(),
        a.wf(),
        a.pattern.nrows == a.pattern.ncols,
        f.wf(),
        f.n == a.pattern.ncols,
        f.factors(a),
        drops_nothing(f, a),
    ensures
        lu_is(f.l_model(), f.u_model(), column_permuted(dense(a), f.perm@), f.n as int),
        lower_diag_ok(f.l_model(), true, f.n as int),
        upper_diag_ok(f.u_model(), f.n as int),
{
    let n = f.n as int;
    let ap = column_permuted(dense(a), f.perm@);
    assert forall|i: int, k: int| 0 <= i < n && 0 <= k < n implies #[trigger] product_entry(
        f.l_model(),
        f.u_model(),
        i,
        k,
        n,
    ) == ap(i, k) by {
        law_exact_without_dropping(f, a, i, k);
    }
    assert forall|j: int| 0 <= j < n implies !vanishes(
        f.u_model().values[#[trigger] f.u_model().pattern.end(j) - 1],
    ) by {
        lemma_pivot_invertible(f, a, j);
        lemma_upper_dense(f, a, j, j);
        assert(f.u.start(j) < f.u.end(j));
        lemma_upper_col(f.u, n, f.u.end(j) - 1, j);
        assert(f.u.sorted_col(j));
        f.u.lemma_find_at(f.u.end(j) - 1, j);
    }
}

/// In exact arithmetic, when nothing is dropped, `M^{-1}` inverts `A` from both
/// sides, whatever columns were exchanged.
pub proof fn law_inverts_without_dropping<T: Scalar>(f: Ilutp<T>, a: CscRef<'_, T>, x: Seq<T>)
    requires
        exact_field::<T>(),
        magnitude_detects::<T>(),
        a.wf(),
        a.pattern.nrows == a.pattern.ncols,
        f.wf(),
        f.n == a.pattern.ncols,
        f.factors(a),
        drops_nothing(f, a),
        x.len() == f.n,
    ensures
        f.action(Op::Apply, dense_times(dense(a), x)) == x,
        dense_times(dense(a), f.action(Op::Apply, x)) == x,
{
    let n = f.n as int;
    let l = f.l_model();
    let u = f.u_model();
    let ap = column_permuted(dense(a), f.perm@);
    let perm = |k: int| f.perm@[k] as int;
    let inv = |c: int| f.perm_inv@[c] as int;
    lemma_factors_permuted(f, a);
    assert forall|k: int| 0 <= k < n implies 0 <= #[trigger] perm(k) < n && inv(perm(k)) == k by {
        assert(f.perm@[k] < n && f.perm_inv@[f.perm@[k] as int] == k);
    }
    assert forall|c: int| 0 <= c < n implies 0 <= #[trigger] inv(c) < n && perm(inv(c)) == c by {
        assert(f.perm_inv@[c] < n && f.perm@[f.perm_inv@[c] as int] == c);
    }
    let xp = gathered(x, f.perm@);
    let b = dense_times(dense(a), x);
    assert forall|i: int| 0 <= i < n implies #[trigger] b[i] == dense_times(ap, xp)[i] by {
        let g = |c: int| dense(a)(i, c).times(x[c]);
        lemma_sum_permuted(g, perm, inv, n);
        lemma_sum_equal(|k: int| g(perm(k)), |k: int| ap(i, k).times(xp[k]), n);
    }
    assert(b =~= dense_times(ap, xp));
    law_lu_recovers(l, u, ap, xp);
    assert forall|c: int| 0 <= c < n implies gathered(xp, f.perm_inv@)[c] == #[trigger] x[c] by {
        assert(0 <= inv(c) < n && perm(inv(c)) == c);
    }
    assert(gathered(xp, f.perm_inv@) =~= x);
    let z = lu_action(l, u, Op::Apply, x);
    let y = gathered(z, f.perm_inv@);
    law_lu_solves(l, u, ap, x);
    lemma_solve_lengths(l, u, true, false, x);
    lemma_solve_lengths(l, u, true, false, lower_solve(l, true, false, x, n));
    assert(z.len() == n);
    assert forall|i: int| 0 <= i < n implies #[trigger] dense_times(dense(a), y)[i]
        == dense_times(ap, z)[i] by {
        let g = |c: int| dense(a)(i, c).times(y[c]);
        lemma_sum_permuted(g, perm, inv, n);
        let gp = |k: int| g(perm(k));
        let h = |k: int| ap(i, k).times(z[k]);
        assert forall|k: int| 0 <= k < n implies #[trigger] gp(k) == h(k) by {
            assert(0 <= perm(k) < n && inv(perm(k)) == k);
        }
        lemma_sum_equal(gp, h, n);
    }
    assert(dense_times(dense(a), y) =~= x);
}

/// In exact arithmetic, when nothing is dropped, `M^{-T}` inverts `A^T` and
/// `M^{-H}` inverts `A^H`, from both sides.
pub proof fn law_transpose_inverts_without_dropping<T: Scalar>(
    f: Ilutp<T>,
    a: CscRef<'_, T>,
    op: Op,
    x: Seq<T>,
)
    requires
        exact_field::<T>(),
        exact_conjugation::<T>(),
        magnitude_detects::<T>(),
        a.wf(),
        a.pattern.nrows == a.pattern.ncols,
        f.wf(),
        f.n == a.pattern.ncols,
        f.factors(a),
        drops_nothing(f, a),
        op.transposes(),
        x.len() == f.n,
    ensures
        f.action(op, dense_times(transposed(dense(a), op.conjugates()), x)) == x,
        dense_times(transposed(dense(a), op.conjugates()), f.action(op, x)) == x,
{
    let n = f.n as int;
    let l = f.l_model();
    let u = f.u_model();
    let conj = op.conjugates();
    let ap = column_permuted(dense(a), f.perm@);
    let at = transposed(dense(a), conj);
    let apt = transposed(ap, conj);
    lemma_factors_permuted(f, a);
    let b = dense_times(at, x);
    assert forall|k: int| 0 <= k < n implies #[trigger] gathered(b, f.perm@)[k] == dense_times(
        apt,
        x,
    )[k] by {
        assert(f.perm@[k] < n);
        lemma_sum_equal(
            |i: int| at(f.perm@[k] as int, i).times(x[i]),
            |i: int| apt(k, i).times(x[i]),
            n,
        );
    }
    assert(gathered(b, f.perm@) =~= dense_times(apt, x));
    law_lu_transpose_recovers(l, u, ap, op, x);
    let xp = gathered(x, f.perm@);
    let w = lu_action(l, u, op, xp);
    law_lu_transpose_solves(l, u, ap, op, xp);
    lemma_solve_lengths(l, u, true, conj, xp);
    lemma_solve_lengths(l, u, true, conj, upper_transpose_solve(u, conj, xp, n));
    assert(w.len() == n);
    assert forall|c: int| 0 <= c < n implies #[trigger] dense_times(at, w)[c] == x[c] by {
        let k = f.perm_inv@[c] as int;
        assert(f.perm_inv@[c] < n && f.perm@[k] == c);
        assert(dense_times(apt, w)[k] == xp[k]);
        lemma_sum_equal(
            |i: int| at(c, i).times(w[i]),
            |i: int| apt(k, i).times(w[i]),
            n,
        );
    }
    assert(dense_times(at, w) =~= x);
}

} // verus!
