//! What the threshold factorisation drops, and what it keeps.
use vstd::prelude::*;

use super::laws::{
    lemma_lower_diag, lemma_open_iff, lemma_pivot_invertible, lemma_settled, magnitude_detects,
};
use super::numeric::{
    budget, eliminated, lower_candidates, norm_sum, norm_term, row_done, row_norm, source_row,
    threshold, upper_candidates, value_or_null, Ilutp,
};
use super::row::acc;
use super::{IlutpParams, RowNorm};
use crate::lengths::{is_length, lemma_length_unique, lemma_squares_not_negative, squares};
use crate::lu::{dense_entry, lemma_lower_col, lemma_upper_col, product_entry};
use crate::reading::{
    reads_magnitudes, reads_reals, reads_roots, reads_squares, reads_tuning, real_sum,
};
use crate::scalar::{
    exact_field, lemma_minus_undoes_plus, lemma_null_absorbs, lemma_null_is_neutral,
    lemma_plus_associates, lemma_plus_cancels, lemma_plus_commutes, lemma_reciprocal_inverts,
    lemma_times_associates, lemma_times_commutes, lemma_unit_is_neutral, RealScalar, Scalar,
};
use crate::sparse::CscRef;

verus! {

/// The magnitudes of the entries in row `i` of `a`.
pub open spec fn row_magnitudes<T: Scalar>(
    v: spec_fn(T::Real) -> real,
    a: CscRef<'_, T>,
    i: int,
) -> spec_fn(int) -> real {
    |c: int| v(dense_entry(a@, i, c).magnitude())
}

/// The norm terms, column by column.
pub proof fn lemma_norm_sum<T: Scalar>(
    v: spec_fn(T::Real) -> real,
    a: CscRef<'_, T>,
    norm: RowNorm,
    i: int,
    c: int,
)
    requires
        reads_reals(v),
        reads_magnitudes::<T>(v),
        reads_squares::<T>(v),
        a.wf(),
        0 <= i < a.pattern.nrows,
        0 <= c <= a.pattern.ncols,
    ensures
        v(norm_sum(a, norm, i, c)) == match norm {
            RowNorm::One => real_sum(row_magnitudes(v, a, i), c),
            RowNorm::Two => real_sum(squares(row_magnitudes(v, a, i)), c),
        },
    decreases c,
{
    reveal(reads_reals);
    if c > 0 {
        lemma_norm_sum(v, a, norm, i, c - 1);
        let m = v(dense_entry(a@, i, c - 1).magnitude());
        reveal(reads_magnitudes);
        reveal(reads_squares);
        match source_row(a, i)(c - 1) {
            Some(x) => {
                assert(dense_entry(a@, i, c - 1) == x);
                assert(v(norm_sum(a, norm, i, c)) == v(norm_sum(a, norm, i, c - 1)) + v(
                    norm_term(norm, x),
                ));
            },
            None => {
                assert(dense_entry(a@, i, c - 1) == T::null());
                assert(m == 0real);
                assert(m * m == 0real) by (nonlinear_arith)
                    requires
                        m == 0real,
                ;
            },
        }
    }
}

/// The drop threshold of row `i` is `drop_tol` times the length of row `i` of the
/// matrix, in the norm chosen.
pub proof fn law_threshold_is_relative<T: Scalar>(
    v: spec_fn(T::Real) -> real,
    w: spec_fn(T::Tuning) -> real,
    a: CscRef<'_, T>,
    params: IlutpParams<T::Tuning>,
    i: int,
    len: real,
)
    requires
        reads_reals(v),
        reads_magnitudes::<T>(v),
        reads_squares::<T>(v),
        reads_roots(v),
        reads_tuning::<T>(v, w),
        a.wf(),
        0 <= i < a.pattern.nrows,
        is_row_length(v, params.norm, a, i, len),
    ensures
        v(threshold(a, params, i)) == w(params.drop_tol) * len,
{
    let n = a.pattern.ncols as int;
    let mags = row_magnitudes(v, a, i);
    lemma_norm_sum(v, a, params.norm, i, n);
    let s = norm_sum(a, params.norm, i, n);
    let x = v(row_norm(a, params.norm, i));
    if params.norm is Two {
        lemma_squares_not_negative(mags, n);
        reveal(reads_roots);
        assert(v(s.root()) * v(s.root()) == v(s));
    }
    lemma_length_unique(params.norm, mags, n, x, len);
    reveal(reads_reals);
    reveal(reads_tuning);
    assert(v(T::tuned(params.drop_tol).times(row_norm(a, params.norm, i))) == v(
        T::tuned(params.drop_tol),
    ) * x);
}

/// What `U` stores in row `m` at the column of position `k`.
pub proof fn lemma_upper_stored<T: Scalar>(f: Ilutp<T>, a: CscRef<'_, T>, m: int, k: int)
    requires
        f.wf(),
        f.n == a.pattern.ncols,
        f.factors(a),
        0 <= m < f.n,
        0 <= k < f.n,
    ensures
        ({
            let c = f.perm@[k] as int;
            let r = eliminated(a, f.params, f.perm@, f.u_rows(), m);
            let u = f.u_rows()[m];
            &&& 0 <= c < f.n
            &&& f.perm_inv@[c] == k
            &&& u.dom().contains(c) == f.u.has(m, k)
            &&& f.u.has(m, k) ==> m <= k && dense_entry(f.u_model(), m, k) == u[c]
                && dense_entry(f.u_model(), m, k) == value_or_null(r(c))
            &&& !f.u.has(m, k) ==> dense_entry(f.u_model(), m, k) == T::null()
            &&& m == k ==> f.u.has(m, k)
            &&& f.u.has(m, k) && m != k ==> r(c) is Some && threshold(a, f.params, m).at_most(
                dense_entry(f.u_model(), m, k).magnitude(),
            )
        }),
{
    let n = f.n as int;
    let piv = f.perm@;
    let u = f.u_rows();
    let c = piv[k] as int;
    let q = piv[m] as int;
    let tau = threshold(a, f.params, m);
    let r = eliminated(a, f.params, piv, u, m);
    assert(piv[k] < n && f.perm_inv@[piv[k] as int] == k);
    assert(piv[m] < n && f.perm_inv@[piv[m] as int] == m);
    assert(u[m].dom().contains(c) <==> f.u.has(m, f.perm_inv@[c] as int));
    assert(row_done(a, f.params, piv, u, f.l_rows(), m));
    lemma_open_iff(piv, f.perm_inv@, n, m, k);
    let cand = upper_candidates(r, tau, piv, m, q);
    if m != k {
        assert(c != q);
        assert(u[m].remove(q).dom().contains(c) <==> u[m].dom().contains(c));
        if u[m].remove(q).dom().contains(c) {
            assert(cand(c) == Some(u[m].remove(q)[c]));
        }
    }
}

/// What `L` stores in row `i` at position `m` before the diagonal: a multiplier
/// that is not below the threshold.
proof fn lemma_lower_stored<T: Scalar>(f: Ilutp<T>, a: CscRef<'_, T>, i: int, m: int)
    requires
        f.wf(),
        f.n == a.pattern.ncols,
        f.factors(a),
        0 <= m < i < f.n,
    ensures
        ({
            let c = f.perm@[m] as int;
            let tau = threshold(a, f.params, i);
            let x = acc(source_row(a, i), tau, f.perm@, f.u_rows(), m, c);
            let mult = x->0.times(f.u_rows()[m][c].reciprocal());
            &&& 0 <= c < f.n
            &&& f.l_rows()[i].dom().contains(c) == f.l.has(i, m)
            &&& f.l.has(i, m) ==> x is Some && !mult.magnitude().below(tau) && dense_entry(
                f.l_model(),
                i,
                m,
            ) == mult
            &&& !f.l.has(i, m) ==> dense_entry(f.l_model(), i, m) == T::null()
            &&& lower_candidates(eliminated(a, f.params, f.perm@, f.u_rows(), i), f.perm@, i)(c)
                is Some <==> x is Some && !mult.magnitude().below(tau)
        }),
{
    let n = f.n as int;
    let piv = f.perm@;
    let u = f.u_rows();
    let c = piv[m] as int;
    let src = source_row(a, i);
    let tau = threshold(a, f.params, i);
    lemma_settled(f, a, i, m, i);
    let r = eliminated(a, f.params, piv, u, i);
    assert(piv[m] < n && f.perm_inv@[piv[m] as int] == m);
    lemma_open_iff(piv, f.perm_inv@, n, i, m);
    assert(row_done(a, f.params, piv, u, f.l_rows(), i));
    let l = f.l_rows()[i];
    let cand = lower_candidates(r, piv, i);
    assert(cand(c) == r(c));
    assert(r(c) == acc(src, tau, piv, u, m + 1, c));
    assert(l.dom().contains(c) <==> f.l.has(i, m));
    if l.dom().contains(c) {
        assert(cand(c) == Some(l[c]));
    }
}

/// Nothing smaller than `drop_tol` times the length of its row of the matrix is
/// stored, beside the pivots and the unit diagonal of `L`.
pub proof fn law_kept_entries_are_large<T: Scalar>(
    v: spec_fn(T::Real) -> real,
    w: spec_fn(T::Tuning) -> real,
    f: Ilutp<T>,
    a: CscRef<'_, T>,
    i: int,
    k: int,
    len: real,
)
    requires
        reads_reals(v),
        reads_magnitudes::<T>(v),
        reads_squares::<T>(v),
        reads_roots(v),
        reads_tuning::<T>(v, w),
        a.wf(),
        a.pattern.nrows == a.pattern.ncols,
        f.wf(),
        f.n == a.pattern.ncols,
        f.factors(a),
        0 <= i < f.n,
        0 <= k < f.n,
        i != k,
        is_row_length(v, f.params.norm, a, i, len),
    ensures
        f.u.has(i, k) ==> w(f.params.drop_tol) * len <= v(
            dense_entry(f.u_model(), i, k).magnitude(),
        ),
        f.l.has(i, k) ==> w(f.params.drop_tol) * len <= v(
            dense_entry(f.l_model(), i, k).magnitude(),
        ),
{
    law_threshold_is_relative(v, w, a, f.params, i, len);
    lemma_upper_stored(f, a, i, k);
    reveal(reads_reals);
    if f.l.has(i, k) {
        f.l.lemma_find(i, k);
        lemma_lower_col(f.l, f.n as int, f.l.find(i, k), k);
        lemma_lower_stored(f, a, i, k);
    }
}

/// The entries that `L` may hold in row `i` all fit.
pub open spec fn has_room<T: Scalar>(f: Ilutp<T>, a: CscRef<'_, T>, i: int) -> bool {
    f.l_rows()[i].dom().len() < budget(
        f.params,
        a.pattern.row_idx@.len(),
        a.pattern.ncols as nat,
    )
}

/// Where `L` has room in row `i`, it holds every multiplier that is not below the
/// threshold.
proof fn lemma_multiplier_kept<T: Scalar>(f: Ilutp<T>, a: CscRef<'_, T>, i: int, m: int)
    requires
        f.wf(),
        f.n == a.pattern.ncols,
        f.factors(a),
        has_room(f, a, i),
        0 <= m < i < f.n,
    ensures
        ({
            let c = f.perm@[m] as int;
            let tau = threshold(a, f.params, i);
            let x = acc(source_row(a, i), tau, f.perm@, f.u_rows(), m, c);
            let mult = x->0.times(f.u_rows()[m][c].reciprocal());
            f.l.has(i, m) <==> x is Some && !mult.magnitude().below(tau)
        }),
{
    lemma_lower_stored(f, a, i, m);
    assert(row_done(a, f.params, f.perm@, f.u_rows(), f.l_rows(), i));
    let cand = lower_candidates(
        eliminated(a, f.params, f.perm@, f.u_rows(), i),
        f.perm@,
        i,
    );
    let c = f.perm@[m] as int;
    if cand(c) is Some && !f.l_rows()[i].dom().contains(c) {
        assert(f.l_rows()[i].dom().len() == budget(
            f.params,
            a.pattern.row_idx@.len(),
            a.pattern.ncols as nat,
        ));
    }
}

/// What has been subtracted from an open label, and what is left, make up the
/// source entry.
proof fn lemma_remainder<T: Scalar>(f: Ilutp<T>, a: CscRef<'_, T>, i: int, k: int, s: int)
    requires
        exact_field::<T>(),
        a.wf(),
        a.pattern.nrows == a.pattern.ncols,
        f.wf(),
        f.n == a.pattern.ncols,
        f.factors(a),
        has_room(f, a, i),
        0 <= i < f.n,
        0 <= k < f.n,
        0 <= s <= i,
        s <= k,
    ensures
        value_or_null(
            acc(
                source_row(a, i),
                threshold(a, f.params, i),
                f.perm@,
                f.u_rows(),
                s,
                f.perm@[k] as int,
            ),
        ).plus(product_entry(f.l_model(), f.u_model(), i, k, s)) == dense_entry(
            a@,
            i,
            f.perm@[k] as int,
        ),
    decreases s,
{
    let n = f.n as int;
    let piv = f.perm@;
    let u = f.u_rows();
    let c = piv[k] as int;
    let src = source_row(a, i);
    let tau = threshold(a, f.params, i);
    assert(piv[k] < n && f.perm_inv@[piv[k] as int] == k);
    if s <= 0 {
        lemma_null_is_neutral(dense_entry(a@, i, c));
    } else {
        let m = s - 1;
        lemma_remainder(f, a, i, k, m);
        lemma_lower_stored(f, a, i, m);
        lemma_multiplier_kept(f, a, i, m);
        lemma_upper_stored(f, a, m, k);
        assert(piv[m] < n && f.perm_inv@[piv[m] as int] == m);
        assert(piv[m] != piv[k]);
        let before = acc(src, tau, piv, u, m, c);
        let after = acc(src, tau, piv, u, s, c);
        let part = product_entry(f.l_model(), f.u_model(), i, k, m);
        let mult = dense_entry(f.l_model(), i, m);
        let term = mult.times(dense_entry(f.u_model(), m, k));
        if !f.l.has(i, m) {
            assert(after == before);
            lemma_times_commutes(mult, dense_entry(f.u_model(), m, k));
            lemma_null_absorbs(dense_entry(f.u_model(), m, k));
            lemma_null_is_neutral(part);
        } else if u[m].dom().contains(c) {
            let b = value_or_null(before);
            let af = value_or_null(after);
            assert(af == b.minus(term));
            lemma_minus_undoes_plus(b, term);
            lemma_plus_commutes(part, term);
            lemma_plus_associates(af, term, part);
        } else {
            lemma_null_absorbs(mult);
            lemma_null_is_neutral(part);
        }
    }
}

/// The inner indices past both the row and the column add nothing.
proof fn lemma_past<T: Scalar>(f: Ilutp<T>, i: int, k: int, s: int, e: int)
    requires
        exact_field::<T>(),
        f.wf(),
        0 <= i < f.n,
        0 <= k < f.n,
        i < s || k < s,
        0 <= s <= e <= f.n,
    ensures
        product_entry(f.l_model(), f.u_model(), i, k, e) == product_entry(
            f.l_model(),
            f.u_model(),
            i,
            k,
            s,
        ),
    decreases e,
{
    if s < e {
        lemma_past(f, i, k, s, e - 1);
        let m = e - 1;
        let x = dense_entry(f.l_model(), i, m);
        let y = dense_entry(f.u_model(), m, k);
        if i < s {
            if f.l.has(i, m) {
                f.l.lemma_find(i, m);
                lemma_lower_col(f.l, f.n as int, f.l.find(i, m), m);
            }
            assert(x == T::null());
            lemma_times_commutes(x, y);
            lemma_null_absorbs(y);
        } else {
            if f.u.has(m, k) {
                f.u.lemma_find(m, k);
                lemma_upper_col(f.u, f.n as int, f.u.find(m, k), k);
            }
            assert(y == T::null());
            lemma_null_absorbs(x);
        }
        lemma_null_is_neutral(product_entry(f.l_model(), f.u_model(), i, k, m));
    }
}

/// What the factors miss of the matrix at row `i` and position `k`: `A P - L U`.
pub open spec fn missed<T: Scalar>(f: Ilutp<T>, a: CscRef<'_, T>, i: int, k: int) -> T {
    dense_entry(a@, i, f.perm@[k] as int).minus(
        product_entry(f.l_model(), f.u_model(), i, k, f.n as int),
    )
}

/// `e` is what the product misses, where the two make up the source entry.
proof fn lemma_missed<T: Scalar>(f: Ilutp<T>, a: CscRef<'_, T>, i: int, k: int, e: T)
    requires
        exact_field::<T>(),
        product_entry(f.l_model(), f.u_model(), i, k, f.n as int).plus(e) == dense_entry(
            a@,
            i,
            f.perm@[k] as int,
        ),
    ensures
        missed(f, a, i, k) == e,
{
    let p = product_entry(f.l_model(), f.u_model(), i, k, f.n as int);
    let x = dense_entry(a@, i, f.perm@[k] as int);
    lemma_minus_undoes_plus(x, p);
    lemma_plus_commutes(p, e);
    lemma_plus_cancels(x.minus(p), e, p);
}

/// Row `i` of `U` is full, and holds nothing beside its pivot that is smaller than
/// `m`.
pub open spec fn outranked<T: Scalar>(
    v: spec_fn(T::Real) -> real,
    f: Ilutp<T>,
    a: CscRef<'_, T>,
    i: int,
    m: real,
) -> bool {
    &&& f.u_rows()[i].dom().len() == 1 + budget(
        f.params,
        a.pattern.row_idx@.len(),
        a.pattern.ncols as nat,
    )
    &&& forall|j: int|
        0 <= j < f.n && j != i && #[trigger] f.u.has(i, j) ==> m <= v(
            dense_entry(f.u_model(), i, j).magnitude(),
        )
}

/// `len` is the length of row `i` of `a`.
pub open spec fn is_row_length<T: Scalar>(
    v: spec_fn(T::Real) -> real,
    norm: RowNorm,
    a: CscRef<'_, T>,
    i: int,
    len: real,
) -> bool {
    is_length(norm, row_magnitudes(v, a, i), a.pattern.ncols as int, len)
}

/// The upper part of row `i` misses nothing where it stores, and elsewhere what the
/// elimination left.
pub proof fn lemma_upper_left<T: Scalar>(f: Ilutp<T>, a: CscRef<'_, T>, i: int, k: int)
    requires
        exact_field::<T>(),
        a.wf(),
        a.pattern.nrows == a.pattern.ncols,
        f.wf(),
        f.n == a.pattern.ncols,
        f.factors(a),
        has_room(f, a, i),
        0 <= i <= k < f.n,
    ensures
        missed(f, a, i, k) == if f.u.has(i, k) {
            T::null()
        } else {
            value_or_null(eliminated(a, f.params, f.perm@, f.u_rows(), i)(f.perm@[k] as int))
        },
{
    let n = f.n as int;
    let c = f.perm@[k] as int;
    let r = eliminated(a, f.params, f.perm@, f.u_rows(), i);
    let w = value_or_null(r(c));
    let part = product_entry(f.l_model(), f.u_model(), i, k, i);
    lemma_remainder(f, a, i, k, i);
    lemma_lower_diag(f, i);
    lemma_upper_stored(f, a, i, k);
    lemma_past(f, i, k, i + 1, n);
    let term = T::unit().times(dense_entry(f.u_model(), i, k));
    let all = product_entry(f.l_model(), f.u_model(), i, k, n);
    assert(all == part.plus(term));
    if f.u.has(i, k) {
        lemma_times_commutes(T::unit(), w);
        lemma_unit_is_neutral(w);
        assert(term == w);
        lemma_plus_commutes(part, w);
        lemma_null_is_neutral(all);
        lemma_missed(f, a, i, k, T::null());
    } else {
        lemma_null_absorbs(T::unit());
        lemma_null_is_neutral(part);
        assert(all == part);
        lemma_plus_commutes(part, w);
        lemma_missed(f, a, i, k, w);
    }
}

/// What the upper part of row `i` misses.
proof fn lemma_upper_missed<T: Scalar>(
    v: spec_fn(T::Real) -> real,
    f: Ilutp<T>,
    a: CscRef<'_, T>,
    i: int,
    k: int,
)
    requires
        exact_field::<T>(),
        reads_reals(v),
        a.wf(),
        a.pattern.nrows == a.pattern.ncols,
        f.wf(),
        f.n == a.pattern.ncols,
        f.factors(a),
        has_room(f, a, i),
        0 <= i <= k < f.n,
    ensures
        f.u.has(i, k) ==> missed(f, a, i, k) == T::null(),
        !f.u.has(i, k) ==> {
            let e = missed(f, a, i, k);
            ||| e == T::null()
            ||| v(e.magnitude()) < v(threshold(a, f.params, i))
            ||| outranked(v, f, a, i, v(e.magnitude()))
        },
{
    let n = f.n as int;
    let c = f.perm@[k] as int;
    let piv = f.perm@;
    let u = f.u_rows();
    let r = eliminated(a, f.params, piv, u, i);
    let w = value_or_null(r(c));
    lemma_upper_left(f, a, i, k);
    lemma_upper_stored(f, a, i, k);
    if !f.u.has(i, k) {
        let q = piv[i] as int;
        let tau = threshold(a, f.params, i);
        let cand = upper_candidates(r, tau, piv, i, q);
        let p = budget(f.params, a.pattern.row_idx@.len(), a.pattern.ncols as nat);
        lemma_open_iff(piv, f.perm_inv@, n, i, k);
        assert(row_done(a, f.params, piv, u, f.l_rows(), i));
        lemma_upper_stored(f, a, i, i);
        reveal(reads_reals);
        if r(c) is Some && !(v(w.magnitude()) < v(tau)) {
            let row = u[i].remove(q);
            assert(cand(c) == r(c));
            assert(!row.dom().contains(c));
            assert(row.dom().len() == p);
            assert(row.dom() =~= u[i].dom().remove(q));
            assert(u[i].dom() =~= row.dom().insert(q));
            assert forall|j: int|
                0 <= j < f.n && j != i && #[trigger] f.u.has(i, j) implies v(w.magnitude()) <= v(
                dense_entry(f.u_model(), i, j).magnitude(),
            ) by {
                lemma_upper_stored(f, a, i, j);
                let x = piv[j] as int;
                assert(x != q);
                assert(row.dom().contains(x));
                assert(!row[x].magnitude().below(w.magnitude()));
            }
        }
    }
}

/// What the lower part of row `i` misses.
proof fn lemma_lower_missed<T: Scalar>(
    v: spec_fn(T::Real) -> real,
    f: Ilutp<T>,
    a: CscRef<'_, T>,
    i: int,
    k: int,
)
    requires
        exact_field::<T>(),
        magnitude_detects::<T>(),
        reads_reals(v),
        reads_magnitudes::<T>(v),
        a.wf(),
        a.pattern.nrows == a.pattern.ncols,
        f.wf(),
        f.n == a.pattern.ncols,
        f.factors(a),
        has_room(f, a, i),
        0 <= k < i < f.n,
    ensures
        f.l.has(i, k) ==> missed(f, a, i, k) == T::null(),
        !f.l.has(i, k) ==> {
            let e = missed(f, a, i, k);
            ||| e == T::null()
            ||| v(e.magnitude()) < v(threshold(a, f.params, i)) * v(
                dense_entry(f.u_model(), k, k).magnitude(),
            )
        },
{
    let n = f.n as int;
    let c = f.perm@[k] as int;
    let piv = f.perm@;
    let u = f.u_rows();
    let tau = threshold(a, f.params, i);
    let x = acc(source_row(a, i), tau, piv, u, k, c);
    let w = value_or_null(x);
    let pv = u[k][c];
    let part = product_entry(f.l_model(), f.u_model(), i, k, k);
    lemma_remainder(f, a, i, k, k);
    lemma_lower_stored(f, a, i, k);
    lemma_multiplier_kept(f, a, i, k);
    lemma_upper_stored(f, a, k, k);
    lemma_pivot_invertible(f, a, k);
    lemma_past(f, i, k, k + 1, n);
    let m = dense_entry(f.l_model(), i, k);
    let d = dense_entry(f.u_model(), k, k);
    assert(d == pv);
    let term = m.times(d);
    let all = product_entry(f.l_model(), f.u_model(), i, k, n);
    assert(all == part.plus(term));
    let mult = w.times(pv.reciprocal());
    lemma_times_associates(w, pv.reciprocal(), pv);
    lemma_reciprocal_inverts(pv);
    lemma_unit_is_neutral(w);
    assert(mult.times(pv) == w);
    if f.l.has(i, k) {
        assert(term == w);
        lemma_plus_commutes(part, w);
        lemma_null_is_neutral(all);
        lemma_missed(f, a, i, k, T::null());
    } else {
        lemma_times_commutes(m, d);
        lemma_null_absorbs(d);
        lemma_null_is_neutral(part);
        assert(all == part);
        lemma_plus_commutes(part, w);
        lemma_missed(f, a, i, k, w);
        if x is Some {
            assert(mult.magnitude().below(tau));
            let b = v(d.magnitude());
            assert(v(mult.magnitude()) < v(tau) && 0real < b) by {
                reveal(reads_reals);
                assert(row_done(a, f.params, piv, u, f.l_rows(), k));
            }
            assert(v(w.magnitude()) == v(mult.magnitude()) * b) by {
                reveal(reads_magnitudes);
            }
            lemma_product_less(v(mult.magnitude()), v(tau), b);
        }
    }
}

proof fn lemma_product_less(x: real, y: real, b: real)
    by (nonlinear_arith)
    requires
        x < y,
        0real < b,
    ensures
        x * b < y * b,
{
}

/// In exact arithmetic, where row `i` of `L` has room, the factors reproduce
/// `A P` at every place that they store. What they miss elsewhere is zero, or
/// smaller than `drop_tol` times the length of the row of the matrix (times the
/// pivot of its column, below the diagonal), or gave way to entries at least as
/// large that fill the row of `U`.
pub proof fn law_dropped_entries_are_small<T: Scalar>(
    v: spec_fn(T::Real) -> real,
    w: spec_fn(T::Tuning) -> real,
    f: Ilutp<T>,
    a: CscRef<'_, T>,
    i: int,
    k: int,
    len: real,
)
    requires
        exact_field::<T>(),
        magnitude_detects::<T>(),
        reads_reals(v),
        reads_magnitudes::<T>(v),
        reads_squares::<T>(v),
        reads_roots(v),
        reads_tuning::<T>(v, w),
        a.wf(),
        a.pattern.nrows == a.pattern.ncols,
        f.wf(),
        f.n == a.pattern.ncols,
        f.factors(a),
        has_room(f, a, i),
        0 <= i < f.n,
        0 <= k < f.n,
        is_row_length(v, f.params.norm, a, i, len),
    ensures
        ({
            let e = missed(f, a, i, k);
            let m = v(e.magnitude());
            if i <= k {
                ||| e == T::null()
                ||| !f.u.has(i, k) && m < w(f.params.drop_tol) * len
                ||| !f.u.has(i, k) && outranked(v, f, a, i, m)
            } else {
                ||| e == T::null()
                ||| !f.l.has(i, k) && m < (w(f.params.drop_tol) * len) * v(
                    dense_entry(f.u_model(), k, k).magnitude(),
                )
            }
        }),
{
    law_threshold_is_relative(v, w, a, f.params, i, len);
    if i <= k {
        lemma_upper_missed(v, f, a, i, k);
    } else {
        lemma_lower_missed(v, f, a, i, k);
    }
}

/// The multiplier of pivot `m` in row `i`, where the row has an entry there.
pub open spec fn multiplier<T: Scalar>(f: Ilutp<T>, a: CscRef<'_, T>, i: int, m: int) -> Option<T> {
    let pl = f.perm@[m] as int;
    match acc(source_row(a, i), threshold(a, f.params, i), f.perm@, f.u_rows(), m, pl) {
        Some(x) => Some(x.times(f.u_rows()[m][pl].reciprocal())),
        None => None,
    }
}

/// A multiplier of row `i` that `L` does not store is smaller than `drop_tol`
/// times the length of the row of the matrix, or gave way to multipliers at least as
/// large that fill the row of `L`. One that is stored is stored as it is.
pub proof fn law_lower_keeps_largest<T: Scalar>(
    v: spec_fn(T::Real) -> real,
    w: spec_fn(T::Tuning) -> real,
    f: Ilutp<T>,
    a: CscRef<'_, T>,
    i: int,
    m: int,
    len: real,
)
    requires
        reads_reals(v),
        reads_magnitudes::<T>(v),
        reads_squares::<T>(v),
        reads_roots(v),
        reads_tuning::<T>(v, w),
        a.wf(),
        a.pattern.nrows == a.pattern.ncols,
        f.wf(),
        f.n == a.pattern.ncols,
        f.factors(a),
        0 <= m < i < f.n,
        is_row_length(v, f.params.norm, a, i, len),
    ensures
        match multiplier(f, a, i, m) {
            None => !f.l.has(i, m),
            Some(x) => if f.l.has(i, m) {
                dense_entry(f.l_model(), i, m) == x
            } else {
                ||| v(x.magnitude()) < w(f.params.drop_tol) * len
                ||| {
                    &&& !has_room(f, a, i)
                    &&& forall|k: int|
                        0 <= k < i && #[trigger] f.l.has(i, k) ==> v(x.magnitude()) <= v(
                            dense_entry(f.l_model(), i, k).magnitude(),
                        )
                }
            },
        },
{
    law_threshold_is_relative(v, w, a, f.params, i, len);
    lemma_lower_stored(f, a, i, m);
    let piv = f.perm@;
    let c = piv[m] as int;
    assert(row_done(a, f.params, piv, f.u_rows(), f.l_rows(), i));
    let r = eliminated(a, f.params, piv, f.u_rows(), i);
    let cand = lower_candidates(r, piv, i);
    let row = f.l_rows()[i];
    let p = budget(f.params, a.pattern.row_idx@.len(), a.pattern.ncols as nat);
    if let Some(x) = multiplier(f, a, i, m) {
        reveal(reads_reals);
        if !f.l.has(i, m) && !(v(x.magnitude()) < v(threshold(a, f.params, i))) {
            assert(cand(c) is Some);
            assert(!row.dom().contains(c));
            assert(row.dom().len() == p);
            lemma_settled(f, a, i, m, i);
            lemma_open_iff(piv, f.perm_inv@, f.n as int, i, m);
            assert(cand(c) == Some(x));
            assert forall|k: int| 0 <= k < i && #[trigger] f.l.has(i, k) implies v(x.magnitude())
                <= v(dense_entry(f.l_model(), i, k).magnitude()) by {
                lemma_lower_stored(f, a, i, k);
                let d = piv[k] as int;
                assert(f.perm_inv@[piv[k] as int] == k);
                assert(row.dom().contains(d));
                assert(cand(d) == Some(row[d]));
                assert(dense_entry(f.l_model(), i, k) == row[d]);
                assert(!row[d].magnitude().below(x.magnitude()));
            }
        }
    }
}

} // verus!
