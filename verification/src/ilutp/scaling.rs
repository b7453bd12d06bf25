//! Scaling the matrix scales `U`, where it changes no multiplier's fate.
use vstd::prelude::*;

use super::dropping::{lemma_norm_sum, multiplier, row_magnitudes};
use super::laws::lemma_lower_diag;
use super::numeric::{
    best_label, budget, eliminated, is_open, lemma_open_prefix, lemma_perm_before_prefix,
    lower_candidates, mag_or_null, named, norm_sum, perm_before, pivot_label, pivoting,
    placed_labels, ranked, row_done, row_list, row_norm, scanned, source_row, tails_of, threshold,
    upper_candidates, Ilutp,
};
use super::row::{acc, lemma_fresh_agree, scan};
use super::unique::lemma_kept_unique;
use super::IlutpParams;
use crate::lengths::{lemma_real_sum_equal, lemma_root_unique, lemma_squares_not_negative, squares};
use crate::lu::dense_entry;
use crate::poly::alternation::lemma_both_positive;
use crate::poly::chebyshev::lemma_product_positive;
use crate::poly::differences::{lemma_associates, lemma_commutes};
use crate::poly::laws::lemma_times_minus;
use crate::reading::{reads_magnitudes, reads_reals, reads_roots, reads_squares, real_sum};
use crate::scalar::{
    exact_field, lemma_null_absorbs, lemma_reciprocal_inverts, lemma_times_associates,
    lemma_times_commutes, lemma_unit_is_neutral, vanishes, RealScalar, Scalar,
};
use crate::scaling::{
    grown, grown_column, lemma_compares, lemma_ranked_alike, lemma_square_scaled, lemma_top_alike,
};
use crate::sparse::{stored, CscPattern, CscRef};
use crate::util::gershgorin::lemma_real_sum_times;
use crate::util::select::top;

verus! {

/// `b` is `a` with every entry multiplied by `e`.
pub open spec fn is_multiple<T: Scalar>(e: T, a: CscRef<'_, T>, b: CscRef<'_, T>) -> bool {
    &&& b.pattern.same_as(*a.pattern)
    &&& a.values@.len() == b.values@.len()
    &&& forall|p: int|
        0 <= p < a.values@.len() ==> #[trigger] b.values@[p] == e.times(a.values@[p])
}

/// Every multiplier is below the threshold of its row exactly if it is below `s`
/// times that threshold.
pub open spec fn clear_of_scale<T: Scalar>(
    v: spec_fn(T::Real) -> real,
    s: real,
    f: Ilutp<T>,
    a: CscRef<'_, T>,
) -> bool {
    forall|i: int, m: int|
        0 <= m < i < f.n ==> (#[trigger] multiplier(f, a, i, m) matches Some(x) ==> (v(
            x.magnitude(),
        ) < v(threshold(a, f.params, i)) <==> v(x.magnitude()) < s * v(
            threshold(a, f.params, i),
        )))
}

/// The same pattern stores the same entries, and a multiple of them.
proof fn lemma_multiple_entry<T: Scalar>(e: T, a: CscRef<'_, T>, b: CscRef<'_, T>, i: int, c: int)
    requires
        exact_field::<T>(),
        a.wf(),
        b.wf(),
        a.pattern.distinct(),
        is_multiple(e, a, b),
        0 <= c < a.pattern.ncols,
    ensures
        stored(*a.pattern)(i, c) == stored(*b.pattern)(i, c),
        a.pattern.has(i, c) == b.pattern.has(i, c),
        dense_entry(b@, i, c) == e.times(dense_entry(a@, i, c)),
        a.pattern.has(i, c) ==> b.entry(i, c) == e.times(a.entry(i, c)),
{
    let p = *a.pattern;
    let q = *b.pattern;
    assert forall|z: int| p.in_col(z, c) == #[trigger] q.in_col(z, c) by {}
    if p.has(i, c) {
        let z = choose|z: int| #[trigger] p.in_col(z, c) && p.row_idx@[z] == i;
        assert(q.in_col(z, c));
    }
    if q.has(i, c) {
        let z = choose|z: int| #[trigger] q.in_col(z, c) && q.row_idx@[z] == i;
        assert(p.in_col(z, c));
    }
    lemma_null_absorbs(e);
    if p.has(i, c) {
        lemma_find_alike(p, q, i, c);
        p.lemma_find(i, c);
        p.lemma_col_bounds(c);
        assert(b.values@[p.find(i, c)] == e.times(a.values@[p.find(i, c)]));
    }
}

/// The same pattern has an entry in the same place.
proof fn lemma_find_alike(p: CscPattern, q: CscPattern, i: int, c: int)
    requires
        q.same_as(p),
        p.wf(),
        p.distinct(),
        0 <= c < p.ncols,
        p.has(i, c),
        q.has(i, c),
    ensures
        p.find(i, c) == q.find(i, c),
{
    p.lemma_find(i, c);
    let x = p.find(i, c);
    let y = q.find(i, c);
    assert(q.in_col(y, c) && q.row_idx@[y] == i);
    assert(p.in_col(y, c) && p.row_idx@[y] == i);
    assert(x == y);
}

/// The drop threshold of a row scales with the matrix.
proof fn lemma_multiple_threshold<T: Scalar>(
    v: spec_fn(T::Real) -> real,
    e: T,
    a: CscRef<'_, T>,
    b: CscRef<'_, T>,
    params: IlutpParams<T::Tuning>,
    i: int,
)
    requires
        exact_field::<T>(),
        reads_reals(v),
        reads_magnitudes::<T>(v),
        reads_squares::<T>(v),
        reads_roots(v),
        a.wf(),
        b.wf(),
        a.pattern.distinct(),
        is_multiple(e, a, b),
        0 <= i < a.pattern.nrows,
    ensures
        v(threshold(b, params, i)) == v(e.magnitude()) * v(threshold(a, params, i)),
{
    let n = a.pattern.ncols as int;
    let c = v(e.magnitude());
    let norm = params.norm;
    let m1 = row_magnitudes(v, a, i);
    let m2 = row_magnitudes(v, b, i);
    lemma_norm_sum(v, a, norm, i, n);
    lemma_norm_sum(v, b, norm, i, n);
    assert forall|k: int| 0 <= k < n implies #[trigger] m2(k) == c * m1(k) by {
        lemma_multiple_entry(e, a, b, i, k);
        reveal(reads_magnitudes);
    }
    if norm is One {
        let h = |k: int| m1(k) * c;
        assert forall|k: int| 0 <= k < n implies #[trigger] m2(k) == h(k) by {
            lemma_commutes(c, m1(k));
        }
        lemma_real_sum_equal(m2, h, n);
        lemma_real_sum_times(m1, c, n);
        lemma_commutes(c, real_sum(m1, n));
    } else {
        let q1 = squares(m1);
        let h = |k: int| q1(k) * (c * c);
        assert forall|k: int| 0 <= k < n implies #[trigger] squares(m2)(k) == h(k) by {
            assert(m2(k) == c * m1(k));
            lemma_square_scaled(c, m1(k));
        }
        lemma_real_sum_equal(squares(m2), h, n);
        lemma_real_sum_times(q1, c * c, n);
        lemma_squares_not_negative(m1, n);
        lemma_squares_not_negative(m2, n);
        let s1 = norm_sum(a, norm, i, n);
        let s2 = norm_sum(b, norm, i, n);
        reveal(reads_roots);
        let r1 = v(s1.root());
        let r2 = v(s2.root());
        assert(r1 * r1 == v(s1) && 0real <= r1);
        assert(r2 * r2 == v(s2) && 0real <= r2);
        lemma_square_scaled(c, r1);
        reveal(reads_magnitudes);
        lemma_product_positive(c, r1);
        lemma_root_unique(r2, c * r1);
    }
    let n1 = row_norm(a, norm, i);
    let n2 = row_norm(b, norm, i);
    assert(v(n2) == c * v(n1));
    let tol = T::tuned(params.drop_tol);
    reveal(reads_reals);
    assert(v(tol.times(n2)) == v(tol) * (c * v(n1)));
    lemma_associates(v(tol), c, v(n1));
    lemma_commutes(v(tol), c);
    lemma_associates(c, v(tol), v(n1));
}

/// A quotient does not change when both its parts are scaled.
proof fn lemma_quotient_stays<T: Scalar>(e: T, x: T, p: T)
    requires
        exact_field::<T>(),
        !vanishes(p),
        !vanishes(e.times(p)),
    ensures
        e.times(x).times(e.times(p).reciprocal()) == x.times(p.reciprocal()),
{
    let y = x.times(p.reciprocal());
    let q = e.times(p);
    lemma_times_associates(x, p.reciprocal(), p);
    lemma_reciprocal_inverts(p);
    lemma_unit_is_neutral(x);
    assert(y.times(p) == x);
    // y q = y (e p) = e (y p) = e x
    lemma_times_associates(y, e, p);
    lemma_times_commutes(y, e);
    lemma_times_associates(e, y, p);
    assert(y.times(q) == e.times(x));
    lemma_times_associates(y, q, q.reciprocal());
    lemma_times_commutes(q, q.reciprocal());
    lemma_reciprocal_inverts(q);
    lemma_unit_is_neutral(y);
}

/// `x` is an entry of a row of `A` under elimination, `y` the same entry in the
/// scaled matrix: at an open label it is scaled, at the label of a pivot it is the
/// multiplier, which is not.
pub open spec fn follows<T: Scalar>(
    e: T,
    piv: Seq<usize>,
    k: int,
    c: int,
    x: Option<T>,
    y: Option<T>,
) -> bool {
    if is_open(piv, k, c) {
        grown(e, x, y)
    } else {
        x == y
    }
}

/// The rows of the scaled matrix up to `i` are those of the matrix, `U` scaled.
pub open spec fn rows_follow<T: Scalar>(
    e: T,
    piv1: Seq<usize>,
    u1: Seq<Map<int, T>>,
    l1: Seq<Map<int, T>>,
    piv2: Seq<usize>,
    u2: Seq<Map<int, T>>,
    l2: Seq<Map<int, T>>,
    i: int,
) -> bool {
    &&& forall|m: int| 0 <= m < i ==> #[trigger] piv1[m] == piv2[m]
    &&& forall|m: int| 0 <= m < i ==> grown_column(e, #[trigger] u1[m], u2[m])
    &&& forall|m: int| 0 <= m < i ==> #[trigger] l1[m] == l2[m]
}

/// Row `m` of `U` has its pivot, and no label of an earlier one.
spec fn row_shaped<T: Scalar>(piv: Seq<usize>, u: Seq<Map<int, T>>, m: int) -> bool {
    let q = piv[m] as int;
    &&& u[m].dom().contains(q)
    &&& !vanishes(u[m][q])
    &&& forall|c: int| #[trigger] u[m].dom().contains(c) ==> is_open(piv, m, c)
}

proof fn lemma_row_shaped<T: Scalar>(
    v: spec_fn(T::Real) -> real,
    f: Ilutp<T>,
    a: CscRef<'_, T>,
    m: int,
)
    requires
        reads_reals(v),
        f.wf(),
        f.n == a.pattern.ncols,
        f.factors(a),
        0 <= m < f.n,
    ensures
        row_shaped(f.perm@, f.u_rows(), m),
{
    let piv = f.perm@;
    let u = f.u_rows();
    let q = piv[m] as int;
    assert(row_done(a, f.params, piv, u, f.l_rows(), m));
    let r = eliminated(a, f.params, piv, u, m);
    let cand = upper_candidates(r, threshold(a, f.params, m), piv, m, q);
    reveal(reads_reals);
    assert forall|c: int| #[trigger] u[m].dom().contains(c) implies is_open(piv, m, c) by {
        if c != q {
            assert(u[m].remove(q).dom().contains(c));
            assert(cand(c) is Some);
        } else {
            lemma_pivots_distinct(f);
        }
    }
}

/// No two rows have the same pivot.
proof fn lemma_pivots_distinct<T: Scalar>(f: Ilutp<T>)
    requires
        f.wf(),
    ensures
        forall|x: int, y: int|
            0 <= x < f.n && 0 <= y < f.n && x != y ==> #[trigger] f.perm@[x] != #[trigger] f.perm@[y],
        forall|x: int| 0 <= x < f.n ==> (#[trigger] f.perm@[x]) < f.n,
        forall|x: int| 0 <= x < f.n ==> is_open(f.perm@, x, (#[trigger] f.perm@[x]) as int),
{
    assert forall|x: int, y: int| 0 <= x < f.n && 0 <= y < f.n && x != y implies #[trigger] f.perm@[x]
        != #[trigger] f.perm@[y] by {
        assert(f.perm_inv@[f.perm@[x] as int] == x);
        assert(f.perm_inv@[f.perm@[y] as int] == y);
    }
    assert forall|x: int| 0 <= x < f.n implies (#[trigger] f.perm@[x]) < f.n by {
        assert(f.perm_inv@[f.perm@[x] as int] == x);
    }
}

/// Eliminating the same pivots from a scaled row.
proof fn lemma_acc_follows<T: Scalar>(
    v: spec_fn(T::Real) -> real,
    e: T,
    f: Ilutp<T>,
    a: CscRef<'_, T>,
    b: CscRef<'_, T>,
    piv2: Seq<usize>,
    u2: Seq<Map<int, T>>,
    l2: Seq<Map<int, T>>,
    i: int,
    k: int,
    c: int,
)
    requires
        exact_field::<T>(),
        reads_reals(v),
        reads_magnitudes::<T>(v),
        reads_squares::<T>(v),
        reads_roots(v),
        0real < v(e.magnitude()),
        a.wf(),
        b.wf(),
        a.pattern.distinct(),
        a.pattern.nrows == a.pattern.ncols,
        is_multiple(e, a, b),
        f.wf(),
        f.n == a.pattern.ncols,
        f.factors(a),
        clear_of_scale(v, v(e.magnitude()), f, a),
        0 <= k <= i < f.n,
        rows_follow(e, f.perm@, f.u_rows(), f.l_rows(), piv2, u2, l2, i),
    ensures
        follows(
            e,
            f.perm@,
            k,
            c,
            acc(source_row(a, i), threshold(a, f.params, i), f.perm@, f.u_rows(), k, c),
            acc(source_row(b, i), threshold(b, f.params, i), piv2, u2, k, c),
        ),
    decreases k,
{
    let s1 = source_row(a, i);
    let s2 = source_row(b, i);
    let t1 = threshold(a, f.params, i);
    let t2 = threshold(b, f.params, i);
    let piv = f.perm@;
    let u = f.u_rows();
    if k <= 0 {
        if 0 <= c < a.pattern.ncols {
            lemma_multiple_entry(e, a, b, i, c);
        }
    } else {
        let m = k - 1;
        let pl = piv[m] as int;
        assert(piv[m] == piv2[m]);
        lemma_acc_follows(v, e, f, a, b, piv2, u2, l2, i, m, c);
        lemma_acc_follows(v, e, f, a, b, piv2, u2, l2, i, m, pl);
        lemma_row_shaped(v, f, a, m);
        lemma_pivots_distinct(f);
        assert(grown_column(e, u[m], u2[m]));
        assert(u[m].dom().contains(pl));
        let pv = u[m][pl];
        assert(u2[m][pl] == e.times(pv));
        assert(is_open(piv, k, c) <==> is_open(piv, m, c) && c != pl) by {
            if is_open(piv, k, c) {
                assert(piv[m] != c);
                assert forall|x: int| 0 <= x < m implies #[trigger] piv[x] != c by {}
            }
        }
        let before = acc(s1, t1, piv, u, m, c);
        match acc(s1, t1, piv, u, m, pl) {
            None => {},
            Some(x) => {
                assert(!vanishes(e.times(pv))) by {
                    reveal(reads_magnitudes);
                    reveal(reads_reals);
                    assert(v(pv.magnitude()) != 0real);
                    lemma_both_positive(v(e.magnitude()), v(pv.magnitude()));
                }
                lemma_quotient_stays(e, x, pv);
                let mult = x.times(pv.reciprocal());
                assert(multiplier(f, a, i, m) == Some(mult));
                lemma_multiple_threshold(v, e, a, b, f.params, i);
                assert(mult.magnitude().below(t1) <==> mult.magnitude().below(t2)) by {
                    reveal(reads_reals);
                }
                if !mult.magnitude().below(t1) && c != pl && u[m].dom().contains(c) {
                    assert(u2[m].dom().contains(c));
                    assert(is_open(piv, m, c));
                    let w = u[m][c];
                    lemma_times_associates(mult, e, w);
                    lemma_times_commutes(mult, e);
                    lemma_times_associates(e, mult, w);
                    assert(mult.times(e.times(w)) == e.times(mult.times(w)));
                    match before {
                        Some(y) => {
                            lemma_times_minus(e, y, mult.times(w));
                        },
                        None => {
                            lemma_null_absorbs(e);
                            lemma_times_minus(e, T::null(), mult.times(w));
                        },
                    }
                }
            },
        }
    }
}

/// The labels of a row depend on what it stores alone.
proof fn lemma_placed_alike<T>(
    x: Map<int, T>,
    y: Map<int, T>,
    order: Seq<usize>,
    m: int,
    pos: int,
)
    requires
        x.dom() == y.dom(),
    ensures
        placed_labels(x, order, m, pos) == placed_labels(y, order, m, pos),
    decreases pos,
{
    if !(pos <= m + 1 || pos <= 0) {
        lemma_placed_alike(x, y, order, m, pos - 1);
    }
}

/// The source rows list the same labels.
proof fn lemma_list_alike<T: Scalar>(e: T, a: CscRef<'_, T>, b: CscRef<'_, T>, i: int, c: int)
    requires
        exact_field::<T>(),
        a.wf(),
        b.wf(),
        a.pattern.distinct(),
        is_multiple(e, a, b),
        c <= a.pattern.ncols,
    ensures
        row_list(a, i, c) == row_list(b, i, c),
    decreases c,
{
    if c > 0 {
        lemma_list_alike(e, a, b, i, c - 1);
        lemma_multiple_entry(e, a, b, i, c - 1);
    }
}

/// The labels of a row of the scaled matrix are met in the same order.
proof fn lemma_scan_follows<T: Scalar>(
    v: spec_fn(T::Real) -> real,
    e: T,
    f: Ilutp<T>,
    a: CscRef<'_, T>,
    b: CscRef<'_, T>,
    piv2: Seq<usize>,
    u2: Seq<Map<int, T>>,
    l2: Seq<Map<int, T>>,
    first: Seq<usize>,
    tails: Seq<Seq<usize>>,
    tails2: Seq<Seq<usize>>,
    i: int,
    k: int,
)
    requires
        exact_field::<T>(),
        reads_reals(v),
        reads_magnitudes::<T>(v),
        reads_squares::<T>(v),
        reads_roots(v),
        0real < v(e.magnitude()),
        a.wf(),
        b.wf(),
        a.pattern.distinct(),
        a.pattern.nrows == a.pattern.ncols,
        is_multiple(e, a, b),
        f.wf(),
        f.n == a.pattern.ncols,
        f.factors(a),
        clear_of_scale(v, v(e.magnitude()), f, a),
        0 <= k <= i < f.n,
        rows_follow(e, f.perm@, f.u_rows(), f.l_rows(), piv2, u2, l2, i),
        forall|m: int| 0 <= m < i ==> #[trigger] tails[m] == tails2[m],
    ensures
        scan(
            source_row(a, i),
            first,
            threshold(a, f.params, i),
            f.perm@,
            f.u_rows(),
            tails,
            k,
        ) == scan(source_row(b, i), first, threshold(b, f.params, i), piv2, u2, tails2, k),
    decreases k,
{
    if k > 0 {
        let m = k - 1;
        lemma_scan_follows(v, e, f, a, b, piv2, u2, l2, first, tails, tails2, i, m);
        let s1 = source_row(a, i);
        let s2 = source_row(b, i);
        let t1 = threshold(a, f.params, i);
        let t2 = threshold(b, f.params, i);
        let piv = f.perm@;
        let u = f.u_rows();
        let pl = piv[m] as int;
        assert(piv[m] == piv2[m]);
        lemma_acc_follows(v, e, f, a, b, piv2, u2, l2, i, m, pl);
        lemma_row_shaped(v, f, a, m);
        lemma_pivots_distinct(f);
        assert(grown_column(e, u[m], u2[m]));
        assert(u[m].dom().contains(pl));
        let pv = u[m][pl];
        if let Some(x) = acc(s1, t1, piv, u, m, pl) {
            assert(!vanishes(e.times(pv))) by {
                reveal(reads_magnitudes);
                reveal(reads_reals);
                assert(v(pv.magnitude()) != 0real);
                lemma_both_positive(v(e.magnitude()), v(pv.magnitude()));
            }
            lemma_quotient_stays(e, x, pv);
            let mult = x.times(pv.reciprocal());
            assert(multiplier(f, a, i, m) == Some(mult));
            lemma_multiple_threshold(v, e, a, b, f.params, i);
            assert(mult.magnitude().below(t1) <==> mult.magnitude().below(t2)) by {
                reveal(reads_reals);
            }
            let r1 = |c: int| acc(s1, t1, piv, u, m, c);
            let r2 = |c: int| acc(s2, t2, piv2, u2, m, c);
            assert(tails[m] == tails2[m]);
            assert forall|t: int| 0 <= t < tails[m].len() implies (r1(
                (#[trigger] tails[m][t]) as int,
            ) is None <==> r2(tails[m][t] as int) is None) by {
                lemma_acc_follows(v, e, f, a, b, piv2, u2, l2, i, m, tails[m][t] as int);
            }
            lemma_fresh_agree(r1, r2, tails[m]);
        }
    }
}

/// The permutation before row `i` starts with the pivots before it, and holds every
/// label once.
proof fn lemma_before_shape<T: Scalar>(f: Ilutp<T>, i: int)
    requires
        f.wf(),
        0 <= i <= f.n,
    ensures
        ({
            let p = perm_before(f.perm@, f.n as int, i);
            &&& p.len() == f.n
            &&& p.no_duplicates()
            &&& forall|x: int| 0 <= x < f.n ==> (#[trigger] p[x]) < f.n
            &&& forall|c: usize| c < f.n ==> #[trigger] p.contains(c)
            &&& forall|m: int| 0 <= m < i ==> #[trigger] p[m] == f.perm@[m]
        }),
    decreases i,
{
    let n = f.n as int;
    let now = perm_before(f.perm@, n, i);
    lemma_pivots_distinct(f);
    if i <= 0 {
        assert forall|c: usize| c < f.n implies #[trigger] now.contains(c) by {
            assert(now[c as int] == c);
        }
    } else {
        lemma_before_shape(f, i - 1);
        let p = perm_before(f.perm@, n, i - 1);
        let q = f.perm@[i - 1];
        assert(p.contains(q));
        let b = p.index_of(q);
        assert(b >= i - 1) by {
            if b < i - 1 {
                assert(p[b] == f.perm@[b]);
            }
        }
        assert forall|c: usize| c < f.n implies #[trigger] now.contains(c) by {
            assert(p.contains(c));
            let x = p.index_of(c);
            if x == i - 1 {
                assert(now[b] == c);
            } else if x == b {
                assert(now[i - 1] == c);
            } else {
                assert(now[x] == c);
            }
        }
        assert forall|m: int| 0 <= m < i implies #[trigger] now[m] == f.perm@[m] by {
            if m < i - 1 {
                assert(p[m] == f.perm@[m]);
            }
        }
    }
}

/// The best label of a scaled row is the same.
proof fn lemma_best_follows<T: Scalar>(
    v: spec_fn(T::Real) -> real,
    e: T,
    r1: spec_fn(int) -> Option<T>,
    r2: spec_fn(int) -> Option<T>,
    order: Seq<usize>,
    piv1: Seq<usize>,
    piv2: Seq<usize>,
    n: int,
    i: int,
    d: int,
    t: int,
)
    requires
        reads_reals(v),
        reads_magnitudes::<T>(v),
        0real < v(e.magnitude()),
        is_open(piv1, i, d),
        forall|m: int| 0 <= m < i ==> #[trigger] piv1[m] == piv2[m],
        forall|c: int| is_open(piv1, i, c) ==> grown(e, #[trigger] r1(c), r2(c)),
    ensures
        best_label(r1, order, piv1, n, i, d, t) == best_label(r2, order, piv2, n, i, d, t),
        is_open(piv1, i, best_label(r1, order, piv1, n, i, d, t)),
    decreases t,
{
    if t > 0 {
        lemma_best_follows(v, e, r1, r2, order, piv1, piv2, n, i, d, t - 1);
        lemma_open_prefix(piv1, piv2, i);
        let b = best_label(r1, order, piv1, n, i, d, t - 1);
        let c = order[t - 1] as int;
        assert(is_open(piv1, i, c) == is_open(piv2, i, c));
        if is_open(piv1, i, c) {
            lemma_mag_follows(v, e, r1(b), r2(b));
            lemma_mag_follows(v, e, r1(c), r2(c));
            lemma_compares(v(e.magnitude()), v(mag_or_null(r1(b))), v(mag_or_null(r1(c))));
            reveal(reads_reals);
        }
    }
}

/// The magnitude of a scaled entry.
proof fn lemma_mag_follows<T: Scalar>(
    v: spec_fn(T::Real) -> real,
    e: T,
    x: Option<T>,
    y: Option<T>,
)
    requires
        reads_reals(v),
        reads_magnitudes::<T>(v),
        grown(e, x, y),
    ensures
        v(mag_or_null(y)) == v(e.magnitude()) * v(mag_or_null(x)),
{
    reveal(reads_reals);
    reveal(reads_magnitudes);
    assert(v(e.magnitude()) * 0real == 0real) by (nonlinear_arith);
}

/// Row `i` of the scaled matrix, after rows that follow.
#[verifier::rlimit(60)]
proof fn lemma_row_follows<T: Scalar>(
    v: spec_fn(T::Real) -> real,
    e: T,
    f: Ilutp<T>,
    a: CscRef<'_, T>,
    b: CscRef<'_, T>,
    piv2: Seq<usize>,
    u2: Seq<Map<int, T>>,
    l2: Seq<Map<int, T>>,
    i: int,
)
    requires
        exact_field::<T>(),
        reads_reals(v),
        reads_magnitudes::<T>(v),
        reads_squares::<T>(v),
        reads_roots(v),
        0real < v(e.magnitude()),
        a.wf(),
        b.wf(),
        a.pattern.distinct(),
        a.pattern.nrows == a.pattern.ncols,
        is_multiple(e, a, b),
        f.wf(),
        f.n == a.pattern.ncols,
        f.factors(a),
        clear_of_scale(v, v(e.magnitude()), f, a),
        0 <= i < f.n,
        u2.len() == f.n,
        rows_follow(e, f.perm@, f.u_rows(), f.l_rows(), piv2, u2, l2, i),
        row_done(b, f.params, piv2, u2, l2, i),
    ensures
        f.perm@[i] == piv2[i],
        grown_column(e, f.u_rows()[i], u2[i]),
        f.l_rows()[i] == l2[i],
{
    let n = f.n as int;
    let piv1 = f.perm@;
    let u1 = f.u_rows();
    let l1 = f.l_rows();
    let s = v(e.magnitude());
    assert(row_done(a, f.params, piv1, u1, l1, i));
    let r1 = eliminated(a, f.params, piv1, u1, i);
    let r2 = eliminated(b, f.params, piv2, u2, i);
    assert forall|c: int| follows(e, piv1, i, c, #[trigger] r1(c), r2(c)) by {
        lemma_acc_follows(v, e, f, a, b, piv2, u2, l2, i, i, c);
    }
    let t1 = tails_of(piv1, u1, n);
    let t2 = tails_of(piv2, u2, n);
    assert forall|m: int| 0 <= m < i implies #[trigger] t1[m] == t2[m] by {
        assert(grown_column(e, u1[m], u2[m]));
        lemma_perm_before_prefix(piv1, piv2, n, m + 1);
        lemma_placed_alike(u1[m], u2[m], perm_before(piv1, n, m + 1), m, n);
    }
    lemma_list_alike(e, a, b, i, n);
    lemma_scan_follows(v, e, f, a, b, piv2, u2, l2, row_list(a, i, n), t1, t2, i, i);
    let order = scanned(a, f.params, piv1, u1, i);
    assert(order == scanned(b, f.params, piv2, u2, i));
    lemma_perm_before_prefix(piv1, piv2, n, i);
    lemma_before_shape(f, i);
    let before = perm_before(piv1, n, i);
    let d = before[i] as int;
    assert(is_open(piv1, i, d)) by {
        assert forall|m: int| 0 <= m < i implies #[trigger] piv1[m] != d by {
            assert(before[m] == piv1[m]);
            assert(before[m] != before[i]);
        }
    }
    assert forall|c: int| is_open(piv1, i, c) implies grown(e, #[trigger] r1(c), r2(c)) by {
        assert(follows(e, piv1, i, c, r1(c), r2(c)));
    }
    lemma_best_follows(v, e, r1, r2, order, piv1, piv2, n, i, d, order.len() as int);
    let q = piv1[i] as int;
    let best = best_label(r1, order, piv1, n, i, d, order.len() as int);
    let tol = pivoting::<T>(f.params);
    assert(pivot_label(r2, tol, order, piv2, n, i, d) == q) by {
        lemma_mag_follows(v, e, r1(d), r2(d));
        lemma_mag_follows(v, e, r1(best), r2(best));
        if tol is Some {
            let w = v(tol->0);
            let x = v(mag_or_null(r1(d)));
            reveal(reads_reals);
            assert(v(tol->0.times(mag_or_null(r2(d)))) == w * (s * x));
            lemma_associates(w, s, x);
            lemma_commutes(w, s);
            lemma_associates(s, w, x);
            lemma_compares(s, w * x, v(mag_or_null(r1(best))));
        }
    }
    assert(piv2[i] == q);
    lemma_row_shaped(v, f, a, i);
    let tau1 = threshold(a, f.params, i);
    let tau2 = threshold(b, f.params, i);
    lemma_multiple_threshold(v, e, a, b, f.params, i);
    lemma_open_prefix(piv1, piv2, i);
    let c1 = upper_candidates(r1, tau1, piv1, i, q);
    let c2 = upper_candidates(r2, tau2, piv2, i, q);
    assert forall|c: int| grown(e, #[trigger] c1(c), c2(c)) by {
        assert(is_open(piv1, i, c) == is_open(piv2, i, c));
        if is_open(piv1, i, c) {
            assert(grown(e, r1(c), r2(c)));
            lemma_mag_follows(v, e, r1(c), r2(c));
            lemma_compares(s, v(mag_or_null(r1(c))), v(tau1));
            reveal(reads_reals);
        }
    }
    let p = budget(f.params, a.pattern.row_idx@.len(), a.pattern.ncols as nat);
    assert forall|k: int| 0 <= k < order.len() implies grown(
        e,
        c1((#[trigger] order[k]) as int),
        c2(order[k] as int),
    ) by {}
    lemma_ranked_alike(v, e, c1, c2, order);
    let top1 = top(ranked(c1, order), p);
    let top2 = top(ranked(c2, order), p);
    lemma_top_alike(v, s, ranked(c1, order), ranked(c2, order), p);
    assert forall|c: int| named(top1, c) <==> #[trigger] named(top2, c) by {
        if named(top1, c) {
            let k = choose|k: int| 0 <= k < top1.len() && (#[trigger] top1[k]).1 == c;
            assert(top2[k].1 == top1[k].1);
        }
        if named(top2, c) {
            let k = choose|k: int| 0 <= k < top2.len() && (#[trigger] top2[k]).1 == c;
            assert(top2[k].1 == top1[k].1);
        }
    }
    let x1 = u1[i].remove(q);
    let x2 = u2[i].remove(q);
    assert forall|c: int| #[trigger] u1[i].dom().contains(c) <==> u2[i].dom().contains(c) by {
        assert(x1.dom().contains(c) <==> named(top1, c));
        assert(x2.dom().contains(c) <==> named(top2, c));
    }
    assert(u1[i].dom() =~= u2[i].dom());
    assert forall|c: int| #[trigger] u1[i].dom().contains(c) implies u2[i][c] == e.times(
        u1[i][c],
    ) by {
        if c == q {
            assert(grown(e, r1(q), r2(q)));
            lemma_null_absorbs(e);
        } else {
            assert(x1.dom().contains(c));
            assert(x2.dom().contains(c));
            assert(c1(c) == Some(x1[c]));
            assert(c2(c) == Some(x2[c]));
            assert(grown(e, c1(c), c2(c)));
        }
    }
    let d1 = lower_candidates(r1, piv1, i);
    let d2 = lower_candidates(r2, piv2, i);
    assert(d1 =~= d2) by {
        assert forall|c: int| #[trigger] d1(c) == d2(c) by {
            assert(is_open(piv1, i, c) == is_open(piv2, i, c));
            assert(follows(e, piv1, i, c, r1(c), r2(c)));
        }
    }
    lemma_kept_unique(d1, order, l1[i], l2[i], p, n);
}

/// The first `i` rows of the scaled matrix follow.
proof fn lemma_rows_follow<T: Scalar>(
    v: spec_fn(T::Real) -> real,
    e: T,
    f: Ilutp<T>,
    a: CscRef<'_, T>,
    b: CscRef<'_, T>,
    g: Ilutp<T>,
    i: int,
)
    requires
        exact_field::<T>(),
        reads_reals(v),
        reads_magnitudes::<T>(v),
        reads_squares::<T>(v),
        reads_roots(v),
        0real < v(e.magnitude()),
        a.wf(),
        b.wf(),
        a.pattern.distinct(),
        a.pattern.nrows == a.pattern.ncols,
        is_multiple(e, a, b),
        f.wf(),
        f.n == a.pattern.ncols,
        f.factors(a),
        g.n == f.n,
        g.params == f.params,
        g.factors(b),
        clear_of_scale(v, v(e.magnitude()), f, a),
        0 <= i <= f.n,
    ensures
        rows_follow(e, f.perm@, f.u_rows(), f.l_rows(), g.perm@, g.u_rows(), g.l_rows(), i),
    decreases i,
{
    if i > 0 {
        lemma_rows_follow(v, e, f, a, b, g, i - 1);
        assert(row_done(b, g.params, g.perm@, g.u_rows(), g.l_rows(), i - 1));
        lemma_row_follows(v, e, f, a, b, g.perm@, g.u_rows(), g.l_rows(), i - 1);
    }
}

/// In exact arithmetic, where no multiplier of the factorisation of `A` lies between
/// the drop threshold of its row and `s` times that threshold, the factorisation of
/// `s A` has the same permutation, the same `L`, and `s` times the `U`. The entry `e`
/// stands for `s`.
pub proof fn law_scales_upper<T: Scalar>(
    v: spec_fn(T::Real) -> real,
    e: T,
    f: Ilutp<T>,
    a: CscRef<'_, T>,
    g: Ilutp<T>,
    b: CscRef<'_, T>,
)
    requires
        exact_field::<T>(),
        reads_reals(v),
        reads_magnitudes::<T>(v),
        reads_squares::<T>(v),
        reads_roots(v),
        0real < v(e.magnitude()),
        a.wf(),
        b.wf(),
        a.pattern.distinct(),
        a.pattern.nrows == a.pattern.ncols,
        is_multiple(e, a, b),
        f.wf(),
        g.wf(),
        f.n == a.pattern.ncols,
        g.n == f.n,
        g.params == f.params,
        f.factors(a),
        g.factors(b),
        clear_of_scale(v, v(e.magnitude()), f, a),
    ensures
        g.perm@ == f.perm@,
        forall|i: int, j: int|
            0 <= i < f.n && 0 <= j < f.n ==> #[trigger] f.u.has(i, j) == g.u.has(i, j)
                && dense_entry(g.u_model(), i, j) == e.times(dense_entry(f.u_model(), i, j)),
        forall|i: int, j: int|
            0 <= i < f.n && 0 <= j < f.n ==> #[trigger] f.l.has(i, j) == g.l.has(i, j)
                && dense_entry(g.l_model(), i, j) == dense_entry(f.l_model(), i, j),
{
    let n = f.n as int;
    lemma_rows_follow(v, e, f, a, b, g, n);
    assert(g.perm@ =~= f.perm@);
    lemma_pivots_distinct(f);
    assert forall|c: int| 0 <= c < n implies #[trigger] f.perm_inv@[c] == g.perm_inv@[c] by {
        assert(f.perm_inv@[c] < n && f.perm@[f.perm_inv@[c] as int] == c);
        let k = f.perm_inv@[c] as int;
        assert(g.perm@[k] < n && g.perm_inv@[g.perm@[k] as int] == k);
    }
    assert forall|i: int, j: int| 0 <= i < f.n && 0 <= j < f.n implies #[trigger] f.u.has(i, j)
        == g.u.has(i, j) && dense_entry(g.u_model(), i, j) == e.times(
        dense_entry(f.u_model(), i, j),
    ) by {
        let c = f.perm@[j] as int;
        assert(f.perm_inv@[f.perm@[j] as int] == j);
        assert(f.perm_inv@[c] == g.perm_inv@[c]);
        let x = f.u_rows()[i];
        let y = g.u_rows()[i];
        assert(grown_column(e, x, y));
        assert(x.dom().contains(c) <==> f.u.has(i, j));
        assert(y.dom().contains(c) <==> g.u.has(i, j));
        lemma_null_absorbs(e);
    }
    assert forall|i: int, j: int| 0 <= i < f.n && 0 <= j < f.n implies #[trigger] f.l.has(i, j)
        == g.l.has(i, j) && dense_entry(g.l_model(), i, j) == dense_entry(f.l_model(), i, j) by {
        let c = f.perm@[j] as int;
        assert(f.perm_inv@[f.perm@[j] as int] == j);
        assert(f.perm_inv@[c] == g.perm_inv@[c]);
        if i == j {
            lemma_lower_diag(f, i);
            lemma_lower_diag(g, i);
            assert(f.l.start(i) < f.l.end(i) && f.l.row_idx@[f.l.start(i)] == i);
            assert(f.l.in_col(f.l.start(i), i));
            assert(g.l.start(i) < g.l.end(i) && g.l.row_idx@[g.l.start(i)] == i);
            assert(g.l.in_col(g.l.start(i), i));
        } else {
            let x = f.l_rows()[i];
            let y = g.l_rows()[i];
            assert(x == y);
            assert(x.dom().contains(c) <==> f.l.has(i, j));
            assert(y.dom().contains(c) <==> g.l.has(i, j));
            if x.dom().contains(c) {
                assert(dense_entry(f.l_model(), i, j) == x[c]);
                assert(dense_entry(g.l_model(), i, j) == y[c]);
            }
        }
    }
}

} // verus!
