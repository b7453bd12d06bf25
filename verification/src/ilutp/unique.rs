//! The threshold factorisation of a matrix is unique.
use super::numeric::{
    budget, built, eliminated, is_open, keeps_first, keeps_largest, lemma_best_prefix,
    lemma_open_prefix, lemma_perm_before_prefix, lemma_scanned_prefix, lower_candidates,
    perm_before, pivot_label, pivoting, refactorized, row_done, row_stuck, rows_done, scanned, source_row,
    stuck_at, stuck_with, threshold, upper_candidates,
};
use super::row::lemma_acc_prefix;
use super::{Ilutp, IlutpError, IlutpParams};
use crate::lu::{lemma_lower_col, lemma_upper_col};
use crate::scalar::Scalar;
use crate::sparse::CscRef;
use crate::util::patterns::{lemma_same_pattern, within};
use vstd::prelude::*;

verus! {

/// What is kept of the same candidates is the same.
pub proof fn lemma_kept_unique<T: Scalar>(
    cand: spec_fn(int) -> Option<T>,
    order: Seq<usize>,
    x: Map<int, T>,
    y: Map<int, T>,
    p: nat,
    n: int,
)
    requires
        keeps_largest(cand, x, p, n),
        keeps_first(cand, order, x, p),
        keeps_largest(cand, y, p, n),
        keeps_first(cand, order, y, p),
    ensures
        x == y,
{
    assert forall|c: int| #[trigger] x.dom().contains(c) <==> y.dom().contains(c) by {}
    assert forall|c: int| #[trigger] x.dom().contains(c) implies x[c] == y[c] by {
        assert(y.dom().contains(c));
        assert(cand(c) == Some(x[c]));
        assert(cand(c) == Some(y[c]));
    }
    assert(x =~= y);
}

/// Rows that follow the same pivots and rows are reduced to the same, scanned in
/// the same order, and choose the same pivot.
proof fn lemma_same_start<T: Scalar>(
    a: CscRef<'_, T>,
    params: IlutpParams<T::Tuning>,
    piv1: Seq<usize>,
    u1: Seq<Map<int, T>>,
    piv2: Seq<usize>,
    u2: Seq<Map<int, T>>,
    i: int,
)
    requires
        0 <= i <= u1.len(),
        i <= u2.len(),
        forall|m: int| 0 <= m < i ==> #[trigger] piv1[m] == piv2[m],
        forall|m: int| 0 <= m < i ==> #[trigger] u1[m] == u2[m],
    ensures
        eliminated(a, params, piv1, u1, i) == eliminated(a, params, piv2, u2, i),
        scanned(a, params, piv1, u1, i) == scanned(a, params, piv2, u2, i),
        ({
            let n = a.pattern.ncols as int;
            let r = eliminated(a, params, piv1, u1, i);
            let order = scanned(a, params, piv1, u1, i);
            let d = perm_before(piv1, n, i)[i] as int;
            &&& perm_before(piv1, n, i) == perm_before(piv2, n, i)
            &&& pivot_label(r, pivoting::<T>(params), order, piv1, n, i, d) == pivot_label(
                r,
                pivoting::<T>(params),
                order,
                piv2,
                n,
                i,
                d,
            )
        }),
{
    let n = a.pattern.ncols as int;
    let r1 = eliminated(a, params, piv1, u1, i);
    let r2 = eliminated(a, params, piv2, u2, i);
    assert forall|c: int| #[trigger] r1(c) == r2(c) by {
        lemma_acc_prefix(source_row(a, i), threshold(a, params, i), piv1, u1, piv2, u2, i, c);
    }
    assert(r1 =~= r2);
    lemma_scanned_prefix(a, params, piv1, u1, piv2, u2, i);
    lemma_perm_before_prefix(piv1, piv2, n, i);
    let order = scanned(a, params, piv1, u1, i);
    let d = perm_before(piv1, n, i)[i] as int;
    lemma_best_prefix(r1, order, piv1, piv2, n, i, d, order.len() as int);
}

/// The first `i` rows are determined by the matrix and the parameters.
proof fn lemma_rows_unique<T: Scalar>(
    a: CscRef<'_, T>,
    params: IlutpParams<T::Tuning>,
    piv1: Seq<usize>,
    u1: Seq<Map<int, T>>,
    l1: Seq<Map<int, T>>,
    piv2: Seq<usize>,
    u2: Seq<Map<int, T>>,
    l2: Seq<Map<int, T>>,
    i: int,
)
    requires
        0 <= i <= u1.len(),
        i <= u2.len(),
        rows_done(a, params, piv1, u1, l1, i),
        rows_done(a, params, piv2, u2, l2, i),
    ensures
        forall|m: int| 0 <= m < i ==> #[trigger] piv1[m] == piv2[m],
        forall|m: int| 0 <= m < i ==> #[trigger] u1[m] == u2[m],
        forall|m: int| 0 <= m < i ==> #[trigger] l1[m] == l2[m],
    decreases i,
{
    if i > 0 {
        let k = i - 1;
        assert forall|m: int| 0 <= m < k implies #[trigger] row_done(
            a,
            params,
            piv1,
            u1,
            l1,
            m,
        ) by {}
        assert forall|m: int| 0 <= m < k implies #[trigger] row_done(
            a,
            params,
            piv2,
            u2,
            l2,
            m,
        ) by {}
        lemma_rows_unique(a, params, piv1, u1, l1, piv2, u2, l2, k);
        lemma_same_start(a, params, piv1, u1, piv2, u2, k);
        assert(row_done(a, params, piv1, u1, l1, k));
        assert(row_done(a, params, piv2, u2, l2, k));
        let n = a.pattern.ncols as int;
        let p = budget(params, a.pattern.row_idx@.len(), a.pattern.ncols as nat);
        let r = eliminated(a, params, piv1, u1, k);
        let order = scanned(a, params, piv1, u1, k);
        let tau = threshold(a, params, k);
        let q = piv1[k] as int;
        assert(piv2[k] as int == q);
        lemma_open_prefix(piv1, piv2, k);
        let c1 = upper_candidates(r, tau, piv1, k, q);
        let c2 = upper_candidates(r, tau, piv2, k, q);
        assert(c1 =~= c2) by {
            assert forall|c: int| #[trigger] c1(c) == c2(c) by {
                assert(is_open(piv1, k, c) == is_open(piv2, k, c));
            }
        }
        lemma_kept_unique(c1, order, u1[k].remove(q), u2[k].remove(q), p, n);
        assert(u1[k] =~= u1[k].remove(q).insert(q, u1[k][q]));
        assert(u2[k] =~= u2[k].remove(q).insert(q, u2[k][q]));
        let d1 = lower_candidates(r, piv1, k);
        let d2 = lower_candidates(r, piv2, k);
        assert(d1 =~= d2) by {
            assert forall|c: int| #[trigger] d1(c) == d2(c) by {
                assert(is_open(piv1, k, c) == is_open(piv2, k, c));
            }
        }
        lemma_kept_unique(d1, order, l1[k], l2[k], p, n);
    }
}

/// Where one factorisation is stuck, no other gets past.
proof fn lemma_stuck_stops<T: Scalar>(
    a: CscRef<'_, T>,
    params: IlutpParams<T::Tuning>,
    i: int,
    piv: Seq<usize>,
    u: Seq<Map<int, T>>,
    l: Seq<Map<int, T>>,
    k: int,
)
    requires
        0 <= i,
        k <= u.len(),
        stuck_at(a, params, i),
        rows_done(a, params, piv, u, l, k),
    ensures
        k <= i,
{
    if i < k {
        let piv1 = choose|piv1: Seq<usize>| #[trigger] stuck_with(a, params, piv1, i);
        let (u1, l1) = choose|u1: Seq<Map<int, T>>, l1: Seq<Map<int, T>>|
            {
                &&& u1.len() == i
                &&& #[trigger] rows_done(a, params, piv1, u1, l1, i)
                &&& row_stuck(a, params, piv1, u1, i)
            };
        assert forall|m: int| 0 <= m < i implies #[trigger] row_done(a, params, piv, u, l, m) by {}
        lemma_rows_unique(a, params, piv1, u1, l1, piv, u, l, i);
        lemma_same_start(a, params, piv1, u1, piv, u, i);
        assert(row_done(a, params, piv, u, l, i));
    }
}

/// A factorisation is not stuck at a second row further on.
proof fn lemma_stuck_once<T: Scalar>(
    a: CscRef<'_, T>,
    params: IlutpParams<T::Tuning>,
    i: int,
    k: int,
)
    requires
        0 <= i,
        0 <= k,
        stuck_at(a, params, i),
        stuck_at(a, params, k),
    ensures
        k <= i,
{
    let piv = choose|piv: Seq<usize>| #[trigger] stuck_with(a, params, piv, k);
    let (u, l) = choose|u: Seq<Map<int, T>>, l: Seq<Map<int, T>>|
        {
            &&& u.len() == k
            &&& #[trigger] rows_done(a, params, piv, u, l, k)
            &&& row_stuck(a, params, piv, u, k)
        };
    lemma_stuck_stops(a, params, i, piv, u, l, k);
}

/// Both hold the same factors and the same permutation.
pub open spec fn same_factor<T: Scalar>(f: Ilutp<T>, g: Ilutp<T>) -> bool {
    &&& f.n == g.n
    &&& f.params == g.params
    &&& f.l.same_as(g.l)
    &&& f.l_values@ == g.l_values@
    &&& f.u.same_as(g.u)
    &&& f.u_values@ == g.u_values@
    &&& f.perm@ == g.perm@
    &&& f.perm_inv@ == g.perm_inv@
    &&& f.permuted == g.permuted
}

/// The entries of the stored factors are those of the rows.
proof fn lemma_rows_within<T: Scalar>(f: Ilutp<T>, g: Ilutp<T>)
    requires
        f.wf(),
        g.wf(),
        f.n == g.n,
        f.perm@ == g.perm@,
        f.perm_inv@ == g.perm_inv@,
        forall|m: int| 0 <= m < f.n ==> #[trigger] f.u_rows()[m] == g.u_rows()[m],
        forall|m: int| 0 <= m < f.n ==> #[trigger] f.l_rows()[m] == g.l_rows()[m],
    ensures
        within(f.u, g.u),
        within(f.l, g.l),
{
    let n = f.n as int;
    assert forall|i: int, j: int| 0 <= j < f.u.ncols && #[trigger] f.u.has(i, j) implies g.u.has(
        i,
        j,
    ) by {
        f.u.lemma_find(i, j);
        lemma_upper_col(f.u, n, f.u.find(i, j), j);
        let c = f.perm@[j] as int;
        assert(f.perm@[j] < n && f.perm_inv@[f.perm@[j] as int] == j);
        assert(f.u_rows()[i].dom().contains(c));
        assert(g.u_rows()[i].dom().contains(c));
    }
    assert forall|i: int, j: int| 0 <= j < f.l.ncols && #[trigger] f.l.has(i, j) implies g.l.has(
        i,
        j,
    ) by {
        f.l.lemma_find(i, j);
        lemma_lower_col(f.l, n, f.l.find(i, j), j);
        if i == j {
            assert(g.l.start(j) < g.l.end(j) && g.l.row_idx@[g.l.start(j)] == j);
            assert(g.l.in_col(g.l.start(j), j));
        } else {
            let c = f.perm@[j] as int;
            assert(f.perm@[j] < n && f.perm_inv@[f.perm@[j] as int] == j);
            assert(f.l_rows()[i].dom().contains(c));
            assert(g.l_rows()[i].dom().contains(c));
        }
    }
}

/// Two factors of the same matrix with the same parameters are the same.
pub proof fn law_factor_is_unique<T: Scalar>(f: Ilutp<T>, g: Ilutp<T>, a: CscRef<'_, T>)
    requires
        f.wf(),
        g.wf(),
        f.n == a.pattern.ncols,
        g.n == a.pattern.ncols,
        f.params == g.params,
        f.factors(a),
        g.factors(a),
    ensures
        same_factor(f, g),
{
    let n = f.n as int;
    lemma_rows_unique(
        a,
        f.params,
        f.perm@,
        f.u_rows(),
        f.l_rows(),
        g.perm@,
        g.u_rows(),
        g.l_rows(),
        n,
    );
    assert(f.perm@ =~= g.perm@);
    assert forall|c: int| 0 <= c < n implies #[trigger] f.perm_inv@[c] == g.perm_inv@[c] by {
        assert(f.perm_inv@[c] < n && f.perm@[f.perm_inv@[c] as int] == c);
        let k = f.perm_inv@[c] as int;
        assert(g.perm@[k] < n && g.perm_inv@[g.perm@[k] as int] == k);
    }
    assert(f.perm_inv@ =~= g.perm_inv@);
    lemma_rows_within(f, g);
    assert forall|m: int| 0 <= m < n implies #[trigger] g.u_rows()[m] == f.u_rows()[m] by {
        assert(f.u_rows()[m] == g.u_rows()[m]);
    }
    assert forall|m: int| 0 <= m < n implies #[trigger] g.l_rows()[m] == f.l_rows()[m] by {
        assert(f.l_rows()[m] == g.l_rows()[m]);
    }
    lemma_rows_within(g, f);
    lemma_same_pattern(f.u, g.u);
    lemma_same_pattern(f.l, g.l);
    assert forall|k: int| 0 <= k < f.u_values@.len() implies #[trigger] f.u_values@[k]
        == g.u_values@[k] by {
        let j = f.u.lemma_some_col(k);
        let i = f.u.row_idx@[k] as int;
        assert(f.u.in_col(k, j));
        lemma_upper_col(f.u, n, k, j);
        assert(f.u.sorted_col(j));
        f.u.lemma_find_at(k, j);
        assert(f.u.has(i, j));
        assert(g.u.has(i, j));
        let c = f.perm@[j] as int;
        assert(f.perm@[j] < n && f.perm_inv@[f.perm@[j] as int] == j);
        assert(f.u_rows()[i].dom().contains(c));
        assert(f.u_rows()[i][c] == f.u_values@[k]);
        assert(g.u_rows()[i][c] == g.u_values@[g.u.find(i, j)]);
        assert(f.u.find(i, j) == g.u.find(i, j));
    }
    assert(f.u_values@ =~= g.u_values@);
    assert forall|k: int| 0 <= k < f.l_values@.len() implies #[trigger] f.l_values@[k]
        == g.l_values@[k] by {
        let j = f.l.lemma_some_col(k);
        let i = f.l.row_idx@[k] as int;
        assert(f.l.in_col(k, j));
        lemma_lower_col(f.l, n, k, j);
        assert(f.l.sorted_col(j));
        f.l.lemma_find_at(k, j);
        if i == j {
            assert(f.l.start(j) < f.l.end(j) && f.l.row_idx@[f.l.start(j)] == j);
            f.l.lemma_find_at(f.l.start(j), j);
            assert(f.l_values@[f.l.start(j)] == T::unit());
            assert(g.l_values@[g.l.start(j)] == T::unit());
        } else {
            assert(f.l.has(i, j));
            assert(g.l.has(i, j));
            let c = f.perm@[j] as int;
            assert(f.perm@[j] < n && f.perm_inv@[f.perm@[j] as int] == j);
            assert(f.l_rows()[i].dom().contains(c));
            assert(f.l_rows()[i][c] == f.l_values@[k]);
            assert(g.l_rows()[i][c] == g.l_values@[g.l.find(i, j)]);
            assert(f.l.find(i, j) == g.l.find(i, j));
        }
    }
    assert(f.l_values@ =~= g.l_values@);
}

/// Refactorising comes to the same as building afresh with the same parameters,
/// whatever was factorised before, a failed refactorisation included: the same
/// error, or the same factor. A matrix of another dimension is refused and leaves
/// the factor as it was; an error always leaves `L` and `U` as they were.
pub proof fn law_refactorize_matches_fresh<T: Scalar>(
    before: Ilutp<T>,
    a: CscRef<'_, T>,
    after: Ilutp<T>,
    r: Result<(), IlutpError>,
    fresh: Result<Ilutp<T>, IlutpError>,
)
    requires
        before.wf(),
        refactorized(before, a, after, r),
        built(a, before.params, fresh),
    ensures
        after.params == before.params,
        r is Err ==> {
            &&& after.l == before.l
            &&& after.l_values == before.l_values
            &&& after.u == before.u
            &&& after.u_values == before.u_values
        },
        a.pattern.nrows != before.n || a.pattern.ncols != before.n ==> after == before && r == Err::<
            (),
            IlutpError,
        >(IlutpError::NonSquareMatrix { nrows: a.pattern.nrows, ncols: a.pattern.ncols }),
        a.pattern.nrows == before.n && a.pattern.ncols == before.n ==> match fresh {
            Ok(f) => r is Ok && same_factor(after, f),
            Err(e) => r == Err::<(), IlutpError>(e),
        },
{
    if a.pattern.nrows == before.n && a.pattern.ncols == before.n {
        let n = before.n as int;
        match (r, fresh) {
            (Ok(_), Ok(f)) => {
                law_factor_is_unique(after, f, a);
            },
            (Ok(_), Err(e)) => {
                let row = e->ZeroPivot_row as int;
                lemma_stuck_stops(
                    a,
                    before.params,
                    row,
                    after.perm@,
                    after.u_rows(),
                    after.l_rows(),
                    n,
                );
            },
            (Err(e), Ok(f)) => {
                let row = e->ZeroPivot_row as int;
                lemma_stuck_stops(a, before.params, row, f.perm@, f.u_rows(), f.l_rows(), n);
            },
            (Err(e), Err(g)) => {
                let x = e->ZeroPivot_row as int;
                let y = g->ZeroPivot_row as int;
                lemma_stuck_once(a, before.params, x, y);
                lemma_stuck_once(a, before.params, y, x);
            },
        }
    }
}

} // verus!
