//! The threshold Cholesky factorisation of a lower triangle is unique.
use super::numeric::{
    built, col_maps, col_norm, column_budget, column_built, column_candidates, column_done,
    columns_done, kept_rows, lemma_col_acc_prefix, pivot_of, refactorized, source_col, stuck_at,
    updated, Ict,
};
use super::order::{col_scan, lemma_orders_prefix, noted, rows_below, source_scan, update_seq};
use super::{IctError, IctParams};
use crate::ilutp::unique::lemma_kept_unique;
use crate::lu::lemma_lower_col;
use crate::overlay::overlaid;
use crate::scalar::{RealScalar, Scalar};
use crate::sparse::CscRef;
use crate::util::patterns::{lemma_same_pattern, within};
use crate::util::powers::{ascending, lemma_ascending_unique};
use vstd::prelude::*;

verus! {

/// The entries on and below the diagonal that column `j` of `a` stores before
/// position `p`, as they are stored.
pub open spec fn lower_part<T: Scalar>(a: CscRef<'_, T>, j: int, p: int) -> Seq<(usize, T)>
    decreases p - a.pattern.start(j),
{
    if p <= a.pattern.start(j) {
        Seq::empty()
    } else {
        let before = lower_part(a, j, p - 1);
        if a.pattern.row_idx@[p - 1] >= j {
            before.push((a.pattern.row_idx@[p - 1], a.values@[p - 1]))
        } else {
            before
        }
    }
}

/// Both matrices store the same lower triangle.
pub open spec fn same_lower<T: Scalar>(a: CscRef<'_, T>, b: CscRef<'_, T>) -> bool {
    &&& a.pattern.nrows == b.pattern.nrows
    &&& a.pattern.ncols == b.pattern.ncols
    &&& forall|j: int|
        0 <= j < a.pattern.ncols ==> #[trigger] lower_part(a, j, a.pattern.end(j)) == lower_part(
            b,
            j,
            b.pattern.end(j),
        )
}

/// The last value listed for row `i`, and zero if there is none.
spec fn last_of<T: Scalar>(list: Seq<(usize, T)>, i: int) -> T
    decreases list.len(),
{
    if list.len() == 0 {
        T::null()
    } else if list.last().0 == i {
        list.last().1
    } else {
        last_of(list.drop_last(), i)
    }
}

/// Some entry is listed for row `i`.
spec fn lists<T>(list: Seq<(usize, T)>, i: int) -> bool {
    exists|t: int| 0 <= t < list.len() && (#[trigger] list[t]).0 == i
}

/// The diagonal, then the rows as they are listed.
spec fn rows_of<T>(list: Seq<(usize, T)>, j: int) -> Seq<usize>
    decreases list.len(),
{
    if list.len() == 0 {
        seq![j as usize]
    } else {
        noted(rows_of(list.drop_last(), j), list.last().0)
    }
}

/// What a column starts from depends on its lower part alone.
proof fn lemma_lower_part<T: Scalar>(a: CscRef<'_, T>, j: int, p: int)
    requires
        a.wf(),
        0 <= j < a.pattern.ncols,
        a.pattern.start(j) <= p <= a.pattern.end(j),
    ensures
        forall|i: int|
            i >= j ==> #[trigger] overlaid(a, i, j, p) == last_of(lower_part(a, j, p), i),
        forall|i: int|
            i >= j ==> (#[trigger] lists(lower_part(a, j, p), i) <==> exists|q: int|
                a.pattern.start(j) <= q < p && #[trigger] a.pattern.row_idx@[q] == i),
        source_scan(a, j, p) == rows_of(lower_part(a, j, p), j),
    decreases p - a.pattern.start(j),
{
    let s = a.pattern.start(j);
    let now = lower_part(a, j, p);
    if p > s {
        lemma_lower_part(a, j, p - 1);
        let before = lower_part(a, j, p - 1);
        let r = a.pattern.row_idx@[p - 1];
        if r >= j {
            assert(now.drop_last() =~= before);
            assert(now.last() == (r, a.values@[p - 1]));
        }
        assert forall|i: int| i >= j implies #[trigger] overlaid(a, i, j, p) == last_of(
            now,
            i,
        ) by {
            assert(overlaid(a, i, j, p - 1) == last_of(before, i));
        }
        assert forall|i: int| i >= j implies (#[trigger] lists(now, i) <==> exists|q: int|
            s <= q < p && #[trigger] a.pattern.row_idx@[q] == i) by {
            assert(lists(before, i) <==> exists|q: int|
                s <= q < p - 1 && #[trigger] a.pattern.row_idx@[q] == i);
            if lists(now, i) {
                let t = choose|t: int| 0 <= t < now.len() && (#[trigger] now[t]).0 == i;
                if t < before.len() {
                    assert(before[t].0 == i);
                    assert(lists(before, i));
                } else {
                    assert(a.pattern.row_idx@[p - 1] == i);
                }
            }
            if exists|q: int| s <= q < p && #[trigger] a.pattern.row_idx@[q] == i {
                let q = choose|q: int| s <= q < p && #[trigger] a.pattern.row_idx@[q] == i;
                if q == p - 1 {
                    assert(now[now.len() - 1].0 == i);
                } else {
                    assert(lists(before, i));
                    let t = choose|t: int| 0 <= t < before.len() && (#[trigger] before[t]).0 == i;
                    assert(now[t].0 == i);
                }
            }
        }
    } else {
        assert forall|i: int| i >= j implies !(#[trigger] lists(now, i)) by {}
    }
}

/// Columns with the same lower part start from the same.
proof fn lemma_same_source<T: Scalar>(a: CscRef<'_, T>, b: CscRef<'_, T>, j: int)
    requires
        a.wf(),
        b.wf(),
        same_lower(a, b),
        0 <= j < a.pattern.ncols,
    ensures
        source_col(a, j) == source_col(b, j),
        source_scan(a, j, a.pattern.end(j)) == source_scan(b, j, b.pattern.end(j)),
{
    a.pattern.lemma_col_bounds(j);
    b.pattern.lemma_col_bounds(j);
    lemma_lower_part(a, j, a.pattern.end(j));
    lemma_lower_part(b, j, b.pattern.end(j));
    let list = lower_part(a, j, a.pattern.end(j));
    assert(list == lower_part(b, j, b.pattern.end(j)));
    let f = source_col(a, j);
    let g = source_col(b, j);
    assert forall|i: int| #[trigger] f(i) == g(i) by {
        if i >= j {
            lemma_has_listed(a, i, j);
            lemma_has_listed(b, i, j);
            assert(overlaid(a, i, j, a.pattern.end(j)) == last_of(list, i));
            assert(overlaid(b, i, j, b.pattern.end(j)) == last_of(list, i));
        }
    }
    assert(f =~= g);
}

/// An entry below the diagonal is stored where the lower part lists it.
proof fn lemma_has_listed<T: Scalar>(a: CscRef<'_, T>, i: int, j: int)
    requires
        a.wf(),
        0 <= j < a.pattern.ncols,
        j <= i,
    ensures
        a.pattern.has(i, j) <==> lists(lower_part(a, j, a.pattern.end(j)), i),
{
    a.pattern.lemma_col_bounds(j);
    lemma_lower_part(a, j, a.pattern.end(j));
    assert(lists(lower_part(a, j, a.pattern.end(j)), i) <==> exists|q: int|
        a.pattern.start(j) <= q < a.pattern.end(j) && #[trigger] a.pattern.row_idx@[q] == i);
    if a.pattern.has(i, j) {
        a.pattern.lemma_find(i, j);
        assert(a.pattern.row_idx@[a.pattern.find(i, j)] == i);
    }
    if exists|q: int|
        a.pattern.start(j) <= q < a.pattern.end(j) && #[trigger] a.pattern.row_idx@[q] == i {
        let q = choose|q: int|
            a.pattern.start(j) <= q < a.pattern.end(j) && #[trigger] a.pattern.row_idx@[q] == i;
        assert(a.pattern.in_col(q, j));
    }
}

/// The columns of both matrices have the same budget. A count per row always gives
/// this, and so does a share of the same number of stored entries.
pub open spec fn same_budget<T: Scalar>(
    params: IctParams<T::Tuning>,
    a: CscRef<'_, T>,
    b: CscRef<'_, T>,
) -> bool {
    column_budget(params, a.pattern.row_idx@.len(), a.pattern.ncols as nat) == column_budget(
        params,
        b.pattern.row_idx@.len(),
        b.pattern.ncols as nat,
    )
}

/// Columns that follow the same columns and start from the same lower part are
/// updated to the same, in the same order, and meet the same rows.
proof fn lemma_same_start<T: Scalar>(
    a: CscRef<'_, T>,
    b: CscRef<'_, T>,
    cols1: Seq<Map<int, T>>,
    cols2: Seq<Map<int, T>>,
    j: int,
)
    requires
        a.wf(),
        b.wf(),
        same_lower(a, b),
        0 <= j < a.pattern.ncols,
        forall|k: int| 0 <= k < j ==> #[trigger] cols1[k] == cols2[k],
    ensures
        ({
            let n = a.pattern.ncols as int;
            let ord = update_seq(cols1, n, j);
            &&& ord == update_seq(cols2, n, j)
            &&& updated(a, cols1, ord, j) == updated(b, cols2, ord, j)
            &&& col_scan(a, cols1, ord, j) == col_scan(b, cols2, ord, j)
        }),
        pivot_of(a, cols1, j) == pivot_of(b, cols2, j),
{
    let n = a.pattern.ncols as int;
    let ord = update_seq(cols1, n, j);
    lemma_same_source(a, b, j);
    lemma_orders_prefix(a, cols1, cols2, j);
    let w1 = updated(a, cols1, ord, j);
    let w2 = updated(b, cols2, ord, j);
    assert forall|i: int| #[trigger] w1(i) == w2(i) by {
        lemma_col_acc_prefix(source_col(a, j), cols1, cols2, ord, j, ord.len() as int, i);
    }
    assert(w1 =~= w2);
}

/// The first `j` columns are determined by the lower triangle and the parameters.
proof fn lemma_columns_unique<T: Scalar>(
    a: CscRef<'_, T>,
    b: CscRef<'_, T>,
    params: IctParams<T::Tuning>,
    cols1: Seq<Map<int, T>>,
    cols2: Seq<Map<int, T>>,
    j: int,
)
    requires
        a.wf(),
        b.wf(),
        same_lower(a, b),
        same_budget(params, a, b),
        0 <= j <= a.pattern.ncols,
        columns_done(a, params, cols1, j),
        columns_done(b, params, cols2, j),
    ensures
        forall|k: int| 0 <= k < j ==> #[trigger] cols1[k] == cols2[k],
    decreases j,
{
    if j > 0 {
        let k = j - 1;
        let n = a.pattern.ncols as int;
        assert forall|m: int| 0 <= m < k implies #[trigger] column_done(a, params, cols1, m) by {}
        assert forall|m: int| 0 <= m < k implies #[trigger] column_done(b, params, cols2, m) by {}
        lemma_columns_unique(a, b, params, cols1, cols2, k);
        lemma_same_start(a, b, cols1, cols2, k);
        let ord = update_seq(cols1, n, k);
        let seen = col_scan(a, cols1, ord, k);
        assert(column_done(a, params, cols1, k));
        assert(column_done(b, params, cols2, k));
        assert(column_built(a, params, cols1, ord, seen, k));
        assert(column_built(b, params, cols2, ord, seen, k));
        let w = updated(a, cols1, ord, k);
        let p = column_budget(params, a.pattern.row_idx@.len(), a.pattern.ncols as nat);
        let tau = T::tuned(params.drop_tol).times(
            col_norm(params.norm, w, rows_below(seen, k)),
        );
        let x = kept_rows(cols1[k], w, k);
        let y = kept_rows(cols2[k], w, k);
        lemma_kept_unique(column_candidates(w, tau, k), seen, x, y, p, n);
        assert forall|i: int| #[trigger] cols1[k].dom().contains(i) <==> cols2[k].dom().contains(
            i,
        ) by {
            assert(x.dom().contains(i) <==> i != k && cols1[k].dom().contains(i));
            assert(y.dom().contains(i) <==> i != k && cols2[k].dom().contains(i));
        }
        assert forall|i: int| #[trigger] cols1[k].dom().contains(i) implies cols1[k][i]
            == cols2[k][i] by {
            assert(cols2[k].dom().contains(i));
        }
        assert(cols1[k] =~= cols2[k]);
    }
}

/// Where the factorisation of one matrix is stuck, that of no other with the same
/// lower triangle gets past.
proof fn lemma_stuck_stops<T: Scalar>(
    a: CscRef<'_, T>,
    b: CscRef<'_, T>,
    params: IctParams<T::Tuning>,
    j: int,
    cols: Seq<Map<int, T>>,
    k: int,
)
    requires
        a.wf(),
        b.wf(),
        same_lower(a, b),
        same_budget(params, a, b),
        0 <= j,
        k <= a.pattern.ncols,
        stuck_at(a, params, j),
        columns_done(b, params, cols, k),
    ensures
        k <= j,
{
    if j < k {
        let cols1 = choose|cols1: Seq<Map<int, T>>|
            {
                &&& #[trigger] columns_done(a, params, cols1, j)
                &&& !T::Real::null().below(pivot_of(a, cols1, j))
            };
        assert forall|m: int| 0 <= m < j implies #[trigger] column_done(b, params, cols, m) by {}
        lemma_columns_unique(a, b, params, cols1, cols, j);
        lemma_same_start(a, b, cols1, cols, j);
        assert(column_done(b, params, cols, j));
    }
}

/// A factorisation is not stuck at a second column further on.
proof fn lemma_stuck_once<T: Scalar>(
    a: CscRef<'_, T>,
    b: CscRef<'_, T>,
    params: IctParams<T::Tuning>,
    j: int,
    k: int,
)
    requires
        a.wf(),
        b.wf(),
        same_lower(a, b),
        same_budget(params, a, b),
        0 <= j,
        0 <= k < a.pattern.ncols,
        stuck_at(a, params, j),
        stuck_at(b, params, k),
    ensures
        k <= j,
{
    let cols = choose|cols: Seq<Map<int, T>>|
        {
            &&& #[trigger] columns_done(b, params, cols, k)
            &&& !T::Real::null().below(pivot_of(b, cols, k))
        };
    lemma_stuck_stops(a, b, params, j, cols, k);
}

/// Both hold the same factor.
pub open spec fn same_factor<T: Scalar>(f: Ict<T>, g: Ict<T>) -> bool {
    &&& f.dim == g.dim
    &&& f.params == g.params
    &&& f.l.same_as(g.l)
    &&& f.l_values@ == g.l_values@
}

/// Factors of matrices with the same lower triangle, with the same parameters and
/// budget, are the same.
pub proof fn law_factor_is_unique<T: Scalar>(
    f: Ict<T>,
    g: Ict<T>,
    a: CscRef<'_, T>,
    b: CscRef<'_, T>,
)
    requires
        a.wf(),
        b.wf(),
        same_lower(a, b),
        same_budget(f.params, a, b),
        f.wf(),
        g.wf(),
        f.dim == a.pattern.ncols,
        g.dim == a.pattern.ncols,
        f.params == g.params,
        f.factors(a),
        g.factors(b),
    ensures
        same_factor(f, g),
{
    let n = f.dim as int;
    let x = col_maps(f.l, f.l_values@);
    let y = col_maps(g.l, g.l_values@);
    lemma_columns_unique(a, b, f.params, x, y, n);
    assert forall|i: int, j: int| 0 <= j < f.l.ncols && #[trigger] f.l.has(i, j) implies g.l.has(
        i,
        j,
    ) by {
        assert(x[j].dom().contains(i));
        assert(x[j] == y[j]);
        assert(y[j].dom().contains(i));
    }
    assert forall|i: int, j: int| 0 <= j < g.l.ncols && #[trigger] g.l.has(i, j) implies f.l.has(
        i,
        j,
    ) by {
        assert(y[j].dom().contains(i));
        assert(x[j] == y[j]);
        assert(x[j].dom().contains(i));
    }
    assert(within(f.l, g.l));
    assert(within(g.l, f.l));
    lemma_same_pattern(f.l, g.l);
    assert forall|k: int| 0 <= k < f.l_values@.len() implies #[trigger] f.l_values@[k]
        == g.l_values@[k] by {
        let j = f.l.lemma_some_col(k);
        let i = f.l.row_idx@[k] as int;
        assert(f.l.in_col(k, j));
        lemma_lower_col(f.l, n, k, j);
        assert(f.l.sorted_col(j));
        f.l.lemma_find_at(k, j);
        assert(f.l.has(i, j));
        assert(g.l.has(i, j));
        assert(x[j].dom().contains(i));
        assert(x[j][i] == f.l_values@[k]);
        assert(x[j] == y[j]);
        assert(y[j][i] == g.l_values@[g.l.find(i, j)]);
        assert(f.l.find(i, j) == g.l.find(i, j));
    }
    assert(f.l_values@ =~= g.l_values@);
}

/// Only the lower triangle is read: two matrices that store the same lower
/// triangle, whatever stands above the diagonal, give the same error or the same
/// factor. With a fill factor the budget counts every stored entry, those above the
/// diagonal included, so that the budgets must agree, too.
pub proof fn law_reads_lower_triangle<T: Scalar>(
    a: CscRef<'_, T>,
    b: CscRef<'_, T>,
    params: IctParams<T::Tuning>,
    r: Result<Ict<T>, IctError>,
    s: Result<Ict<T>, IctError>,
)
    requires
        a.wf(),
        b.wf(),
        same_lower(a, b),
        same_budget(params, a, b),
        built(a, params, r),
        built(b, params, s),
    ensures
        match (r, s) {
            (Ok(f), Ok(g)) => same_factor(f, g),
            (Err(d), Err(e)) => d == e,
            _ => false,
        },
{
    lemma_lower_symmetric(a, b);
    if params.usable() && a.pattern.nrows == a.pattern.ncols {
        let n = a.pattern.ncols as int;
        match (r, s) {
            (Ok(f), Ok(g)) => {
                law_factor_is_unique(f, g, a, b);
            },
            (Ok(f), Err(e)) => {
                let col = e->NotPositiveDefinite_col as int;
                lemma_stuck_stops(b, a, params, col, col_maps(f.l, f.l_values@), n);
            },
            (Err(e), Ok(g)) => {
                let col = e->NotPositiveDefinite_col as int;
                lemma_stuck_stops(a, b, params, col, col_maps(g.l, g.l_values@), n);
            },
            (Err(d), Err(e)) => {
                let x = d->NotPositiveDefinite_col as int;
                let y = e->NotPositiveDefinite_col as int;
                lemma_stuck_once(a, b, params, x, y);
                lemma_stuck_once(b, a, params, y, x);
            },
        }
    }
}

proof fn lemma_lower_symmetric<T: Scalar>(a: CscRef<'_, T>, b: CscRef<'_, T>)
    requires
        same_lower(a, b),
    ensures
        same_lower(b, a),
{
    assert forall|j: int| 0 <= j < b.pattern.ncols implies #[trigger] lower_part(
        b,
        j,
        b.pattern.end(j),
    ) == lower_part(a, j, a.pattern.end(j)) by {
        assert(lower_part(a, j, a.pattern.end(j)) == lower_part(b, j, b.pattern.end(j)));
    }
}

/// Refactorising comes to the same as building afresh with the same parameters,
/// whatever was factorised before, a failed refactorisation included: the same
/// error, or the same factor. A matrix of another dimension is refused and leaves
/// the factor as it was.
pub proof fn law_refactorize_matches_fresh<T: Scalar>(
    before: Ict<T>,
    a: CscRef<'_, T>,
    after: Ict<T>,
    r: Result<(), IctError>,
    fresh: Result<Ict<T>, IctError>,
)
    requires
        a.wf(),
        before.params.usable(),
        refactorized(before, a, after, r),
        built(a, before.params, fresh),
    ensures
        after.params == before.params,
        a.pattern.nrows != before.dim || a.pattern.ncols != before.dim ==> after == before && r
            == Err::<(), IctError>(IctError::PatternMismatch),
        a.pattern.nrows == before.dim && a.pattern.ncols == before.dim ==> match fresh {
            Ok(f) => r is Ok && same_factor(after, f),
            Err(e) => r == Err::<(), IctError>(e),
        },
{
    if a.pattern.nrows == before.dim && a.pattern.ncols == before.dim {
        let params = before.params;
        let again: Result<Ict<T>, IctError> = match r {
            Ok(_) => Ok(after),
            Err(e) => Err(e),
        };
        if let Err(e) = r {
            let cols = col_maps(after.l, after.l_values@);
            let col = e->NotPositiveDefinite_col as int;
            assert(columns_done(a, params, cols, col));
            assert(stuck_at(a, params, col));
        }
        assert(built(a, params, again));
        law_reads_lower_triangle(a, a, params, again, fresh);
    }
}

/// The lower part of a sorted column lists its stored entries from the diagonal
/// on, each once, in ascending order.
proof fn lemma_lower_sorted<T: Scalar>(a: CscRef<'_, T>, j: int, p: int)
    requires
        a.wf(),
        a.pattern.sorted(),
        0 <= j < a.pattern.ncols,
        a.pattern.start(j) <= p <= a.pattern.end(j),
    ensures
        ({
            let list = lower_part(a, j, p);
            let rows = Seq::new(list.len(), |t: int| list[t].0);
            &&& ascending(rows)
            &&& forall|t: int|
                0 <= t < list.len() ==> {
                    &&& (#[trigger] list[t]).0 >= j
                    &&& a.pattern.has(list[t].0 as int, j)
                    &&& a.values@[a.pattern.find(list[t].0 as int, j)] == list[t].1
                    &&& p > a.pattern.start(j)
                    &&& list[t].0 <= a.pattern.row_idx@[p - 1]
                }
        }),
    decreases p - a.pattern.start(j),
{
    let list = lower_part(a, j, p);
    let rows = Seq::new(list.len(), |t: int| list[t].0);
    let s = a.pattern.start(j);
    a.pattern.lemma_col_bounds(j);
    if p > s {
        lemma_lower_sorted(a, j, p - 1);
        let before = lower_part(a, j, p - 1);
        let rows0 = Seq::new(before.len(), |t: int| before[t].0);
        assert(a.pattern.sorted_col(j));
        assert(a.pattern.in_col(p - 1, j));
        a.pattern.lemma_find_at(p - 1, j);
        assert(a.pattern.has(a.pattern.row_idx@[p - 1] as int, j));
        if p - 1 > s {
            assert(a.pattern.row_idx@[p - 2] < a.pattern.row_idx@[p - 1]);
        }
        assert forall|t: int| 0 <= t < list.len() implies {
            &&& (#[trigger] list[t]).0 >= j
            &&& a.pattern.has(list[t].0 as int, j)
            &&& a.values@[a.pattern.find(list[t].0 as int, j)] == list[t].1
            &&& p > s
            &&& list[t].0 <= a.pattern.row_idx@[p - 1]
        } by {
            if t < before.len() {
                assert(list[t] == before[t]);
            }
        }
        assert forall|x: int, y: int| 0 <= x < y < rows.len() implies #[trigger] rows[x]
            < #[trigger] rows[y] by {
            assert(list[x] == before[x]);
            if y < before.len() {
                assert(list[y] == before[y]);
                assert(rows0[x] < rows0[y]);
            } else {
                assert(before[x].0 <= a.pattern.row_idx@[p - 2]);
            }
        }
    }
}

/// Sorted matrices with the same entries on and below the diagonal have the same
/// lower triangle.
pub proof fn law_same_entries_same_lower<T: Scalar>(a: CscRef<'_, T>, b: CscRef<'_, T>)
    requires
        a.wf(),
        b.wf(),
        a.pattern.sorted(),
        b.pattern.sorted(),
        a.pattern.nrows == b.pattern.nrows,
        a.pattern.ncols == b.pattern.ncols,
        forall|i: int, j: int|
            0 <= j < a.pattern.ncols && j <= i ==> (#[trigger] a.pattern.has(i, j)
                <==> b.pattern.has(i, j)),
        forall|i: int, j: int|
            0 <= j < a.pattern.ncols && j <= i && #[trigger] a.pattern.has(i, j) ==> a@.entry(i, j)
                == b@.entry(i, j),
    ensures
        same_lower(a, b),
{
    assert forall|j: int| 0 <= j < a.pattern.ncols implies #[trigger] lower_part(
        a,
        j,
        a.pattern.end(j),
    ) == lower_part(b, j, b.pattern.end(j)) by {
        a.pattern.lemma_col_bounds(j);
        b.pattern.lemma_col_bounds(j);
        lemma_lower_sorted(a, j, a.pattern.end(j));
        lemma_lower_sorted(b, j, b.pattern.end(j));
        let u = lower_part(a, j, a.pattern.end(j));
        let v = lower_part(b, j, b.pattern.end(j));
        let x = Seq::new(u.len(), |t: int| u[t].0);
        let y = Seq::new(v.len(), |t: int| v[t].0);
        assert forall|c: usize| #[trigger] x.contains(c) <==> y.contains(c) by {
            if x.contains(c) {
                let t = choose|t: int| 0 <= t < x.len() && x[t] == c;
                assert(u[t].0 == c);
                lemma_has_listed(b, c as int, j);
                assert(b.pattern.has(c as int, j));
                let z = choose|z: int| 0 <= z < v.len() && (#[trigger] v[z]).0 == c as int;
                assert(y[z] == c);
            }
            if y.contains(c) {
                let t = choose|t: int| 0 <= t < y.len() && y[t] == c;
                assert(v[t].0 == c);
                lemma_has_listed(a, c as int, j);
                assert(a.pattern.has(c as int, j));
                let z = choose|z: int| 0 <= z < u.len() && (#[trigger] u[z]).0 == c as int;
                assert(x[z] == c);
            }
        }
        lemma_ascending_unique(x, y);
        assert forall|t: int| 0 <= t < u.len() implies #[trigger] u[t] == v[t] by {
            assert(x[t] == y[t]);
            let i = u[t].0 as int;
            assert(a.pattern.has(i, j));
            assert(a@.entry(i, j) == b@.entry(i, j));
        }
        assert(u =~= v);
    }
}

/// Sorted matrices with the same entries on and below the diagonal, whatever
/// stands above it, give the same error or the same factor where their budgets
/// agree; a budget per column always does.
pub proof fn law_reads_lower_entries<T: Scalar>(
    a: CscRef<'_, T>,
    b: CscRef<'_, T>,
    params: IctParams<T::Tuning>,
    r: Result<Ict<T>, IctError>,
    s: Result<Ict<T>, IctError>,
)
    requires
        a.wf(),
        b.wf(),
        a.pattern.sorted(),
        b.pattern.sorted(),
        a.pattern.nrows == b.pattern.nrows,
        a.pattern.ncols == b.pattern.ncols,
        forall|i: int, j: int|
            0 <= j < a.pattern.ncols && j <= i ==> (#[trigger] a.pattern.has(i, j)
                <==> b.pattern.has(i, j)),
        forall|i: int, j: int|
            0 <= j < a.pattern.ncols && j <= i && #[trigger] a.pattern.has(i, j) ==> a@.entry(i, j)
                == b@.entry(i, j),
        params.fill is PerRow || same_budget(params, a, b),
        built(a, params, r),
        built(b, params, s),
    ensures
        match (r, s) {
            (Ok(f), Ok(g)) => same_factor(f, g),
            (Err(d), Err(e)) => d == e,
            _ => false,
        },
{
    law_same_entries_same_lower(a, b);
    law_reads_lower_triangle(a, b, params, r, s);
}

} // verus!
