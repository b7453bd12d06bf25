//! Numeric threshold incomplete Cholesky.
//!
//! Left-looking column Cholesky with dual dropping, restricted to the lower
//! triangle. To find, when forming column `j`, every earlier column with a
//! stored entry in row `j`, each column waits in the bucket of the next row that
//! its cursor points at.
use vstd::prelude::*;

use super::order::{
    backwards, col_scan, fill_scan, lemma_moved_prefix, lemma_next_row, lemma_orders_prefix,
    lemma_rows_skip, lemma_update_members, lemma_waiting_prefix, moved_on, next_row, noted,
    rows_below, rows_scan, source_scan, update_seq, waiting,
};
use super::{FillControl, IctError, IctParams, RowNorm};
use crate::ilutp::numeric::{
    keeps_first, keeps_largest, lemma_keeps_agree, lemma_ranked_agree, mag_or_null, norm_term,
    on_side, select_side, side_candidates, value_or_null,
};
use crate::ilutp::row::{inverse_perms, lemma_push_contains, listed, slot, SparseRow};
use crate::lu::lower_ok;
use crate::overlay::overlaid;
use crate::scalar::{RealScalar, Scalar};
use crate::sparse::{CscModel, CscPattern, CscRef};

verus! {

/// Column `j` of the lower triangle of `a`. The diagonal is always present, and
/// zero if nothing is stored there.
pub open spec fn source_col<T: Scalar>(a: CscRef<'_, T>, j: int) -> spec_fn(int) -> Option<T> {
    |i: int|
        if i == j || (i > j && a.pattern.has(i, j)) {
            Some(overlaid(a, i, j, a.pattern.end(j)))
        } else {
            None
        }
}

/// Entry `i` of column `j` after the first `t` of the earlier columns in `ord`
/// have been subtracted: column `k` takes away `L[i, k] * conj(L[j, k])` at each
/// row `i >= j` that it stores.
pub open spec fn col_acc<T: Scalar>(
    a: spec_fn(int) -> Option<T>,
    cols: Seq<Map<int, T>>,
    ord: Seq<int>,
    j: int,
    t: int,
    i: int,
) -> Option<T>
    decreases t,
{
    if t <= 0 {
        a(i)
    } else {
        let k = ord[t - 1];
        let before = col_acc(a, cols, ord, j, t - 1, i);
        if i >= j && cols[k].dom().contains(i) {
            let upd = cols[k][i].times(cols[k][j].conjugate());
            match before {
                Some(y) => Some(y.minus(upd)),
                None => Some(upd.negated()),
            }
        } else {
            before
        }
    }
}

/// `ord` lists, each once, the columns before `j` that store row `j`.
pub open spec fn update_order<T>(cols: Seq<Map<int, T>>, j: int, ord: Seq<int>) -> bool {
    &&& ord.no_duplicates()
    &&& forall|k: int| #[trigger]
        ord.contains(k) <==> 0 <= k < j && cols[k].dom().contains(j)
}

/// Column `j` once every earlier column has been subtracted, in the order `ord`.
pub open spec fn updated<T: Scalar>(
    a: CscRef<'_, T>,
    cols: Seq<Map<int, T>>,
    ord: Seq<int>,
    j: int,
) -> spec_fn(int) -> Option<T> {
    |i: int| col_acc(source_col(a, j), cols, ord, j, ord.len() as int, i)
}

/// `touch` lists, each once, the rows below `j` that have an entry.
pub open spec fn touch_order<T>(
    w: spec_fn(int) -> Option<T>,
    n: int,
    j: int,
    touch: Seq<int>,
) -> bool {
    &&& touch.no_duplicates()
    &&& forall|i: int| #[trigger] touch.contains(i) <==> j < i < n && w(i) is Some
}

/// The sum of the norm terms of the first `t` rows in `touch`.
pub open spec fn norm_over<T: Scalar>(
    norm: RowNorm,
    w: spec_fn(int) -> Option<T>,
    touch: Seq<int>,
    t: int,
) -> T::Real
    decreases t,
{
    if t <= 0 {
        T::Real::null()
    } else {
        norm_over(norm, w, touch, t - 1).plus(norm_term(norm, value_or_null(w(touch[t - 1]))))
    }
}

/// The norm of the entries below the diagonal.
pub open spec fn col_norm<T: Scalar>(
    norm: RowNorm,
    w: spec_fn(int) -> Option<T>,
    touch: Seq<int>,
) -> T::Real {
    let sum = norm_over(norm, w, touch, touch.len() as int);
    match norm {
        RowNorm::One => sum,
        RowNorm::Two => sum.root(),
    }
}

/// The per-column fill budget.
pub open spec fn column_budget<R: RealScalar>(params: IctParams<R>, nnz: nat, n: nat) -> nat {
    match params.fill {
        FillControl::PerRow(p) => p as nat,
        FillControl::Factor(f) => {
            let d = if n >= 1 {
                n
            } else {
                1
            };
            let p = f.times(R::ratio(nnz as u64, 1)).over(R::ratio(d as u64, 1)).nearest() as nat;
            if p >= 1 {
                p
            } else {
                1
            }
        },
    }
}

/// The entries of the updated column that may enter `L` below the diagonal.
pub open spec fn column_candidates<T: Scalar>(
    w: spec_fn(int) -> Option<T>,
    tau: T::Real,
    j: int,
) -> spec_fn(int) -> Option<T> {
    |i: int|
        if i > j && w(i) is Some && tau.at_most(mag_or_null(w(i))) {
            w(i)
        } else {
            None
        }
}

/// The updated entries at the rows that column `j` of `L` stores below its
/// diagonal.
pub open spec fn kept_rows<T: Scalar>(
    col: Map<int, T>,
    w: spec_fn(int) -> Option<T>,
    j: int,
) -> Map<int, T> {
    Map::new(|i: int| i != j && col.dom().contains(i), |i: int| value_or_null(w(i)))
}

/// Column `j` of the factorisation, given the order of its updates and that in
/// which its rows are met: its pivot is positive, its diagonal is the root of the
/// pivot, and below it stand the largest of the entries that are not dropped,
/// divided by the root. Of equal entries, those met first are kept.
pub open spec fn column_built<T: Scalar>(
    a: CscRef<'_, T>,
    params: IctParams<T::Tuning>,
    cols: Seq<Map<int, T>>,
    ord: Seq<int>,
    seen: Seq<usize>,
    j: int,
) -> bool {
    let n = a.pattern.ncols as int;
    let touch = rows_below(seen, j);
    let p = column_budget(params, a.pattern.row_idx@.len(), a.pattern.ncols as nat);
    let w = updated(a, cols, ord, j);
    let r = value_or_null(w(j)).real_part();
    let pivot = T::embed(r.root());
    let tau = T::tuned(params.drop_tol).times(col_norm(params.norm, w, touch));
    &&& update_order(cols, j, ord)
    &&& touch_order(w, n, j, touch)
    &&& T::Real::null().below(r)
    &&& cols[j].dom().contains(j)
    &&& cols[j][j] == pivot
    &&& forall|i: int| #[trigger]
        cols[j].dom().contains(i) && i != j ==> cols[j][i] == value_or_null(w(i)).times(
            pivot.reciprocal(),
        )
    &&& keeps_largest(column_candidates(w, tau, j), kept_rows(cols[j], w, j), p, n)
    &&& keeps_first(column_candidates(w, tau, j), seen, kept_rows(cols[j], w, j), p)
}

/// Column `j` is that of the threshold factorisation: earlier columns are
/// subtracted from it in the order in which they wait, last come first.
pub open spec fn column_done<T: Scalar>(
    a: CscRef<'_, T>,
    params: IctParams<T::Tuning>,
    cols: Seq<Map<int, T>>,
    j: int,
) -> bool {
    let ord = update_seq(cols, a.pattern.ncols as int, j);
    column_built(a, params, cols, ord, col_scan(a, cols, ord, j), j)
}

/// The first `j` columns are done.
pub open spec fn columns_done<T: Scalar>(
    a: CscRef<'_, T>,
    params: IctParams<T::Tuning>,
    cols: Seq<Map<int, T>>,
    j: int,
) -> bool {
    forall|k: int| 0 <= k < j ==> #[trigger] column_done(a, params, cols, k)
}

/// The pivot of column `j`, given the earlier columns.
pub open spec fn pivot_of<T: Scalar>(
    a: CscRef<'_, T>,
    cols: Seq<Map<int, T>>,
    j: int,
) -> T::Real {
    let ord = update_seq(cols, a.pattern.ncols as int, j);
    value_or_null(updated(a, cols, ord, j)(j)).real_part()
}

/// The factorisation of `a` reaches column `j` and finds no positive pivot.
pub open spec fn stuck_at<T: Scalar>(
    a: CscRef<'_, T>,
    params: IctParams<T::Tuning>,
    j: int,
) -> bool {
    exists|cols: Seq<Map<int, T>>|
        {
            &&& #[trigger] columns_done(a, params, cols, j)
            &&& !T::Real::null().below(pivot_of(a, cols, j))
        }
}

/// The factorisation of `a` reaches column `j` with the columns in `l` and finds no
/// positive pivot.
pub open spec fn stuck_with<T: Scalar>(
    a: CscRef<'_, T>,
    params: IctParams<T::Tuning>,
    l: CscPattern,
    lv: Seq<T>,
    j: int,
) -> bool {
    &&& columns_ok(l, a.pattern.ncols as int)
    &&& l.ncols == j
    &&& lv.len() == l.row_idx@.len()
    &&& columns_done(a, params, col_maps(l, lv), j)
    &&& !T::Real::null().below(pivot_of(a, col_maps(l, lv), j))
}

/// The columns of a stored factor as maps.
pub open spec fn col_maps<T>(l: CscPattern, lv: Seq<T>) -> Seq<Map<int, T>> {
    Seq::new(
        l.ncols as nat,
        |k: int| Map::new(|i: int| l.has(i, k), |i: int| lv[l.find(i, k)]),
    )
}

/// An update looks only at the columns it lists.
pub proof fn lemma_col_acc_prefix<T: Scalar>(
    a: spec_fn(int) -> Option<T>,
    cols: Seq<Map<int, T>>,
    cols2: Seq<Map<int, T>>,
    ord: Seq<int>,
    j: int,
    t: int,
    i: int,
)
    requires
        t <= ord.len(),
        forall|k: int| #[trigger] ord.contains(k) ==> cols[k] == cols2[k],
    ensures
        col_acc(a, cols, ord, j, t, i) == col_acc(a, cols2, ord, j, t, i),
    decreases t,
{
    if t > 0 {
        lemma_col_acc_prefix(a, cols, cols2, ord, j, t - 1, i);
        assert(ord.contains(ord[t - 1]));
    }
}

/// A column looks at nothing beyond itself.
proof fn lemma_column_prefix<T: Scalar>(
    a: CscRef<'_, T>,
    params: IctParams<T::Tuning>,
    cols: Seq<Map<int, T>>,
    cols2: Seq<Map<int, T>>,
    j: int,
)
    requires
        0 <= j < a.pattern.ncols,
        forall|k: int| 0 <= k <= j ==> #[trigger] cols[k] == cols2[k],
        column_done(a, params, cols, j),
    ensures
        column_done(a, params, cols2, j),
{
    let ord = update_seq(cols, a.pattern.ncols as int, j);
    lemma_orders_prefix(a, cols, cols2, j);
    lemma_order_prefix(cols, cols2, j, ord);
    let w = updated(a, cols, ord, j);
    let w2 = updated(a, cols2, ord, j);
    assert forall|i: int| #[trigger] w(i) == w2(i) by {
        lemma_col_acc_prefix(source_col(a, j), cols, cols2, ord, j, ord.len() as int, i);
    }
    assert(w =~= w2);
    assert(cols[j] == cols2[j]);
}

proof fn lemma_order_prefix<T>(
    cols: Seq<Map<int, T>>,
    cols2: Seq<Map<int, T>>,
    j: int,
    ord: Seq<int>,
)
    requires
        forall|k: int| 0 <= k < j ==> #[trigger] cols[k] == cols2[k],
        update_order(cols, j, ord),
    ensures
        update_order(cols2, j, ord),
        forall|k: int| #[trigger] ord.contains(k) ==> cols[k] == cols2[k],
{
    assert forall|k: int| #[trigger] ord.contains(k) <==> 0 <= k < j && cols2[k].dom().contains(
        j,
    ) by {
        if 0 <= k < j {
            assert(cols[k] == cols2[k]);
        }
    }
}

/// The working column: `used` lists, each once, the rows that have an entry.
spec fn work_ok<T>(w: Seq<Option<T>>, used: Seq<usize>) -> bool {
    &&& used.no_duplicates()
    &&& forall|c: usize| #[trigger]
        used.contains(c) <==> c < w.len() && w[c as int] is Some
}

/// Sets entry `i` of the working column.
fn put<T>(w: &mut Vec<Option<T>>, used: &mut Vec<usize>, i: usize, x: T)
    requires
        i < old(w)@.len(),
        work_ok(old(w)@, old(used)@),
    ensures
        final(w)@ == old(w)@.update(i as int, Some(x)),
        work_ok(final(w)@, final(used)@),
        final(used)@ == noted(old(used)@, i),
{
    let ghost w0 = w@;
    let ghost used0 = used@;
    let fresh: bool = match &w[i] {
        Some(_) => false,
        None => true,
    };
    w.set(i, Some(x));
    if fresh {
        proof {
            lemma_push_contains(used@, i);
        }
        used.push(i);
    }
    proof {
        assert forall|c: usize| #[trigger] used@.contains(c) <==> c < w@.len()
            && w@[c as int] is Some by {
            if c != i && c < w@.len() {
                assert(w@[c as int] == w0[c as int]);
            }
            assert(used0.contains(c) <==> c < w0.len() && w0[c as int] is Some);
        }
    }
}

/// Spreads the lower part of column `j` of `a` over the working column.
fn scatter_col<T: Scalar>(
    a: CscRef<'_, T>,
    j: usize,
    w: &mut Vec<Option<T>>,
    used: &mut Vec<usize>,
)
    requires
        a.wf(),
        j < a.pattern.ncols,
        a.pattern.nrows == a.pattern.ncols,
        old(w)@.len() == a.pattern.ncols,
        forall|c: int| 0 <= c < old(w)@.len() ==> #[trigger] old(w)@[c] is None,
        old(used)@.len() == 0,
    ensures
        final(w)@.len() == old(w)@.len(),
        forall|i: int|
            0 <= i < final(w)@.len() ==> #[trigger] final(w)@[i] == source_col(a, j as int)(i),
        work_ok(final(w)@, final(used)@),
        final(used)@ == source_scan(a, j as int, a.pattern.end(j as int)),
{
    let ghost n = a.pattern.ncols as int;
    let ghost jj = j as int;
    put(w, used, j, T::zero());
    assert(used@ =~= seq![j]);
    let s: usize = a.pattern.col_ptr[j];
    let e: usize = a.pattern.col_ptr[j + 1];
    proof {
        a.pattern.lemma_col_bounds(jj);
    }
    let mut p: usize = s;
    while p < e
        invariant
            n == a.pattern.ncols,
            jj == j,
            j < n,
            a.wf(),
            a.pattern.nrows == n,
            s == a.pattern.start(jj),
            e == a.pattern.end(jj),
            s <= p <= e <= a.pattern.row_idx@.len(),
            w@.len() == n,
            work_ok(w@, used@),
            used@ == source_scan(a, jj, p as int),
            forall|i: int|
                0 <= i < n ==> #[trigger] w@[i] == if i == jj || (i > jj && exists|q: int|
                    s <= q < p && #[trigger] a.pattern.row_idx@[q] == i) {
                    Some(overlaid(a, i, jj, p as int))
                } else {
                    None::<T>
                },
        decreases e - p,
    {
        let i: usize = a.pattern.row_idx[p];
        let ghost ii = i as int;
        let ghost w0 = w@;
        if i >= j {
            let x: T = a.values[p].copy();
            put(w, used, i, x);
        }
        proof {
            assert forall|b: int| 0 <= b < n implies #[trigger] w@[b] == (if b == jj || (b > jj
                && exists|q: int| s <= q < p + 1 && #[trigger] a.pattern.row_idx@[q] == b) {
                Some(overlaid(a, b, jj, p + 1))
            } else {
                None::<T>
            }) by {
                if b == ii {
                    assert(a.pattern.row_idx@[p as int] == b);
                } else {
                    assert(w@[b] == w0[b]);
                    if exists|q: int| s <= q < p && #[trigger] a.pattern.row_idx@[q] == b {
                        let q = choose|q: int|
                            s <= q < p && #[trigger] a.pattern.row_idx@[q] == b;
                        assert(s <= q < p + 1 && a.pattern.row_idx@[q] == b);
                    } else {
                        assert(!(exists|q: int|
                            s <= q < p + 1 && #[trigger] a.pattern.row_idx@[q] == b));
                    }
                }
            }
        }
        p += 1;
    }
    proof {
        assert forall|i: int| 0 <= i < n implies #[trigger] w@[i] == source_col(a, jj)(i) by {
            if a.pattern.has(i, jj) {
                a.pattern.lemma_find(i, jj);
                assert(a.pattern.row_idx@[a.pattern.find(i, jj)] == i);
            }
            if exists|q: int| s <= q < p && #[trigger] a.pattern.row_idx@[q] == i {
                let q = choose|q: int| s <= q < p && #[trigger] a.pattern.row_idx@[q] == i;
                assert(a.pattern.in_col(q, jj));
            }
        }
    }
}

/// Subtracts column `k`, whose entry in row `j` is at `pos`, from the working
/// column.
fn subtract_col<T: Scalar>(
    l: &CscPattern,
    lv: &Vec<T>,
    k: usize,
    pos: usize,
    j: usize,
    w: &mut Vec<Option<T>>,
    used: &mut Vec<usize>,
    Ghost(target): Ghost<spec_fn(int) -> Option<T>>,
)
    requires
        l.wf(),
        l.sorted(),
        k < l.ncols,
        lv@.len() == l.row_idx@.len(),
        l.in_col(pos as int, k as int),
        l.row_idx@[pos as int] == j,
        l.nrows == old(w)@.len(),
        work_ok(old(w)@, old(used)@),
        forall|i: int|
            0 <= i < old(w)@.len() ==> #[trigger] target(i) == if i >= j && l.has(i, k as int) {
                let upd = lv@[l.find(i, k as int)].times(lv@[pos as int].conjugate());
                match old(w)@[i] {
                    Some(y) => Some(y.minus(upd)),
                    None => Some(upd.negated()),
                }
            } else {
                old(w)@[i]
            },
    ensures
        final(w)@.len() == old(w)@.len(),
        work_ok(final(w)@, final(used)@),
        final(used)@ == rows_scan(
            old(used)@,
            col_maps(*l, lv@)[k as int],
            j as int,
            l.nrows as int,
        ),
        forall|i: int| 0 <= i < final(w)@.len() ==> #[trigger] final(w)@[i] == target(i),
{
    let ghost n = w@.len() as int;
    let ghost kk = k as int;
    let ghost w0 = w@;
    let ghost used0 = used@;
    let ghost col = col_maps(*l, lv@)[kk];
    let conj_l_jk: T = lv[pos].conj();
    let end: usize = l.col_ptr[k + 1];
    proof {
        l.lemma_col_bounds(kk);
        assert(l.sorted_col(kk));
        assert forall|i: int| #[trigger] col.dom().contains(i) implies exists|q: int|
            l.start(kk) <= q < l.end(kk) && #[trigger] l.row_idx@[q] == i by {
            l.lemma_find(i, kk);
        }
    }
    let ghost mut m: int = j as int;
    let mut p: usize = pos;
    while p < end
        invariant
            n == w@.len(),
            n == w0.len(),
            n == l.nrows,
            kk == k,
            k < l.ncols,
            l.wf(),
            l.sorted_col(kk),
            lv@.len() == l.row_idx@.len(),
            l.start(kk) <= pos <= p <= end <= l.row_idx@.len(),
            end == l.end(kk),
            l.row_idx@[pos as int] == j,
            conj_l_jk == lv@[pos as int].conjugate(),
            work_ok(w@, used@),
            col == col_maps(*l, lv@)[kk],
            forall|i: int| #[trigger]
                col.dom().contains(i) ==> exists|q: int|
                    l.start(kk) <= q < l.end(kk) && #[trigger] l.row_idx@[q] == i,
            j <= m <= n,
            p == pos ==> m == j,
            p > pos ==> m == l.row_idx@[p - 1] + 1,
            used@ == rows_scan(used0, col, j as int, m),
            forall|i: int|
                0 <= i < n ==> #[trigger] w@[i] == if exists|q: int|
                    pos <= q < p && #[trigger] l.row_idx@[q] == i {
                    target(i)
                } else {
                    w0[i]
                },
            forall|i: int|
                0 <= i < n ==> #[trigger] target(i) == if i >= j && l.has(i, kk) {
                    let upd = lv@[l.find(i, kk)].times(conj_l_jk);
                    match w0[i] {
                        Some(y) => Some(y.minus(upd)),
                        None => Some(upd.negated()),
                    }
                } else {
                    w0[i]
                },
        decreases end - p,
    {
        let i: usize = l.row_idx[p];
        let ghost ii = i as int;
        let ghost wp = w@;
        proof {
            assert(l.in_col(p as int, kk));
            l.lemma_find_at(p as int, kk);
            assert(!(exists|q: int| pos <= q < p && #[trigger] l.row_idx@[q] == ii));
            assert(w@[ii] == w0[ii]);
            if p > pos {
                assert(l.row_idx@[pos as int] < l.row_idx@[p as int]);
                assert(l.row_idx@[p - 1] < l.row_idx@[p as int]);
            }
            assert(m <= ii < n);
            lemma_gap(*l, col, kk, pos as int, p as int, j as int, m, ii);
            lemma_rows_skip(used0, col, j as int, m, ii);
            assert(l.has(ii, kk));
            assert(col.dom().contains(ii));
        }
        let upd: T = lv[p].mul(&conj_l_jk);
        let x: T = match &w[i] {
            Some(y) => y.sub(&upd),
            None => upd.neg(),
        };
        put(w, used, i, x);
        proof {
            m = ii + 1;
            assert forall|b: int| 0 <= b < n implies #[trigger] w@[b] == if exists|q: int|
                pos <= q < p + 1 && #[trigger] l.row_idx@[q] == b {
                target(b)
            } else {
                w0[b]
            } by {
                if b == ii {
                    assert(l.row_idx@[p as int] == b);
                } else {
                    assert(w@[b] == wp[b]);
                    if exists|q: int| pos <= q < p && #[trigger] l.row_idx@[q] == b {
                        let q = choose|q: int| pos <= q < p && #[trigger] l.row_idx@[q] == b;
                        assert(pos <= q < p + 1 && l.row_idx@[q] == b);
                    } else {
                        assert(!(exists|q: int| pos <= q < p + 1 && #[trigger] l.row_idx@[q] == b));
                    }
                }
            }
        }
        p += 1;
    }
    proof {
        lemma_gap(*l, col, kk, pos as int, p as int, j as int, m, n);
        lemma_rows_skip(used0, col, j as int, m, n);
        assert forall|i: int| 0 <= i < n implies #[trigger] w@[i] == target(i) by {
            if !(exists|q: int| pos <= q < p && #[trigger] l.row_idx@[q] == i) {
                if i >= j && l.has(i, kk) {
                    l.lemma_find(i, kk);
                    let q = l.find(i, kk);
                    if q < pos {
                        assert(l.row_idx@[q] < l.row_idx@[pos as int]);
                    }
                    assert(pos <= q < p && l.row_idx@[q] == i);
                }
            }
        }
    }
}

/// A sorted column stores nothing between two neighbouring positions.
proof fn lemma_gap<T>(
    l: CscPattern,
    col: Map<int, T>,
    k: int,
    pos: int,
    p: int,
    j: int,
    m: int,
    b: int,
)
    requires
        l.sorted_col(k),
        l.start(k) <= pos <= p <= l.end(k),
        pos < l.end(k),
        l.row_idx@[pos] == j,
        p == pos ==> m == j,
        p > pos ==> m == l.row_idx@[p - 1] + 1,
        p < l.end(k) ==> b == l.row_idx@[p],
        forall|i: int| #[trigger]
            col.dom().contains(i) ==> exists|q: int|
                l.start(k) <= q < l.end(k) && #[trigger] l.row_idx@[q] == i,
    ensures
        forall|i: int| m <= i < b ==> !(#[trigger] col.dom().contains(i)),
{
    assert forall|i: int| m <= i < b implies !(#[trigger] col.dom().contains(i)) by {
        if col.dom().contains(i) {
            let q = choose|q: int|
                l.start(k) <= q < l.end(k) && #[trigger] l.row_idx@[q] == i;
            if p > pos && q < p - 1 {
                assert(l.row_idx@[q] < l.row_idx@[p - 1]);
            }
            if p == pos && q < pos {
                assert(l.row_idx@[q] < l.row_idx@[pos]);
            }
            if q > p {
                assert(l.row_idx@[p] < l.row_idx@[q]);
            }
        }
    }
}

/// Where each column's cursor stands before column `j` is formed: past its
/// diagonal and every row before `j`, and the column waits in the bucket of the
/// row it points at.
spec fn cursors_ok(
    l: CscPattern,
    cursor: Seq<usize>,
    buckets: Seq<Vec<usize>>,
    j: int,
    n: int,
) -> bool {
    &&& buckets.len() == n
    &&& cursor.len() == n
    &&& forall|k: int|
        0 <= k < l.ncols ==> {
            &&& l.start(k) < #[trigger] cursor[k] <= l.end(k)
            &&& forall|p: int|
                l.start(k) < p < cursor[k] ==> (#[trigger] l.row_idx@[p]) < j
            &&& cursor[k] < l.end(k) ==> l.row_idx@[cursor[k] as int] >= j
        }
    &&& forall|r: int| j <= r < n ==> bucket_ok(l, cursor, #[trigger] buckets[r]@, r)
}

/// The bucket of row `r` lists, each once, the columns that point at `r`.
spec fn bucket_ok(l: CscPattern, cursor: Seq<usize>, b: Seq<usize>, r: int) -> bool {
    &&& b.no_duplicates()
    &&& forall|k: usize| #[trigger]
        b.contains(k) <==> k < l.ncols && cursor[k as int] < l.end(k as int)
            && l.row_idx@[cursor[k as int] as int] == r
}

/// Every bucket from row `j` on holds the columns that wait there, in order.
spec fn buckets_are<T>(
    cols: Seq<Map<int, T>>,
    buckets: Seq<Vec<usize>>,
    j: int,
    n: int,
) -> bool {
    forall|r: int| j <= r < n ==> (#[trigger] buckets[r])@ == waiting(cols, n, j, r)
}

/// Adds column `k` to the bucket of row `r`.
fn bucket_push(buckets: &mut Vec<Vec<usize>>, r: usize, k: usize)
    requires
        r < old(buckets)@.len(),
    ensures
        final(buckets)@.len() == old(buckets)@.len(),
        final(buckets)@[r as int]@ == old(buckets)@[r as int]@.push(k),
        forall|q: int|
            0 <= q < old(buckets)@.len() && q != r ==> #[trigger] final(buckets)@[q] == old(
                buckets,
            )@[q],
{
    buckets[r].push(k);
}

/// Column `k` is still to be taken from the bucket.
spec fn pending(b: Seq<usize>, t: int, k: int) -> bool {
    exists|z: int| 0 <= z < t && #[trigger] b[z] == k
}

/// The columns formed so far: each is sorted and starts with its diagonal.
pub open spec fn columns_ok(l: CscPattern, n: int) -> bool {
    &&& l.wf()
    &&& l.sorted()
    &&& l.nrows == n
    &&& forall|k: int|
        0 <= k < l.ncols ==> #[trigger] l.start(k) < l.end(k) && l.row_idx@[l.start(k)] == k
}

/// Subtracts from the working column every earlier column that stores row `j`,
/// last come first, and moves their cursors on.
fn apply_updates<T: Scalar>(
    l: &CscPattern,
    lv: &Vec<T>,
    cursor: &mut Vec<usize>,
    buckets: &mut Vec<Vec<usize>>,
    j: usize,
    w: &mut Vec<Option<T>>,
    used: &mut Vec<usize>,
    Ghost(src): Ghost<spec_fn(int) -> Option<T>>,
) -> (ord: Ghost<Seq<int>>)
    requires
        j < old(w)@.len(),
        columns_ok(*l, old(w)@.len() as int),
        l.ncols == j,
        lv@.len() == l.row_idx@.len(),
        cursors_ok(*l, old(cursor)@, old(buckets)@, j as int, old(w)@.len() as int),
        buckets_are(col_maps(*l, lv@), old(buckets)@, j as int, old(w)@.len() as int),
        work_ok(old(w)@, old(used)@),
        forall|i: int| 0 <= i < old(w)@.len() ==> #[trigger] old(w)@[i] == src(i),
    ensures
        final(w)@.len() == old(w)@.len(),
        work_ok(final(w)@, final(used)@),
        cursors_ok(*l, final(cursor)@, final(buckets)@, j + 1, old(w)@.len() as int),
        update_order(col_maps(*l, lv@), j as int, ord@),
        ord@ == update_seq(col_maps(*l, lv@), old(w)@.len() as int, j as int),
        final(used)@ == fill_scan(
            old(used)@,
            col_maps(*l, lv@),
            ord@,
            j as int,
            old(w)@.len() as int,
            ord@.len() as int,
        ),
        forall|r: int|
            j < r < old(w)@.len() ==> (#[trigger] final(buckets)@[r])@ == waiting(
                col_maps(*l, lv@),
                old(w)@.len() as int,
                j as int,
                r,
            ) + moved_on(
                col_maps(*l, lv@),
                ord@,
                j as int,
                r,
                old(w)@.len() as int,
                ord@.len() as int,
            ),
        forall|i: int|
            0 <= i < final(w)@.len() ==> #[trigger] final(w)@[i] == col_acc(
                src,
                col_maps(*l, lv@),
                ord@,
                j as int,
                ord@.len() as int,
                i,
            ),
{
    let ghost n = w@.len() as int;
    let ghost jj = j as int;
    let ghost cols = col_maps(*l, lv@);
    let ghost b = buckets@[jj]@;
    let len: usize = buckets[j].len();
    let ghost used0 = used@;
    let ghost ord = backwards(b);
    proof {
        assert(b == waiting(cols, n, jj, jj));
        assert forall|r: int| j < r < n implies (#[trigger] buckets@[r])@ == waiting(cols, n, jj, r)
            + moved_on(cols, ord, jj, r, n, 0) by {
            assert(buckets@[r]@ =~= waiting(cols, n, jj, r) + Seq::<usize>::empty());
        }
        assert(bucket_ok(*l, cursor@, buckets@[jj]@, jj));
        lemma_bucket_order(*l, lv@, cursor@, b, jj);
    }
    let mut t: usize = len;
    while t > 0
        invariant
            n == w@.len(),
            n == old(w)@.len(),
            jj == j,
            j < n,
            columns_ok(*l, n),
            l.ncols == j,
            lv@.len() == l.row_idx@.len(),
            cols == col_maps(*l, lv@),
            b.no_duplicates(),
            len == b.len(),
            t <= len,
            ord == backwards(b),
            used@ == fill_scan(used0, cols, ord, jj, n, len - t),
            forall|r: int|
                j < r < n ==> (#[trigger] buckets@[r])@ == waiting(cols, n, jj, r) + moved_on(
                    cols,
                    ord,
                    jj,
                    r,
                    n,
                    len - t,
                ),
            buckets@.len() == n,
            cursor@.len() == n,
            buckets@[jj]@ == b,
            forall|k: int|
                0 <= k < j ==> {
                    &&& l.start(k) < #[trigger] cursor@[k] <= l.end(k)
                    &&& forall|p: int|
                        l.start(k) < p < cursor@[k] ==> (#[trigger] l.row_idx@[p]) < j + 1
                    &&& cursor@[k] < l.end(k) && !pending(b, t as int, k) ==> l.row_idx@[cursor@[k] as int]
                        >= j + 1
                },
            forall|z: int|
                0 <= z < t ==> (#[trigger] b[z]) < j && cursor@[b[z] as int] < l.end(b[z] as int)
                    && l.row_idx@[cursor@[b[z] as int] as int] == j,
            forall|r: int| j < r < n ==> bucket_ok(*l, cursor@, #[trigger] buckets@[r]@, r),
            work_ok(w@, used@),
            forall|i: int|
                0 <= i < n ==> #[trigger] w@[i] == col_acc(src, cols, ord, jj, len - t, i),
        decreases t,
    {
        let k: usize = buckets[j][t - 1];
        let ghost kk = k as int;
        let pos: usize = cursor[k];
        let ghost cursor0 = cursor@;
        let ghost buckets0 = buckets@;
        let ghost tt = len - t;
        proof {
            assert(b[t - 1] == k);
            assert(k < j && cursor@[kk] < l.end(kk) && l.row_idx@[pos as int] == j);
            assert(l.start(kk) < cursor@[kk] <= l.end(kk));
            assert(l.in_col(pos as int, kk));
            assert(l.sorted_col(kk));
            l.lemma_find_at(pos as int, kk);
            l.lemma_col_bounds(kk);
            assert(ord[tt] == kk);
            assert forall|i: int| 0 <= i < n implies #[trigger] col_acc(
                src,
                cols,
                ord,
                jj,
                tt + 1,
                i,
            ) == (if i >= j && l.has(i, kk) {
                let upd = lv@[l.find(i, kk)].times(lv@[pos as int].conjugate());
                match w@[i] {
                    Some(y) => Some(y.minus(upd)),
                    None => Some(upd.negated()),
                }
            } else {
                w@[i]
            }) by {
                assert(w@[i] == col_acc(src, cols, ord, jj, tt, i));
                assert(cols[kk].dom().contains(i) <==> l.has(i, kk));
                assert(cols[kk][jj] == lv@[pos as int]);
            }
        }
        let ghost target = |i: int| col_acc(src, cols, ord, jj, tt + 1, i);
        subtract_col(l, lv, k, pos, j, w, used, Ghost(target));
        let new_pos: usize = pos + 1;
        cursor.set(k, new_pos);
        let end: usize = l.col_ptr[k + 1];
        proof {
            lemma_goes_on(*l, lv@, n, kk, pos as int);
        }
        if new_pos < end {
            let nr: usize = l.row_idx[new_pos];
            assert(l.row_idx@[pos as int] < l.row_idx@[new_pos as int]);
            assert(bucket_ok(*l, cursor0, buckets0[nr as int]@, nr as int));
            assert(!buckets0[nr as int]@.contains(k));
            bucket_push(buckets, nr, k);
            proof {
                lemma_push_contains(buckets0[nr as int]@, k);
            }
        }
        proof {
            assert forall|r: int| j < r < n implies (#[trigger] buckets@[r])@ == waiting(
                cols,
                n,
                jj,
                r,
            ) + moved_on(cols, ord, jj, r, n, len - (t - 1)) by {
                let before = moved_on(cols, ord, jj, r, n, tt);
                assert(buckets0[r]@ == waiting(cols, n, jj, r) + before);
                assert(ord[tt + 1 - 1] == kk);
                if next_row(cols[kk], jj, n) == r {
                    assert(buckets@[r]@ =~= waiting(cols, n, jj, r) + before.push(k));
                } else {
                    assert(buckets@[r] == buckets0[r]);
                }
            }
            assert forall|r: int| j < r < n implies bucket_ok(
                *l,
                cursor@,
                #[trigger] buckets@[r]@,
                r,
            ) by {
                assert(bucket_ok(*l, cursor0, buckets0[r]@, r));
                assert forall|x: usize| #[trigger] buckets@[r]@.contains(x) <==> x < l.ncols
                    && cursor@[x as int] < l.end(x as int) && l.row_idx@[cursor@[x as int] as int]
                    == r by {
                    assert(buckets0[r]@.contains(x) <==> x < l.ncols && cursor0[x as int] < l.end(
                        x as int,
                    ) && l.row_idx@[cursor0[x as int] as int] == r);
                    if x != k && x < l.ncols {
                        assert(cursor@[x as int] == cursor0[x as int]);
                    }
                }
            }
            assert forall|z: int| 0 <= z < t - 1 implies (#[trigger] b[z]) < j
                && cursor@[b[z] as int] < l.end(b[z] as int)
                && l.row_idx@[cursor@[b[z] as int] as int] == j by {
                assert(b[z] != b[t - 1]);
                assert(cursor@[b[z] as int] == cursor0[b[z] as int]);
            }
            assert forall|x: int| 0 <= x < j implies {
                &&& l.start(x) < #[trigger] cursor@[x] <= l.end(x)
                &&& forall|p: int|
                    l.start(x) < p < cursor@[x] ==> (#[trigger] l.row_idx@[p]) < j + 1
                &&& cursor@[x] < l.end(x) && !pending(b, t - 1, x) ==> l.row_idx@[cursor@[x] as int]
                    >= j + 1
            } by {
                assert(l.start(x) < cursor0[x] <= l.end(x));
                if x == kk {
                    assert forall|p: int| l.start(x) < p < cursor@[x] implies (
                    #[trigger] l.row_idx@[p]) < j + 1 by {
                        if p < pos {
                            assert(l.row_idx@[p] < l.row_idx@[pos as int]);
                        }
                    }
                } else {
                    assert(cursor@[x] == cursor0[x]);
                    if pending(b, t as int, x) && !pending(b, t - 1, x) {
                        let z = choose|z: int| 0 <= z < t && #[trigger] b[z] == x;
                        assert(z == t - 1);
                    }
                }
            }
            assert forall|i: int| 0 <= i < n implies #[trigger] w@[i] == col_acc(
                src,
                cols,
                ord,
                jj,
                len - (t - 1),
                i,
            ) by {
                assert(w@[i] == target(i));
            }
        }
        t -= 1;
    }
    proof {
        assert forall|k: int| 0 <= k < l.ncols implies {
            &&& l.start(k) < #[trigger] cursor@[k] <= l.end(k)
            &&& forall|p: int| l.start(k) < p < cursor@[k] ==> (#[trigger] l.row_idx@[p]) < j + 1
            &&& cursor@[k] < l.end(k) ==> l.row_idx@[cursor@[k] as int] >= j + 1
        } by {
            assert(!pending(b, 0, k));
        }
    }
    Ghost(ord)
}

/// The next row of a column is the one stored after it.
proof fn lemma_goes_on<T: Scalar>(l: CscPattern, lv: Seq<T>, n: int, k: int, pos: int)
    requires
        columns_ok(l, n),
        0 <= k < l.ncols,
        l.in_col(pos, k),
    ensures
        next_row(col_maps(l, lv)[k], l.row_idx@[pos] as int, n) == if pos + 1 < l.end(k) {
            l.row_idx@[pos + 1] as int
        } else {
            n
        },
{
    let col = col_maps(l, lv)[k];
    let j = l.row_idx@[pos] as int;
    l.lemma_col_bounds(k);
    assert(l.sorted_col(k));
    let b = if pos + 1 < l.end(k) {
        l.row_idx@[pos + 1] as int
    } else {
        n
    };
    assert forall|i: int| #[trigger] col.dom().contains(i) implies exists|q: int|
        l.start(k) <= q < l.end(k) && #[trigger] l.row_idx@[q] == i by {
        l.lemma_find(i, k);
    }
    lemma_gap(l, col, k, pos, pos + 1, j, j + 1, b);
    if pos + 1 < l.end(k) {
        assert(l.row_idx@[pos] < l.row_idx@[pos + 1]);
        assert(l.in_col(pos + 1, k));
        assert(l.has(b, k));
    }
    lemma_next_row(col, j, n, b);
}

/// The bucket of row `j`, read backwards, is an update order for column `j`.
proof fn lemma_bucket_order<T: Scalar>(
    l: CscPattern,
    lv: Seq<T>,
    cursor: Seq<usize>,
    b: Seq<usize>,
    j: int,
)
    requires
        l.wf(),
        l.sorted(),
        l.ncols == j,
        bucket_ok(l, cursor, b, j),
        forall|k: int|
            0 <= k < l.ncols ==> {
                &&& l.start(k) < #[trigger] cursor[k] <= l.end(k)
                &&& l.row_idx@[l.start(k)] == k
                &&& forall|p: int| l.start(k) < p < cursor[k] ==> (#[trigger] l.row_idx@[p]) < j
                &&& cursor[k] < l.end(k) ==> l.row_idx@[cursor[k] as int] >= j
            },
    ensures
        update_order(
            col_maps(l, lv),
            j,
            backwards(b),
        ),
        forall|z: int|
            0 <= z < b.len() ==> (#[trigger] b[z]) < j && cursor[b[z] as int] < l.end(b[z] as int)
                && l.row_idx@[cursor[b[z] as int] as int] == j,
        forall|k: int|
            0 <= k < j && cursor[k] < l.end(k) && !pending(b, b.len() as int, k)
                ==> l.row_idx@[#[trigger] cursor[k] as int] >= j + 1,
{
    let ord = backwards(b);
    let cols = col_maps(l, lv);
    assert forall|z: int| 0 <= z < b.len() implies (#[trigger] b[z]) < j && cursor[b[z] as int]
        < l.end(b[z] as int) && l.row_idx@[cursor[b[z] as int] as int] == j by {
        assert(b.contains(b[z]));
    }
    assert(ord.no_duplicates()) by {
        assert forall|x: int, y: int|
            0 <= x < ord.len() && 0 <= y < ord.len() && x != y implies ord[x] != ord[y] by {
            assert(b[b.len() - 1 - x] != b[b.len() - 1 - y]);
        }
    }
    assert forall|k: int| #[trigger] ord.contains(k) <==> 0 <= k < j && cols[k].dom().contains(
        j,
    ) by {
        if ord.contains(k) {
            let z = choose|z: int| 0 <= z < ord.len() && ord[z] == k;
            assert(b[b.len() - 1 - z] == k);
            assert(l.in_col(cursor[k] as int, k));
            assert(l.has(j, k));
        }
        if 0 <= k < j && cols[k].dom().contains(j) {
            assert(l.has(j, k));
            l.lemma_find(j, k);
            let q = l.find(j, k);
            assert(l.start(k) < cursor[k] <= l.end(k));
            assert(l.sorted_col(k));
            if q >= cursor[k] && q > cursor[k] {
                assert(l.row_idx@[cursor[k] as int] < l.row_idx@[q]);
            }
            assert(q == cursor[k]);
            assert(b.contains(k as usize));
            let z = choose|z: int| 0 <= z < b.len() && b[z] == k as usize;
            assert(ord[b.len() - 1 - z] == k);
        }
    }
    assert forall|k: int| 0 <= k < j && cursor[k] < l.end(k) && !pending(
        b,
        b.len() as int,
        k,
    ) implies l.row_idx@[#[trigger] cursor[k] as int] >= j + 1 by {
        if l.row_idx@[cursor[k] as int] == j {
            assert(b.contains(k as usize));
            let z = choose|z: int| 0 <= z < b.len() && b[z] == k as usize;
            assert(b[z] == k);
        }
    }
}

/// The sum over a prefix does not see what follows.
proof fn lemma_norm_prefix<T: Scalar>(
    norm: RowNorm,
    w: spec_fn(int) -> Option<T>,
    touch: Seq<int>,
    x: int,
    t: int,
)
    requires
        t <= touch.len(),
    ensures
        norm_over(norm, w, touch.push(x), t) == norm_over(norm, w, touch, t),
    decreases t,
{
    if t > 0 {
        lemma_norm_prefix(norm, w, touch, x, t - 1);
    }
}

/// The norm of the working column below row `j`, in the order of `used`.
fn below_norm<T: Scalar>(
    w: &Vec<Option<T>>,
    used: &Vec<usize>,
    j: usize,
    norm: RowNorm,
    Ghost(wf): Ghost<spec_fn(int) -> Option<T>>,
) -> (r: (T::Real, Ghost<Seq<int>>))
    requires
        work_ok(w@, used@),
        forall|i: int| 0 <= i < w@.len() ==> #[trigger] w@[i] == wf(i),
    ensures
        touch_order(wf, w@.len() as int, j as int, r.1@),
        r.1@ == rows_below(used@, j as int),
        r.0 == col_norm(norm, wf, r.1@),
{
    let len: usize = w.len();
    let ghost n = len as int;
    let mut sum: T::Real = T::Real::zero();
    let ghost mut touch: Seq<int> = Seq::empty();
    let mut t: usize = 0;
    while t < used.len()
        invariant
            n == w@.len(),
            work_ok(w@, used@),
            forall|i: int| 0 <= i < n ==> #[trigger] w@[i] == wf(i),
            t <= used@.len(),
            touch.no_duplicates(),
            touch == rows_below(used@.subrange(0, t as int), j as int),
            forall|i: int| #[trigger]
                touch.contains(i) <==> i > j && exists|z: int|
                    0 <= z < t && #[trigger] used@[z] == i,
            sum == norm_over(norm, wf, touch, touch.len() as int),
        decreases used.len() - t,
    {
        let i: usize = used[t];
        let ghost ii = i as int;
        let ghost touch0 = touch;
        proof {
            assert(used@.contains(used@[t as int]));
            assert(used@.subrange(0, t + 1).drop_last() =~= used@.subrange(0, t as int));
            assert(used@.subrange(0, t + 1).last() == i);
        }
        if i > j {
            if let Some(x) = &w[i] {
                let term: T::Real = match norm {
                    RowNorm::One => x.abs(),
                    RowNorm::Two => x.abs2(),
                };
                sum = sum.add(&term);
                proof {
                    assert(w@[ii] == wf(ii));
                    touch = touch0.push(ii);
                    lemma_norm_prefix(norm, wf, touch0, ii, touch0.len() as int);
                    assert(touch[touch0.len() as int] == ii);
                    if touch0.contains(ii) {
                        let z = choose|z: int| 0 <= z < t && #[trigger] used@[z] == ii;
                        assert(used@[z] != used@[t as int]);
                    }
                    assert(touch.no_duplicates());
                    assert forall|b: int| #[trigger] touch.contains(b) <==> b > j && exists|z: int|
                        0 <= z < t + 1 && #[trigger] used@[z] == b by {
                        if touch0.contains(b) {
                            let q = choose|q: int| 0 <= q < touch0.len() && touch0[q] == b;
                            assert(touch[q] == b);
                            let z = choose|z: int| 0 <= z < t && #[trigger] used@[z] == b;
                            assert(0 <= z < t + 1 && used@[z] == b);
                        }
                        if b == ii {
                            assert(touch[touch0.len() as int] == b);
                            assert(used@[t as int] == b);
                        }
                        if touch.contains(b) && b != ii {
                            let q = choose|q: int| 0 <= q < touch.len() && touch[q] == b;
                            assert(touch0[q] == b);
                            assert(touch0.contains(b));
                        }
                        if b > j && exists|z: int| 0 <= z < t + 1 && #[trigger] used@[z] == b {
                            let z = choose|z: int| 0 <= z < t + 1 && #[trigger] used@[z] == b;
                            if z < t {
                                assert(touch0.contains(b));
                            }
                        }
                    }
                }
            }
        } else {
            proof {
                assert forall|b: int| #[trigger] touch.contains(b) <==> b > j && exists|z: int|
                    0 <= z < t + 1 && #[trigger] used@[z] == b by {
                    if touch.contains(b) {
                        let z = choose|z: int| 0 <= z < t && #[trigger] used@[z] == b;
                        assert(0 <= z < t + 1 && used@[z] == b);
                    }
                    if b > j && exists|z: int| 0 <= z < t + 1 && #[trigger] used@[z] == b {
                        let z = choose|z: int| 0 <= z < t + 1 && #[trigger] used@[z] == b;
                        assert(z < t);
                        assert(touch.contains(b));
                    }
                }
            }
        }
        t += 1;
    }
    proof {
        assert(used@.subrange(0, t as int) =~= used@);
        assert forall|i: int| #[trigger] touch.contains(i) <==> j < i < n && wf(i) is Some by {
            if touch.contains(i) {
                let z = choose|z: int| 0 <= z < t && #[trigger] used@[z] == i;
                assert(used@.contains(used@[z]));
            }
            if j < i < n && wf(i) is Some {
                assert(w@[i] == wf(i));
                assert(used@.contains(i as usize));
                let z = choose|z: int| 0 <= z < used@.len() && used@[z] == i as usize;
                assert(used@[z] == i);
            }
        }
    }
    let r: T::Real = match norm {
        RowNorm::One => sum,
        RowNorm::Two => sum.sqrt(),
    };
    (r, Ghost(touch))
}

/// The per-column fill budget.
fn per_column_budget<R: RealScalar>(params: &IctParams<R>, nnz: usize, n: usize) -> (r: usize)
    ensures
        r == column_budget(*params, nnz as nat, n as nat),
{
    match &params.fill {
        FillControl::PerRow(p) => *p,
        FillControl::Factor(f) => {
            let d: usize = if n >= 1 {
                n
            } else {
                1
            };
            let per: R = f.mul(&R::from_ratio(nnz as u64, 1)).div(&R::from_ratio(d as u64, 1));
            let p: usize = per.round_to_usize();
            if p >= 1 {
                p
            } else {
                1
            }
        },
    }
}

/// `l2` and `lv2` extend `l` and `lv` by one column.
spec fn extends<T>(l: CscPattern, lv: Seq<T>, l2: CscPattern, lv2: Seq<T>) -> bool {
    &&& l2.ncols == l.ncols + 1
    &&& l2.nrows == l.nrows
    &&& l.row_idx@.len() <= l2.row_idx@.len()
    &&& lv2.len() == l2.row_idx@.len()
    &&& forall|k: int| 0 <= k <= l.ncols ==> #[trigger] l2.col_ptr@[k] == l.col_ptr@[k]
    &&& forall|p: int| 0 <= p < l.row_idx@.len() ==> #[trigger] l2.row_idx@[p] == l.row_idx@[p]
    &&& forall|p: int| 0 <= p < l.row_idx@.len() ==> #[trigger] lv2[p] == lv[p]
}

/// Earlier columns keep their entries.
proof fn lemma_extend_maps<T: Scalar>(
    l: CscPattern,
    lv: Seq<T>,
    l2: CscPattern,
    lv2: Seq<T>,
    n: int,
    k: int,
)
    requires
        columns_ok(l, n),
        columns_ok(l2, n),
        lv.len() == l.row_idx@.len(),
        extends(l, lv, l2, lv2),
        0 <= k < l.ncols,
    ensures
        col_maps(l2, lv2)[k] == col_maps(l, lv)[k],
{
    l.lemma_col_bounds(k);
    assert(l2.col_ptr@[k] == l.col_ptr@[k]);
    assert(l2.col_ptr@[k + 1] == l.col_ptr@[k + 1]);
    let a = col_maps(l, lv)[k];
    let b = col_maps(l2, lv2)[k];
    assert(l.sorted_col(k));
    assert(l2.sorted_col(k));
    assert forall|i: int| #[trigger] a.dom().contains(i) <==> b.dom().contains(i) by {
        if l.has(i, k) {
            l.lemma_find(i, k);
            let p = l.find(i, k);
            assert(l2.row_idx@[p] == l.row_idx@[p]);
            assert(l2.in_col(p, k));
        }
        if l2.has(i, k) {
            l2.lemma_find(i, k);
            let p = l2.find(i, k);
            assert(l2.row_idx@[p] == l.row_idx@[p]);
            assert(l.in_col(p, k));
        }
    }
    assert forall|i: int| a.dom().contains(i) implies #[trigger] a[i] == b[i] by {
        l.lemma_find(i, k);
        let p = l.find(i, k);
        assert(l2.row_idx@[p] == l.row_idx@[p]);
        assert(l2.in_col(p, k));
        l2.lemma_find_at(p, k);
        assert(lv2[p] == lv[p]);
    }
    assert(a =~= b);
}

/// Appends column `j`: the root of the pivot, then the kept entries divided by
/// it.
fn append_col<T: Scalar>(
    l: &mut CscPattern,
    lv: &mut Vec<T>,
    cursor: &mut Vec<usize>,
    buckets: &mut Vec<Vec<usize>>,
    off: &SparseRow<T>,
    pivot: T,
    Ghost(n): Ghost<int>,
)
    requires
        old(l).ncols < n,
        columns_ok(*old(l), n),
        old(lv)@.len() == old(l).row_idx@.len(),
        cursors_ok(*old(l), old(cursor)@, old(buckets)@, old(l).ncols + 1, n),
        off.wf(n),
        forall|a: int, b: int|
            0 <= a < b < off.idx@.len() ==> #[trigger] off.idx@[a] < #[trigger] off.idx@[b],
        forall|t: int| 0 <= t < off.idx@.len() ==> (#[trigger] off.idx@[t]) > old(l).ncols,
    ensures
        columns_ok(*final(l), n),
        extends(*old(l), old(lv)@, *final(l), final(lv)@),
        cursors_ok(*final(l), final(cursor)@, final(buckets)@, old(l).ncols + 1, n),
        ({
            let j = old(l).ncols as int;
            let col = col_maps(*final(l), final(lv)@)[j];
            &&& col.dom().contains(j)
            &&& col[j] == pivot
            &&& forall|i: int| i != j ==> (#[trigger] col.dom().contains(i)
                <==> off.map().dom().contains(i))
            &&& forall|i: int| #[trigger]
                off.map().dom().contains(i) ==> col[i] == off.map()[i].times(pivot.reciprocal())
            &&& forall|r: int|
                j < r < n ==> (#[trigger] final(buckets)@[r])@ == if next_row(col, j, n) == r {
                    old(buckets)@[r]@.push(old(l).ncols)
                } else {
                    old(buckets)@[r]@
                }
        }),
{
    let ghost l0 = *l;
    let ghost lv0 = lv@;
    let ghost cursor0 = cursor@;
    let ghost buckets0 = buckets@;
    let j: usize = l.ncols;
    let ghost jj = j as int;
    let inv: T = pivot.recip();
    let ghost pv = pivot;
    let mut rows: Vec<usize> = Vec::new();
    rows.push(j);
    lv.push(pivot);
    let mut t: usize = 0;
    while t < off.idx.len()
        invariant
            off.wf(n),
            j < n,
            t <= off.idx@.len(),
            rows@ == seq![j] + off.idx@.subrange(0, t as int),
            lv@.len() == lv0.len() + 1 + t,
            inv == pv.reciprocal(),
            forall|p: int| 0 <= p < lv0.len() ==> #[trigger] lv@[p] == lv0[p],
            lv@[lv0.len() as int] == pv,
            forall|z: int|
                0 <= z < t ==> #[trigger] lv@[lv0.len() + 1 + z] == off.val@[z].times(inv),
        decreases off.idx.len() - t,
    {
        rows.push(off.idx[t]);
        lv.push(off.val[t].mul(&inv));
        proof {
            assert(off.idx@.subrange(0, t + 1) == off.idx@.subrange(0, t as int).push(
                off.idx@[t as int],
            ));
        }
        t += 1;
    }
    proof {
        assert(off.idx@.subrange(0, t as int) == off.idx@);
        assert forall|z: int| 0 <= z < off.idx@.len() implies rows@[z + 1]
            == #[trigger] off.idx@[z] by {}
        assert forall|k: int| 0 <= k < rows@.len() implies (#[trigger] rows@[k]) < l0.nrows by {
            if k > 0 {
                assert(rows@[k] == off.idx@[k - 1]);
            }
        }
    }
    l.append_column(&rows);
    let start: usize = l.col_ptr[j];
    let end: usize = l.col_ptr[j + 1];
    proof {
        l.lemma_col_bounds(jj);
        assert(l.col(jj).len() == rows@.len());
        assert forall|k: int| 0 <= k < rows@.len() implies #[trigger] l.row_idx@[start + k]
            == rows@[k] by {
            assert(l.col(jj)[k] == rows@[k]);
        }
        assert forall|k: int| 0 <= k < l.ncols implies #[trigger] l.sorted_col(k) by {
            assert forall|a: int, b: int|
                l.start(k) <= a < b < l.end(k) implies #[trigger] l.row_idx@[a]
                < #[trigger] l.row_idx@[b] by {
                if k < jj {
                    l0.lemma_col_bounds(k);
                    assert(l.col_ptr@[k] == l0.col_ptr@[k]);
                    assert(l.col_ptr@[k + 1] == l0.col_ptr@[k + 1]);
                    assert(l0.sorted_col(k));
                    assert(l.row_idx@[a] == l0.row_idx@[a]);
                    assert(l.row_idx@[b] == l0.row_idx@[b]);
                } else {
                    let x = a - start;
                    let y = b - start;
                    assert(l.row_idx@[start + x] == rows@[x]);
                    assert(l.row_idx@[start + y] == rows@[y]);
                    assert(rows@[y] == off.idx@[y - 1]);
                    if x > 0 {
                        assert(rows@[x] == off.idx@[x - 1]);
                    }
                }
            }
        }
        assert(l.row_idx@[start + 0] == rows@[0]);
        assert forall|k: int| 0 <= k < l.ncols implies #[trigger] l.start(k) < l.end(k)
            && l.row_idx@[l.start(k)] == k by {
            if k < jj {
                l0.lemma_col_bounds(k);
                assert(l0.start(k) < l0.end(k));
                assert(l.col_ptr@[k] == l0.col_ptr@[k]);
                assert(l.col_ptr@[k + 1] == l0.col_ptr@[k + 1]);
                assert(l.row_idx@[l.start(k)] == l0.row_idx@[l0.start(k)]);
            }
        }
        assert(columns_ok(*l, n));
        assert(extends(l0, lv0, *l, lv@));
        lemma_new_map(*l, lv@, rows@, *off, pv, n, jj);
        assert(l.in_col(start as int, jj));
        lemma_goes_on(*l, lv@, n, jj, start as int);
    }
    cursor.set(j, start + 1);
    if start + 1 < end {
        let nr: usize = l.row_idx[start + 1];
        assert(l.row_idx@[start + 1] == rows@[1]);
        assert(rows@[1] == off.idx@[0]);
        assert(bucket_ok(l0, cursor0, buckets0[nr as int]@, nr as int));
        assert(!buckets0[nr as int]@.contains(j));
        bucket_push(buckets, nr, j);
        proof {
            lemma_push_contains(buckets0[nr as int]@, j);
        }
    }
    proof {
        assert forall|k: int| 0 <= k < l.ncols implies {
            &&& l.start(k) < #[trigger] cursor@[k] <= l.end(k)
            &&& forall|p: int| l.start(k) < p < cursor@[k] ==> (#[trigger] l.row_idx@[p]) < jj + 1
            &&& cursor@[k] < l.end(k) ==> l.row_idx@[cursor@[k] as int] >= jj + 1
        } by {
            if k < jj {
                l0.lemma_col_bounds(k);
                assert(l.col_ptr@[k] == l0.col_ptr@[k]);
                assert(l.col_ptr@[k + 1] == l0.col_ptr@[k + 1]);
                assert(l0.start(k) < cursor0[k] <= l0.end(k));
                assert(cursor@[k] == cursor0[k]);
                assert forall|p: int| l.start(k) < p < cursor@[k] implies (
                #[trigger] l.row_idx@[p]) < jj + 1 by {
                    assert(l.row_idx@[p] == l0.row_idx@[p]);
                }
                if cursor@[k] < l.end(k) {
                    assert(l.row_idx@[cursor@[k] as int] == l0.row_idx@[cursor@[k] as int]);
                }
            } else if start + 1 < end {
                assert(l.row_idx@[start + 1] == rows@[1]);
                assert(rows@[1] == off.idx@[0]);
            }
        }
        assert forall|r: int| jj + 1 <= r < n implies bucket_ok(
            *l,
            cursor@,
            #[trigger] buckets@[r]@,
            r,
        ) by {
            assert(bucket_ok(l0, cursor0, buckets0[r]@, r));
            assert forall|x: usize| #[trigger] buckets@[r]@.contains(x) <==> x < l.ncols
                && cursor@[x as int] < l.end(x as int) && l.row_idx@[cursor@[x as int] as int]
                == r by {
                assert(buckets0[r]@.contains(x) <==> x < l0.ncols && cursor0[x as int] < l0.end(
                    x as int,
                ) && l0.row_idx@[cursor0[x as int] as int] == r);
                if x < j {
                    l0.lemma_col_bounds(x as int);
                    assert(l.col_ptr@[x + 1] == l0.col_ptr@[x + 1]);
                    assert(cursor@[x as int] == cursor0[x as int]);
                    if cursor@[x as int] < l.end(x as int) {
                        assert(l.row_idx@[cursor@[x as int] as int]
                            == l0.row_idx@[cursor@[x as int] as int]);
                    }
                }
            }
        }
    }
}

/// What the appended column stores.
proof fn lemma_new_map<T: Scalar>(
    l: CscPattern,
    lv: Seq<T>,
    rows: Seq<usize>,
    off: SparseRow<T>,
    pivot: T,
    n: int,
    j: int,
)
    requires
        columns_ok(l, n),
        0 <= j < l.ncols,
        lv.len() == l.row_idx@.len(),
        off.wf(n),
        forall|t: int| 0 <= t < off.idx@.len() ==> (#[trigger] off.idx@[t]) > j,
        rows.len() == off.idx@.len() + 1,
        rows[0] == j,
        forall|z: int| 0 <= z < off.idx@.len() ==> rows[z + 1] == #[trigger] off.idx@[z],
        l.end(j) - l.start(j) == rows.len(),
        forall|k: int| 0 <= k < rows.len() ==> #[trigger] l.row_idx@[l.start(j) + k] == rows[k],
        lv[l.start(j)] == pivot,
        forall|z: int|
            0 <= z < off.idx@.len() ==> #[trigger] lv[l.start(j) + 1 + z] == off.val@[z].times(
                pivot.reciprocal(),
            ),
    ensures
        ({
            let col = col_maps(l, lv)[j];
            &&& col.dom().contains(j)
            &&& col[j] == pivot
            &&& forall|i: int| i != j ==> (#[trigger] col.dom().contains(i)
                <==> off.map().dom().contains(i))
            &&& forall|i: int| #[trigger]
                off.map().dom().contains(i) ==> col[i] == off.map()[i].times(pivot.reciprocal())
        }),
{
    let col = col_maps(l, lv)[j];
    let s = l.start(j);
    l.lemma_col_bounds(j);
    assert(l.sorted_col(j));
    assert(l.in_col(s, j));
    assert(l.row_idx@[s + 0] == rows[0]);
    l.lemma_find_at(s, j);
    assert forall|i: int| #[trigger] off.map().dom().contains(i) implies col.dom().contains(i)
        && col[i] == off.map()[i].times(pivot.reciprocal()) by {
        let z = slot(off.idx@, i);
        assert(listed(off.idx@, i));
        assert(0 <= z < off.idx@.len() && off.idx@[z] == i);
        off.lemma_map_at(n, z);
        let p = s + (z + 1);
        assert(l.row_idx@[s + (z + 1)] == rows[z + 1]);
        assert(l.in_col(p, j));
        l.lemma_find_at(p, j);
        assert(lv[s + 1 + z] == off.val@[z].times(pivot.reciprocal()));
    }
    assert forall|i: int| i != j implies (#[trigger] col.dom().contains(i)
        <==> off.map().dom().contains(i)) by {
        if col.dom().contains(i) {
            l.lemma_find(i, j);
            let k = l.find(i, j) - s;
            assert(l.row_idx@[s + k] == rows[k]);
            if k > 0 {
                assert(off.idx@[k - 1] == i);
                assert(listed(off.idx@, i));
            }
        }
    }
}

/// Puts together what was established for column `j`.
proof fn lemma_column_built<T: Scalar>(
    a: CscRef<'_, T>,
    params: IctParams<T::Tuning>,
    w: Seq<Option<T>>,
    ident: Seq<usize>,
    cols: Seq<Map<int, T>>,
    cols2: Seq<Map<int, T>>,
    ord: Seq<int>,
    seen: Seq<usize>,
    off: Map<int, T>,
    tau: T::Real,
    p: nat,
    j: int,
)
    requires
        0 <= j < a.pattern.ncols,
        w.len() == a.pattern.ncols,
        ident.len() == w.len(),
        forall|k: int| 0 <= k < ident.len() ==> #[trigger] ident[k] == k,
        p == column_budget(params, a.pattern.row_idx@.len(), a.pattern.ncols as nat),
        forall|k: int| 0 <= k < j ==> #[trigger] cols[k] == cols2[k],
        update_order(cols, j, ord),
        ord == update_seq(cols, a.pattern.ncols as int, j),
        seen == col_scan(a, cols, ord, j),
        forall|t: int| 0 <= t < seen.len() ==> (#[trigger] seen[t]) < a.pattern.ncols,
        forall|i: int| 0 <= i < w.len() ==> #[trigger] w[i] == updated(a, cols, ord, j)(i),
        touch_order(updated(a, cols, ord, j), a.pattern.ncols as int, j, rows_below(seen, j)),
        tau == T::tuned(params.drop_tol).times(
            col_norm(params.norm, updated(a, cols, ord, j), rows_below(seen, j)),
        ),
        T::Real::null().below(value_or_null(w[j]).real_part()),
        keeps_largest(
            side_candidates(w, ident, j, false, tau),
            off,
            p,
            a.pattern.ncols as int,
        ),
        keeps_first(side_candidates(w, ident, j, false, tau), seen, off, p),
        ({
            let pivot = T::embed(value_or_null(w[j]).real_part().root());
            &&& cols2[j].dom().contains(j)
            &&& cols2[j][j] == pivot
            &&& forall|i: int| i != j ==> (#[trigger] cols2[j].dom().contains(i)
                <==> off.dom().contains(i))
            &&& forall|i: int| #[trigger]
                off.dom().contains(i) ==> cols2[j][i] == off[i].times(pivot.reciprocal())
        }),
        !off.dom().contains(j),
    ensures
        column_done(a, params, cols2, j),
{
    let n = a.pattern.ncols as int;
    lemma_order_prefix(cols, cols2, j, ord);
    lemma_orders_prefix(a, cols, cols2, j);
    let u = updated(a, cols, ord, j);
    let u2 = updated(a, cols2, ord, j);
    assert forall|i: int| #[trigger] u(i) == u2(i) by {
        lemma_col_acc_prefix(source_col(a, j), cols, cols2, ord, j, ord.len() as int, i);
    }
    assert(u =~= u2);
    assert(w[j] == u2(j));
    let side = side_candidates(w, ident, j, false, tau);
    let cand = column_candidates(u2, tau, j);
    assert forall|i: int| 0 <= i < n implies #[trigger] cand(i) == side(i) by {
        assert(w[i] == u2(i));
        assert(ident[i] == i);
    }
    lemma_keeps_agree(side, cand, off, p, n);
    assert forall|t: int| 0 <= t < seen.len() implies side((#[trigger] seen[t]) as int) == cand(
        seen[t] as int,
    ) by {
        assert(0 <= seen[t] < n);
    }
    lemma_ranked_agree(side, cand, seen);
    let kept = kept_rows(cols2[j], u2, j);
    assert forall|i: int| #[trigger] kept.dom().contains(i) <==> off.dom().contains(i) by {
        if i != j {
            assert(cols2[j].dom().contains(i) <==> off.dom().contains(i));
        }
    }
    assert forall|i: int| kept.dom().contains(i) implies #[trigger] kept[i] == off[i] by {
        assert(off.dom().contains(i));
        assert(cand(i) == Some(off[i]));
    }
    assert(kept =~= off);
    let pivot = T::embed(value_or_null(w[j]).real_part().root());
    assert forall|i: int| #[trigger] cols2[j].dom().contains(i) && i != j implies cols2[j][i]
        == value_or_null(u2(i)).times(pivot.reciprocal()) by {
        assert(off.dom().contains(i));
        assert(cand(i) == Some(off[i]));
    }
    assert(column_built(a, params, cols2, ord, seen, j));
}

/// The threshold factorisation of the lower triangle of `a`, with the column that
/// stopped it, if one did.
fn factor<T: Scalar>(a: CscRef<'_, T>, params: &IctParams<T::Tuning>) -> (r: (
    CscPattern,
    Vec<T>,
    Option<usize>,
))
    requires
        a.wf(),
        a.pattern.nrows == a.pattern.ncols,
    ensures
        match r.2 {
            None => {
                &&& lower_ok(r.0, a.pattern.ncols as int)
                &&& r.1@.len() == r.0.row_idx@.len()
                &&& columns_done(a, *params, col_maps(r.0, r.1@), a.pattern.ncols as int)
            },
            Some(col) => {
                &&& col < a.pattern.ncols
                &&& stuck_with(a, *params, r.0, r.1@, col as int)
            },
        },
{
    let n: usize = a.pattern.ncols;
    let p: usize = per_column_budget(params, a.pattern.row_idx.len(), n);
    let drop_tol: T::Real = T::from_tuning(&params.drop_tol);
    let mut l: CscPattern = CscPattern::empty(n);
    let mut lv: Vec<T> = Vec::new();
    let mut w: Vec<Option<T>> = Vec::with_capacity(n);
    let mut used: Vec<usize> = Vec::new();
    let mut ident: Vec<usize> = Vec::with_capacity(n);
    let mut cursor: Vec<usize> = Vec::with_capacity(n);
    let mut buckets: Vec<Vec<usize>> = Vec::with_capacity(n);
    let mut k: usize = 0;
    while k < n
        invariant
            k <= n,
            w@.len() == k,
            ident@.len() == k,
            cursor@.len() == k,
            buckets@.len() == k,
            forall|i: int| 0 <= i < k ==> #[trigger] w@[i] is None,
            forall|i: int| 0 <= i < k ==> #[trigger] ident@[i] == i,
            forall|i: int| 0 <= i < k ==> (#[trigger] buckets@[i])@.len() == 0,
        decreases n - k,
    {
        w.push(None);
        ident.push(k);
        cursor.push(0);
        buckets.push(Vec::new());
        k += 1;
    }
    proof {
        assert forall|r: int| 0 <= r < n implies bucket_ok(l, cursor@, #[trigger] buckets@[r]@, r) by {
            assert(buckets@[r]@.len() == 0);
        }
        assert forall|r: int| 0 <= r < n implies (#[trigger] buckets@[r])@ == waiting(
            col_maps(l, lv@),
            n as int,
            0,
            r,
        ) by {
            assert(buckets@[r]@ =~= Seq::<usize>::empty());
        }
        assert(inverse_perms(ident@, ident@, n as int));
    }
    let mut j: usize = 0;
    while j < n
        invariant
            n == a.pattern.ncols,
            a.wf(),
            a.pattern.nrows == n,
            p == column_budget(*params, a.pattern.row_idx@.len(), n as nat),
            drop_tol == T::tuned(params.drop_tol),
            j <= n,
            columns_ok(l, n as int),
            l.ncols == j,
            lv@.len() == l.row_idx@.len(),
            cursors_ok(l, cursor@, buckets@, j as int, n as int),
            buckets_are(col_maps(l, lv@), buckets@, j as int, n as int),
            inverse_perms(ident@, ident@, n as int),
            columns_done(a, *params, col_maps(l, lv@), j as int),
            w@.len() == n,
            forall|i: int| 0 <= i < n ==> #[trigger] w@[i] is None,
            used@.len() == 0,
            ident@.len() == n,
            forall|i: int| 0 <= i < n ==> #[trigger] ident@[i] == i,
        decreases n - j,
    {
        let ghost jj = j as int;
        let ghost l0 = l;
        let ghost lv0 = lv@;
        let ghost cols = col_maps(l, lv@);
        scatter_col(a, j, &mut w, &mut used);
        let Ghost(ord): Ghost<Seq<int>> = apply_updates(
            &l,
            &lv,
            &mut cursor,
            &mut buckets,
            j,
            &mut w,
            &mut used,
            Ghost(source_col(a, jj)),
        );
        let ghost wf = updated(a, cols, ord, jj);
        assert forall|i: int| 0 <= i < n implies #[trigger] w@[i] == wf(i) by {}
        let diag: T = match &w[j] {
            Some(x) => x.copy(),
            None => T::zero(),
        };
        let pivot_real: T::Real = diag.re();
        if !T::Real::zero().lt(&pivot_real) {
            proof {
                assert(w@[jj] == wf(jj));
                assert(!T::Real::null().below(pivot_of(a, cols, jj)));
            }
            return (l, lv, Some(j));
        }
        let pivot: T = T::from_real(&pivot_real.sqrt());
        let (norm, Ghost(touch)): (T::Real, Ghost<Seq<int>>) = below_norm(
            &w,
            &used,
            j,
            params.norm,
            Ghost(wf),
        );
        let tau: T::Real = drop_tol.mul(&norm);
        proof {
            assert forall|c: usize| #[trigger] used@.contains(c) implies c < w@.len() by {}
            assert forall|c: int| 0 <= c < w@.len() && #[trigger] w@[c] is Some implies
                used@.contains(c as usize) by {}
        }
        let off: SparseRow<T> = select_side(&w, &used, &ident, &ident, j, false, &tau, p);
        proof {
            assert forall|t: int| 0 <= t < off.idx@.len() implies (#[trigger] off.idx@[t]) > j by {
                assert(on_side(ident@, jj, false, off.idx@[t] as int));
            }
            assert forall|x: int, y: int| 0 <= x < y < off.idx@.len() implies #[trigger] off.idx@[x]
                < #[trigger] off.idx@[y] by {
                assert(ident@[off.idx@[x] as int] < ident@[off.idx@[y] as int]);
            }
            if off.map().dom().contains(jj) {
                let z = slot(off.idx@, jj);
                assert(listed(off.idx@, jj));
                assert(0 <= z < off.idx@.len() && off.idx@[z] == jj);
            }
        }
        let ghost buckets0 = buckets@;
        append_col(&mut l, &mut lv, &mut cursor, &mut buckets, &off, pivot, Ghost(n as int));
        proof {
            let cols2 = col_maps(l, lv@);
            assert forall|k: int| 0 <= k < jj implies #[trigger] cols[k] == cols2[k] by {
                lemma_extend_maps(l0, lv0, l, lv@, n as int, k);
            }
            assert forall|r: int| jj + 1 <= r < n implies (#[trigger] buckets@[r])@ == waiting(
                cols2,
                n as int,
                jj + 1,
                r,
            ) by {
                assert(buckets0[r]@ == waiting(cols, n as int, jj, r) + moved_on(
                    cols,
                    ord,
                    jj,
                    r,
                    n as int,
                    ord.len() as int,
                ));
                lemma_waiting_prefix(cols, cols2, n as int, jj, r);
                lemma_waiting_prefix(cols, cols2, n as int, jj, jj);
                lemma_update_members(cols, n as int, jj);
                assert forall|s: int| 0 <= s < ord.len() implies cols[#[trigger] ord[s]]
                    == cols2[ord[s]] by {
                    assert(0 <= ord[s] < jj);
                }
                lemma_moved_prefix(cols, cols2, ord, jj, r, n as int, ord.len() as int);
            }
            assert forall|t: int| 0 <= t < used@.len() implies (#[trigger] used@[t]) < n by {
                assert(used@.contains(used@[t]));
            }
            lemma_column_built(
                a,
                *params,
                w@,
                ident@,
                cols,
                cols2,
                ord,
                used@,
                off.map(),
                tau,
                p as nat,
                jj,
            );
            assert forall|k: int| 0 <= k < jj + 1 implies #[trigger] column_done(
                a,
                *params,
                cols2,
                k,
            ) by {
                if k < jj {
                    assert(column_done(a, *params, cols, k));
                    lemma_column_prefix(a, *params, cols, cols2, k);
                }
            }
        }
        let ghost w1 = w@;
        let mut t: usize = 0;
        while t < used.len()
            invariant
                n == w@.len(),
                w1.len() == n,
                t <= used@.len(),
                forall|c: usize| #[trigger] used@.contains(c) ==> c < n,
                forall|z: int| 0 <= z < t ==> w@[(#[trigger] used@[z]) as int] is None,
                forall|c: int| 0 <= c < n ==> #[trigger] w@[c] == w1[c] || w@[c] is None,
            decreases used.len() - t,
        {
            let c: usize = used[t];
            assert(used@.contains(used@[t as int]));
            w.set(c, None);
            proof {
                assert forall|z: int| 0 <= z < t + 1 implies w@[(
                #[trigger] used@[z]) as int] is None by {
                    assert(used@.contains(used@[z]));
                }
            }
            t += 1;
        }
        proof {
            assert forall|c: int| 0 <= c < n implies #[trigger] w@[c] is None by {
                if w@[c] is Some {
                    assert(w1[c] is Some);
                    assert(used@.contains(c as usize));
                    let z = choose|z: int| 0 <= z < used@.len() && used@[z] == c as usize;
                    assert(w@[used@[z] as int] is None);
                }
            }
        }
        used.clear();
        j += 1;
    }
    (l, lv, None)
}

/// Numeric ICT factor of a Hermitian positive-definite CSC matrix `A`.
///
/// Stores the lower-triangular factor `L` (diagonal first per column) such that
/// `L L^H` approximates `A`.
#[derive(Debug, Clone)]
pub struct Ict<T: Scalar> {
    pub dim: usize,
    pub params: IctParams<T::Tuning>,
    /// `L`'s pattern. The diagonal is stored *first* in each column.
    pub l: CscPattern,
    pub l_values: Vec<T>,
}

/// What building a factor of `a` with `params` comes to.
pub open spec fn built<T: Scalar>(
    a: CscRef<'_, T>,
    params: IctParams<T::Tuning>,
    r: Result<Ict<T>, IctError>,
) -> bool {
    if !params.drop_tol_ok() {
        r matches Err(e) && e == IctError::InvalidDropTol
    } else if !params.fill_ok() {
        r matches Err(e) && e == IctError::InvalidFillControl
    } else if a.pattern.nrows != a.pattern.ncols {
        r matches Err(e) && e == (IctError::NonSquareMatrix {
            nrows: a.pattern.nrows,
            ncols: a.pattern.ncols,
        })
    } else {
        match r {
            Ok(f) => f.wf() && f.dim == a.pattern.ncols && f.params == params && f.factors(a),
            Err(e) => e matches IctError::NotPositiveDefinite { col } && col < a.pattern.ncols
                && stuck_at(a, params, col as int),
        }
    }
}

/// What refactorising `before` against `a` comes to: a factor of `a` with the same
/// parameters, or an error. A matrix of another dimension leaves the factor as it
/// was; a pivot that is not positive leaves the columns before it.
pub open spec fn refactorized<T: Scalar>(
    before: Ict<T>,
    a: CscRef<'_, T>,
    after: Ict<T>,
    r: Result<(), IctError>,
) -> bool {
    &&& after.dim == before.dim
    &&& after.params == before.params
    &&& if a.pattern.nrows != before.dim || a.pattern.ncols != before.dim {
        &&& r == Err::<(), IctError>(IctError::PatternMismatch)
        &&& after == before
    } else {
        match r {
            Ok(_) => after.wf() && after.factors(a),
            Err(e) => {
                &&& e matches IctError::NotPositiveDefinite { col }
                &&& col < before.dim
                &&& stuck_with(a, before.params, after.l, after.l_values@, col as int)
            },
        }
    }
}

impl<T: Scalar> Ict<T> {
    /// The `L` factor.
    pub open spec fn l_model(&self) -> CscModel<T> {
        CscModel { pattern: self.l, values: self.l_values@ }
    }

    pub open spec fn wf(&self) -> bool {
        &&& self.params.usable()
        &&& lower_ok(self.l, self.dim as int)
        &&& self.l_values@.len() == self.l.row_idx@.len()
    }

    /// `self` is the threshold factorisation of `a`.
    pub open spec fn factors(&self, a: CscRef<'_, T>) -> bool {
        columns_done(a, self.params, col_maps(self.l, self.l_values@), self.dim as int)
    }

    /// Build an ICT factor with the default parameters.
    pub fn try_new(a: CscRef<'_, T>) -> (r: Result<Self, IctError>)
        requires
            a.wf(),
        ensures
            exists|params: IctParams<T::Tuning>|
                params.is_default() && #[trigger] built(a, params, r),
    {
        Self::try_new_with_params(a, IctParams::default())
    }

    /// Build an ICT factor with explicit parameters. Only the lower triangle of
    /// `A` is read.
    ///
    /// Out-of-range parameters come first, then a matrix that is not square,
    /// then a pivot that is not positive.
    pub fn try_new_with_params(a: CscRef<'_, T>, params: IctParams<T::Tuning>) -> (r: Result<
        Self,
        IctError,
    >)
        requires
            a.wf(),
        ensures
            built(a, params, r),
    {
        match params.validate() {
            Ok(()) => {},
            Err(e) => {
                return Err(e);
            },
        }
        if a.pattern.nrows != a.pattern.ncols {
            return Err(
                IctError::NonSquareMatrix { nrows: a.pattern.nrows, ncols: a.pattern.ncols },
            );
        }
        let (l, l_values, stopped): (CscPattern, Vec<T>, Option<usize>) = factor(a, &params);
        match stopped {
            None => Ok(Ict { dim: a.pattern.ncols, params, l, l_values }),
            Some(col) => Err(IctError::NotPositiveDefinite { col }),
        }
    }

    /// Refactorise against a new matrix with the same dimension.
    ///
    /// A matrix of another dimension leaves the factor as it was. A pivot that is
    /// not positive leaves the columns before it: such a factor can be
    /// refactorised again, but not applied.
    pub fn refactorize(&mut self, a: CscRef<'_, T>) -> (r: Result<(), IctError>)
        requires
            old(self).params.usable(),
            a.wf(),
        ensures
            refactorized(*old(self), a, *final(self), r),
    {
        if a.pattern.nrows != self.dim || a.pattern.ncols != self.dim {
            return Err(IctError::PatternMismatch);
        }
        let (l, l_values, stopped): (CscPattern, Vec<T>, Option<usize>) = factor(a, &self.params);
        self.l = l;
        self.l_values = l_values;
        match stopped {
            None => Ok(()),
            Some(col) => Err(IctError::NotPositiveDefinite { col }),
        }
    }

    /// Dimension `n` of the factored matrix.
    pub fn dim(&self) -> (r: usize)
        ensures
            r == self.dim,
    {
        self.dim
    }

    /// View over the lower-triangular factor `L` (diagonal first per column).
    pub fn l_view(&self) -> (r: CscRef<'_, T>)
        requires
            self.wf(),
        ensures
            r@ == self.l_model(),
            r.wf(),
    {
        CscRef { pattern: &self.l, values: self.l_values.as_slice() }
    }
}

} // verus!
