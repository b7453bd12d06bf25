//! Turning rows of labelled entries into column storage.
use vstd::prelude::*;

use super::row::{inverse_perms, listed, slot, SparseRow};
use crate::scalar::Scalar;
use crate::sparse::CscPattern;
use crate::transpose::{is_transpose, lemma_transpose_has, lemma_transpose_sorted, transpose};

verus! {

/// Column `m` of `pt` lists where the entries of `row` go, then the diagonal if
/// `unit` is set, and `flat` holds the values in the same order.
spec fn row_laid<T: Scalar>(
    pt: CscPattern,
    flat: Seq<T>,
    row: SparseRow<T>,
    inv: Seq<usize>,
    unit: bool,
    m: int,
) -> bool {
    let len = row.idx@.len() as int;
    &&& pt.end(m) - pt.start(m) == if unit {
        len + 1
    } else {
        len
    }
    &&& forall|t: int|
        0 <= t < len ==> #[trigger] pt.row_idx@[pt.start(m) + t] == inv[row.idx@[t] as int]
            && flat[pt.start(m) + t] == row.val@[t]
    &&& unit ==> pt.row_idx@[pt.start(m) + len] == m && flat[pt.start(m) + len] == T::unit()
}

/// The entry `(m, position of c)` is stored exactly if row `m` has label `c` (or
/// it is the unit diagonal), with the value that the row has there.
pub open spec fn holds_row<T: Scalar>(
    p: CscPattern,
    vals: Seq<T>,
    row: SparseRow<T>,
    inv: Seq<usize>,
    unit: bool,
    m: int,
) -> bool {
    forall|c: int|
        #![trigger p.has(m, inv[c] as int)]
        #![trigger row.map().dom().contains(c)]
        0 <= c < inv.len() ==> {
            &&& p.has(m, inv[c] as int) <==> row.map().dom().contains(c) || (unit && inv[c] == m)
            &&& row.map().dom().contains(c) ==> vals[p.find(m, inv[c] as int)] == row.map()[c]
            &&& unit && inv[c] == m ==> vals[p.find(m, inv[c] as int)] == T::unit()
        }
}

/// Stores the rows by column: the entry with label `c` of row `m` goes to row
/// `m` of column `perm_inv[c]`. With `unit` set a unit diagonal is added.
pub(crate) fn rows_to_columns<T: Scalar>(
    rows: &Vec<SparseRow<T>>,
    perm: &Vec<usize>,
    perm_inv: &Vec<usize>,
    unit: bool,
) -> (r: (CscPattern, Vec<T>))
    requires
        rows@.len() < usize::MAX,
        inverse_perms(perm@, perm_inv@, rows@.len() as int),
        forall|m: int| 0 <= m < rows@.len() ==> (#[trigger] rows@[m]).wf(rows@.len() as int),
        unit ==> forall|m: int, t: int|
            0 <= m < rows@.len() && 0 <= t < rows@[m].idx@.len() ==> perm_inv@[(
            #[trigger] rows@[m].idx@[t]) as int] != m,
    ensures
        r.0.wf(),
        r.0.sorted(),
        r.0.nrows == rows@.len(),
        r.0.ncols == rows@.len(),
        r.1@.len() == r.0.row_idx@.len(),
        forall|m: int|
            0 <= m < rows@.len() ==> holds_row(
                r.0,
                r.1@,
                #[trigger] rows@[m],
                perm_inv@,
                unit,
                m,
            ),
{
    let n: usize = rows.len();
    let mut pt: CscPattern = CscPattern::empty(n);
    let mut flat: Vec<T> = Vec::new();
    let mut m: usize = 0;
    while m < n
        invariant
            n == rows@.len(),
            m <= n,
            inverse_perms(perm@, perm_inv@, n as int),
            forall|k: int| 0 <= k < n ==> (#[trigger] rows@[k]).wf(n as int),
            unit ==> forall|k: int, t: int|
                0 <= k < n && 0 <= t < rows@[k].idx@.len() ==> perm_inv@[(
                #[trigger] rows@[k].idx@[t]) as int] != k,
            pt.wf(),
            pt.nrows == n,
            pt.ncols == m,
            pt.distinct(),
            flat@.len() == pt.row_idx@.len(),
            forall|k: int|
                0 <= k < m ==> row_laid(pt, flat@, #[trigger] rows@[k], perm_inv@, unit, k),
        decreases n - m,
    {
        let ghost mm = m as int;
        let ghost flat0 = flat@;
        let ghost pt0 = pt;
        let row: &SparseRow<T> = &rows[m];
        let mut cols: Vec<usize> = Vec::new();
        let mut t: usize = 0;
        while t < row.idx.len()
            invariant
                n == rows@.len(),
                mm == m,
                m < n,
                *row == rows@[mm],
                row.wf(n as int),
                inverse_perms(perm@, perm_inv@, n as int),
                t <= row.idx@.len(),
                cols@.len() == t,
                forall|k: int| 0 <= k < t ==> #[trigger] cols@[k] == perm_inv@[row.idx@[k] as int],
                forall|k: int| 0 <= k < t ==> (#[trigger] cols@[k]) < n,
                flat@.len() == flat0.len() + t,
                forall|k: int| 0 <= k < flat0.len() ==> #[trigger] flat@[k] == flat0[k],
                forall|k: int| 0 <= k < t ==> #[trigger] flat@[flat0.len() + k] == row.val@[k],
            decreases row.idx.len() - t,
        {
            let c: usize = row.idx[t];
            assert(row.idx@[t as int] < n);
            cols.push(perm_inv[c]);
            flat.push(row.val[t].copy());
            t += 1;
        }
        if unit {
            cols.push(m);
            flat.push(T::one());
        }
        proof {
            assert(cols@.no_duplicates()) by {
                assert forall|a: int, b: int|
                    0 <= a < cols@.len() && 0 <= b < cols@.len() && a != b implies cols@[a]
                    != cols@[b] by {
                    if a < t {
                        assert(cols@[a] == perm_inv@[row.idx@[a] as int]);
                        assert(row.idx@[a] < n);
                        assert(perm@[perm_inv@[row.idx@[a] as int] as int] == row.idx@[a]);
                        assert(perm_inv@[rows@[mm].idx@[a] as int] != mm || !unit);
                    }
                    if b < t {
                        assert(cols@[b] == perm_inv@[row.idx@[b] as int]);
                        assert(row.idx@[b] < n);
                        assert(perm@[perm_inv@[row.idx@[b] as int] as int] == row.idx@[b]);
                        assert(perm_inv@[rows@[mm].idx@[b] as int] != mm || !unit);
                    }
                }
            }
        }
        pt.append_column(&cols);
        proof {
            assert(pt.end(mm) == pt0.row_idx@.len() + cols@.len());
            assert forall|k: int| 0 <= k < m + 1 implies row_laid(
                pt,
                flat@,
                #[trigger] rows@[k],
                perm_inv@,
                unit,
                k,
            ) by {
                if k < m {
                    assert(row_laid(pt0, flat0, rows@[k], perm_inv@, unit, k));
                    pt0.lemma_col_bounds(k);
                    assert(pt.col_ptr@[k] == pt0.col_ptr@[k]);
                    assert(pt.col_ptr@[k + 1] == pt0.col_ptr@[k + 1]);
                    let len = rows@[k].idx@.len() as int;
                    assert forall|t: int| 0 <= t < len implies #[trigger] pt.row_idx@[pt.start(k)
                        + t] == perm_inv@[rows@[k].idx@[t] as int] && flat@[pt.start(k) + t]
                        == rows@[k].val@[t] by {
                        assert(pt0.row_idx@[pt0.start(k) + t] == perm_inv@[rows@[k].idx@[t] as int]);
                        assert(flat@[pt.start(k) + t] == flat0[pt.start(k) + t]);
                    }
                    if unit {
                        assert(pt.row_idx@[pt.start(k) + len] == pt0.row_idx@[pt0.start(k) + len]);
                        assert(flat@[pt.start(k) + len] == flat0[pt.start(k) + len]);
                    }
                } else {
                    let len = row.idx@.len() as int;
                    assert(pt.start(mm) == flat0.len());
                    assert forall|t: int| 0 <= t < len implies #[trigger] pt.row_idx@[pt.start(mm)
                        + t] == perm_inv@[row.idx@[t] as int] && flat@[pt.start(mm) + t]
                        == row.val@[t] by {
                        assert(pt.row_idx@[pt.start(mm) + t] == cols@[t]);
                        assert(flat@[flat0.len() + t] == row.val@[t]);
                    }
                    if unit {
                        assert(pt.row_idx@[pt.start(mm) + len] == cols@[len]);
                    }
                }
            }
            assert forall|k: int, p: int, q: int|
                0 <= k < pt.ncols && #[trigger] pt.in_col(p, k) && #[trigger] pt.in_col(q, k) && p
                    != q implies pt.row_idx@[p] != pt.row_idx@[q] by {
                if k < m {
                    pt0.lemma_col_bounds(k);
                    assert(pt.col_ptr@[k] == pt0.col_ptr@[k]);
                    assert(pt.col_ptr@[k + 1] == pt0.col_ptr@[k + 1]);
                    assert(pt0.in_col(p, k) && pt0.in_col(q, k));
                    assert(pt.row_idx@[p] == pt0.row_idx@[p]);
                    assert(pt.row_idx@[q] == pt0.row_idx@[q]);
                } else {
                    let s = pt.start(mm);
                    assert(pt.row_idx@[p] == cols@[p - s]);
                    assert(pt.row_idx@[q] == cols@[q - s]);
                }
            }
        }
        m += 1;
    }
    let (q, order): (CscPattern, Vec<usize>) = transpose(&pt);
    proof {
        lemma_transpose_sorted(pt, q, order@);
        assert(q.col_ptr@[q.ncols as int] == q.row_idx@.len());
    }
    let mut vals: Vec<T> = Vec::with_capacity(order.len());
    let mut s: usize = 0;
    while s < order.len()
        invariant
            s <= order@.len(),
            vals@.len() == s,
            order@.len() == q.row_idx@.len(),
            flat@.len() == pt.row_idx@.len(),
            is_transpose(pt, q, order@),
            q.wf(),
            forall|k: int| 0 <= k < s ==> #[trigger] vals@[k] == flat@[order@[k] as int],
        decreases order.len() - s,
    {
        proof {
            lemma_position_has_column(q, s as int);
            let j = choose|j: int| 0 <= j < q.ncols && #[trigger] q.in_col(s as int, j);
            assert(q.in_col(s as int, j));
        }
        let x: T = flat[order[s]].copy();
        vals.push(x);
        s += 1;
    }
    proof {
        assert forall|m: int| 0 <= m < n implies holds_row(
            q,
            vals@,
            #[trigger] rows@[m],
            perm_inv@,
            unit,
            m,
        ) by {
            assert(row_laid(pt, flat@, rows@[m], perm_inv@, unit, m));
            lemma_holds_row(
                pt,
                flat@,
                q,
                order@,
                vals@,
                rows@[m],
                perm@,
                perm_inv@,
                unit,
                n as int,
                m,
            );
        }
    }
    (q, vals)
}

/// Every position of a pattern lies in a column.
pub proof fn lemma_position_has_column(p: CscPattern, s: int)
    requires
        p.wf(),
        0 <= s < p.row_idx@.len(),
    ensures
        exists|j: int| 0 <= j < p.ncols && #[trigger] p.in_col(s, j),
{
    lemma_column_below(p, s, p.ncols as int);
}

proof fn lemma_column_below(p: CscPattern, s: int, j: int)
    requires
        p.wf(),
        0 <= j <= p.ncols,
        0 <= s < p.col_ptr@[j],
    ensures
        exists|k: int| 0 <= k < j && #[trigger] p.in_col(s, k),
    decreases j,
{
    if j > 0 {
        if s < p.col_ptr@[j - 1] {
            lemma_column_below(p, s, j - 1);
            let k = choose|k: int| 0 <= k < j - 1 && #[trigger] p.in_col(s, k);
            assert(p.in_col(s, k));
        } else {
            assert(p.in_col(s, j - 1));
        }
    }
}

proof fn lemma_holds_row<T: Scalar>(
    pt: CscPattern,
    flat: Seq<T>,
    q: CscPattern,
    order: Seq<usize>,
    vals: Seq<T>,
    row: SparseRow<T>,
    perm: Seq<usize>,
    inv: Seq<usize>,
    unit: bool,
    n: int,
    m: int,
)
    requires
        pt.wf(),
        pt.nrows == n,
        pt.ncols == n,
        pt.distinct(),
        is_transpose(pt, q, order),
        inverse_perms(perm, inv, n),
        row.wf(n),
        0 <= m < n,
        row_laid(pt, flat, row, inv, unit, m),
        vals.len() == order.len(),
        forall|k: int| 0 <= k < order.len() ==> #[trigger] vals[k] == flat[order[k] as int],
    ensures
        holds_row(q, vals, row, inv, unit, m),
{
    pt.lemma_col_bounds(m);
    assert forall|c: int|
        #![trigger q.has(m, inv[c] as int)]
        #![trigger row.map().dom().contains(c)]
        0 <= c < inv.len() implies {
        &&& q.has(m, inv[c] as int) <==> row.map().dom().contains(c) || (unit && inv[c] == m)
        &&& row.map().dom().contains(c) ==> vals[q.find(m, inv[c] as int)] == row.map()[c]
        &&& unit && inv[c] == m ==> vals[q.find(m, inv[c] as int)] == T::unit()
    } by {
        let j = inv[c] as int;
        let len = row.idx@.len() as int;
        assert(perm[inv[c] as int] == c);
        lemma_transpose_has(pt, q, order, j, m);
        if row.map().dom().contains(c) {
            let t = slot(row.idx@, c);
            assert(listed(row.idx@, c));
            assert(0 <= t < len && row.idx@[t] == c);
            assert(pt.row_idx@[pt.start(m) + t] == j);
            assert(pt.in_col(pt.start(m) + t, m));
            assert(pt.has(j, m));
        }
        if unit && inv[c] == m {
            assert(pt.in_col(pt.start(m) + len, m));
            assert(pt.has(j, m));
        }
        if q.has(m, j) {
            q.lemma_find(m, j);
            let s = q.find(m, j);
            q.lemma_col_bounds(j);
            let p = order[s] as int;
            assert(pt.in_col(p, m) && pt.row_idx@[p] == j);
            let t = p - pt.start(m);
            if t < len {
                assert(pt.row_idx@[pt.start(m) + t] == inv[row.idx@[t] as int]);
                assert(row.idx@[t] < n);
                assert(perm[inv[row.idx@[t] as int] as int] == row.idx@[t]);
                assert(row.idx@[t] == c);
                row.lemma_map_at(n, t);
                assert(vals[s] == flat[p]);
                if unit && inv[c] == m {
                    assert(pt.row_idx@[pt.start(m) + len] == j);
                    assert(pt.in_col(pt.start(m) + len, m));
                }
            } else {
                assert(unit && t == len);
                assert(inv[c] == m);
                if row.map().dom().contains(c) {
                    let t2 = slot(row.idx@, c);
                    assert(pt.row_idx@[pt.start(m) + t2] == j);
                    assert(pt.in_col(pt.start(m) + t2, m));
                }
            }
        }
    }
}

} // verus!
