//! The orders in which a column takes its updates and meets its rows.
//!
//! Each finished column waits in the bucket of the next row that it stores. When
//! column `j` is formed, the columns in the bucket of row `j` are subtracted from
//! it, last come first, and each moves on to the bucket of its next row. The
//! rows of the column are met in the order of these steps.
use crate::scalar::Scalar;
use crate::sparse::CscRef;
use vstd::prelude::*;

verus! {

/// The first row below `r` that `col` stores, and `n` if there is none.
pub open spec fn next_row<T>(col: Map<int, T>, r: int, n: int) -> int
    decreases n - r,
{
    if r + 1 >= n {
        n
    } else if col.dom().contains(r + 1) {
        r + 1
    } else {
        next_row(col, r + 1, n)
    }
}

/// A bucket is emptied from its end.
pub open spec fn backwards(b: Seq<usize>) -> Seq<int> {
    Seq::new(b.len(), |z: int| b[b.len() - 1 - z] as int)
}

/// Of the first `t` columns in `ord`, those whose next row below `j` is `r`.
pub open spec fn moved_on<T>(
    cols: Seq<Map<int, T>>,
    ord: Seq<int>,
    j: int,
    r: int,
    n: int,
    t: int,
) -> Seq<usize>
    decreases t,
{
    if t <= 0 {
        Seq::empty()
    } else {
        let before = moved_on(cols, ord, j, r, n, t - 1);
        if next_row(cols[ord[t - 1]], j, n) == r {
            before.push(ord[t - 1] as usize)
        } else {
            before
        }
    }
}

/// The columns that wait in the bucket of row `r` when column `j` is formed.
pub open spec fn waiting<T>(cols: Seq<Map<int, T>>, n: int, j: int, r: int) -> Seq<usize>
    decreases j,
{
    if j <= 0 {
        Seq::empty()
    } else {
        let k = j - 1;
        let ord = backwards(waiting(cols, n, k, k));
        let kept = waiting(cols, n, k, r) + moved_on(cols, ord, k, r, n, ord.len() as int);
        if next_row(cols[k], k, n) == r {
            kept.push(k as usize)
        } else {
            kept
        }
    }
}

/// The earlier columns that store row `j`, in the order in which they are
/// subtracted from column `j`.
pub open spec fn update_seq<T>(cols: Seq<Map<int, T>>, n: int, j: int) -> Seq<int> {
    backwards(waiting(cols, n, j, j))
}

/// `s` with `i` at its end, unless it is listed already.
pub open spec fn noted(s: Seq<usize>, i: usize) -> Seq<usize> {
    if s.contains(i) {
        s
    } else {
        s.push(i)
    }
}

/// The rows met in the positions of column `j` of `a` before `p`: the diagonal,
/// then the rows below it as they are stored.
pub open spec fn source_scan<T: Scalar>(a: CscRef<'_, T>, j: int, p: int) -> Seq<usize>
    decreases p - a.pattern.start(j),
{
    if p <= a.pattern.start(j) {
        seq![j as usize]
    } else {
        let before = source_scan(a, j, p - 1);
        if a.pattern.row_idx@[p - 1] >= j {
            noted(before, a.pattern.row_idx@[p - 1])
        } else {
            before
        }
    }
}

/// The rows met after `s` in the rows of `col` from `j` up to `m`.
pub open spec fn rows_scan<T>(s: Seq<usize>, col: Map<int, T>, j: int, m: int) -> Seq<usize>
    decreases m - j,
{
    if m <= j {
        s
    } else {
        let before = rows_scan(s, col, j, m - 1);
        if col.dom().contains(m - 1) {
            noted(before, (m - 1) as usize)
        } else {
            before
        }
    }
}

/// The rows met after `s` in the first `t` of the columns `ord`.
pub open spec fn fill_scan<T>(
    s: Seq<usize>,
    cols: Seq<Map<int, T>>,
    ord: Seq<int>,
    j: int,
    n: int,
    t: int,
) -> Seq<usize>
    decreases t,
{
    if t <= 0 {
        s
    } else {
        rows_scan(fill_scan(s, cols, ord, j, n, t - 1), cols[ord[t - 1]], j, n)
    }
}

/// The rows of column `j` in the order in which they are met.
pub open spec fn col_scan<T: Scalar>(
    a: CscRef<'_, T>,
    cols: Seq<Map<int, T>>,
    ord: Seq<int>,
    j: int,
) -> Seq<usize> {
    fill_scan(
        source_scan(a, j, a.pattern.end(j)),
        cols,
        ord,
        j,
        a.pattern.ncols as int,
        ord.len() as int,
    )
}

/// The rows in `seen` that lie below row `j`.
pub open spec fn rows_below(seen: Seq<usize>, j: int) -> Seq<int>
    decreases seen.len(),
{
    if seen.len() == 0 {
        Seq::empty()
    } else {
        let before = rows_below(seen.drop_last(), j);
        if seen.last() > j {
            before.push(seen.last() as int)
        } else {
            before
        }
    }
}

/// The next row is where the column goes on.
pub proof fn lemma_next_row<T>(col: Map<int, T>, r: int, n: int, m: int)
    requires
        r < m <= n,
        forall|i: int| r < i < m ==> !(#[trigger] col.dom().contains(i)),
        m < n ==> col.dom().contains(m),
    ensures
        next_row(col, r, n) == m,
    decreases m - r,
{
    if r + 1 < n && !col.dom().contains(r + 1) {
        lemma_next_row(col, r + 1, n, m);
    }
}

/// Rows that the column does not store are not met.
pub proof fn lemma_rows_skip<T>(s: Seq<usize>, col: Map<int, T>, j: int, m1: int, m2: int)
    requires
        j <= m1 <= m2,
        forall|i: int| m1 <= i < m2 ==> !(#[trigger] col.dom().contains(i)),
    ensures
        rows_scan(s, col, j, m2) == rows_scan(s, col, j, m1),
    decreases m2 - m1,
{
    if m1 < m2 {
        assert(!col.dom().contains(m2 - 1));
        lemma_rows_skip(s, col, j, m1, m2 - 1);
    }
}

/// What moves on comes from the columns that were subtracted.
proof fn lemma_moved_members<T>(
    cols: Seq<Map<int, T>>,
    ord: Seq<int>,
    j: int,
    r: int,
    n: int,
    t: int,
    b: int,
)
    requires
        t <= ord.len(),
        b <= usize::MAX,
        forall|s: int| 0 <= s < ord.len() ==> 0 <= #[trigger] ord[s] < b,
    ensures
        forall|x: int|
            0 <= x < moved_on(cols, ord, j, r, n, t).len() ==> (#[trigger] moved_on(
                cols,
                ord,
                j,
                r,
                n,
                t,
            )[x]) < b,
    decreases t,
{
    if t > 0 {
        lemma_moved_members(cols, ord, j, r, n, t - 1, b);
        assert(0 <= ord[t - 1] < b);
        let before = moved_on(cols, ord, j, r, n, t - 1);
        let now = moved_on(cols, ord, j, r, n, t);
        assert forall|x: int| 0 <= x < now.len() implies (#[trigger] now[x]) < b by {
            if x < before.len() {
                assert(now[x] == before[x]);
            }
        }
    }
}

/// Only earlier columns wait.
pub proof fn lemma_waiting_members<T>(cols: Seq<Map<int, T>>, n: int, j: int, r: int)
    requires
        0 <= j <= usize::MAX,
    ensures
        forall|x: int|
            0 <= x < waiting(cols, n, j, r).len() ==> (#[trigger] waiting(cols, n, j, r)[x]) < j,
    decreases j,
{
    if j > 0 {
        let k = j - 1;
        lemma_waiting_members(cols, n, k, k);
        lemma_waiting_members(cols, n, k, r);
        let ord = backwards(waiting(cols, n, k, k));
        assert forall|s: int| 0 <= s < ord.len() implies 0 <= #[trigger] ord[s] < k by {
            assert(waiting(cols, n, k, k)[ord.len() - 1 - s] < k);
        }
        lemma_moved_members(cols, ord, k, r, n, ord.len() as int, k);
        let first = waiting(cols, n, k, r);
        let later = moved_on(cols, ord, k, r, n, ord.len() as int);
        assert forall|x: int| 0 <= x < waiting(cols, n, j, r).len() implies (#[trigger] waiting(
            cols,
            n,
            j,
            r,
        )[x]) < j by {
            if x < first.len() {
                assert(first[x] < k);
            } else if x < first.len() + later.len() {
                assert(later[x - first.len()] < k);
            }
        }
    }
}

/// The columns that are subtracted are earlier ones.
pub proof fn lemma_update_members<T>(cols: Seq<Map<int, T>>, n: int, j: int)
    requires
        0 <= j <= usize::MAX,
    ensures
        forall|s: int|
            0 <= s < update_seq(cols, n, j).len() ==> 0 <= #[trigger] update_seq(cols, n, j)[s] < j,
{
    lemma_waiting_members(cols, n, j, j);
    let ord = update_seq(cols, n, j);
    assert forall|s: int| 0 <= s < ord.len() implies 0 <= #[trigger] ord[s] < j by {
        assert(waiting(cols, n, j, j)[ord.len() - 1 - s] < j);
    }
}

/// Where columns go on to depends on those columns alone.
pub proof fn lemma_moved_prefix<T>(
    cols: Seq<Map<int, T>>,
    cols2: Seq<Map<int, T>>,
    ord: Seq<int>,
    j: int,
    r: int,
    n: int,
    t: int,
)
    requires
        t <= ord.len(),
        forall|s: int| 0 <= s < ord.len() ==> cols[#[trigger] ord[s]] == cols2[ord[s]],
    ensures
        moved_on(cols, ord, j, r, n, t) == moved_on(cols2, ord, j, r, n, t),
    decreases t,
{
    if t > 0 {
        lemma_moved_prefix(cols, cols2, ord, j, r, n, t - 1);
        assert(cols[ord[t - 1]] == cols2[ord[t - 1]]);
    }
}

/// What waits depends on the earlier columns alone.
pub proof fn lemma_waiting_prefix<T>(
    cols: Seq<Map<int, T>>,
    cols2: Seq<Map<int, T>>,
    n: int,
    j: int,
    r: int,
)
    requires
        0 <= j <= usize::MAX,
        forall|k: int| 0 <= k < j ==> #[trigger] cols[k] == cols2[k],
    ensures
        waiting(cols, n, j, r) == waiting(cols2, n, j, r),
    decreases j,
{
    if j > 0 {
        let k = j - 1;
        lemma_waiting_prefix(cols, cols2, n, k, k);
        lemma_waiting_prefix(cols, cols2, n, k, r);
        lemma_update_members(cols, n, k);
        let ord = update_seq(cols, n, k);
        assert forall|s: int| 0 <= s < ord.len() implies cols[#[trigger] ord[s]]
            == cols2[ord[s]] by {
            assert(0 <= ord[s] < k);
        }
        lemma_moved_prefix(cols, cols2, ord, k, r, n, ord.len() as int);
        assert(cols[k] == cols2[k]);
    }
}

/// The rows met depend on the columns subtracted alone.
pub proof fn lemma_fill_prefix<T>(
    s: Seq<usize>,
    cols: Seq<Map<int, T>>,
    cols2: Seq<Map<int, T>>,
    ord: Seq<int>,
    j: int,
    n: int,
    t: int,
)
    requires
        t <= ord.len(),
        forall|x: int| 0 <= x < ord.len() ==> cols[#[trigger] ord[x]] == cols2[ord[x]],
    ensures
        fill_scan(s, cols, ord, j, n, t) == fill_scan(s, cols2, ord, j, n, t),
    decreases t,
{
    if t > 0 {
        lemma_fill_prefix(s, cols, cols2, ord, j, n, t - 1);
        assert(cols[ord[t - 1]] == cols2[ord[t - 1]]);
    }
}

/// Both the updates of column `j` and the rows that it meets depend on the
/// earlier columns alone.
pub proof fn lemma_orders_prefix<T: Scalar>(
    a: CscRef<'_, T>,
    cols: Seq<Map<int, T>>,
    cols2: Seq<Map<int, T>>,
    j: int,
)
    requires
        0 <= j <= usize::MAX,
        forall|k: int| 0 <= k < j ==> #[trigger] cols[k] == cols2[k],
    ensures
        ({
            let n = a.pattern.ncols as int;
            let ord = update_seq(cols, n, j);
            &&& ord == update_seq(cols2, n, j)
            &&& col_scan(a, cols, ord, j) == col_scan(a, cols2, ord, j)
            &&& forall|k: int| #[trigger] ord.contains(k) ==> cols[k] == cols2[k]
        }),
{
    let n = a.pattern.ncols as int;
    lemma_waiting_prefix(cols, cols2, n, j, j);
    lemma_update_members(cols, n, j);
    let ord = update_seq(cols, n, j);
    assert forall|s: int| 0 <= s < ord.len() implies cols[#[trigger] ord[s]] == cols2[ord[s]] by {
        assert(0 <= ord[s] < j);
    }
    lemma_fill_prefix(
        source_scan(a, j, a.pattern.end(j)),
        cols,
        cols2,
        ord,
        j,
        n,
        ord.len() as int,
    );
}

} // verus!
