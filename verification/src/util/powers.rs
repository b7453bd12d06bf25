//! Sparsity patterns of matrix powers.
use crate::heap::sort_ascending;
use crate::sparse::{stored, CscPattern};
use crate::transpose::{is_transpose, lemma_transpose_has};
use vstd::prelude::*;

verus! {

/// The pattern of `A^k`, for `k >= 1`: `(r, c)` is in it when a path of `k`
/// stored entries leads from column `c` to row `r`.
pub open spec fn reaches(p: CscPattern, k: int, r: int, c: int) -> bool
    decreases k,
{
    if k <= 1 {
        stored(p)(r, c)
    } else {
        exists|m: int| #[trigger] links(p, r, m) && reaches(p, k - 1, m, c)
    }
}

/// Entry `(r, m)` is stored.
pub open spec fn links(p: CscPattern, r: int, m: int) -> bool {
    stored(p)(r, m)
}

/// `v` is strictly ascending.
pub open spec fn ascending(v: Seq<usize>) -> bool {
    forall|x: int, y: int| 0 <= x < y < v.len() ==> #[trigger] v[x] < #[trigger] v[y]
}

/// `v` lists the rows of column `c` of the pattern of `A^k`, ascending.
pub open spec fn is_power_column(p: CscPattern, k: int, c: int, v: Seq<usize>) -> bool {
    &&& ascending(v)
    &&& forall|r: usize| #[trigger] v.contains(r) <==> reaches(p, k, r as int, c)
}

/// The rows of a reached column lie within the matrix.
pub proof fn lemma_reaches_bounds(p: CscPattern, k: int, r: int, c: int)
    requires
        reaches(p, k, r, c),
    ensures
        0 <= r < p.nrows,
{
    if k > 1 {
        let m = choose|m: int| #[trigger] links(p, r, m) && reaches(p, k - 1, m, c);
        assert(links(p, r, m));
    }
}

/// A path grows by one stored entry.
pub proof fn lemma_reaches_step(p: CscPattern, k: int, r: int, m: int, c: int)
    requires
        k >= 1,
        reaches(p, k, m, c),
        stored(p)(r, m),
    ensures
        reaches(p, k + 1, r, c),
{
    assert(links(p, r, m));
}

/// The last entry of a path.
pub proof fn lemma_reaches_last(p: CscPattern, k: int, r: int, c: int) -> (m: int)
    requires
        k >= 1,
        reaches(p, k + 1, r, c),
    ensures
        reaches(p, k, m, c),
        stored(p)(r, m),
{
    let m = choose|m: int| #[trigger] links(p, r, m) && reaches(p, (k + 1) - 1, m, c);
    assert(links(p, r, m));
    m
}

/// The rows of column `c`, ascending.
fn sorted_rows(p: &CscPattern, c: usize) -> (v: Vec<usize>)
    requires
        p.wf(),
        p.distinct(),
        c < p.ncols,
    ensures
        is_power_column(*p, 1, c as int, v@),
{
    let ghost cc = c as int;
    let s: usize = p.col_ptr[c];
    let e: usize = p.col_ptr[c + 1];
    proof {
        p.lemma_col_bounds(cc);
    }
    let mut v: Vec<usize> = Vec::with_capacity(e - s);
    let mut q: usize = s;
    while q < e
        invariant
            p.wf(),
            s == p.start(cc),
            e == p.end(cc),
            s <= q <= e,
            e <= p.row_idx@.len(),
            v@.len() == q - s,
            forall|x: int| 0 <= x < q - s ==> #[trigger] v@[x] == p.row_idx@[s + x],
        decreases e - q,
    {
        v.push(p.row_idx[q]);
        q += 1;
    }
    proof {
        assert(v@.no_duplicates()) by {
            assert forall|x: int, y: int|
                0 <= x < v@.len() && 0 <= y < v@.len() && x != y implies v@[x] != v@[y] by {
                assert(p.in_col(s + x, cc) && p.in_col(s + y, cc));
            }
        }
        assert forall|r: usize| #[trigger] v@.contains(r) <==> reaches(*p, 1, r as int, cc) by {
            if v@.contains(r) {
                let x = choose|x: int| 0 <= x < v@.len() && v@[x] == r;
                assert(p.in_col(s + x, cc));
                assert(p.row_idx@[s + x] == r);
                assert(p.has(r as int, cc));
            }
            if stored(*p)(r as int, cc) {
                p.lemma_find(r as int, cc);
                let y = p.find(r as int, cc) - s;
                assert(v@[y] == r);
            }
        }
    }
    sort_ascending(&mut v);
    v
}

/// Some column in `cols` stores row `r`.
pub open spec fn covers(p: CscPattern, cols: Seq<usize>, r: int) -> bool {
    exists|y: int| 0 <= y < cols.len() && #[trigger] links(p, r, cols[y] as int)
}

/// `v` lists the rows that the columns in `cols` store, ascending.
pub open spec fn is_union(p: CscPattern, cols: Seq<usize>, v: Seq<usize>) -> bool {
    &&& ascending(v)
    &&& forall|r: usize| #[trigger] v.contains(r) <==> covers(p, cols, r as int)
}

/// The rows that the columns in `cols` store, ascending. `marker` must not hold
/// the mark `tag` yet.
pub fn union_rows(
    p: &CscPattern,
    cols: &Vec<usize>,
    tag: usize,
    marker: &mut Vec<usize>,
) -> (v: Vec<usize>)
    requires
        p.wf(),
        old(marker)@.len() == p.nrows,
        forall|y: int| 0 <= y < cols@.len() ==> (#[trigger] cols@[y]) < p.ncols,
        forall|r: int| 0 <= r < p.nrows ==> #[trigger] old(marker)@[r] != tag,
    ensures
        is_union(*p, cols@, v@),
        final(marker)@.len() == p.nrows,
        forall|r: int|
            0 <= r < p.nrows ==> (#[trigger] final(marker)@[r] == old(marker)@[r]
                || final(marker)@[r] == tag),
{
    let n: usize = p.nrows;
    let mut v: Vec<usize> = Vec::new();
    let len: usize = cols.len();
    let mut x: usize = 0;
    while x < len
        invariant
            p.wf(),
            p.nrows == n,
            len == cols@.len(),
            forall|y: int| 0 <= y < len ==> (#[trigger] cols@[y]) < p.ncols,
            x <= len,
            marker@.len() == n,
            forall|r: int|
                0 <= r < n ==> #[trigger] marker@[r] == old(marker)@[r] || marker@[r] == tag,
            v@.no_duplicates(),
            forall|r: usize| #[trigger] v@.contains(r) <==> r < n && marker@[r as int] == tag,
            forall|r: usize| #[trigger] v@.contains(r) ==> covers(*p, cols@, r as int),
            forall|r: usize, y: int|
                0 <= y < x && links(*p, r as int, #[trigger] cols@[y] as int)
                    ==> #[trigger] v@.contains(r),
        decreases len - x,
    {
        let m: usize = cols[x];
        proof {
            p.lemma_col_bounds(m as int);
        }
        let s: usize = p.col_ptr[m];
        let e: usize = p.col_ptr[m + 1];
        let mut q: usize = s;
        let ghost v1 = v@;
        while q < e
            invariant
                p.wf(),
                p.nrows == n,
                len == cols@.len(),
                x < len,
                m == cols@[x as int],
                m < p.ncols,
                s == p.start(m as int),
                e == p.end(m as int),
                s <= q <= e,
                e <= p.row_idx@.len(),
                marker@.len() == n,
                forall|r: int|
                    0 <= r < n ==> #[trigger] marker@[r] == old(marker)@[r] || marker@[r] == tag,
                v@.no_duplicates(),
                forall|r: usize| #[trigger] v@.contains(r) <==> r < n && marker@[r as int] == tag,
                forall|r: usize| #[trigger] v@.contains(r) ==> covers(*p, cols@, r as int),
                forall|r: usize| #[trigger] v1.contains(r) ==> v@.contains(r),
                forall|t: int| s <= t < q ==> v@.contains(#[trigger] p.row_idx@[t]),
            decreases e - q,
        {
            let r: usize = p.row_idx[q];
            proof {
                assert(p.in_col(q as int, m as int));
                assert(p.has(r as int, m as int));
                assert(links(*p, r as int, cols@[x as int] as int));
            }
            let ghost v0 = v@;
            if marker[r] != tag {
                marker.set(r, tag);
                v.push(r);
                proof {
                    assert(v@ == v0.push(r));
                    assert(!v0.contains(r));
                    assert forall|t: usize| #[trigger] v@.contains(t) <==> v0.contains(t) || t
                        == r by {
                        if v0.contains(t) {
                            let y = choose|y: int| 0 <= y < v0.len() && v0[y] == t;
                            assert(v@[y] == t);
                        }
                        if t == r {
                            assert(v@[v0.len() as int] == r);
                        }
                        if v@.contains(t) && t != r {
                            let y = choose|y: int| 0 <= y < v@.len() && v@[y] == t;
                            assert(v0[y] == t);
                        }
                    }
                    assert(v@.no_duplicates());
                }
            }
            q += 1;
        }
        proof {
            assert forall|r: usize, y: int|
                0 <= y < x + 1 && links(*p, r as int, #[trigger] cols@[y] as int)
                    implies #[trigger] v@.contains(r) by {
                if y < x {
                    assert(v1.contains(r));
                } else {
                    p.lemma_find(r as int, m as int);
                    let t = p.find(r as int, m as int);
                    assert(v@.contains(p.row_idx@[t]));
                }
            }
        }
        x += 1;
    }
    proof {
        assert forall|r: usize| covers(*p, cols@, r as int) implies #[trigger] v@.contains(r) by {
            let y = choose|y: int|
                0 <= y < cols@.len() && #[trigger] links(*p, r as int, cols@[y] as int);
            assert(links(*p, r as int, cols@[y] as int));
        }
    }
    sort_ascending(&mut v);
    v
}

/// One more factor: what the rows of a column of `A^k` reach is the column of
/// `A^(k+1)`.
proof fn lemma_next_power(p: CscPattern, k: int, c: int, col: Seq<usize>, v: Seq<usize>)
    requires
        k >= 1,
        p.ncols <= usize::MAX,
        p.nrows == p.ncols,
        is_power_column(p, k, c, col),
        is_union(p, col, v),
    ensures
        is_power_column(p, k + 1, c, v),
{
    assert forall|r: usize| #[trigger] v.contains(r) <==> reaches(p, k + 1, r as int, c) by {
        if v.contains(r) {
            let y = choose|y: int| 0 <= y < col.len() && #[trigger] links(p, r as int, col[y] as int);
            assert(col.contains(col[y]));
            lemma_reaches_step(p, k, r as int, col[y] as int, c);
        }
        if reaches(p, k + 1, r as int, c) {
            let m = lemma_reaches_last(p, k, r as int, c);
            lemma_reaches_bounds(p, k, m, c);
            assert(col.contains(m as usize));
            let y = choose|y: int| 0 <= y < col.len() && col[y] == m as usize;
            assert(links(p, r as int, col[y] as int));
            assert(covers(p, col, r as int));
        }
    }
}

/// Ascending indices below `n` are at most `n`.
pub proof fn lemma_ascending_len(v: Seq<usize>, n: int)
    requires
        ascending(v),
        forall|x: int| 0 <= x < v.len() ==> (#[trigger] v[x]) < n,
        n >= 0,
    ensures
        v.len() <= n,
    decreases v.len(),
{
    if v.len() > 0 {
        let last = v.len() - 1;
        let w = v.subrange(0, last);
        assert forall|x: int| 0 <= x < w.len() implies (#[trigger] w[x]) < v[last] by {
            assert(v[x] < v[last]);
        }
        assert(ascending(w)) by {
            assert forall|x: int, y: int| 0 <= x < y < w.len() implies #[trigger] w[x]
                < #[trigger] w[y] by {
                assert(v[x] < v[y]);
            }
        }
        lemma_ascending_len(w, v[last] as int);
    }
}

/// Ascending sequences with the same members are the same.
pub proof fn lemma_ascending_unique(v: Seq<usize>, w: Seq<usize>)
    requires
        ascending(v),
        ascending(w),
        forall|c: usize| #[trigger] v.contains(c) <==> w.contains(c),
    ensures
        v == w,
    decreases v.len(),
{
    if v.len() == 0 {
        if w.len() > 0 {
            assert(w.contains(w[0]));
            assert(v.contains(w[0]));
        }
        assert(v =~= w);
    } else {
        let x = v.last();
        assert(v[v.len() - 1] == x);
        assert(v.contains(x));
        assert(w.contains(x));
        let y = w.last();
        assert(w[w.len() - 1] == y);
        assert(w.contains(y));
        assert(v.contains(y));
        let s = choose|s: int| 0 <= s < v.len() && v[s] == y;
        let t = choose|t: int| 0 <= t < w.len() && w[t] == x;
        assert(x == y) by {
            if s < v.len() - 1 {
                assert(v[s] < v[v.len() - 1]);
            }
            if t < w.len() - 1 {
                assert(w[t] < w[w.len() - 1]);
            }
        }
        let v1 = v.drop_last();
        let w1 = w.drop_last();
        assert forall|c: usize| #[trigger] v1.contains(c) <==> w1.contains(c) by {
            if v1.contains(c) {
                let k = choose|k: int| 0 <= k < v1.len() && v1[k] == c;
                assert(v[k] < v[v.len() - 1]);
                assert(v[k] == c);
                assert(v.contains(c));
                let m = choose|m: int| 0 <= m < w.len() && w[m] == c;
                assert(m < w1.len() && w1[m] == c);
            }
            if w1.contains(c) {
                let k = choose|k: int| 0 <= k < w1.len() && w1[k] == c;
                assert(w[k] < w[w.len() - 1]);
                assert(w[k] == c);
                assert(v.contains(c) <==> w.contains(c));
                let m = choose|m: int| 0 <= m < v.len() && v[m] == c;
                assert(m < v1.len() && v1[m] == c);
            }
        }
        lemma_ascending_unique(v1, w1);
        assert(v =~= v1.push(x));
        assert(w =~= w1.push(y));
    }
}

/// The columns of the pattern of `A^power`, each ascending.
pub fn power_columns(p: &CscPattern, power: usize) -> (r: Vec<Vec<usize>>)
    requires
        p.wf(),
        p.distinct(),
        p.nrows == p.ncols,
        power >= 1,
    ensures
        r@.len() == p.ncols,
        forall|c: int|
            0 <= c < p.ncols ==> is_power_column(*p, power as int, c, #[trigger] r@[c]@),
{
    let n: usize = p.ncols;
    let len: usize = p.col_ptr.len();
    let mut cols: Vec<Vec<usize>> = Vec::with_capacity(n);
    let mut c: usize = 0;
    while c < n
        invariant
            p.wf(),
            p.distinct(),
            n == p.ncols,
            c <= n,
            cols@.len() == c,
            forall|d: int| 0 <= d < c ==> is_power_column(*p, 1, d, #[trigger] cols@[d]@),
        decreases n - c,
    {
        cols.push(sorted_rows(p, c));
        c += 1;
    }
    let mut k: usize = 1;
    while k < power
        invariant
            p.wf(),
            p.nrows == p.ncols,
            n == p.ncols,
            n < usize::MAX,
            1 <= k <= power,
            cols@.len() == n,
            forall|d: int| 0 <= d < n ==> is_power_column(*p, k as int, d, #[trigger] cols@[d]@),
        decreases power - k,
    {
        let mut marker: Vec<usize> = vec![usize::MAX; n];
        let mut next: Vec<Vec<usize>> = Vec::with_capacity(n);
        let mut c: usize = 0;
        while c < n
            invariant
                p.wf(),
                p.nrows == p.ncols,
                n == p.ncols,
                n < usize::MAX,
                k >= 1,
                c <= n,
                cols@.len() == n,
                next@.len() == c,
                marker@.len() == n,
                forall|r: int|
                    0 <= r < n ==> #[trigger] marker@[r] < c || marker@[r] == usize::MAX,
                forall|d: int|
                    0 <= d < n ==> is_power_column(*p, k as int, d, #[trigger] cols@[d]@),
                forall|d: int|
                    0 <= d < c ==> is_power_column(*p, k + 1, d, #[trigger] next@[d]@),
            decreases n - c,
        {
            let ghost col = cols@[c as int]@;
            proof {
                assert forall|y: int| 0 <= y < col.len() implies (#[trigger] col[y]) < p.ncols by {
                    assert(col.contains(col[y]));
                    lemma_reaches_bounds(*p, k as int, col[y] as int, c as int);
                }
            }
            let v: Vec<usize> = union_rows(p, &cols[c], c, &mut marker);
            proof {
                lemma_next_power(*p, k as int, c as int, col, v@);
            }
            next.push(v);
            c += 1;
        }
        cols = next;
        k += 1;
    }
    cols
}

/// The first power of the pattern is the pattern itself.
pub proof fn law_first_power(p: CscPattern, r: int, c: int)
    ensures
        reaches(p, 1, r, c) <==> stored(p)(r, c),
{
}

/// Powers of a pattern that stores its diagonal only grow.
pub proof fn law_powers_grow(p: CscPattern, k: int, r: int, c: int)
    requires
        k >= 1,
        forall|j: int| 0 <= j < p.nrows ==> #[trigger] stored(p)(j, j),
        reaches(p, k, r, c),
    ensures
        reaches(p, k + 1, r, c),
{
    lemma_reaches_bounds(p, k, r, c);
    assert(stored(p)(r, r));
    lemma_reaches_step(p, k, r, r, c);
}

/// A path also grows at its other end.
proof fn lemma_reaches_front(p: CscPattern, k: int, r: int, m: int, c: int)
    requires
        k >= 1,
        reaches(p, k, r, m),
        stored(p)(m, c),
    ensures
        reaches(p, k + 1, r, c),
    decreases k,
{
    if k == 1 {
        lemma_reaches_step(p, 1, r, m, c);
    } else {
        let x = lemma_reaches_last(p, k - 1, r, m);
        lemma_reaches_front(p, k - 1, x, m, c);
        lemma_reaches_step(p, k, r, x, c);
    }
}

/// The first entry of a path.
proof fn lemma_reaches_first(p: CscPattern, k: int, r: int, c: int) -> (m: int)
    requires
        k >= 1,
        reaches(p, k + 1, r, c),
    ensures
        reaches(p, k, r, m),
        stored(p)(m, c),
    decreases k,
{
    let x = lemma_reaches_last(p, k, r, c);
    if k == 1 {
        x
    } else {
        let m = lemma_reaches_first(p, k - 1, x, c);
        lemma_reaches_step(p, k - 1, r, x, m);
        m
    }
}

/// The pattern of a power of the transpose is the transpose of the pattern of
/// the power.
pub proof fn law_power_of_transpose(
    p: CscPattern,
    t: CscPattern,
    order: Seq<usize>,
    k: int,
    r: int,
    c: int,
)
    requires
        p.wf(),
        p.nrows == p.ncols,
        is_transpose(p, t, order),
        k >= 1,
    ensures
        reaches(t, k, c, r) <==> reaches(p, k, r, c),
    decreases k,
{
    if k == 1 {
        if 0 <= r < p.nrows && 0 <= c < p.ncols {
            lemma_transpose_has(p, t, order, r, c);
        }
    } else {
        if reaches(t, k, c, r) {
            let m = lemma_reaches_last(t, k - 1, c, r);
            lemma_transpose_has(p, t, order, m, c);
            law_power_of_transpose(p, t, order, k - 1, r, m);
            lemma_reaches_front(p, k - 1, r, m, c);
        }
        if reaches(p, k, r, c) {
            let m = lemma_reaches_first(p, k - 1, r, c);
            lemma_transpose_has(p, t, order, m, c);
            law_power_of_transpose(p, t, order, k - 1, r, m);
            lemma_reaches_step(t, k - 1, c, m, r);
        }
    }
}

/// A power of a diagonal pattern is that pattern.
pub proof fn lemma_diagonal_reaches(p: CscPattern, k: int, r: int, c: int)
    requires
        k >= 1,
        forall|i: int, j: int| #[trigger] stored(p)(i, j) ==> i == j,
    ensures
        reaches(p, k, r, c) <==> r == c && stored(p)(r, c),
    decreases k,
{
    if k > 1 {
        lemma_diagonal_reaches(p, k - 1, r, c);
        if reaches(p, k, r, c) {
            let m = choose|m: int| #[trigger] links(p, r, m) && reaches(p, k - 1, m, c);
            assert(links(p, r, m) && stored(p)(r, m));
        }
        if r == c && stored(p)(r, c) {
            assert(links(p, r, r));
        }
    }
}

} // verus!
