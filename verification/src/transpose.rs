//! Transposing a pattern by a stable counting sort.
use vstd::prelude::*;

use crate::sparse::CscPattern;

verus! {

/// How many of the first `p` keys equal `i`.
pub open spec fn occurrences(keys: Seq<usize>, i: int, p: int) -> int
    decreases p,
{
    if p <= 0 {
        0
    } else {
        occurrences(keys, i, p - 1) + if keys[p - 1] == i {
            1int
        } else {
            0int
        }
    }
}

/// How many of the first `p` keys are less than `i`.
pub open spec fn occurrences_below(keys: Seq<usize>, i: int, p: int) -> int
    decreases i,
{
    if i <= 0 {
        0
    } else {
        occurrences_below(keys, i - 1, p) + occurrences(keys, i - 1, p)
    }
}

proof fn lemma_occurrences_mono(keys: Seq<usize>, i: int, p: int, q: int)
    requires
        0 <= p <= q,
    ensures
        0 <= occurrences(keys, i, p) <= occurrences(keys, i, q) <= occurrences(keys, i, p) + (q - p),
    decreases q,
{
    if p < q {
        lemma_occurrences_mono(keys, i, p, q - 1);
    } else if p > 0 {
        lemma_occurrences_mono(keys, i, p - 1, p - 1);
    }
}

proof fn lemma_below_step(keys: Seq<usize>, i: int, p: int)
    requires
        0 <= i,
        0 <= p,
    ensures
        occurrences_below(keys, i, p + 1) == occurrences_below(keys, i, p) + if keys[p] < i {
            1int
        } else {
            0int
        },
    decreases i,
{
    if i > 0 {
        lemma_below_step(keys, i - 1, p);
    }
}

proof fn lemma_below_zero(keys: Seq<usize>, i: int)
    requires
        0 <= i,
    ensures
        occurrences_below(keys, i, 0) == 0,
    decreases i,
{
    if i > 0 {
        lemma_below_zero(keys, i - 1);
    }
}

proof fn lemma_below_total(keys: Seq<usize>, m: int, p: int)
    requires
        0 <= p <= keys.len(),
        0 <= m,
        forall|q: int| 0 <= q < keys.len() ==> (#[trigger] keys[q]) < m,
    ensures
        occurrences_below(keys, m, p) == p,
    decreases p,
{
    if p == 0 {
        lemma_below_zero(keys, m);
    } else {
        lemma_below_total(keys, m, p - 1);
        lemma_below_step(keys, m, p - 1);
    }
}

proof fn lemma_below_mono(keys: Seq<usize>, i: int, k: int, p: int)
    requires
        0 <= i <= k,
        0 <= p,
    ensures
        0 <= occurrences_below(keys, i, p) <= occurrences_below(keys, k, p),
    decreases k,
{
    if i < k {
        lemma_below_mono(keys, i, k - 1, p);
        lemma_occurrences_mono(keys, k - 1, 0, p);
    } else if i > 0 {
        lemma_below_mono(keys, i - 1, i - 1, p);
        lemma_occurrences_mono(keys, i - 1, 0, p);
    }
}

/// `order` lists the positions of `keys` by ascending key, and positions with
/// equal keys in ascending order; those with key `i` stand at
/// `ptr[i] .. ptr[i + 1]`.
pub open spec fn is_bucketed(keys: Seq<usize>, m: int, ptr: Seq<usize>, order: Seq<usize>) -> bool {
    &&& ptr.len() == m + 1
    &&& order.len() == keys.len()
    &&& ptr[0] == 0
    &&& ptr[m] == keys.len()
    &&& forall|i: int, j: int| 0 <= i <= j <= m ==> #[trigger] ptr[i] <= #[trigger] ptr[j]
    &&& forall|t: int| 0 <= t < order.len() ==> (#[trigger] order[t]) < keys.len()
    &&& forall|i: int, t: int|
        0 <= i < m && #[trigger] bucket_has(ptr, i, t) ==> keys[order[t] as int] == i
    &&& forall|i: int, t: int, u: int|
        0 <= i < m && #[trigger] bucket_has(ptr, i, t) && #[trigger] bucket_has(ptr, i, u) && t < u
            ==> order[t] < order[u]
    &&& forall|q: int| #![trigger keys[q]]
        0 <= q < keys.len() ==> {
            let t = ptr[keys[q] as int] + occurrences(keys, keys[q] as int, q);
            bucket_has(ptr, keys[q] as int, t) && order[t] == q
        }
}

/// Slot `t` belongs to the bucket of key `i`.
pub open spec fn bucket_has(ptr: Seq<usize>, i: int, t: int) -> bool {
    ptr[i] <= t < ptr[i + 1]
}

/// Sorts the positions of `keys` into buckets by key.
#[verifier::spinoff_prover]
#[verifier::rlimit(60)]
pub fn bucket(keys: &Vec<usize>, m: usize) -> (r: (Vec<usize>, Vec<usize>))
    requires
        m < usize::MAX,
        forall|q: int| 0 <= q < keys@.len() ==> (#[trigger] keys@[q]) < m,
    ensures
        is_bucketed(keys@, m as int, r.0@, r.1@),
{
    let n: usize = keys.len();
    let ghost ks = keys@;
    let mut ptr: Vec<usize> = vec![0; m + 1];
    let mut p: usize = 0;
    while p < n
        invariant
            p <= n,
            n == ks.len(),
            ks == keys@,
            m < usize::MAX,
            ptr@.len() == m + 1,
            ptr@[0] == 0,
            forall|q: int| 0 <= q < ks.len() ==> (#[trigger] ks[q]) < m,
            forall|i: int| 1 <= i <= m ==> #[trigger] ptr@[i] == occurrences(ks, i - 1, p as int),
        decreases n - p,
    {
        let i: usize = keys[p];
        proof {
            lemma_occurrences_mono(ks, i as int, 0, p as int);
        }
        ptr.set(i + 1, ptr[i + 1] + 1);
        p += 1;
    }
    let mut i: usize = 0;
    while i < m
        invariant
            i <= m,
            n == ks.len(),
            m < usize::MAX,
            ptr@.len() == m + 1,
            forall|q: int| 0 <= q < ks.len() ==> (#[trigger] ks[q]) < m,
            forall|k: int|
                0 <= k <= i ==> #[trigger] ptr@[k] == occurrences_below(ks, k, n as int),
            forall|k: int| i < k <= m ==> #[trigger] ptr@[k] == occurrences(ks, k - 1, n as int),
        decreases m - i,
    {
        proof {
            lemma_below_total(ks, m as int, n as int);
            lemma_below_mono(ks, i + 1, m as int, n as int);
        }
        ptr.set(i + 1, ptr[i + 1] + ptr[i]);
        i += 1;
    }
    let mut cursor: Vec<usize> = Vec::with_capacity(m);
    let mut i: usize = 0;
    while i < m
        invariant
            i <= m,
            ptr@.len() == m + 1,
            cursor@.len() == i,
            forall|k: int| 0 <= k < i ==> #[trigger] cursor@[k] == ptr@[k],
        decreases m - i,
    {
        cursor.push(ptr[i]);
        i += 1;
    }
    let mut order: Vec<usize> = vec![0; n];
    let ghost below = |k: int| occurrences_below(ks, k, n as int);
    proof {
        lemma_below_total(ks, m as int, n as int);
        assert forall|k: int, l: int| 0 <= k <= l <= m implies #[trigger] ptr@[k] <= #[trigger] ptr@[l] by {
            lemma_below_mono(ks, k, l, n as int);
        }
        assert forall|k: int| 0 <= k < m implies #[trigger] ptr@[k + 1] == ptr@[k] + occurrences(
            ks,
            k,
            n as int,
        ) by {}
    }
    let mut p: usize = 0;
    while p < n
        invariant
            p <= n,
            n == ks.len(),
            ks == keys@,
            ptr@.len() == m + 1,
            cursor@.len() == m,
            order@.len() == n,
            ptr@[m as int] == n,
            forall|q: int| 0 <= q < ks.len() ==> (#[trigger] ks[q]) < m,
            forall|k: int, l: int|
                0 <= k <= l <= m ==> #[trigger] ptr@[k] <= #[trigger] ptr@[l],
            forall|k: int|
                0 <= k < m ==> #[trigger] ptr@[k + 1] == ptr@[k] + occurrences(ks, k, n as int),
            forall|k: int|
                0 <= k < m ==> #[trigger] cursor@[k] == ptr@[k] + occurrences(ks, k, p as int),
            forall|t: int| 0 <= t < n ==> (#[trigger] order@[t]) < n,
            forall|k: int, t: int|
                0 <= k < m && #[trigger] bucket_has(ptr@, k, t) && t < cursor@[k]
                    ==> ks[order@[t] as int] == k && order@[t] < p,
            forall|k: int, t: int, u: int|
                0 <= k < m && #[trigger] bucket_has(ptr@, k, t) && #[trigger] bucket_has(
                    ptr@,
                    k,
                    u,
                ) && t < u < cursor@[k] ==> order@[t] < order@[u],
            forall|q: int| #![trigger ks[q]]
                0 <= q < p ==> {
                    let t = ptr@[ks[q] as int] + occurrences(ks, ks[q] as int, q);
                    bucket_has(ptr@, ks[q] as int, t) && order@[t] == q
                },
        decreases n - p,
    {
        let i: usize = keys[p];
        let c: usize = cursor[i];
        proof {
            lemma_occurrences_mono(ks, i as int, p + 1, n as int);
            lemma_occurrences_mono(ks, i as int, 0, p as int);
            assert(ptr@[i + 1] == ptr@[i as int] + occurrences(ks, i as int, n as int));
            assert(bucket_has(ptr@, i as int, c as int));
            assert(ptr@[i + 1] <= ptr@[m as int]);
            assert forall|k: int, t: int| 0 <= k < m && k != i && #[trigger] bucket_has(ptr@, k, t) implies t != c by {
                if k < i {
                    assert(ptr@[k + 1] <= ptr@[i as int]);
                } else {
                    assert(ptr@[i + 1] <= ptr@[k]);
                }
            }
            assert forall|q: int| 0 <= q < p && #[trigger] ks[q] == i implies ptr@[i as int] + occurrences(ks, i as int, q) < c by {
                lemma_occurrences_mono(ks, i as int, q + 1, p as int);
            }
        }
        let ghost order0 = order@;
        order.set(c, p);
        cursor.set(i, c + 1);
        p += 1;
    }
    (ptr, order)
}

/// `t` is the transpose of `p`, and `order` gives, for each entry of `t`, the
/// position in `p` that it came from.
pub open spec fn is_transpose(p: CscPattern, t: CscPattern, order: Seq<usize>) -> bool {
    &&& t.wf()
    &&& t.nrows == p.ncols
    &&& t.ncols == p.nrows
    &&& t.row_idx@.len() == p.row_idx@.len()
    &&& order.len() == p.row_idx@.len()
    &&& forall|i: int, s: int|
        0 <= i < t.ncols && #[trigger] t.in_col(s, i) ==> {
            &&& order[s] < p.row_idx@.len()
            &&& p.row_idx@[order[s] as int] == i
            &&& p.in_col(order[s] as int, t.row_idx@[s] as int)
        }
    &&& forall|i: int, s: int, u: int|
        0 <= i < t.ncols && #[trigger] t.in_col(s, i) && #[trigger] t.in_col(u, i) && s < u
            ==> order[s] < order[u]
    &&& forall|q: int|
        0 <= q < p.row_idx@.len() ==> placed(t, order, #[trigger] p.row_idx@[q] as int, q)
}

/// Some entry of column `i` of `t` came from position `q`.
pub open spec fn placed(t: CscPattern, order: Seq<usize>, i: int, q: int) -> bool {
    exists|s: int| #[trigger] t.in_col(s, i) && order[s] == q
}

/// The transpose stores `(j, i)` where the pattern stores `(i, j)`.
pub proof fn lemma_transpose_has(p: CscPattern, t: CscPattern, order: Seq<usize>, i: int, j: int)
    requires
        p.wf(),
        is_transpose(p, t, order),
        0 <= i < p.nrows,
        0 <= j < p.ncols,
    ensures
        t.has(j, i) <==> p.has(i, j),
{
    if p.has(i, j) {
        p.lemma_find(i, j);
        p.lemma_col_bounds(j);
        let q = p.find(i, j);
        assert(p.row_idx@[q] == i);
        assert(placed(t, order, i, q));
        let s = choose|s: int| #[trigger] t.in_col(s, i) && order[s] == q;
        t.lemma_col_bounds(i);
        assert(p.in_col(q, t.row_idx@[s] as int));
        p.lemma_col_unique(q, j, t.row_idx@[s] as int);
        assert(t.has(j, i));
    }
    if t.has(j, i) {
        t.lemma_find(j, i);
        let s = t.find(j, i);
        assert(p.in_col(order[s] as int, j));
        assert(p.has(i, j));
    }
}

/// The columns of the transpose are sorted when no entry is stored twice.
pub proof fn lemma_transpose_sorted(p: CscPattern, t: CscPattern, order: Seq<usize>)
    requires
        p.wf(),
        p.distinct(),
        is_transpose(p, t, order),
    ensures
        t.sorted(),
{
    assert forall|i: int| 0 <= i < t.ncols implies #[trigger] t.sorted_col(i) by {
        assert forall|s: int, u: int|
            t.start(i) <= s < u < t.end(i) implies #[trigger] t.row_idx@[s]
            < #[trigger] t.row_idx@[u] by {
            assert(t.in_col(s, i) && t.in_col(u, i));
            t.lemma_col_bounds(i);
            let a = t.row_idx@[s] as int;
            let b = t.row_idx@[u] as int;
            assert(p.in_col(order[s] as int, a));
            assert(p.in_col(order[u] as int, b));
            if b < a {
                assert(p.col_ptr@[b + 1] <= p.col_ptr@[a]);
            }
        }
    }
}

/// Transposes a pattern.
pub fn transpose(p: &CscPattern) -> (r: (CscPattern, Vec<usize>))
    requires
        p.wf(),
        p.nrows < usize::MAX,
    ensures
        is_transpose(*p, r.0, r.1@),
{
    let n: usize = p.row_idx.len();
    let mut col_of: Vec<usize> = Vec::with_capacity(n);
    let mut j: usize = 0;
    while j < p.ncols
        invariant
            p.wf(),
            n == p.row_idx@.len(),
            j <= p.ncols,
            col_of@.len() == p.col_ptr@[j as int],
            forall|q: int|
                0 <= q < col_of@.len() ==> (#[trigger] col_of@[q]) < p.ncols && p.in_col(
                    q,
                    col_of@[q] as int,
                ),
        decreases p.ncols - j,
    {
        let e: usize = p.col_ptr[j + 1];
        proof {
            p.lemma_col_bounds(j as int);
        }
        while col_of.len() < e
            invariant
                p.wf(),
                j < p.ncols,
                e == p.end(j as int),
                p.start(j as int) <= col_of@.len() <= e,
                forall|q: int|
                    0 <= q < col_of@.len() ==> (#[trigger] col_of@[q]) < p.ncols && p.in_col(
                        q,
                        col_of@[q] as int,
                    ),
            decreases e - col_of.len(),
        {
            col_of.push(j);
        }
        j += 1;
    }
    let (ptr, order) = bucket(&p.row_idx, p.nrows);
    let mut idx: Vec<usize> = Vec::with_capacity(n);
    let mut s: usize = 0;
    while s < n
        invariant
            s <= n,
            n == p.row_idx@.len(),
            idx@.len() == s,
            col_of@.len() == n,
            is_bucketed(p.row_idx@, p.nrows as int, ptr@, order@),
            forall|q: int|
                0 <= q < col_of@.len() ==> (#[trigger] col_of@[q]) < p.ncols && p.in_col(
                    q,
                    col_of@[q] as int,
                ),
            forall|q: int|
                0 <= q < s ==> #[trigger] idx@[q] == col_of@[order@[q] as int] && idx@[q] < p.ncols,
        decreases n - s,
    {
        idx.push(col_of[order[s]]);
        s += 1;
    }
    let t = CscPattern { nrows: p.ncols, ncols: p.nrows, col_ptr: ptr, row_idx: idx };
    proof {
        assert(t.wf());
        assert forall|i: int, s: int| 0 <= i < t.ncols && #[trigger] t.in_col(s, i) implies {
            &&& order@[s] < p.row_idx@.len()
            &&& p.row_idx@[order@[s] as int] == i
            &&& p.in_col(order@[s] as int, t.row_idx@[s] as int)
        } by {
            t.lemma_col_bounds(i);
            assert(bucket_has(ptr@, i, s));
            assert(idx@[s] == col_of@[order@[s] as int]);
        }
        assert forall|i: int, s: int, u: int|
            0 <= i < t.ncols && #[trigger] t.in_col(s, i) && #[trigger] t.in_col(u, i) && s
                < u implies order@[s] < order@[u] by {
            assert(bucket_has(ptr@, i, s) && bucket_has(ptr@, i, u));
        }
        assert forall|q: int| 0 <= q < p.row_idx@.len() implies placed(
            t,
            order@,
            #[trigger] p.row_idx@[q] as int,
            q,
        ) by {
            let i = p.row_idx@[q] as int;
            let s = ptr@[i] + occurrences(p.row_idx@, i, q);
            assert(bucket_has(ptr@, i, s));
            assert(t.in_col(s, i));
        }
    }
    (t, order)
}

} // verus!
