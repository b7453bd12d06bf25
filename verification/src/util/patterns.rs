//! Comparing sorted patterns by the entries they store.
use crate::sparse::CscPattern;
use crate::util::powers::{ascending, lemma_ascending_unique};
use vstd::prelude::*;

verus! {

/// Every entry that `p` stores is stored by `q`.
pub open spec fn within(p: CscPattern, q: CscPattern) -> bool {
    forall|i: int, j: int| 0 <= j < p.ncols && #[trigger] p.has(i, j) ==> q.has(i, j)
}

/// An ascending sequence is no longer than one that has all its members.
pub proof fn lemma_ascending_subset(v: Seq<usize>, w: Seq<usize>)
    requires
        ascending(v),
        ascending(w),
        forall|c: usize| #[trigger] v.contains(c) ==> w.contains(c),
    ensures
        v.len() <= w.len(),
    decreases v.len(),
{
    if v.len() > 0 {
        let x = v.last();
        assert(v[v.len() - 1] == x);
        assert(v.contains(x));
        let t = choose|t: int| 0 <= t < w.len() && w[t] == x;
        let v1 = v.drop_last();
        let w1 = w.subrange(0, t);
        assert forall|c: usize| #[trigger] v1.contains(c) implies w1.contains(c) by {
            let k = choose|k: int| 0 <= k < v1.len() && v1[k] == c;
            assert(v[k] == c);
            assert(v[k] < v[v.len() - 1]);
            assert(v.contains(c));
            let m = choose|m: int| 0 <= m < w.len() && w[m] == c;
            if m > t {
                assert(w[t] < w[m]);
            }
            assert(w1[m] == c);
        }
        lemma_ascending_subset(v1, w1);
    }
}

/// The columns of a sorted pattern are ascending and list what it stores.
proof fn lemma_sorted_column(p: CscPattern, j: int)
    requires
        p.wf(),
        p.sorted(),
        0 <= j < p.ncols,
    ensures
        ascending(p.col(j)),
        p.col(j).len() == p.end(j) - p.start(j),
        forall|c: usize| #[trigger] p.col(j).contains(c) <==> p.has(c as int, j),
{
    p.lemma_col_bounds(j);
    assert(p.sorted_col(j));
    let v = p.col(j);
    assert forall|x: int, y: int| 0 <= x < y < v.len() implies #[trigger] v[x] < #[trigger] v[y] by {
        assert(p.row_idx@[p.start(j) + x] < p.row_idx@[p.start(j) + y]);
    }
    assert forall|c: usize| #[trigger] v.contains(c) <==> p.has(c as int, j) by {
        if v.contains(c) {
            let k = choose|k: int| 0 <= k < v.len() && v[k] == c;
            assert(p.in_col(p.start(j) + k, j));
        }
        if p.has(c as int, j) {
            let k = choose|k: int| #[trigger] p.in_col(k, j) && p.row_idx@[k] == c as int;
            assert(v[k - p.start(j)] == c);
        }
    }
}

/// A pattern within another has at most as many entries.
pub proof fn lemma_within_grows(p: CscPattern, q: CscPattern, j: int)
    requires
        p.wf(),
        q.wf(),
        p.sorted(),
        q.sorted(),
        p.ncols == q.ncols,
        within(p, q),
        0 <= j <= p.ncols,
    ensures
        p.col_ptr@[j] <= q.col_ptr@[j],
        j == p.ncols ==> p.row_idx@.len() <= q.row_idx@.len(),
    decreases j,
{
    if j > 0 {
        lemma_within_grows(p, q, j - 1);
        lemma_sorted_column(p, j - 1);
        lemma_sorted_column(q, j - 1);
        assert forall|c: usize| #[trigger] p.col(j - 1).contains(c) implies q.col(j - 1).contains(
            c,
        ) by {
            assert(p.has(c as int, j - 1));
        }
        lemma_ascending_subset(p.col(j - 1), q.col(j - 1));
    }
}

/// Sorted patterns that store the same entries are the same.
pub proof fn lemma_same_pattern(p: CscPattern, q: CscPattern)
    requires
        p.wf(),
        q.wf(),
        p.sorted(),
        q.sorted(),
        p.nrows == q.nrows,
        p.ncols == q.ncols,
        within(p, q),
        within(q, p),
    ensures
        p.same_as(q),
        forall|i: int, j: int|
            0 <= j < p.ncols && p.has(i, j) ==> #[trigger] p.find(i, j) == q.find(i, j),
{
    assert forall|j: int| 0 <= j <= p.ncols implies #[trigger] p.col_ptr@[j] == q.col_ptr@[j] by {
        lemma_within_grows(p, q, j);
        lemma_within_grows(q, p, j);
    }
    assert(p.col_ptr@ =~= q.col_ptr@);
    assert forall|k: int| 0 <= k < p.row_idx@.len() implies #[trigger] p.row_idx@[k]
        == q.row_idx@[k] by {
        let j = p.lemma_some_col(k);
        lemma_sorted_column(p, j);
        lemma_sorted_column(q, j);
        assert forall|c: usize| #[trigger] p.col(j).contains(c) <==> q.col(j).contains(c) by {
            assert(p.has(c as int, j) <==> q.has(c as int, j));
        }
        lemma_ascending_unique(p.col(j), q.col(j));
        assert(p.col(j)[k - p.start(j)] == q.col(j)[k - p.start(j)]);
    }
    lemma_within_grows(p, q, p.ncols as int);
    lemma_within_grows(q, p, p.ncols as int);
    assert(p.row_idx@ =~= q.row_idx@);
    assert forall|i: int, j: int| 0 <= j < p.ncols && p.has(i, j) implies #[trigger] p.find(i, j)
        == q.find(i, j) by {
        p.lemma_find(i, j);
        q.lemma_find(i, j);
        assert(p.sorted_col(j));
        p.lemma_find_at(q.find(i, j), j);
    }
}

} // verus!
