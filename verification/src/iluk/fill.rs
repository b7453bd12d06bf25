//! How the pattern grows with the fill level.
//!
//! The fill level of `(i, j)` counts the inner vertices of a shortest walk from
//! `i` to `j` through vertices that precede both.
use super::symbolic::{fill_level, kept, law_fill_monotone, lemma_level_bounds, level_after};
use super::SymbolicIluk;
use crate::lu::{lemma_lower_col, lemma_upper_col, lu_has};
use crate::sparse::{stored, CscPattern};
use crate::util::patterns::{lemma_same_pattern, lemma_within_grows, within};
use vstd::prelude::*;

verus! {

/// The `k`-th vertex of the walk from `i` to `j` whose inner vertices are `v`.
pub open spec fn vertex(i: int, j: int, v: Seq<int>, k: int) -> int {
    if k <= 0 {
        i
    } else if k <= v.len() {
        v[k - 1]
    } else {
        j
    }
}

/// Every step of the walk from `i` to `j` through `v` is stored in `s`, and every
/// inner vertex precedes `m` and both ends.
pub open spec fn walks(s: spec_fn(int, int) -> bool, i: int, j: int, v: Seq<int>, m: int) -> bool {
    &&& forall|k: int| 0 <= k < v.len() ==> 0 <= #[trigger] v[k] < m && v[k] < i && v[k] < j
    &&& forall|k: int|
        0 <= k <= v.len() ==> s(#[trigger] vertex(i, j, v, k), vertex(i, j, v, k + 1))
}

/// The part of a walk before its inner vertex `t`.
proof fn lemma_head(s: spec_fn(int, int) -> bool, i: int, j: int, v: Seq<int>, m: int, t: int)
    requires
        walks(s, i, j, v, m),
        0 <= t < v.len(),
        forall|k: int| 0 <= k < t ==> #[trigger] v[k] < v[t],
    ensures
        walks(s, i, v[t], v.subrange(0, t), v[t]),
{
    let h = v.subrange(0, t);
    assert forall|k: int| 0 <= k <= h.len() implies s(
        #[trigger] vertex(i, v[t], h, k),
        vertex(i, v[t], h, k + 1),
    ) by {
        assert(vertex(i, v[t], h, k) == vertex(i, j, v, k));
        assert(vertex(i, v[t], h, k + 1) == vertex(i, j, v, k + 1));
    }
}

/// The part of a walk after its inner vertex `t`.
proof fn lemma_tail(s: spec_fn(int, int) -> bool, i: int, j: int, v: Seq<int>, m: int, t: int)
    requires
        walks(s, i, j, v, m),
        0 <= t < v.len(),
        forall|k: int| t < k < v.len() ==> #[trigger] v[k] < v[t],
    ensures
        walks(s, v[t], j, v.subrange(t + 1, v.len() as int), v[t]),
{
    let h = v.subrange(t + 1, v.len() as int);
    assert forall|k: int| 0 <= k < h.len() implies 0 <= #[trigger] h[k] < v[t] && h[k] < j by {
        assert(h[k] == v[t + 1 + k]);
    }
    assert forall|k: int| 0 <= k <= h.len() implies s(
        #[trigger] vertex(v[t], j, h, k),
        vertex(v[t], j, h, k + 1),
    ) by {
        assert(vertex(v[t], j, h, k) == vertex(i, j, v, k + t + 1));
        assert(vertex(v[t], j, h, k + 1) == vertex(i, j, v, k + t + 2));
    }
}

/// No walk has fewer inner vertices than the level counts.
proof fn lemma_walk_bounds(
    s: spec_fn(int, int) -> bool,
    cap: int,
    i: int,
    j: int,
    v: Seq<int>,
    m: int,
)
    requires
        cap >= 0,
        m >= 0,
        walks(s, i, j, v, m),
    ensures
        level_after(s, cap, i, j, m) <= v.len(),
    decreases m,
{
    if m == 0 {
        assert(v.len() == 0) by {
            if v.len() > 0 {
                assert(0 <= v[0] < m);
            }
        }
        assert(s(vertex(i, j, v, 0), vertex(i, j, v, 1)));
    } else {
        let q = m - 1;
        if exists|t: int| 0 <= t < v.len() && #[trigger] v[t] == q {
            let t0 = choose|t: int| 0 <= t < v.len() && #[trigger] v[t] == q;
            let a = first_at(v, q, t0);
            let b = last_at(v, q, t0);
            lemma_first_at(v, q, t0);
            lemma_last_at(v, q, t0);
            assert forall|k: int| 0 <= k < a implies #[trigger] v[k] < v[a] by {}
            assert forall|k: int| b < k < v.len() implies #[trigger] v[k] < v[b] by {}
            lemma_head(s, i, j, v, m, a);
            lemma_tail(s, i, j, v, m, b);
            lemma_walk_bounds(s, cap, i, q, v.subrange(0, a), q);
            lemma_walk_bounds(s, cap, q, j, v.subrange(b + 1, v.len() as int), q);
            assert(q < i && q < j);
        } else {
            assert(walks(s, i, j, v, q)) by {
                assert forall|k: int| 0 <= k < v.len() implies 0 <= #[trigger] v[k] < q && v[k] < i
                    && v[k] < j by {
                    assert(v[k] != q);
                }
            }
            lemma_walk_bounds(s, cap, i, j, v, q);
        }
    }
}

/// The first place of `q` in `v`, searching back from `t`.
spec fn first_at(v: Seq<int>, q: int, t: int) -> int
    decreases t,
{
    if t <= 0 || !v.subrange(0, t).contains(q) {
        t
    } else {
        let k = v.subrange(0, t).index_of(q);
        if 0 <= k < t {
            first_at(v, q, k)
        } else {
            t
        }
    }
}

proof fn lemma_first_at(v: Seq<int>, q: int, t: int)
    requires
        0 <= t < v.len(),
        v[t] == q,
    ensures
        0 <= first_at(v, q, t) <= t,
        v[first_at(v, q, t)] == q,
        forall|k: int| 0 <= k < first_at(v, q, t) ==> #[trigger] v[k] != q,
    decreases t,
{
    let h = v.subrange(0, t);
    if t > 0 && h.contains(q) {
        let k = h.index_of(q);
        assert(h[k] == q);
        assert(v[k] == q);
        lemma_first_at(v, q, k);
    } else {
        assert forall|k: int| 0 <= k < t implies #[trigger] v[k] != q by {
            assert(h[k] == v[k]);
        }
    }
}

/// The last place of `q` in `v`, searching on from `t`.
spec fn last_at(v: Seq<int>, q: int, t: int) -> int
    decreases v.len() - t,
{
    if t < 0 || t >= v.len() - 1 {
        t
    } else {
        let h = v.subrange(t + 1, v.len() as int);
        if h.contains(q) {
            let k = h.index_of(q);
            if 0 <= k < h.len() {
                last_at(v, q, t + 1 + k)
            } else {
                t
            }
        } else {
            t
        }
    }
}

proof fn lemma_last_at(v: Seq<int>, q: int, t: int)
    requires
        0 <= t < v.len(),
        v[t] == q,
    ensures
        t <= last_at(v, q, t) < v.len(),
        v[last_at(v, q, t)] == q,
        forall|k: int| last_at(v, q, t) < k < v.len() ==> #[trigger] v[k] != q,
    decreases v.len() - t,
{
    if t < v.len() - 1 {
        let h = v.subrange(t + 1, v.len() as int);
        if h.contains(q) {
            let k = h.index_of(q);
            assert(h[k] == q);
            assert(v[t + 1 + k] == q);
            lemma_last_at(v, q, t + 1 + k);
        } else {
            assert forall|k: int| t < k < v.len() implies #[trigger] v[k] != q by {
                assert(h[k - t - 1] == v[k]);
            }
        }
    }
}

/// An entry whose level does not exceed the cap has a walk with as many inner
/// vertices.
proof fn lemma_level_walk(
    s: spec_fn(int, int) -> bool,
    cap: int,
    i: int,
    j: int,
    m: int,
) -> (v: Seq<int>)
    requires
        cap >= 0,
        m >= 0,
        level_after(s, cap, i, j, m) <= cap,
    ensures
        walks(s, i, j, v, m),
        v.len() == level_after(s, cap, i, j, m),
    decreases m,
{
    if m == 0 {
        let v = Seq::<int>::empty();
        assert(vertex(i, j, v, 0) == i && vertex(i, j, v, 1) == j);
        v
    } else {
        let q = m - 1;
        let before = level_after(s, cap, i, j, q);
        let a = level_after(s, cap, i, q, q);
        let b = level_after(s, cap, q, j, q);
        lemma_level_bounds(s, cap, i, q, q);
        lemma_level_bounds(s, cap, q, j, q);
        lemma_level_bounds(s, cap, i, j, q);
        if q < i && q < j && a + b + 1 < before {
            let x = lemma_level_walk(s, cap, i, q, q);
            let y = lemma_level_walk(s, cap, q, j, q);
            let v = x.push(q) + y;
            assert forall|k: int| 0 <= k < v.len() implies 0 <= #[trigger] v[k] < m && v[k] < i
                && v[k] < j by {
                if k < x.len() {
                    assert(v[k] == x[k]);
                } else if k > x.len() {
                    assert(v[k] == y[k - x.len() - 1]);
                }
            }
            assert forall|k: int| 0 <= k <= v.len() implies s(
                #[trigger] vertex(i, j, v, k),
                vertex(i, j, v, k + 1),
            ) by {
                if k <= x.len() {
                    assert(vertex(i, j, v, k) == vertex(i, q, x, k));
                    assert(vertex(i, j, v, k + 1) == vertex(i, q, x, k + 1));
                } else {
                    let l = k - x.len() - 1;
                    assert(vertex(i, j, v, k) == vertex(q, j, y, l));
                    assert(vertex(i, j, v, k + 1) == vertex(q, j, y, l + 1));
                }
            }
            v
        } else {
            let v = lemma_level_walk(s, cap, i, j, q);
            v
        }
    }
}

/// The fill level of an entry is the number of inner vertices of a shortest walk
/// from its row to its column through vertices that precede both, if that does not
/// exceed `cap`; and the entry is kept exactly if there is such a walk.
pub proof fn law_level_is_shortest_walk(
    s: spec_fn(int, int) -> bool,
    cap: int,
    n: int,
    i: int,
    j: int,
)
    requires
        cap >= 0,
        0 <= i < n,
        0 <= j < n,
    ensures
        kept(s, cap, n)(i, j) <==> exists|v: Seq<int>| #[trigger]
            walks(s, i, j, v, n) && v.len() <= cap,
        forall|v: Seq<int>| #[trigger]
            walks(s, i, j, v, n) ==> fill_level(s, cap, i, j) <= v.len(),
        kept(s, cap, n)(i, j) ==> exists|v: Seq<int>| #[trigger]
            walks(s, i, j, v, n) && v.len() == fill_level(s, cap, i, j),
{
    let m = if i <= j {
        i
    } else {
        j
    };
    assert forall|v: Seq<int>| #[trigger] walks(s, i, j, v, n) implies fill_level(s, cap, i, j)
        <= v.len() by {
        assert(walks(s, i, j, v, m)) by {
            assert forall|k: int| 0 <= k < v.len() implies 0 <= #[trigger] v[k] < m && v[k] < i
                && v[k] < j by {}
        }
        lemma_walk_bounds(s, cap, i, j, v, m);
    }
    if fill_level(s, cap, i, j) <= cap {
        let v = lemma_level_walk(s, cap, i, j, m);
        assert(walks(s, i, j, v, n)) by {
            assert forall|k: int| 0 <= k < v.len() implies 0 <= #[trigger] v[k] < n && v[k] < i
                && v[k] < j by {}
        }
    }
}

/// A walk can be cut short where it meets a vertex twice.
proof fn lemma_simple_walk(
    s: spec_fn(int, int) -> bool,
    i: int,
    j: int,
    v: Seq<int>,
    m: int,
) -> (w: Seq<int>)
    requires
        walks(s, i, j, v, m),
    ensures
        walks(s, i, j, w, m),
        w.no_duplicates(),
    decreases v.len(),
{
    if v.no_duplicates() {
        v
    } else {
        let (a, b) = choose|a: int, b: int|
            0 <= a < v.len() && 0 <= b < v.len() && a != b && #[trigger] v[a] == #[trigger] v[b];
        let (x, y) = if a < b {
            (a, b)
        } else {
            (b, a)
        };
        let w = v.subrange(0, x) + v.subrange(y, v.len() as int);
        assert forall|k: int| 0 <= k < w.len() implies 0 <= #[trigger] w[k] < m && w[k] < i && w[k]
            < j by {
            if k < x {
                assert(w[k] == v[k]);
            } else {
                assert(w[k] == v[k - x + y]);
            }
        }
        assert forall|k: int| 0 <= k <= w.len() implies s(
            #[trigger] vertex(i, j, w, k),
            vertex(i, j, w, k + 1),
        ) by {
            if k < x {
                assert(vertex(i, j, w, k) == vertex(i, j, v, k));
                assert(vertex(i, j, w, k + 1) == vertex(i, j, v, k + 1));
            } else if k == x {
                assert(vertex(i, j, w, k) == vertex(i, j, v, x));
                assert(vertex(i, j, w, k + 1) == vertex(i, j, v, x + 1));
            } else {
                assert(vertex(i, j, w, k) == vertex(i, j, v, k - x + y));
                assert(vertex(i, j, w, k + 1) == vertex(i, j, v, k - x + y + 1));
            }
        }
        lemma_simple_walk(s, i, j, w, m)
    }
}

/// Distinct vertices below `m` are at most `m`.
proof fn lemma_distinct_len(v: Seq<int>, m: int)
    requires
        v.no_duplicates(),
        m >= 0,
        forall|k: int| 0 <= k < v.len() ==> 0 <= #[trigger] v[k] < m,
    ensures
        v.len() <= m,
{
    v.unique_seq_to_set();
    let all = vstd::set_lib::set_int_range(0, m);
    vstd::set_lib::lemma_int_range(0, m);
    assert(v.to_set().subset_of(all)) by {
        assert forall|x: int| v.to_set().contains(x) implies all.contains(x) by {
            let k = choose|k: int| 0 <= k < v.len() && v[k] == x;
            assert(0 <= v[k] < m);
        }
    }
    vstd::set_lib::lemma_len_subset(v.to_set(), all);
}

/// No level at or above `n` adds fill: from there on the pattern stays the same.
pub proof fn law_fill_saturates(p: CscPattern, a: int, b: int, n: int)
    requires
        0 <= n <= a,
        n <= b,
    ensures
        kept(stored(p), a, n) == kept(stored(p), b, n),
{
    let s = stored(p);
    assert forall|i: int, j: int| #[trigger] kept(s, a, n)(i, j) == kept(s, b, n)(i, j) by {
        if kept(s, a, n)(i, j) {
            lemma_saturated(s, a, b, n, i, j);
        }
        if kept(s, b, n)(i, j) {
            lemma_saturated(s, b, a, n, i, j);
        }
    }
    assert(kept(s, a, n) =~= kept(s, b, n));
}

proof fn lemma_saturated(
    s: spec_fn(int, int) -> bool,
    a: int,
    b: int,
    n: int,
    i: int,
    j: int,
)
    requires
        0 <= n <= a,
        n <= b,
        kept(s, a, n)(i, j),
    ensures
        kept(s, b, n)(i, j),
{
    let m = if i <= j {
        i
    } else {
        j
    };
    let v = lemma_level_walk(s, a, i, j, m);
    let w = lemma_simple_walk(s, i, j, v, m);
    lemma_distinct_len(w, m);
    lemma_walk_bounds(s, b, i, j, w, m);
    assert(fill_level(s, b, i, j) <= b);
}

/// With a higher fill level both factors have at least as many entries, and every
/// entry of the lower level; from level `n` on nothing changes.
pub proof fn law_counts_grow(
    p: CscPattern,
    k1: int,
    k2: int,
    s1: SymbolicIluk,
    s2: SymbolicIluk,
)
    requires
        0 <= k1 <= k2,
        s1.describes(p, k1),
        s2.describes(p, k2),
    ensures
        within(s1.l, s2.l),
        within(s1.u, s2.u),
        s1.l.row_idx@.len() <= s2.l.row_idx@.len(),
        s1.u.row_idx@.len() <= s2.u.row_idx@.len(),
        k1 >= s1.dim ==> s1.l.same_as(s2.l) && s1.u.same_as(s2.u),
{
    let n = s1.dim as int;
    lemma_grows(p, k1, k2, s1, s2);
    lemma_within_grows(s1.l, s2.l, n);
    lemma_within_grows(s1.u, s2.u, n);
    if k1 >= n {
        law_fill_saturates(p, k1, k2, n);
        lemma_factors_within(s2, s1);
        lemma_same_pattern(s1.l, s2.l);
        lemma_same_pattern(s1.u, s2.u);
    }
}

proof fn lemma_grows(p: CscPattern, k1: int, k2: int, s1: SymbolicIluk, s2: SymbolicIluk)
    requires
        0 <= k1 <= k2,
        s1.describes(p, k1),
        s2.describes(p, k2),
    ensures
        within(s1.l, s2.l),
        within(s1.u, s2.u),
{
    let n = s1.dim as int;
    assert forall|i: int, j: int| #[trigger] lu_has(s1.l, s1.u)(i, j) implies lu_has(s2.l, s2.u)(
        i,
        j,
    ) by {
        law_fill_monotone(p, k1, k2, n, i, j);
    }
    lemma_factors_within(s1, s2);
}

/// Factors whose entries are among those of others are within them.
proof fn lemma_factors_within(s1: SymbolicIluk, s2: SymbolicIluk)
    requires
        s1.wf(),
        s2.wf(),
        s1.dim == s2.dim,
        forall|i: int, j: int| #[trigger] lu_has(s1.l, s1.u)(i, j) ==> lu_has(s2.l, s2.u)(i, j),
    ensures
        within(s1.l, s2.l),
        within(s1.u, s2.u),
{
    let n = s1.dim as int;
    assert forall|i: int, j: int| 0 <= j < n && #[trigger] s1.l.has(i, j) implies s2.l.has(i, j) by {
        s1.l.lemma_find(i, j);
        lemma_lower_col(s1.l, n, s1.l.find(i, j), j);
        if i == j {
            s2.l.lemma_col_bounds(j);
            assert(s2.l.start(j) < s2.l.end(j));
            assert(s2.l.in_col(s2.l.start(j), j));
            assert(s2.l.row_idx@[s2.l.start(j)] == j);
        } else {
            assert(lu_has(s1.l, s1.u)(i, j));
            assert(lu_has(s2.l, s2.u)(i, j));
        }
    }
    assert forall|i: int, j: int| 0 <= j < n && #[trigger] s1.u.has(i, j) implies s2.u.has(i, j) by {
        s1.u.lemma_find(i, j);
        lemma_upper_col(s1.u, n, s1.u.find(i, j), j);
        assert(lu_has(s1.l, s1.u)(i, j));
        assert(lu_has(s2.l, s2.u)(i, j));
    }
}

} // verus!
