//! Eliminating one row of the threshold factorisation.
//!
//! Columns carry two names: the *label* of a column is its index in `A`, and its
//! *position* is where the column permutation puts it. Rows are worked on by
//! label, so that a later exchange of columns needs no relabelling; the pivots
//! already chosen occupy the positions below the current row, and keep them.
use vstd::prelude::*;

use crate::heap::{heap_pop_min, heap_push, is_heap};
use crate::scalar::{RealScalar, Scalar};

verus! {

/// A sparse row: the labels of its entries and their values.
#[derive(Debug)]
pub struct SparseRow<T> {
    pub idx: Vec<usize>,
    pub val: Vec<T>,
}

/// Position of label `c` in `idx`.
pub open spec fn slot(idx: Seq<usize>, c: int) -> int {
    choose|t: int| 0 <= t < idx.len() && #[trigger] idx[t] == c
}

/// Label `c` is listed in `idx`.
pub open spec fn listed(idx: Seq<usize>, c: int) -> bool {
    exists|t: int| 0 <= t < idx.len() && #[trigger] idx[t] == c
}

impl<T> SparseRow<T> {
    pub open spec fn wf(&self, n: int) -> bool {
        &&& self.idx@.len() == self.val@.len()
        &&& self.idx@.no_duplicates()
        &&& forall|t: int| 0 <= t < self.idx@.len() ==> (#[trigger] self.idx@[t]) < n
    }

    /// The entries of the row, by label.
    pub open spec fn map(&self) -> Map<int, T> {
        Map::new(|c: int| listed(self.idx@, c), |c: int| self.val@[slot(self.idx@, c)])
    }

    pub proof fn lemma_map_at(&self, n: int, t: int)
        requires
            self.wf(n),
            0 <= t < self.idx@.len(),
        ensures
            self.map().dom().contains(self.idx@[t] as int),
            self.map()[self.idx@[t] as int] == self.val@[t],
    {
        let c = self.idx@[t] as int;
        assert(listed(self.idx@, c));
        let s = slot(self.idx@, c);
        assert(0 <= s < self.idx@.len() && self.idx@[s] == c);
        assert(s == t);
    }
}

/// The rows as maps.
pub open spec fn row_maps<T>(rows: Seq<SparseRow<T>>) -> Seq<Map<int, T>> {
    Seq::new(rows.len(), |m: int| rows[m].map())
}

/// Entry `c` of a row, or `None` where it has none, once the first `k` pivots
/// have been eliminated from it.
///
/// Pivot `m` has label `piv[m]` and the row `u[m]`, whose entry at its own label
/// is the pivot value. Eliminating it turns the row's entry at that label into
/// the multiplier. A multiplier below `tau` in magnitude is dropped, and the
/// pivot then changes nothing else; otherwise the multiple of its row is
/// subtracted.
pub open spec fn acc<T: Scalar>(
    a: spec_fn(int) -> Option<T>,
    tau: T::Real,
    piv: Seq<usize>,
    u: Seq<Map<int, T>>,
    k: int,
    c: int,
) -> Option<T>
    decreases k,
{
    if k <= 0 {
        a(c)
    } else {
        let m = k - 1;
        let pl = piv[m] as int;
        let before = acc(a, tau, piv, u, m, c);
        match acc(a, tau, piv, u, m, pl) {
            None => before,
            Some(x) => {
                let mult = x.times(u[m][pl].reciprocal());
                if mult.magnitude().below(tau) {
                    if c == pl {
                        None
                    } else {
                        before
                    }
                } else if c == pl {
                    Some(mult)
                } else if u[m].dom().contains(c) {
                    let upd = mult.times(u[m][c]);
                    match before {
                        Some(y) => Some(y.minus(upd)),
                        None => Some(T::null().minus(upd)),
                    }
                } else {
                    before
                }
            },
        }
    }
}

/// The labels in `list` at which the row `r` has no entry yet, in order.
pub open spec fn fresh<T>(r: spec_fn(int) -> Option<T>, list: Seq<usize>) -> Seq<usize>
    decreases list.len(),
{
    if list.len() == 0 {
        Seq::empty()
    } else {
        let before = fresh(r, list.drop_last());
        if r(list.last() as int) is None {
            before.push(list.last())
        } else {
            before
        }
    }
}

/// The labels at which a row was given an entry while its first `k` pivots were
/// eliminated, in the order in which that happened. It starts with the labels
/// `first` of the source row; a pivot that is not dropped adds the labels of its
/// own row, listed in `tails`, at which there was no entry.
pub open spec fn scan<T: Scalar>(
    a: spec_fn(int) -> Option<T>,
    first: Seq<usize>,
    tau: T::Real,
    piv: Seq<usize>,
    u: Seq<Map<int, T>>,
    tails: Seq<Seq<usize>>,
    k: int,
) -> Seq<usize>
    decreases k,
{
    if k <= 0 {
        first
    } else {
        let m = k - 1;
        let pl = piv[m] as int;
        let before = scan(a, first, tau, piv, u, tails, m);
        match acc(a, tau, piv, u, m, pl) {
            None => before,
            Some(x) => if x.times(u[m][pl].reciprocal()).magnitude().below(tau) {
                before
            } else {
                before + fresh(|c: int| acc(a, tau, piv, u, m, c), tails[m])
            },
        }
    }
}

/// The labels of each row after its pivot.
pub open spec fn row_tails<T>(rows: Seq<SparseRow<T>>) -> Seq<Seq<usize>> {
    Seq::new(rows.len(), |m: int| rows[m].idx@.subrange(1, rows[m].idx@.len() as int))
}

/// Rows that have the same entries have the same fresh labels.
pub proof fn lemma_fresh_agree<T>(
    r: spec_fn(int) -> Option<T>,
    q: spec_fn(int) -> Option<T>,
    list: Seq<usize>,
)
    requires
        forall|t: int|
            0 <= t < list.len() ==> (r((#[trigger] list[t]) as int) is None <==> q(
                list[t] as int,
            ) is None),
    ensures
        fresh(r, list) == fresh(q, list),
    decreases list.len(),
{
    if list.len() > 0 {
        let l1 = list.drop_last();
        assert forall|t: int| 0 <= t < l1.len() implies (r((#[trigger] l1[t]) as int) is None
            <==> q(l1[t] as int) is None) by {
            assert(l1[t] == list[t]);
        }
        lemma_fresh_agree(r, q, l1);
        assert(list[list.len() - 1] == list.last());
    }
}

/// The scan looks only at the first `k` pivots.
pub proof fn lemma_scan_prefix<T: Scalar>(
    a: spec_fn(int) -> Option<T>,
    first: Seq<usize>,
    tau: T::Real,
    piv: Seq<usize>,
    u: Seq<Map<int, T>>,
    tails: Seq<Seq<usize>>,
    piv2: Seq<usize>,
    u2: Seq<Map<int, T>>,
    tails2: Seq<Seq<usize>>,
    k: int,
)
    requires
        forall|m: int| 0 <= m < k ==> #[trigger] piv[m] == piv2[m],
        forall|m: int| 0 <= m < k ==> #[trigger] u[m] == u2[m],
        forall|m: int| 0 <= m < k ==> #[trigger] tails[m] == tails2[m],
    ensures
        scan(a, first, tau, piv, u, tails, k) == scan(a, first, tau, piv2, u2, tails2, k),
    decreases k,
{
    if k > 0 {
        let m = k - 1;
        assert(piv[m] == piv2[m]);
        assert(u[m] == u2[m]);
        assert(tails[m] == tails2[m]);
        lemma_scan_prefix(a, first, tau, piv, u, tails, piv2, u2, tails2, m);
        lemma_acc_prefix(a, tau, piv, u, piv2, u2, m, piv[m] as int);
        let r = |c: int| acc(a, tau, piv, u, m, c);
        let q = |c: int| acc(a, tau, piv2, u2, m, c);
        assert forall|c: int| #[trigger] r(c) == q(c) by {
            lemma_acc_prefix(a, tau, piv, u, piv2, u2, m, c);
        }
        assert(r =~= q);
    }
}

/// Pivots at which the row has no entry add nothing to the scan.
pub proof fn lemma_scan_skip<T: Scalar>(
    a: spec_fn(int) -> Option<T>,
    first: Seq<usize>,
    tau: T::Real,
    piv: Seq<usize>,
    u: Seq<Map<int, T>>,
    tails: Seq<Seq<usize>>,
    k1: int,
    k2: int,
)
    requires
        0 <= k1 <= k2,
        forall|q: int| k1 <= q < k2 ==> acc(a, tau, piv, u, k1, (#[trigger] piv[q]) as int) is None,
    ensures
        scan(a, first, tau, piv, u, tails, k2) == scan(a, first, tau, piv, u, tails, k1),
    decreases k2,
{
    if k1 < k2 {
        lemma_scan_skip(a, first, tau, piv, u, tails, k1, k2 - 1);
        lemma_acc_skip(a, tau, piv, u, k1, k2 - 1, piv[k2 - 1] as int);
        assert(acc(a, tau, piv, u, k1, piv[k2 - 1] as int) is None);
    }
}

/// `perm` and `inv` are inverse permutations of `0 .. n`.
pub open spec fn inverse_perms(perm: Seq<usize>, inv: Seq<usize>, n: int) -> bool {
    &&& perm.len() == n
    &&& inv.len() == n
    &&& forall|k: int| 0 <= k < n ==> (#[trigger] perm[k]) < n && inv[perm[k] as int] == k
    &&& forall|c: int| 0 <= c < n ==> (#[trigger] inv[c]) < n && perm[inv[c] as int] == c
}

/// The elimination looks only at the first `k` pivots.
pub proof fn lemma_acc_prefix<T: Scalar>(
    a: spec_fn(int) -> Option<T>,
    tau: T::Real,
    piv: Seq<usize>,
    u: Seq<Map<int, T>>,
    piv2: Seq<usize>,
    u2: Seq<Map<int, T>>,
    k: int,
    c: int,
)
    requires
        forall|m: int| 0 <= m < k ==> #[trigger] piv[m] == piv2[m],
        forall|m: int| 0 <= m < k ==> #[trigger] u[m] == u2[m],
    ensures
        acc(a, tau, piv, u, k, c) == acc(a, tau, piv2, u2, k, c),
    decreases k,
{
    if k > 0 {
        assert(piv[k - 1] == piv2[k - 1]);
        assert(u[k - 1] == u2[k - 1]);
        lemma_acc_prefix(a, tau, piv, u, piv2, u2, k - 1, c);
        lemma_acc_prefix(a, tau, piv, u, piv2, u2, k - 1, piv[k - 1] as int);
    }
}

/// Pivots at which the row has no entry leave it alone.
pub proof fn lemma_acc_skip<T: Scalar>(
    a: spec_fn(int) -> Option<T>,
    tau: T::Real,
    piv: Seq<usize>,
    u: Seq<Map<int, T>>,
    k1: int,
    k2: int,
    c: int,
)
    requires
        0 <= k1 <= k2,
        forall|q: int| k1 <= q < k2 ==> acc(a, tau, piv, u, k1, (#[trigger] piv[q]) as int) is None,
    ensures
        acc(a, tau, piv, u, k2, c) == acc(a, tau, piv, u, k1, c),
    decreases k2,
{
    if k1 < k2 {
        lemma_acc_skip(a, tau, piv, u, k1, k2 - 1, c);
        lemma_acc_skip(a, tau, piv, u, k1, k2 - 1, piv[k2 - 1] as int);
        assert(acc(a, tau, piv, u, k1, piv[k2 - 1] as int) is None);
    }
}

/// The working row: `w` by label, `used` the labels that were ever set (those
/// dropped since lie at positions before `from`), and `heap` the positions in
/// `from .. i` that are live.
pub open spec fn work_ok<T>(
    w: Seq<Option<T>>,
    used: Seq<usize>,
    heap: Seq<usize>,
    perm: Seq<usize>,
    inv: Seq<usize>,
    from: int,
    i: int,
) -> bool {
    &&& is_heap(heap)
    &&& heap.no_duplicates()
    &&& used.no_duplicates()
    &&& forall|x: usize| #[trigger]
        heap.contains(x) <==> from <= x < i && w[perm[x as int] as int] is Some
    &&& forall|c: usize| #[trigger]
        used.contains(c) ==> c < w.len() && (w[c as int] is Some || inv[c as int] < from)
    &&& forall|c: int| 0 <= c < w.len() && #[trigger] w[c] is Some ==> used.contains(c as usize)
}

pub proof fn lemma_push_contains(v: Seq<usize>, x: usize)
    ensures
        forall|y: usize| #[trigger] v.push(x).contains(y) <==> v.contains(y) || y == x,
        v.no_duplicates() && !v.contains(x) ==> v.push(x).no_duplicates(),
{
    assert forall|y: usize| #[trigger] v.push(x).contains(y) <==> v.contains(y) || y == x by {
        if v.contains(y) {
            let t = choose|t: int| 0 <= t < v.len() && v[t] == y;
            assert(v.push(x)[t] == y);
        }
        assert(v.push(x)[v.len() as int] == x);
    }
    if v.no_duplicates() && !v.contains(x) {
        assert(v.push(x).no_duplicates());
    }
}

/// Gives label `c`, which was never set, its first value.
pub(crate) fn touch<T>(
    w: &mut Vec<Option<T>>,
    used: &mut Vec<usize>,
    heap: &mut Vec<usize>,
    perm_inv: &Vec<usize>,
    c: usize,
    x: T,
    i: usize,
    Ghost(perm): Ghost<Seq<usize>>,
    Ghost(from): Ghost<int>,
)
    requires
        inverse_perms(perm, perm_inv@, old(w)@.len() as int),
        c < old(w)@.len(),
        !old(used)@.contains(c),
        0 <= from <= perm_inv@[c as int],
        i <= old(w)@.len(),
        work_ok(old(w)@, old(used)@, old(heap)@, perm, perm_inv@, from, i as int),
    ensures
        final(w)@ == old(w)@.update(c as int, Some(x)),
        final(used)@ == old(used)@.push(c),
        work_ok(final(w)@, final(used)@, final(heap)@, perm, perm_inv@, from, i as int),
{
    let ghost w0 = w@;
    let ghost used0 = used@;
    let ghost heap0 = heap@;
    proof {
        lemma_push_contains(used@, c);
        if w0[c as int] is Some {
            assert(used0.contains(c));
        }
    }
    w.set(c, Some(x));
    used.push(c);
    let k: usize = perm_inv[c];
    if k < i {
        assert(!heap0.contains(k)) by {
            if heap0.contains(k) {
                assert(w0[perm[k as int] as int] is Some);
                assert(perm[perm_inv@[c as int] as int] == c);
            }
        }
        heap_push(heap, k);
    }
    proof {
        assert forall|x: usize| #[trigger] heap@.contains(x) <==> from <= x < i
            && w@[perm[x as int] as int] is Some by {
            if from <= x < i {
                assert(perm[x as int] < w@.len());
                if perm[x as int] == c {
                    assert(perm_inv@[perm[x as int] as int] == x);
                } else {
                    assert(w@[perm[x as int] as int] == w0[perm[x as int] as int]);
                }
                assert(heap0.contains(x) <==> w0[perm[x as int] as int] is Some);
            }
            if x == k {
                assert(perm[perm_inv@[c as int] as int] == c);
            }
        }
    }
}

/// `w` holds the row after the first `k` pivots.
pub open spec fn acc_ok<T: Scalar>(
    w: Seq<Option<T>>,
    a: spec_fn(int) -> Option<T>,
    tau: T::Real,
    piv: Seq<usize>,
    u: Seq<Map<int, T>>,
    k: int,
) -> bool {
    forall|c: int| 0 <= c < w.len() ==> #[trigger] w[c] == acc(a, tau, piv, u, k, c)
}

/// Subtracts `mult` times the row of pivot `k` from the working row.
fn subtract_row<T: Scalar>(
    row: &SparseRow<T>,
    mult: &T,
    w: &mut Vec<Option<T>>,
    used: &mut Vec<usize>,
    heap: &mut Vec<usize>,
    perm_inv: &Vec<usize>,
    k: usize,
    i: usize,
    Ghost(perm): Ghost<Seq<usize>>,
    Ghost(target): Ghost<spec_fn(int) -> Option<T>>,
    Ghost(before): Ghost<Seq<Option<T>>>,
)
    requires
        inverse_perms(perm, perm_inv@, old(w)@.len() as int),
        k < i <= old(w)@.len(),
        row.wf(old(w)@.len() as int),
        row.idx@.len() > 0,
        row.idx@[0] == perm[k as int],
        forall|t: int|
            0 < t < row.idx@.len() ==> perm_inv@[(#[trigger] row.idx@[t]) as int] > k,
        work_ok(old(w)@, old(used)@, old(heap)@, perm, perm_inv@, k + 1, i as int),
        before.len() == old(w)@.len(),
        forall|c: int|
            0 <= c < before.len() && c != perm[k as int] ==> #[trigger] old(w)@[c] == before[c],
        old(w)@[perm[k as int] as int] == target(perm[k as int] as int),
        forall|c: int|
            0 <= c < before.len() && !row.map().dom().contains(c) ==> #[trigger] target(c) == before[c],
        forall|c: int|
            0 <= c < before.len() && c != perm[k as int] && row.map().dom().contains(c)
                ==> #[trigger] target(c) == Some(
                match before[c] {
                    Some(y) => y.minus(mult.times(row.map()[c])),
                    None => T::null().minus(mult.times(row.map()[c])),
                },
            ),
    ensures
        final(w)@.len() == old(w)@.len(),
        forall|c: int| 0 <= c < before.len() ==> #[trigger] final(w)@[c] == target(c),
        work_ok(final(w)@, final(used)@, final(heap)@, perm, perm_inv@, k + 1, i as int),
        final(used)@ == old(used)@ + fresh(
            |c: int| before[c],
            row.idx@.subrange(1, row.idx@.len() as int),
        ),
{
    let ghost n = w@.len() as int;
    let ghost pl = perm[k as int] as int;
    let ghost used0 = used@;
    let ghost held = |c: int| before[c];
    let mut t: usize = 1;
    proof {
        assert(row.idx@.subrange(1, 1) =~= Seq::<usize>::empty());
        assert(used@ =~= used0 + fresh(held, row.idx@.subrange(1, 1)));
        assert forall|c: int|
            0 <= c < n implies #[trigger] w@[c] == if c == pl || exists|r: int|
            0 < r < 1 && #[trigger] row.idx@[r] == c {
            target(c)
        } else {
            before[c]
        } by {}
    }
    while t < row.idx.len()
        invariant
            n == w@.len(),
            before.len() == n,
            k < i <= n,
            pl == perm[k as int],
            inverse_perms(perm, perm_inv@, n),
            row.wf(n),
            1 <= t <= row.idx@.len(),
            row.idx@[0] == pl,
            forall|r: int|
                0 < r < row.idx@.len() ==> perm_inv@[(#[trigger] row.idx@[r]) as int] > k,
            work_ok(w@, used@, heap@, perm, perm_inv@, k + 1, i as int),
            held == (|c: int| before[c]),
            used@ == used0 + fresh(held, row.idx@.subrange(1, t as int)),
            forall|c: int|
                0 <= c < n ==> #[trigger] w@[c] == if c == pl || exists|r: int|
                    0 < r < t && #[trigger] row.idx@[r] == c {
                    target(c)
                } else {
                    before[c]
                },
            forall|c: int|
                0 <= c < before.len() && c != pl && row.map().dom().contains(c)
                    ==> #[trigger] target(c) == Some(
                    match before[c] {
                        Some(y) => y.minus(mult.times(row.map()[c])),
                        None => T::null().minus(mult.times(row.map()[c])),
                    },
                ),
        decreases row.idx.len() - t,
    {
        let c: usize = row.idx[t];
        let ghost cc = c as int;
        let ghost w0 = w@;
        proof {
            let done = row.idx@.subrange(1, t as int);
            let next = row.idx@.subrange(1, t + 1);
            assert(next.drop_last() =~= done);
            assert(next.last() == c);
            row.lemma_map_at(n, t as int);
            assert(row.idx@[0] != row.idx@[t as int]);
            assert(!(exists|r: int| 0 < r < t && #[trigger] row.idx@[r] == cc));
            assert(w@[cc] == before[cc]);
        }
        let upd: T = mult.mul(&row.val[t]);
        match &w[c] {
            Some(y) => {
                let x: T = y.sub(&upd);
                w.set(c, Some(x));
                proof {
                    assert forall|x: usize| #[trigger] heap@.contains(x) <==> k + 1 <= x < i
                        && w@[perm[x as int] as int] is Some by {
                        if k + 1 <= x < i {
                            assert(perm[x as int] < n);
                            assert(w0[perm[x as int] as int] is Some
                                <==> w@[perm[x as int] as int] is Some);
                        }
                    }
                    assert forall|b: int| 0 <= b < w@.len() && #[trigger] w@[b] is Some implies
                        used@.contains(b as usize) by {
                        assert(w0[b] is Some);
                    }
                }
            },
            None => {
                let x: T = T::zero().sub(&upd);
                touch(w, used, heap, perm_inv, c, x, i, Ghost(perm), Ghost(k + 1));
            },
        }
        proof {
            assert(used@ =~= used0 + fresh(held, row.idx@.subrange(1, t + 1)));
            assert(w@[cc] == target(cc));
            assert forall|b: int| 0 <= b < n implies #[trigger] w@[b] == if b == pl || exists|r: int|
                0 < r < t + 1 && #[trigger] row.idx@[r] == b {
                target(b)
            } else {
                before[b]
            } by {
                if b == cc {
                    assert(row.idx@[t as int] == b);
                } else {
                    assert(w@[b] == w0[b]);
                    if exists|r: int| 0 < r < t && #[trigger] row.idx@[r] == b {
                        let r = choose|r: int| 0 < r < t && #[trigger] row.idx@[r] == b;
                        assert(0 < r < t + 1 && row.idx@[r] == b);
                    } else {
                        assert(!(exists|r: int| 0 < r < t + 1 && #[trigger] row.idx@[r] == b));
                    }
                }
            }
        }
        t += 1;
    }
    proof {
        assert forall|c: int| 0 <= c < n implies #[trigger] w@[c] == target(c) by {
            if !(c == pl || exists|r: int| 0 < r < t && #[trigger] row.idx@[r] == c) {
                if listed(row.idx@, c) {
                    let r = choose|r: int| 0 <= r < row.idx@.len() && #[trigger] row.idx@[r] == c;
                    assert(r > 0);
                }
                assert(!row.map().dom().contains(c));
                assert(target(c) == before[c]);
            }
        }
    }
}

/// What is known of the rows of the pivots already chosen.
pub open spec fn pivot_rows_ok<T>(
    rows: Seq<SparseRow<T>>,
    perm: Seq<usize>,
    inv: Seq<usize>,
    n: int,
) -> bool {
    forall|m: int|
        0 <= m < rows.len() ==> {
            &&& (#[trigger] rows[m]).wf(n)
            &&& rows[m].idx@.len() > 0
            &&& rows[m].idx@[0] == perm[m]
            &&& forall|t: int|
                0 < t < rows[m].idx@.len() ==> inv[(#[trigger] rows[m].idx@[t]) as int] > m
        }
}

/// Eliminates the pivots already chosen from the working row, in ascending
/// order of position.
pub(crate) fn eliminate_row<T: Scalar>(
    rows: &Vec<SparseRow<T>>,
    tau: &T::Real,
    w: &mut Vec<Option<T>>,
    used: &mut Vec<usize>,
    heap: &mut Vec<usize>,
    perm: &Vec<usize>,
    perm_inv: &Vec<usize>,
    Ghost(a): Ghost<spec_fn(int) -> Option<T>>,
)
    requires
        rows@.len() < old(w)@.len(),
        inverse_perms(perm@, perm_inv@, old(w)@.len() as int),
        pivot_rows_ok(rows@, perm@, perm_inv@, old(w)@.len() as int),
        acc_ok(old(w)@, a, *tau, perm@, row_maps(rows@), 0),
        work_ok(old(w)@, old(used)@, old(heap)@, perm@, perm_inv@, 0, rows@.len() as int),
    ensures
        final(w)@.len() == old(w)@.len(),
        acc_ok(final(w)@, a, *tau, perm@, row_maps(rows@), rows@.len() as int),
        final(heap)@.len() == 0,
        work_ok(
            final(w)@,
            final(used)@,
            final(heap)@,
            perm@,
            perm_inv@,
            rows@.len() as int,
            rows@.len() as int,
        ),
        final(used)@ == scan(
            a,
            old(used)@,
            *tau,
            perm@,
            row_maps(rows@),
            row_tails(rows@),
            rows@.len() as int,
        ),
{
    let i: usize = rows.len();
    let ghost n = w@.len() as int;
    let ghost u = row_maps(rows@);
    let ghost first = used@;
    let ghost tails = row_tails(rows@);
    let ghost mut from: int = 0;
    while heap.len() > 0
        invariant
            n == w@.len(),
            n == old(w)@.len(),
            i == rows@.len(),
            i < n,
            u == row_maps(rows@),
            inverse_perms(perm@, perm_inv@, n),
            pivot_rows_ok(rows@, perm@, perm_inv@, n),
            0 <= from <= i,
            acc_ok(w@, a, *tau, perm@, u, from),
            work_ok(w@, used@, heap@, perm@, perm_inv@, from, i as int),
            tails == row_tails(rows@),
            used@ == scan(a, first, *tau, perm@, u, tails, from),
        decreases i - from,
    {
        let ghost heap0 = heap@;
        let ghost w0 = w@;
        let popped: Option<usize> = heap_pop_min(heap);
        if let Some(k) = popped {
            let ghost kk = k as int;
            let c: usize = perm[k];
            proof {
                assert(heap0.contains(k));
                assert(perm@[kk] < n && perm_inv@[perm@[kk] as int] == kk);
                assert forall|q: int| from <= q < k implies acc(
                    a,
                    *tau,
                    perm@,
                    u,
                    from,
                    (#[trigger] perm@[q]) as int,
                ) is None by {
                    assert(perm@[q] < n);
                    if w@[perm@[q] as int] is Some {
                        assert(heap0.contains(q as usize));
                    }
                }
                assert forall|b: int| 0 <= b < n implies #[trigger] w@[b] == acc(
                    a,
                    *tau,
                    perm@,
                    u,
                    kk,
                    b,
                ) by {
                    lemma_acc_skip(a, *tau, perm@, u, from, kk, b);
                }
                lemma_scan_skip(a, first, *tau, perm@, u, tails, from, kk);
                assert(u[kk] == rows@[kk].map());
                rows@[kk].lemma_map_at(n, 0);
            }
            if let Some(x) = &w[c] {
                let row: &SparseRow<T> = &rows[k];
                let inv: T = row.val[0].recip();
                let mult: T = x.mul(&inv);
                let ghost target = |b: int| acc(a, *tau, perm@, u, kk + 1, b);
                assert(mult == w0[c as int]->0.times(u[kk][c as int].reciprocal()));
                if mult.abs().lt(tau) {
                    w.set(c, None);
                    proof {
                        assert forall|x: usize| #[trigger] heap@.contains(x) <==> k + 1 <= x < i
                            && w@[perm@[x as int] as int] is Some by {
                            if k + 1 <= x < i {
                                assert(perm@[x as int] < n);
                                assert(perm_inv@[perm@[x as int] as int] == x);
                                assert(w@[perm@[x as int] as int] == w0[perm@[x as int] as int]);
                                assert(heap0.contains(x) <==> w0[perm@[x as int] as int] is Some);
                            }
                            if heap@.contains(x) {
                                assert(heap0.contains(x));
                            }
                        }
                        assert forall|b: int| 0 <= b < w@.len() && #[trigger] w@[b] is Some implies
                            used@.contains(b as usize) by {
                            assert(w0[b] is Some);
                        }
                    }
                } else {
                    w.set(c, Some(mult.copy()));
                    proof {
                        assert forall|x: usize| #[trigger] heap@.contains(x) <==> k + 1 <= x < i
                            && w@[perm@[x as int] as int] is Some by {
                            if k + 1 <= x < i {
                                assert(perm@[x as int] < n);
                                assert(perm_inv@[perm@[x as int] as int] == x);
                                assert(w@[perm@[x as int] as int] == w0[perm@[x as int] as int]);
                                assert(heap0.contains(x) <==> w0[perm@[x as int] as int] is Some);
                            }
                            if heap@.contains(x) {
                                assert(heap0.contains(x));
                            }
                        }
                        assert forall|b: int| 0 <= b < w@.len() && #[trigger] w@[b] is Some implies
                            used@.contains(b as usize) by {
                            assert(w0[b] is Some);
                        }
                    }
                    subtract_row(
                        row,
                        &mult,
                        w,
                        used,
                        heap,
                        perm_inv,
                        k,
                        i,
                        Ghost(perm@),
                        Ghost(target),
                        Ghost(w0),
                    );
                    proof {
                        let held = |b: int| w0[b];
                        let r = |b: int| acc(a, *tau, perm@, u, kk, b);
                        assert(tails[kk] == row.idx@.subrange(1, row.idx@.len() as int));
                        assert forall|z: int| 0 <= z < tails[kk].len() implies (held(
                            (#[trigger] tails[kk][z]) as int,
                        ) is None <==> r(tails[kk][z] as int) is None) by {
                            assert(tails[kk][z] == row.idx@[z + 1]);
                            assert(row.idx@[z + 1] < n);
                            assert(w0[tails[kk][z] as int] == acc(
                                a,
                                *tau,
                                perm@,
                                u,
                                kk,
                                tails[kk][z] as int,
                            ));
                        }
                        lemma_fresh_agree(held, r, tails[kk]);
                    }
                }
            }
            proof {
                from = kk + 1;
                assert(acc_ok(w@, a, *tau, perm@, u, from));
            }
        }
    }
    proof {
        assert forall|q: int| from <= q < i implies acc(
            a,
            *tau,
            perm@,
            u,
            from,
            (#[trigger] perm@[q]) as int,
        ) is None by {
            assert(perm@[q] < n);
            if w@[perm@[q] as int] is Some {
                assert(heap@.contains(q as usize));
                assert(heap@.len() > 0);
            }
        }
        lemma_scan_skip(a, first, *tau, perm@, u, tails, from, i as int);
        assert forall|c: int| 0 <= c < n implies #[trigger] w@[c] == acc(
            a,
            *tau,
            perm@,
            u,
            i as int,
            c,
        ) by {
            lemma_acc_skip(a, *tau, perm@, u, from, i as int, c);
        }
    }
}

} // verus!
