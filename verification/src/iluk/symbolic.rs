//! Level-of-fill symbolic factorisation for ILU(k).
//!
//! The levels are computed row by row; the resulting row patterns are then
//! transposed into the diagonal-first `L` and diagonal-last `U` column layout.
use vstd::prelude::*;

use super::IlukError;
use crate::heap::{heap_pop_min, heap_push, is_heap, sort_ascending};
use crate::ilu0::symbolic::law_zero_fill;
use crate::ilu0::SymbolicIlu0;
use crate::lu::{
    lemma_lower_from_has, lemma_upper_from_has, lower_ok, lu_has, upper_ok,
};
use crate::inverse::eliminates_within;
use crate::sparse::{stored, CscPattern};
use crate::transpose::{
    is_transpose, lemma_transpose_has, lemma_transpose_sorted, transpose,
};
use crate::util::diag_split::{
    diag_col_ok, diag_error_of, splittable, validated_diag_pos, DiagError,
};

verus! {

/// The level of `(i, j)` once the pivots below `m` have been eliminated, with
/// every level above `cap` counted as `cap + 1`: zero where `s` stores the
/// entry, and at most `level(i, q) + level(q, j) + 1` for each eliminated pivot
/// `q` that precedes both `i` and `j`.
pub open spec fn level_after(
    s: spec_fn(int, int) -> bool,
    cap: int,
    i: int,
    j: int,
    m: int,
) -> int
    decreases m,
{
    if m <= 0 {
        if s(i, j) {
            0
        } else {
            cap + 1
        }
    } else {
        let q = m - 1;
        let before = level_after(s, cap, i, j, q);
        let via = level_after(s, cap, i, q, q) + level_after(s, cap, q, j, q) + 1;
        if q < i && q < j && via < before {
            via
        } else {
            before
        }
    }
}

/// The fill level of `(i, j)`, with every level above `cap` counted as
/// `cap + 1`.
pub open spec fn fill_level(s: spec_fn(int, int) -> bool, cap: int, i: int, j: int) -> int {
    level_after(
        s,
        cap,
        i,
        j,
        if i <= j {
            i
        } else {
            j
        },
    )
}

/// The entries of an `n x n` factor whose fill level is at most `cap`.
pub open spec fn kept(s: spec_fn(int, int) -> bool, cap: int, n: int) -> spec_fn(int, int) -> bool {
    |i: int, j: int| 0 <= i < n && 0 <= j < n && fill_level(s, cap, i, j) <= cap
}

pub proof fn lemma_level_bounds(s: spec_fn(int, int) -> bool, cap: int, i: int, j: int, m: int)
    requires
        cap >= 0,
    ensures
        0 <= level_after(s, cap, i, j, m) <= cap + 1,
    decreases m,
{
    if m > 0 {
        lemma_level_bounds(s, cap, i, j, m - 1);
        lemma_level_bounds(s, cap, i, m - 1, m - 1);
        lemma_level_bounds(s, cap, m - 1, j, m - 1);
    }
}

/// Pivots that row `i` does not reach leave its levels alone.
proof fn lemma_level_skip(
    s: spec_fn(int, int) -> bool,
    cap: int,
    i: int,
    j: int,
    k1: int,
    k2: int,
)
    requires
        cap >= 0,
        0 <= k1 <= k2,
        forall|q: int| k1 <= q < k2 ==> #[trigger] level_after(s, cap, i, q, k1) == cap + 1,
    ensures
        level_after(s, cap, i, j, k2) == level_after(s, cap, i, j, k1),
    decreases k2,
{
    if k1 < k2 {
        let q = k2 - 1;
        lemma_level_skip(s, cap, i, j, k1, q);
        lemma_level_skip(s, cap, i, q, k1, q);
        assert(level_after(s, cap, i, q, k1) == cap + 1);
        lemma_level_bounds(s, cap, q, j, q);
        lemma_level_bounds(s, cap, i, j, q);
    }
}

/// Pivots that do not precede both indices leave the level alone.
proof fn lemma_level_beyond(
    s: spec_fn(int, int) -> bool,
    cap: int,
    i: int,
    j: int,
    k1: int,
    k2: int,
)
    requires
        0 <= k1 <= k2,
        i <= k1 || j <= k1,
    ensures
        level_after(s, cap, i, j, k2) == level_after(s, cap, i, j, k1),
    decreases k2,
{
    if k1 < k2 {
        lemma_level_beyond(s, cap, i, j, k1, k2 - 1);
    }
}

/// The kept entries of one row of the factor, ascending by column.
struct FillRow {
    cols: Vec<usize>,
    levels: Vec<usize>,
}

/// Column `j` is listed.
spec fn lists(cols: Seq<usize>, j: int) -> bool {
    exists|t: int| 0 <= t < cols.len() && #[trigger] cols[t] == j
}

/// `r` lists exactly the kept entries of row `i`.
spec fn row_ok(r: FillRow, s: spec_fn(int, int) -> bool, cap: int, i: int, n: int) -> bool {
    &&& r.cols@.len() == r.levels@.len()
    &&& forall|p: int, q: int|
        0 <= p < q < r.cols@.len() ==> #[trigger] r.cols@[p] < #[trigger] r.cols@[q]
    &&& forall|t: int|
        0 <= t < r.cols@.len() ==> (#[trigger] r.cols@[t]) < n && r.levels@[t] == fill_level(
            s,
            cap,
            i,
            r.cols@[t] as int,
        ) && r.levels@[t] <= cap
    &&& forall|j: int|
        0 <= j < n && #[trigger] fill_level(s, cap, i, j) <= cap ==> lists(r.cols@, j)
}

/// The level that `o` stands for.
spec fn level_value(o: Option<usize>, cap: int) -> int {
    match o {
        Some(x) => x as int,
        None => cap + 1,
    }
}

/// `lev` holds the levels of row `i` after the pivots below `m`.
spec fn levels_ok(
    lev: Seq<Option<usize>>,
    s: spec_fn(int, int) -> bool,
    cap: int,
    i: int,
    m: int,
) -> bool {
    &&& forall|j: int|
        0 <= j < lev.len() ==> level_value(#[trigger] lev[j], cap) == level_after(s, cap, i, j, m)
    &&& forall|j: int| 0 <= j < lev.len() && #[trigger] lev[j] is Some ==> lev[j]->0 <= cap
}

/// `touched` lists the columns with a level, each once, and `heap` those of
/// them that lie in `from .. i`.
spec fn lists_ok(
    lev: Seq<Option<usize>>,
    touched: Seq<usize>,
    heap: Seq<usize>,
    from: int,
    i: int,
) -> bool {
    &&& is_heap(heap)
    &&& heap.no_duplicates()
    &&& touched.no_duplicates()
    &&& forall|x: usize| #[trigger]
        heap.contains(x) <==> from <= x < i && x < lev.len() && lev[x as int] is Some
    &&& forall|x: usize| #[trigger]
        touched.contains(x) <==> x < lev.len() && lev[x as int] is Some
}

proof fn lemma_push_contains(v: Seq<usize>, x: usize)
    ensures
        forall|y: usize| #[trigger] v.push(x).contains(y) <==> v.contains(y) || y == x,
        v.no_duplicates() && !v.contains(x) ==> v.push(x).no_duplicates(),
{
    assert forall|y: usize| #[trigger] v.push(x).contains(y) <==> v.contains(y) || y == x by {
        if v.contains(y) {
            let t = choose|t: int| 0 <= t < v.len() && v[t] == y;
            assert(v.push(x)[t] == y);
        }
        assert(v.push(x)[v.len() as int] == x);
    }
    if v.no_duplicates() && !v.contains(x) {
        assert(v.push(x).no_duplicates());
    }
}

/// Records column `j` of the row with its first level.
fn touch(
    lev: &mut Vec<Option<usize>>,
    touched: &mut Vec<usize>,
    heap: &mut Vec<usize>,
    j: usize,
    level: usize,
    i: usize,
    Ghost(from): Ghost<int>,
)
    requires
        j < old(lev)@.len(),
        from <= j,
        old(lev)@[j as int] is None,
        lists_ok(old(lev)@, old(touched)@, old(heap)@, from, i as int),
    ensures
        final(lev)@ == old(lev)@.update(j as int, Some(level)),
        lists_ok(final(lev)@, final(touched)@, final(heap)@, from, i as int),
{
    proof {
        lemma_push_contains(touched@, j);
    }
    lev.set(j, Some(level));
    touched.push(j);
    if j < i {
        heap_push(heap, j);
    }
}

/// Merges row `k`, whose own level in row `i` is `lk`, into row `i`.
fn merge_row(
    row: &FillRow,
    lk: usize,
    k: usize,
    i: usize,
    level: usize,
    lev: &mut Vec<Option<usize>>,
    touched: &mut Vec<usize>,
    heap: &mut Vec<usize>,
    Ghost(s): Ghost<spec_fn(int, int) -> bool>,
)
    requires
        k < i < old(lev)@.len(),
        row_ok(*row, s, level as int, k as int, old(lev)@.len() as int),
        levels_ok(old(lev)@, s, level as int, i as int, k as int),
        lists_ok(old(lev)@, old(touched)@, old(heap)@, k + 1, i as int),
        lk == level_after(s, level as int, i as int, k as int, k as int),
        lk <= level,
    ensures
        final(lev)@.len() == old(lev)@.len(),
        levels_ok(final(lev)@, s, level as int, i as int, k + 1),
        lists_ok(final(lev)@, final(touched)@, final(heap)@, k + 1, i as int),
{
    let ghost n = lev@.len() as int;
    let ghost cap = level as int;
    let ghost ii = i as int;
    let ghost kk = k as int;
    let mut t: usize = 0;
    while t < row.cols.len()
        invariant
            n == lev@.len(),
            cap == level,
            ii == i,
            kk == k,
            k < i < n,
            n == old(lev)@.len(),
            row_ok(*row, s, cap, kk, n),
            lk == level_after(s, cap, ii, kk, kk),
            lk <= level,
            t <= row.cols@.len(),
            lists_ok(lev@, touched@, heap@, kk + 1, ii),
            forall|j: int|
                0 <= j < n ==> level_value(#[trigger] lev@[j], cap) == level_after(
                    s,
                    cap,
                    ii,
                    j,
                    if exists|r: int| 0 <= r < t && #[trigger] row.cols@[r] == j {
                        kk + 1
                    } else {
                        kk
                    },
                ),
            forall|j: int| 0 <= j < n && #[trigger] lev@[j] is Some ==> lev@[j]->0 <= cap,
        decreases row.cols.len() - t,
    {
        let j: usize = row.cols[t];
        let lkj: usize = row.levels[t];
        let ghost jj = j as int;
        let ghost lev0 = lev@;
        proof {
            assert(row.cols@[t as int] < n);
            assert(!(exists|r: int| 0 <= r < t && #[trigger] row.cols@[r] == jj));
            lemma_level_bounds(s, cap, ii, jj, kk);
        }
        if j > k && lkj < level - lk {
            let nl: usize = lk + lkj + 1;
            assert(lkj == level_after(s, cap, kk, jj, kk));
            match lev[j] {
                None => {
                    touch(lev, touched, heap, j, nl, i, Ghost(kk + 1));
                },
                Some(c) => {
                    if nl < c {
                        lev.set(j, Some(nl));
                        proof {
                            assert forall|x: usize| #[trigger]
                                heap@.contains(x) <==> kk + 1 <= x < i && x < lev@.len()
                                    && lev@[x as int] is Some by {
                                if x < lev@.len() {
                                    assert(lev@[x as int] is Some <==> lev0[x as int] is Some);
                                }
                            }
                        }
                    }
                },
            }
        } else {
            assert(level_after(s, cap, ii, jj, kk + 1) == level_after(s, cap, ii, jj, kk)) by {
                if j > k {
                    assert(lkj == level_after(s, cap, kk, jj, kk));
                }
            }
        }
        proof {
            assert(level_value(lev@[jj], cap) == level_after(s, cap, ii, jj, kk + 1));
            assert forall|x: int| 0 <= x < n implies level_value(#[trigger] lev@[x], cap)
                == level_after(
                s,
                cap,
                ii,
                x,
                if exists|r: int| 0 <= r < t + 1 && #[trigger] row.cols@[r] == x {
                    kk + 1
                } else {
                    kk
                },
            ) by {
                if x == jj {
                    assert(row.cols@[t as int] == x);
                } else {
                    assert(lev@[x] == lev0[x]);
                    if exists|r: int| 0 <= r < t && #[trigger] row.cols@[r] == x {
                        let r = choose|r: int| 0 <= r < t && #[trigger] row.cols@[r] == x;
                        assert(0 <= r < t + 1 && row.cols@[r] == x);
                    } else {
                        assert(!(exists|r: int| 0 <= r < t + 1 && #[trigger] row.cols@[r] == x));
                    }
                }
            }
        }
        t += 1;
    }
    proof {
        assert forall|j: int| 0 <= j < n implies level_value(#[trigger] lev@[j], cap)
            == level_after(s, cap, ii, j, kk + 1) by {
            if !(exists|r: int| 0 <= r < t && #[trigger] row.cols@[r] == j) {
                if j > kk {
                    lemma_level_bounds(s, cap, kk, j, kk);
                    lemma_level_bounds(s, cap, ii, j, kk);
                    assert(!lists(row.cols@, j));
                    assert(fill_level(s, cap, kk, j) == level_after(s, cap, kk, j, kk));
                    assert(fill_level(s, cap, kk, j) > cap);
                }
                assert(level_after(s, cap, ii, j, kk + 1) == level_after(s, cap, ii, j, kk));
            }
        }
    }
}

/// Computes the kept entries of row `i` from those of the rows above it.
fn fill_row(
    t: &CscPattern,
    i: usize,
    level: usize,
    rows: &Vec<FillRow>,
    lev: &mut Vec<Option<usize>>,
    Ghost(s): Ghost<spec_fn(int, int) -> bool>,
) -> (r: FillRow)
    requires
        t.wf(),
        t.sorted(),
        t.nrows == t.ncols,
        i < t.ncols,
        old(lev)@.len() == t.ncols,
        rows@.len() == i,
        forall|j: int| 0 <= j < t.ncols ==> (s(i as int, j) <==> #[trigger] t.has(j, i as int)),
        forall|k: int|
            0 <= k < i ==> row_ok(#[trigger] rows@[k], s, level as int, k, t.ncols as int),
        forall|j: int| 0 <= j < t.ncols ==> #[trigger] old(lev)@[j] is None,
    ensures
        row_ok(r, s, level as int, i as int, t.ncols as int),
        final(lev)@.len() == t.ncols,
        forall|j: int| 0 <= j < t.ncols ==> #[trigger] final(lev)@[j] is None,
{
    let ghost n = t.ncols as int;
    let ghost cap = level as int;
    let ghost ii = i as int;
    let mut touched: Vec<usize> = Vec::new();
    let mut heap: Vec<usize> = Vec::new();
    let rs: usize = t.col_ptr[i];
    let re: usize = t.col_ptr[i + 1];
    proof {
        t.lemma_col_bounds(ii);
        assert(t.sorted_col(ii));
        assert forall|x: usize| #[trigger] heap@.contains(x) <==> 0 <= x < i && x < lev@.len()
            && lev@[x as int] is Some by {}
    }
    let mut p: usize = rs;
    while p < re
        invariant
            n == t.ncols,
            cap == level,
            ii == i,
            i < t.ncols,
            t.wf(),
            t.nrows == t.ncols,
            t.sorted_col(ii),
            rs == t.start(ii),
            re == t.end(ii),
            rs <= p <= re <= t.row_idx@.len(),
            lev@.len() == n,
            lists_ok(lev@, touched@, heap@, 0, ii),
            forall|j: int|
                0 <= j < n ==> (#[trigger] lev@[j] is Some <==> exists|q: int|
                    rs <= q < p && #[trigger] t.row_idx@[q] == j),
            forall|j: int| 0 <= j < n && #[trigger] lev@[j] is Some ==> lev@[j]->0 == 0,
        decreases re - p,
    {
        let j: usize = t.row_idx[p];
        let ghost lev0 = lev@;
        assert(lev@[j as int] is None);
        touch(lev, &mut touched, &mut heap, j, 0, i, Ghost(0));
        proof {
            assert forall|x: int| 0 <= x < n implies (#[trigger] lev@[x] is Some <==> exists|q: int|
                rs <= q < p + 1 && #[trigger] t.row_idx@[q] == x) by {
                if x == j {
                    assert(t.row_idx@[p as int] == x);
                } else {
                    assert(lev@[x] == lev0[x]);
                    if lev0[x] is Some {
                        let q = choose|q: int| rs <= q < p && #[trigger] t.row_idx@[q] == x;
                        assert(rs <= q < p + 1 && t.row_idx@[q] == x);
                    }
                }
            }
        }
        p += 1;
    }
    let ghost mut from: int = 0;
    proof {
        assert forall|j: int| 0 <= j < n implies level_value(#[trigger] lev@[j], cap)
            == level_after(s, cap, ii, j, 0) by {
            if t.has(j, ii) {
                t.lemma_find(j, ii);
                assert(t.row_idx@[t.find(j, ii)] == j);
            }
            if lev@[j] is Some {
                let q = choose|q: int| rs <= q < p && #[trigger] t.row_idx@[q] == j;
                assert(t.in_col(q, ii));
                assert(t.has(j, ii));
            }
            assert(s(ii, j) <==> t.has(j, ii));
        }
    }
    while heap.len() > 0
        invariant
            n == t.ncols,
            cap == level,
            ii == i,
            i < n,
            lev@.len() == n,
            rows@.len() == i,
            forall|k: int| 0 <= k < i ==> row_ok(#[trigger] rows@[k], s, cap, k, n),
            0 <= from <= ii,
            levels_ok(lev@, s, cap, ii, from),
            lists_ok(lev@, touched@, heap@, from, ii),
        decreases ii - from,
    {
        let ghost heap0 = heap@;
        let popped: Option<usize> = heap_pop_min(&mut heap);
        if let Some(k) = popped {
            proof {
                assert(heap0.contains(k));
                assert forall|q: int| from <= q < k implies #[trigger] level_after(
                    s,
                    cap,
                    ii,
                    q,
                    from,
                ) == cap + 1 by {
                    if lev@[q] is Some {
                        assert(heap0.contains(q as usize));
                    }
                    assert(level_value(lev@[q], cap) == level_after(s, cap, ii, q, from));
                }
                assert forall|j: int| 0 <= j < n implies level_value(#[trigger] lev@[j], cap)
                    == level_after(s, cap, ii, j, k as int) by {
                    lemma_level_skip(s, cap, ii, j, from, k as int);
                }
                assert forall|x: usize| #[trigger]
                    heap@.contains(x) <==> k + 1 <= x < i && x < lev@.len()
                        && lev@[x as int] is Some by {
                    if k + 1 <= x < i && x < lev@.len() && lev@[x as int] is Some {
                        assert(heap0.contains(x));
                    }
                    if heap@.contains(x) {
                        assert(heap0.contains(x));
                        assert(k <= x);
                    }
                }
            }
            if let Some(lk) = lev[k] {
                assert(level_value(lev@[k as int], cap) == lk);
                merge_row(&rows[k], lk, k, i, level, lev, &mut touched, &mut heap, Ghost(s));
            }
            proof {
                from = k + 1;
            }
        }
    }
    proof {
        assert forall|j: int| 0 <= j < n implies level_value(#[trigger] lev@[j], cap)
            == fill_level(s, cap, ii, j) by {
            assert forall|q: int| from <= q < ii implies #[trigger] level_after(
                s,
                cap,
                ii,
                q,
                from,
            ) == cap + 1 by {
                if lev@[q] is Some {
                    assert(heap@.contains(q as usize));
                    assert(heap@.len() > 0);
                }
                assert(level_value(lev@[q], cap) == level_after(s, cap, ii, q, from));
            }
            lemma_level_skip(s, cap, ii, j, from, ii);
            if j < ii {
                lemma_level_beyond(s, cap, ii, j, j, ii);
            }
        }
    }
    let ghost touched0 = touched@;
    sort_ascending(&mut touched);
    let mut levels: Vec<usize> = Vec::with_capacity(touched.len());
    let ghost lev1 = lev@;
    proof {
        assert forall|a: int| 0 <= a < touched@.len() implies lev@[(
        #[trigger] touched@[a]) as int] is Some by {
            assert(touched@.contains(touched@[a]));
        }
        assert forall|j: int| 0 <= j < n && #[trigger] lev@[j] is Some implies exists|a: int|
            0 <= a < touched@.len() && #[trigger] touched@[a] == j by {
            assert(touched@.contains(j as usize));
            let a = choose|a: int| 0 <= a < touched@.len() && touched@[a] == j as usize;
            assert(touched@[a] == j);
        }
    }
    let mut q: usize = 0;
    while q < touched.len()
        invariant
            q <= touched@.len(),
            levels@.len() == q,
            lev@.len() == n,
            lev1.len() == n,
            forall|x: usize| #[trigger]
                touched@.contains(x) <==> x < lev1.len() && lev1[x as int] is Some,
            forall|a: int, b: int|
                0 <= a < b < touched@.len() ==> #[trigger] touched@[a] < #[trigger] touched@[b],
            forall|a: int|
                0 <= a < q ==> lev1[(#[trigger] touched@[a]) as int] == Some(levels@[a]),
            forall|a: int|
                q <= a < touched@.len() ==> lev@[(#[trigger] touched@[a]) as int] is Some,
            forall|j: int| 0 <= j < n ==> #[trigger] lev@[j] == lev1[j] || lev@[j] is None,
            forall|j: int| 0 <= j < n && #[trigger] lev@[j] is Some ==> exists|a: int|
                q <= a < touched@.len() && #[trigger] touched@[a] == j,
        decreases touched.len() - q,
    {
        let j: usize = touched[q];
        let ghost lev0 = lev@;
        proof {
            assert(touched@.contains(j));
            assert(lev@[touched@[q as int] as int] is Some);
        }
        if let Some(l) = lev[j] {
            levels.push(l);
        }
        lev.set(j, None);
        proof {
            assert forall|a: int| q + 1 <= a < touched@.len() implies lev@[(
            #[trigger] touched@[a]) as int] is Some by {
                assert(touched@.contains(touched@[a]));
                assert(lev0[touched@[a] as int] is Some);
                assert(touched@[q as int] < touched@[a]);
            }
            assert forall|x: int| 0 <= x < n && #[trigger] lev@[x] is Some implies exists|a: int|
                q + 1 <= a < touched@.len() && #[trigger] touched@[a] == x by {
                assert(lev0[x] is Some);
                let a = choose|a: int| q <= a < touched@.len() && #[trigger] touched@[a] == x;
                assert(a != q);
            }
        }
        q += 1;
    }
    let r: FillRow = FillRow { cols: touched, levels };
    proof {
        assert forall|a: int| 0 <= a < r.cols@.len() implies (#[trigger] r.cols@[a]) < n
            && r.levels@[a] == fill_level(s, cap, ii, r.cols@[a] as int) && r.levels@[a] <= cap by {
            assert(r.cols@.contains(r.cols@[a]));
            assert(level_value(lev1[r.cols@[a] as int], cap) == fill_level(
                s,
                cap,
                ii,
                r.cols@[a] as int,
            ));
        }
        assert forall|j: int| 0 <= j < n && #[trigger] fill_level(s, cap, ii, j) <= cap implies lists(
            r.cols@,
            j,
        ) by {
            assert(level_value(lev1[j], cap) == fill_level(s, cap, ii, j));
            assert(r.cols@.contains(j as usize));
            let a = choose|a: int| 0 <= a < r.cols@.len() && r.cols@[a] == j as usize;
            assert(r.cols@[a] == j);
        }
    }
    r
}

/// The error that reports `e`.
pub open spec fn iluk_error_of(e: DiagError) -> IlukError {
    match e {
        DiagError::NonSquare { nrows, ncols } => IlukError::NonSquareMatrix { nrows, ncols },
        DiagError::MissingDiagonal { col } => IlukError::MissingDiagonal { col },
        DiagError::UnsortedRowIndices { col } => IlukError::UnsortedRowIndices { col },
    }
}

fn map_diag_err(e: DiagError) -> (r: IlukError)
    ensures
        r == iluk_error_of(e),
{
    match e {
        DiagError::NonSquare { nrows, ncols } => IlukError::NonSquareMatrix { nrows, ncols },
        DiagError::MissingDiagonal { col } => IlukError::MissingDiagonal { col },
        DiagError::UnsortedRowIndices { col } => IlukError::UnsortedRowIndices { col },
    }
}

/// Symbolic ILU(k) factor: the level-of-fill `L` and `U` patterns.
///
/// Built once for a given pattern and fill level, then reused across any number
/// of numeric refactorisations against matrices with the same pattern.
#[derive(Debug, Clone)]
pub struct SymbolicIluk {
    pub dim: usize,
    /// `L`'s pattern. The diagonal is stored *first* in each column.
    pub l: CscPattern,
    /// `U`'s pattern. The diagonal is stored *last* in each column.
    pub u: CscPattern,
}

/// The columns of an ascending list that are at most `i`.
fn cols_upto(cols: &Vec<usize>, i: usize) -> (r: Vec<usize>)
    requires
        forall|p: int, q: int|
            0 <= p < q < cols@.len() ==> #[trigger] cols@[p] < #[trigger] cols@[q],
    ensures
        forall|p: int, q: int| 0 <= p < q < r@.len() ==> #[trigger] r@[p] < #[trigger] r@[q],
        forall|j: int| #[trigger] lists(r@, j) <==> j <= i && lists(cols@, j),
{
    let mut r: Vec<usize> = Vec::new();
    let mut t: usize = 0;
    while t < cols.len() && cols[t] <= i
        invariant
            t <= cols@.len(),
            r@ == cols@.subrange(0, t as int),
            forall|p: int| 0 <= p < t ==> #[trigger] cols@[p] <= i,
        decreases cols.len() - t,
    {
        r.push(cols[t]);
        t += 1;
    }
    proof {
        assert forall|j: int| #[trigger] lists(r@, j) <==> j <= i && lists(cols@, j) by {
            if lists(r@, j) {
                let p = choose|p: int| 0 <= p < r@.len() && #[trigger] r@[p] == j;
                assert(cols@[p] == j);
            }
            if j <= i && lists(cols@, j) {
                let p = choose|p: int| 0 <= p < cols@.len() && #[trigger] cols@[p] == j;
                if p >= t {
                    if p > t {
                        assert(cols@[t as int] < cols@[p]);
                    }
                    assert(false);
                }
                assert(r@[p] == j);
            }
        }
    }
    r
}

/// The columns of an ascending list that are at least `i`.
fn cols_from(cols: &Vec<usize>, i: usize) -> (r: Vec<usize>)
    requires
        forall|p: int, q: int|
            0 <= p < q < cols@.len() ==> #[trigger] cols@[p] < #[trigger] cols@[q],
    ensures
        forall|p: int, q: int| 0 <= p < q < r@.len() ==> #[trigger] r@[p] < #[trigger] r@[q],
        forall|j: int| #[trigger] lists(r@, j) <==> j >= i && lists(cols@, j),
{
    let mut r: Vec<usize> = Vec::new();
    let mut t: usize = 0;
    while t < cols.len() && cols[t] < i
        invariant
            t <= cols@.len(),
            forall|p: int| 0 <= p < t ==> #[trigger] cols@[p] < i,
        decreases cols.len() - t,
    {
        t += 1;
    }
    let ghost t0 = t as int;
    while t < cols.len()
        invariant
            0 <= t0 <= t <= cols@.len(),
            r@ == cols@.subrange(t0, t as int),
        decreases cols.len() - t,
    {
        r.push(cols[t]);
        t += 1;
    }
    proof {
        assert forall|j: int| #[trigger] lists(r@, j) <==> j >= i && lists(cols@, j) by {
            if lists(r@, j) {
                let p = choose|p: int| 0 <= p < r@.len() && #[trigger] r@[p] == j;
                assert(cols@[t0 + p] == j);
                if p > 0 {
                    assert(cols@[t0] < cols@[t0 + p]);
                }
            }
            if j >= i && lists(cols@, j) {
                let p = choose|p: int| 0 <= p < cols@.len() && #[trigger] cols@[p] == j;
                assert(r@[p - t0] == j);
            }
        }
    }
    r
}

/// Column `k` of `lt` lists the kept entries of row `k` up to the diagonal, and
/// column `k` of `ut` those from the diagonal on.
spec fn rows_split(
    lt: CscPattern,
    ut: CscPattern,
    s: spec_fn(int, int) -> bool,
    cap: int,
    k: int,
) -> bool {
    &&& lt.sorted_col(k)
    &&& ut.sorted_col(k)
    &&& forall|j: int|
        0 <= j < lt.nrows ==> (#[trigger] lt.has(j, k) <==> j <= k && fill_level(s, cap, k, j)
            <= cap)
    &&& forall|j: int|
        0 <= j < ut.nrows ==> (#[trigger] ut.has(j, k) <==> j >= k && fill_level(s, cap, k, j)
            <= cap)
}

/// Equal columns store the same entries in the same order.
proof fn lemma_same_col(p: CscPattern, q: CscPattern, k: int)
    requires
        p.wf(),
        q.wf(),
        0 <= k < p.ncols,
        k < q.ncols,
        p.col(k) == q.col(k),
        p.sorted_col(k),
    ensures
        q.sorted_col(k),
        forall|j: int| #[trigger] q.has(j, k) <==> p.has(j, k),
{
    p.lemma_col_bounds(k);
    q.lemma_col_bounds(k);
    assert(p.col(k).len() == p.end(k) - p.start(k));
    assert(q.col(k).len() == q.end(k) - q.start(k));
    assert forall|a: int, b: int|
        q.start(k) <= a < b < q.end(k) implies #[trigger] q.row_idx@[a]
        < #[trigger] q.row_idx@[b] by {
        let da = a - q.start(k);
        let db = b - q.start(k);
        assert(q.col(k)[da] == p.col(k)[da]);
        assert(q.col(k)[db] == p.col(k)[db]);
        let pa = p.start(k) + da;
        let pb = p.start(k) + db;
        assert(p.col(k)[da] == p.row_idx@[pa]);
        assert(p.col(k)[db] == p.row_idx@[pb]);
        assert(p.row_idx@[pa] < p.row_idx@[pb]);
    }
    assert forall|j: int| #[trigger] q.has(j, k) <==> p.has(j, k) by {
        p.lemma_col_has(j, k);
        q.lemma_col_has(j, k);
    }
}

/// A column appended from an ascending list is sorted and stores that list.
proof fn lemma_new_col(p: CscPattern, k: int, rows: Seq<usize>)
    requires
        p.wf(),
        0 <= k < p.ncols,
        p.col(k) == rows,
        forall|a: int, b: int|
            0 <= a < b < rows.len() ==> #[trigger] rows[a] < #[trigger] rows[b],
    ensures
        p.sorted_col(k),
        forall|j: int| #[trigger] p.has(j, k) <==> lists(rows, j),
{
    p.lemma_col_bounds(k);
    assert(rows.len() == p.end(k) - p.start(k));
    assert forall|a: int, b: int|
        p.start(k) <= a < b < p.end(k) implies #[trigger] p.row_idx@[a]
        < #[trigger] p.row_idx@[b] by {
        assert(p.row_idx@[a] == rows[a - p.start(k)]);
        assert(p.row_idx@[b] == rows[b - p.start(k)]);
    }
    assert forall|j: int| #[trigger] p.has(j, k) <==> lists(rows, j) by {
        p.lemma_col_has(j, k);
        assert(p.has(j, k) <==> exists|t: int|
            0 <= t < p.col(k).len() && #[trigger] p.col(k)[t] == j);
    }
}

impl SymbolicIluk {
    pub open spec fn wf(&self) -> bool {
        &&& lower_ok(self.l, self.dim as int)
        &&& upper_ok(self.u, self.dim as int)
    }

    /// `self` is the symbolic factor of the pattern `p` with fill level `level`:
    /// both triangles hold exactly the entries whose fill level is at most
    /// `level`.
    pub open spec fn describes(&self, p: CscPattern, level: int) -> bool {
        &&& self.wf()
        &&& self.dim == p.ncols
        &&& lu_has(self.l, self.u) == kept(stored(p), level, self.dim as int)
    }

    /// Build the symbolic ILU(k) structure from a CSC pattern and fill level.
    ///
    /// The pattern must be square, every column must contain its diagonal
    /// entry, and its rows must be sorted ascending; otherwise the error names
    /// the first column that breaks this.
    pub fn try_new(pattern: &CscPattern, level: usize) -> (r: Result<Self, IlukError>)
        requires
            pattern.wf(),
        ensures
            r is Ok <==> splittable(*pattern),
            r matches Ok(s) ==> s.describes(*pattern, level as int),
            r matches Err(e) ==> exists|d: DiagError| #[trigger]
                diag_error_of(*pattern, d) && e == iluk_error_of(d),
    {
        match validated_diag_pos(pattern) {
            Ok(_) => {},
            Err(e) => {
                return Err(map_diag_err(e));
            },
        }
        let n: usize = pattern.ncols;
        let ptr_len: usize = pattern.col_ptr.len();
        assert(n < ptr_len);
        let ghost s = stored(*pattern);
        let ghost cap = level as int;
        let (t, order): (CscPattern, Vec<usize>) = transpose(pattern);
        proof {
            assert forall|j: int| 0 <= j < pattern.ncols implies #[trigger] pattern.sorted_col(
                j,
            ) by {
                assert(diag_col_ok(*pattern, j));
            }
            pattern.lemma_sorted_distinct();
            lemma_transpose_sorted(*pattern, t, order@);
        }
        let mut lev: Vec<Option<usize>> = Vec::with_capacity(n);
        let mut i: usize = 0;
        while i < n
            invariant
                i <= n,
                lev@.len() == i,
                forall|k: int| 0 <= k < i ==> #[trigger] lev@[k] is None,
            decreases n - i,
        {
            lev.push(None);
            i += 1;
        }
        let mut rows: Vec<FillRow> = Vec::with_capacity(n);
        let mut lt: CscPattern = CscPattern::empty(n);
        let mut ut: CscPattern = CscPattern::empty(n);
        let mut i: usize = 0;
        while i < n
            invariant
                n == pattern.ncols,
                n == pattern.nrows,
                pattern.wf(),
                s == stored(*pattern),
                cap == level,
                is_transpose(*pattern, t, order@),
                t.sorted(),
                i <= n,
                lev@.len() == n,
                forall|k: int| 0 <= k < n ==> #[trigger] lev@[k] is None,
                rows@.len() == i,
                forall|k: int| 0 <= k < i ==> row_ok(#[trigger] rows@[k], s, cap, k, n as int),
                lt.wf(),
                lt.nrows == n,
                lt.ncols == i,
                ut.wf(),
                ut.nrows == n,
                ut.ncols == i,
                forall|k: int| 0 <= k < i ==> #[trigger] rows_split(lt, ut, s, cap, k),
            decreases n - i,
        {
            proof {
                assert forall|j: int| 0 <= j < n implies (s(i as int, j) <==> #[trigger] t.has(
                    j,
                    i as int,
                )) by {
                    lemma_transpose_has(*pattern, t, order@, i as int, j);
                }
            }
            let row: FillRow = fill_row(&t, i, level, &rows, &mut lev, Ghost(s));
            let lcols: Vec<usize> = cols_upto(&row.cols, i);
            let ucols: Vec<usize> = cols_from(&row.cols, i);
            let ghost lt0 = lt;
            let ghost ut0 = ut;
            proof {
                assert forall|k: int| 0 <= k < lcols@.len() implies (#[trigger] lcols@[k]) < n by {
                    assert(lists(lcols@, lcols@[k] as int));
                }
                assert forall|k: int| 0 <= k < ucols@.len() implies (#[trigger] ucols@[k]) < n by {
                    assert(lists(ucols@, ucols@[k] as int));
                }
            }
            lt.append_column(&lcols);
            ut.append_column(&ucols);
            proof {
                assert forall|k: int| 0 <= k < i + 1 implies #[trigger] rows_split(
                    lt,
                    ut,
                    s,
                    cap,
                    k,
                ) by {
                    if k < i {
                        assert(rows_split(lt0, ut0, s, cap, k));
                        assert(lt.col(k) == lt0.col(k));
                        assert(ut.col(k) == ut0.col(k));
                        lemma_same_col(lt0, lt, k);
                        lemma_same_col(ut0, ut, k);
                    } else {
                        lemma_new_col(lt, k, lcols@);
                        lemma_new_col(ut, k, ucols@);
                        assert forall|j: int| 0 <= j < n implies (lists(row.cols@, j) <==>
                        #[trigger] fill_level(s, cap, k, j) <= cap) by {
                            if lists(row.cols@, j) {
                                let q = choose|q: int|
                                    0 <= q < row.cols@.len() && #[trigger] row.cols@[q] == j;
                                assert(row.levels@[q] <= cap);
                            }
                        }
                    }
                }
            }
            rows.push(row);
            i += 1;
        }
        proof {
            assert forall|k: int| 0 <= k < n implies #[trigger] lt.sorted_col(k) by {
                assert(rows_split(lt, ut, s, cap, k));
            }
            assert forall|k: int| 0 <= k < n implies #[trigger] ut.sorted_col(k) by {
                assert(rows_split(lt, ut, s, cap, k));
            }
            lt.lemma_sorted_distinct();
            ut.lemma_sorted_distinct();
        }
        let (l, lo): (CscPattern, Vec<usize>) = transpose(&lt);
        let (u, uo): (CscPattern, Vec<usize>) = transpose(&ut);
        proof {
            lemma_transpose_sorted(lt, l, lo@);
            lemma_transpose_sorted(ut, u, uo@);
            assert forall|i: int, j: int| 0 <= i < n && 0 <= j < n implies {
                &&& #[trigger] l.has(i, j) <==> i >= j && fill_level(s, cap, i, j) <= cap
                &&& u.has(i, j) <==> i <= j && fill_level(s, cap, i, j) <= cap
            } by {
                assert(rows_split(lt, ut, s, cap, i));
                lemma_transpose_has(lt, l, lo@, j, i);
                lemma_transpose_has(ut, u, uo@, j, i);
                assert(lt.has(j, i) <==> j <= i && fill_level(s, cap, i, j) <= cap);
                assert(ut.has(j, i) <==> j >= i && fill_level(s, cap, i, j) <= cap);
            }
            assert forall|i: int, j: int| 0 <= i < n && 0 <= j < n implies (#[trigger] u.has(i, j)
                <==> i <= j && fill_level(s, cap, i, j) <= cap) by {
                assert(l.has(i, j) <==> i >= j && fill_level(s, cap, i, j) <= cap);
            }
            assert forall|j: int| 0 <= j < n implies fill_level(s, cap, j, j) == 0 by {
                assert(diag_col_ok(*pattern, j));
                assert(s(j, j));
                lemma_level_zero(s, cap, j, j, j);
            }
            lemma_lower_from_has(l, n as int);
            lemma_upper_from_has(u, n as int);
            assert(lu_has(l, u) =~= kept(s, cap, n as int));
        }
        Ok(SymbolicIluk { dim: n, l, u })
    }

    /// Dimension `n` of the analysed matrix.
    pub fn dim(&self) -> (r: usize)
        ensures
            r == self.dim,
    {
        self.dim
    }

    /// Number of structural nonzeros in `L` (includes its unit diagonal slots).
    pub fn l_nnz(&self) -> (r: usize)
        ensures
            r == self.l.row_idx@.len(),
    {
        self.l.row_idx.len()
    }

    /// Number of structural nonzeros in `U` (includes its diagonal slots).
    pub fn u_nnz(&self) -> (r: usize)
        ensures
            r == self.u.row_idx@.len(),
    {
        self.u.row_idx.len()
    }
}

/// A stored entry has level zero throughout.
proof fn lemma_level_zero(s: spec_fn(int, int) -> bool, cap: int, i: int, j: int, m: int)
    requires
        cap >= 0,
        s(i, j),
    ensures
        level_after(s, cap, i, j, m) == 0,
    decreases m,
{
    if m > 0 {
        lemma_level_zero(s, cap, i, j, m - 1);
        lemma_level_bounds(s, cap, i, m - 1, m - 1);
        lemma_level_bounds(s, cap, m - 1, j, m - 1);
    }
}

/// Levels under a smaller cap are the levels under a larger one, cut off.
proof fn lemma_level_cap(
    s: spec_fn(int, int) -> bool,
    a: int,
    b: int,
    i: int,
    j: int,
    m: int,
)
    requires
        0 <= a <= b,
    ensures
        level_after(s, a, i, j, m) == if level_after(s, b, i, j, m) <= a {
            level_after(s, b, i, j, m)
        } else {
            a + 1
        },
    decreases m,
{
    if m > 0 {
        lemma_level_cap(s, a, b, i, j, m - 1);
        lemma_level_cap(s, a, b, i, m - 1, m - 1);
        lemma_level_cap(s, a, b, m - 1, j, m - 1);
        lemma_level_bounds(s, b, i, m - 1, m - 1);
        lemma_level_bounds(s, b, m - 1, j, m - 1);
    }
}

/// Raising the fill level drops no entry.
pub proof fn law_fill_monotone(p: CscPattern, a: int, b: int, n: int, i: int, j: int)
    requires
        0 <= a <= b,
        kept(stored(p), a, n)(i, j),
    ensures
        kept(stored(p), b, n)(i, j),
{
    lemma_level_cap(
        stored(p),
        a,
        b,
        i,
        j,
        if i <= j {
            i
        } else {
            j
        },
    );
}

/// Every stored entry is kept, whatever the fill level.
pub proof fn law_fill_covers(p: CscPattern, level: int, n: int, i: int, j: int)
    requires
        level >= 0,
        0 <= i < n,
        0 <= j < n,
        stored(p)(i, j),
    ensures
        kept(stored(p), level, n)(i, j),
{
    lemma_level_zero(
        stored(p),
        level,
        i,
        j,
        if i <= j {
            i
        } else {
            j
        },
    );
}

/// With fill level zero nothing is added: the patterns coincide with those of
/// ILU(0).
pub proof fn law_level_zero_pattern(p: CscPattern, s0: SymbolicIlu0, sk: SymbolicIluk)
    requires
        p.wf(),
        splittable(p),
        s0.describes(p),
        sk.describes(p, 0),
    ensures
        lu_has(sk.l, sk.u) == lu_has(s0.l, s0.u),
        lu_has(sk.l, sk.u) == stored(p),
{
    law_zero_fill(s0, p);
    let s = stored(p);
    let n = p.ncols as int;
    assert forall|i: int, j: int| #[trigger] kept(s, 0, n)(i, j) == s(i, j) by {
        if 0 <= i < n && 0 <= j < n {
            lemma_no_fill(
                s,
                i,
                j,
                if i <= j {
                    i
                } else {
                    j
                },
            );
        }
    }
    assert(kept(s, 0, n) =~= s);
}

/// Under cap zero the level of an entry never changes.
proof fn lemma_no_fill(s: spec_fn(int, int) -> bool, i: int, j: int, m: int)
    ensures
        level_after(s, 0, i, j, m) == if s(i, j) {
            0int
        } else {
            1int
        },
    decreases m,
{
    if m > 0 {
        lemma_no_fill(s, i, j, m - 1);
        lemma_level_bounds(s, 0, i, m - 1, m - 1);
        lemma_level_bounds(s, 0, m - 1, j, m - 1);
    }
}

/// Where elimination on the stored pattern makes no fill, every fill level keeps
/// exactly the stored entries.
pub proof fn law_no_fill_pattern(p: CscPattern, level: int, n: int)
    requires
        level >= 0,
        p.nrows == n,
        p.ncols == n,
        eliminates_within(stored(p), n),
    ensures
        kept(stored(p), level, n) == stored(p),
{
    let s = stored(p);
    assert forall|i: int, j: int| #[trigger] kept(s, level, n)(i, j) == s(i, j) by {
        if 0 <= i < n && 0 <= j < n {
            lemma_levels_without_fill(
                s,
                level,
                n,
                i,
                j,
                if i <= j {
                    i
                } else {
                    j
                },
            );
        }
    }
    assert(kept(s, level, n) =~= s);
}

proof fn lemma_levels_without_fill(
    s: spec_fn(int, int) -> bool,
    cap: int,
    n: int,
    i: int,
    j: int,
    m: int,
)
    requires
        cap >= 0,
        eliminates_within(s, n),
        0 <= i < n,
        0 <= j < n,
        m <= n,
    ensures
        level_after(s, cap, i, j, m) == if s(i, j) {
            0
        } else {
            cap + 1
        },
    decreases m,
{
    if m > 0 {
        let q = m - 1;
        lemma_levels_without_fill(s, cap, n, i, j, q);
        lemma_levels_without_fill(s, cap, n, i, q, q);
        lemma_levels_without_fill(s, cap, n, q, j, q);
        if q < i && q < j && s(i, q) && s(q, j) {
            assert(s(i, j));
        }
    }
}

} // verus!
