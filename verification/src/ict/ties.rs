//! Which of several equal entries the threshold Cholesky factorisation keeps.
use vstd::prelude::*;

use super::dropping::{
    column_magnitudes, column_threshold, left_over, lemma_column_stored, lemma_column_threshold,
};
use super::numeric::{
    col_maps, column_budget, column_candidates, column_done, kept_rows, updated, Ict,
};
use super::order::{col_scan, fill_scan, noted, rows_scan, source_scan, update_seq};
use crate::ilutp::ties::{lemma_first_kept, precedes};
use crate::lengths::is_length;
use crate::reading::{reads_magnitudes, reads_reals, reads_roots, reads_squares, reads_tuning};
use crate::scalar::{exact_conjugation, exact_field, exact_negation, RealScalar, Scalar};
use crate::sparse::CscRef;

verus! {

/// Noting more rows keeps who came first.
proof fn lemma_noted_precedes(s: Seq<usize>, x: usize, c: int, d: int)
    requires
        precedes(s, c, d),
    ensures
        precedes(noted(s, x), c, d),
{
    let z = choose|z: int|
        0 <= z < s.len() && (#[trigger] s[z]) == c && forall|t: int|
            0 <= t < s.len() && (#[trigger] s[t]) == d ==> z < t;
    let now = noted(s, x);
    assert(now[z] == c);
    assert forall|t: int| 0 <= t < now.len() && (#[trigger] now[t]) == d implies z < t by {
        if t < s.len() {
            assert(now[t] == s[t]);
        }
    }
}

proof fn lemma_rows_precede<T>(s: Seq<usize>, col: Map<int, T>, j: int, m: int, c: int, d: int)
    requires
        precedes(s, c, d),
    ensures
        precedes(rows_scan(s, col, j, m), c, d),
    decreases m - j,
{
    if m > j {
        lemma_rows_precede(s, col, j, m - 1, c, d);
        lemma_noted_precedes(rows_scan(s, col, j, m - 1), (m - 1) as usize, c, d);
    }
}

proof fn lemma_fill_precedes<T>(
    s: Seq<usize>,
    cols: Seq<Map<int, T>>,
    ord: Seq<int>,
    j: int,
    n: int,
    t: int,
    c: int,
    d: int,
)
    requires
        precedes(s, c, d),
    ensures
        precedes(fill_scan(s, cols, ord, j, n, t), c, d),
    decreases t,
{
    if t > 0 {
        lemma_fill_precedes(s, cols, ord, j, n, t - 1, c, d);
        lemma_rows_precede(fill_scan(s, cols, ord, j, n, t - 1), cols[ord[t - 1]], j, n, c, d);
    }
}

/// The rows met up to position `p` are the diagonal and those stored below it.
proof fn lemma_source_met<T: Scalar>(a: CscRef<'_, T>, j: int, p: int)
    requires
        a.wf(),
        0 <= j < a.pattern.ncols,
        a.pattern.start(j) <= p <= a.pattern.end(j),
    ensures
        forall|t: int|
            0 <= t < source_scan(a, j, p).len() ==> (#[trigger] source_scan(a, j, p)[t]) == j
                || exists|q: int|
                a.pattern.start(j) <= q < p && #[trigger] a.pattern.row_idx@[q] == source_scan(
                    a,
                    j,
                    p,
                )[t],
        forall|q: int|
            a.pattern.start(j) <= q < p && #[trigger] a.pattern.row_idx@[q] > j ==> exists|t: int|
                0 <= t < source_scan(a, j, p).len() && (#[trigger] source_scan(a, j, p)[t])
                    == a.pattern.row_idx@[q],
    decreases p,
{
    a.pattern.lemma_col_bounds(j);
    if p > a.pattern.start(j) {
        lemma_source_met(a, j, p - 1);
        let before = source_scan(a, j, p - 1);
        let now = source_scan(a, j, p);
        let x = a.pattern.row_idx@[p - 1];
        assert forall|t: int| 0 <= t < now.len() implies (#[trigger] now[t]) == j || exists|q: int|
            a.pattern.start(j) <= q < p && #[trigger] a.pattern.row_idx@[q] == now[t] by {
            if t < before.len() {
                assert(now[t] == before[t]);
                if now[t] != j {
                    let q = choose|q: int|
                        a.pattern.start(j) <= q < p - 1 && #[trigger] a.pattern.row_idx@[q]
                            == before[t];
                    assert(a.pattern.row_idx@[q] == now[t]);
                }
            } else {
                assert(a.pattern.row_idx@[p - 1] == now[t]);
            }
        }
        assert forall|q: int|
            a.pattern.start(j) <= q < p && #[trigger] a.pattern.row_idx@[q] > j implies exists|t: int|
            0 <= t < now.len() && (#[trigger] now[t]) == a.pattern.row_idx@[q] by {
            if q < p - 1 {
                let t = choose|t: int|
                    0 <= t < before.len() && (#[trigger] before[t]) == a.pattern.row_idx@[q];
                assert(now[t] == before[t]);
            } else if before.contains(x) {
                let t = before.index_of(x);
                assert(now[t] == x);
            } else {
                assert(now[now.len() - 1] == x);
            }
        }
    }
}

/// Of two rows stored below the diagonal of a sorted column, the smaller is met
/// first.
proof fn lemma_source_precedes<T: Scalar>(a: CscRef<'_, T>, j: int, qc: int, qd: int, p: int)
    requires
        a.wf(),
        0 <= j < a.pattern.ncols,
        a.pattern.sorted_col(j),
        a.pattern.start(j) <= qc < qd < p <= a.pattern.end(j),
        a.pattern.row_idx@[qc] > j,
    ensures
        precedes(
            source_scan(a, j, p),
            a.pattern.row_idx@[qc] as int,
            a.pattern.row_idx@[qd] as int,
        ),
    decreases p,
{
    let c = a.pattern.row_idx@[qc] as int;
    let d = a.pattern.row_idx@[qd] as int;
    a.pattern.lemma_col_bounds(j);
    assert(a.pattern.row_idx@[qc] < a.pattern.row_idx@[qd]);
    let before = source_scan(a, j, p - 1);
    if qd < p - 1 {
        lemma_source_precedes(a, j, qc, qd, p - 1);
        lemma_noted_precedes(before, a.pattern.row_idx@[p - 1], c, d);
    } else {
        lemma_source_met(a, j, p - 1);
        let s = choose|s: int| 0 <= s < before.len() && (#[trigger] before[s]) == c;
        let now = source_scan(a, j, p);
        assert(now[s] == c);
        assert forall|t: int| 0 <= t < before.len() implies (#[trigger] before[t]) != d by {
            if before[t] == d {
                let q = choose|q: int|
                    a.pattern.start(j) <= q < p - 1 && #[trigger] a.pattern.row_idx@[q]
                        == before[t];
                assert(a.pattern.row_idx@[q] < a.pattern.row_idx@[qd]);
            }
        }
        assert forall|t: int| 0 <= t < now.len() && (#[trigger] now[t]) == d implies s < t by {
            if t < before.len() {
                assert(now[t] == before[t]);
            }
        }
    }
}

/// Of two entries that a sorted column of the matrix stores below the diagonal, `L`
/// keeps the upper one, unless less is left of it than of the other, or it is
/// dropped.
pub proof fn law_ties_keep_first<T: Scalar>(
    v: spec_fn(T::Real) -> real,
    w: spec_fn(T::Tuning) -> real,
    f: Ict<T>,
    a: CscRef<'_, T>,
    j: int,
    c: int,
    d: int,
    len: real,
)
    requires
        exact_field::<T>(),
        exact_conjugation::<T>(),
        exact_negation::<T>(),
        reads_reals(v),
        reads_magnitudes::<T>(v),
        reads_squares::<T>(v),
        reads_roots(v),
        reads_tuning::<T>(v, w),
        a.wf(),
        a.pattern.nrows == a.pattern.ncols,
        f.wf(),
        f.dim == a.pattern.ncols,
        f.factors(a),
        0 <= j < c < d < f.dim,
        a.pattern.sorted_col(j),
        a.pattern.has(c, j),
        a.pattern.has(d, j),
        f.l.has(d, j),
        !f.l.has(c, j),
        is_length(f.params.norm, column_magnitudes(v, f, a, j), f.dim as int, len),
    ensures
        ({
            let e = left_over(f, a, c, j);
            ||| e == T::null()
            ||| v(e.magnitude()) < w(f.params.drop_tol) * len
            ||| v(e.magnitude()) < v(left_over(f, a, d, j).magnitude())
        }),
{
    let n = f.dim as int;
    lemma_column_threshold(v, w, f, a, j, len);
    lemma_column_stored(f, a, c, j);
    lemma_column_stored(f, a, d, j);
    let cols = col_maps(f.l, f.l_values@);
    assert(column_done(a, f.params, cols, j));
    let ord = update_seq(cols, n, j);
    let col = updated(a, cols, ord, j);
    let e = left_over(f, a, c, j);
    let tau = column_threshold(f, a, j);
    let cand = column_candidates(col, tau, j);
    let kept = kept_rows(cols[j], col, j);
    let seen = col_scan(a, cols, ord, j);
    let p = column_budget(f.params, a.pattern.row_idx@.len(), a.pattern.ncols as nat);
    assert(kept.dom().contains(d));
    assert(!kept.dom().contains(c));
    if col(c) is Some && !(v(e.magnitude()) < v(tau)) {
        assert(cand(c) == Some(e)) by {
            reveal(reads_reals);
        }
        assert(cand(d) == Some(kept[d]));
        a.pattern.lemma_find(c, j);
        a.pattern.lemma_find(d, j);
        let qc = a.pattern.find(c, j);
        let qd = a.pattern.find(d, j);
        assert(qc < qd) by {
            if qd < qc {
                assert(a.pattern.row_idx@[qd] < a.pattern.row_idx@[qc]);
            }
        }
        lemma_source_precedes(a, j, qc, qd, a.pattern.end(j));
        lemma_fill_precedes(
            source_scan(a, j, a.pattern.end(j)),
            cols,
            ord,
            j,
            n,
            ord.len() as int,
            c,
            d,
        );
        lemma_first_kept(v, cand, seen, kept, p, c, d);
    }
}

} // verus!
