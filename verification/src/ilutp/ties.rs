//! Which of several equal entries the threshold factorisation takes.
use vstd::prelude::*;

use super::dropping::{
    has_room, is_row_length, law_threshold_is_relative, lemma_upper_left, lemma_upper_stored,
    missed,
};
use super::laws::lemma_open_iff;
use super::numeric::{
    best_label, budget, competes, eliminated, is_open, keeps_first, mag_or_null, named, perm_before,
    ranked, row_done, row_list, scanned, source_row, tails_of, threshold, upper_candidates,
    value_or_null, Ilutp,
};
use super::row::{acc, scan};
use super::IlutpParams;
use crate::lu::dense_entry;
use crate::reading::{reads_magnitudes, reads_reals, reads_roots, reads_squares, reads_tuning};
use crate::scalar::{exact_field, lemma_null_is_neutral, lemma_plus_commutes, RealScalar, Scalar};
use crate::sparse::{stored, CscRef};
use crate::util::select::{lemma_top_prefers_first, top};

verus! {

/// `c` stands in `order` before every place where `d` stands.
pub open spec fn precedes(order: Seq<usize>, c: int, d: int) -> bool {
    exists|s: int|
        0 <= s < order.len() && (#[trigger] order[s]) == c && forall|t: int|
            0 <= t < order.len() && (#[trigger] order[t]) == d ==> s < t
}

/// Candidates are ranked in the order in which they stand.
proof fn lemma_ranked_order<T: Scalar>(
    cand: spec_fn(int) -> Option<T>,
    order: Seq<usize>,
    s: int,
    c: int,
    d: int,
    i: int,
) -> (j: int)
    requires
        0 <= s < order.len(),
        order[s] == c,
        cand(c) is Some,
        forall|t: int| 0 <= t < order.len() && (#[trigger] order[t]) == d ==> s < t,
        0 <= i < ranked(cand, order).len(),
        ranked(cand, order)[i].1 == d,
    ensures
        0 <= j < i,
        ranked(cand, order)[j] == (cand(c)->0.magnitude(), c as usize),
    decreases order.len(),
{
    let o1 = order.drop_last();
    let before = ranked(cand, o1);
    if i == before.len() {
        assert(order.last() == d);
        assert(order[order.len() - 1] == d);
        lemma_ranked_holds(cand, o1, s)
    } else {
        if s == order.len() - 1 {
            lemma_ranked_from(cand, o1, i);
            let t = choose|t: int| 0 <= t < o1.len() && (#[trigger] o1[t]) == d;
            assert(order[t] == d);
        }
        assert(o1[s] == c);
        assert forall|t: int| 0 <= t < o1.len() && (#[trigger] o1[t]) == d implies s < t by {
            assert(order[t] == d);
        }
        lemma_ranked_order(cand, o1, s, c, d, i)
    }
}

/// A ranked label stands in the order.
proof fn lemma_ranked_from<T: Scalar>(cand: spec_fn(int) -> Option<T>, order: Seq<usize>, i: int)
    requires
        0 <= i < ranked(cand, order).len(),
    ensures
        exists|t: int| 0 <= t < order.len() && (#[trigger] order[t]) == ranked(cand, order)[i].1,
    decreases order.len(),
{
    let o1 = order.drop_last();
    if i < ranked(cand, o1).len() {
        lemma_ranked_from(cand, o1, i);
        let t = choose|t: int| 0 <= t < o1.len() && (#[trigger] o1[t]) == ranked(cand, o1)[i].1;
        assert(order[t] == o1[t]);
    } else {
        assert(order[order.len() - 1] == order.last());
    }
}

/// A candidate in the order is ranked.
proof fn lemma_ranked_holds<T: Scalar>(
    cand: spec_fn(int) -> Option<T>,
    order: Seq<usize>,
    s: int,
) -> (j: int)
    requires
        0 <= s < order.len(),
        cand(order[s] as int) is Some,
    ensures
        0 <= j < ranked(cand, order).len(),
        ranked(cand, order)[j] == (cand(order[s] as int)->0.magnitude(), order[s]),
    decreases order.len(),
{
    let o1 = order.drop_last();
    if s == order.len() - 1 {
        ranked(cand, o1).len() as int
    } else {
        assert(o1[s] == order[s]);
        lemma_ranked_holds(cand, o1, s)
    }
}

/// Of two candidates, the one that stands first is kept unless it is smaller.
pub proof fn lemma_first_kept<T: Scalar>(
    v: spec_fn(T::Real) -> real,
    cand: spec_fn(int) -> Option<T>,
    order: Seq<usize>,
    row: Map<int, T>,
    p: nat,
    c: int,
    d: int,
)
    requires
        reads_reals(v),
        keeps_first(cand, order, row, p),
        0 <= c <= usize::MAX,
        0 <= d <= usize::MAX,
        precedes(order, c, d),
        cand(c) is Some,
        cand(d) is Some,
        row.dom().contains(d),
        !row.dom().contains(c),
    ensures
        v(cand(c)->0.magnitude()) < v(cand(d)->0.magnitude()),
{
    let sel = ranked(cand, order);
    let all = top(sel, p);
    assert(named(all, d));
    let t0 = choose|t: int| 0 <= t < all.len() && (#[trigger] all[t]).1 == d;
    let name = d as usize;
    assert(all[t0].1 == name);
    let i = lemma_top_prefers_first(v, sel, p, name);
    let s = choose|s: int|
        0 <= s < order.len() && (#[trigger] order[s]) == c && forall|t: int|
            0 <= t < order.len() && (#[trigger] order[t]) == d ==> s < t;
    let j = lemma_ranked_order(cand, order, s, c, d, i);
    assert(!named(all, c));
    assert forall|t: int| 0 <= t < all.len() implies (#[trigger] all[t]).1 != sel[j].1 by {}
    lemma_ranked_value(cand, order, i);
}

/// A ranked label is ranked by its magnitude.
proof fn lemma_ranked_value<T: Scalar>(cand: spec_fn(int) -> Option<T>, order: Seq<usize>, i: int)
    requires
        0 <= i < ranked(cand, order).len(),
    ensures
        cand(ranked(cand, order)[i].1 as int) is Some,
        ranked(cand, order)[i].0 == cand(ranked(cand, order)[i].1 as int)->0.magnitude(),
    decreases order.len(),
{
    let o1 = order.drop_last();
    if i < ranked(cand, o1).len() {
        lemma_ranked_value(cand, o1, i);
    }
}

/// The labels of a source row ascend, and are those stored.
proof fn lemma_row_list<T>(a: CscRef<'_, T>, i: int, c: int)
    requires
        0 <= c <= usize::MAX,
    ensures
        forall|s: int|
            0 <= s < row_list(a, i, c).len() ==> 0 <= (#[trigger] row_list(a, i, c)[s]) < c,
        forall|s: int, t: int|
            0 <= s < t < row_list(a, i, c).len() ==> (#[trigger] row_list(a, i, c)[s]) < (
            #[trigger] row_list(a, i, c)[t]),
        forall|d: int|
            0 <= d < c && #[trigger] stored(*a.pattern)(i, d) ==> exists|s: int|
                0 <= s < row_list(a, i, c).len() && (#[trigger] row_list(a, i, c)[s]) == d,
    decreases c,
{
    if c > 0 {
        lemma_row_list(a, i, c - 1);
        let before = row_list(a, i, c - 1);
        let now = row_list(a, i, c);
        assert forall|d: int| 0 <= d < c && #[trigger] stored(*a.pattern)(i, d) implies exists|s: int|
            0 <= s < now.len() && (#[trigger] now[s]) == d by {
            if d < c - 1 {
                let s = choose|s: int| 0 <= s < before.len() && (#[trigger] before[s]) == d;
                assert(now[s] == d);
            } else {
                assert(now[now.len() - 1] == d);
            }
        }
    }
}

/// The scan starts with the source row.
proof fn lemma_scan_starts<T: Scalar>(
    src: spec_fn(int) -> Option<T>,
    first: Seq<usize>,
    tau: T::Real,
    piv: Seq<usize>,
    u: Seq<Map<int, T>>,
    tails: Seq<Seq<usize>>,
    k: int,
)
    ensures
        first.len() <= scan(src, first, tau, piv, u, tails, k).len(),
        forall|s: int|
            0 <= s < first.len() ==> (#[trigger] scan(src, first, tau, piv, u, tails, k)[s])
                == first[s],
    decreases k,
{
    if k > 0 {
        lemma_scan_starts(src, first, tau, piv, u, tails, k - 1);
    }
}

/// Of two labels that the source row stores, the smaller is met first.
proof fn lemma_source_precedes<T: Scalar>(f: Ilutp<T>, a: CscRef<'_, T>, i: int, c: int, d: int)
    requires
        f.n == a.pattern.ncols,
        0 <= c < d < f.n,
        stored(*a.pattern)(i, c),
        stored(*a.pattern)(i, d),
    ensures
        precedes(scanned(a, f.params, f.perm@, f.u_rows(), i), c, d),
{
    let n = f.n as int;
    let first = row_list(a, i, n);
    let order = scanned(a, f.params, f.perm@, f.u_rows(), i);
    lemma_row_list(a, i, n);
    lemma_scan_starts(
        source_row(a, i),
        first,
        threshold(a, f.params, i),
        f.perm@,
        f.u_rows(),
        tails_of(f.perm@, f.u_rows(), n),
        i,
    );
    let s = choose|s: int| 0 <= s < first.len() && (#[trigger] first[s]) == c;
    assert(order[s] == c);
    let z = choose|z: int| 0 <= z < first.len() && (#[trigger] first[z]) == d;
    assert(s < z) by {
        if z < s {
            assert(first[z] < first[s]);
        }
    }
    assert forall|t: int| 0 <= t < order.len() && (#[trigger] order[t]) == d implies s < t by {
        if t <= s {
            assert(order[t] == first[t]);
            if t < z {
                assert(first[t] < first[z]);
            }
        }
    }
}

/// Of two entries at labels that row `i` of the matrix stores, `U` takes the one
/// with the smaller label, unless it is smaller than the other, or is dropped.
pub proof fn law_ties_keep_first<T: Scalar>(
    v: spec_fn(T::Real) -> real,
    w: spec_fn(T::Tuning) -> real,
    f: Ilutp<T>,
    a: CscRef<'_, T>,
    i: int,
    k: int,
    m: int,
    len: real,
)
    requires
        exact_field::<T>(),
        reads_reals(v),
        reads_magnitudes::<T>(v),
        reads_squares::<T>(v),
        reads_roots(v),
        reads_tuning::<T>(v, w),
        a.wf(),
        a.pattern.nrows == a.pattern.ncols,
        f.wf(),
        f.n == a.pattern.ncols,
        f.factors(a),
        has_room(f, a, i),
        0 <= i < k < f.n,
        i < m < f.n,
        stored(*a.pattern)(i, f.perm@[k] as int),
        stored(*a.pattern)(i, f.perm@[m] as int),
        f.perm@[k] < f.perm@[m],
        f.u.has(i, m),
        !f.u.has(i, k),
        is_row_length(v, f.params.norm, a, i, len),
    ensures
        ({
            let e = missed(f, a, i, k);
            ||| e == T::null()
            ||| v(e.magnitude()) < w(f.params.drop_tol) * len
            ||| v(e.magnitude()) < v(dense_entry(f.u_model(), i, m).magnitude())
        }),
{
    let n = f.n as int;
    let piv = f.perm@;
    let c = piv[k] as int;
    let d = piv[m] as int;
    let q = piv[i] as int;
    law_threshold_is_relative(v, w, a, f.params, i, len);
    lemma_upper_left(f, a, i, k);
    lemma_upper_stored(f, a, i, k);
    lemma_upper_stored(f, a, i, m);
    lemma_upper_stored(f, a, i, i);
    lemma_open_iff(piv, f.perm_inv@, n, i, k);
    lemma_open_iff(piv, f.perm_inv@, n, i, m);
    assert(row_done(a, f.params, piv, f.u_rows(), f.l_rows(), i));
    let r = eliminated(a, f.params, piv, f.u_rows(), i);
    let tau = threshold(a, f.params, i);
    let cand = upper_candidates(r, tau, piv, i, q);
    let row = f.u_rows()[i].remove(q);
    let e = missed(f, a, i, k);
    assert(e == value_or_null(r(c)));
    assert(c != q && d != q);
    assert(row.dom().contains(d));
    assert(!row.dom().contains(c));
    assert(cand(d) == Some(row[d]));
    if r(c) is Some && !(v(e.magnitude()) < v(tau)) {
        assert(cand(c) == r(c)) by {
            reveal(reads_reals);
        }
        lemma_source_precedes(f, a, i, c, d);
        lemma_first_kept(
            v,
            cand,
            scanned(a, f.params, piv, f.u_rows(), i),
            row,
            budget(f.params, a.pattern.row_idx@.len(), a.pattern.ncols as nat),
            c,
            d,
        );
    }
}

/// A competitor chosen as the best label comes first among those as large.
proof fn lemma_best_is_first<T: Scalar>(
    v: spec_fn(T::Real) -> real,
    r: spec_fn(int) -> Option<T>,
    order: Seq<usize>,
    piv: Seq<usize>,
    n: int,
    i: int,
    d: int,
    t: int,
    s: int,
)
    requires
        reads_reals(v),
        0 <= s < t <= order.len(),
        competes(r, piv, n, i, d, order[s] as int),
    ensures
        ({
            let b = best_label(r, order, piv, n, i, d, t);
            let c = order[s] as int;
            &&& v(mag_or_null(r(c))) <= v(mag_or_null(r(b)))
            &&& b != c && b != d && (forall|z: int| 0 <= z <= s ==> (#[trigger] order[z]) != b)
                ==> v(mag_or_null(r(c))) < v(mag_or_null(r(b)))
        }),
    decreases t,
{
    reveal(reads_reals);
    let b0 = best_label(r, order, piv, n, i, d, t - 1);
    let c = order[s] as int;
    if s < t - 1 {
        lemma_best_is_first(v, r, order, piv, n, i, d, t - 1, s);
    } else {
        lemma_best_from(r, order, piv, n, i, d, t - 1);
        let b = best_label(r, order, piv, n, i, d, t);
        if b != c && b != d {
            let z = choose|z: int| 0 <= z < t - 1 && (#[trigger] order[z]) == b;
            assert(order[z] == b);
        }
    }
}

/// The best label is the diagonal, or one that was met.
proof fn lemma_best_from<T: Scalar>(
    r: spec_fn(int) -> Option<T>,
    order: Seq<usize>,
    piv: Seq<usize>,
    n: int,
    i: int,
    d: int,
    t: int,
)
    requires
        0 <= t <= order.len(),
    ensures
        ({
            let b = best_label(r, order, piv, n, i, d, t);
            b == d || exists|z: int| 0 <= z < t && (#[trigger] order[z]) == b
        }),
    decreases t,
{
    if t > 0 {
        lemma_best_from(r, order, piv, n, i, d, t - 1);
        let b = best_label(r, order, piv, n, i, d, t);
        assert(order[t - 1] == order[t - 1]);
        if b != d && b != order[t - 1] {
            let z = choose|z: int| 0 <= z < t - 1 && (#[trigger] order[z]) == b;
            assert(order[z] == b);
        }
    }
}

/// An entry of the source row at an open label stays.
proof fn lemma_open_stays<T: Scalar>(
    a: CscRef<'_, T>,
    params: IlutpParams<T::Tuning>,
    piv: Seq<usize>,
    u: Seq<Map<int, T>>,
    i: int,
    k: int,
    c: int,
)
    requires
        0 <= k <= i,
        stored(*a.pattern)(i, c),
        is_open(piv, i, c),
    ensures
        acc(source_row(a, i), threshold(a, params, i), piv, u, k, c) is Some,
    decreases k,
{
    if k > 0 {
        lemma_open_stays(a, params, piv, u, i, k - 1, c);
        assert(piv[k - 1] != c);
    }
}

/// A row that exchanges its column takes the smallest label among the largest
/// entries that the matrix stores in the row: what stood at a smaller stored label
/// was smaller.
pub proof fn law_pivot_ties_take_first<T: Scalar>(
    v: spec_fn(T::Real) -> real,
    f: Ilutp<T>,
    a: CscRef<'_, T>,
    i: int,
    k: int,
)
    requires
        exact_field::<T>(),
        reads_reals(v),
        a.wf(),
        a.pattern.nrows == a.pattern.ncols,
        f.wf(),
        f.n == a.pattern.ncols,
        f.factors(a),
        has_room(f, a, i),
        0 <= i < k < f.n,
        stored(*a.pattern)(i, f.perm@[k] as int),
        stored(*a.pattern)(i, f.perm@[i] as int),
        f.perm@[k] < f.perm@[i],
        f.perm@[i] != perm_before(f.perm@, f.n as int, i)[i],
    ensures
        v(dense_entry(f.u_model(), i, k).plus(missed(f, a, i, k)).magnitude()) < v(
            dense_entry(f.u_model(), i, i).magnitude(),
        ),
{
    let n = f.n as int;
    let piv = f.perm@;
    let c = piv[k] as int;
    let q = piv[i] as int;
    let d = perm_before(piv, n, i)[i] as int;
    lemma_upper_left(f, a, i, k);
    lemma_upper_stored(f, a, i, k);
    lemma_upper_stored(f, a, i, i);
    lemma_open_iff(piv, f.perm_inv@, n, i, k);
    assert(row_done(a, f.params, piv, f.u_rows(), f.l_rows(), i));
    let r = eliminated(a, f.params, piv, f.u_rows(), i);
    let x = value_or_null(r(c));
    let now = dense_entry(f.u_model(), i, k);
    let e = missed(f, a, i, k);
    assert(now.plus(e) == x) by {
        if f.u.has(i, k) {
            lemma_null_is_neutral(now);
        } else {
            lemma_plus_commutes(T::null(), x);
            lemma_null_is_neutral(x);
        }
    }
    lemma_open_stays(a, f.params, piv, f.u_rows(), i, i, c);
    reveal(reads_reals);
    if c != d {
        let order = scanned(a, f.params, piv, f.u_rows(), i);
        assert(competes(r, piv, n, i, d, c));
        lemma_source_precedes(f, a, i, c, q);
        let s = choose|s: int|
            0 <= s < order.len() && (#[trigger] order[s]) == c && forall|t: int|
                0 <= t < order.len() && (#[trigger] order[t]) == q ==> s < t;
        assert forall|z: int| 0 <= z <= s implies (#[trigger] order[z]) != q by {}
        lemma_best_is_first(v, r, order, piv, n, i, d, order.len() as int, s);
    }
}

} // verus!
