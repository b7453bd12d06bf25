//! Numeric ILUTP factorisation.
//!
//! Gaussian elimination row by row, with dual-threshold dropping and column
//! partial pivoting. The rows are stored by column once all of them are done.
use vstd::prelude::*;

use super::assemble::{holds_row, rows_to_columns};
use super::row::{
    acc, eliminate_row, inverse_perms, lemma_acc_prefix, lemma_scan_prefix, listed, pivot_rows_ok,
    row_maps, row_tails, scan, slot, touch, work_ok, SparseRow,
};
use super::{FillControl, IlutpError, IlutpParams, RowNorm};

use crate::lu::{lemma_lower_from_has, lemma_upper_from_has, lower_ok, upper_ok};
use crate::scalar::{RealScalar, Scalar};
use crate::sparse::{stored, CscModel, CscPattern, CscRef};
use crate::transpose::{is_transpose, lemma_transpose_has, lemma_transpose_sorted, transpose};
use crate::util::powers::{ascending, lemma_ascending_unique};
use crate::util::select::{
    lemma_top_distinct, lemma_top_from, lemma_top_member, lemma_top_renamed, select_topk, top,
    top_split,
};

verus! {

/// Row `i` of `a`, by column.
pub open spec fn source_row<T>(a: CscRef<'_, T>, i: int) -> spec_fn(int) -> Option<T> {
    |c: int|
        if stored(*a.pattern)(i, c) {
            Some(a.entry(i, c))
        } else {
            None
        }
}

/// What an entry adds to the norm of its row.
pub open spec fn norm_term<T: Scalar>(norm: RowNorm, x: T) -> T::Real {
    match norm {
        RowNorm::One => x.magnitude(),
        RowNorm::Two => x.magnitude_squared(),
    }
}

/// The sum of the norm terms of row `i` over the first `c` columns, ascending.
pub open spec fn norm_sum<T: Scalar>(a: CscRef<'_, T>, norm: RowNorm, i: int, c: int) -> T::Real
    decreases c,
{
    if c <= 0 {
        T::Real::null()
    } else {
        match source_row(a, i)(c - 1) {
            Some(x) => norm_sum(a, norm, i, c - 1).plus(norm_term(norm, x)),
            None => norm_sum(a, norm, i, c - 1),
        }
    }
}

/// The norm of row `i`.
pub open spec fn row_norm<T: Scalar>(a: CscRef<'_, T>, norm: RowNorm, i: int) -> T::Real {
    let sum = norm_sum(a, norm, i, a.pattern.ncols as int);
    match norm {
        RowNorm::One => sum,
        RowNorm::Two => sum.root(),
    }
}

/// The drop threshold of row `i`.
pub open spec fn threshold<T: Scalar>(
    a: CscRef<'_, T>,
    params: IlutpParams<T::Tuning>,
    i: int,
) -> T::Real {
    T::tuned(params.drop_tol).times(row_norm(a, params.norm, i))
}

/// The pivot tolerance; a zero tolerance disables pivoting.
pub open spec fn pivoting<T: Scalar>(params: IlutpParams<T::Tuning>) -> Option<T::Real> {
    if T::Tuning::null().below(params.pivot_tol) {
        Some(T::tuned(params.pivot_tol))
    } else {
        None
    }
}

/// The per-row fill budget for one triangular part.
pub open spec fn budget<R: RealScalar>(params: IlutpParams<R>, nnz: nat, n: nat) -> nat {
    match params.fill {
        FillControl::PerRow(p) => p as nat,
        FillControl::Factor(f) => {
            let p = if n == 0 {
                0
            } else {
                f.times(R::ratio(nnz as u64, n as u64)).nearest() as nat
            };
            if p >= 1 {
                p
            } else {
                1
            }
        },
    }
}

/// The permutation before row `i` was pivoted, given the pivots chosen: it
/// starts as the identity, and each row exchanges its own position with that of
/// the label it chose.
pub open spec fn perm_before(piv: Seq<usize>, n: int, i: int) -> Seq<usize>
    decreases i,
{
    if i <= 0 {
        Seq::new(n as nat, |k: int| k as usize)
    } else {
        let p = perm_before(piv, n, i - 1);
        let b = p.index_of(piv[i - 1]);
        p.update(i - 1, p[b]).update(b, p[i - 1])
    }
}

/// Label `c` is not among the first `i` pivots.
pub open spec fn is_open(piv: Seq<usize>, i: int, c: int) -> bool {
    forall|m: int| 0 <= m < i ==> #[trigger] piv[m] != c
}

/// The magnitude of an entry, zero where there is none.
pub open spec fn mag_or_null<T: Scalar>(x: Option<T>) -> T::Real {
    match x {
        Some(v) => v.magnitude(),
        None => T::Real::null(),
    }
}

/// The entry, zero where there is none.
pub open spec fn value_or_null<T: Scalar>(x: Option<T>) -> T {
    match x {
        Some(v) => v,
        None => T::null(),
    }
}

/// The labels of row `i` of `a` below `c`, ascending.
pub open spec fn row_list<T>(a: CscRef<'_, T>, i: int, c: int) -> Seq<usize>
    decreases c,
{
    if c <= 0 {
        Seq::empty()
    } else if stored(*a.pattern)(i, c - 1) {
        row_list(a, i, c - 1).push((c - 1) as usize)
    } else {
        row_list(a, i, c - 1)
    }
}

/// The labels that `row` has at the positions `m + 1 .. pos` of `order`, in that
/// order.
pub open spec fn placed_labels<T>(
    row: Map<int, T>,
    order: Seq<usize>,
    m: int,
    pos: int,
) -> Seq<usize>
    decreases pos,
{
    if pos <= m + 1 || pos <= 0 {
        Seq::empty()
    } else {
        let before = placed_labels(row, order, m, pos - 1);
        if row.dom().contains(order[pos - 1] as int) {
            before.push(order[pos - 1])
        } else {
            before
        }
    }
}

/// The labels of each row of `U` after its pivot, in the order of the positions
/// that the columns had when the row was made.
pub open spec fn tails_of<T>(piv: Seq<usize>, u: Seq<Map<int, T>>, n: int) -> Seq<Seq<usize>> {
    Seq::new(u.len(), |m: int| placed_labels(u[m], perm_before(piv, n, m + 1), m, n))
}

/// The labels of row `i` in the order in which they were given an entry.
pub open spec fn scanned<T: Scalar>(
    a: CscRef<'_, T>,
    params: IlutpParams<T::Tuning>,
    piv: Seq<usize>,
    u: Seq<Map<int, T>>,
    i: int,
) -> Seq<usize> {
    let n = a.pattern.ncols as int;
    scan(
        source_row(a, i),
        row_list(a, i, n),
        threshold(a, params, i),
        piv,
        u,
        tails_of(piv, u, n),
        i,
    )
}

/// The best label after the first `t` of `order`: the diagonal label `d`, until a
/// competitor exceeds it, and then until another exceeds that one. Of several
/// largest competitors it is the first.
pub open spec fn best_label<T: Scalar>(
    r: spec_fn(int) -> Option<T>,
    order: Seq<usize>,
    piv: Seq<usize>,
    n: int,
    i: int,
    d: int,
    t: int,
) -> int
    decreases t,
{
    if t <= 0 {
        d
    } else {
        let b = best_label(r, order, piv, n, i, d, t - 1);
        let c = order[t - 1] as int;
        if competes(r, piv, n, i, d, c) && mag_or_null(r(b)).below(mag_or_null(r(c))) {
            c
        } else {
            b
        }
    }
}

/// The label chosen as the pivot of row `i`: the best one, where it also exceeds
/// `tol` times the diagonal, and the diagonal otherwise.
pub open spec fn pivot_label<T: Scalar>(
    r: spec_fn(int) -> Option<T>,
    tol: Option<T::Real>,
    order: Seq<usize>,
    piv: Seq<usize>,
    n: int,
    i: int,
    d: int,
) -> int {
    let b = best_label(r, order, piv, n, i, d, order.len() as int);
    if tol is Some && b != d && tol->0.times(mag_or_null(r(d))).below(
        mag_or_null(r(b)),
    ) {
        b
    } else {
        d
    }
}

/// The candidates among the labels in `order`, with their magnitudes, in that
/// order.
pub open spec fn ranked<T: Scalar>(
    cand: spec_fn(int) -> Option<T>,
    order: Seq<usize>,
) -> Seq<(T::Real, usize)>
    decreases order.len(),
{
    if order.len() == 0 {
        Seq::empty()
    } else {
        let before = ranked(cand, order.drop_last());
        match cand(order.last() as int) {
            Some(x) => before.push((x.magnitude(), order.last())),
            None => before,
        }
    }
}

/// Label `c` is among `list`.
pub open spec fn named<R>(list: Seq<(R, usize)>, c: int) -> bool {
    exists|t: int| 0 <= t < list.len() && (#[trigger] list[t]).1 == c
}

/// `row` keeps exactly the `p` candidates that come first when they are ranked
/// by magnitude, equal ones in the order `order`.
pub open spec fn keeps_first<T: Scalar>(
    cand: spec_fn(int) -> Option<T>,
    order: Seq<usize>,
    row: Map<int, T>,
    p: nat,
) -> bool {
    forall|c: int| #[trigger] row.dom().contains(c) <==> named(top(ranked(cand, order), p), c)
}

/// Label `c` competes with the diagonal label `d` for the pivot of row `i`.
pub open spec fn competes<T: Scalar>(
    r: spec_fn(int) -> Option<T>,
    piv: Seq<usize>,
    n: int,
    i: int,
    d: int,
    c: int,
) -> bool {
    0 <= c < n && c != d && is_open(piv, i, c) && r(c) is Some
}

/// No competitor is larger than `m`.
pub open spec fn unsurpassed<T: Scalar>(
    r: spec_fn(int) -> Option<T>,
    piv: Seq<usize>,
    n: int,
    i: int,
    d: int,
    m: T::Real,
) -> bool {
    forall|c: int| #[trigger] competes(r, piv, n, i, d, c) ==> !m.below(mag_or_null(r(c)))
}

/// The pivot rule: `q` is the label chosen for row `i`, whose diagonal label is
/// `d`. A competitor is chosen if it is a largest one, exceeds the diagonal, and
/// exceeds `tol` times the diagonal; a zero tolerance disables pivoting.
pub open spec fn pivot_rule<T: Scalar>(
    r: spec_fn(int) -> Option<T>,
    tol: Option<T::Real>,
    piv: Seq<usize>,
    n: int,
    i: int,
    d: int,
    q: int,
) -> bool {
    let dm = mag_or_null(r(d));
    if tol is None {
        q == d
    } else if q == d {
        ||| unsurpassed(r, piv, n, i, d, dm)
        ||| exists|b: int|
            {
                &&& #[trigger] competes(r, piv, n, i, d, b)
                &&& dm.below(mag_or_null(r(b)))
                &&& unsurpassed(r, piv, n, i, d, mag_or_null(r(b)))
                &&& !tol->0.times(dm).below(mag_or_null(r(b)))
            }
    } else {
        &&& competes(r, piv, n, i, d, q)
        &&& dm.below(mag_or_null(r(q)))
        &&& unsurpassed(r, piv, n, i, d, mag_or_null(r(q)))
        &&& tol->0.times(dm).below(mag_or_null(r(q)))
    }
}

/// `row` keeps the `p` largest of the candidates, all of them if there are
/// fewer: nothing left out exceeds anything kept.
pub open spec fn keeps_largest<T: Scalar>(
    cand: spec_fn(int) -> Option<T>,
    row: Map<int, T>,
    p: nat,
    n: int,
) -> bool {
    &&& row.dom().finite()
    &&& row.dom().len() <= p
    &&& forall|c: int| #[trigger]
        row.dom().contains(c) ==> 0 <= c < n && cand(c) == Some(row[c])
    &&& (exists|c: int|
        0 <= c < n && #[trigger] cand(c) is Some && !row.dom().contains(c)) ==> row.dom().len() == p
    &&& forall|x: int, y: int| #[trigger]
        row.dom().contains(x) && 0 <= y < n && #[trigger] cand(y) is Some && !row.dom().contains(y)
            ==> !row[x].magnitude().below(mag_or_null(cand(y)))
}

/// The entries of the eliminated row that may enter `U` beside the pivot `q`.
pub open spec fn upper_candidates<T: Scalar>(
    r: spec_fn(int) -> Option<T>,
    tau: T::Real,
    piv: Seq<usize>,
    i: int,
    q: int,
) -> spec_fn(int) -> Option<T> {
    |c: int|
        if c != q && is_open(piv, i, c) && r(c) is Some && tau.at_most(mag_or_null(r(c))) {
            r(c)
        } else {
            None
        }
}

/// The multipliers of the eliminated row, which may enter `L`.
pub open spec fn lower_candidates<T: Scalar>(
    r: spec_fn(int) -> Option<T>,
    piv: Seq<usize>,
    i: int,
) -> spec_fn(int) -> Option<T> {
    |c: int|
        if is_open(piv, i, c) {
            None
        } else {
            r(c)
        }
}

/// Row `i` of `a` after the pivots before it have been eliminated.
pub open spec fn eliminated<T: Scalar>(
    a: CscRef<'_, T>,
    params: IlutpParams<T::Tuning>,
    piv: Seq<usize>,
    u: Seq<Map<int, T>>,
    i: int,
) -> spec_fn(int) -> Option<T> {
    |c: int| acc(source_row(a, i), threshold(a, params, i), piv, u, i, c)
}

/// Row `i` of the factorisation: its pivot `piv[i]` follows the pivot rule and
/// is not zero, `u[i]` holds the pivot and the largest of the other entries, and
/// `l[i]` the largest multipliers. Among equals, the pivot is the first that the
/// elimination gave an entry, and the entries kept are the first ones.
pub open spec fn row_done<T: Scalar>(
    a: CscRef<'_, T>,
    params: IlutpParams<T::Tuning>,
    piv: Seq<usize>,
    u: Seq<Map<int, T>>,
    l: Seq<Map<int, T>>,
    i: int,
) -> bool {
    let n = a.pattern.ncols as int;
    let p = budget(params, a.pattern.row_idx@.len(), a.pattern.ncols as nat);
    let r = eliminated(a, params, piv, u, i);
    let d = perm_before(piv, n, i)[i] as int;
    let q = piv[i] as int;
    let order = scanned(a, params, piv, u, i);
    &&& pivot_rule(r, pivoting::<T>(params), piv, n, i, d, q)
    &&& q == pivot_label(r, pivoting::<T>(params), order, piv, n, i, d)
    &&& T::Real::null().below(value_or_null(r(q)).magnitude())
    &&& u[i].dom().contains(q)
    &&& u[i][q] == value_or_null(r(q))
    &&& keeps_largest(
        upper_candidates(r, threshold(a, params, i), piv, i, q),
        u[i].remove(q),
        p,
        n,
    )
    &&& keeps_first(
        upper_candidates(r, threshold(a, params, i), piv, i, q),
        order,
        u[i].remove(q),
        p,
    )
    &&& keeps_largest(lower_candidates(r, piv, i), l[i], p, n)
    &&& keeps_first(lower_candidates(r, piv, i), order, l[i], p)
}

/// The first `i` rows are done.
pub open spec fn rows_done<T: Scalar>(
    a: CscRef<'_, T>,
    params: IlutpParams<T::Tuning>,
    piv: Seq<usize>,
    u: Seq<Map<int, T>>,
    l: Seq<Map<int, T>>,
    i: int,
) -> bool {
    forall|m: int| 0 <= m < i ==> #[trigger] row_done(a, params, piv, u, l, m)
}

/// Row `i` reduces to a zero pivot: the label that the pivot rule chooses has no
/// positive magnitude.
pub open spec fn row_stuck<T: Scalar>(
    a: CscRef<'_, T>,
    params: IlutpParams<T::Tuning>,
    piv: Seq<usize>,
    u: Seq<Map<int, T>>,
    i: int,
) -> bool {
    let n = a.pattern.ncols as int;
    let r = eliminated(a, params, piv, u, i);
    let d = perm_before(piv, n, i)[i] as int;
    let q = pivot_label(r, pivoting::<T>(params), scanned(a, params, piv, u, i), piv, n, i, d);
    !T::Real::null().below(value_or_null(r(q)).magnitude())
}

/// The factorisation of `a` reaches row `i` with the pivots `piv` and finds no
/// pivot there.
pub open spec fn stuck_with<T: Scalar>(
    a: CscRef<'_, T>,
    params: IlutpParams<T::Tuning>,
    piv: Seq<usize>,
    i: int,
) -> bool {
    exists|u: Seq<Map<int, T>>, l: Seq<Map<int, T>>|
        {
            &&& u.len() == i
            &&& #[trigger] rows_done(a, params, piv, u, l, i)
            &&& row_stuck(a, params, piv, u, i)
        }
}

/// The factorisation of `a` reaches row `i` and finds no pivot there.
pub open spec fn stuck_at<T: Scalar>(
    a: CscRef<'_, T>,
    params: IlutpParams<T::Tuning>,
    i: int,
) -> bool {
    exists|piv: Seq<usize>| #[trigger] stuck_with(a, params, piv, i)
}

/// A label is open at row `i` exactly if its position is not below `i`.
proof fn lemma_open(perm: Seq<usize>, inv: Seq<usize>, n: int, i: int, c: int)
    requires
        inverse_perms(perm, inv, n),
        0 <= i <= n,
        0 <= c < n,
    ensures
        is_open(perm, i, c) <==> inv[c] >= i,
{
    assert(perm[inv[c] as int] == c);
    if inv[c] >= i {
        assert forall|m: int| 0 <= m < i implies #[trigger] perm[m] != c by {
            assert(inv[perm[m] as int] == m);
        }
    }
}

/// The permutation before row `i` depends on the first `i` pivots only.
pub proof fn lemma_perm_before_prefix(piv: Seq<usize>, piv2: Seq<usize>, n: int, i: int)
    requires
        forall|m: int| 0 <= m < i ==> #[trigger] piv[m] == piv2[m],
    ensures
        perm_before(piv, n, i) == perm_before(piv2, n, i),
    decreases i,
{
    if i > 0 {
        assert(piv[i - 1] == piv2[i - 1]);
        lemma_perm_before_prefix(piv, piv2, n, i - 1);
    }
}

/// A row looks at nothing beyond its own pivot and rows.
proof fn lemma_row_done_prefix<T: Scalar>(
    a: CscRef<'_, T>,
    params: IlutpParams<T::Tuning>,
    piv: Seq<usize>,
    u: Seq<Map<int, T>>,
    l: Seq<Map<int, T>>,
    piv2: Seq<usize>,
    u2: Seq<Map<int, T>>,
    l2: Seq<Map<int, T>>,
    i: int,
)
    requires
        0 <= i,
        forall|m: int| 0 <= m <= i ==> #[trigger] piv[m] == piv2[m],
        forall|m: int| 0 <= m <= i ==> #[trigger] u[m] == u2[m],
        l[i] == l2[i],
        u.len() > i,
        u2.len() > i,
        row_done(a, params, piv, u, l, i),
    ensures
        row_done(a, params, piv2, u2, l2, i),
{
    let n = a.pattern.ncols as int;
    let r = eliminated(a, params, piv, u, i);
    let r2 = eliminated(a, params, piv2, u2, i);
    assert forall|c: int| #[trigger] r(c) == r2(c) by {
        lemma_acc_prefix(source_row(a, i), threshold(a, params, i), piv, u, piv2, u2, i, c);
    }
    assert(r =~= r2);
    lemma_perm_before_prefix(piv, piv2, n, i);
    let d = perm_before(piv, n, i)[i] as int;
    let q = piv[i] as int;
    assert(piv[i] == piv2[i]);
    assert(u[i] == u2[i]);
    lemma_open_prefix(piv, piv2, i);
    lemma_rule_prefix(r, pivoting::<T>(params), piv, piv2, n, i, d, q);
    let tau = threshold(a, params, i);
    let order = scanned(a, params, piv, u, i);
    lemma_scanned_prefix(a, params, piv, u, piv2, u2, i);
    lemma_best_prefix(r, order, piv, piv2, n, i, d, order.len() as int);
    assert(upper_candidates(r, tau, piv, i, q) =~= upper_candidates(r, tau, piv2, i, q)) by {
        assert forall|c: int| #[trigger] upper_candidates(r, tau, piv, i, q)(c)
            == upper_candidates(r, tau, piv2, i, q)(c) by {
            assert(is_open(piv, i, c) == is_open(piv2, i, c));
        }
    }
    assert(lower_candidates(r, piv, i) =~= lower_candidates(r, piv2, i)) by {
        assert forall|c: int| #[trigger] lower_candidates(r, piv, i)(c) == lower_candidates(
            r,
            piv2,
            i,
        )(c) by {
            assert(is_open(piv, i, c) == is_open(piv2, i, c));
        }
    }
}

/// The order of the scan depends on the first `i` pivots and rows only.
pub proof fn lemma_scanned_prefix<T: Scalar>(
    a: CscRef<'_, T>,
    params: IlutpParams<T::Tuning>,
    piv: Seq<usize>,
    u: Seq<Map<int, T>>,
    piv2: Seq<usize>,
    u2: Seq<Map<int, T>>,
    i: int,
)
    requires
        i <= u.len(),
        i <= u2.len(),
        forall|m: int| 0 <= m < i ==> #[trigger] piv[m] == piv2[m],
        forall|m: int| 0 <= m < i ==> #[trigger] u[m] == u2[m],
    ensures
        scanned(a, params, piv, u, i) == scanned(a, params, piv2, u2, i),
{
    let n = a.pattern.ncols as int;
    let t1 = tails_of(piv, u, n);
    let t2 = tails_of(piv2, u2, n);
    assert forall|m: int| 0 <= m < i implies #[trigger] t1[m] == t2[m] by {
        assert(u[m] == u2[m]);
        lemma_perm_before_prefix(piv, piv2, n, m + 1);
    }
    lemma_scan_prefix(
        source_row(a, i),
        row_list(a, i, n),
        threshold(a, params, i),
        piv,
        u,
        t1,
        piv2,
        u2,
        t2,
        i,
    );
}

/// The best label depends on the first `i` pivots only.
pub proof fn lemma_best_prefix<T: Scalar>(
    r: spec_fn(int) -> Option<T>,
    order: Seq<usize>,
    piv: Seq<usize>,
    piv2: Seq<usize>,
    n: int,
    i: int,
    d: int,
    t: int,
)
    requires
        forall|m: int| 0 <= m < i ==> #[trigger] piv[m] == piv2[m],
    ensures
        best_label(r, order, piv, n, i, d, t) == best_label(r, order, piv2, n, i, d, t),
    decreases t,
{
    if t > 0 {
        lemma_best_prefix(r, order, piv, piv2, n, i, d, t - 1);
        lemma_open_prefix(piv, piv2, i);
        let c = order[t - 1] as int;
        assert(is_open(piv, i, c) == is_open(piv2, i, c));
    }
}

pub proof fn lemma_open_prefix(piv: Seq<usize>, piv2: Seq<usize>, i: int)
    requires
        forall|m: int| 0 <= m < i ==> #[trigger] piv[m] == piv2[m],
    ensures
        forall|c: int|
            #![trigger is_open(piv, i, c)]
            #![trigger is_open(piv2, i, c)]
            is_open(piv, i, c) == is_open(piv2, i, c),
{
    assert forall|c: int|
        #![trigger is_open(piv, i, c)]
        #![trigger is_open(piv2, i, c)]
        is_open(piv, i, c) == is_open(piv2, i, c) by {
        if is_open(piv, i, c) {
            assert forall|m: int| 0 <= m < i implies #[trigger] piv2[m] != c by {
                assert(piv[m] == piv2[m]);
            }
        }
        if is_open(piv2, i, c) {
            assert forall|m: int| 0 <= m < i implies #[trigger] piv[m] != c by {
                assert(piv[m] == piv2[m]);
            }
        }
    }
}

proof fn lemma_rule_prefix<T: Scalar>(
    r: spec_fn(int) -> Option<T>,
    tol: Option<T::Real>,
    piv: Seq<usize>,
    piv2: Seq<usize>,
    n: int,
    i: int,
    d: int,
    q: int,
)
    requires
        forall|m: int| 0 <= m < i ==> #[trigger] piv[m] == piv2[m],
        pivot_rule(r, tol, piv, n, i, d, q),
    ensures
        pivot_rule(r, tol, piv2, n, i, d, q),
{
    lemma_open_prefix(piv, piv2, i);
    assert forall|c: int|
        #![trigger competes(r, piv, n, i, d, c)]
        #![trigger competes(r, piv2, n, i, d, c)]
        competes(r, piv, n, i, d, c) == competes(r, piv2, n, i, d, c) by {
        assert(is_open(piv, i, c) == is_open(piv2, i, c));
    }
    assert forall|m: T::Real| #[trigger] unsurpassed(r, piv, n, i, d, m) == unsurpassed(
        r,
        piv2,
        n,
        i,
        d,
        m,
    ) by {
        if unsurpassed(r, piv, n, i, d, m) {
            assert forall|c: int| #[trigger] competes(r, piv2, n, i, d, c) implies !m.below(
                mag_or_null(r(c)),
            ) by {
                assert(competes(r, piv, n, i, d, c));
            }
        }
        if unsurpassed(r, piv2, n, i, d, m) {
            assert forall|c: int| #[trigger] competes(r, piv, n, i, d, c) implies !m.below(
                mag_or_null(r(c)),
            ) by {
                assert(competes(r, piv2, n, i, d, c));
            }
        }
    }
    let dm = mag_or_null(r(d));
    if tol is Some && q == d && !unsurpassed(r, piv, n, i, d, dm) {
        let b = choose|b: int|
            {
                &&& #[trigger] competes(r, piv, n, i, d, b)
                &&& dm.below(mag_or_null(r(b)))
                &&& unsurpassed(r, piv, n, i, d, mag_or_null(r(b)))
                &&& !tol->0.times(dm).below(mag_or_null(r(b)))
            };
        assert(competes(r, piv2, n, i, d, b));
    }
    if q != d && tol is Some {
        assert(competes(r, piv2, n, i, d, q));
    }
    assert(unsurpassed(r, piv, n, i, d, dm) == unsurpassed(r, piv2, n, i, d, dm));
}

/// The per-row fill budget for one triangular part.
fn fill_budget<R: RealScalar>(params: &IlutpParams<R>, nnz: usize, n: usize) -> (r: usize)
    ensures
        r == budget(*params, nnz as nat, n as nat),
{
    match &params.fill {
        FillControl::PerRow(p) => *p,
        FillControl::Factor(f) => {
            if n == 0 {
                return 1;
            }
            let avg: R = R::from_ratio(nnz as u64, n as u64);
            let p: usize = f.mul(&avg).round_to_usize();
            if p >= 1 {
                p
            } else {
                1
            }
        },
    }
}

/// Columns without an entry add nothing to the norm.
proof fn lemma_norm_skip<T: Scalar>(a: CscRef<'_, T>, norm: RowNorm, i: int, c1: int, c2: int)
    requires
        0 <= c1 <= c2,
        forall|c: int| c1 <= c < c2 ==> #[trigger] source_row(a, i)(c) is None,
    ensures
        norm_sum(a, norm, i, c2) == norm_sum(a, norm, i, c1),
    decreases c2,
{
    if c1 < c2 {
        lemma_norm_skip(a, norm, i, c1, c2 - 1);
        assert(source_row(a, i)(c2 - 1) is None);
    }
}

/// Columns without an entry add nothing to the list of labels.
proof fn lemma_list_skip<T>(a: CscRef<'_, T>, i: int, c1: int, c2: int)
    requires
        0 <= c1 <= c2,
        forall|c: int| c1 <= c < c2 ==> #[trigger] source_row(a, i)(c) is None,
    ensures
        row_list(a, i, c2) == row_list(a, i, c1),
    decreases c2,
{
    if c1 < c2 {
        lemma_list_skip(a, i, c1, c2 - 1);
        assert(source_row(a, i)(c2 - 1) is None);
    }
}

/// Spreads row `i` of `a` over the working row and returns its norm.
fn scatter_row<T: Scalar>(
    a: CscRef<'_, T>,
    at: &CscPattern,
    order: &Vec<usize>,
    norm: RowNorm,
    i: usize,
    w: &mut Vec<Option<T>>,
    used: &mut Vec<usize>,
    heap: &mut Vec<usize>,
    perm_inv: &Vec<usize>,
    Ghost(perm): Ghost<Seq<usize>>,
) -> (r: T::Real)
    requires
        a.wf(),
        a.pattern.distinct(),
        a.pattern.nrows == a.pattern.ncols,
        is_transpose(*a.pattern, *at, order@),
        at.sorted(),
        i < a.pattern.ncols,
        old(w)@.len() == a.pattern.ncols,
        forall|c: int| 0 <= c < old(w)@.len() ==> #[trigger] old(w)@[c] is None,
        old(used)@.len() == 0,
        old(heap)@.len() == 0,
        inverse_perms(perm, perm_inv@, a.pattern.ncols as int),
    ensures
        r == row_norm(a, norm, i as int),
        final(w)@.len() == old(w)@.len(),
        forall|c: int|
            0 <= c < final(w)@.len() ==> #[trigger] final(w)@[c] == source_row(a, i as int)(c),
        work_ok(final(w)@, final(used)@, final(heap)@, perm, perm_inv@, 0, i as int),
        final(used)@ == row_list(a, i as int, a.pattern.ncols as int),
{
    let ghost n = a.pattern.ncols as int;
    let ghost ii = i as int;
    let ghost src = source_row(a, ii);
    let s: usize = at.col_ptr[i];
    let e: usize = at.col_ptr[i + 1];
    proof {
        at.lemma_col_bounds(ii);
        assert(at.sorted_col(ii));
    }
    let mut sum: T::Real = T::Real::zero();
    let ghost mut next: int = 0;
    let mut t: usize = s;
    while t < e
        invariant
            n == a.pattern.ncols,
            ii == i,
            i < n,
            a.wf(),
            a.pattern.distinct(),
            a.pattern.nrows == n,
            is_transpose(*a.pattern, *at, order@),
            at.sorted_col(ii),
            src == source_row(a, ii),
            s == at.start(ii),
            e == at.end(ii),
            s <= t <= e <= at.row_idx@.len(),
            w@.len() == n,
            inverse_perms(perm, perm_inv@, n),
            work_ok(w@, used@, heap@, perm, perm_inv@, 0, ii),
            forall|c: usize| used@.contains(c) ==> #[trigger] w@[c as int] is Some,
            forall|c: int|
                0 <= c < n ==> (#[trigger] w@[c] is Some <==> exists|q: int|
                    s <= q < t && #[trigger] at.row_idx@[q] == c),
            forall|c: int| 0 <= c < n && #[trigger] w@[c] is Some ==> w@[c] == src(c),
            0 <= next <= n,
            next == if t == s {
                0
            } else {
                at.row_idx@[t - 1] + 1
            },
            sum == norm_sum(a, norm, ii, next),
            used@ == row_list(a, ii, next),
        decreases e - t,
    {
        let c: usize = at.row_idx[t];
        let pos: usize = order[t];
        let ghost cc = c as int;
        let ghost w0 = w@;
        proof {
            assert(at.in_col(t as int, ii));
            assert(a.pattern.in_col(pos as int, cc));
            assert(a.pattern.row_idx@[pos as int] == i);
            a.pattern.lemma_find_only(pos as int, cc);
            assert(src(cc) == Some(a.values@[pos as int]));
            assert(w@[cc] is None);
            assert(!used@.contains(c));
            assert forall|b: int| next <= b < cc implies #[trigger] src(b) is None by {
                if stored(*a.pattern)(ii, b) {
                    lemma_transpose_has(*a.pattern, *at, order@, ii, b);
                    at.lemma_find(b, ii);
                    let q = at.find(b, ii);
                    if q < t {
                        if q < t - 1 {
                            assert(at.row_idx@[q] < at.row_idx@[t - 1]);
                        }
                    } else if q > t {
                        assert(at.row_idx@[t as int] < at.row_idx@[q]);
                    }
                }
            }
            lemma_norm_skip(a, norm, ii, next, cc);
            lemma_list_skip(a, ii, next, cc);
        }
        let v: T = a.values[pos].copy();
        let term: T::Real = match norm {
            RowNorm::One => v.abs(),
            RowNorm::Two => v.abs2(),
        };
        sum = sum.add(&term);
        touch(w, used, heap, perm_inv, c, v, i, Ghost(perm), Ghost(0));
        proof {
            next = cc + 1;
            assert(norm_sum(a, norm, ii, cc + 1) == norm_sum(a, norm, ii, cc).plus(term));
            assert forall|b: int| 0 <= b < n implies (#[trigger] w@[b] is Some <==> exists|q: int|
                s <= q < t + 1 && #[trigger] at.row_idx@[q] == b) by {
                if b == cc {
                    assert(at.row_idx@[t as int] == b);
                } else {
                    assert(w@[b] == w0[b]);
                    if w0[b] is Some {
                        let q = choose|q: int| s <= q < t && #[trigger] at.row_idx@[q] == b;
                        assert(s <= q < t + 1 && at.row_idx@[q] == b);
                    }
                }
            }
            assert forall|b: usize| used@.contains(b) implies #[trigger] w@[b as int] is Some by {
                if b != c {
                    assert(w@[b as int] is Some || perm_inv@[b as int] < 0);
                }
            }
        }
        t += 1;
    }
    proof {
        assert forall|b: int| 0 <= b < n implies #[trigger] w@[b] == src(b) by {
            if stored(*a.pattern)(ii, b) {
                lemma_transpose_has(*a.pattern, *at, order@, ii, b);
                at.lemma_find(b, ii);
                assert(at.row_idx@[at.find(b, ii)] == b);
            }
        }
        assert forall|b: int| next <= b < n implies #[trigger] src(b) is None by {
            if stored(*a.pattern)(ii, b) {
                assert(w@[b] is Some);
                let q = choose|q: int| s <= q < t && #[trigger] at.row_idx@[q] == b;
                if q < t - 1 {
                    assert(at.row_idx@[q] < at.row_idx@[t - 1]);
                }
            }
        }
        lemma_norm_skip(a, norm, ii, next, n);
        lemma_list_skip(a, ii, next, n);
    }
    match norm {
        RowNorm::One => sum,
        RowNorm::Two => sum.sqrt(),
    }
}

/// Chooses the label of the pivot of row `i`.
fn choose_pivot<T: Scalar>(
    w: &Vec<Option<T>>,
    used: &Vec<usize>,
    perm: &Vec<usize>,
    perm_inv: &Vec<usize>,
    i: usize,
    tol: &Option<T::Real>,
    Ghost(r): Ghost<spec_fn(int) -> Option<T>>,
) -> (q: usize)
    requires
        inverse_perms(perm@, perm_inv@, w@.len() as int),
        i < w@.len(),
        forall|c: int| 0 <= c < w@.len() ==> #[trigger] w@[c] == r(c),
        forall|c: usize| #[trigger] used@.contains(c) ==> c < w@.len(),
        forall|c: int| 0 <= c < w@.len() && #[trigger] w@[c] is Some ==> used@.contains(c as usize),
    ensures
        q < w@.len(),
        perm_inv@[q as int] >= i,
        pivot_rule(
            r,
            *tol,
            perm@,
            w@.len() as int,
            i as int,
            perm@[i as int] as int,
            q as int,
        ),
        q == pivot_label(
            r,
            *tol,
            used@,
            perm@,
            w@.len() as int,
            i as int,
            perm@[i as int] as int,
        ),
{
    let len: usize = w.len();
    let ghost n = len as int;
    let ghost ii = i as int;
    let d: usize = perm[i];
    let ghost dd = d as int;
    proof {
        assert(perm@[ii] < n && perm_inv@[perm@[ii] as int] == ii);
    }
    let tol_value: &T::Real = match tol {
        Some(x) => x,
        None => {
            return d;
        },
    };
    let diag_mag: T::Real = match &w[d] {
        Some(x) => x.abs(),
        None => T::Real::zero(),
    };
    assert(diag_mag == mag_or_null(r(dd)));
    let mut best: usize = d;
    let mut best_mag: T::Real = diag_mag.copy();
    proof {
        T::Real::below_irreflexive(diag_mag);
    }
    let mut t: usize = 0;
    while t < used.len()
        invariant
            n == w@.len(),
            ii == i,
            i < n,
            dd == d,
            d < n,
            d == perm@[ii],
            inverse_perms(perm@, perm_inv@, n),
            forall|c: int| 0 <= c < n ==> #[trigger] w@[c] == r(c),
            forall|c: usize| #[trigger] used@.contains(c) ==> c < n,
            t <= used@.len(),
            diag_mag == mag_or_null(r(dd)),
            best < n,
            best == best_label(r, used@, perm@, n, ii, dd, t as int),
            best_mag == mag_or_null(r(best as int)),
            best == d ==> best_mag == diag_mag,
            best != d ==> {
                &&& competes(r, perm@, n, ii, dd, best as int)
                &&& best_mag == mag_or_null(r(best as int))
                &&& diag_mag.below(best_mag)
            },
            forall|z: int|
                0 <= z < t && competes(r, perm@, n, ii, dd, (#[trigger] used@[z]) as int)
                    ==> !best_mag.below(mag_or_null(r(used@[z] as int))),
        decreases used.len() - t,
    {
        let c: usize = used[t];
        let ghost cc = c as int;
        proof {
            assert(used@.contains(used@[t as int]));
            lemma_open(perm@, perm_inv@, n, ii, cc);
            assert(perm@[perm_inv@[cc] as int] == c);
        }
        if perm_inv[c] > i {
            if let Some(x) = &w[c] {
                let m: T::Real = x.abs();
                proof {
                    assert(w@[cc] == r(cc));
                    assert(competes(r, perm@, n, ii, dd, cc));
                    assert(m == mag_or_null(r(cc)));
                }
                if best_mag.lt(&m) {
                    proof {
                        assert forall|z: int|
                            0 <= z < t + 1 && competes(
                                r,
                                perm@,
                                n,
                                ii,
                                dd,
                                (#[trigger] used@[z]) as int,
                            ) implies !m.below(mag_or_null(r(used@[z] as int))) by {
                            if z == t {
                                T::Real::below_irreflexive(m);
                            } else if m.below(mag_or_null(r(used@[z] as int))) {
                                T::Real::below_transitive(
                                    best_mag,
                                    m,
                                    mag_or_null(r(used@[z] as int)),
                                );
                            }
                        }
                        if best != d {
                            T::Real::below_transitive(diag_mag, best_mag, m);
                        }
                    }
                    best_mag = m;
                    best = c;
                }
            }
        } else {
            assert(!competes(r, perm@, n, ii, dd, cc)) by {
                if perm_inv@[cc] == ii {
                    assert(c == d);
                }
            }
        }
        t += 1;
    }
    proof {
        assert forall|c: int| #[trigger] competes(r, perm@, n, ii, dd, c) implies !best_mag.below(
            mag_or_null(r(c)),
        ) by {
            assert(w@[c] == r(c));
            assert(used@.contains(c as usize));
            let z = choose|z: int| 0 <= z < used@.len() && used@[z] == c as usize;
            assert(used@[z] as int == c);
        }
        assert(unsurpassed(r, perm@, n, ii, dd, best_mag));
    }
    if best != d {
        proof {
            lemma_open(perm@, perm_inv@, n, ii, best as int);
        }
        let bar: T::Real = tol_value.mul(&diag_mag);
        if bar.lt(&best_mag) {
            return best;
        }
        assert(competes(r, perm@, n, ii, dd, best as int));
    }
    d
}

/// Label `c` lies on the side of the diagonal that is asked for.
pub open spec fn on_side(inv: Seq<usize>, i: int, lower: bool, c: int) -> bool {
    if lower {
        inv[c] < i
    } else {
        inv[c] > i
    }
}

/// The candidates of one side of the working row.
pub open spec fn side_candidates<T: Scalar>(
    w: Seq<Option<T>>,
    inv: Seq<usize>,
    i: int,
    lower: bool,
    tau: T::Real,
) -> spec_fn(int) -> Option<T> {
    |c: int|
        if w[c] is Some && on_side(inv, i, lower, c) && (lower || tau.at_most(mag_or_null(w[c]))) {
            w[c]
        } else {
            None
        }
}

/// A row has as many entries as labels.
proof fn lemma_map_len<T>(row: SparseRow<T>, n: int)
    requires
        row.wf(n),
    ensures
        row.map().dom().finite(),
        row.map().dom().len() == row.idx@.len(),
{
    let ints = row.idx@.map_values(|x: usize| x as int);
    assert(ints.no_duplicates()) by {
        assert forall|a: int, b: int|
            0 <= a < ints.len() && 0 <= b < ints.len() && a != b implies ints[a] != ints[b] by {
            assert(row.idx@[a] != row.idx@[b]);
        }
    }
    ints.unique_seq_to_set();
    assert(row.map().dom() =~= ints.to_set()) by {
        assert forall|c: int| row.map().dom().contains(c) <==> ints.to_set().contains(c) by {
            if row.map().dom().contains(c) {
                let t = slot(row.idx@, c);
                assert(listed(row.idx@, c));
                assert(0 <= t < row.idx@.len() && row.idx@[t] == c);
                assert(ints[t] == c);
            }
            if ints.to_set().contains(c) {
                let t = choose|t: int| 0 <= t < ints.len() && ints[t] == c;
                assert(row.idx@[t] == c);
                assert(listed(row.idx@, c));
            }
        }
    }
    vstd::seq_lib::seq_to_set_is_finite(ints);
}

/// What ranking the candidates lists.
pub proof fn lemma_ranked<T: Scalar>(cand: spec_fn(int) -> Option<T>, order: Seq<usize>)
    ensures
        forall|a: int|
            0 <= a < ranked(cand, order).len() ==> order.contains(
                (#[trigger] ranked(cand, order)[a]).1,
            ) && cand(ranked(cand, order)[a].1 as int) is Some && ranked(cand, order)[a].0
                == mag_or_null(cand(ranked(cand, order)[a].1 as int)),
        forall|c: usize| #[trigger]
            order.contains(c) && cand(c as int) is Some ==> named(ranked(cand, order), c as int),
        order.no_duplicates() ==> forall|a: int, b: int|
            0 <= a < b < ranked(cand, order).len() ==> (#[trigger] ranked(cand, order)[a]).1 != (
            #[trigger] ranked(cand, order)[b]).1,
    decreases order.len(),
{
    if order.len() > 0 {
        let o1 = order.drop_last();
        let c0 = order.last();
        let r1 = ranked(cand, o1);
        let r = ranked(cand, order);
        lemma_ranked(cand, o1);
        assert(order[order.len() - 1] == c0);
        assert forall|a: int| 0 <= a < r.len() implies order.contains((#[trigger] r[a]).1) && cand(
            r[a].1 as int,
        ) is Some && r[a].0 == mag_or_null(cand(r[a].1 as int)) by {
            if a < r1.len() {
                assert(r[a] == r1[a]);
                let k = choose|k: int| 0 <= k < o1.len() && o1[k] == r1[a].1;
                assert(order[k] == r[a].1);
            }
        }
        assert forall|c: usize| #[trigger] order.contains(c) && cand(c as int) is Some implies named(
            r,
            c as int,
        ) by {
            if c == c0 {
                assert(r[r.len() - 1].1 == c);
            } else {
                let k = choose|k: int| 0 <= k < order.len() && order[k] == c;
                assert(o1[k] == c);
                assert(o1.contains(c));
                let a = choose|a: int| 0 <= a < r1.len() && (#[trigger] r1[a]).1 == c;
                assert(r[a] == r1[a]);
            }
        }
        if order.no_duplicates() {
            assert(o1.no_duplicates());
            assert forall|a: int, b: int| 0 <= a < b < r.len() implies (#[trigger] r[a]).1 != (
            #[trigger] r[b]).1 by {
                assert(r[a] == r1[a]);
                if b < r1.len() {
                    assert(r[b] == r1[b]);
                } else {
                    let k = choose|k: int| 0 <= k < o1.len() && o1[k] == r1[a].1;
                    assert(order[k] != order[order.len() - 1]);
                }
            }
        }
    }
}

/// Keeps the `p` largest entries of one side of the working row, ascending by
/// position.
#[verifier::rlimit(40)]
pub(crate) fn select_side<T: Scalar>(
    w: &Vec<Option<T>>,
    used: &Vec<usize>,
    perm: &Vec<usize>,
    perm_inv: &Vec<usize>,
    i: usize,
    lower: bool,
    tau: &T::Real,
    p: usize,
) -> (r: SparseRow<T>)
    requires
        inverse_perms(perm@, perm_inv@, w@.len() as int),
        used@.no_duplicates(),
        forall|c: usize| #[trigger] used@.contains(c) ==> c < w@.len(),
        forall|c: int| 0 <= c < w@.len() && #[trigger] w@[c] is Some ==> used@.contains(c as usize),
    ensures
        r.wf(w@.len() as int),
        forall|a: int, b: int|
            0 <= a < b < r.idx@.len() ==> perm_inv@[(#[trigger] r.idx@[a]) as int] < perm_inv@[(
            #[trigger] r.idx@[b]) as int],
        forall|t: int|
            0 <= t < r.idx@.len() ==> on_side(
                perm_inv@,
                i as int,
                lower,
                (#[trigger] r.idx@[t]) as int,
            ),
        keeps_largest(
            side_candidates(w@, perm_inv@, i as int, lower, *tau),
            r.map(),
            p as nat,
            w@.len() as int,
        ),
        keeps_first(
            side_candidates(w@, perm_inv@, i as int, lower, *tau),
            used@,
            r.map(),
            p as nat,
        ),
{
    let wlen: usize = w.len();
    let ghost n = wlen as int;
    let ghost cand = side_candidates(w@, perm_inv@, i as int, lower, *tau);
    let ghost place = |c: usize| perm_inv@[c as int];
    let mut sel: Vec<(T::Real, usize)> = Vec::new();
    let mut t: usize = 0;
    assert(used@.subrange(0, 0) =~= Seq::<usize>::empty());
    while t < used.len()
        invariant
            n == w@.len(),
            perm_inv@.len() == n,
            forall|c: usize| #[trigger] used@.contains(c) ==> c < n,
            cand == side_candidates(w@, perm_inv@, i as int, lower, *tau),
            place == (|c: usize| perm_inv@[c as int]),
            t <= used@.len(),
            sel@.len() == ranked(cand, used@.subrange(0, t as int)).len(),
            forall|a: int|
                0 <= a < sel@.len() ==> #[trigger] sel@[a] == (
                    ranked(cand, used@.subrange(0, t as int))[a].0,
                    place(ranked(cand, used@.subrange(0, t as int))[a].1),
                ),
        decreases used.len() - t,
    {
        let c: usize = used[t];
        let ghost cc = c as int;
        proof {
            assert(used@.contains(used@[t as int]));
            let next = used@.subrange(0, t + 1);
            assert(next.drop_last() =~= used@.subrange(0, t as int));
            assert(next.last() == c);
        }
        let k: usize = perm_inv[c];
        let side: bool = if lower {
            k < i
        } else {
            k > i
        };
        if side {
            if let Some(x) = &w[c] {
                let m: T::Real = x.abs();
                if lower || tau.le(&m) {
                    sel.push((m, k));
                    assert(cand(cc) == w@[cc]);
                }
            }
        }
        t += 1;
    }
    let ghost all = sel@;
    let ghost lab = ranked(cand, used@);
    proof {
        assert(used@.subrange(0, t as int) =~= used@);
        lemma_ranked(cand, used@);
        assert forall|a: int| 0 <= a < all.len() implies (#[trigger] all[a]).1 < n
            && perm@[all[a].1 as int] == lab[a].1 && cand(perm@[all[a].1 as int] as int) is Some
            && all[a].0 == mag_or_null(cand(perm@[all[a].1 as int] as int)) by {
            let c = lab[a].1;
            assert(used@.contains(c));
            assert(all[a] == (lab[a].0, place(c)));
            assert(perm_inv@[c as int] < n && perm@[perm_inv@[c as int] as int] == c);
        }
        assert forall|a: int, b: int| 0 <= a < b < all.len() implies (#[trigger] all[a]).1 != (
        #[trigger] all[b]).1 by {
            assert(perm@[all[a].1 as int] == lab[a].1);
            assert(perm@[all[b].1 as int] == lab[b].1);
            assert(lab[a].1 != lab[b].1);
        }
    }
    select_topk(&mut sel, p);
    let ghost kept = sel@;
    let ghost dropped = choose|d: Seq<(T::Real, usize)>| #[trigger] top_split(all, kept, d);
    proof {
        assert(all.no_duplicates());
        lemma_top_distinct(all, kept, dropped);
        assert forall|a: int| 0 <= a < kept.len() implies all.contains(#[trigger] kept[a]) by {
            assert(kept.contains(kept[a]));
            lemma_top_member(all, kept, dropped, kept[a]);
        }
        assert forall|a: int, b: int|
            0 <= a < kept.len() && 0 <= b < kept.len() && a != b implies (#[trigger] kept[a]).1
            != (#[trigger] kept[b]).1 by {
            let x = choose|x: int| 0 <= x < all.len() && all[x] == kept[a];
            let y = choose|y: int| 0 <= y < all.len() && all[y] == kept[b];
            assert(kept[a] != kept[b]);
            if x < y {
                assert(all[x].1 != all[y].1);
            } else {
                assert(all[y].1 != all[x].1);
            }
        }
    }
    let mut idx: Vec<usize> = Vec::new();
    let mut val: Vec<T> = Vec::new();
    let mut t: usize = 0;
    while t < sel.len()
        invariant
            n == w@.len(),
            perm@.len() == n,
            inverse_perms(perm@, perm_inv@, n),
            sel@ == kept,
            t <= kept.len(),
            cand == side_candidates(w@, perm_inv@, i as int, lower, *tau),
            forall|a: int| 0 <= a < kept.len() ==> all.contains(#[trigger] kept[a]),
            forall|a: int|
                0 <= a < all.len() ==> (#[trigger] all[a]).1 < n && cand(
                    perm@[all[a].1 as int] as int,
                ) is Some,
            idx@.len() == t,
            val@.len() == t,
            forall|a: int|
                0 <= a < t ==> #[trigger] idx@[a] == perm@[kept[a].1 as int] && kept[a].1 < n,
            forall|a: int|
                0 <= a < t ==> cand(perm@[kept[a].1 as int] as int) == Some(#[trigger] val@[a]),
        decreases sel.len() - t,
    {
        let k: usize = sel[t].1;
        proof {
            assert(all.contains(kept[t as int]));
            let x = choose|x: int| 0 <= x < all.len() && all[x] == kept[t as int];
            assert(all[x].1 < n && cand(perm@[all[x].1 as int] as int) is Some);
            assert(perm@[k as int] < n);
        }
        let c: usize = perm[k];
        if let Some(x) = &w[c] {
            idx.push(c);
            val.push(x.copy());
        }
        t += 1;
    }
    let r: SparseRow<T> = SparseRow { idx, val };
    proof {
        assert forall|a: int| 0 <= a < r.idx@.len() implies (#[trigger] r.idx@[a]) < n
            && perm_inv@[r.idx@[a] as int] == kept[a].1 && on_side(
            perm_inv@,
            i as int,
            lower,
            r.idx@[a] as int,
        ) by {
            assert(perm@[kept[a].1 as int] < n && perm_inv@[perm@[kept[a].1 as int] as int]
                == kept[a].1);
            assert(cand(perm@[kept[a].1 as int] as int) == Some(val@[a]));
        }
        assert forall|a: int, b: int|
            0 <= a < b < r.idx@.len() implies perm_inv@[(#[trigger] r.idx@[a]) as int] < perm_inv@[(
        #[trigger] r.idx@[b]) as int] by {
            assert(kept[a].1 <= kept[b].1);
            assert(kept[a].1 != kept[b].1);
        }
        assert forall|a: int, b: int|
            0 <= a < r.idx@.len() && 0 <= b < r.idx@.len() && a != b implies r.idx@[a]
            != r.idx@[b] by {
            if a < b {
                assert(perm_inv@[r.idx@[a] as int] < perm_inv@[r.idx@[b] as int]);
            } else {
                assert(perm_inv@[r.idx@[b] as int] < perm_inv@[r.idx@[a] as int]);
            }
        }
        assert(r.wf(n));
        lemma_map_len(r, n);
        lemma_side_kept(r, all, kept, dropped, lab, cand, used@, perm@, perm_inv@, p as nat, n);
    }
    r
}

/// What was selected is the largest, and the first among equals.
proof fn lemma_side_kept<T: Scalar>(
    r: SparseRow<T>,
    all: Seq<(T::Real, usize)>,
    kept: Seq<(T::Real, usize)>,
    dropped: Seq<(T::Real, usize)>,
    lab: Seq<(T::Real, usize)>,
    cand: spec_fn(int) -> Option<T>,
    order: Seq<usize>,
    perm: Seq<usize>,
    inv: Seq<usize>,
    p: nat,
    n: int,
)
    requires
        r.wf(n),
        r.map().dom().finite(),
        r.map().dom().len() == r.idx@.len(),
        n <= usize::MAX,
        inverse_perms(perm, inv, n),
        lab == ranked(cand, order),
        all.len() == lab.len(),
        forall|a: int|
            0 <= a < all.len() ==> (#[trigger] all[a]).1 < n && perm[all[a].1 as int] == lab[a].1
                && cand(perm[all[a].1 as int] as int) is Some && all[a].0 == mag_or_null(
                cand(perm[all[a].1 as int] as int),
            ),
        forall|a: int| 0 <= a < lab.len() ==> order.contains((#[trigger] lab[a]).1),
        forall|a: int|
            0 <= a < lab.len() ==> #[trigger] all[a] == (lab[a].0, inv[lab[a].1 as int]),
        forall|c: usize| #[trigger] order.contains(c) ==> c < n,
        forall|c: int| 0 <= c < n && #[trigger] cand(c) is Some ==> order.contains(c as usize),
        top_split(all, kept, dropped),
        kept.len() == if all.len() > p {
            p
        } else {
            all.len()
        },
        forall|a: int| 0 <= a < kept.len() ==> all.contains(#[trigger] kept[a]),
        forall|e: (T::Real, usize)| #[trigger] kept.contains(e) <==> top(all, p).contains(e),
        r.idx@.len() == kept.len(),
        forall|a: int|
            0 <= a < kept.len() ==> #[trigger] r.idx@[a] == perm[kept[a].1 as int] && kept[a].1 < n,
        forall|a: int|
            0 <= a < kept.len() ==> cand(perm[kept[a].1 as int] as int) == Some(
                #[trigger] r.val@[a],
            ),
    ensures
        keeps_largest(cand, r.map(), p, n),
        keeps_first(cand, order, r.map(), p),
{
    let row = r.map();
    lemma_ranked(cand, order);
    assert forall|c: int| #[trigger] row.dom().contains(c) implies 0 <= c < n && cand(c) == Some(
        row[c],
    ) by {
        let z = slot(r.idx@, c);
        assert(listed(r.idx@, c));
        assert(0 <= z < r.idx@.len() && r.idx@[z] == c);
        assert(cand(perm[kept[z].1 as int] as int) == Some(r.val@[z]));
    }
    assert forall|c: int| 0 <= c < n && #[trigger] cand(c) is Some && !row.dom().contains(
        c,
    ) implies exists|b: int|
        0 <= b < dropped.len() && (#[trigger] dropped[b]).1 == inv[c] && dropped[b].0 == mag_or_null(
            cand(c),
        ) by {
        let label = c as usize;
        assert(order.contains(label) && cand(label as int) is Some);
        assert(named(lab, label as int));
        let a = choose|a: int| 0 <= a < lab.len() && (#[trigger] lab[a]).1 == c;
        assert(all[a] == (lab[a].0, inv[lab[a].1 as int]));
        assert(perm[all[a].1 as int] == lab[a].1);
        assert(all.contains(all[a]));
        lemma_top_member(all, kept, dropped, all[a]);
        if kept.contains(all[a]) {
            let x = choose|x: int| 0 <= x < kept.len() && kept[x] == all[a];
            assert(r.idx@[x] == perm[kept[x].1 as int]);
            assert(r.idx@[x] == c);
            assert(listed(r.idx@, c));
        }
        let b = choose|b: int| 0 <= b < dropped.len() && dropped[b] == all[a];
        assert(dropped[b].1 == inv[c]);
    }
    if exists|c: int| 0 <= c < n && #[trigger] cand(c) is Some && !row.dom().contains(c) {
        let c = choose|c: int| 0 <= c < n && #[trigger] cand(c) is Some && !row.dom().contains(c);
        let b = choose|b: int|
            0 <= b < dropped.len() && (#[trigger] dropped[b]).1 == inv[c] && dropped[b].0
                == mag_or_null(cand(c));
        lemma_top_member(all, kept, dropped, dropped[b]);
        assert(row.dom().len() == p);
    }
    assert forall|x: int, y: int| #[trigger]
        row.dom().contains(x) && 0 <= y < n && #[trigger] cand(y) is Some && !row.dom().contains(
            y,
        ) implies !row[x].magnitude().below(mag_or_null(cand(y))) by {
        let z = slot(r.idx@, x);
        assert(listed(r.idx@, x));
        assert(0 <= z < r.idx@.len() && r.idx@[z] == x);
        let b = choose|b: int|
            0 <= b < dropped.len() && (#[trigger] dropped[b]).1 == inv[y] && dropped[b].0
                == mag_or_null(cand(y));
        let e = choose|e: int| 0 <= e < all.len() && all[e] == kept[z];
        assert(all[e].0 == mag_or_null(cand(perm[all[e].1 as int] as int)));
        assert(cand(perm[kept[z].1 as int] as int) == Some(r.val@[z]));
        assert(!kept[z].0.below(dropped[b].0));
    }
    let place = |c: usize| inv[c as int];
    lemma_top_renamed(lab, all, place, p);
    let tl = top(lab, p);
    let ta = top(all, p);
    assert forall|c: int| #[trigger] row.dom().contains(c) <==> named(tl, c) by {
        if row.dom().contains(c) {
            let z = slot(r.idx@, c);
            assert(listed(r.idx@, c));
            assert(0 <= z < r.idx@.len() && r.idx@[z] == c);
            assert(kept.contains(kept[z]));
            assert(ta.contains(kept[z]));
            let t = choose|t: int| 0 <= t < ta.len() && ta[t] == kept[z];
            assert(ta[t] == (tl[t].0, place(tl[t].1)));
            lemma_top_from(lab, p, t);
            let k = choose|k: int| 0 <= k < lab.len() && lab[k] == tl[t];
            assert(order.contains(lab[k].1));
            assert(tl[t].1 < n);
            assert(inv[tl[t].1 as int] < n && perm[inv[tl[t].1 as int] as int] == tl[t].1);
            assert(tl[t].1 == c);
        }
        if named(tl, c) {
            let t = choose|t: int| 0 <= t < tl.len() && (#[trigger] tl[t]).1 == c;
            assert(ta[t] == (tl[t].0, place(tl[t].1)));
            assert(ta.contains(ta[t]));
            assert(kept.contains(ta[t]));
            let z = choose|z: int| 0 <= z < kept.len() && kept[z] == ta[t];
            lemma_top_from(lab, p, t);
            let k = choose|k: int| 0 <= k < lab.len() && lab[k] == tl[t];
            assert(order.contains(lab[k].1));
            assert(inv[tl[t].1 as int] < n && perm[inv[tl[t].1 as int] as int] == tl[t].1);
            assert(r.idx@[z] == perm[kept[z].1 as int]);
            assert(r.idx@[z] == c);
            assert(listed(r.idx@, c));
        }
    }
}

/// Candidates that agree on the labels of the scan are ranked the same.
pub proof fn lemma_ranked_agree<T: Scalar>(
    c1: spec_fn(int) -> Option<T>,
    c2: spec_fn(int) -> Option<T>,
    order: Seq<usize>,
)
    requires
        forall|t: int| 0 <= t < order.len() ==> c1((#[trigger] order[t]) as int) == c2(
            order[t] as int,
        ),
    ensures
        ranked(c1, order) == ranked(c2, order),
    decreases order.len(),
{
    if order.len() > 0 {
        let o1 = order.drop_last();
        assert forall|t: int| 0 <= t < o1.len() implies c1((#[trigger] o1[t]) as int) == c2(
            o1[t] as int,
        ) by {
            assert(o1[t] == order[t]);
        }
        lemma_ranked_agree(c1, c2, o1);
        assert(order[order.len() - 1] == order.last());
    }
}

/// Where the labels of a row ascend by position, they are the placed ones.
proof fn lemma_placed(
    idx: Seq<usize>,
    order: Seq<usize>,
    inv: Seq<usize>,
    n: int,
    p: Seq<usize>,
)
    requires
        inverse_perms(order, inv, n),
        forall|t: int| 0 <= t < idx.len() ==> (#[trigger] idx[t]) < n,
        forall|t: int| 0 <= t < p.len() ==> (#[trigger] p[t]) < n,
        forall|a: int, b: int|
            0 <= a < b < idx.len() ==> inv[(#[trigger] idx[a]) as int] < inv[(
            #[trigger] idx[b]) as int],
        forall|a: int, b: int|
            0 <= a < b < p.len() ==> inv[(#[trigger] p[a]) as int] < inv[(#[trigger] p[b]) as int],
        forall|c: int| #[trigger] listed(idx, c) <==> listed(p, c),
    ensures
        idx == p,
{
    let v = Seq::new(idx.len(), |t: int| inv[idx[t] as int]);
    let w = Seq::new(p.len(), |t: int| inv[p[t] as int]);
    assert forall|c: usize| #[trigger] v.contains(c) <==> w.contains(c) by {
        if v.contains(c) {
            let t = choose|t: int| 0 <= t < v.len() && v[t] == c;
            assert(listed(idx, idx[t] as int));
            let z = choose|z: int| 0 <= z < p.len() && #[trigger] p[z] == idx[t] as int;
            assert(w[z] == c);
        }
        if w.contains(c) {
            let t = choose|t: int| 0 <= t < w.len() && w[t] == c;
            assert(listed(p, p[t] as int));
            assert(listed(idx, p[t] as int));
            let z = choose|z: int| 0 <= z < idx.len() && #[trigger] idx[z] == p[t] as int;
            assert(v[z] == c);
        }
    }
    assert(ascending(v)) by {
        assert forall|x: int, y: int| 0 <= x < y < v.len() implies #[trigger] v[x] < #[trigger] v[y] by {
            assert(inv[idx[x] as int] < inv[idx[y] as int]);
        }
    }
    assert(ascending(w)) by {
        assert forall|x: int, y: int| 0 <= x < y < w.len() implies #[trigger] w[x] < #[trigger] w[y] by {
            assert(inv[p[x] as int] < inv[p[y] as int]);
        }
    }
    lemma_ascending_unique(v, w);
    assert forall|t: int| 0 <= t < idx.len() implies #[trigger] idx[t] == p[t] by {
        assert(v[t] == w[t]);
        assert(idx[t] < n && p[t] < n);
        assert(order[inv[idx[t] as int] as int] == idx[t]);
        assert(order[inv[p[t] as int] as int] == p[t]);
    }
    assert(idx =~= p);
}

/// The placed labels ascend by position and are those that the row has there.
proof fn lemma_placed_labels<T>(
    row: Map<int, T>,
    order: Seq<usize>,
    inv: Seq<usize>,
    n: int,
    m: int,
    pos: int,
)
    requires
        inverse_perms(order, inv, n),
        0 <= m,
        pos <= n,
    ensures
        forall|t: int|
            0 <= t < placed_labels(row, order, m, pos).len() ==> (#[trigger] placed_labels(
                row,
                order,
                m,
                pos,
            )[t]) < n && m < inv[placed_labels(row, order, m, pos)[t] as int] < pos,
        forall|a: int, b: int|
            0 <= a < b < placed_labels(row, order, m, pos).len() ==> inv[(#[trigger] placed_labels(
                row,
                order,
                m,
                pos,
            )[a]) as int] < inv[(#[trigger] placed_labels(row, order, m, pos)[b]) as int],
        forall|c: int| #[trigger]
            listed(placed_labels(row, order, m, pos), c) <==> 0 <= c < n && m < inv[c] < pos
                && row.dom().contains(c),
    decreases pos,
{
    let l = placed_labels(row, order, m, pos);
    if pos <= m + 1 || pos <= 0 {
        assert forall|c: int| #[trigger] listed(l, c) <==> 0 <= c < n && m < inv[c] < pos
            && row.dom().contains(c) by {
            if listed(l, c) {
                let t = choose|t: int| 0 <= t < l.len() && #[trigger] l[t] == c;
            }
        }
    } else {
        lemma_placed_labels(row, order, inv, n, m, pos - 1);
        let l1 = placed_labels(row, order, m, pos - 1);
        let c0 = order[pos - 1];
        assert(order[pos - 1] < n && inv[order[pos - 1] as int] == pos - 1);
        assert forall|t: int| 0 <= t < l.len() implies (#[trigger] l[t]) < n && m
            < inv[l[t] as int] < pos by {
            if t < l1.len() {
                assert(l[t] == l1[t]);
            }
        }
        assert forall|a: int, b: int| 0 <= a < b < l.len() implies inv[(#[trigger] l[a]) as int]
            < inv[(#[trigger] l[b]) as int] by {
            assert(l[a] == l1[a]);
            if b < l1.len() {
                assert(l[b] == l1[b]);
            }
        }
        assert forall|c: int| #[trigger] listed(l, c) <==> 0 <= c < n && m < inv[c] < pos
            && row.dom().contains(c) by {
            if listed(l, c) {
                let t = choose|t: int| 0 <= t < l.len() && #[trigger] l[t] == c;
                if t < l1.len() {
                    assert(l1[t] == c);
                    assert(listed(l1, c));
                }
            }
            if 0 <= c < n && m < inv[c] < pos && row.dom().contains(c) {
                if inv[c] == pos - 1 {
                    assert(order[inv[c] as int] == c);
                    assert(l[l.len() - 1] == c);
                } else {
                    assert(listed(l1, c));
                    let t = choose|t: int| 0 <= t < l1.len() && #[trigger] l1[t] == c;
                    assert(l[t] == c);
                }
            }
        }
    }
}

/// Puts the pivot in front of a row.
fn with_pivot<T: Scalar>(q: usize, pivot: T, off: &SparseRow<T>, Ghost(n): Ghost<int>) -> (r:
    SparseRow<T>)
    requires
        off.wf(n),
        q < n,
        !off.map().dom().contains(q as int),
    ensures
        r.wf(n),
        r.idx@ == seq![q] + off.idx@,
        r.map() == off.map().insert(q as int, pivot),
{
    let mut idx: Vec<usize> = Vec::new();
    let mut val: Vec<T> = Vec::new();
    let ghost pv = pivot;
    idx.push(q);
    val.push(pivot);
    let mut t: usize = 0;
    while t < off.idx.len()
        invariant
            off.wf(n),
            t <= off.idx@.len(),
            idx@ == seq![q] + off.idx@.subrange(0, t as int),
            val@ == seq![pv] + off.val@.subrange(0, t as int),
        decreases off.idx.len() - t,
    {
        idx.push(off.idx[t]);
        val.push(off.val[t].copy());
        proof {
            assert(off.idx@.subrange(0, t + 1) == off.idx@.subrange(0, t as int).push(
                off.idx@[t as int],
            ));
            assert(off.val@.subrange(0, t + 1) == off.val@.subrange(0, t as int).push(
                off.val@[t as int],
            ));
        }
        t += 1;
    }
    assert(off.idx@.subrange(0, t as int) == off.idx@);
    assert(off.val@.subrange(0, t as int) == off.val@);
    let r: SparseRow<T> = SparseRow { idx, val };
    proof {
        assert(r.idx@[0] == q);
        assert forall|z: int| 0 <= z < off.idx@.len() implies r.idx@[z + 1] == #[trigger] off.idx@[z]
            && r.val@[z + 1] == off.val@[z] && off.idx@[z] != q by {
            off.lemma_map_at(n, z);
        }
        assert forall|z: int| 0 <= z < r.idx@.len() implies (#[trigger] r.idx@[z]) < n by {
            if z > 0 {
                assert(r.idx@[z] == off.idx@[z - 1]);
            }
        }
        assert forall|x: int, y: int|
            0 <= x < r.idx@.len() && 0 <= y < r.idx@.len() && x != y implies r.idx@[x]
            != r.idx@[y] by {
            if x > 0 {
                assert(r.idx@[x] == off.idx@[x - 1] && off.idx@[x - 1] != q);
            }
            if y > 0 {
                assert(r.idx@[y] == off.idx@[y - 1] && off.idx@[y - 1] != q);
            }
        }
        assert(r.wf(n));
        assert forall|c: int| #[trigger] r.map().dom().contains(c) <==> off.map().insert(
            q as int,
            pv,
        ).dom().contains(c) by {
            if listed(r.idx@, c) {
                let z = choose|z: int| 0 <= z < r.idx@.len() && #[trigger] r.idx@[z] == c;
                if z > 0 {
                    assert(off.idx@[z - 1] == c);
                    assert(listed(off.idx@, c));
                }
            }
            if listed(off.idx@, c) {
                let z = choose|z: int| 0 <= z < off.idx@.len() && #[trigger] off.idx@[z] == c;
                assert(r.idx@[z + 1] == c);
                assert(listed(r.idx@, c));
            }
            if c == q {
                assert(r.idx@[0] == c);
                assert(listed(r.idx@, c));
            }
        }
        assert forall|c: int| r.map().dom().contains(c) implies #[trigger] r.map()[c]
            == off.map().insert(q as int, pv)[c] by {
            let z = slot(r.idx@, c);
            assert(0 <= z < r.idx@.len() && r.idx@[z] == c);
            r.lemma_map_at(n, z);
            if z > 0 {
                off.lemma_map_at(n, z - 1);
            }
        }
        assert(r.map() =~= off.map().insert(q as int, pv));
    }
    r
}

/// Candidates that agree on the labels of the matrix keep the same entries.
pub proof fn lemma_keeps_agree<T: Scalar>(
    c1: spec_fn(int) -> Option<T>,
    c2: spec_fn(int) -> Option<T>,
    row: Map<int, T>,
    p: nat,
    n: int,
)
    requires
        keeps_largest(c1, row, p, n),
        forall|c: int| 0 <= c < n ==> #[trigger] c2(c) == c1(c),
    ensures
        keeps_largest(c2, row, p, n),
{
    assert forall|c: int| #[trigger] row.dom().contains(c) implies 0 <= c < n && c2(c) == Some(
        row[c],
    ) by {
        assert(c1(c) == Some(row[c]));
        assert(c2(c) == c1(c));
    }
    if exists|c: int| 0 <= c < n && #[trigger] c2(c) is Some && !row.dom().contains(c) {
        let c = choose|c: int| 0 <= c < n && #[trigger] c2(c) is Some && !row.dom().contains(c);
        assert(c1(c) is Some);
    }
    assert forall|x: int, y: int| #[trigger]
        row.dom().contains(x) && 0 <= y < n && #[trigger] c2(y) is Some && !row.dom().contains(
            y,
        ) implies !row[x].magnitude().below(mag_or_null(c2(y))) by {
        assert(c1(y) is Some);
    }
}

/// Exchanging position `i` with a later one (or itself) keeps the permutations
/// inverse and the earlier positions in place.
proof fn lemma_exchange(perm: Seq<usize>, inv: Seq<usize>, n: int, i: int, b: int)
    requires
        inverse_perms(perm, inv, n),
        0 <= i <= b < n,
        n <= usize::MAX,
        perm_before(perm, n, i) == perm,
    ensures
        ({
            let perm2 = perm.update(i, perm[b]).update(b, perm[i]);
            let inv2 = inv.update(perm[b] as int, i as usize).update(perm[i] as int, b as usize);
            &&& inverse_perms(perm2, inv2, n)
            &&& perm_before(perm2, n, i + 1) == perm2
            &&& forall|m: int| 0 <= m < i ==> #[trigger] perm2[m] == perm[m]
            &&& perm2[i] == perm[b]
            &&& forall|c: int| 0 <= c < n && inv[c] < i ==> #[trigger] inv2[c] == inv[c]
            &&& forall|c: int| 0 <= c < n && inv[c] >= i ==> #[trigger] inv2[c] >= i
        }),
{
    let perm2 = perm.update(i, perm[b]).update(b, perm[i]);
    let inv2 = inv.update(perm[b] as int, i as usize).update(perm[i] as int, b as usize);
    assert(perm[i] < n && inv[perm[i] as int] == i);
    assert(perm[b] < n && inv[perm[b] as int] == b);
    assert forall|k: int| 0 <= k < n implies (#[trigger] perm2[k]) < n && inv2[perm2[k] as int]
        == k by {
        assert(perm[k] < n && inv[perm[k] as int] == k);
    }
    assert forall|c: int| 0 <= c < n implies (#[trigger] inv2[c]) < n && perm2[inv2[c] as int]
        == c by {
        assert(inv[c] < n && perm[inv[c] as int] == c);
    }
    lemma_perm_before_prefix(perm, perm2, n, i);
    let p = perm_before(perm2, n, i);
    assert(p == perm);
    let k = p.index_of(perm2[i]);
    assert(perm[b] == perm2[i]);
    assert(perm.contains(perm2[i]));
    assert(0 <= k < n && perm[k] == perm2[i]);
    assert(inv[perm[k] as int] == k);
    assert(k == b);
    assert(perm_before(perm2, n, i + 1) =~= perm2);
}

/// Puts together what was established for row `i`.
proof fn lemma_row_done<T: Scalar>(
    a: CscRef<'_, T>,
    params: IlutpParams<T::Tuning>,
    w: Seq<Option<T>>,
    perm: Seq<usize>,
    u: Seq<Map<int, T>>,
    perm2: Seq<usize>,
    inv2: Seq<usize>,
    u2: Seq<Map<int, T>>,
    l2: Seq<Map<int, T>>,
    off: Map<int, T>,
    order: Seq<usize>,
    p: nat,
    i: int,
)
    requires
        0 <= i < a.pattern.ncols,
        w.len() == a.pattern.ncols,
        inverse_perms(perm2, inv2, a.pattern.ncols as int),
        perm_before(perm, a.pattern.ncols as int, i) == perm,
        p == budget(params, a.pattern.row_idx@.len(), a.pattern.ncols as nat),
        forall|c: int|
            0 <= c < w.len() ==> #[trigger] w[c] == eliminated(a, params, perm, u, i)(c),
        forall|m: int| 0 <= m < i ==> #[trigger] perm[m] == perm2[m],
        forall|m: int| 0 <= m < i ==> #[trigger] u[m] == u2[m],
        pivot_rule(
            eliminated(a, params, perm, u, i),
            pivoting::<T>(params),
            perm,
            a.pattern.ncols as int,
            i,
            perm[i] as int,
            perm2[i] as int,
        ),
        i <= u.len(),
        i < u2.len(),
        order == scanned(a, params, perm, u, i),
        forall|t: int| 0 <= t < order.len() ==> (#[trigger] order[t]) < a.pattern.ncols,
        perm2[i] == pivot_label(
            eliminated(a, params, perm, u, i),
            pivoting::<T>(params),
            order,
            perm,
            a.pattern.ncols as int,
            i,
            perm[i] as int,
        ),
        keeps_first(side_candidates(w, inv2, i, false, threshold(a, params, i)), order, off, p),
        keeps_first(side_candidates(w, inv2, i, true, threshold(a, params, i)), order, l2[i], p),
        T::Real::null().below(value_or_null(w[perm2[i] as int]).magnitude()),
        !off.dom().contains(perm2[i] as int),
        u2[i] == off.insert(perm2[i] as int, value_or_null(w[perm2[i] as int])),
        keeps_largest(
            side_candidates(w, inv2, i, false, threshold(a, params, i)),
            off,
            p,
            a.pattern.ncols as int,
        ),
        keeps_largest(
            side_candidates(w, inv2, i, true, threshold(a, params, i)),
            l2[i],
            p,
            a.pattern.ncols as int,
        ),
    ensures
        row_done(a, params, perm2, u2, l2, i),
{
    let n = a.pattern.ncols as int;
    let tau = threshold(a, params, i);
    let r = eliminated(a, params, perm, u, i);
    let r2 = eliminated(a, params, perm2, u2, i);
    assert forall|c: int| #[trigger] r(c) == r2(c) by {
        lemma_acc_prefix(source_row(a, i), tau, perm, u, perm2, u2, i, c);
    }
    assert(r =~= r2);
    lemma_perm_before_prefix(perm, perm2, n, i);
    let q = perm2[i] as int;
    assert(perm2[i] < n && inv2[perm2[i] as int] == i);
    assert(w[q] == r(q));
    lemma_rule_prefix(r, pivoting::<T>(params), perm, perm2, n, i, perm[i] as int, q);
    assert(u2[i].remove(q) =~= off);
    assert forall|c: int| 0 <= c < n implies #[trigger] upper_candidates(r2, tau, perm2, i, q)(c)
        == side_candidates(w, inv2, i, false, tau)(c) by {
        lemma_open(perm2, inv2, n, i, c);
        assert(w[c] == r(c));
        assert(perm2[inv2[c] as int] == c);
        assert(c != q <==> inv2[c] != i);
    }
    lemma_keeps_agree(
        side_candidates(w, inv2, i, false, tau),
        upper_candidates(r2, tau, perm2, i, q),
        off,
        p,
        n,
    );
    lemma_scanned_prefix(a, params, perm, u, perm2, u2, i);
    lemma_best_prefix(r, order, perm, perm2, n, i, perm[i] as int, order.len() as int);
    lemma_ranked_agree(
        side_candidates(w, inv2, i, false, tau),
        upper_candidates(r2, tau, perm2, i, q),
        order,
    );
    assert forall|c: int| 0 <= c < n implies #[trigger] lower_candidates(r2, perm2, i)(c)
        == side_candidates(w, inv2, i, true, tau)(c) by {
        lemma_open(perm2, inv2, n, i, c);
        assert(w[c] == r(c));
    }
    lemma_keeps_agree(
        side_candidates(w, inv2, i, true, tau),
        lower_candidates(r2, perm2, i),
        l2[i],
        p,
        n,
    );
    lemma_ranked_agree(
        side_candidates(w, inv2, i, true, tau),
        lower_candidates(r2, perm2, i),
        order,
    );
}

/// The rows of both factors, and the permutation, before they are stored by
/// column.
struct Rows<T> {
    perm: Vec<usize>,
    perm_inv: Vec<usize>,
    permuted: bool,
    u: Vec<SparseRow<T>>,
    l: Vec<SparseRow<T>>,
}

/// The multipliers of row `m` sit at positions before `m`.
spec fn lower_rows_ok<T>(rows: Seq<SparseRow<T>>, inv: Seq<usize>, n: int) -> bool {
    forall|m: int|
        0 <= m < rows.len() ==> (#[trigger] rows[m]).wf(n) && forall|t: int|
            0 <= t < rows[m].idx@.len() ==> inv[(#[trigger] rows[m].idx@[t]) as int] < m
}

/// Some column left its place.
pub open spec fn moves(perm: Seq<usize>) -> bool {
    exists|k: int| 0 <= k < perm.len() && #[trigger] perm[k] != k
}

impl<T: Scalar> Rows<T> {
    /// The first `i` rows are done.
    spec fn done(&self, a: CscRef<'_, T>, params: IlutpParams<T::Tuning>, i: int) -> bool {
        let n = a.pattern.ncols as int;
        &&& n < usize::MAX
        &&& self.u@.len() == i
        &&& self.l@.len() == i
        &&& inverse_perms(self.perm@, self.perm_inv@, n)
        &&& perm_before(self.perm@, n, i) == self.perm@
        &&& pivot_rows_ok(self.u@, self.perm@, self.perm_inv@, n)
        &&& lower_rows_ok(self.l@, self.perm_inv@, n)
        &&& rows_done(a, params, self.perm@, row_maps(self.u@), row_maps(self.l@), i)
        &&& forall|m: int|
            0 <= m < i ==> #[trigger] row_tails(self.u@)[m] == tails_of(
                self.perm@,
                row_maps(self.u@),
                n,
            )[m]
        &&& !self.permuted ==> forall|k: int| 0 <= k < n ==> #[trigger] self.perm@[k] == k
        &&& self.permuted ==> exists|k: int| 0 <= k < i && #[trigger] self.perm@[k] != k
    }
}

/// A new row lists its labels in the order of the positions, too.
proof fn lemma_tails_step<T>(
    u0: Seq<SparseRow<T>>,
    u1: Seq<SparseRow<T>>,
    off: SparseRow<T>,
    perm0: Seq<usize>,
    perm2: Seq<usize>,
    inv2: Seq<usize>,
    n: int,
    i: int,
    q: usize,
    pivot: T,
)
    requires
        0 <= i < n,
        u0.len() == i,
        u1.len() == i + 1,
        forall|m: int| 0 <= m < i ==> #[trigger] u1[m] == u0[m],
        u1[i].idx@ == seq![q] + off.idx@,
        u1[i].map() == off.map().insert(q as int, pivot),
        off.wf(n),
        inverse_perms(perm2, inv2, n),
        perm2[i] == q,
        inv2[q as int] == i,
        forall|m: int| 0 <= m < i ==> #[trigger] perm2[m] == perm0[m],
        perm_before(perm2, n, i + 1) == perm2,
        forall|a: int, b: int|
            0 <= a < b < off.idx@.len() ==> inv2[(#[trigger] off.idx@[a]) as int] < inv2[(
            #[trigger] off.idx@[b]) as int],
        forall|t: int|
            0 <= t < off.idx@.len() ==> on_side(inv2, i, false, (#[trigger] off.idx@[t]) as int),
        forall|m: int|
            0 <= m < i ==> #[trigger] row_tails(u0)[m] == tails_of(perm0, row_maps(u0), n)[m],
    ensures
        forall|m: int|
            0 <= m < i + 1 ==> #[trigger] row_tails(u1)[m] == tails_of(perm2, row_maps(u1), n)[m],
{
    assert forall|m: int| 0 <= m < i + 1 implies #[trigger] row_tails(u1)[m] == tails_of(
        perm2,
        row_maps(u1),
        n,
    )[m] by {
        if m < i {
            assert(u1[m] == u0[m]);
            assert(row_tails(u0)[m] == tails_of(perm0, row_maps(u0), n)[m]);
            assert(row_maps(u1)[m] == row_maps(u0)[m]);
            assert forall|k: int| 0 <= k < m + 1 implies #[trigger] perm0[k] == perm2[k] by {
                assert(perm2[k] == perm0[k]);
            }
            lemma_perm_before_prefix(perm0, perm2, n, m + 1);
        } else {
            let row = row_maps(u1)[i];
            let placed = placed_labels(row, perm2, i, n);
            lemma_placed_labels(row, perm2, inv2, n, i, n);
            assert(row_tails(u1)[i] =~= off.idx@);
            assert forall|c: int| #[trigger] listed(off.idx@, c) <==> listed(placed, c) by {
                if listed(off.idx@, c) {
                    let t = choose|t: int| 0 <= t < off.idx@.len() && #[trigger] off.idx@[t] == c;
                    assert(on_side(inv2, i, false, off.idx@[t] as int));
                    assert(off.map().dom().contains(c));
                    assert(off.idx@[t] < n);
                    assert(inv2[c] < n);
                }
                if listed(placed, c) {
                    assert(c != q);
                    assert(off.map().dom().contains(c));
                }
            }
            lemma_placed(off.idx@, perm2, inv2, n, placed);
        }
    }
}

/// Takes the pivot of row `i`, emits its rows, and advances.
fn finish_row<T: Scalar>(
    st: &mut Rows<T>,
    w: &Vec<Option<T>>,
    used: &Vec<usize>,
    q: usize,
    pivot: T,
    tau: &T::Real,
    p: usize,
    Ghost(a): Ghost<CscRef<'_, T>>,
    Ghost(params): Ghost<IlutpParams<T::Tuning>>,
)
    requires
        old(st).u@.len() < a.pattern.ncols,
        old(st).done(a, params, old(st).u@.len() as int),
        w@.len() == a.pattern.ncols,
        used@.no_duplicates(),
        forall|c: usize| #[trigger] used@.contains(c) ==> c < w@.len(),
        forall|c: int| 0 <= c < w@.len() && #[trigger] w@[c] is Some ==> used@.contains(c as usize),
        p == budget(params, a.pattern.row_idx@.len(), a.pattern.ncols as nat),
        *tau == threshold(a, params, old(st).u@.len() as int),
        forall|c: int|
            0 <= c < w@.len() ==> #[trigger] w@[c] == eliminated(
                a,
                params,
                old(st).perm@,
                row_maps(old(st).u@),
                old(st).u@.len() as int,
            )(c),
        q < w@.len(),
        old(st).perm_inv@[q as int] >= old(st).u@.len(),
        pivot_rule(
            eliminated(
                a,
                params,
                old(st).perm@,
                row_maps(old(st).u@),
                old(st).u@.len() as int,
            ),
            pivoting::<T>(params),
            old(st).perm@,
            a.pattern.ncols as int,
            old(st).u@.len() as int,
            old(st).perm@[old(st).u@.len() as int] as int,
            q as int,
        ),
        used@ == scanned(
            a,
            params,
            old(st).perm@,
            row_maps(old(st).u@),
            old(st).u@.len() as int,
        ),
        q == pivot_label(
            eliminated(
                a,
                params,
                old(st).perm@,
                row_maps(old(st).u@),
                old(st).u@.len() as int,
            ),
            pivoting::<T>(params),
            used@,
            old(st).perm@,
            a.pattern.ncols as int,
            old(st).u@.len() as int,
            old(st).perm@[old(st).u@.len() as int] as int,
        ),
        pivot == value_or_null(w@[q as int]),
        T::Real::null().below(pivot.magnitude()),
    ensures
        final(st).done(a, params, (old(st).u@.len() + 1) as int),
{
    let i: usize = st.u.len();
    let wlen: usize = w.len();
    let ghost n = wlen as int;
    let ghost ii = i as int;
    let ghost perm0 = st.perm@;
    let ghost inv0 = st.perm_inv@;
    let ghost u0 = st.u@;
    let ghost l0 = st.l@;
    let ghost permuted0 = st.permuted;
    let b: usize = st.perm_inv[q];
    proof {
        assert(perm0[inv0[q as int] as int] == q);
        lemma_exchange(perm0, inv0, n, ii, b as int);
    }
    let oi: usize = st.perm[i];
    proof {
        assert(perm0[ii] < n && inv0[perm0[ii] as int] == ii);
    }
    if b != i {
        st.permuted = true;
    }
    st.perm.set(i, q);
    st.perm.set(b, oi);
    st.perm_inv.set(q, i);
    st.perm_inv.set(oi, b);
    let ghost perm2 = st.perm@;
    let ghost inv2 = st.perm_inv@;
    assert(perm2 =~= perm0.update(ii, perm0[b as int]).update(b as int, perm0[ii]));
    assert(inv2 =~= inv0.update(perm0[b as int] as int, i).update(perm0[ii] as int, b));
    assert(perm2[ii] == q && inv2[perm2[ii] as int] == ii);
    let off: SparseRow<T> = select_side(
        w,
        used,
        &st.perm,
        &st.perm_inv,
        i,
        false,
        tau,
        p,
    );
    let lo: SparseRow<T> = select_side(
        w,
        used,
        &st.perm,
        &st.perm_inv,
        i,
        true,
        tau,
        p,
    );
    proof {
        if off.map().dom().contains(q as int) {
            assert(listed(off.idx@, q as int));
            let t = choose|t: int| 0 <= t < off.idx@.len() && #[trigger] off.idx@[t] == q as int;
            assert(on_side(inv2, ii, false, off.idx@[t] as int));
        }
    }
    let ghost pv = pivot;
    let urow: SparseRow<T> = with_pivot(q, pivot, &off, Ghost(n));
    let ghost urow0 = urow;
    let ghost lo0 = lo;
    st.u.push(urow);
    st.l.push(lo);
    proof {
        let um = row_maps(st.u@);
        let lm = row_maps(st.l@);
        assert(um[ii] == urow0.map());
        assert(lm[ii] == lo0.map());
        assert forall|m: int| 0 <= m < ii implies #[trigger] um[m] == row_maps(u0)[m] by {
            assert(st.u@[m] == u0[m]);
        }
        assert forall|m: int| 0 <= m < ii implies #[trigger] lm[m] == row_maps(l0)[m] by {
            assert(st.l@[m] == l0[m]);
        }
        assert forall|t: int| 0 <= t < used@.len() implies (#[trigger] used@[t]) < n by {
            assert(used@.contains(used@[t]));
        }
        lemma_row_done(
            a,
            params,
            w@,
            perm0,
            row_maps(u0),
            perm2,
            inv2,
            um,
            lm,
            off.map(),
            used@,
            p as nat,
            ii,
        );
        assert forall|m: int| 0 <= m < ii + 1 implies #[trigger] row_done(
            a,
            params,
            perm2,
            um,
            lm,
            m,
        ) by {
            if m < ii {
                assert(row_done(a, params, perm0, row_maps(u0), row_maps(l0), m));
                assert forall|k: int| 0 <= k <= m implies #[trigger] perm0[k] == perm2[k] by {
                    assert(perm2[k] == perm0[k]);
                }
                assert forall|k: int| 0 <= k <= m implies #[trigger] row_maps(u0)[k] == um[k] by {
                    assert(um[k] == row_maps(u0)[k]);
                }
                lemma_row_done_prefix(
                    a,
                    params,
                    perm0,
                    row_maps(u0),
                    row_maps(l0),
                    perm2,
                    um,
                    lm,
                    m,
                );
            }
        }
        assert forall|m: int| 0 <= m < st.u@.len() implies {
            &&& (#[trigger] st.u@[m]).wf(n)
            &&& st.u@[m].idx@.len() > 0
            &&& st.u@[m].idx@[0] == perm2[m]
            &&& forall|t: int|
                0 < t < st.u@[m].idx@.len() ==> inv2[(#[trigger] st.u@[m].idx@[t]) as int] > m
        } by {
            if m < ii {
                assert(st.u@[m] == u0[m]);
                assert(perm2[m] == perm0[m]);
                assert forall|t: int| 0 < t < st.u@[m].idx@.len() implies inv2[(
                #[trigger] st.u@[m].idx@[t]) as int] > m by {
                    let c = st.u@[m].idx@[t] as int;
                    assert(inv0[u0[m].idx@[t] as int] > m);
                    assert(inv2[c] > m);
                }
            } else {
                assert forall|t: int| 0 < t < urow0.idx@.len() implies inv2[(
                #[trigger] urow0.idx@[t]) as int] > m by {
                    assert(urow0.idx@[t] == off.idx@[t - 1]);
                    assert(on_side(inv2, ii, false, off.idx@[t - 1] as int));
                }
            }
        }
        assert forall|m: int| 0 <= m < st.l@.len() implies (#[trigger] st.l@[m]).wf(n) && forall|t: int|
            0 <= t < st.l@[m].idx@.len() ==> inv2[(#[trigger] st.l@[m].idx@[t]) as int] < m by {
            if m < ii {
                assert(st.l@[m] == l0[m]);
                assert forall|t: int| 0 <= t < st.l@[m].idx@.len() implies inv2[(
                #[trigger] st.l@[m].idx@[t]) as int] < m by {
                    let c = st.l@[m].idx@[t] as int;
                    assert(inv0[l0[m].idx@[t] as int] < m);
                    assert(inv2[c] == inv0[c]);
                }
            } else {
                assert forall|t: int| 0 <= t < lo0.idx@.len() implies inv2[(
                #[trigger] lo0.idx@[t]) as int] < m by {
                    assert(on_side(inv2, ii, true, lo0.idx@[t] as int));
                }
            }
        }
        lemma_tails_step(u0, st.u@, off, perm0, perm2, inv2, n, ii, q, pv);
        if st.permuted {
            if permuted0 {
                let k = choose|k: int| 0 <= k < ii && #[trigger] perm0[k] != k;
                assert(perm2[k] == perm0[k]);
            } else {
                assert(perm0[b as int] == b);
                assert(perm2[ii] != ii);
            }
        }
        assert(inverse_perms(perm2, inv2, n));
        assert(perm_before(perm2, n, ii + 1) == perm2);
        assert(pivot_rows_ok(st.u@, perm2, inv2, n));
        assert(lower_rows_ok(st.l@, inv2, n));
        assert(rows_done(a, params, perm2, um, lm, ii + 1));
        assert(forall|m: int|
            0 <= m < ii + 1 ==> #[trigger] row_tails(st.u@)[m] == tails_of(perm2, um, n)[m]);
        assert(!st.permuted ==> forall|k: int| 0 <= k < n ==> #[trigger] perm2[k] == k);
        assert(st.permuted ==> exists|k: int| 0 <= k < ii + 1 && #[trigger] perm2[k] != k);
        assert(st.u@.len() == ii + 1);
        assert(st.l@.len() == ii + 1);
        assert(st.perm@ == perm2);
        assert(st.perm_inv@ == inv2);
        assert(st.done(a, params, ii + 1));
    }
}

/// Rows that a zero pivot stopped.
proof fn lemma_stuck<T: Scalar>(
    a: CscRef<'_, T>,
    params: IlutpParams<T::Tuning>,
    rows: Rows<T>,
    i: int,
)
    requires
        i < a.pattern.ncols,
        rows.done(a, params, i),
        row_stuck(a, params, rows.perm@, row_maps(rows.u@), i),
    ensures
        stuck_with(a, params, rows.perm@, i),
        stuck_at(a, params, i),
        rows.permuted <==> moves(rows.perm@),
{
    assert(rows_done(a, params, rows.perm@, row_maps(rows.u@), row_maps(rows.l@), i));
    assert(stuck_with(a, params, rows.perm@, i));
    if rows.permuted {
        let k = choose|k: int| 0 <= k < i && #[trigger] rows.perm@[k] != k;
        assert(rows.perm@[k] != k);
    }
    if moves(rows.perm@) {
        let k = choose|k: int| 0 <= k < rows.perm@.len() && #[trigger] rows.perm@[k] != k;
        assert(rows.perm@[k] != k);
    }
}

/// Runs the factorisation row by row, and returns the rows with the row that
/// stopped it, if one did.
fn factorize_rows<T: Scalar>(a: CscRef<'_, T>, params: &IlutpParams<T::Tuning>) -> (r: (
    Rows<T>,
    Option<usize>,
))
    requires
        a.wf(),
        a.pattern.distinct(),
        a.pattern.nrows == a.pattern.ncols,
    ensures
        match r.1 {
            None => r.0.done(a, *params, a.pattern.ncols as int),
            Some(row) => row < a.pattern.ncols && r.0.done(a, *params, row as int) && row_stuck(
                a,
                *params,
                r.0.perm@,
                row_maps(r.0.u@),
                row as int,
            ),
        },
{
    let n: usize = a.pattern.ncols;
    let ptr_len: usize = a.pattern.col_ptr.len();
    assert(n < ptr_len);
    let (at, order): (CscPattern, Vec<usize>) = transpose(a.pattern);
    proof {
        lemma_transpose_sorted(*a.pattern, at, order@);
    }
    let p: usize = fill_budget(params, a.pattern.row_idx.len(), n);
    let drop_tol: T::Real = T::from_tuning(&params.drop_tol);
    let tol: Option<T::Real> = if T::Tuning::zero().lt(&params.pivot_tol) {
        Some(T::from_tuning(&params.pivot_tol))
    } else {
        None
    };
    let mut perm: Vec<usize> = Vec::with_capacity(n);
    let mut perm_inv: Vec<usize> = Vec::with_capacity(n);
    let mut w: Vec<Option<T>> = Vec::with_capacity(n);
    let mut k: usize = 0;
    while k < n
        invariant
            k <= n,
            perm@.len() == k,
            perm_inv@.len() == k,
            w@.len() == k,
            forall|j: int| 0 <= j < k ==> #[trigger] perm@[j] == j,
            forall|j: int| 0 <= j < k ==> #[trigger] perm_inv@[j] == j,
            forall|j: int| 0 <= j < k ==> #[trigger] w@[j] is None,
        decreases n - k,
    {
        perm.push(k);
        perm_inv.push(k);
        w.push(None);
        k += 1;
    }
    let mut used: Vec<usize> = Vec::new();
    let mut heap: Vec<usize> = Vec::new();
    let mut st: Rows<T> = Rows { perm, perm_inv, permuted: false, u: Vec::new(), l: Vec::new() };
    assert(perm_before(st.perm@, n as int, 0) =~= st.perm@);
    let mut i: usize = 0;
    while i < n
        invariant
            n == a.pattern.ncols,
            a.wf(),
            a.pattern.distinct(),
            a.pattern.nrows == n,
            is_transpose(*a.pattern, at, order@),
            at.sorted(),
            i <= n,
            p == budget(*params, a.pattern.row_idx@.len(), n as nat),
            drop_tol == T::tuned(params.drop_tol),
            tol == pivoting::<T>(*params),
            st.done(a, *params, i as int),
            w@.len() == n,
            forall|c: int| 0 <= c < n ==> #[trigger] w@[c] is None,
            used@.len() == 0,
            heap@.len() == 0,
        decreases n - i,
    {
        let ghost ii = i as int;
        let norm: T::Real = scatter_row(
            a,
            &at,
            &order,
            params.norm,
            i,
            &mut w,
            &mut used,
            &mut heap,
            &st.perm_inv,
            Ghost(st.perm@),
        );
        let tau: T::Real = drop_tol.mul(&norm);
        eliminate_row(
            &st.u,
            &tau,
            &mut w,
            &mut used,
            &mut heap,
            &st.perm,
            &st.perm_inv,
            Ghost(source_row(a, ii)),
        );
        let ghost r = eliminated(a, *params, st.perm@, row_maps(st.u@), ii);
        proof {
            lemma_scan_prefix(
                source_row(a, ii),
                row_list(a, ii, n as int),
                tau,
                st.perm@,
                row_maps(st.u@),
                row_tails(st.u@),
                st.perm@,
                row_maps(st.u@),
                tails_of(st.perm@, row_maps(st.u@), n as int),
                ii,
            );
        }
        assert forall|c: int| 0 <= c < n implies #[trigger] w@[c] == r(c) by {}
        let q: usize = choose_pivot(
            &w,
            &used,
            &st.perm,
            &st.perm_inv,
            i,
            &tol,
            Ghost(r),
        );
        let pivot: T = match &w[q] {
            Some(x) => x.copy(),
            None => T::zero(),
        };
        assert(pivot == value_or_null(w@[q as int]));
        if !T::Real::zero().lt(&pivot.abs()) {
            proof {
                assert(w@[q as int] == r(q as int));
                assert(row_stuck(a, *params, st.perm@, row_maps(st.u@), ii));
                assert(rows_done(a, *params, st.perm@, row_maps(st.u@), row_maps(st.l@), ii));
            }
            return (st, Some(i));
        }
        finish_row(&mut st, &w, &used, q, pivot, &tau, p, Ghost(a), Ghost(*params));
        let ghost w1 = w@;
        let mut t: usize = 0;
        while t < used.len()
            invariant
                n == w@.len(),
                w1.len() == n,
                t <= used@.len(),
                forall|c: usize| #[trigger] used@.contains(c) ==> c < n,
                forall|z: int| 0 <= z < t ==> w@[(#[trigger] used@[z]) as int] is None,
                forall|c: int| 0 <= c < n ==> #[trigger] w@[c] == w1[c] || w@[c] is None,
            decreases used.len() - t,
        {
            let c: usize = used[t];
            assert(used@.contains(used@[t as int]));
            w.set(c, None);
            proof {
                assert forall|z: int| 0 <= z < t + 1 implies w@[(
                #[trigger] used@[z]) as int] is None by {
                    assert(used@.contains(used@[z]));
                }
            }
            t += 1;
        }
        proof {
            assert forall|c: int| 0 <= c < n implies #[trigger] w@[c] is None by {
                if w@[c] is Some {
                    assert(w1[c] is Some);
                    assert(used@.contains(c as usize));
                    let z = choose|z: int| 0 <= z < used@.len() && used@[z] == c as usize;
                    assert(w@[used@[z] as int] is None);
                }
            }
        }
        used.clear();
        i += 1;
    }
    (st, None)
}

/// Numeric ILUTP factor of a CSC matrix `A`.
///
/// Holds the `L` and `U` factors, the column permutation discovered during
/// pivoting, and the tuning parameters. The fill pattern depends on the values
/// of `A`, so there is no separate symbolic phase.
#[derive(Debug, Clone)]
pub struct Ilutp<T: Scalar> {
    pub n: usize,
    /// `L`'s pattern. The unit diagonal is stored *first* in each column.
    pub l: CscPattern,
    pub l_values: Vec<T>,
    /// `U`'s pattern. The diagonal is stored *last* in each column.
    pub u: CscPattern,
    pub u_values: Vec<T>,
    /// The column permutation, with `(A P)[:, k] = A[:, perm[k]]`.
    pub perm: Vec<usize>,
    pub perm_inv: Vec<usize>,
    pub permuted: bool,
    pub params: IlutpParams<T::Tuning>,
}

impl<T: Scalar> Ilutp<T> {
    /// The `L` factor.
    pub open spec fn l_model(&self) -> CscModel<T> {
        CscModel { pattern: self.l, values: self.l_values@ }
    }

    /// The `U` factor.
    pub open spec fn u_model(&self) -> CscModel<T> {
        CscModel { pattern: self.u, values: self.u_values@ }
    }

    pub open spec fn wf(&self) -> bool {
        &&& lower_ok(self.l, self.n as int)
        &&& upper_ok(self.u, self.n as int)
        &&& self.l_values@.len() == self.l.row_idx@.len()
        &&& self.u_values@.len() == self.u.row_idx@.len()
        &&& self.params.usable()
        &&& inverse_perms(self.perm@, self.perm_inv@, self.n as int)
        &&& self.permuted <==> moves(self.perm@)
        &&& forall|j: int|
            0 <= j < self.n ==> self.l_values@[#[trigger] self.l.start(j)] == T::unit()
    }

    /// The rows of `U`, by label: the entry with label `c` is stored in column
    /// `perm_inv[c]`.
    pub open spec fn u_rows(&self) -> Seq<Map<int, T>> {
        Seq::new(
            self.n as nat,
            |m: int|
                Map::new(
                    |c: int| 0 <= c < self.n && self.u.has(m, self.perm_inv@[c] as int),
                    |c: int| self.u_values@[self.u.find(m, self.perm_inv@[c] as int)],
                ),
        )
    }

    /// The rows of `L` without their unit diagonal, by label.
    pub open spec fn l_rows(&self) -> Seq<Map<int, T>> {
        Seq::new(
            self.n as nat,
            |m: int|
                Map::new(
                    |c: int|
                        0 <= c < self.n && self.perm_inv@[c] != m && self.l.has(
                            m,
                            self.perm_inv@[c] as int,
                        ),
                    |c: int| self.l_values@[self.l.find(m, self.perm_inv@[c] as int)],
                ),
        )
    }

    /// `self` is the threshold factorisation of `a`.
    pub open spec fn factors(&self, a: CscRef<'_, T>) -> bool {
        rows_done(a, self.params, self.perm@, self.u_rows(), self.l_rows(), self.n as int)
    }

    /// Build a fully populated ILUTP factor of `A` with default parameters.
    pub fn try_new(a: CscRef<'_, T>) -> (r: Result<Self, IlutpError>)
        requires
            a.wf(),
            a.pattern.distinct(),
        ensures
            exists|params: IlutpParams<T::Tuning>|
                params.is_default() && #[trigger] built(a, params, r),
    {
        Self::try_new_with_params(a, IlutpParams::default())
    }

    /// Build a fully populated ILUTP factor of `A` with the given parameters.
    ///
    /// Out-of-range parameters come first, then a matrix that is not square,
    /// then a row that reduces to a zero pivot even after pivoting.
    pub fn try_new_with_params(a: CscRef<'_, T>, params: IlutpParams<T::Tuning>) -> (r: Result<
        Self,
        IlutpError,
    >)
        requires
            a.wf(),
            a.pattern.distinct(),
        ensures
            built(a, params, r),
    {
        match params.validate() {
            Ok(()) => {},
            Err(e) => {
                return Err(e);
            },
        }
        if a.pattern.nrows != a.pattern.ncols {
            return Err(
                IlutpError::NonSquareMatrix { nrows: a.pattern.nrows, ncols: a.pattern.ncols },
            );
        }
        let (rows, stopped): (Rows<T>, Option<usize>) = factorize_rows(a, &params);
        match stopped {
            None => Ok(Self::assemble_csc(rows, params, Ghost(a))),
            Some(row) => {
                proof {
                    lemma_stuck(a, params, rows, row as int);
                }
                Err(IlutpError::ZeroPivot { row })
            },
        }
    }

    /// Refactorise against a new matrix of the same dimension, with the same
    /// parameters.
    ///
    /// A matrix of another dimension leaves the factor as it was. A zero pivot
    /// leaves `L` and `U` as they were, but the permutation is then the one that
    /// had been reached: the factor is to be refactorised before it is applied
    /// again.
    pub fn refactorize(&mut self, a: CscRef<'_, T>) -> (r: Result<(), IlutpError>)
        requires
            old(self).wf(),
            a.wf(),
            a.pattern.distinct(),
        ensures
            refactorized(*old(self), a, *final(self), r),
    {
        if a.pattern.nrows != self.n || a.pattern.ncols != self.n {
            return Err(
                IlutpError::NonSquareMatrix { nrows: a.pattern.nrows, ncols: a.pattern.ncols },
            );
        }
        let (rows, stopped): (Rows<T>, Option<usize>) = factorize_rows(a, &self.params);
        match stopped {
            None => {
                let (l, l_values, u, u_values): (CscPattern, Vec<T>, CscPattern, Vec<T>) =
                    store_rows(&rows, Ghost(a), Ghost(self.params));
                self.l = l;
                self.l_values = l_values;
                self.u = u;
                self.u_values = u_values;
                self.perm = rows.perm;
                self.perm_inv = rows.perm_inv;
                self.permuted = rows.permuted;
                proof {
                    lemma_stored_rows(*self, rows, a);
                }
                Ok(())
            },
            Some(row) => {
                proof {
                    lemma_stuck(a, self.params, rows, row as int);
                }
                self.perm = rows.perm;
                self.perm_inv = rows.perm_inv;
                self.permuted = rows.permuted;
                Err(IlutpError::ZeroPivot { row })
            },
        }
    }

    /// Stores the rows by column: `L` with its unit diagonal first, `U` with its
    /// diagonal last.
    fn assemble_csc(
        rows: Rows<T>,
        params: IlutpParams<T::Tuning>,
        Ghost(a): Ghost<CscRef<'_, T>>,
    ) -> (r: Self)
        requires
            rows.done(a, params, a.pattern.ncols as int),
            params.usable(),
        ensures
            r.wf(),
            r.n == a.pattern.ncols,
            r.params == params,
            r.factors(a),
    {
        let ghost rows0 = rows;
        let (l, l_values, u, u_values): (CscPattern, Vec<T>, CscPattern, Vec<T>) = store_rows(
            &rows,
            Ghost(a),
            Ghost(params),
        );
        let n: usize = rows.perm.len();
        let r: Ilutp<T> = Ilutp {
            n,
            l,
            l_values,
            u,
            u_values,
            perm: rows.perm,
            perm_inv: rows.perm_inv,
            permuted: rows.permuted,
            params,
        };
        proof {
            lemma_stored_rows(r, rows0, a);
        }
        r
    }

    /// Dimension `n` of the factored matrix.
    pub fn dim(&self) -> (r: usize)
        ensures
            r == self.n,
    {
        self.n
    }

    /// The tuning parameters this factor was built with.
    pub fn params(&self) -> (r: &IlutpParams<T::Tuning>)
        ensures
            *r == self.params,
    {
        &self.params
    }

    /// The column permutation `perm`, where `(A P)[:, k] = A[:, perm[k]]`.
    pub fn perm(&self) -> (r: &[usize])
        ensures
            r@ == self.perm@,
    {
        self.perm.as_slice()
    }

    /// The inverse column permutation: `perm_inv[perm[k]] == k`.
    pub fn perm_inv(&self) -> (r: &[usize])
        ensures
            r@ == self.perm_inv@,
    {
        self.perm_inv.as_slice()
    }

    /// Whether pivoting actually permuted any columns.
    pub fn is_permuted(&self) -> (r: bool)
        ensures
            r == self.permuted,
    {
        self.permuted
    }

    /// View over the `L` factor (unit lower triangular, diagonal stored first
    /// in each column with value one).
    pub fn l_view(&self) -> (r: CscRef<'_, T>)
        ensures
            r@ == self.l_model(),
            self.wf() ==> r.wf(),
    {
        CscRef { pattern: &self.l, values: self.l_values.as_slice() }
    }

    /// View over the `U` factor (upper triangular, diagonal stored last in each
    /// column).
    pub fn u_view(&self) -> (r: CscRef<'_, T>)
        ensures
            r@ == self.u_model(),
            self.wf() ==> r.wf(),
    {
        CscRef { pattern: &self.u, values: self.u_values.as_slice() }
    }
}

/// What building a factor of `a` with `params` comes to.
pub open spec fn built<T: Scalar>(
    a: CscRef<'_, T>,
    params: IlutpParams<T::Tuning>,
    r: Result<Ilutp<T>, IlutpError>,
) -> bool {
    if !params.drop_tol_ok() {
        r matches Err(e) && e == IlutpError::InvalidDropTol
    } else if !params.pivot_tol_ok() {
        r matches Err(e) && e == IlutpError::InvalidPivotTol
    } else if !params.fill_ok() {
        r matches Err(e) && e == IlutpError::InvalidFillControl
    } else if a.pattern.nrows != a.pattern.ncols {
        r matches Err(e) && e == (IlutpError::NonSquareMatrix {
            nrows: a.pattern.nrows,
            ncols: a.pattern.ncols,
        })
    } else {
        match r {
            Ok(f) => f.wf() && f.n == a.pattern.ncols && f.params == params && f.factors(a),
            Err(e) => e matches IlutpError::ZeroPivot { row } && row < a.pattern.ncols && stuck_at(
                a,
                params,
                row as int,
            ),
        }
    }
}

/// What refactorising `before` against `a` comes to: a factor of `a` with the same
/// parameters, or an error. A zero pivot leaves `L` and `U` as they were, and the
/// permutation as the rows before it have made it.
pub open spec fn refactorized<T: Scalar>(
    before: Ilutp<T>,
    a: CscRef<'_, T>,
    after: Ilutp<T>,
    r: Result<(), IlutpError>,
) -> bool {
    &&& after.wf()
    &&& after.n == before.n
    &&& after.params == before.params
    &&& if a.pattern.nrows != before.n || a.pattern.ncols != before.n {
        &&& r == Err::<(), IlutpError>(
            IlutpError::NonSquareMatrix { nrows: a.pattern.nrows, ncols: a.pattern.ncols },
        )
        &&& after == before
    } else {
        match r {
            Ok(_) => after.factors(a),
            Err(e) => {
                &&& e matches IlutpError::ZeroPivot { row }
                &&& row < before.n
                &&& stuck_with(a, before.params, after.perm@, row as int)
                &&& after.perm@ == perm_before(after.perm@, after.n as int, row as int)
                &&& after.l == before.l
                &&& after.l_values == before.l_values
                &&& after.u == before.u
                &&& after.u_values == before.u_values
            },
        }
    }
}

/// Stores both factors by column.
fn store_rows<T: Scalar>(
    rows: &Rows<T>,
    Ghost(a): Ghost<CscRef<'_, T>>,
    Ghost(params): Ghost<IlutpParams<T::Tuning>>,
) -> (r: (CscPattern, Vec<T>, CscPattern, Vec<T>))
    requires
        rows.done(a, params, a.pattern.ncols as int),
    ensures
        stored_columns(rows.l@, rows.perm_inv@, r.0, r.1@, true),
        stored_columns(rows.u@, rows.perm_inv@, r.2, r.3@, false),
{
    let n: usize = rows.perm.len();
    let ulen: usize = rows.u.len();
    assert(n == ulen);
    proof {
        assert forall|m: int| 0 <= m < rows.u@.len() implies (#[trigger] rows.u@[m]).wf(n as int) by {}
        assert forall|m: int| 0 <= m < rows.l@.len() implies (#[trigger] rows.l@[m]).wf(n as int) by {}
        assert forall|m: int, t: int|
            0 <= m < rows.l@.len() && 0 <= t < rows.l@[m].idx@.len() implies rows.perm_inv@[(
        #[trigger] rows.l@[m].idx@[t]) as int] != m by {
            assert(rows.l@[m].wf(n as int));
        }
    }
    let (l, l_values): (CscPattern, Vec<T>) = rows_to_columns(
        &rows.l,
        &rows.perm,
        &rows.perm_inv,
        true,
    );
    let (u, u_values): (CscPattern, Vec<T>) = rows_to_columns(
        &rows.u,
        &rows.perm,
        &rows.perm_inv,
        false,
    );
    (l, l_values, u, u_values)
}

/// `p` and `vals` hold the rows `side` of one factor.
spec fn stored_columns<T: Scalar>(
    side: Seq<SparseRow<T>>,
    inv: Seq<usize>,
    p: CscPattern,
    vals: Seq<T>,
    unit: bool,
) -> bool {
    &&& p.wf()
    &&& p.sorted()
    &&& p.nrows == side.len()
    &&& p.ncols == side.len()
    &&& vals.len() == p.row_idx@.len()
    &&& forall|m: int|
        0 <= m < side.len() ==> holds_row(p, vals, #[trigger] side[m], inv, unit, m)
}

/// The stored factors have the rows that were computed.
proof fn lemma_stored_rows<T: Scalar>(f: Ilutp<T>, rows: Rows<T>, a: CscRef<'_, T>)
    requires
        rows.done(a, f.params, a.pattern.ncols as int),
        f.params.usable(),
        f.n == a.pattern.ncols,
        f.perm == rows.perm,
        f.perm_inv == rows.perm_inv,
        f.permuted == rows.permuted,
        stored_columns(rows.l@, rows.perm_inv@, f.l, f.l_values@, true),
        stored_columns(rows.u@, rows.perm_inv@, f.u, f.u_values@, false),
    ensures
        f.wf(),
        f.factors(a),
{
    let n = f.n as int;
    let inv = f.perm_inv@;
    assert forall|m: int| 0 <= m < n implies #[trigger] f.u_rows()[m] == row_maps(rows.u@)[m] by {
        let row = rows.u@[m];
        assert(holds_row(f.u, f.u_values@, row, inv, false, m));
        assert(row.wf(n));
        assert forall|c: int| #[trigger] f.u_rows()[m].dom().contains(c)
            <==> row.map().dom().contains(c) by {
            if row.map().dom().contains(c) {
                lemma_label_range(row, n, c);
            }
            if 0 <= c < n {
                assert(f.u.has(m, inv[c] as int) <==> row.map().dom().contains(c));
            }
        }
        assert forall|c: int| f.u_rows()[m].dom().contains(c) implies #[trigger] f.u_rows()[m][c]
            == row.map()[c] by {
            assert(f.u.has(m, inv[c] as int));
        }
        assert(f.u_rows()[m] =~= row.map());
    }
    assert(f.u_rows() =~= row_maps(rows.u@));
    assert forall|m: int| 0 <= m < n implies #[trigger] f.l_rows()[m] == row_maps(rows.l@)[m] by {
        let row = rows.l@[m];
        assert(holds_row(f.l, f.l_values@, row, inv, true, m));
        assert(row.wf(n));
        assert forall|c: int| #[trigger] f.l_rows()[m].dom().contains(c)
            <==> row.map().dom().contains(c) by {
            if row.map().dom().contains(c) {
                lemma_label_range(row, n, c);
                let t = slot(row.idx@, c);
                assert(listed(row.idx@, c));
                assert(0 <= t < row.idx@.len() && row.idx@[t] == c);
                assert(inv[row.idx@[t] as int] < m);
            }
            if 0 <= c < n {
                assert(f.l.has(m, inv[c] as int) <==> row.map().dom().contains(c) || inv[c] == m);
            }
        }
        assert forall|c: int| f.l_rows()[m].dom().contains(c) implies #[trigger] f.l_rows()[m][c]
            == row.map()[c] by {
            assert(f.l.has(m, inv[c] as int));
            assert(row.map().dom().contains(c));
        }
        assert(f.l_rows()[m] =~= row.map());
    }
    assert(f.l_rows() =~= row_maps(rows.l@));
    assert forall|j: int| 0 <= j < n implies #[trigger] f.u.has(j, j) && f.l.has(j, j)
        && f.l_values@[f.l.find(j, j)] == T::unit() by {
        let c = f.perm@[j] as int;
        assert(f.perm@[j] < n && inv[f.perm@[j] as int] == j);
        assert(rows.u@[j].idx@[0] == f.perm@[j]);
        assert(rows.u@[j].wf(n));
        rows.u@[j].lemma_map_at(n, 0);
        assert(holds_row(f.u, f.u_values@, rows.u@[j], inv, false, j));
        assert(rows.u@[j].map().dom().contains(c));
        assert(holds_row(f.l, f.l_values@, rows.l@[j], inv, true, j));
        assert(f.l.has(j, inv[c] as int));
    }
    assert forall|i: int, j: int| 0 <= i < n && 0 <= j < n && #[trigger] f.u.has(
        i,
        j,
    ) implies i <= j by {
        let c = f.perm@[j] as int;
        assert(f.perm@[j] < n && inv[f.perm@[j] as int] == j);
        assert(holds_row(f.u, f.u_values@, rows.u@[i], inv, false, i));
        assert(f.u.has(i, inv[c] as int));
        let row = rows.u@[i];
        assert(row.map().dom().contains(c));
        let t = slot(row.idx@, c);
        assert(listed(row.idx@, c));
        assert(0 <= t < row.idx@.len() && row.idx@[t] == c);
        if t == 0 {
            assert(row.idx@[0] == f.perm@[i]);
            assert(f.perm@[i] < n && inv[f.perm@[i] as int] == i);
        } else {
            assert(inv[row.idx@[t] as int] > i);
        }
    }
    assert forall|i: int, j: int| 0 <= i < n && 0 <= j < n && #[trigger] f.l.has(
        i,
        j,
    ) implies i >= j by {
        let c = f.perm@[j] as int;
        assert(f.perm@[j] < n && inv[f.perm@[j] as int] == j);
        assert(holds_row(f.l, f.l_values@, rows.l@[i], inv, true, i));
        assert(f.l.has(i, inv[c] as int));
        let row = rows.l@[i];
        if row.map().dom().contains(c) {
            let t = slot(row.idx@, c);
            assert(listed(row.idx@, c));
            assert(0 <= t < row.idx@.len() && row.idx@[t] == c);
            assert(row.wf(n));
            assert(inv[row.idx@[t] as int] < i);
        }
    }
    assert forall|j: int| 0 <= j < n implies #[trigger] f.l.has(j, j) by {
        assert(f.u.has(j, j));
    }
    assert forall|j: int| 0 <= j < n implies f.l_values@[#[trigger] f.l.find(j, j)] == T::unit() by {
        assert(f.u.has(j, j));
    }
    lemma_lower_from_has(f.l, n);
    lemma_upper_from_has(f.u, n);
    assert forall|j: int| 0 <= j < n implies f.l_values@[#[trigger] f.l.start(j)] == T::unit() by {
        assert(f.l_values@[f.l.find(j, j)] == T::unit());
        assert(f.l.start(j) < f.l.end(j) && f.l.row_idx@[f.l.start(j)] == j);
        assert(f.l.sorted_col(j));
        f.l.lemma_find_at(f.l.start(j), j);
    }
}

proof fn lemma_label_range<T>(row: SparseRow<T>, n: int, c: int)
    requires
        row.wf(n),
        row.map().dom().contains(c),
    ensures
        0 <= c < n,
{
    let t = slot(row.idx@, c);
    assert(listed(row.idx@, c));
    assert(0 <= t < row.idx@.len() && row.idx@[t] == c);
}

} // verus!
