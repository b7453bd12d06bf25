//! Incomplete LU elimination on a prescribed pattern.
//!
//! The factors are held column by column: `L` with its unit diagonal stored
//! first in each column, `U` with its diagonal stored last. Elimination is
//! left-looking: column `j` starts from the source matrix and is updated by
//! each earlier column `k` whose entry `(k, j)` lies in the pattern.
use vstd::prelude::*;

use crate::scalar::{
    exact_field, lemma_minus_undoes_plus, lemma_null_absorbs, lemma_null_is_neutral,
    lemma_plus_associates, lemma_plus_commutes, lemma_reciprocal_inverts, lemma_times_associates,
    lemma_times_commutes, lemma_unit_is_neutral, vanishes, RealScalar, Scalar,
};
use crate::sparse::{CscModel, CscPattern};

verus! {

/// `l` is a lower triangular pattern with the diagonal first in each column.
pub open spec fn lower_ok(l: CscPattern, n: int) -> bool {
    &&& l.wf()
    &&& l.nrows == n
    &&& l.ncols == n
    &&& l.sorted()
    &&& forall|j: int| 0 <= j < n ==> #[trigger] l.start(j) < l.end(j) && l.row_idx@[l.start(j)] == j
}

/// `u` is an upper triangular pattern with the diagonal last in each column.
pub open spec fn upper_ok(u: CscPattern, n: int) -> bool {
    &&& u.wf()
    &&& u.nrows == n
    &&& u.ncols == n
    &&& u.sorted()
    &&& forall|j: int| 0 <= j < n ==> #[trigger] u.start(j) < u.end(j) && u.row_idx@[u.end(j) - 1] == j
}

/// The joint pattern of the two factors.
pub open spec fn lu_has(l: CscPattern, u: CscPattern) -> spec_fn(int, int) -> bool {
    |i: int, j: int|
        0 <= i < l.ncols && 0 <= j < l.ncols && if i <= j {
            u.has(i, j)
        } else {
            l.has(i, j)
        }
}

/// The entry `(i, j)` once the pivots below `k` have been eliminated: the
/// source entry `a(i, j)`, less `L[i, m] * U[m, j]` for each pivot `m < k` that
/// precedes both `i` and `j` and meets both in the pattern `s`, in ascending
/// order of `m`.
pub open spec fn ilu_entry<T: Scalar>(
    s: spec_fn(int, int) -> bool,
    a: spec_fn(int, int) -> T,
    i: int,
    j: int,
    k: int,
) -> T
    decreases k,
{
    if k <= 0 {
        a(i, j)
    } else {
        let m = k - 1;
        let before = ilu_entry(s, a, i, j, m);
        if m < i && m < j && s(i, m) && s(m, j) {
            let l_im = ilu_entry(s, a, i, m, m).times(ilu_entry(s, a, m, m, m).reciprocal());
            before.minus(l_im.times(ilu_entry(s, a, m, j, m)))
        } else {
            before
        }
    }
}

/// The entry `U[i, j]`, for `i <= j`.
pub open spec fn upper_entry<T: Scalar>(
    s: spec_fn(int, int) -> bool,
    a: spec_fn(int, int) -> T,
    i: int,
    j: int,
) -> T {
    ilu_entry(s, a, i, j, i)
}

/// The entry `L[i, j]`, for `i > j`.
pub open spec fn lower_entry<T: Scalar>(
    s: spec_fn(int, int) -> bool,
    a: spec_fn(int, int) -> T,
    i: int,
    j: int,
) -> T {
    ilu_entry(s, a, i, j, j).times(upper_entry(s, a, j, j).reciprocal())
}

/// Column `j` of `U` holds the entries of the factorisation.
pub open spec fn u_col_done<T: Scalar>(
    l: CscPattern,
    u: CscPattern,
    a: spec_fn(int, int) -> T,
    uv: Seq<T>,
    j: int,
) -> bool {
    forall|p: int| #[trigger]
        u.in_col(p, j) ==> uv[p] == upper_entry(lu_has(l, u), a, u.row_idx@[p] as int, j)
}

/// Column `j` of `L` holds the entries of the factorisation.
pub open spec fn l_col_done<T: Scalar>(
    l: CscPattern,
    u: CscPattern,
    a: spec_fn(int, int) -> T,
    lv: Seq<T>,
    j: int,
) -> bool {
    forall|p: int| #[trigger]
        l.in_col(p, j) ==> lv[p] == if p == l.start(j) {
            T::unit()
        } else {
            lower_entry(lu_has(l, u), a, l.row_idx@[p] as int, j)
        }
}

/// The first `j` columns of both factors are done.
pub open spec fn lu_cols_done<T: Scalar>(
    l: CscPattern,
    u: CscPattern,
    a: spec_fn(int, int) -> T,
    lv: Seq<T>,
    uv: Seq<T>,
    j: int,
) -> bool {
    forall|k: int|
        #![trigger l_col_done(l, u, a, lv, k)]
        #![trigger u_col_done(l, u, a, uv, k)]
        0 <= k < j ==> l_col_done(l, u, a, lv, k) && u_col_done(l, u, a, uv, k)
}

/// The pivots of the first `j` columns do not vanish.
pub open spec fn pivots_ok<T: Scalar>(
    s: spec_fn(int, int) -> bool,
    a: spec_fn(int, int) -> T,
    j: int,
) -> bool {
    forall|k: int| 0 <= k < j ==> !vanishes(#[trigger] upper_entry(s, a, k, k))
}

/// Each mark names a column in which the marked row lies in the pattern, or no
/// column at all.
pub open spec fn marks_pattern(l: CscPattern, u: CscPattern, marker: Seq<usize>) -> bool {
    &&& marker.len() == l.ncols
    &&& forall|i: int|
        0 <= i < l.ncols ==> #[trigger] marker[i] == usize::MAX || lu_has(l, u)(
            i,
            marker[i] as int,
        )
}

/// The entry `(i, j)` of a matrix, zero where nothing is stored.
pub open spec fn dense_entry<T: Scalar>(m: CscModel<T>, i: int, j: int) -> T {
    if m.pattern.has(i, j) {
        m.entry(i, j)
    } else {
        T::null()
    }
}

/// The entry `(i, j)` of the product `l * u`, summed over the first `k` inner
/// indices.
pub open spec fn product_entry<T: Scalar>(
    l: CscModel<T>,
    u: CscModel<T>,
    i: int,
    j: int,
    k: int,
) -> T
    decreases k,
{
    if k <= 0 {
        T::null()
    } else {
        product_entry(l, u, i, j, k - 1).plus(
            dense_entry(l, i, k - 1).times(dense_entry(u, k - 1, j)),
        )
    }
}

/// Pivots that do not meet column `j` leave its entries alone.
pub proof fn lemma_ilu_skip<T: Scalar>(
    s: spec_fn(int, int) -> bool,
    a: spec_fn(int, int) -> T,
    i: int,
    j: int,
    k1: int,
    k2: int,
)
    requires
        0 <= k1 <= k2,
        forall|m: int| k1 <= m < k2 ==> !(m < i && m < j && s(i, m) && #[trigger] s(m, j)),
    ensures
        ilu_entry(s, a, i, j, k1) == ilu_entry(s, a, i, j, k2),
    decreases k2,
{
    if k1 < k2 {
        lemma_ilu_skip(s, a, i, j, k1, k2 - 1);
        assert(!(k2 - 1 < i && k2 - 1 < j && s(i, k2 - 1) && s(k2 - 1, j)));
    }
}

/// The diagonal lies in both patterns; everything else of column `j` of `l`
/// lies below it.
pub proof fn lemma_lower_col(l: CscPattern, n: int, p: int, j: int)
    requires
        lower_ok(l, n),
        0 <= j < n,
        l.in_col(p, j),
    ensures
        0 <= p < l.row_idx@.len(),
        p == l.start(j) ==> l.row_idx@[p] == j,
        p > l.start(j) ==> j < l.row_idx@[p] < n,
{
    l.lemma_col_bounds(j);
    assert(l.sorted_col(j));
    assert(l.start(j) < l.end(j));
}

/// Everything of column `j` of `u` but its last entry lies above the diagonal.
pub proof fn lemma_upper_col(u: CscPattern, n: int, p: int, j: int)
    requires
        upper_ok(u, n),
        0 <= j < n,
        u.in_col(p, j),
    ensures
        0 <= p < u.row_idx@.len(),
        p == u.end(j) - 1 ==> u.row_idx@[p] == j,
        p < u.end(j) - 1 ==> u.row_idx@[p] < j,
{
    u.lemma_col_bounds(j);
    assert(u.sorted_col(j));
    assert(u.start(j) < u.end(j));
}

/// A sorted pattern that stores its diagonal and nothing above it has the
/// diagonal first in each column.
pub proof fn lemma_lower_from_has(l: CscPattern, n: int)
    requires
        l.wf(),
        l.nrows == n,
        l.ncols == n,
        l.sorted(),
        forall|j: int| 0 <= j < n ==> #[trigger] l.has(j, j),
        forall|i: int, j: int| 0 <= i < n && 0 <= j < n && #[trigger] l.has(i, j) ==> i >= j,
    ensures
        lower_ok(l, n),
{
    assert forall|j: int| 0 <= j < n implies #[trigger] l.start(j) < l.end(j)
        && l.row_idx@[l.start(j)] == j by {
        assert(l.has(j, j));
        l.lemma_find(j, j);
        let p = l.find(j, j);
        l.lemma_col_bounds(j);
        assert(l.in_col(l.start(j), j));
        assert(l.has(l.row_idx@[l.start(j)] as int, j));
        assert(l.sorted_col(j));
        if p > l.start(j) {
            assert(l.row_idx@[l.start(j)] < l.row_idx@[p]);
        }
    }
}

/// A sorted pattern that stores its diagonal and nothing below it has the
/// diagonal last in each column.
pub proof fn lemma_upper_from_has(u: CscPattern, n: int)
    requires
        u.wf(),
        u.nrows == n,
        u.ncols == n,
        u.sorted(),
        forall|j: int| 0 <= j < n ==> #[trigger] u.has(j, j),
        forall|i: int, j: int| 0 <= i < n && 0 <= j < n && #[trigger] u.has(i, j) ==> i <= j,
    ensures
        upper_ok(u, n),
{
    assert forall|j: int| 0 <= j < n implies #[trigger] u.start(j) < u.end(j)
        && u.row_idx@[u.end(j) - 1] == j by {
        assert(u.has(j, j));
        u.lemma_find(j, j);
        let p = u.find(j, j);
        u.lemma_col_bounds(j);
        assert(u.in_col(u.end(j) - 1, j));
        assert(u.has(u.row_idx@[u.end(j) - 1] as int, j));
        assert(u.sorted_col(j));
        if p < u.end(j) - 1 {
            assert(u.row_idx@[p] < u.row_idx@[u.end(j) - 1]);
        }
    }
}

/// Every diagonal entry lies in the joint pattern.
pub proof fn lemma_diag_in_pattern(l: CscPattern, u: CscPattern, n: int)
    requires
        lower_ok(l, n),
        upper_ok(u, n),
    ensures
        forall|k: int| 0 <= k < n ==> #[trigger] lu_has(l, u)(k, k),
{
    assert forall|k: int| 0 <= k < n implies #[trigger] lu_has(l, u)(k, k) by {
        assert(u.start(k) < u.end(k));
        assert(u.in_col(u.end(k) - 1, k));
    }
}

/// The factorisation reads its source only on the pattern.
pub proof fn lemma_ilu_agree<T: Scalar>(
    s: spec_fn(int, int) -> bool,
    a: spec_fn(int, int) -> T,
    b: spec_fn(int, int) -> T,
    n: int,
    i: int,
    j: int,
    k: int,
)
    requires
        forall|p: int, q: int| #[trigger] s(p, q) ==> a(p, q) == b(p, q),
        forall|m: int| 0 <= m < n ==> #[trigger] s(m, m),
        s(i, j),
        0 <= i < n,
        0 <= j < n,
    ensures
        ilu_entry(s, a, i, j, k) == ilu_entry(s, b, i, j, k),
    decreases k,
{
    if k > 0 {
        let m = k - 1;
        lemma_ilu_agree(s, a, b, n, i, j, m);
        if m < i && m < j && s(i, m) && s(m, j) {
            assert(s(m, m));
            lemma_ilu_agree(s, a, b, n, i, m, m);
            lemma_ilu_agree(s, a, b, n, m, m, m);
            lemma_ilu_agree(s, a, b, n, m, j, m);
        }
    }
}

/// Sources that agree on the pattern have the same pivots.
pub proof fn lemma_pivots_agree<T: Scalar>(
    l: CscPattern,
    u: CscPattern,
    a: spec_fn(int, int) -> T,
    b: spec_fn(int, int) -> T,
    n: int,
)
    requires
        lower_ok(l, n),
        upper_ok(u, n),
        forall|i: int, j: int| #[trigger] lu_has(l, u)(i, j) ==> a(i, j) == b(i, j),
    ensures
        forall|k: int|
            #![trigger upper_entry(lu_has(l, u), a, k, k)]
            #![trigger upper_entry(lu_has(l, u), b, k, k)]
            0 <= k < n ==> upper_entry(lu_has(l, u), a, k, k) == upper_entry(
                lu_has(l, u),
                b,
                k,
                k,
            ),
{
    assert forall|k: int|
        #![trigger upper_entry(lu_has(l, u), a, k, k)]
        #![trigger upper_entry(lu_has(l, u), b, k, k)]
        0 <= k < n implies upper_entry(lu_has(l, u), a, k, k) == upper_entry(
        lu_has(l, u),
        b,
        k,
        k,
    ) by {
        lemma_diag_in_pattern(l, u, n);
        lemma_ilu_agree(lu_has(l, u), a, b, n, k, k, k);
    }
}

/// Sources that agree on the pattern have the same factors.
pub proof fn lemma_done_agree<T: Scalar>(
    l: CscPattern,
    u: CscPattern,
    a: spec_fn(int, int) -> T,
    b: spec_fn(int, int) -> T,
    lv: Seq<T>,
    uv: Seq<T>,
    n: int,
)
    requires
        lower_ok(l, n),
        upper_ok(u, n),
        forall|i: int, j: int| #[trigger] lu_has(l, u)(i, j) ==> a(i, j) == b(i, j),
        lu_cols_done(l, u, a, lv, uv, n),
    ensures
        lu_cols_done(l, u, b, lv, uv, n),
{
    let s = lu_has(l, u);
    lemma_diag_in_pattern(l, u, n);
    assert forall|k: int| 0 <= k < n implies l_col_done(l, u, b, lv, k) && u_col_done(
        l,
        u,
        b,
        uv,
        k,
    ) by {
        assert(l_col_done(l, u, a, lv, k) && u_col_done(l, u, a, uv, k));
        lemma_ilu_agree(s, a, b, n, k, k, k);
        assert forall|p: int| #[trigger] u.in_col(p, k) implies uv[p] == upper_entry(
            s,
            b,
            u.row_idx@[p] as int,
            k,
        ) by {
            lemma_upper_col(u, n, p, k);
            let i = u.row_idx@[p] as int;
            assert(u.has(i, k));
            assert(s(i, k));
            lemma_ilu_agree(s, a, b, n, i, k, i);
        }
        assert forall|p: int| #[trigger] l.in_col(p, k) implies lv[p] == (if p == l.start(k) {
            T::unit()
        } else {
            lower_entry(s, b, l.row_idx@[p] as int, k)
        }) by {
            lemma_lower_col(l, n, p, k);
            let i = l.row_idx@[p] as int;
            if p > l.start(k) {
                assert(l.has(i, k));
                assert(s(i, k));
                lemma_ilu_agree(s, a, b, n, i, k, k);
            }
        }
    }
}

/// In exact arithmetic the product of the factors agrees with the source on
/// the pattern.
pub proof fn law_product_on_pattern<T: Scalar>(
    l: CscModel<T>,
    u: CscModel<T>,
    a: spec_fn(int, int) -> T,
    n: int,
    i: int,
    j: int,
)
    requires
        exact_field::<T>(),
        lower_ok(l.pattern, n),
        upper_ok(u.pattern, n),
        lu_cols_done(l.pattern, u.pattern, a, l.values, u.values, n),
        pivots_ok(lu_has(l.pattern, u.pattern), a, n),
        lu_has(l.pattern, u.pattern)(i, j),
    ensures
        product_entry(l, u, i, j, n) == a(i, j),
{
    let s = lu_has(l.pattern, u.pattern);
    let m = if i <= j {
        i
    } else {
        j
    };
    lemma_partial_product(l, u, a, n, i, j, m);
    lemma_diag_in_pattern(l.pattern, u.pattern, n);
    lemma_factor_entries(l, u, a, n, i, m);
    lemma_factor_entries(l, u, a, n, m, j);
    let x = ilu_entry(s, a, i, j, m);
    let term = dense_entry(l, i, m).times(dense_entry(u, m, j));
    let part = product_entry(l, u, i, j, m);
    if i <= j {
        lemma_times_commutes(T::unit(), x);
        lemma_unit_is_neutral(x);
        assert(term == x);
    } else {
        let piv = upper_entry(s, a, j, j);
        assert(s(j, j));
        assert(dense_entry(u, m, j) == piv);
        assert(!vanishes(upper_entry(s, a, j, j)));
        lemma_times_associates(x, piv.reciprocal(), piv);
        lemma_reciprocal_inverts(piv);
        lemma_unit_is_neutral(x);
        assert(term == x);
    }
    assert(product_entry(l, u, i, j, m + 1) == part.plus(term));
    lemma_plus_commutes(part, term);
    lemma_product_tail(l, u, n, i, j, m + 1, n);
}

/// What the stored factors hold at `(i, j)`.
pub proof fn lemma_factor_entries<T: Scalar>(
    l: CscModel<T>,
    u: CscModel<T>,
    a: spec_fn(int, int) -> T,
    n: int,
    i: int,
    j: int,
)
    requires
        lower_ok(l.pattern, n),
        upper_ok(u.pattern, n),
        lu_cols_done(l.pattern, u.pattern, a, l.values, u.values, n),
        0 <= i < n,
        0 <= j < n,
    ensures
        i == j ==> dense_entry(l, i, j) == T::unit(),
        i > j ==> dense_entry(l, i, j) == if lu_has(l.pattern, u.pattern)(i, j) {
            lower_entry(lu_has(l.pattern, u.pattern), a, i, j)
        } else {
            T::null()
        },
        i < j ==> dense_entry(l, i, j) == T::null(),
        i <= j ==> dense_entry(u, i, j) == if lu_has(l.pattern, u.pattern)(i, j) {
            upper_entry(lu_has(l.pattern, u.pattern), a, i, j)
        } else {
            T::null()
        },
        i > j ==> dense_entry(u, i, j) == T::null(),
{
    let lp = l.pattern;
    let up = u.pattern;
    assert(l_col_done(lp, up, a, l.values, j) && u_col_done(lp, up, a, u.values, j));
    if lp.has(i, j) {
        lp.lemma_find(i, j);
        lemma_lower_col(lp, n, lp.find(i, j), j);
    }
    if up.has(i, j) {
        up.lemma_find(i, j);
        lemma_upper_col(up, n, up.find(i, j), j);
    }
    if i == j {
        assert(lp.start(j) < lp.end(j));
        assert(lp.in_col(lp.start(j), j));
        assert(lp.has(i, j));
    }
}

proof fn lemma_partial_product<T: Scalar>(
    l: CscModel<T>,
    u: CscModel<T>,
    a: spec_fn(int, int) -> T,
    n: int,
    i: int,
    j: int,
    k: int,
)
    requires
        exact_field::<T>(),
        lower_ok(l.pattern, n),
        upper_ok(u.pattern, n),
        lu_cols_done(l.pattern, u.pattern, a, l.values, u.values, n),
        0 <= i < n,
        0 <= j < n,
        0 <= k <= i,
        k <= j,
    ensures
        ilu_entry(lu_has(l.pattern, u.pattern), a, i, j, k).plus(product_entry(l, u, i, j, k))
            == a(i, j),
    decreases k,
{
    let s = lu_has(l.pattern, u.pattern);
    if k <= 0 {
        lemma_null_is_neutral(a(i, j));
    } else {
        let m = k - 1;
        lemma_partial_product(l, u, a, n, i, j, m);
        lemma_factor_entries(l, u, a, n, i, m);
        lemma_factor_entries(l, u, a, n, m, j);
        let before = ilu_entry(s, a, i, j, m);
        let part = product_entry(l, u, i, j, m);
        let term = dense_entry(l, i, m).times(dense_entry(u, m, j));
        if s(i, m) && s(m, j) {
            let after = ilu_entry(s, a, i, j, k);
            assert(after == before.minus(term));
            lemma_minus_undoes_plus(before, term);
            lemma_plus_commutes(part, term);
            lemma_plus_associates(after, term, part);
        } else {
            lemma_times_commutes(dense_entry(l, i, m), dense_entry(u, m, j));
            lemma_null_absorbs(dense_entry(l, i, m));
            lemma_null_absorbs(dense_entry(u, m, j));
            lemma_null_is_neutral(part);
        }
    }
}

proof fn lemma_product_tail<T: Scalar>(
    l: CscModel<T>,
    u: CscModel<T>,
    n: int,
    i: int,
    j: int,
    k: int,
    m: int,
)
    requires
        exact_field::<T>(),
        lower_ok(l.pattern, n),
        upper_ok(u.pattern, n),
        0 <= i < n,
        0 <= j < n,
        i < k || j < k,
        0 <= k <= m <= n,
    ensures
        product_entry(l, u, i, j, m) == product_entry(l, u, i, j, k),
    decreases m,
{
    if k < m {
        lemma_product_tail(l, u, n, i, j, k, m - 1);
        let q = m - 1;
        let part = product_entry(l, u, i, j, q);
        if i < k {
            if l.pattern.has(i, q) {
                l.pattern.lemma_find(i, q);
                lemma_lower_col(l.pattern, n, l.pattern.find(i, q), q);
            }
            assert(dense_entry(l, i, q) == T::null());
            lemma_times_commutes(dense_entry(l, i, q), dense_entry(u, q, j));
            lemma_null_absorbs(dense_entry(u, q, j));
        } else {
            if u.pattern.has(q, j) {
                u.pattern.lemma_find(q, j);
                lemma_upper_col(u.pattern, n, u.pattern.find(q, j), j);
            }
            assert(dense_entry(u, q, j) == T::null());
            lemma_null_absorbs(dense_entry(l, i, q));
        }
        lemma_null_is_neutral(part);
    }
}

/// Values outside the column that changed stay done.
proof fn lemma_done_frame<T: Scalar>(
    l: CscPattern,
    u: CscPattern,
    a: spec_fn(int, int) -> T,
    lv: Seq<T>,
    uv: Seq<T>,
    lv2: Seq<T>,
    uv2: Seq<T>,
    n: int,
    j: int,
)
    requires
        lower_ok(l, n),
        upper_ok(u, n),
        0 <= j < n,
        lu_cols_done(l, u, a, lv, uv, j),
        forall|p: int| 0 <= p < l.start(j) ==> #[trigger] lv2[p] == lv[p],
        forall|p: int| 0 <= p < u.start(j) ==> #[trigger] uv2[p] == uv[p],
    ensures
        lu_cols_done(l, u, a, lv2, uv2, j),
{
    assert forall|k: int| 0 <= k < j implies l_col_done(l, u, a, lv2, k) && u_col_done(
        l,
        u,
        a,
        uv2,
        k,
    ) by {
        assert(l_col_done(l, u, a, lv, k) && u_col_done(l, u, a, uv, k));
        assert(l.col_ptr@[k + 1] <= l.col_ptr@[j]);
        assert(u.col_ptr@[k + 1] <= u.col_ptr@[j]);
    }
}

/// Eliminates column `j`, whose source entries have been scattered into `w`,
/// and stores it in the factors. Returns whether its pivot does not vanish; if
/// it vanishes, the column of `L` is left as it was.
pub(crate) fn eliminate_column<T: Scalar>(
    l: &CscPattern,
    u: &CscPattern,
    j: usize,
    w: &mut Vec<T>,
    marker: &Vec<usize>,
    lv: &mut Vec<T>,
    uv: &mut Vec<T>,
    Ghost(a): Ghost<spec_fn(int, int) -> T>,
) -> (ok: bool)
    requires
        j < l.ncols,
        lower_ok(*l, l.ncols as int),
        upper_ok(*u, l.ncols as int),
        old(w)@.len() == l.ncols,
        marker@.len() == l.ncols,
        old(lv)@.len() == l.row_idx@.len(),
        old(uv)@.len() == u.row_idx@.len(),
        forall|i: int|
            0 <= i < l.ncols ==> (#[trigger] marker@[i] == j <==> lu_has(*l, *u)(i, j as int)),
        forall|i: int|
            0 <= i < l.ncols && lu_has(*l, *u)(i, j as int) ==> #[trigger] old(w)@[i] == a(i, j as int),
        lu_cols_done(*l, *u, a, old(lv)@, old(uv)@, j as int),
    ensures
        final(w)@.len() == old(w)@.len(),
        final(lv)@.len() == old(lv)@.len(),
        final(uv)@.len() == old(uv)@.len(),
        lu_cols_done(*l, *u, a, final(lv)@, final(uv)@, j as int),
        forall|p: int| 0 <= p < l.row_idx@.len() && !l.in_col(p, j as int) ==> #[trigger] final(lv)@[p] == old(lv)@[p],
        forall|p: int| 0 <= p < u.row_idx@.len() && !u.in_col(p, j as int) ==> #[trigger] final(uv)@[p] == old(uv)@[p],
        u_col_done(*l, *u, a, final(uv)@, j as int),
        ok <==> !vanishes(upper_entry(lu_has(*l, *u), a, j as int, j as int)),
        ok ==> l_col_done(*l, *u, a, final(lv)@, j as int),
        !ok ==> final(lv)@ == old(lv)@,
{
    let ghost n = l.ncols as int;
    let ghost s = lu_has(*l, *u);
    let ghost jj = j as int;
    let ghost lv0 = lv@;
    let ghost uv0 = uv@;
    let ls: usize = l.col_ptr[j];
    let le: usize = l.col_ptr[j + 1];
    let us: usize = u.col_ptr[j];
    let ue: usize = u.col_ptr[j + 1];
    proof {
        l.lemma_col_bounds(jj);
        u.lemma_col_bounds(jj);
        assert(l.start(jj) < l.end(jj));
        assert(u.start(jj) < u.end(jj));
        assert(u.in_col(us as int, jj));
        lemma_upper_col(*u, n, us as int, jj);
        assert forall|i: int| 0 <= i < n && s(i, jj) implies #[trigger] w@[i] == ilu_entry(
            s,
            a,
            i,
            jj,
            u.row_idx@[us as int] as int,
        ) by {
            lemma_u_gap(*u, n, jj, us - 1);
            lemma_ilu_skip(s, a, i, jj, 0, u.row_idx@[us as int] as int);
        }
    }
    let mut t: usize = us;
    while t < ue - 1
        invariant
            n == l.ncols,
            jj == j,
            j < l.ncols,
            lower_ok(*l, n),
            upper_ok(*u, n),
            s == lu_has(*l, *u),
            us == u.start(jj),
            ue == u.end(jj),
            us <= t <= ue - 1,
            ue <= u.row_idx@.len(),
            w@.len() == n,
            marker@.len() == n,
            lv@.len() == l.row_idx@.len(),
            lv@ == lv0,
            uv@ == uv0,
            lu_cols_done(*l, *u, a, lv0, uv0, jj),
            forall|i: int| 0 <= i < n ==> (#[trigger] marker@[i] == j <==> s(i, jj)),
            forall|i: int|
                0 <= i < n && s(i, jj) ==> #[trigger] w@[i] == ilu_entry(
                    s,
                    a,
                    i,
                    jj,
                    u.row_idx@[t as int] as int,
                ),
        decreases ue - t,
    {
        let p: usize = u.row_idx[t];
        let ghost pp = p as int;
        proof {
            assert(u.in_col(t as int, jj));
            lemma_upper_col(*u, n, t as int, jj);
            assert(u.has(pp, jj));
            l.lemma_col_bounds(pp);
            assert(l.start(pp) < l.end(pp));
            assert(l_col_done(*l, *u, a, lv0, pp));
        }
        let u_pj: T = w[p].copy();
        let lps: usize = l.col_ptr[p];
        let lpe: usize = l.col_ptr[p + 1];
        let ghost w0 = w@;
        let mut q: usize = lps + 1;
        while q < lpe
            invariant
                n == l.ncols,
                jj == j,
                pp == p,
                p < j < l.ncols,
                lower_ok(*l, n),
                s == lu_has(*l, *u),
                s(pp, jj),
                lps == l.start(pp),
                lpe == l.end(pp),
                lps + 1 <= q <= lpe <= l.row_idx@.len(),
                w@.len() == n,
                marker@.len() == n,
                lv@.len() == l.row_idx@.len(),
                lv@ == lv0,
                l_col_done(*l, *u, a, lv0, pp),
                u_pj == ilu_entry(s, a, pp, jj, pp),
                forall|i: int| 0 <= i < n ==> (#[trigger] marker@[i] == j <==> s(i, jj)),
                forall|i: int|
                    0 <= i < n && s(i, jj) ==> #[trigger] w@[i] == ilu_entry(
                        s,
                        a,
                        i,
                        jj,
                        if exists|r: int| lps < r < q && #[trigger] l.row_idx@[r] == i {
                            pp + 1
                        } else {
                            pp
                        },
                    ),
            decreases lpe - q,
        {
            let i: usize = l.row_idx[q];
            let ghost ii = i as int;
            proof {
                assert(l.in_col(q as int, pp));
                lemma_lower_col(*l, n, q as int, pp);
                assert(l.sorted_col(pp));
                assert(!(exists|r: int| lps < r < q && #[trigger] l.row_idx@[r] == ii));
            }
            let ghost wq = w@;
            if marker[i] == j {
                let upd: T = lv[q].mul(&u_pj);
                let x: T = w[i].sub(&upd);
                w.set(i, x);
                proof {
                    assert(l.has(ii, pp));
                    assert(s(ii, pp));
                    assert(lv0[q as int] == lower_entry(s, a, ii, pp));
                    if ii == jj {
                        assert(s(ii, jj));
                    }
                    assert(w@[ii] == ilu_entry(s, a, ii, jj, pp + 1));
                }
            }
            proof {
                assert forall|k: int| 0 <= k < n && s(k, jj) implies #[trigger] w@[k] == ilu_entry(
                    s,
                    a,
                    k,
                    jj,
                    if exists|r: int| lps < r < q + 1 && #[trigger] l.row_idx@[r] == k {
                        pp + 1
                    } else {
                        pp
                    },
                ) by {
                    if k == ii {
                        assert(l.row_idx@[q as int] == k);
                    } else {
                        assert(wq[k] == w@[k]);
                        if exists|r: int| lps < r < q && #[trigger] l.row_idx@[r] == k {
                            let r = choose|r: int| lps < r < q && #[trigger] l.row_idx@[r] == k;
                            assert(lps < r < q + 1 && l.row_idx@[r] == k);
                        } else {
                            assert(!(exists|r: int| lps < r < q + 1 && #[trigger] l.row_idx@[r] == k));
                        }
                    }
                }
            }
            q += 1;
        }
        proof {
            let next = u.row_idx@[t + 1] as int;
            assert(u.in_col(t + 1, jj));
            lemma_upper_col(*u, n, t + 1, jj);
            assert(u.sorted_col(jj));
            lemma_u_gap(*u, n, jj, t as int);
            assert forall|i: int| 0 <= i < n && s(i, jj) implies #[trigger] w@[i] == ilu_entry(
                s,
                a,
                i,
                jj,
                next,
            ) by {
                if exists|r: int| lps < r < q && #[trigger] l.row_idx@[r] == i {
                } else {
                    if pp < i && l.has(i, pp) {
                        l.lemma_find(i, pp);
                        let r = l.find(i, pp);
                        lemma_lower_col(*l, n, r, pp);
                        assert(lps < r < q && l.row_idx@[r] == i);
                    }
                    assert(ilu_entry(s, a, i, jj, pp + 1) == ilu_entry(s, a, i, jj, pp));
                }
                lemma_ilu_skip(s, a, i, jj, pp + 1, next);
            }
        }
        t += 1;
    }
    proof {
        assert(u.row_idx@[t as int] == jj);
        assert forall|i: int| 0 <= i <= jj && s(i, jj) implies #[trigger] w@[i] == upper_entry(
            s,
            a,
            i,
            jj,
        ) by {
            lemma_ilu_skip(s, a, i, jj, i, jj);
        }
    }
    let ghost ws = w@;
    let mut t: usize = us;
    while t < ue
        invariant
            n == l.ncols,
            jj == j,
            j < l.ncols,
            upper_ok(*u, n),
            s == lu_has(*l, *u),
            us == u.start(jj),
            ue == u.end(jj),
            us <= t <= ue,
            ue <= u.row_idx@.len(),
            w@.len() == n,
            w@ == ws,
            uv@.len() == u.row_idx@.len(),
            forall|i: int|
                0 <= i <= jj && s(i, jj) ==> #[trigger] ws[i] == upper_entry(s, a, i, jj),
            forall|p: int| 0 <= p < u.row_idx@.len() && !u.in_col(p, jj) ==> #[trigger] uv@[p] == uv0[p],
            forall|p: int|
                us <= p < t ==> #[trigger] uv@[p] == upper_entry(s, a, u.row_idx@[p] as int, jj),
        decreases ue - t,
    {
        let i: usize = u.row_idx[t];
        proof {
            assert(u.in_col(t as int, jj));
            lemma_upper_col(*u, n, t as int, jj);
            assert(u.has(i as int, jj));
        }
        let x: T = w[i].copy();
        uv.set(t, x);
        t += 1;
    }
    let pivot: T = uv[ue - 1].copy();
    proof {
        assert(u.in_col(ue - 1, jj));
        lemma_upper_col(*u, n, ue - 1, jj);
        assert(u_col_done(*l, *u, a, uv@, jj));
        lemma_done_frame(*l, *u, a, lv0, uv0, lv@, uv@, n, jj);
    }
    if pivot.abs().is_zero() {
        return false;
    }
    let pivot_inv: T = pivot.recip();
    lv.set(ls, T::one());
    let mut q: usize = ls + 1;
    while q < le
        invariant
            n == l.ncols,
            jj == j,
            j < l.ncols,
            lower_ok(*l, n),
            s == lu_has(*l, *u),
            ls == l.start(jj),
            le == l.end(jj),
            ls + 1 <= q <= le,
            le <= l.row_idx@.len(),
            w@.len() == n,
            w@ == ws,
            lv@.len() == l.row_idx@.len(),
            pivot_inv == upper_entry(s, a, jj, jj).reciprocal(),
            forall|i: int| 0 <= i < n && s(i, jj) ==> #[trigger] ws[i] == ilu_entry(s, a, i, jj, jj),
            forall|p: int| 0 <= p < l.row_idx@.len() && !l.in_col(p, jj) ==> #[trigger] lv@[p] == lv0[p],
            lv@[ls as int] == T::unit(),
            forall|p: int|
                ls < p < q ==> #[trigger] lv@[p] == lower_entry(s, a, l.row_idx@[p] as int, jj),
        decreases le - q,
    {
        let i: usize = l.row_idx[q];
        proof {
            assert(l.in_col(q as int, jj));
            lemma_lower_col(*l, n, q as int, jj);
            assert(l.has(i as int, jj));
            assert(s(i as int, jj));
        }
        let x: T = w[i].mul(&pivot_inv);
        lv.set(q, x);
        q += 1;
    }
    proof {
        assert(l_col_done(*l, *u, a, lv@, jj));
        lemma_done_frame(*l, *u, a, lv0, uv0, lv@, uv@, n, jj);
    }
    true
}

/// No row of column `j` of `u` lies between those at positions `t` and `t + 1`.
pub proof fn lemma_u_gap(u: CscPattern, n: int, j: int, t: int)
    requires
        upper_ok(u, n),
        0 <= j < n,
        u.start(j) - 1 <= t < u.end(j) - 1,
    ensures
        forall|m: int|
            (t >= u.start(j) ==> u.row_idx@[t] < m) && 0 <= m < u.row_idx@[t + 1] ==> !(#[trigger] u.has(
                m,
                j,
            )),
{
    assert(u.sorted_col(j));
    assert forall|m: int|
        (t >= u.start(j) ==> u.row_idx@[t] < m) && 0 <= m < u.row_idx@[t + 1] implies !(
    #[trigger] u.has(m, j)) by {
        if u.has(m, j) {
            u.lemma_find(m, j);
            let q = u.find(m, j);
            if q > t + 1 {
                assert(u.row_idx@[t + 1] < u.row_idx@[q]);
            } else if q < t {
                assert(u.row_idx@[q] < u.row_idx@[t]);
            }
        }
    }
}

/// The factors on a pattern are determined by the source values.
pub proof fn lemma_factors_unique<T: Scalar>(
    l: CscPattern,
    u: CscPattern,
    a: spec_fn(int, int) -> T,
    lv1: Seq<T>,
    uv1: Seq<T>,
    lv2: Seq<T>,
    uv2: Seq<T>,
    n: int,
)
    requires
        lower_ok(l, n),
        upper_ok(u, n),
        lu_cols_done(l, u, a, lv1, uv1, n),
        lu_cols_done(l, u, a, lv2, uv2, n),
        lv1.len() == l.row_idx@.len(),
        lv2.len() == l.row_idx@.len(),
        uv1.len() == u.row_idx@.len(),
        uv2.len() == u.row_idx@.len(),
    ensures
        lv1 == lv2,
        uv1 == uv2,
{
    assert forall|p: int| 0 <= p < lv1.len() implies #[trigger] lv1[p] == lv2[p] by {
        let j = l.lemma_some_col(p);
        assert(l_col_done(l, u, a, lv1, j) && l_col_done(l, u, a, lv2, j));
        assert(l.in_col(p, j));
    }
    assert forall|p: int| 0 <= p < uv1.len() implies #[trigger] uv1[p] == uv2[p] by {
        let j = u.lemma_some_col(p);
        assert(u_col_done(l, u, a, uv1, j) && u_col_done(l, u, a, uv2, j));
        assert(u.in_col(p, j));
    }
    assert(lv1 =~= lv2);
    assert(uv1 =~= uv2);
}

} // verus!
