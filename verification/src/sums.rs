//! Finite sums in exact arithmetic.
use crate::linalg::{dot, dot_rev, dot_term, matvec};
use crate::lu::{dense_entry, product_entry};
use crate::scalar::{
    conj_if, exact_conjugation, exact_field, lemma_null_absorbs, lemma_null_is_neutral,
    lemma_plus_associates, lemma_plus_cancels, lemma_plus_commutes, lemma_plus_exchange,
    lemma_times_commutes, lemma_times_distributes, lemma_times_distributes_left, Scalar,
};
use crate::sparse::CscModel;
use vstd::prelude::*;

verus! {

/// `f(0) + f(1) + ... + f(k - 1)`.
pub open spec fn sum<T: Scalar>(f: spec_fn(int) -> T, k: int) -> T
    decreases k,
{
    if k <= 0 {
        T::null()
    } else {
        sum(f, k - 1).plus(f(k - 1))
    }
}

/// Sums of equal terms are equal.
pub proof fn lemma_sum_equal<T: Scalar>(f: spec_fn(int) -> T, g: spec_fn(int) -> T, k: int)
    requires
        forall|i: int| 0 <= i < k ==> #[trigger] f(i) == g(i),
    ensures
        sum(f, k) == sum(g, k),
    decreases k,
{
    if k > 0 {
        lemma_sum_equal(f, g, k - 1);
        assert(f(k - 1) == g(k - 1));
    }
}

/// A sum of zeros is zero.
pub proof fn lemma_sum_null<T: Scalar>(f: spec_fn(int) -> T, k: int)
    requires
        exact_field::<T>(),
        forall|i: int| 0 <= i < k ==> #[trigger] f(i) == T::null(),
    ensures
        sum(f, k) == T::null(),
    decreases k,
{
    if k > 0 {
        lemma_sum_null(f, k - 1);
        assert(f(k - 1) == T::null());
        lemma_null_is_neutral(T::null());
    }
}

/// A sum with a single term.
pub proof fn lemma_sum_single<T: Scalar>(f: spec_fn(int) -> T, k: int, at: int)
    requires
        exact_field::<T>(),
        0 <= at < k,
        forall|i: int| 0 <= i < k && i != at ==> #[trigger] f(i) == T::null(),
    ensures
        sum(f, k) == f(at),
    decreases k,
{
    if k - 1 == at {
        lemma_sum_null(f, k - 1);
        lemma_plus_commutes(T::null(), f(at));
        lemma_null_is_neutral(f(at));
    } else {
        lemma_sum_single(f, k - 1, at);
        assert(f(k - 1) == T::null());
        lemma_null_is_neutral(f(at));
    }
}

/// Sums are added term by term.
pub proof fn lemma_sum_plus<T: Scalar>(f: spec_fn(int) -> T, g: spec_fn(int) -> T, k: int)
    requires
        exact_field::<T>(),
    ensures
        sum(|i: int| f(i).plus(g(i)), k) == sum(f, k).plus(sum(g, k)),
    decreases k,
{
    if k <= 0 {
        lemma_null_is_neutral(T::null());
    } else {
        lemma_sum_plus(f, g, k - 1);
        lemma_plus_exchange(sum(f, k - 1), sum(g, k - 1), f(k - 1), g(k - 1));
    }
}

/// A factor on the right goes into every term.
pub proof fn lemma_sum_times<T: Scalar>(f: spec_fn(int) -> T, c: T, k: int)
    requires
        exact_field::<T>(),
    ensures
        sum(|i: int| f(i).times(c), k) == sum(f, k).times(c),
    decreases k,
{
    if k <= 0 {
        lemma_times_commutes(T::null(), c);
        lemma_null_absorbs(c);
    } else {
        lemma_sum_times(f, c, k - 1);
        lemma_times_distributes(sum(f, k - 1), f(k - 1), c);
    }
}

/// A factor on the left goes into every term.
pub proof fn lemma_times_sum<T: Scalar>(c: T, f: spec_fn(int) -> T, k: int)
    requires
        exact_field::<T>(),
    ensures
        sum(|i: int| c.times(f(i)), k) == c.times(sum(f, k)),
    decreases k,
{
    if k <= 0 {
        lemma_null_absorbs(c);
    } else {
        lemma_times_sum(c, f, k - 1);
        lemma_times_distributes_left(c, sum(f, k - 1), f(k - 1));
    }
}

/// The order of two sums does not matter.
pub proof fn lemma_sum_swap<T: Scalar>(f: spec_fn(int, int) -> T, k: int, m: int)
    requires
        exact_field::<T>(),
    ensures
        sum(|i: int| sum(|j: int| f(i, j), m), k) == sum(|j: int| sum(|i: int| f(i, j), k), m),
    decreases k,
{
    let rows = |i: int| sum(|j: int| f(i, j), m);
    let cols = |j: int| sum(|i: int| f(i, j), k);
    if k <= 0 {
        assert forall|j: int| 0 <= j < m implies #[trigger] cols(j) == T::null() by {}
        lemma_sum_null(cols, m);
    } else {
        let before = |j: int| sum(|i: int| f(i, j), k - 1);
        let last = |j: int| f(k - 1, j);
        lemma_sum_swap(f, k - 1, m);
        lemma_sum_plus(before, last, m);
        let both = |j: int| before(j).plus(last(j));
        assert forall|j: int| 0 <= j < m implies #[trigger] cols(j) == both(j) by {
            let inner = |i: int| f(i, j);
            assert(sum(inner, k) == sum(inner, k - 1).plus(inner(k - 1)));
        }
        lemma_sum_equal(cols, both, m);
        assert(rows(k - 1) == sum(last, m));
    }
}

/// One entry of a matrix-vector product is a sum.
pub proof fn lemma_matvec_sum<T: Scalar>(m: CscModel<T>, x: Seq<T>, i: int, k: int)
    ensures
        matvec(m, x, i, k) == sum(|j: int| dense_entry(m, i, j).times(x[j]), k),
    decreases k,
{
    if k > 0 {
        lemma_matvec_sum(m, x, i, k - 1);
    }
}

/// One entry of a product of two matrices is a sum.
pub proof fn lemma_product_sum<T: Scalar>(l: CscModel<T>, u: CscModel<T>, i: int, j: int, k: int)
    ensures
        product_entry(l, u, i, j, k) == sum(
            |m: int| dense_entry(l, i, m).times(dense_entry(u, m, j)),
            k,
        ),
    decreases k,
{
    if k > 0 {
        lemma_product_sum(l, u, i, j, k - 1);
    }
}

/// Where two sums agree and their terms do, but for one place, they agree there
/// too.
pub proof fn lemma_sum_differs_once<T: Scalar>(
    f: spec_fn(int) -> T,
    g: spec_fn(int) -> T,
    k: int,
    at: int,
)
    requires
        exact_field::<T>(),
        0 <= at < k,
        forall|i: int| 0 <= i < k && i != at ==> #[trigger] f(i) == g(i),
        sum(f, k) == sum(g, k),
    ensures
        f(at) == g(at),
    decreases k,
{
    if k - 1 == at {
        lemma_sum_equal(f, g, at);
        lemma_plus_commutes(sum(f, at), f(at));
        lemma_plus_commutes(sum(g, at), g(at));
        lemma_plus_cancels(f(at), g(at), sum(f, at));
    } else {
        assert(f(k - 1) == g(k - 1));
        lemma_plus_cancels(sum(f, k - 1), sum(g, k - 1), f(k - 1));
        lemma_sum_differs_once(f, g, k - 1, at);
    }
}

/// Conjugation goes into every term.
pub proof fn lemma_conj_sum<T: Scalar>(conj: bool, f: spec_fn(int) -> T, k: int)
    requires
        exact_conjugation::<T>(),
    ensures
        sum(|i: int| conj_if(conj, f(i)), k) == conj_if(conj, sum(f, k)),
    decreases k,
{
    reveal(exact_conjugation);
    if k > 0 {
        lemma_conj_sum(conj, f, k - 1);
        assert(sum(f, k - 1).plus(f(k - 1)).conjugate() == sum(f, k - 1).conjugate().plus(
            f(k - 1).conjugate(),
        ));
    } else {
        assert(sum(|i: int| conj_if(conj, f(i)), k) == T::null());
    }
}

/// A sum over all indices may run through them in any order.
pub proof fn lemma_sum_permuted<T: Scalar>(
    f: spec_fn(int) -> T,
    perm: spec_fn(int) -> int,
    inv: spec_fn(int) -> int,
    n: int,
)
    requires
        exact_field::<T>(),
        forall|k: int| 0 <= k < n ==> 0 <= #[trigger] perm(k) < n && inv(perm(k)) == k,
        forall|c: int| 0 <= c < n ==> 0 <= #[trigger] inv(c) < n && perm(inv(c)) == c,
    ensures
        sum(|k: int| f(perm(k)), n) == sum(f, n),
{
    let cell = |k: int, c: int|
        if perm(k) == c {
            f(c)
        } else {
            T::null()
        };
    let by_row = |k: int| sum(|c: int| cell(k, c), n);
    let by_col = |c: int| sum(|k: int| cell(k, c), n);
    lemma_sum_swap(cell, n, n);
    let g = |k: int| f(perm(k));
    assert forall|k: int| 0 <= k < n implies #[trigger] g(k) == by_row(k) by {
        let row = |c: int| cell(k, c);
        lemma_sum_single(row, n, perm(k));
    }
    lemma_sum_equal(g, by_row, n);
    assert forall|c: int| 0 <= c < n implies #[trigger] f(c) == by_col(c) by {
        let col = |k: int| cell(k, c);
        assert forall|k: int| 0 <= k < n && k != inv(c) implies #[trigger] col(k) == T::null() by {
            if perm(k) == c {
                assert(inv(perm(k)) == k);
            }
        }
        lemma_sum_single(col, n, inv(c));
    }
    lemma_sum_equal(f, by_col, n);
}

/// Summing a column of a sorted matrix in reverse order gives the same.
pub proof fn lemma_dot_rev<T: Scalar>(m: CscModel<T>, conj: bool, x: Seq<T>, lo: int, hi: int)
    requires
        exact_field::<T>(),
        lo <= hi,
    ensures
        dot_rev(m, conj, x, lo, hi) == dot(m, conj, x, lo, hi),
    decreases hi - lo,
{
    if lo < hi {
        lemma_dot_rev(m, conj, x, lo + 1, hi);
        lemma_dot_head(m, conj, x, lo, hi);
        lemma_plus_commutes(dot_term(m, conj, x, lo), dot(m, conj, x, lo + 1, hi));
    }
}

/// The first term of a column sum can be split off.
proof fn lemma_dot_head<T: Scalar>(m: CscModel<T>, conj: bool, x: Seq<T>, lo: int, hi: int)
    requires
        exact_field::<T>(),
        lo < hi,
    ensures
        dot(m, conj, x, lo, hi) == dot_term(m, conj, x, lo).plus(dot(m, conj, x, lo + 1, hi)),
    decreases hi - lo,
{
    let first = dot_term(m, conj, x, lo);
    if lo + 1 == hi {
        assert(dot(m, conj, x, lo, lo) == T::null());
        assert(dot(m, conj, x, lo + 1, hi) == T::null());
        lemma_plus_commutes(T::null(), first);
    } else {
        lemma_dot_head(m, conj, x, lo, hi - 1);
        lemma_plus_associates(
            first,
            dot(m, conj, x, lo + 1, hi - 1),
            dot_term(m, conj, x, hi - 1),
        );
    }
}

/// Summing the stored entries of a sorted column sums its dense entries.
pub proof fn lemma_dot_sum<T: Scalar>(m: CscModel<T>, conj: bool, x: Seq<T>, j: int)
    requires
        exact_field::<T>(),
        exact_conjugation::<T>(),
        m.wf(),
        m.pattern.sorted(),
        0 <= j < m.pattern.ncols,
    ensures
        dot(m, conj, x, m.pattern.start(j), m.pattern.end(j)) == sum(
            |i: int| conj_if(conj, dense_entry(m, i, j)).times(x[i]),
            m.pattern.nrows as int,
        ),
{
    m.pattern.lemma_col_bounds(j);
    let e = m.pattern.end(j);
    if e > m.pattern.start(j) {
        assert(m.pattern.in_col(e - 1, j));
    }
    lemma_dot_partial(m, conj, x, j, e, m.pattern.nrows as int);
}

/// The positions before `p` hold the rows below `r`.
proof fn lemma_dot_partial<T: Scalar>(
    m: CscModel<T>,
    conj: bool,
    x: Seq<T>,
    j: int,
    p: int,
    r: int,
)
    requires
        exact_field::<T>(),
        exact_conjugation::<T>(),
        m.wf(),
        m.pattern.sorted_col(j),
        0 <= j < m.pattern.ncols,
        m.pattern.start(j) <= p <= m.pattern.end(j),
        0 <= r,
        p > m.pattern.start(j) ==> m.pattern.row_idx@[p - 1] < r,
        p < m.pattern.end(j) ==> r <= m.pattern.row_idx@[p],
    ensures
        dot(m, conj, x, m.pattern.start(j), p) == sum(
            |i: int| conj_if(conj, dense_entry(m, i, j)).times(x[i]),
            r,
        ),
    decreases r,
{
    let s = m.pattern.start(j);
    let g = |i: int| conj_if(conj, dense_entry(m, i, j)).times(x[i]);
    m.pattern.lemma_col_bounds(j);
    if r == 0 {
        if p > s {
            assert(m.pattern.row_idx@[p - 1] < r);
        }
    } else if p > s && m.pattern.row_idx@[p - 1] == r - 1 {
        assert(m.pattern.in_col(p - 1, j));
        m.pattern.lemma_find_at(p - 1, j);
        if p - 1 > s {
            assert(m.pattern.row_idx@[p - 2] < m.pattern.row_idx@[p - 1]);
        }
        lemma_dot_partial(m, conj, x, j, p - 1, r - 1);
        assert(g(r - 1) == dot_term(m, conj, x, p - 1));
    } else {
        if m.pattern.has(r - 1, j) {
            m.pattern.lemma_find(r - 1, j);
            let q = m.pattern.find(r - 1, j);
            if q < p - 1 {
                assert(m.pattern.row_idx@[q] < m.pattern.row_idx@[p - 1]);
            } else if q > p {
                assert(m.pattern.row_idx@[p] < m.pattern.row_idx@[q]);
            }
        }
        lemma_dot_partial(m, conj, x, j, p, r - 1);
        reveal(exact_conjugation);
        assert(conj_if(conj, T::null()) == T::null());
        lemma_times_commutes(T::null(), x[r - 1]);
        lemma_null_absorbs(x[r - 1]);
        lemma_null_is_neutral(sum(g, r - 1));
    }
}

/// Terms that are zero from `k` on add nothing.
pub proof fn lemma_sum_tail<T: Scalar>(f: spec_fn(int) -> T, k: int, n: int)
    requires
        exact_field::<T>(),
        0 <= k <= n,
        forall|i: int| k <= i < n ==> #[trigger] f(i) == T::null(),
    ensures
        sum(f, n) == sum(f, k),
    decreases n,
{
    if k < n {
        lemma_sum_tail(f, k, n - 1);
        assert(f(n - 1) == T::null());
        lemma_null_is_neutral(sum(f, n - 1));
    }
}

/// A sum over the listed indices is a sum over all indices in which the unlisted
/// ones count as zero.
pub proof fn lemma_sum_listed<T: Scalar>(f: spec_fn(int) -> T, list: Seq<int>, n: int)
    requires
        exact_field::<T>(),
        list.no_duplicates(),
        forall|k: int| #[trigger] list.contains(k) ==> 0 <= k < n,
    ensures
        sum(|t: int| f(list[t]), list.len() as int) == sum(
            |k: int|
                if list.contains(k) {
                    f(k)
                } else {
                    T::null()
                },
            n,
        ),
{
    let len = list.len() as int;
    let cell = |t: int, k: int|
        if list[t] == k {
            f(k)
        } else {
            T::null()
        };
    let by_row = |t: int| sum(|k: int| cell(t, k), n);
    let by_col = |k: int| sum(|t: int| cell(t, k), len);
    lemma_sum_swap(cell, len, n);
    let g = |t: int| f(list[t]);
    let h = |k: int|
        if list.contains(k) {
            f(k)
        } else {
            T::null()
        };
    assert forall|t: int| 0 <= t < len implies #[trigger] g(t) == by_row(t) by {
        assert(list.contains(list[t]));
        let row = |k: int| cell(t, k);
        lemma_sum_single(row, n, list[t]);
    }
    lemma_sum_equal(g, by_row, len);
    assert forall|k: int| 0 <= k < n implies #[trigger] by_col(k) == h(k) by {
        let col = |t: int| cell(t, k);
        if list.contains(k) {
            let at = list.index_of(k);
            assert forall|t: int| 0 <= t < len && t != at implies #[trigger] col(t) == T::null() by {
                assert(list[t] != list[at]);
            }
            lemma_sum_single(col, len, at);
        } else {
            assert forall|t: int| 0 <= t < len implies #[trigger] col(t) == T::null() by {
                assert(list.contains(list[t]));
            }
            lemma_sum_null(col, len);
        }
    }
    lemma_sum_equal(by_col, h, n);
}

/// Terms that are zero outside a window are summed over the window.
pub proof fn lemma_sum_window<T: Scalar>(f: spec_fn(int) -> T, s: int, e: int, n: int)
    requires
        exact_field::<T>(),
        0 <= s <= e <= n,
        forall|i: int| 0 <= i < n && !(s <= i < e) ==> #[trigger] f(i) == T::null(),
    ensures
        sum(f, n) == sum(|t: int| f(s + t), e - s),
{
    lemma_sum_tail(f, e, n);
    lemma_sum_shifted(f, s, e - s);
}

proof fn lemma_sum_shifted<T: Scalar>(f: spec_fn(int) -> T, s: int, t: int)
    requires
        exact_field::<T>(),
        0 <= s,
        0 <= t,
        forall|i: int| 0 <= i < s ==> #[trigger] f(i) == T::null(),
    ensures
        sum(f, s + t) == sum(|k: int| f(s + k), t),
    decreases t,
{
    if t == 0 {
        lemma_sum_null(f, s);
    } else {
        lemma_sum_shifted(f, s, t - 1);
    }
}

/// Terms that are zero off a list of indices are summed over the list.
pub proof fn lemma_sum_support<T: Scalar>(f: spec_fn(int) -> T, list: Seq<usize>, n: int)
    requires
        exact_field::<T>(),
        list.no_duplicates(),
        forall|t: int| 0 <= t < list.len() ==> (#[trigger] list[t]) < n,
        forall|k: int|
            0 <= k < n && (forall|t: int| 0 <= t < list.len() ==> #[trigger] list[t] != k)
                ==> #[trigger] f(k) == T::null(),
    ensures
        sum(f, n) == sum(|t: int| f(list[t] as int), list.len() as int),
{
    let wide = Seq::new(list.len(), |t: int| list[t] as int);
    assert forall|k: int| #[trigger] wide.contains(k) implies 0 <= k < n by {
        let t = choose|t: int| 0 <= t < wide.len() && wide[t] == k;
        assert(list[t] < n);
    }
    assert(wide.no_duplicates()) by {
        assert forall|x: int, y: int| 0 <= x < wide.len() && 0 <= y < wide.len() && x != y implies
            wide[x] != wide[y] by {
            assert(list[x] != list[y]);
        }
    }
    lemma_sum_listed(f, wide, n);
    let h = |k: int|
        if wide.contains(k) {
            f(k)
        } else {
            T::null()
        };
    assert forall|k: int| 0 <= k < n implies #[trigger] h(k) == f(k) by {
        if !wide.contains(k) {
            assert forall|t: int| 0 <= t < list.len() implies #[trigger] list[t] != k by {
                assert(wide[t] == list[t] as int);
                assert(wide.contains(wide[t]));
            }
        }
    }
    lemma_sum_equal(h, f, n);
    lemma_sum_equal(
        |t: int| f(wide[t]),
        |t: int| f(list[t] as int),
        list.len() as int,
    );
}

} // verus!
