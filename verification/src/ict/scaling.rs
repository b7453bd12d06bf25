//! Scaling the matrix scales the threshold Cholesky factor.
use vstd::prelude::*;

use super::dropping::lemma_norm_over;
use super::numeric::{
    built, col_acc, col_maps, col_norm, column_budget, column_candidates, column_done, columns_done,
    kept_rows, norm_over, pivot_of, source_col, updated, Ict,
};
use super::order::{
    col_scan, fill_scan, lemma_update_members, moved_on, next_row, rows_below, rows_scan,
    source_scan, update_seq, waiting,
};
use super::{IctError, IctParams, RowNorm};
use crate::ilutp::numeric::{named, ranked, value_or_null};
use crate::lengths::{lemma_real_sum_equal, lemma_root_unique, lemma_squares_not_negative, squares};
use crate::lu::dense_entry;
use crate::overlay::overlaid;
use crate::poly::alternation::lemma_both_positive;
use crate::poly::chebyshev::lemma_product_positive;
use crate::poly::differences::{lemma_associates, lemma_commutes};
use crate::poly::laws::lemma_times_minus;
use crate::reading::{
    abs_real, reads_magnitudes, reads_parts, reads_reals, reads_roots, reads_squares, real_sum,
};
use crate::scalar::{
    exact_conjugation, exact_field, exact_negation, lemma_null_absorbs, vanishes, RealScalar,
    Scalar,
};
use crate::scaling::{
    grown, grown_column, lemma_compares, lemma_grown_quotient, lemma_ranked_alike, lemma_square_out,
    lemma_square_scaled, lemma_top_alike,
};
use crate::sparse::CscRef;
use crate::util::gershgorin::lemma_real_sum_times;
use crate::util::select::top;

verus! {

/// Different scalars are read as different numbers.
pub open spec fn reads_apart<R: RealScalar>(v: spec_fn(R) -> real) -> bool {
    forall|r: R, s: R| #[trigger] v(r) == #[trigger] v(s) ==> r == s
}

/// `b` is `a` with every entry multiplied by the square of `t`.
pub open spec fn is_scaled<T: Scalar>(t: T::Real, a: CscRef<'_, T>, b: CscRef<'_, T>) -> bool {
    &&& b.pattern.same_as(*a.pattern)
    &&& a.values@.len() == b.values@.len()
    &&& forall|p: int|
        0 <= p < a.values@.len() ==> #[trigger] b.values@[p] == squared::<T>(t).times(a.values@[p])
}

/// The square of `t`, as an entry.
pub open spec fn squared<T: Scalar>(t: T::Real) -> T {
    T::embed(t).times(T::embed(t))
}

/// Updating a scaled column with scaled columns scales what is left.
proof fn lemma_grown_update<T: Scalar>(
    t: T::Real,
    v: spec_fn(T::Real) -> real,
    src: spec_fn(int) -> Option<T>,
    src2: spec_fn(int) -> Option<T>,
    cols: Seq<Map<int, T>>,
    cols2: Seq<Map<int, T>>,
    ord: Seq<int>,
    j: int,
    k: int,
    i: int,
)
    requires
        exact_field::<T>(),
        exact_conjugation::<T>(),
        exact_negation::<T>(),
        reads_parts::<T>(v),
        k <= ord.len(),
        grown(squared::<T>(t), src(i), src2(i)),
        forall|s: int|
            0 <= s < ord.len() ==> cols[#[trigger] ord[s]].dom().contains(j) && grown_column(
                T::embed(t),
                cols[ord[s]],
                cols2[ord[s]],
            ),
    ensures
        grown(
            squared::<T>(t),
            col_acc(src, cols, ord, j, k, i),
            col_acc(src2, cols2, ord, j, k, i),
        ),
    decreases k,
{
    if k > 0 {
        lemma_grown_update(t, v, src, src2, cols, cols2, ord, j, k - 1, i);
        let e = T::embed(t);
        let ee = squared::<T>(t);
        let m = ord[k - 1];
        assert(grown_column(e, cols[m], cols2[m]));
        if i >= j && cols[m].dom().contains(i) {
            let x = cols[m][i];
            let y = cols[m][j];
            assert(cols2[m][i] == e.times(x));
            assert(cols2[m][j] == e.times(y));
            assert(e.times(y).conjugate() == e.times(y.conjugate())) by {
                reveal(exact_conjugation);
                reveal(reads_parts);
            }
            lemma_square_out(e, x, y.conjugate());
            let upd = x.times(y.conjugate());
            match col_acc(src, cols, ord, j, k - 1, i) {
                Some(z) => {
                    lemma_times_minus(ee, z, upd);
                },
                None => {
                    lemma_null_absorbs(ee);
                    lemma_times_minus(ee, T::null(), upd);
                },
            }
        }
    }
}

/// The next row depends on the rows stored alone.
proof fn lemma_next_alike<T>(x: Map<int, T>, y: Map<int, T>, r: int, n: int)
    requires
        x.dom() == y.dom(),
    ensures
        next_row(x, r, n) == next_row(y, r, n),
    decreases n - r,
{
    if r + 1 < n && !x.dom().contains(r + 1) {
        lemma_next_alike(x, y, r + 1, n);
    }
}

proof fn lemma_moved_alike<T>(
    cols: Seq<Map<int, T>>,
    cols2: Seq<Map<int, T>>,
    ord: Seq<int>,
    j: int,
    r: int,
    n: int,
    t: int,
)
    requires
        t <= ord.len(),
        forall|s: int| 0 <= s < ord.len() ==> cols[#[trigger] ord[s]].dom() == cols2[ord[s]].dom(),
    ensures
        moved_on(cols, ord, j, r, n, t) == moved_on(cols2, ord, j, r, n, t),
    decreases t,
{
    if t > 0 {
        lemma_moved_alike(cols, cols2, ord, j, r, n, t - 1);
        assert(cols[ord[t - 1]].dom() == cols2[ord[t - 1]].dom());
        lemma_next_alike(cols[ord[t - 1]], cols2[ord[t - 1]], j, n);
    }
}

/// What waits depends on the rows stored alone.
proof fn lemma_waiting_alike<T>(
    cols: Seq<Map<int, T>>,
    cols2: Seq<Map<int, T>>,
    n: int,
    j: int,
    r: int,
)
    requires
        0 <= j <= usize::MAX,
        forall|k: int| 0 <= k < j ==> (#[trigger] cols[k]).dom() == cols2[k].dom(),
    ensures
        waiting(cols, n, j, r) == waiting(cols2, n, j, r),
    decreases j,
{
    if j > 0 {
        let k = j - 1;
        lemma_waiting_alike(cols, cols2, n, k, k);
        lemma_waiting_alike(cols, cols2, n, k, r);
        lemma_update_members(cols, n, k);
        let ord = update_seq(cols, n, k);
        assert forall|s: int| 0 <= s < ord.len() implies cols[#[trigger] ord[s]].dom()
            == cols2[ord[s]].dom() by {
            assert(0 <= ord[s] < k);
        }
        lemma_moved_alike(cols, cols2, ord, k, r, n, ord.len() as int);
        lemma_next_alike(cols[k], cols2[k], k, n);
    }
}

/// The next row is one that is stored, where there is one.
proof fn lemma_next_stored<T>(x: Map<int, T>, r: int, n: int)
    ensures
        next_row(x, r, n) < n ==> x.dom().contains(next_row(x, r, n)),
    decreases n - r,
{
    if r + 1 < n && !x.dom().contains(r + 1) {
        lemma_next_stored(x, r + 1, n);
    }
}

proof fn lemma_moved_store<T>(
    cols: Seq<Map<int, T>>,
    ord: Seq<int>,
    j: int,
    r: int,
    n: int,
    t: int,
)
    requires
        t <= ord.len(),
        0 <= r < n,
        forall|s: int| 0 <= s < ord.len() ==> 0 <= #[trigger] ord[s] <= usize::MAX,
    ensures
        forall|x: int|
            0 <= x < moved_on(cols, ord, j, r, n, t).len() ==> cols[(#[trigger] moved_on(
                cols,
                ord,
                j,
                r,
                n,
                t,
            )[x]) as int].dom().contains(r),
    decreases t,
{
    if t > 0 {
        lemma_moved_store(cols, ord, j, r, n, t - 1);
        assert(0 <= ord[t - 1] <= usize::MAX);
        lemma_next_stored(cols[ord[t - 1]], j, n);
        let before = moved_on(cols, ord, j, r, n, t - 1);
        let now = moved_on(cols, ord, j, r, n, t);
        assert forall|x: int| 0 <= x < now.len() implies cols[(#[trigger] now[x]) as int].dom(
        ).contains(r) by {
            if x < before.len() {
                assert(now[x] == before[x]);
            }
        }
    }
}

/// What waits for row `r` stores it.
proof fn lemma_waiting_store<T>(cols: Seq<Map<int, T>>, n: int, j: int, r: int)
    requires
        0 <= j <= usize::MAX,
        0 <= r < n,
    ensures
        forall|x: int|
            0 <= x < waiting(cols, n, j, r).len() ==> cols[(#[trigger] waiting(
                cols,
                n,
                j,
                r,
            )[x]) as int].dom().contains(r),
    decreases j,
{
    if j > 0 {
        let k = j - 1;
        lemma_waiting_store(cols, n, k, r);
        lemma_update_members(cols, n, k);
        let ord = update_seq(cols, n, k);
        lemma_moved_store(cols, ord, k, r, n, ord.len() as int);
        lemma_next_stored(cols[k], k, n);
        let first = waiting(cols, n, k, r);
        let later = moved_on(cols, ord, k, r, n, ord.len() as int);
        let all = waiting(cols, n, j, r);
        assert forall|x: int| 0 <= x < all.len() implies cols[(#[trigger] all[x]) as int].dom(
        ).contains(r) by {
            if x < first.len() {
                assert(all[x] == first[x]);
            } else if x < first.len() + later.len() {
                assert(all[x] == later[x - first.len()]);
            }
        }
    }
}

proof fn lemma_rows_alike<T>(s: Seq<usize>, x: Map<int, T>, y: Map<int, T>, j: int, m: int)
    requires
        x.dom() == y.dom(),
    ensures
        rows_scan(s, x, j, m) == rows_scan(s, y, j, m),
    decreases m - j,
{
    if m > j {
        lemma_rows_alike(s, x, y, j, m - 1);
    }
}

proof fn lemma_fill_alike<T>(
    s: Seq<usize>,
    cols: Seq<Map<int, T>>,
    cols2: Seq<Map<int, T>>,
    ord: Seq<int>,
    j: int,
    n: int,
    t: int,
)
    requires
        t <= ord.len(),
        forall|x: int| 0 <= x < ord.len() ==> cols[#[trigger] ord[x]].dom() == cols2[ord[x]].dom(),
    ensures
        fill_scan(s, cols, ord, j, n, t) == fill_scan(s, cols2, ord, j, n, t),
    decreases t,
{
    if t > 0 {
        lemma_fill_alike(s, cols, cols2, ord, j, n, t - 1);
        assert(cols[ord[t - 1]].dom() == cols2[ord[t - 1]].dom());
        lemma_rows_alike(
            fill_scan(s, cols, ord, j, n, t - 1),
            cols[ord[t - 1]],
            cols2[ord[t - 1]],
            j,
            n,
        );
    }
}

/// The rows met in a column of a scaled matrix, and its entries.
proof fn lemma_grown_source<T: Scalar>(
    t: T::Real,
    a: CscRef<'_, T>,
    b: CscRef<'_, T>,
    i: int,
    j: int,
    p: int,
)
    requires
        exact_field::<T>(),
        a.wf(),
        b.wf(),
        is_scaled(t, a, b),
        0 <= j < a.pattern.ncols,
        a.pattern.start(j) <= p <= a.pattern.end(j),
    ensures
        source_scan(a, j, p) == source_scan(b, j, p),
        overlaid(b, i, j, p) == squared::<T>(t).times(overlaid(a, i, j, p)),
    decreases p,
{
    a.pattern.lemma_col_bounds(j);
    if p > a.pattern.start(j) {
        lemma_grown_source(t, a, b, i, j, p - 1);
        assert(b.values@[p - 1] == squared::<T>(t).times(a.values@[p - 1]));
    } else {
        lemma_null_absorbs(squared::<T>(t));
    }
}

/// The square of `t` has a positive magnitude.
proof fn lemma_squared<T: Scalar>(v: spec_fn(T::Real) -> real, t: T::Real)
    requires
        reads_reals(v),
        reads_magnitudes::<T>(v),
        reads_parts::<T>(v),
        0real < v(t),
    ensures
        v(squared::<T>(t).magnitude()) == v(t) * v(t),
        0real < v(t) * v(t),
        squared::<T>(t) == T::embed(t.times(t)),
        v(t.times(t)) == v(t) * v(t),
{
    lemma_both_positive(v(t), v(t));
    reveal(reads_parts);
    reveal(reads_magnitudes);
    reveal(reads_reals);
    assert(v(T::embed(t).magnitude()) == abs_real(v(t)));
}

/// The norm of a scaled column.
proof fn lemma_grown_norm<T: Scalar>(
    v: spec_fn(T::Real) -> real,
    s: T,
    norm: RowNorm,
    w1: spec_fn(int) -> Option<T>,
    w2: spec_fn(int) -> Option<T>,
    touch: Seq<int>,
)
    requires
        exact_field::<T>(),
        reads_reals(v),
        reads_magnitudes::<T>(v),
        reads_squares::<T>(v),
        reads_roots(v),
        forall|k: int| 0 <= k < touch.len() ==> grown(s, w1(#[trigger] touch[k]), w2(touch[k])),
    ensures
        v(col_norm(norm, w2, touch)) == v(s.magnitude()) * v(col_norm(norm, w1, touch)),
{
    let n = touch.len() as int;
    let c = v(s.magnitude());
    let m1 = |k: int| v(value_or_null(w1(touch[k])).magnitude());
    let m2 = |k: int| v(value_or_null(w2(touch[k])).magnitude());
    lemma_norm_over(v, norm, w1, touch, n);
    lemma_norm_over(v, norm, w2, touch, n);
    assert forall|k: int| 0 <= k < n implies #[trigger] m2(k) == c * m1(k) by {
        assert(grown(s, w1(touch[k]), w2(touch[k])));
        reveal(reads_magnitudes);
        lemma_null_absorbs(s);
        assert(value_or_null(w2(touch[k])) == s.times(value_or_null(w1(touch[k]))));
    }
    if norm is One {
        let h = |k: int| m1(k) * c;
        assert forall|k: int| 0 <= k < n implies #[trigger] m2(k) == h(k) by {
            lemma_commutes(c, m1(k));
        }
        lemma_real_sum_equal(m2, h, n);
        lemma_real_sum_times(m1, c, n);
        lemma_commutes(c, real_sum(m1, n));
    } else {
        let q1 = squares(m1);
        let h = |k: int| q1(k) * (c * c);
        assert forall|k: int| 0 <= k < n implies #[trigger] squares(m2)(k) == h(k) by {
            assert(m2(k) == c * m1(k));
            lemma_square_scaled(c, m1(k));
        }
        lemma_real_sum_equal(squares(m2), h, n);
        lemma_real_sum_times(q1, c * c, n);
        lemma_squares_not_negative(m1, n);
        lemma_squares_not_negative(m2, n);
        let s1 = norm_over(norm, w1, touch, n);
        let s2 = norm_over(norm, w2, touch, n);
        reveal(reads_roots);
        let r1 = v(s1.root());
        let r2 = v(s2.root());
        assert(r1 * r1 == v(s1) && 0real <= r1);
        assert(r2 * r2 == v(s2) && 0real <= r2);
        lemma_square_scaled(c, r1);
        reveal(reads_magnitudes);
        lemma_product_positive(c, r1);
        lemma_root_unique(r2, c * r1);
    }
}

/// A column of the scaled matrix that follows scaled columns starts out scaled, in
/// the same order, and meets the same rows.
proof fn lemma_grown_start<T: Scalar>(
    v: spec_fn(T::Real) -> real,
    t: T::Real,
    a: CscRef<'_, T>,
    b: CscRef<'_, T>,
    cols1: Seq<Map<int, T>>,
    cols2: Seq<Map<int, T>>,
    j: int,
)
    requires
        exact_field::<T>(),
        exact_conjugation::<T>(),
        exact_negation::<T>(),
        reads_reals(v),
        reads_magnitudes::<T>(v),
        reads_parts::<T>(v),
        0real < v(t),
        a.wf(),
        b.wf(),
        is_scaled(t, a, b),
        0 <= j < a.pattern.ncols,
        forall|k: int| 0 <= k < j ==> grown_column(T::embed(t), #[trigger] cols1[k], cols2[k]),
    ensures
        ({
            let n = a.pattern.ncols as int;
            let ord = update_seq(cols1, n, j);
            &&& ord == update_seq(cols2, n, j)
            &&& col_scan(a, cols1, ord, j) == col_scan(b, cols2, ord, j)
            &&& forall|i: int|
                i >= j ==> grown(
                    squared::<T>(t),
                    #[trigger] updated(a, cols1, ord, j)(i),
                    updated(b, cols2, ord, j)(i),
                )
        }),
        v(pivot_of(b, cols2, j)) == (v(t) * v(t)) * v(pivot_of(a, cols1, j)),
{
    let n = a.pattern.ncols as int;
    lemma_waiting_alike(cols1, cols2, n, j, j);
    lemma_update_members(cols1, n, j);
    lemma_waiting_store(cols1, n, j, j);
    let ord = update_seq(cols1, n, j);
    assert forall|s: int| 0 <= s < ord.len() implies cols1[#[trigger] ord[s]].dom().contains(j)
        && grown_column(T::embed(t), cols1[ord[s]], cols2[ord[s]]) by {
        assert(0 <= ord[s] < j);
        assert(ord[s] == waiting(cols1, n, j, j)[ord.len() - 1 - s] as int);
    }
    lemma_fill_alike(
        source_scan(a, j, a.pattern.end(j)),
        cols1,
        cols2,
        ord,
        j,
        n,
        ord.len() as int,
    );
    a.pattern.lemma_col_bounds(j);
    lemma_grown_source(t, a, b, j, j, a.pattern.end(j));
    let src1 = source_col(a, j);
    let src2 = source_col(b, j);
    let w1 = updated(a, cols1, ord, j);
    let w2 = updated(b, cols2, ord, j);
    assert forall|i: int| i >= j implies grown(squared::<T>(t), #[trigger] w1(i), w2(i)) by {
        lemma_grown_source(t, a, b, i, j, a.pattern.end(j));
        lemma_has_alike(a, b, i, j);
        lemma_grown_update(t, v, src1, src2, cols1, cols2, ord, j, ord.len() as int, i);
    }
    assert(grown(squared::<T>(t), w1(j), w2(j)));
    lemma_squared::<T>(v, t);
    lemma_null_absorbs(squared::<T>(t));
    let x = value_or_null(w1(j));
    assert(value_or_null(w2(j)) == squared::<T>(t).times(x));
    reveal(reads_parts);
    assert(v(T::embed(t.times(t)).times(x).real_part()) == v(t.times(t)) * v(x.real_part()));
}

/// The same pattern has the same entries.
proof fn lemma_has_alike<T: Scalar>(a: CscRef<'_, T>, b: CscRef<'_, T>, i: int, j: int)
    requires
        b.pattern.same_as(*a.pattern),
    ensures
        a.pattern.has(i, j) == b.pattern.has(i, j),
{
    assert forall|p: int| a.pattern.in_col(p, j) == #[trigger] b.pattern.in_col(p, j) by {}
    if a.pattern.has(i, j) {
        let p = choose|p: int| #[trigger] a.pattern.in_col(p, j) && a.pattern.row_idx@[p] == i;
        assert(b.pattern.in_col(p, j));
    }
    if b.pattern.has(i, j) {
        let p = choose|p: int| #[trigger] b.pattern.in_col(p, j) && b.pattern.row_idx@[p] == i;
        assert(a.pattern.in_col(p, j));
    }
}

/// The root of a pivot scaled by the square of `t` is the root scaled by `t`.
proof fn lemma_grown_root<T: Scalar>(
    v: spec_fn(T::Real) -> real,
    t: T::Real,
    r1: T::Real,
    r2: T::Real,
)
    requires
        reads_reals(v),
        reads_roots(v),
        reads_apart(v),
        reads_magnitudes::<T>(v),
        reads_parts::<T>(v),
        0real < v(t),
        0real < v(r1),
        v(r2) == (v(t) * v(t)) * v(r1),
    ensures
        T::embed(r2.root()) == T::embed(t).times(T::embed(r1.root())),
        !vanishes(T::embed(r1.root())),
        !vanishes(T::embed(r2.root())),
{
    let x = v(r1.root());
    let y = v(r2.root());
    lemma_both_positive(v(t), v(t));
    lemma_both_positive(v(t) * v(t), v(r1));
    assert(0real <= x && x * x == v(r1) && 0real <= y && y * y == v(r2)) by {
        reveal(reads_roots);
    }
    lemma_square_scaled(v(t), x);
    lemma_commutes(x * x, v(t) * v(t));
    lemma_product_positive(v(t), x);
    lemma_root_unique(y, v(t) * x);
    assert(r2.root() == t.times(r1.root())) by {
        reveal(reads_reals);
        assert(v(t.times(r1.root())) == v(r2.root()));
    }
    if x == 0real {
        assert(x * x == 0real) by (nonlinear_arith)
            requires
                x == 0real,
        ;
    }
    lemma_both_positive(v(t), x);
    reveal(reads_parts);
    reveal(reads_magnitudes);
    reveal(reads_reals);
    assert(v(T::embed(r1.root()).magnitude()) == abs_real(x));
    assert(v(T::embed(r2.root()).magnitude()) == abs_real(y));
}

/// The columns of the scaled matrix are those of the matrix, scaled.
#[verifier::rlimit(40)]
proof fn lemma_grown_columns<T: Scalar>(
    v: spec_fn(T::Real) -> real,
    t: T::Real,
    a: CscRef<'_, T>,
    b: CscRef<'_, T>,
    params: IctParams<T::Tuning>,
    cols1: Seq<Map<int, T>>,
    cols2: Seq<Map<int, T>>,
    j: int,
)
    requires
        exact_field::<T>(),
        exact_conjugation::<T>(),
        exact_negation::<T>(),
        reads_reals(v),
        reads_magnitudes::<T>(v),
        reads_squares::<T>(v),
        reads_roots(v),
        reads_parts::<T>(v),
        reads_apart(v),
        0real < v(t),
        a.wf(),
        b.wf(),
        is_scaled(t, a, b),
        0 <= j <= a.pattern.ncols,
        columns_done(a, params, cols1, j),
        columns_done(b, params, cols2, j),
    ensures
        forall|k: int| 0 <= k < j ==> grown_column(T::embed(t), #[trigger] cols1[k], cols2[k]),
    decreases j,
{
    if j > 0 {
        let k = j - 1;
        let n = a.pattern.ncols as int;
        assert forall|m: int| 0 <= m < k implies #[trigger] column_done(a, params, cols1, m) by {}
        assert forall|m: int| 0 <= m < k implies #[trigger] column_done(b, params, cols2, m) by {}
        lemma_grown_columns(v, t, a, b, params, cols1, cols2, k);
        lemma_grown_start(v, t, a, b, cols1, cols2, k);
        lemma_grown_column(v, t, a, b, params, cols1, cols2, k);
    }
}

/// Column `k` of the scaled matrix, after columns that are scaled.
#[verifier::rlimit(40)]
proof fn lemma_grown_column<T: Scalar>(
    v: spec_fn(T::Real) -> real,
    t: T::Real,
    a: CscRef<'_, T>,
    b: CscRef<'_, T>,
    params: IctParams<T::Tuning>,
    cols1: Seq<Map<int, T>>,
    cols2: Seq<Map<int, T>>,
    k: int,
)
    requires
        exact_field::<T>(),
        exact_conjugation::<T>(),
        exact_negation::<T>(),
        reads_reals(v),
        reads_magnitudes::<T>(v),
        reads_squares::<T>(v),
        reads_roots(v),
        reads_parts::<T>(v),
        reads_apart(v),
        0real < v(t),
        a.wf(),
        b.wf(),
        is_scaled(t, a, b),
        0 <= k < a.pattern.ncols,
        forall|m: int| 0 <= m < k ==> grown_column(T::embed(t), #[trigger] cols1[m], cols2[m]),
        column_done(a, params, cols1, k),
        column_done(b, params, cols2, k),
    ensures
        grown_column(T::embed(t), cols1[k], cols2[k]),
{
    let n = a.pattern.ncols as int;
    let e = T::embed(t);
    let ee = squared::<T>(t);
    let c = v(t) * v(t);
    lemma_grown_start(v, t, a, b, cols1, cols2, k);
    lemma_squared::<T>(v, t);
    let ord = update_seq(cols1, n, k);
    let seen = col_scan(a, cols1, ord, k);
    let touch = rows_below(seen, k);
    let w1 = updated(a, cols1, ord, k);
    let w2 = updated(b, cols2, ord, k);
    let p = column_budget(params, a.pattern.row_idx@.len(), a.pattern.ncols as nat);
    let r1 = pivot_of(a, cols1, k);
    let r2 = pivot_of(b, cols2, k);
    assert(0real < v(r1)) by {
        reveal(reads_reals);
    }
    lemma_grown_root::<T>(v, t, r1, r2);
    assert forall|s: int| 0 <= s < touch.len() implies grown(
        ee,
        w1(#[trigger] touch[s]),
        w2(touch[s]),
    ) by {
        assert(touch.contains(touch[s]));
    }
    lemma_grown_norm(v, ee, params.norm, w1, w2, touch);
    let tol = T::tuned(params.drop_tol);
    let n1 = col_norm(params.norm, w1, touch);
    let n2 = col_norm(params.norm, w2, touch);
    let tau1 = tol.times(n1);
    let tau2 = tol.times(n2);
    assert(v(tau2) == c * v(tau1)) by {
        reveal(reads_reals);
        lemma_associates(v(tol), c, v(n1));
        lemma_commutes(v(tol), c);
        lemma_associates(c, v(tol), v(n1));
    }
    let cand1 = column_candidates(w1, tau1, k);
    let cand2 = column_candidates(w2, tau2, k);
    assert forall|i: int| grown(ee, #[trigger] cand1(i), cand2(i)) by {
        if i > k {
            assert(grown(ee, w1(i), w2(i)));
            if let Some(x) = w1(i) {
                reveal(reads_magnitudes);
                reveal(reads_reals);
                let m = v(x.magnitude());
                assert(v(ee.times(x).magnitude()) == c * m);
                lemma_compares(c, m, v(tau1));
            }
        }
    }
    assert forall|s: int| 0 <= s < seen.len() implies grown(
        ee,
        cand1((#[trigger] seen[s]) as int),
        cand2(seen[s] as int),
    ) by {}
    lemma_ranked_alike(v, ee, cand1, cand2, seen);
    let q1 = ranked(cand1, seen);
    let q2 = ranked(cand2, seen);
    lemma_top_alike(v, c, q1, q2, p);
    let top1 = top(q1, p);
    let top2 = top(q2, p);
    assert forall|i: int| named(top1, i) <==> #[trigger] named(top2, i) by {
        if named(top1, i) {
            let s = choose|s: int| 0 <= s < top1.len() && (#[trigger] top1[s]).1 == i;
            assert(top2[s].1 == top1[s].1);
        }
        if named(top2, i) {
            let s = choose|s: int| 0 <= s < top2.len() && (#[trigger] top2[s]).1 == i;
            assert(top2[s].1 == top1[s].1);
        }
    }
    let kept1 = kept_rows(cols1[k], w1, k);
    let kept2 = kept_rows(cols2[k], w2, k);
    assert forall|i: int| #[trigger] cols1[k].dom().contains(i) <==> cols2[k].dom().contains(i) by {
        assert(kept1.dom().contains(i) <==> i != k && cols1[k].dom().contains(i));
        assert(kept2.dom().contains(i) <==> i != k && cols2[k].dom().contains(i));
        assert(kept1.dom().contains(i) <==> named(top1, i));
        assert(kept2.dom().contains(i) <==> named(top2, i));
    }
    assert(cols1[k].dom() =~= cols2[k].dom());
    assert forall|i: int| #[trigger] cols1[k].dom().contains(i) implies cols2[k][i] == e.times(
        cols1[k][i],
    ) by {
        assert(cols2[k].dom().contains(i));
        if i != k {
            assert(kept1.dom().contains(i));
            assert(cand1(i) is Some);
            assert(i > k);
            assert(grown(ee, w1(i), w2(i)));
            lemma_grown_quotient(e, value_or_null(w1(i)), T::embed(r1.root()));
        }
    }
}

/// In exact arithmetic the factor of a matrix scaled by `t^2`, for a positive `t`,
/// stores what the factor of the matrix stores, scaled by `t`: what is dropped does
/// not depend on the scale. Both factorisations succeed, or neither does.
pub proof fn law_scales<T: Scalar>(
    v: spec_fn(T::Real) -> real,
    t: T::Real,
    a: CscRef<'_, T>,
    b: CscRef<'_, T>,
    params: IctParams<T::Tuning>,
    r: Result<Ict<T>, IctError>,
    s: Result<Ict<T>, IctError>,
)
    requires
        exact_field::<T>(),
        exact_conjugation::<T>(),
        exact_negation::<T>(),
        reads_reals(v),
        reads_magnitudes::<T>(v),
        reads_squares::<T>(v),
        reads_roots(v),
        reads_parts::<T>(v),
        reads_apart(v),
        0real < v(t),
        a.wf(),
        b.wf(),
        is_scaled(t, a, b),
        built(a, params, r),
        built(b, params, s),
    ensures
        r is Ok <==> s is Ok,
        r is Ok ==> forall|i: int, j: int|
            0 <= i < a.pattern.ncols && 0 <= j < a.pattern.ncols ==> #[trigger] r->Ok_0.l.has(i, j)
                == s->Ok_0.l.has(i, j) && dense_entry(s->Ok_0.l_model(), i, j) == T::embed(t).times(
                dense_entry(r->Ok_0.l_model(), i, j),
            ),
{
    let n = a.pattern.ncols as int;
    if params.drop_tol_ok() && params.fill_ok() && a.pattern.nrows == a.pattern.ncols {
        match r {
            Ok(f) => {
                let x = col_maps(f.l, f.l_values@);
                match s {
                    Ok(g) => {
                        let y = col_maps(g.l, g.l_values@);
                        lemma_grown_columns(v, t, a, b, params, x, y, n);
                        assert forall|i: int, j: int|
                            0 <= i < a.pattern.ncols && 0 <= j
                                < a.pattern.ncols implies #[trigger] f.l.has(i, j) == g.l.has(i, j)
                            && dense_entry(g.l_model(), i, j) == T::embed(t).times(
                            dense_entry(f.l_model(), i, j),
                        ) by {
                            assert(grown_column(T::embed(t), x[j], y[j]));
                            assert(x[j].dom().contains(i) <==> f.l.has(i, j));
                            assert(y[j].dom().contains(i) <==> g.l.has(i, j));
                            lemma_null_absorbs(T::embed(t));
                        }
                    },
                    Err(e) => {
                        let col = e->col as int;
                        let y = choose|y: Seq<Map<int, T>>|
                            {
                                &&& #[trigger] columns_done(b, params, y, col)
                                &&& !T::Real::null().below(pivot_of(b, y, col))
                            };
                        lemma_stuck_both(v, t, a, b, params, x, y, col);
                        assert(column_done(a, params, x, col));
                    },
                }
            },
            Err(e) => {
                if let Ok(g) = s {
                    let y = col_maps(g.l, g.l_values@);
                    let col = e->col as int;
                    let x = choose|x: Seq<Map<int, T>>|
                        {
                            &&& #[trigger] columns_done(a, params, x, col)
                            &&& !T::Real::null().below(pivot_of(a, x, col))
                        };
                    lemma_stuck_both(v, t, a, b, params, x, y, col);
                    assert(column_done(b, params, y, col));
                }
            },
        }
    }
}

/// The pivots that two factorisations reach have the same sign.
proof fn lemma_stuck_both<T: Scalar>(
    v: spec_fn(T::Real) -> real,
    t: T::Real,
    a: CscRef<'_, T>,
    b: CscRef<'_, T>,
    params: IctParams<T::Tuning>,
    x: Seq<Map<int, T>>,
    y: Seq<Map<int, T>>,
    j: int,
)
    requires
        exact_field::<T>(),
        exact_conjugation::<T>(),
        exact_negation::<T>(),
        reads_reals(v),
        reads_magnitudes::<T>(v),
        reads_squares::<T>(v),
        reads_roots(v),
        reads_parts::<T>(v),
        reads_apart(v),
        0real < v(t),
        a.wf(),
        b.wf(),
        is_scaled(t, a, b),
        0 <= j < a.pattern.ncols,
        forall|k: int| 0 <= k < j ==> #[trigger] column_done(a, params, x, k),
        forall|k: int| 0 <= k < j ==> #[trigger] column_done(b, params, y, k),
    ensures
        T::Real::null().below(pivot_of(a, x, j)) <==> T::Real::null().below(pivot_of(b, y, j)),
{
    lemma_grown_columns(v, t, a, b, params, x, y, j);
    lemma_grown_start(v, t, a, b, x, y, j);
    lemma_both_positive(v(t), v(t));
    lemma_compares(v(t) * v(t), 0real, v(pivot_of(a, x, j)));
    assert((v(t) * v(t)) * 0real == 0real) by (nonlinear_arith);
    reveal(reads_reals);
}

} // verus!
