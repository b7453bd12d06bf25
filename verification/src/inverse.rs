//! When the factors multiply to a matrix, applying them inverts it.
use crate::dense::Mat;
use crate::linalg::{
    lemma_solve_lengths, lower_diag_ok, lower_solve, upper_diag_ok, upper_transpose_solve,
};
use crate::lu::{
    dense_entry, l_col_done, law_product_on_pattern, lemma_factor_entries, lemma_lower_col,
    lemma_upper_col, lower_ok, lu_cols_done, lu_has, pivots_ok, product_entry, u_col_done,
    upper_entry, upper_ok,
};
use crate::op::Op;
use crate::scalar::{
    conj_if, exact_conjugation, exact_field, lemma_conj_if_inverts, lemma_null_absorbs,
    lemma_times_associates, lemma_times_cancels, lemma_times_commutes, lemma_unit_is_neutral,
    vanishes, Scalar,
};
use crate::sparse::{stored, CscModel, CscPattern};
use crate::sums::{
    lemma_conj_sum, lemma_dot_rev, lemma_dot_sum, lemma_matvec_sum, lemma_product_sum,
    lemma_sum_differs_once, lemma_sum_equal, lemma_sum_null, lemma_sum_single, lemma_sum_swap,
    lemma_sum_times, lemma_times_sum, sum,
};
use crate::triangular::{
    law_llh_inverts, law_lu_inverts, law_lu_transpose_inverts, llh_action, lower_transpose_times,
    lu_action, times_vector, upper_transpose_times,
};
use vstd::prelude::*;

verus! {

/// The product of a dense square matrix with `x`.
pub open spec fn dense_times<T: Scalar>(a: spec_fn(int, int) -> T, x: Seq<T>) -> Seq<T> {
    Seq::new(x.len(), |i: int| sum(|j: int| a(i, j).times(x[j]), x.len() as int))
}

/// The transpose of `a`, conjugated where `conj` is set.
pub open spec fn transposed<T: Scalar>(
    a: spec_fn(int, int) -> T,
    conj: bool,
) -> spec_fn(int, int) -> T {
    |i: int, j: int| conj_if(conj, a(j, i))
}

/// Row `r` of `s` times the vector `x`.
pub open spec fn row_times<T: Scalar>(s: Mat<T>, x: Seq<T>, r: int) -> T {
    sum(|c: int| s.at(r, c).times(x[c]), s.ncols as int)
}

/// `s y = e`.
pub open spec fn is_solution<T: Scalar>(s: Mat<T>, e: Mat<T>, y: Seq<T>) -> bool {
    &&& y.len() == s.ncols
    &&& forall|r: int| 0 <= r < s.nrows ==> #[trigger] row_times(s, y, r) == e.at(r, 0)
}

/// `L U = A`.
pub open spec fn lu_is<T: Scalar>(
    l: CscModel<T>,
    u: CscModel<T>,
    a: spec_fn(int, int) -> T,
    n: int,
) -> bool {
    forall|i: int, j: int|
        0 <= i < n && 0 <= j < n ==> #[trigger] product_entry(l, u, i, j, n) == a(i, j)
}

/// The product of a factor with a vector is a dense product.
pub proof fn lemma_times_vector<T: Scalar>(m: CscModel<T>, x: Seq<T>)
    ensures
        times_vector(m, x) == dense_times(|i: int, j: int| dense_entry(m, i, j), x),
{
    let a = |i: int, j: int| dense_entry(m, i, j);
    assert forall|i: int| 0 <= i < x.len() implies #[trigger] times_vector(m, x)[i]
        == dense_times(a, x)[i] by {
        lemma_matvec_sum(m, x, i, x.len() as int);
        lemma_sum_equal(
            |j: int| dense_entry(m, i, j).times(x[j]),
            |j: int| a(i, j).times(x[j]),
            x.len() as int,
        );
    }
    assert(times_vector(m, x) =~= dense_times(a, x));
}

/// A product of two matrices is applied by applying one after the other.
pub proof fn lemma_compose<T: Scalar>(
    p: spec_fn(int, int) -> T,
    q: spec_fn(int, int) -> T,
    a: spec_fn(int, int) -> T,
    x: Seq<T>,
)
    requires
        exact_field::<T>(),
        forall|i: int, j: int|
            0 <= i < x.len() && 0 <= j < x.len() ==> #[trigger] a(i, j) == sum(
                |m: int| p(i, m).times(q(m, j)),
                x.len() as int,
            ),
    ensures
        dense_times(p, dense_times(q, x)) == dense_times(a, x),
{
    let n = x.len() as int;
    let y = dense_times(q, x);
    assert forall|i: int| 0 <= i < n implies #[trigger] dense_times(p, y)[i] == dense_times(
        a,
        x,
    )[i] by {
        let cell = |m: int, j: int| p(i, m).times(q(m, j)).times(x[j]);
        let rows = |m: int| sum(|j: int| cell(m, j), n);
        let cols = |j: int| sum(|m: int| cell(m, j), n);
        let left = |m: int| p(i, m).times(y[m]);
        let right = |j: int| a(i, j).times(x[j]);
        assert forall|m: int| 0 <= m < n implies #[trigger] left(m) == rows(m) by {
            let inner = |j: int| q(m, j).times(x[j]);
            lemma_times_sum(p(i, m), inner, n);
            let scaled = |j: int| p(i, m).times(inner(j));
            let flat = |j: int| cell(m, j);
            assert forall|j: int| 0 <= j < n implies #[trigger] scaled(j) == flat(j) by {
                lemma_times_associates(p(i, m), q(m, j), x[j]);
            }
            lemma_sum_equal(scaled, flat, n);
        }
        lemma_sum_equal(left, rows, n);
        lemma_sum_swap(cell, n, n);
        assert forall|j: int| 0 <= j < n implies #[trigger] cols(j) == right(j) by {
            let inner = |m: int| p(i, m).times(q(m, j));
            lemma_sum_times(inner, x[j], n);
            let flat = |m: int| cell(m, j);
            let scaled = |m: int| inner(m).times(x[j]);
            lemma_sum_equal(flat, scaled, n);
            assert(a(i, j) == sum(inner, n));
        }
        lemma_sum_equal(cols, right, n);
    }
    assert(dense_times(p, y) =~= dense_times(a, x));
}

/// The identity changes nothing.
pub proof fn lemma_identity<T: Scalar>(id: spec_fn(int, int) -> T, x: Seq<T>)
    requires
        exact_field::<T>(),
        forall|i: int, j: int|
            0 <= i < x.len() && 0 <= j < x.len() ==> #[trigger] id(i, j) == if i == j {
                T::unit()
            } else {
                T::null()
            },
    ensures
        dense_times(id, x) == x,
{
    let n = x.len() as int;
    assert forall|i: int| 0 <= i < n implies #[trigger] dense_times(id, x)[i] == x[i] by {
        let f = |j: int| id(i, j).times(x[j]);
        assert forall|j: int| 0 <= j < n && j != i implies #[trigger] f(j) == T::null() by {
            lemma_times_commutes(T::null(), x[j]);
            lemma_null_absorbs(x[j]);
        }
        lemma_sum_single(f, n, i);
        lemma_times_commutes(T::unit(), x[i]);
        lemma_unit_is_neutral(x[i]);
    }
    assert(dense_times(id, x) =~= x);
}

/// Applying `L` after `U` is applying `L U`.
proof fn lemma_lu_times<T: Scalar>(
    l: CscModel<T>,
    u: CscModel<T>,
    a: spec_fn(int, int) -> T,
    x: Seq<T>,
)
    requires
        exact_field::<T>(),
        lu_is(l, u, a, x.len() as int),
    ensures
        times_vector(l, times_vector(u, x)) == dense_times(a, x),
{
    let n = x.len() as int;
    let p = |i: int, j: int| dense_entry(l, i, j);
    let q = |i: int, j: int| dense_entry(u, i, j);
    lemma_times_vector(u, x);
    lemma_times_vector(l, times_vector(u, x));
    assert forall|i: int, j: int| 0 <= i < n && 0 <= j < n implies #[trigger] a(i, j) == sum(
        |m: int| p(i, m).times(q(m, j)),
        n,
    ) by {
        assert(product_entry(l, u, i, j, n) == a(i, j));
        lemma_product_sum(l, u, i, j, n);
        lemma_sum_equal(
            |m: int| dense_entry(l, i, m).times(dense_entry(u, m, j)),
            |m: int| p(i, m).times(q(m, j)),
            n,
        );
    }
    lemma_compose(p, q, a, x);
}

/// In exact arithmetic, where `L U = A` the LU action is a right inverse of `A`:
/// `A (M^{-1} x) = x`.
pub proof fn law_lu_solves<T: Scalar>(
    l: CscModel<T>,
    u: CscModel<T>,
    a: spec_fn(int, int) -> T,
    x: Seq<T>,
)
    requires
        exact_field::<T>(),
        l.wf(),
        u.wf(),
        lower_ok(l.pattern, x.len() as int),
        upper_ok(u.pattern, x.len() as int),
        lower_diag_ok(l, true, x.len() as int),
        upper_diag_ok(u, x.len() as int),
        lu_is(l, u, a, x.len() as int),
    ensures
        dense_times(a, lu_action(l, u, Op::Apply, x)) == x,
{
    let y = lu_action(l, u, Op::Apply, x);
    let z = lower_solve(l, true, false, x, x.len() as int);
    lemma_solve_lengths(l, u, true, false, x);
    lemma_solve_lengths(l, u, true, false, z);
    law_lu_inverts(l, u, x);
    lemma_lu_times(l, u, a, y);
}

/// Two vectors with the same image under a lower triangular factor are equal.
pub proof fn lemma_lower_injective<T: Scalar>(
    l: CscModel<T>,
    unit: bool,
    s: Seq<T>,
    z: Seq<T>,
    i: int,
)
    requires
        exact_field::<T>(),
        l.wf(),
        s.len() == z.len(),
        lower_ok(l.pattern, s.len() as int),
        lower_diag_ok(l, unit, s.len() as int),
        times_vector(l, s) == times_vector(l, z),
        0 <= i <= s.len(),
    ensures
        forall|k: int| 0 <= k < i ==> #[trigger] s[k] == z[k],
    decreases i,
{
    if i > 0 {
        let n = s.len() as int;
        let r = i - 1;
        lemma_lower_injective(l, unit, s, z, r);
        let f = |j: int| dense_entry(l, r, j).times(s[j]);
        let g = |j: int| dense_entry(l, r, j).times(z[j]);
        assert(times_vector(l, s)[r] == times_vector(l, z)[r]);
        lemma_matvec_sum(l, s, r, n);
        lemma_matvec_sum(l, z, r, n);
        assert(sum(f, n) == times_vector(l, s)[r]);
        assert(sum(g, n) == times_vector(l, z)[r]);
        assert forall|j: int| 0 <= j < n && j != r implies #[trigger] f(j) == g(j) by {
            if j < r {
                assert(s[j] == z[j]);
            } else {
                if l.pattern.has(r, j) {
                    l.pattern.lemma_find(r, j);
                    lemma_lower_col(l.pattern, n, l.pattern.find(r, j), j);
                }
                lemma_times_commutes(T::null(), s[j]);
                lemma_times_commutes(T::null(), z[j]);
                lemma_null_absorbs(s[j]);
                lemma_null_absorbs(z[j]);
            }
        }
        lemma_sum_differs_once(f, g, n, r);
        let p = l.pattern.start(r);
        assert(l.pattern.start(r) < l.pattern.end(r) && l.pattern.row_idx@[p] == r);
        assert(l.pattern.sorted_col(r));
        l.pattern.lemma_find_at(p, r);
        let d = l.values[p];
        assert(dense_entry(l, r, r) == d);
        if unit {
            lemma_times_commutes(d, s[r]);
            lemma_times_commutes(d, z[r]);
            lemma_unit_is_neutral(s[r]);
            lemma_unit_is_neutral(z[r]);
        } else {
            lemma_times_cancels(d, s[r], z[r]);
        }
    }
}

/// Two vectors with the same image under an upper triangular factor are equal.
pub proof fn lemma_upper_injective<T: Scalar>(u: CscModel<T>, s: Seq<T>, z: Seq<T>, i: int)
    requires
        exact_field::<T>(),
        u.wf(),
        s.len() == z.len(),
        upper_ok(u.pattern, s.len() as int),
        upper_diag_ok(u, s.len() as int),
        times_vector(u, s) == times_vector(u, z),
        0 <= i <= s.len(),
    ensures
        forall|k: int| i <= k < s.len() ==> #[trigger] s[k] == z[k],
    decreases s.len() - i,
{
    let n = s.len() as int;
    if i < n {
        lemma_upper_injective(u, s, z, i + 1);
        let f = |j: int| dense_entry(u, i, j).times(s[j]);
        let g = |j: int| dense_entry(u, i, j).times(z[j]);
        assert(times_vector(u, s)[i] == times_vector(u, z)[i]);
        lemma_matvec_sum(u, s, i, n);
        lemma_matvec_sum(u, z, i, n);
        assert(sum(f, n) == times_vector(u, s)[i]);
        assert(sum(g, n) == times_vector(u, z)[i]);
        assert forall|j: int| 0 <= j < n && j != i implies #[trigger] f(j) == g(j) by {
            if j > i {
                assert(s[j] == z[j]);
            } else {
                if u.pattern.has(i, j) {
                    u.pattern.lemma_find(i, j);
                    lemma_upper_col(u.pattern, n, u.pattern.find(i, j), j);
                }
                lemma_times_commutes(T::null(), s[j]);
                lemma_times_commutes(T::null(), z[j]);
                lemma_null_absorbs(s[j]);
                lemma_null_absorbs(z[j]);
            }
        }
        lemma_sum_differs_once(f, g, n, i);
        let p = u.pattern.end(i) - 1;
        assert(u.pattern.start(i) < u.pattern.end(i));
        lemma_upper_col(u.pattern, n, p, i);
        assert(u.pattern.sorted_col(i));
        u.pattern.lemma_find_at(p, i);
        let d = u.values[p];
        assert(dense_entry(u, i, i) == d);
        lemma_times_cancels(d, s[i], z[i]);
    }
}

/// In exact arithmetic, where `L U = A` the LU action is a left inverse of `A`:
/// `M^{-1} (A x) = x`.
pub proof fn law_lu_recovers<T: Scalar>(
    l: CscModel<T>,
    u: CscModel<T>,
    a: spec_fn(int, int) -> T,
    x: Seq<T>,
)
    requires
        exact_field::<T>(),
        l.wf(),
        u.wf(),
        lower_ok(l.pattern, x.len() as int),
        upper_ok(u.pattern, x.len() as int),
        lower_diag_ok(l, true, x.len() as int),
        upper_diag_ok(u, x.len() as int),
        lu_is(l, u, a, x.len() as int),
    ensures
        lu_action(l, u, Op::Apply, dense_times(a, x)) == x,
{
    let n = x.len() as int;
    let b = dense_times(a, x);
    let y = lu_action(l, u, Op::Apply, b);
    let z = lower_solve(l, true, false, b, n);
    lemma_solve_lengths(l, u, true, false, b);
    lemma_solve_lengths(l, u, true, false, z);
    law_lu_inverts(l, u, b);
    lemma_lu_times(l, u, a, x);
    let uy = times_vector(u, y);
    let ux = times_vector(u, x);
    lemma_lower_injective(l, true, uy, ux, n);
    assert(uy =~= ux);
    lemma_upper_injective(u, y, x, 0);
    assert(y =~= x);
}

/// Nothing, conjugated or not, times `x` is nothing.
proof fn lemma_nothing_times<T: Scalar>(conj: bool, x: T)
    requires
        exact_field::<T>(),
        exact_conjugation::<T>(),
    ensures
        conj_if(conj, T::null()).times(x) == T::null(),
{
    reveal(exact_conjugation);
    lemma_times_commutes(T::null(), x);
    lemma_null_absorbs(x);
}

/// One, conjugated or not, times `x` is `x`.
proof fn lemma_unit_factor<T: Scalar>(conj: bool, x: T)
    requires
        exact_field::<T>(),
        exact_conjugation::<T>(),
    ensures
        conj_if(conj, T::unit()).times(x) == x,
{
    reveal(exact_conjugation);
    lemma_times_commutes(T::unit(), x);
    lemma_unit_is_neutral(x);
}

/// A common factor that does not vanish can be dropped, conjugated or not.
proof fn lemma_conj_factor_cancels<T: Scalar>(conj: bool, d: T, x: T, y: T)
    requires
        exact_field::<T>(),
        exact_conjugation::<T>(),
        !vanishes(d),
        conj_if(conj, d).times(x) == conj_if(conj, d).times(y),
    ensures
        x == y,
{
    lemma_conj_if_inverts(conj, d);
    let c = conj_if(conj, d);
    let r = conj_if(conj, d.reciprocal());
    lemma_times_associates(r, c, x);
    lemma_times_associates(r, c, y);
    lemma_times_commutes(T::unit(), x);
    lemma_times_commutes(T::unit(), y);
    lemma_unit_is_neutral(x);
    lemma_unit_is_neutral(y);
}

/// The product of the transpose of a lower triangular factor with a vector is a
/// dense product.
pub proof fn lemma_lower_transpose_times<T: Scalar>(l: CscModel<T>, conj: bool, x: Seq<T>)
    requires
        exact_field::<T>(),
        exact_conjugation::<T>(),
        l.wf(),
        lower_ok(l.pattern, x.len() as int),
    ensures
        lower_transpose_times(l, conj, x) == dense_times(
            transposed(|i: int, j: int| dense_entry(l, i, j), conj),
            x,
        ),
{
    let n = x.len() as int;
    let q = transposed(|i: int, j: int| dense_entry(l, i, j), conj);
    let lx = lower_transpose_times(l, conj, x);
    assert forall|j: int| 0 <= j < n implies #[trigger] lx[j] == dense_times(q, x)[j] by {
        l.pattern.lemma_col_bounds(j);
        lemma_dot_rev(l, conj, x, l.pattern.start(j), l.pattern.end(j));
        lemma_dot_sum(l, conj, x, j);
        lemma_sum_equal(
            |i: int| conj_if(conj, dense_entry(l, i, j)).times(x[i]),
            |i: int| q(j, i).times(x[i]),
            n,
        );
    }
    assert(lx =~= dense_times(q, x));
}

/// Applying `U^T` after `L^T` is applying `(L U)^T`.
proof fn lemma_lu_transpose_times<T: Scalar>(
    l: CscModel<T>,
    u: CscModel<T>,
    a: spec_fn(int, int) -> T,
    conj: bool,
    y: Seq<T>,
)
    requires
        exact_field::<T>(),
        exact_conjugation::<T>(),
        l.wf(),
        u.wf(),
        lower_ok(l.pattern, y.len() as int),
        upper_ok(u.pattern, y.len() as int),
        lu_is(l, u, a, y.len() as int),
    ensures
        upper_transpose_times(u, conj, lower_transpose_times(l, conj, y)) == dense_times(
            transposed(a, conj),
            y,
        ),
{
    let n = y.len() as int;
    let le = |i: int, j: int| dense_entry(l, i, j);
    let ue = |i: int, j: int| dense_entry(u, i, j);
    let p = transposed(ue, conj);
    let q = transposed(le, conj);
    let at = transposed(a, conj);
    let ly = lower_transpose_times(l, conj, y);
    lemma_lower_transpose_times(l, conj, y);
    let uly = upper_transpose_times(u, conj, ly);
    assert forall|j: int| 0 <= j < n implies #[trigger] uly[j] == dense_times(p, ly)[j] by {
        lemma_dot_sum(u, conj, ly, j);
        lemma_sum_equal(
            |i: int| conj_if(conj, dense_entry(u, i, j)).times(ly[i]),
            |i: int| p(j, i).times(ly[i]),
            n,
        );
    }
    assert(uly =~= dense_times(p, ly));
    assert forall|i: int, j: int| 0 <= i < n && 0 <= j < n implies #[trigger] at(i, j) == sum(
        |m: int| p(i, m).times(q(m, j)),
        n,
    ) by {
        assert(product_entry(l, u, j, i, n) == a(j, i));
        lemma_product_sum(l, u, j, i, n);
        let f = |m: int| dense_entry(l, j, m).times(dense_entry(u, m, i));
        lemma_conj_sum(conj, f, n);
        let cf = |m: int| conj_if(conj, f(m));
        let g = |m: int| p(i, m).times(q(m, j));
        assert forall|m: int| 0 <= m < n implies #[trigger] cf(m) == g(m) by {
            let x1 = dense_entry(l, j, m);
            let y1 = dense_entry(u, m, i);
            reveal(exact_conjugation);
            assert(x1.times(y1).conjugate() == x1.conjugate().times(y1.conjugate()));
            lemma_times_commutes(conj_if(conj, x1), conj_if(conj, y1));
        }
        lemma_sum_equal(cf, g, n);
    }
    lemma_compose(p, q, at, y);
}

/// In exact arithmetic, where `L U = A` the transposed LU action is a right
/// inverse of `A^T` (of `A^H` when `op` conjugates).
pub proof fn law_lu_transpose_solves<T: Scalar>(
    l: CscModel<T>,
    u: CscModel<T>,
    a: spec_fn(int, int) -> T,
    op: Op,
    x: Seq<T>,
)
    requires
        exact_field::<T>(),
        exact_conjugation::<T>(),
        op.transposes(),
        l.wf(),
        u.wf(),
        lower_ok(l.pattern, x.len() as int),
        upper_ok(u.pattern, x.len() as int),
        lower_diag_ok(l, true, x.len() as int),
        upper_diag_ok(u, x.len() as int),
        lu_is(l, u, a, x.len() as int),
    ensures
        dense_times(transposed(a, op.conjugates()), lu_action(l, u, op, x)) == x,
{
    let n = x.len() as int;
    let conj = op.conjugates();
    let y = lu_action(l, u, op, x);
    let z = upper_transpose_solve(u, conj, x, n);
    lemma_solve_lengths(l, u, true, conj, x);
    lemma_solve_lengths(l, u, true, conj, z);
    law_lu_transpose_inverts(l, u, op, x);
    lemma_lu_transpose_times(l, u, a, conj, y);
}

/// `L L^H = A`.
pub open spec fn llh_is<T: Scalar>(l: CscModel<T>, a: spec_fn(int, int) -> T, n: int) -> bool {
    forall|i: int, j: int|
        0 <= i < n && 0 <= j < n ==> #[trigger] a(i, j) == sum(
            |m: int| dense_entry(l, i, m).times(dense_entry(l, j, m).conjugate()),
            n,
        )
}

/// Applying `L` after `L^H` is applying `L L^H`.
proof fn lemma_llh_times<T: Scalar>(l: CscModel<T>, a: spec_fn(int, int) -> T, x: Seq<T>)
    requires
        exact_field::<T>(),
        exact_conjugation::<T>(),
        l.wf(),
        lower_ok(l.pattern, x.len() as int),
        llh_is(l, a, x.len() as int),
    ensures
        times_vector(l, lower_transpose_times(l, true, x)) == dense_times(a, x),
{
    let n = x.len() as int;
    let p = |i: int, j: int| dense_entry(l, i, j);
    let q = transposed(p, true);
    let lx = lower_transpose_times(l, true, x);
    lemma_lower_transpose_times(l, true, x);
    lemma_times_vector(l, lx);
    assert forall|i: int, j: int| 0 <= i < n && 0 <= j < n implies #[trigger] a(i, j) == sum(
        |m: int| p(i, m).times(q(m, j)),
        n,
    ) by {
        lemma_sum_equal(
            |m: int| dense_entry(l, i, m).times(dense_entry(l, j, m).conjugate()),
            |m: int| p(i, m).times(q(m, j)),
            n,
        );
    }
    lemma_compose(p, q, a, x);
}

/// In exact arithmetic, where `L L^H = A` the Cholesky action is a right inverse
/// of `A`: `A (M^{-1} x) = x`.
pub proof fn law_llh_solves<T: Scalar>(l: CscModel<T>, a: spec_fn(int, int) -> T, x: Seq<T>)
    requires
        exact_field::<T>(),
        exact_conjugation::<T>(),
        l.wf(),
        lower_ok(l.pattern, x.len() as int),
        lower_diag_ok(l, false, x.len() as int),
        llh_is(l, a, x.len() as int),
    ensures
        dense_times(a, llh_action(l, false, x)) == x,
{
    let n = x.len() as int;
    let z = lower_solve(l, false, false, x, n);
    lemma_solve_lengths(l, l, false, true, x);
    lemma_solve_lengths(l, l, false, true, z);
    law_llh_inverts(l, x);
    lemma_llh_times(l, a, llh_action(l, false, x));
}

/// Two vectors with the same image under the transpose of a lower triangular
/// factor are equal.
proof fn lemma_lower_transpose_injective<T: Scalar>(
    l: CscModel<T>,
    unit: bool,
    conj: bool,
    s: Seq<T>,
    z: Seq<T>,
    i: int,
)
    requires
        exact_field::<T>(),
        exact_conjugation::<T>(),
        l.wf(),
        s.len() == z.len(),
        lower_ok(l.pattern, s.len() as int),
        lower_diag_ok(l, unit, s.len() as int),
        lower_transpose_times(l, conj, s) == lower_transpose_times(l, conj, z),
        0 <= i <= s.len(),
    ensures
        forall|k: int| i <= k < s.len() ==> #[trigger] s[k] == z[k],
    decreases s.len() - i,
{
    let n = s.len() as int;
    if i < n {
        lemma_lower_transpose_injective(l, unit, conj, s, z, i + 1);
        let f = |j: int| conj_if(conj, dense_entry(l, j, i)).times(s[j]);
        let g = |j: int| conj_if(conj, dense_entry(l, j, i)).times(z[j]);
        assert(lower_transpose_times(l, conj, s)[i] == lower_transpose_times(l, conj, z)[i]);
        l.pattern.lemma_col_bounds(i);
        lemma_dot_rev(l, conj, s, l.pattern.start(i), l.pattern.end(i));
        lemma_dot_rev(l, conj, z, l.pattern.start(i), l.pattern.end(i));
        lemma_dot_sum(l, conj, s, i);
        lemma_dot_sum(l, conj, z, i);
        assert(sum(f, n) == lower_transpose_times(l, conj, s)[i]);
        assert(sum(g, n) == lower_transpose_times(l, conj, z)[i]);
        assert forall|j: int| 0 <= j < n && j != i implies #[trigger] f(j) == g(j) by {
            if j > i {
                assert(s[j] == z[j]);
            } else {
                if l.pattern.has(j, i) {
                    l.pattern.lemma_find(j, i);
                    lemma_lower_col(l.pattern, n, l.pattern.find(j, i), i);
                }
                lemma_nothing_times(conj, s[j]);
                lemma_nothing_times(conj, z[j]);
            }
        }
        lemma_sum_differs_once(f, g, n, i);
        let p = l.pattern.start(i);
        assert(l.pattern.start(i) < l.pattern.end(i) && l.pattern.row_idx@[p] == i);
        assert(l.pattern.sorted_col(i));
        l.pattern.lemma_find_at(p, i);
        let d = l.values[p];
        assert(dense_entry(l, i, i) == d);
        if unit {
            lemma_unit_factor(conj, s[i]);
            lemma_unit_factor(conj, z[i]);
        } else {
            lemma_conj_factor_cancels(conj, d, s[i], z[i]);
        }
    }
}

/// Two vectors with the same image under the transpose of an upper triangular
/// factor are equal.
proof fn lemma_upper_transpose_injective<T: Scalar>(
    u: CscModel<T>,
    conj: bool,
    s: Seq<T>,
    z: Seq<T>,
    i: int,
)
    requires
        exact_field::<T>(),
        exact_conjugation::<T>(),
        u.wf(),
        s.len() == z.len(),
        upper_ok(u.pattern, s.len() as int),
        upper_diag_ok(u, s.len() as int),
        upper_transpose_times(u, conj, s) == upper_transpose_times(u, conj, z),
        0 <= i <= s.len(),
    ensures
        forall|k: int| 0 <= k < i ==> #[trigger] s[k] == z[k],
    decreases i,
{
    let n = s.len() as int;
    if i > 0 {
        let c = i - 1;
        lemma_upper_transpose_injective(u, conj, s, z, c);
        let f = |j: int| conj_if(conj, dense_entry(u, j, c)).times(s[j]);
        let g = |j: int| conj_if(conj, dense_entry(u, j, c)).times(z[j]);
        assert(upper_transpose_times(u, conj, s)[c] == upper_transpose_times(u, conj, z)[c]);
        lemma_dot_sum(u, conj, s, c);
        lemma_dot_sum(u, conj, z, c);
        assert(sum(f, n) == upper_transpose_times(u, conj, s)[c]);
        assert(sum(g, n) == upper_transpose_times(u, conj, z)[c]);
        assert forall|j: int| 0 <= j < n && j != c implies #[trigger] f(j) == g(j) by {
            if j < c {
                assert(s[j] == z[j]);
            } else {
                if u.pattern.has(j, c) {
                    u.pattern.lemma_find(j, c);
                    lemma_upper_col(u.pattern, n, u.pattern.find(j, c), c);
                }
                lemma_nothing_times(conj, s[j]);
                lemma_nothing_times(conj, z[j]);
            }
        }
        lemma_sum_differs_once(f, g, n, c);
        let p = u.pattern.end(c) - 1;
        assert(u.pattern.start(c) < u.pattern.end(c));
        lemma_upper_col(u.pattern, n, p, c);
        assert(u.pattern.sorted_col(c));
        u.pattern.lemma_find_at(p, c);
        let d = u.values[p];
        assert(dense_entry(u, c, c) == d);
        lemma_conj_factor_cancels(conj, d, s[c], z[c]);
    }
}

/// In exact arithmetic, where `L U = A` the transposed LU action is a left
/// inverse of `A^T` (of `A^H` when `op` conjugates).
pub proof fn law_lu_transpose_recovers<T: Scalar>(
    l: CscModel<T>,
    u: CscModel<T>,
    a: spec_fn(int, int) -> T,
    op: Op,
    x: Seq<T>,
)
    requires
        exact_field::<T>(),
        exact_conjugation::<T>(),
        op.transposes(),
        l.wf(),
        u.wf(),
        lower_ok(l.pattern, x.len() as int),
        upper_ok(u.pattern, x.len() as int),
        lower_diag_ok(l, true, x.len() as int),
        upper_diag_ok(u, x.len() as int),
        lu_is(l, u, a, x.len() as int),
    ensures
        lu_action(l, u, op, dense_times(transposed(a, op.conjugates()), x)) == x,
{
    let n = x.len() as int;
    let conj = op.conjugates();
    let b = dense_times(transposed(a, conj), x);
    let y = lu_action(l, u, op, b);
    let z = upper_transpose_solve(u, conj, b, n);
    lemma_solve_lengths(l, u, true, conj, b);
    lemma_solve_lengths(l, u, true, conj, z);
    law_lu_transpose_inverts(l, u, op, b);
    lemma_lu_transpose_times(l, u, a, conj, x);
    let ly = lower_transpose_times(l, conj, y);
    let lx = lower_transpose_times(l, conj, x);
    lemma_upper_transpose_injective(u, conj, ly, lx, n);
    assert(ly =~= lx);
    lemma_lower_transpose_injective(l, true, conj, y, x, 0);
    assert(y =~= x);
}

/// In exact arithmetic, where `L L^H = A` the Cholesky action is a left inverse
/// of `A`: `M^{-1} (A x) = x`.
pub proof fn law_llh_recovers<T: Scalar>(l: CscModel<T>, a: spec_fn(int, int) -> T, x: Seq<T>)
    requires
        exact_field::<T>(),
        exact_conjugation::<T>(),
        l.wf(),
        lower_ok(l.pattern, x.len() as int),
        lower_diag_ok(l, false, x.len() as int),
        llh_is(l, a, x.len() as int),
    ensures
        llh_action(l, false, dense_times(a, x)) == x,
{
    let n = x.len() as int;
    let b = dense_times(a, x);
    let z = lower_solve(l, false, false, b, n);
    lemma_solve_lengths(l, l, false, true, b);
    lemma_solve_lengths(l, l, false, true, z);
    let y = llh_action(l, false, b);
    law_llh_inverts(l, b);
    lemma_llh_times(l, a, x);
    let ly = lower_transpose_times(l, true, y);
    let lx = lower_transpose_times(l, true, x);
    lemma_lower_injective(l, false, ly, lx, n);
    assert(ly =~= lx);
    lemma_lower_transpose_injective(l, false, true, y, x, 0);
    assert(y =~= x);
}

/// Elimination on the pattern `s` makes no fill: a pivot that meets a row and a
/// column of `s` meets them in an entry of `s`.
pub open spec fn eliminates_within(s: spec_fn(int, int) -> bool, n: int) -> bool {
    forall|i: int, m: int, j: int|
        0 <= m < i < n && m < j < n && #[trigger] s(i, m) && #[trigger] s(m, j) ==> s(i, j)
}

/// Nothing is stored more than one place off the diagonal.
pub open spec fn tridiagonal(p: CscPattern) -> bool {
    forall|i: int, j: int| #[trigger] stored(p)(i, j) ==> i - 1 <= j <= i + 1
}

/// Elimination on a tridiagonal pattern with a full diagonal makes no fill.
pub proof fn law_tridiagonal_makes_no_fill(p: CscPattern, n: int)
    requires
        tridiagonal(p),
        forall|k: int| 0 <= k < n ==> #[trigger] stored(p)(k, k),
    ensures
        eliminates_within(stored(p), n),
{
    let s = stored(p);
    assert forall|i: int, m: int, j: int|
        0 <= m < i < n && m < j < n && #[trigger] s(i, m) && #[trigger] s(m, j) implies s(i, j) by {
        assert(i == m + 1 && j == m + 1);
        assert(stored(p)(i, i));
    }
}

/// Where elimination makes no fill, the incomplete factors multiply to the whole
/// matrix.
pub proof fn lemma_no_fill_reproduces<T: Scalar>(
    l: CscModel<T>,
    u: CscModel<T>,
    a: spec_fn(int, int) -> T,
    n: int,
)
    requires
        exact_field::<T>(),
        lower_ok(l.pattern, n),
        upper_ok(u.pattern, n),
        lu_cols_done(l.pattern, u.pattern, a, l.values, u.values, n),
        pivots_ok(lu_has(l.pattern, u.pattern), a, n),
        eliminates_within(lu_has(l.pattern, u.pattern), n),
        forall|i: int, j: int|
            0 <= i < n && 0 <= j < n && !lu_has(l.pattern, u.pattern)(i, j) ==> #[trigger] a(i, j)
                == T::null(),
    ensures
        lu_is(l, u, a, n),
{
    let s = lu_has(l.pattern, u.pattern);
    assert forall|i: int, j: int| 0 <= i < n && 0 <= j < n implies #[trigger] product_entry(
        l,
        u,
        i,
        j,
        n,
    ) == a(i, j) by {
        if s(i, j) {
            law_product_on_pattern(l, u, a, n, i, j);
        } else {
            let f = |m: int| dense_entry(l, i, m).times(dense_entry(u, m, j));
            assert forall|m: int| 0 <= m < n implies #[trigger] f(m) == T::null() by {
                lemma_factor_entries(l, u, a, n, i, m);
                lemma_factor_entries(l, u, a, n, m, j);
                if m < i && m < j && s(i, m) && s(m, j) {
                    assert(s(i, j));
                }
                lemma_null_absorbs(dense_entry(l, i, m));
                lemma_times_commutes(T::null(), dense_entry(u, m, j));
                lemma_null_absorbs(dense_entry(u, m, j));
            }
            lemma_product_sum(l, u, i, j, n);
            lemma_sum_null(f, n);
        }
    }
}

/// The factors of an incomplete LU have usable diagonals.
pub proof fn lemma_lu_diagonals<T: Scalar>(
    l: CscModel<T>,
    u: CscModel<T>,
    a: spec_fn(int, int) -> T,
    n: int,
)
    requires
        lower_ok(l.pattern, n),
        upper_ok(u.pattern, n),
        lu_cols_done(l.pattern, u.pattern, a, l.values, u.values, n),
        pivots_ok(lu_has(l.pattern, u.pattern), a, n),
    ensures
        lower_diag_ok(l, true, n),
        upper_diag_ok(u, n),
{
    let s = lu_has(l.pattern, u.pattern);
    assert forall|j: int| 0 <= j < n implies l.values[#[trigger] l.pattern.start(j)]
        == T::unit() by {
        assert(l_col_done(l.pattern, u.pattern, a, l.values, j));
        assert(l.pattern.in_col(l.pattern.start(j), j));
    }
    assert forall|j: int| 0 <= j < n implies !vanishes(
        u.values[#[trigger] u.pattern.end(j) - 1],
    ) by {
        assert(u_col_done(l.pattern, u.pattern, a, u.values, j));
        assert(u.pattern.start(j) < u.pattern.end(j));
        assert(u.pattern.in_col(u.pattern.end(j) - 1, j));
        lemma_upper_col(u.pattern, n, u.pattern.end(j) - 1, j);
        assert(!vanishes(upper_entry(s, a, j, j)));
    }
}

/// The Hermitian matrix with the lower triangle of `a`.
pub open spec fn hermitian_of<T: Scalar>(a: spec_fn(int, int) -> T) -> spec_fn(int, int) -> T {
    |i: int, j: int|
        if i >= j {
            a(i, j)
        } else {
            a(j, i).conjugate()
        }
}

/// Where the lower triangle of `L L^H` is that of `a`, the whole of it is the
/// Hermitian matrix with that lower triangle.
pub proof fn lemma_llh_mirrors<T: Scalar>(l: CscModel<T>, a: spec_fn(int, int) -> T, n: int)
    requires
        exact_field::<T>(),
        exact_conjugation::<T>(),
        forall|i: int, j: int|
            0 <= j <= i < n ==> #[trigger] a(i, j) == sum(
                |m: int| dense_entry(l, i, m).times(dense_entry(l, j, m).conjugate()),
                n,
            ),
    ensures
        llh_is(l, hermitian_of(a), n),
{
    let h = hermitian_of(a);
    assert forall|i: int, j: int| 0 <= i < n && 0 <= j < n implies #[trigger] h(i, j) == sum(
        |m: int| dense_entry(l, i, m).times(dense_entry(l, j, m).conjugate()),
        n,
    ) by {
        if i < j {
            let f = |m: int| dense_entry(l, j, m).times(dense_entry(l, i, m).conjugate());
            assert(a(j, i) == sum(f, n));
            lemma_conj_sum(true, f, n);
            let cf = |m: int| conj_if(true, f(m));
            let g = |m: int| dense_entry(l, i, m).times(dense_entry(l, j, m).conjugate());
            assert forall|m: int| 0 <= m < n implies #[trigger] cf(m) == g(m) by {
                let x = dense_entry(l, j, m);
                let y = dense_entry(l, i, m);
                reveal(exact_conjugation);
                assert(x.times(y.conjugate()).conjugate() == x.conjugate().times(
                    y.conjugate().conjugate(),
                ));
                lemma_times_commutes(x.conjugate(), y);
            }
            lemma_sum_equal(cf, g, n);
        } else {
            assert(a(i, j) == h(i, j));
        }
    }
}

} // verus!
