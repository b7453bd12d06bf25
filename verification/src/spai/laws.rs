//! What the columns of SPAI solve, and when they invert `A`.
use super::factor::{column_fitted, fits_columns, fitted, is_submatrix, Spai};
use crate::dense::Mat;
use crate::inverse::{dense_times, is_solution, lemma_compose, lemma_identity, row_times};
use crate::linalg::law_spmv;
use crate::lu::dense_entry;
use crate::op::{Op, Preconditioner};
use crate::overlay::dense;
use crate::reading::real_sum;
use crate::scalar::{
    exact_field, lemma_null_absorbs, lemma_null_is_neutral, lemma_plus_commutes,
    lemma_reciprocal_inverts, lemma_times_commutes, vanishes, Scalar,
};
use crate::sparse::{stored, CscModel, CscRef};
use crate::sums::{lemma_matvec_sum, lemma_sum_equal, lemma_sum_null, lemma_sum_support, sum};
use crate::util::powers::{
    ascending, covers, is_union, lemma_diagonal_reaches, links,
};
use crate::util::unit::is_unit_column;
use vstd::prelude::*;

verus! {

/// The entry `(i, k)` of `A M`.
pub open spec fn times_entry<T: Scalar>(a: CscModel<T>, m: CscModel<T>, i: int, k: int) -> T {
    sum(|j: int| dense_entry(a, i, j).times(dense_entry(m, j, k)), a.pattern.ncols as int)
}

/// The entry `(i, k)` of the identity.
pub open spec fn delta<T: Scalar>(i: int, k: int) -> T {
    if i == k {
        T::unit()
    } else {
        T::null()
    }
}

/// Where a dense problem has a solution, `lstsq` returns one.
pub open spec fn lstsq_exact<T: Scalar, F: Fn(&Mat<T>, &Mat<T>) -> Mat<T>>(lstsq: F) -> bool {
    forall|s: Mat<T>, e: Mat<T>, x: Mat<T>, y: Seq<T>|
        #[trigger] call_ensures(lstsq, (&s, &e), x) && #[trigger] is_solution(s, e, y)
            ==> is_solution(s, e, x.col(0))
}

/// A column of `A M` is a combination of the columns that the pattern names.
proof fn lemma_times_listed<T: Scalar>(a: CscModel<T>, m: CscModel<T>, i: int, k: int)
    requires
        exact_field::<T>(),
        m.wf(),
        m.pattern.nrows == a.pattern.ncols,
        0 <= k < m.pattern.ncols,
        ascending(m.pattern.col(k)),
    ensures
        times_entry(a, m, i, k) == sum(
            |t: int|
                dense_entry(a, i, m.pattern.col(k)[t] as int).times(
                    m.values[m.pattern.start(k) + t],
                ),
            m.pattern.col(k).len() as int,
        ),
{
    let p = m.pattern;
    let cols = p.col(k);
    p.lemma_col_bounds(k);
    let f = |j: int| dense_entry(a, i, j).times(dense_entry(m, j, k));
    assert forall|t: int| 0 <= t < cols.len() implies (#[trigger] cols[t]) < a.pattern.ncols by {
        assert(p.row_idx@[p.start(k) + t] < p.nrows);
    }
    assert forall|j: int|
        0 <= j < a.pattern.ncols && (forall|t: int|
            0 <= t < cols.len() ==> #[trigger] cols[t] != j) implies #[trigger] f(j)
        == T::null() by {
        if p.has(j, k) {
            p.lemma_find(j, k);
            let q = p.find(j, k);
            assert(cols[q - p.start(k)] == p.row_idx@[q]);
        }
        lemma_null_absorbs(dense_entry(a, i, j));
    }
    lemma_sum_support(f, cols, a.pattern.ncols as int);
    assert(p.sorted_col(k)) by {
        assert forall|x: int, y: int| p.start(k) <= x < y < p.end(k) implies #[trigger] p.row_idx@[x]
            < #[trigger] p.row_idx@[y] by {
            assert(cols[x - p.start(k)] < cols[y - p.start(k)]);
        }
    }
    let g = |t: int| f(cols[t] as int);
    let h = |t: int| dense_entry(a, i, cols[t] as int).times(m.values[p.start(k) + t]);
    assert forall|t: int| 0 <= t < cols.len() implies #[trigger] g(t) == h(t) by {
        p.lemma_find_at(p.start(k) + t, k);
        assert(cols[t] == p.row_idx@[p.start(k) + t]);
    }
    lemma_sum_equal(g, h, cols.len() as int);
}

/// The problem of column `k` separates from all others: on the rows that its
/// pattern reaches, column `k` of `A M` is the product of the dense block with
/// the coefficients that `lstsq` gave, and it is zero elsewhere.
pub proof fn law_column_is_local<T: Scalar, F: Fn(&Mat<T>, &Mat<T>) -> Mat<T>>(
    lstsq: F,
    a: CscModel<T>,
    power: int,
    m: CscModel<T>,
    k: int,
) -> (r: (Seq<usize>, Mat<T>, Mat<T>, Mat<T>))
    requires
        exact_field::<T>(),
        a.wf(),
        a.pattern.nrows == a.pattern.ncols,
        m.wf(),
        m.pattern.nrows == a.pattern.ncols,
        m.pattern.ncols == a.pattern.ncols,
        0 <= k < m.pattern.ncols,
        column_fitted(lstsq, a, power, m, k),
        fits_columns(lstsq),
    ensures
        is_union(a.pattern, m.pattern.col(k), r.0),
        is_submatrix(a, r.0, m.pattern.col(k), r.1),
        is_unit_column(r.0, k, r.2),
        call_ensures(lstsq, (&r.1, &r.2), r.3),
        forall|t: int|
            0 <= t < r.0.len() ==> times_entry(a, m, #[trigger] r.0[t] as int, k) == row_times(
                r.1,
                r.3.col(0),
                t,
            ),
        forall|i: int|
            0 <= i < a.pattern.nrows && !r.0.contains(i as usize) ==> #[trigger] times_entry(
                a,
                m,
                i,
                k,
            ) == T::null(),
{
    let p = m.pattern;
    let cols = p.col(k);
    p.lemma_col_bounds(k);
    let x = choose|x: Mat<T>| #[trigger]
        fitted(lstsq, a, cols, k, x) && m.values.subrange(p.start(k), p.end(k)) == x.data@;
    assert(fitted(lstsq, a, cols, k, x));
    let (rows, s, e) = choose|rows: Seq<usize>, s: Mat<T>, e: Mat<T>|
        {
            &&& #[trigger] is_union(a.pattern, cols, rows)
            &&& is_submatrix(a, rows, cols, s)
            &&& is_unit_column(rows, k, e)
            &&& #[trigger] call_ensures(lstsq, (&s, &e), x)
        };
    assert(is_union(a.pattern, cols, rows) && call_ensures(lstsq, (&s, &e), x));
    assert forall|t: int| 0 <= t < rows.len() implies times_entry(a, m, #[trigger] rows[t] as int, k)
        == row_times(s, x.col(0), t) by {
        lemma_times_listed(a, m, rows[t] as int, k);
        let h = |c: int| dense_entry(a, rows[t] as int, cols[c] as int).times(m.values[p.start(k) + c]);
        let g = |c: int| s.at(t, c).times(x.col(0)[c]);
        assert forall|c: int| 0 <= c < cols.len() implies #[trigger] h(c) == g(c) by {
            assert(s.at(t, c) == dense_entry(a, rows[t] as int, cols[c] as int));
            lemma_first_column(x, c);
            assert(m.values.subrange(p.start(k), p.end(k))[c] == x.data@[c]);
        }
        lemma_sum_equal(h, g, cols.len() as int);
    }
    assert forall|i: int| 0 <= i < a.pattern.nrows && !rows.contains(i as usize) implies
        #[trigger] times_entry(a, m, i, k) == T::null() by {
        lemma_times_listed(a, m, i, k);
        let h = |c: int| dense_entry(a, i, cols[c] as int).times(m.values[p.start(k) + c]);
        assert forall|c: int| 0 <= c < cols.len() implies #[trigger] h(c) == T::null() by {
            assert(cols[c] == p.row_idx@[p.start(k) + c]);
            if a.pattern.has(i, cols[c] as int) {
                assert(covers(a.pattern, cols, i)) by {
                    assert(links(a.pattern, i, cols[c] as int));
                }
            }
            lemma_times_commutes(T::null(), m.values[p.start(k) + c]);
            lemma_null_absorbs(m.values[p.start(k) + c]);
        }
        lemma_sum_null(h, cols.len() as int);
    }
    (rows, s, e, x)
}

/// The first column of a matrix is the start of its buffer.
proof fn lemma_first_column<T: Scalar>(x: Mat<T>, c: int)
    ensures
        x.at(c, 0) == x.data@[c],
{
    assert(x.nrows * 0 == 0) by (nonlinear_arith);
}

/// In exact arithmetic, where some vector on the pattern of column `k` solves
/// `A y = e_k`, column `k` of `M` does.
pub proof fn law_solvable_column_is_exact<T: Scalar, F: Fn(&Mat<T>, &Mat<T>) -> Mat<T>>(
    lstsq: F,
    a: CscModel<T>,
    power: int,
    m: CscModel<T>,
    k: int,
    y: Seq<T>,
)
    requires
        exact_field::<T>(),
        lstsq_exact(lstsq),
        fits_columns(lstsq),
        a.wf(),
        a.pattern.nrows == a.pattern.ncols,
        m.wf(),
        m.pattern.nrows == a.pattern.ncols,
        m.pattern.ncols == a.pattern.ncols,
        0 <= k < m.pattern.ncols,
        column_fitted(lstsq, a, power, m, k),
        y.len() == m.pattern.col(k).len(),
        forall|i: int|
            0 <= i < a.pattern.nrows ==> #[trigger] combination(a, m.pattern.col(k), y, i) == delta::<T>(
                i,
                k,
            ),
    ensures
        forall|i: int|
            0 <= i < a.pattern.nrows ==> #[trigger] times_entry(a, m, i, k) == delta::<T>(i, k),
{
    let cols = m.pattern.col(k);
    let (rows, s, e, x) = law_column_is_local(lstsq, a, power, m, k);
    assert forall|t: int| 0 <= t < rows.len() implies #[trigger] row_times(s, y, t) == e.at(
        t,
        0,
    ) by {
        assert(rows.contains(rows[t]));
        assert(covers(a.pattern, cols, rows[t] as int));
        let i = rows[t] as int;
        assert(combination(a, cols, y, i) == delta::<T>(i, k));
        let g = |c: int| s.at(t, c).times(y[c]);
        let h = |c: int| dense_entry(a, i, cols[c] as int).times(y[c]);
        assert forall|c: int| 0 <= c < cols.len() implies #[trigger] g(c) == h(c) by {
            assert(s.at(t, c) == dense_entry(a, rows[t] as int, cols[c] as int));
        }
        lemma_sum_equal(g, h, cols.len() as int);
        assert(e.at(t, 0) == delta::<T>(i, k));
    }
    assert(is_solution(s, e, y));
    assert(is_solution(s, e, x.col(0)));
    assert forall|i: int| 0 <= i < a.pattern.nrows implies #[trigger] times_entry(a, m, i, k)
        == delta::<T>(i, k) by {
        if rows.contains(i as usize) {
            let t = rows.index_of(i as usize);
            assert(times_entry(a, m, rows[t] as int, k) == row_times(s, x.col(0), t));
            assert(e.at(t, 0) == delta::<T>(i, k));
        } else {
            assert(combination(a, cols, y, i) == delta::<T>(i, k));
            let h = |c: int| dense_entry(a, i, cols[c] as int).times(y[c]);
            assert forall|c: int| 0 <= c < cols.len() implies #[trigger] h(c) == T::null() by {
                if a.pattern.has(i, cols[c] as int) {
                    assert(covers(a.pattern, cols, i)) by {
                        m.pattern.lemma_col_bounds(k);
                        assert(cols[c] == m.pattern.row_idx@[m.pattern.start(k) + c]);
                        assert(links(a.pattern, i, cols[c] as int));
                    }
                }
                lemma_times_commutes(T::null(), y[c]);
                lemma_null_absorbs(y[c]);
            }
            lemma_sum_null(h, cols.len() as int);
        }
    }
}

/// Entry `i` of the combination of the columns `cols` of `a` with the
/// coefficients `y`.
pub open spec fn combination<T: Scalar>(
    a: CscModel<T>,
    cols: Seq<usize>,
    y: Seq<T>,
    i: int,
) -> T {
    sum(|c: int| dense_entry(a, i, cols[c] as int).times(y[c]), cols.len() as int)
}

/// In exact arithmetic, where `A M` is the identity, applying SPAI inverts `A`:
/// `A (M x) = x`.
pub proof fn law_exact_columns_invert<T: Scalar>(f: Spai<T>, a: CscRef<'_, T>, x: Seq<T>)
    requires
        exact_field::<T>(),
        a.wf(),
        a.pattern.nrows == a.pattern.ncols,
        f.wf(),
        f.m.pattern.sorted(),
        f.m.pattern.ncols == a.pattern.ncols,
        x.len() == a.pattern.ncols,
        forall|i: int, k: int|
            0 <= i < a.pattern.ncols && 0 <= k < a.pattern.ncols ==> #[trigger] times_entry(
                a@,
                f.m_model(),
                i,
                k,
            ) == delta::<T>(i, k),
    ensures
        dense_times(dense(a), f.action(Op::Apply, x)) == x,
{
    let n = x.len() as int;
    let m = f.m_model();
    let me = |i: int, j: int| dense_entry(m, i, j);
    let id = |i: int, j: int| delta::<T>(i, j);
    let y = f.action(Op::Apply, x);
    if n > 0 {
        law_spmv(m, x, n, 0);
    }
    assert forall|i: int| 0 <= i < n implies #[trigger] y[i] == dense_times(me, x)[i] by {
        law_spmv(m, x, n, i);
        lemma_matvec_sum(m, x, i, n);
        lemma_sum_equal(
            |j: int| dense_entry(m, i, j).times(x[j]),
            |j: int| me(i, j).times(x[j]),
            n,
        );
    }
    assert(y =~= dense_times(me, x));
    assert forall|i: int, j: int| 0 <= i < n && 0 <= j < n implies #[trigger] id(i, j) == sum(
        |t: int| dense(a)(i, t).times(me(t, j)),
        n,
    ) by {
        assert(times_entry(a@, m, i, j) == delta::<T>(i, j));
        lemma_sum_equal(
            |t: int| dense_entry(a@, i, t).times(dense_entry(m, t, j)),
            |t: int| dense(a)(i, t).times(me(t, j)),
            n,
        );
    }
    lemma_compose(dense(a), me, id, x);
    lemma_identity(id, x);
}

/// With an exact kernel, SPAI of a diagonal matrix without zeros on the diagonal
/// inverts it.
pub proof fn law_inverts_diagonal<T: Scalar, F: Fn(&Mat<T>, &Mat<T>) -> Mat<T>>(
    lstsq: F,
    f: Spai<T>,
    a: CscRef<'_, T>,
    power: int,
    x: Seq<T>,
)
    requires
        exact_field::<T>(),
        lstsq_exact(lstsq),
        fits_columns(lstsq),
        a.wf(),
        a.pattern.nrows == a.pattern.ncols,
        power >= 1,
        forall|i: int, j: int| #[trigger] stored(*a.pattern)(i, j) ==> i == j,
        forall|j: int|
            0 <= j < a.pattern.ncols ==> #[trigger] a.pattern.has(j, j) && !vanishes(a.entry(j, j)),
        f.wf(),
        f.m.pattern.ncols == a.pattern.ncols,
        forall|k: int|
            0 <= k < a.pattern.ncols ==> #[trigger] column_fitted(
                lstsq,
                a@,
                power,
                f.m_model(),
                k,
            ),
        x.len() == a.pattern.ncols,
    ensures
        dense_times(dense(a), f.action(Op::Apply, x)) == x,
{
    let n = a.pattern.ncols as int;
    let m = f.m_model();
    let p = *a.pattern;
    assert forall|k: int| 0 <= k < n implies #[trigger] f.m.pattern.sorted_col(k) by {
        assert(column_fitted(lstsq, a@, power, m, k));
        let q = f.m.pattern;
        q.lemma_col_bounds(k);
        assert forall|u: int, v: int| q.start(k) <= u < v < q.end(k) implies #[trigger] q.row_idx@[u]
            < #[trigger] q.row_idx@[v] by {
            assert(q.col(k)[u - q.start(k)] < q.col(k)[v - q.start(k)]);
        }
    }
    assert forall|i: int, k: int| 0 <= i < n && 0 <= k < n implies #[trigger] times_entry(
        a@,
        m,
        i,
        k,
    ) == delta::<T>(i, k) by {
        assert(column_fitted(lstsq, a@, power, m, k));
        let cols = m.pattern.col(k);
        m.pattern.lemma_col_bounds(k);
        let d = a.entry(k, k);
        assert(a.pattern.has(k, k));
        assert(!vanishes(a.entry(k, k)));
        lemma_diagonal_reaches(p, power, k, k);
        assert(cols.contains(k as usize));
        let y = Seq::new(cols.len(), |t: int| d.reciprocal());
        assert forall|i: int| 0 <= i < n implies #[trigger] combination(a@, cols, y, i) == delta::<T>(
            i,
            k,
        ) by {
            assert forall|t: int| 0 <= t < cols.len() implies #[trigger] cols[t] == k by {
                assert(cols.contains(cols[t]));
                lemma_diagonal_reaches(p, power, cols[t] as int, k);
            }
            assert(cols.len() == 1) by {
                if cols.len() > 1 {
                    assert(cols[0] < cols[1]);
                }
            }
            let h = |c: int| dense_entry(a@, i, cols[c] as int).times(y[c]);
            assert(sum(h, 1) == sum(h, 0).plus(h(0)));
            lemma_plus_commutes(T::null(), h(0));
            lemma_null_is_neutral(h(0));
            assert(cols[0] == k);
            if i == k {
                lemma_times_commutes(d, d.reciprocal());
                lemma_reciprocal_inverts(d);
            } else {
                assert(!stored(p)(i, k));
                lemma_times_commutes(T::null(), d.reciprocal());
                lemma_null_absorbs(d.reciprocal());
            }
        }
        law_solvable_column_is_exact(lstsq, a@, power, m, k, y);
    }
    law_exact_columns_invert(f, a, x);
}

/// The squared length of `A y - e_k`, where `y` combines the columns `cols`.
pub open spec fn combination_residual<T: Scalar>(
    v: spec_fn(T::Real) -> real,
    a: CscModel<T>,
    cols: Seq<usize>,
    y: Seq<T>,
    k: int,
) -> real {
    real_sum(
        |i: int|
            v(combination(a, cols, y, i).minus(delta::<T>(i, k)).magnitude_squared()),
        a.pattern.nrows as int,
    )
}

/// The squared length of column `k` of `A M - I`.
pub open spec fn column_residual<T: Scalar>(
    v: spec_fn(T::Real) -> real,
    a: CscModel<T>,
    m: CscModel<T>,
    k: int,
) -> real {
    real_sum(
        |i: int| v(times_entry(a, m, i, k).minus(delta::<T>(i, k)).magnitude_squared()),
        a.pattern.nrows as int,
    )
}

/// The squared length of `S y - e`.
pub open spec fn dense_residual<T: Scalar>(
    v: spec_fn(T::Real) -> real,
    s: Mat<T>,
    e: Mat<T>,
    y: Seq<T>,
) -> real {
    real_sum(
        |t: int| v(row_times(s, y, t).minus(e.at(t, 0)).magnitude_squared()),
        s.nrows as int,
    )
}

/// `lstsq` returns coefficients that make the residual as short as any do, when
/// `v` reads the squared magnitudes as real numbers.
pub open spec fn lstsq_minimises<T: Scalar, F: Fn(&Mat<T>, &Mat<T>) -> Mat<T>>(
    lstsq: F,
    v: spec_fn(T::Real) -> real,
) -> bool {
    forall|s: Mat<T>, e: Mat<T>, x: Mat<T>, y: Seq<T>|
        #[trigger] call_ensures(lstsq, (&s, &e), x) && y.len() == s.ncols ==> dense_residual(
            v,
            s,
            e,
            x.col(0),
        ) <= #[trigger] dense_residual(v, s, e, y)
}

/// A sum of differences is the difference of the sums.
proof fn lemma_real_difference(
    f: spec_fn(int) -> real,
    g: spec_fn(int) -> real,
    h: spec_fn(int) -> real,
    n: int,
)
    requires
        forall|i: int| 0 <= i < n ==> #[trigger] h(i) == f(i) - g(i),
    ensures
        real_sum(h, n) == real_sum(f, n) - real_sum(g, n),
    decreases n,
{
    if n > 0 {
        lemma_real_difference(f, g, h, n - 1);
        assert(h(n - 1) == f(n - 1) - g(n - 1));
    }
}

/// A sum goes over the listed indices alone where the others contribute nothing.
proof fn lemma_real_support(
    h: spec_fn(int) -> real,
    rows: Seq<usize>,
    p: spec_fn(int) -> real,
    n: int,
)
    requires
        ascending(rows),
        forall|t: int| 0 <= t < rows.len() ==> (#[trigger] rows[t]) < n,
        forall|i: int|
            0 <= i < n && (forall|t: int| 0 <= t < rows.len() ==> #[trigger] rows[t] != i)
                ==> #[trigger] h(i) == 0real,
        forall|t: int| 0 <= t < rows.len() ==> #[trigger] p(t) == h(rows[t] as int),
    ensures
        real_sum(h, n) == real_sum(p, rows.len() as int),
    decreases n,
{
    if n > 0 {
        let last = n - 1;
        if rows.len() > 0 && rows[rows.len() - 1] == last {
            let less = rows.drop_last();
            assert forall|t: int| 0 <= t < less.len() implies (#[trigger] less[t]) < last by {
                assert(rows[t] < rows[rows.len() - 1]);
            }
            assert forall|i: int|
                0 <= i < last && (forall|t: int| 0 <= t < less.len() ==> #[trigger] less[t] != i)
                implies #[trigger] h(i) == 0real by {
                assert forall|t: int| 0 <= t < rows.len() implies #[trigger] rows[t] != i by {
                    if t < less.len() {
                        assert(less[t] != i);
                    }
                }
            }
            assert forall|t: int| 0 <= t < less.len() implies #[trigger] p(t) == h(
                less[t] as int,
            ) by {
                assert(rows[t] == less[t]);
            }
            assert(ascending(less)) by {
                assert forall|x: int, y: int| 0 <= x < y < less.len() implies #[trigger] less[x]
                    < #[trigger] less[y] by {
                    assert(rows[x] < rows[y]);
                }
            }
            lemma_real_support(h, less, p, last);
            assert(p(rows.len() - 1) == h(last));
        } else {
            assert forall|t: int| 0 <= t < rows.len() implies (#[trigger] rows[t]) < last by {
                if t < rows.len() - 1 {
                    assert(rows[t] < rows[rows.len() - 1]);
                }
            }
            lemma_real_support(h, rows, p, last);
            assert(h(last) == 0real) by {
                assert forall|t: int| 0 <= t < rows.len() implies #[trigger] rows[t] != last by {
                    assert(rows[t] < last);
                }
            }
        }
    } else {
        if rows.len() > 0 {
            assert(rows[0] < n);
        }
    }
}

/// A combination of the columns `cols` is zero outside the rows that they reach.
proof fn lemma_combination_absent<T: Scalar>(
    a: CscModel<T>,
    cols: Seq<usize>,
    rows: Seq<usize>,
    y: Seq<T>,
    i: int,
)
    requires
        exact_field::<T>(),
        is_union(a.pattern, cols, rows),
        0 <= i < a.pattern.nrows,
        !rows.contains(i as usize),
        forall|c: int| 0 <= c < cols.len() ==> (#[trigger] cols[c]) < a.pattern.ncols,
    ensures
        combination(a, cols, y, i) == T::null(),
{
    let h = |c: int| dense_entry(a, i, cols[c] as int).times(y[c]);
    assert forall|c: int| 0 <= c < cols.len() implies #[trigger] h(c) == T::null() by {
        assert(cols[c] < a.pattern.ncols);
        if a.pattern.has(i, cols[c] as int) {
            assert(covers(a.pattern, cols, i)) by {
                assert(links(a.pattern, i, cols[c] as int));
            }
        }
        lemma_times_commutes(T::null(), y[c]);
        lemma_null_absorbs(y[c]);
    }
    lemma_sum_null(h, cols.len() as int);
}

/// In exact arithmetic, with a kernel that returns least-squares minimisers, no
/// vector on the pattern of column `k` has a shorter residual `A y - e_k` than
/// column `k` of `M`.
pub proof fn law_column_is_shortest<T: Scalar, F: Fn(&Mat<T>, &Mat<T>) -> Mat<T>>(
    lstsq: F,
    v: spec_fn(T::Real) -> real,
    a: CscModel<T>,
    power: int,
    m: CscModel<T>,
    k: int,
    y: Seq<T>,
)
    requires
        exact_field::<T>(),
        lstsq_minimises(lstsq, v),
        fits_columns(lstsq),
        a.wf(),
        a.pattern.nrows == a.pattern.ncols,
        m.wf(),
        m.pattern.nrows == a.pattern.ncols,
        m.pattern.ncols == a.pattern.ncols,
        0 <= k < m.pattern.ncols,
        column_fitted(lstsq, a, power, m, k),
        y.len() == m.pattern.col(k).len(),
    ensures
        column_residual(v, a, m, k) <= combination_residual(v, a, m.pattern.col(k), y, k),
{
    let n = a.pattern.nrows as int;
    let cols = m.pattern.col(k);
    m.pattern.lemma_col_bounds(k);
    let (rows, s, e, x) = law_column_is_local(lstsq, a, power, m, k);
    assert forall|c: int| 0 <= c < cols.len() implies (#[trigger] cols[c]) < a.pattern.ncols by {
        assert(cols[c] == m.pattern.row_idx@[m.pattern.start(k) + c]);
    }
    assert forall|t: int| 0 <= t < rows.len() implies (#[trigger] rows[t]) < n by {
        assert(rows.contains(rows[t]));
        assert(covers(a.pattern, cols, rows[t] as int));
    }
    let fx = |i: int| v(times_entry(a, m, i, k).minus(delta::<T>(i, k)).magnitude_squared());
    let fy = |i: int|
        v(combination(a, cols, y, i).minus(delta::<T>(i, k)).magnitude_squared());
    let h = |i: int| fx(i) - fy(i);
    let px = |t: int| v(row_times(s, x.col(0), t).minus(e.at(t, 0)).magnitude_squared());
    let py = |t: int| v(row_times(s, y, t).minus(e.at(t, 0)).magnitude_squared());
    let p = |t: int| px(t) - py(t);
    assert forall|t: int| 0 <= t < rows.len() implies #[trigger] p(t) == h(rows[t] as int) by {
        let i = rows[t] as int;
        assert(e.at(t, 0) == delta::<T>(i, k));
        assert(times_entry(a, m, rows[t] as int, k) == row_times(s, x.col(0), t));
        let g = |c: int| s.at(t, c).times(y[c]);
        let w = |c: int| dense_entry(a, i, cols[c] as int).times(y[c]);
        assert forall|c: int| 0 <= c < cols.len() implies #[trigger] g(c) == w(c) by {
            assert(s.at(t, c) == dense_entry(a, rows[t] as int, cols[c] as int));
        }
        lemma_sum_equal(g, w, cols.len() as int);
        assert(row_times(s, y, t) == combination(a, cols, y, i));
    }
    assert forall|i: int|
        0 <= i < n && (forall|t: int| 0 <= t < rows.len() ==> #[trigger] rows[t] != i) implies
        #[trigger] h(i) == 0real by {
        assert(!rows.contains(i as usize));
        lemma_combination_absent(a, cols, rows, y, i);
        assert(times_entry(a, m, i, k) == T::null());
    }
    lemma_real_support(h, rows, p, n);
    lemma_real_difference(fx, fy, h, n);
    lemma_real_difference(px, py, p, rows.len() as int);
    assert(call_ensures(lstsq, (&s, &e), x));
    assert(dense_residual(v, s, e, x.col(0)) <= dense_residual(v, s, e, y));
}

/// The squared Frobenius norm of the first `n` columns of `A M - I`.
pub open spec fn frobenius<T: Scalar>(
    v: spec_fn(T::Real) -> real,
    a: CscModel<T>,
    m: CscModel<T>,
    n: int,
) -> real {
    real_sum(|k: int| column_residual(v, a, m, k), n)
}

/// In exact arithmetic, with a kernel that returns least-squares minimisers, `M`
/// minimises the Frobenius norm of `A M - I` over all matrices with its pattern.
pub proof fn law_minimises_frobenius<T: Scalar, F: Fn(&Mat<T>, &Mat<T>) -> Mat<T>>(
    lstsq: F,
    v: spec_fn(T::Real) -> real,
    a: CscModel<T>,
    power: int,
    m: CscModel<T>,
    other: CscModel<T>,
    n: int,
)
    requires
        exact_field::<T>(),
        lstsq_minimises(lstsq, v),
        fits_columns(lstsq),
        a.wf(),
        a.pattern.nrows == a.pattern.ncols,
        m.wf(),
        m.pattern.nrows == a.pattern.ncols,
        m.pattern.ncols == a.pattern.ncols,
        forall|k: int|
            0 <= k < m.pattern.ncols ==> #[trigger] column_fitted(lstsq, a, power, m, k),
        other.wf(),
        other.pattern == m.pattern,
        0 <= n <= m.pattern.ncols,
    ensures
        frobenius(v, a, m, n) <= frobenius(v, a, other, n),
    decreases n,
{
    if n > 0 {
        let k = n - 1;
        law_minimises_frobenius(lstsq, v, a, power, m, other, k);
        assert(column_fitted(lstsq, a, power, m, k));
        let p = m.pattern;
        p.lemma_col_bounds(k);
        let cols = p.col(k);
        let y = other.values.subrange(p.start(k), p.end(k));
        law_column_is_shortest(lstsq, v, a, power, m, k, y);
        let fo = |i: int|
            v(times_entry(a, other, i, k).minus(delta::<T>(i, k)).magnitude_squared());
        let fy = |i: int|
            v(combination(a, cols, y, i).minus(delta::<T>(i, k)).magnitude_squared());
        let zero = |i: int| 0real;
        assert forall|i: int| 0 <= i < a.pattern.nrows implies #[trigger] zero(i) == fo(i) - fy(
            i,
        ) by {
            lemma_times_listed(a, other, i, k);
            let g = |t: int|
                dense_entry(a, i, cols[t] as int).times(other.values[p.start(k) + t]);
            let w = |t: int| dense_entry(a, i, cols[t] as int).times(y[t]);
            assert forall|t: int| 0 <= t < cols.len() implies #[trigger] g(t) == w(t) by {}
            lemma_sum_equal(g, w, cols.len() as int);
        }
        lemma_real_difference(fo, fy, zero, a.pattern.nrows as int);
        lemma_real_zero(a.pattern.nrows as int);
    }
}

proof fn lemma_real_zero(n: int)
    ensures
        real_sum(|i: int| 0real, n) == 0real,
    decreases n,
{
    if n > 0 {
        lemma_real_zero(n - 1);
    }
}

} // verus!
