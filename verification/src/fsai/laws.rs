//! What the rows of FSAI satisfy, and when they invert `A`.
use super::factor::{
    attempted, hermitian_entry, is_local_block, is_lower_row, pivot, row_built, scaled_entry,
    solves_spd, Fsai,
};
use crate::dense::Mat;
use crate::forms::sparse_entries;
use crate::inverse::{dense_times, hermitian_of, is_solution, row_times};
use crate::linalg::{law_spmv, product};
use crate::lu::dense_entry;
use crate::op::{Op, Preconditioner};
use crate::overlay::dense;
use crate::scalar::{
    conj_if, conjugation_fixes_reals, exact_conjugation, exact_field, exact_roots, is_real,
    lemma_conj_if_inverts, lemma_embed_conjugate, lemma_null_absorbs, lemma_reciprocal_inverts,
    lemma_root_squares, lemma_times_associates, lemma_times_cancels, lemma_times_commutes,
    lemma_unit_is_neutral, vanishes, RealScalar, Scalar,
};
use crate::sparse::{stored, CscModel, CscRef};
use crate::sums::{
    lemma_conj_sum, lemma_dot_sum, lemma_matvec_sum, lemma_sum_equal, lemma_sum_single,
    lemma_sum_support, lemma_sum_swap, lemma_times_sum, sum,
};
use crate::util::powers::{ascending, lemma_diagonal_reaches};
use crate::util::unit::is_unit_column;
use vstd::prelude::*;

verus! {

/// A solution that `llt` returns solves its system.
pub open spec fn llt_exact<T: Scalar, F: Fn(&Mat<T>, &Mat<T>) -> Option<Mat<T>>>(llt: F) -> bool {
    forall|s: Mat<T>, e: Mat<T>, x: Option<Mat<T>>| #[trigger]
        call_ensures(llt, (&s, &e), x) && x is Some ==> is_solution(s, e, x->0.col(0))
}

/// The diagonal of `a` is real.
pub open spec fn diagonal_is_real<T: Scalar>(a: CscModel<T>) -> bool {
    forall|j: int| 0 <= j < a.pattern.ncols ==> is_real(#[trigger] dense_entry(a, j, j))
}

/// The entry `(i, j)` of `G A`, with `A` Hermitian.
pub open spec fn left_entry<T: Scalar>(g: CscModel<T>, a: CscModel<T>, i: int, j: int) -> T {
    sum(
        |r: int| dense_entry(g, i, r).times(hermitian_entry(a, r, j)),
        a.pattern.ncols as int,
    )
}

/// The entry `(i, i)` of `G A G^H`.
pub open spec fn diagonal_entry<T: Scalar>(g: CscModel<T>, a: CscModel<T>, i: int) -> T {
    sum(
        |j: int| left_entry(g, a, i, j).times(dense_entry(g, i, j).conjugate()),
        a.pattern.ncols as int,
    )
}

/// The mirrored entries of a Hermitian matrix are conjugates.
proof fn lemma_hermitian<T: Scalar>(a: CscModel<T>, r: int, c: int)
    requires
        exact_conjugation::<T>(),
        exact_roots::<T>(),
        diagonal_is_real(a),
        0 <= r < a.pattern.ncols,
        0 <= c < a.pattern.ncols,
    ensures
        hermitian_entry(a, r, c) == hermitian_entry(a, c, r).conjugate(),
{
    reveal(exact_conjugation);
    if r == c {
        let d = dense_entry(a, r, r);
        assert(is_real(d));
        lemma_embed_conjugate::<T>(d.real_part());
    }
}

/// The reciprocal of a real scalar is real.
proof fn lemma_real_reciprocal<T: Scalar>(r: T::Real)
    requires
        exact_field::<T>(),
        exact_conjugation::<T>(),
        exact_roots::<T>(),
        !vanishes(T::embed(r)),
    ensures
        T::embed(r).reciprocal().conjugate() == T::embed(r).reciprocal(),
{
    let e = T::embed(r);
    let d = e.reciprocal();
    lemma_embed_conjugate::<T>(r);
    lemma_conj_if_inverts(true, e);
    lemma_reciprocal_inverts(e);
    lemma_times_commutes(d.conjugate(), e);
    lemma_times_commutes(d, e);
    lemma_times_cancels(e, d.conjugate(), d);
}

/// The last entry of a solution of `S x = e_last` with a Hermitian `S` is real.
proof fn lemma_last_real<T: Scalar>(s: Mat<T>, e: Mat<T>, x: Seq<T>)
    requires
        exact_field::<T>(),
        exact_conjugation::<T>(),
        x.len() > 0,
        s.nrows == x.len(),
        s.ncols == x.len(),
        is_solution(s, e, x),
        forall|r: int, c: int|
            0 <= r < x.len() && 0 <= c < x.len() ==> #[trigger] s.at(r, c) == s.at(
                c,
                r,
            ).conjugate(),
        forall|r: int|
            0 <= r < x.len() ==> #[trigger] e.at(r, 0) == if r == x.len() - 1 {
                T::unit()
            } else {
                T::null()
            },
    ensures
        x.last().conjugate() == x.last(),
{
    let m = x.len() as int;
    let cell = |q: int, t: int| x[q].conjugate().times(s.at(q, t).times(x[t]));
    let by_row = |q: int| sum(|t: int| cell(q, t), m);
    let by_col = |t: int| sum(|q: int| cell(q, t), m);
    let whole = sum(by_row, m);
    lemma_sum_swap(cell, m, m);
    assert forall|q: int| 0 <= q < m implies #[trigger] by_row(q) == x[q].conjugate().times(
        e.at(q, 0),
    ) by {
        let inner = |t: int| s.at(q, t).times(x[t]);
        assert(row_times(s, x, q) == e.at(q, 0));
        lemma_times_sum(x[q].conjugate(), inner, m);
        lemma_sum_equal(|t: int| cell(q, t), |t: int| x[q].conjugate().times(inner(t)), m);
    }
    assert forall|q: int| 0 <= q < m && q != m - 1 implies #[trigger] by_row(q) == T::null() by {
        assert(e.at(q, 0) == T::null());
        lemma_null_absorbs(x[q].conjugate());
    }
    lemma_sum_single(by_row, m, m - 1);
    assert(e.at(m - 1, 0) == T::unit());
    lemma_unit_is_neutral(x.last().conjugate());
    assert(whole == x.last().conjugate());
    lemma_conj_sum(true, by_row, m);
    let conj_row = |q: int| conj_if(true, by_row(q));
    assert forall|q: int| 0 <= q < m implies #[trigger] conj_row(q) == by_col(q) by {
        let row = |t: int| cell(q, t);
        let col = |t: int| cell(t, q);
        lemma_conj_sum(true, row, m);
        let conj = |t: int| conj_if(true, row(t));
        assert forall|t: int| 0 <= t < m implies #[trigger] conj(t) == col(t) by {
            reveal(exact_conjugation);
            let y = s.at(q, t).times(x[t]);
            assert(x[q].conjugate().times(y).conjugate() == x[q].conjugate().conjugate().times(
                y.conjugate(),
            ));
            assert(y.conjugate() == s.at(q, t).conjugate().times(x[t].conjugate()));
            assert(s.at(t, q) == s.at(q, t).conjugate());
            lemma_times_commutes(s.at(t, q), x[t].conjugate());
            lemma_times_commutes(x[q], x[t].conjugate().times(s.at(t, q)));
            lemma_times_associates(x[t].conjugate(), s.at(t, q), x[q]);
        }
        lemma_sum_equal(conj, col, m);
    }
    lemma_sum_equal(conj_row, by_col, m);
    reveal(exact_conjugation);
}

/// The rows, the local system and the solution behind row `i`.
proof fn lemma_row_parts<T: Scalar, F: Fn(&Mat<T>, &Mat<T>) -> Option<Mat<T>>>(
    llt: F,
    a: CscModel<T>,
    power: int,
    g: CscModel<T>,
    i: int,
) -> (r: (Seq<usize>, Mat<T>, Mat<T>, Mat<T>))
    requires
        row_built(llt, a, power, g, i),
        llt_exact(llt),
        solves_spd(llt),
    ensures
        is_lower_row(a.pattern, power, i, r.0),
        is_local_block(a, r.0, r.1),
        is_unit_column(r.0, i, r.2),
        r.3.nrows == r.0.len(),
        is_solution(r.1, r.2, r.3.col(0)),
        T::Real::null().below(pivot(r.3)),
        forall|c: usize| #[trigger]
            r.0.contains(c) <==> c < g.pattern.ncols && g.pattern.has(i, c as int),
        forall|k: int|
            0 <= k < r.0.len() ==> g.entry(i, #[trigger] r.0[k] as int) == scaled_entry(r.3, k),
{
    let (rows, x) = choose|rows: Seq<usize>, x: Mat<T>|
        {
            &&& is_lower_row(a.pattern, power, i, rows)
            &&& #[trigger] attempted(llt, a, rows, Some(x))
            &&& T::Real::null().below(pivot(x))
            &&& forall|c: usize| #[trigger]
                rows.contains(c) <==> c < g.pattern.ncols && g.pattern.has(i, c as int)
            &&& forall|k: int|
                0 <= k < rows.len() ==> g.entry(i, #[trigger] rows[k] as int) == scaled_entry(x, k)
        };
    assert(attempted(llt, a, rows, Some(x)));
    let (s, e) = choose|s: Mat<T>, e: Mat<T>|
        {
            &&& is_local_block(a, rows, s)
            &&& is_unit_column(rows, rows.last() as int, e)
            &&& #[trigger] call_ensures(llt, (&s, &e), Some(x))
        };
    assert(call_ensures(llt, (&s, &e), Some(x)));
    (rows, s, e, x)
}

/// A sum over row `i` of `G` runs over its pattern.
proof fn lemma_row_sum<T: Scalar>(g: CscModel<T>, rows: Seq<usize>, i: int, f: spec_fn(int) -> T)
    requires
        exact_field::<T>(),
        ascending(rows),
        forall|c: usize| #[trigger]
            rows.contains(c) <==> c < g.pattern.ncols && g.pattern.has(i, c as int),
        forall|c: int|
            0 <= c < g.pattern.ncols && !g.pattern.has(i, c) ==> #[trigger] f(c) == T::null(),
    ensures
        sum(f, g.pattern.ncols as int) == sum(
            |t: int| f(rows[t] as int),
            rows.len() as int,
        ),
{
    let n = g.pattern.ncols as int;
    assert forall|t: int| 0 <= t < rows.len() implies (#[trigger] rows[t]) < n by {
        assert(rows.contains(rows[t]));
    }
    assert forall|k: int|
        0 <= k < n && (forall|t: int| 0 <= t < rows.len() ==> #[trigger] rows[t] != k) implies
        #[trigger] f(k) == T::null() by {
        if g.pattern.has(i, k) {
            assert(rows.contains(k as usize));
            let t = rows.index_of(k as usize);
            assert(rows[t] == k);
        }
    }
    lemma_sum_support(f, rows, n);
}

/// What `G A` holds in row `i` at the places of the pattern.
proof fn lemma_left<T: Scalar>(
    a: CscModel<T>,
    g: CscModel<T>,
    i: int,
    rows: Seq<usize>,
    s: Mat<T>,
    e: Mat<T>,
    x: Mat<T>,
    q: int,
)
    requires
        exact_field::<T>(),
        exact_conjugation::<T>(),
        exact_roots::<T>(),
        diagonal_is_real(a),
        g.pattern.ncols == a.pattern.ncols,
        ascending(rows),
        is_local_block(a, rows, s),
        is_unit_column(rows, i, e),
        x.nrows == rows.len(),
        is_solution(s, e, x.col(0)),
        forall|c: usize| #[trigger]
            rows.contains(c) <==> c < g.pattern.ncols && g.pattern.has(i, c as int),
        forall|k: int|
            0 <= k < rows.len() ==> g.entry(i, #[trigger] rows[k] as int) == scaled_entry(x, k),
        0 <= q < rows.len(),
    ensures
        left_entry(g, a, i, rows[q] as int) == T::embed(pivot(x).root()).reciprocal().times(
            if rows[q] == i {
                T::unit()
            } else {
                T::null()
            },
        ),
{
    let n = a.pattern.ncols as int;
    let m = rows.len() as int;
    let j = rows[q] as int;
    let d = T::embed(pivot(x).root()).reciprocal();
    let y = x.col(0);
    let f = |r: int| dense_entry(g, i, r).times(hermitian_entry(a, r, j));
    assert forall|c: int| 0 <= c < n && !g.pattern.has(i, c) implies #[trigger] f(c)
        == T::null() by {
        lemma_times_commutes(T::null(), hermitian_entry(a, c, j));
        lemma_null_absorbs(hermitian_entry(a, c, j));
    }
    lemma_row_sum(g, rows, i, f);
    let inner = |t: int| s.at(q, t).times(y[t]);
    let conj = |t: int| conj_if(true, inner(t));
    lemma_conj_sum(true, inner, m);
    lemma_times_sum(d, conj, m);
    assert(row_times(s, y, q) == e.at(q, 0));
    let listed = |t: int| f(rows[t] as int);
    let scaled = |t: int| d.times(conj(t));
    assert forall|t: int| 0 <= t < m implies #[trigger] listed(t) == scaled(t) by {
        assert(rows.contains(rows[t]));
        assert(rows.contains(rows[q]));
        assert(g.entry(i, rows[t] as int) == scaled_entry(x, t));
        assert(dense_entry(g, i, rows[t] as int) == d.times(y[t].conjugate()));
        lemma_hermitian(a, rows[t] as int, j);
        assert(s.at(q, t) == hermitian_entry(a, rows[q] as int, rows[t] as int));
        reveal(exact_conjugation);
        assert(s.at(q, t).times(y[t]).conjugate() == s.at(q, t).conjugate().times(
            y[t].conjugate(),
        ));
        lemma_times_commutes(s.at(q, t).conjugate(), y[t].conjugate());
        lemma_times_associates(d, y[t].conjugate(), s.at(q, t).conjugate());
    }
    lemma_sum_equal(listed, scaled, m);
    assert(conj_if(true, e.at(q, 0)) == (if rows[q] == i {
        T::unit()
    } else {
        T::null()
    })) by {
        reveal(exact_conjugation);
    }
}

/// With an exact kernel, row `i` of `G A` is zero at every place of its pattern
/// but the diagonal, for a Hermitian `A`.
pub proof fn law_row_annihilates<T: Scalar, F: Fn(&Mat<T>, &Mat<T>) -> Option<Mat<T>>>(
    llt: F,
    a: CscModel<T>,
    power: int,
    g: CscModel<T>,
    i: int,
    j: int,
)
    requires
        exact_field::<T>(),
        exact_conjugation::<T>(),
        exact_roots::<T>(),
        diagonal_is_real(a),
        llt_exact(llt),
        solves_spd(llt),
        g.pattern.ncols == a.pattern.ncols,
        row_built(llt, a, power, g, i),
        0 <= j < g.pattern.ncols,
        j != i,
        g.pattern.has(i, j),
    ensures
        left_entry(g, a, i, j) == T::null(),
{
    let (rows, s, e, x) = lemma_row_parts(llt, a, power, g, i);
    assert(rows.contains(j as usize));
    let q = rows.index_of(j as usize);
    lemma_left(a, g, i, rows, s, e, x, q);
    lemma_null_absorbs(T::embed(pivot(x).root()).reciprocal());
}

/// With an exact kernel, row `i` of the product of `G` with the Hermitian matrix that
/// has the lower triangle of `A` is zero at every place of its pattern but the
/// diagonal: the upper triangle of `A` is not read.
pub proof fn law_row_annihilates_lower<T: Scalar, F: Fn(&Mat<T>, &Mat<T>) -> Option<Mat<T>>>(
    llt: F,
    a: CscModel<T>,
    power: int,
    g: CscModel<T>,
    i: int,
    j: int,
)
    requires
        exact_field::<T>(),
        exact_conjugation::<T>(),
        exact_roots::<T>(),
        diagonal_is_real(a),
        llt_exact(llt),
        solves_spd(llt),
        g.pattern.ncols == a.pattern.ncols,
        row_built(llt, a, power, g, i),
        0 <= j < g.pattern.ncols,
        j != i,
        g.pattern.has(i, j),
    ensures
        sum(
            |r: int| dense_entry(g, i, r).times(hermitian_of(sparse_entries(a))(r, j)),
            a.pattern.ncols as int,
        ) == T::null(),
{
    law_row_annihilates(llt, a, power, g, i, j);
    lemma_sum_equal(
        |r: int| dense_entry(g, i, r).times(hermitian_entry(a, r, j)),
        |r: int| dense_entry(g, i, r).times(hermitian_of(sparse_entries(a))(r, j)),
        a.pattern.ncols as int,
    );
}

/// With an exact kernel, `G A G^H` has ones on its diagonal, for a Hermitian `A`.
pub proof fn law_unit_diagonal<T: Scalar, F: Fn(&Mat<T>, &Mat<T>) -> Option<Mat<T>>>(
    llt: F,
    a: CscModel<T>,
    power: int,
    g: CscModel<T>,
    i: int,
)
    requires
        exact_field::<T>(),
        exact_conjugation::<T>(),
        exact_roots::<T>(),
        conjugation_fixes_reals::<T>(),
        diagonal_is_real(a),
        llt_exact(llt),
        solves_spd(llt),
        g.pattern.ncols == a.pattern.ncols,
        row_built(llt, a, power, g, i),
        0 <= i < g.pattern.ncols,
    ensures
        diagonal_entry(g, a, i) == T::unit(),
{
    let (rows, s, e, x) = lemma_row_parts(llt, a, power, g, i);
    let m = rows.len() as int;
    let n = a.pattern.ncols as int;
    let y = x.col(0);
    let root = T::embed(pivot(x).root());
    let d = root.reciprocal();
    let f = |j: int| left_entry(g, a, i, j).times(dense_entry(g, i, j).conjugate());
    assert forall|c: int| 0 <= c < n && !g.pattern.has(i, c) implies #[trigger] f(c)
        == T::null() by {
        reveal(exact_conjugation);
        lemma_null_absorbs(left_entry(g, a, i, c));
    }
    lemma_row_sum(g, rows, i, f);
    let listed = |t: int| f(rows[t] as int);
    assert forall|t: int| 0 <= t < m && t != m - 1 implies #[trigger] listed(t) == T::null() by {
        lemma_left(a, g, i, rows, s, e, x, t);
        assert(rows[t] < rows[m - 1]);
        lemma_null_absorbs(d);
        let z = dense_entry(g, i, rows[t] as int).conjugate();
        lemma_times_commutes(T::null(), z);
        lemma_null_absorbs(z);
    }
    lemma_sum_single(listed, m, m - 1);
    lemma_left(a, g, i, rows, s, e, x, m - 1);
    lemma_unit_is_neutral(d);
    assert forall|r: int, c: int| 0 <= r < m && 0 <= c < m implies #[trigger] s.at(r, c) == s.at(
        c,
        r,
    ).conjugate() by {
        assert(rows.contains(rows[r]) && rows.contains(rows[c]));
        lemma_hermitian(a, rows[r] as int, rows[c] as int);
        assert(s.at(c, r) == hermitian_entry(a, rows[c] as int, rows[r] as int));
    }
    assert forall|r: int| 0 <= r < m implies #[trigger] e.at(r, 0) == (if r == m - 1 {
        T::unit()
    } else {
        T::null()
    }) by {
        if r < m - 1 {
            assert(rows[r] < rows[m - 1]);
        }
    }
    lemma_last_real(s, e, y);
    let z = y.last();
    assert(is_real(z));
    lemma_root_squares::<T>(pivot(x));
    assert(root.times(root) == z);
    lemma_real_reciprocal::<T>(pivot(x).root());
    assert(rows.contains(rows[m - 1]));
    assert(g.entry(i, rows[m - 1] as int) == scaled_entry(x, m - 1));
    assert(dense_entry(g, i, i) == d.times(z.conjugate()));
    assert(d.times(z).conjugate() == d.times(z)) by {
        reveal(exact_conjugation);
        assert(d.times(z).conjugate() == d.conjugate().times(z.conjugate()));
    }
    lemma_times_associates(d, root, root);
    lemma_reciprocal_inverts(root);
    lemma_times_commutes(T::unit(), root);
    lemma_unit_is_neutral(root);
    assert(d.times(z) == root);
}

/// With an exact kernel, FSAI of a diagonal matrix inverts it.
pub proof fn law_inverts_diagonal<T: Scalar, F: Fn(&Mat<T>, &Mat<T>) -> Option<Mat<T>>>(
    llt: F,
    f: Fsai<T>,
    a: CscRef<'_, T>,
    power: int,
    x: Seq<T>,
)
    requires
        exact_field::<T>(),
        exact_conjugation::<T>(),
        exact_roots::<T>(),
        conjugation_fixes_reals::<T>(),
        diagonal_is_real(a@),
        llt_exact(llt),
        solves_spd(llt),
        a.wf(),
        power >= 1,
        forall|i: int, j: int| #[trigger] stored(*a.pattern)(i, j) ==> i == j,
        f.wf(),
        f.g.pattern.ncols == a.pattern.ncols,
        forall|i: int|
            0 <= i < a.pattern.ncols ==> #[trigger] row_built(llt, a@, power, f.g_model(), i),
        x.len() == a.pattern.ncols,
        a.pattern.nrows == a.pattern.ncols,
    ensures
        dense_times(dense(a), f.action(Op::Apply, x)) == x,
{
    let n = x.len() as int;
    let g = f.g_model();
    let y = product(g, false, false, x);
    let z = product(g, true, true, y);
    if n > 0 {
        law_spmv(g, x, n, 0);
    }
    assert(y.len() == n);
    assert forall|i: int| 0 <= i < n implies #[trigger] dense_times(dense(a), z)[i] == x[i] by {
        let gi = dense_entry(g, i, i);
        let ai = dense_entry(a@, i, i);
        assert(row_built(llt, a@, power, g, i));
        lemma_diagonal_row(llt, a@, power, g, i);
        law_spmv(g, x, n, i);
        lemma_matvec_sum(g, x, i, n);
        let fy = |j: int| dense_entry(g, i, j).times(x[j]);
        assert forall|j: int| 0 <= j < n && j != i implies #[trigger] fy(j) == T::null() by {
            lemma_times_commutes(T::null(), x[j]);
            lemma_null_absorbs(x[j]);
        }
        lemma_sum_single(fy, n, i);
        assert(y[i] == gi.times(x[i]));
        lemma_dot_sum(g, true, y, i);
        let fz = |r: int| conj_if(true, dense_entry(g, r, i)).times(y[r]);
        assert forall|r: int| 0 <= r < n && r != i implies #[trigger] fz(r) == T::null() by {
            assert(row_built(llt, a@, power, g, r));
            lemma_diagonal_row(llt, a@, power, g, r);
            reveal(exact_conjugation);
            lemma_times_commutes(T::null(), y[r]);
            lemma_null_absorbs(y[r]);
        }
        lemma_sum_single(fz, n, i);
        assert(z[i] == gi.conjugate().times(y[i]));
        let fa = |j: int| dense(a)(i, j).times(z[j]);
        assert forall|j: int| 0 <= j < n && j != i implies #[trigger] fa(j) == T::null() by {
            assert(!stored(*a.pattern)(i, j));
            lemma_times_commutes(T::null(), z[j]);
            lemma_null_absorbs(z[j]);
        }
        lemma_sum_single(fa, n, i);
        assert(dense_times(dense(a), z)[i] == ai.times(z[i]));
        law_unit_diagonal(llt, a@, power, g, i);
        let fl = |r: int| dense_entry(g, i, r).times(hermitian_entry(a@, r, i));
        assert forall|r: int| 0 <= r < n && r != i implies #[trigger] fl(r) == T::null() by {
            lemma_times_commutes(T::null(), hermitian_entry(a@, r, i));
            lemma_null_absorbs(hermitian_entry(a@, r, i));
        }
        lemma_sum_single(fl, n, i);
        let fd = |j: int| left_entry(g, a@, i, j).times(dense_entry(g, i, j).conjugate());
        assert forall|j: int| 0 <= j < n && j != i implies #[trigger] fd(j) == T::null() by {
            reveal(exact_conjugation);
            lemma_null_absorbs(left_entry(g, a@, i, j));
        }
        lemma_sum_single(fd, n, i);
        assert(gi.times(ai).times(gi.conjugate()) == T::unit());
        lemma_times_associates(gi.conjugate(), gi, x[i]);
        lemma_times_associates(ai, gi.conjugate().times(gi), x[i]);
        lemma_times_associates(ai, gi.conjugate(), gi);
        lemma_times_commutes(ai.times(gi.conjugate()), gi);
        lemma_times_associates(gi, ai, gi.conjugate());
        lemma_times_commutes(T::unit(), x[i]);
        lemma_unit_is_neutral(x[i]);
    }
    assert(z.len() == n);
    assert(dense_times(dense(a), z) =~= x);
}

/// Over a diagonal matrix a row of `G` holds its diagonal entry only.
proof fn lemma_diagonal_row<T: Scalar, F: Fn(&Mat<T>, &Mat<T>) -> Option<Mat<T>>>(
    llt: F,
    a: CscModel<T>,
    power: int,
    g: CscModel<T>,
    i: int,
)
    requires
        power >= 1,
        forall|i: int, j: int| #[trigger] stored(a.pattern)(i, j) ==> i == j,
        row_built(llt, a, power, g, i),
        llt_exact(llt),
        solves_spd(llt),
        0 <= i < g.pattern.ncols,
    ensures
        forall|j: int|
            0 <= j < g.pattern.ncols && j != i ==> #[trigger] dense_entry(g, i, j) == T::null(),
{
    let (rows, s, e, x) = lemma_row_parts(llt, a, power, g, i);
    assert forall|j: int| 0 <= j < g.pattern.ncols && j != i implies #[trigger] dense_entry(
        g,
        i,
        j,
    ) == T::null() by {
        if g.pattern.has(i, j) {
            assert(rows.contains(j as usize));
            lemma_diagonal_reaches(a.pattern, power, i, j);
        }
    }
}

/// The adjoint apply is the apply, and the transposed apply the conjugated one:
/// `M` is Hermitian.
pub proof fn law_self_adjoint<T: Scalar>(f: Fsai<T>, x: Seq<T>)
    ensures
        f.action(Op::Adjoint, x) == f.action(Op::Apply, x),
        f.action(Op::Transpose, x) == f.action(Op::Conj, x),
{
}

} // verus!
