//! What SSOR inverts, when its transpose is its apply, and what a refactorisation
//! computes.
use super::factor::{
    column_filled, column_ok, columns_ok, lemma_diagonal_value, lemma_splits_agree, relaxation,
    Ssor,
};
use crate::ilu0::numeric::{lemma_source_is_entry, source};
use crate::ilu0::symbolic::law_zero_fill;
use crate::inverse::{
    dense_times, lemma_lower_injective, lemma_lower_transpose_times, lemma_times_vector,
    lemma_upper_injective, transposed,
};
use crate::linalg::{
    law_lower_solve, law_lower_transpose_solve, law_upper_solve, law_upper_transpose_solve,
    lemma_solve_lengths, lower_diag_ok, lower_solve, lower_transpose_solve, scaled_rows,
    upper_diag_ok, upper_solve, upper_transpose_solve,
};
use crate::lu::{dense_entry, lemma_lower_col, lemma_upper_col};
use crate::op::{Op, Preconditioner};
use crate::overlay::dense;
use crate::scalar::{
    conj_if, exact_conjugation, exact_field, exact_roots, lemma_conj_if_inverts,
    lemma_embed_conjugate, lemma_null_absorbs, lemma_reciprocal_inverts, lemma_times_associates,
    lemma_times_commutes, lemma_unit_is_neutral, vanishes, Scalar,
};
use crate::sparse::{entries, stored, CscRef};
use crate::sums::{lemma_dot_sum, lemma_matvec_sum, lemma_sum_equal, lemma_sum_single};
use crate::triangular::{lower_transpose_times, times_vector};
use crate::util::diag_split::splittable;
use vstd::prelude::*;

verus! {

/// `m` is what [`Ssor::try_new`] makes of `a`.
pub open spec fn is_ssor_of<T: Scalar>(m: Ssor<T>, a: CscRef<'_, T>) -> bool {
    &&& a.wf()
    &&& splittable(*a.pattern)
    &&& m.wf()
    &&& m.pattern.describes(*a.pattern)
    &&& m.splits(entries(a))
    &&& forall|j: int| 0 <= j < a.pattern.ncols ==> !vanishes(#[trigger] a.entry(j, j))
}

/// The buffers hold the splitting of `A`: `(D + w L)`, `(D + w U)` and
/// `w (2 - w) D`.
pub proof fn law_holds_splitting<T: Scalar>(m: Ssor<T>, a: CscRef<'_, T>, i: int, j: int)
    requires
        exact_field::<T>(),
        is_ssor_of(m, a),
        0 <= i < a.pattern.ncols,
        0 <= j < a.pattern.ncols,
    ensures
        dense_entry(m.l_model(), i, j) == if i == j {
            dense(a)(j, j)
        } else if i > j {
            T::embed(T::tuned(m.omega)).times(dense(a)(i, j))
        } else {
            T::null()
        },
        dense_entry(m.u_model(), i, j) == if i == j {
            dense(a)(j, j)
        } else if i < j {
            T::embed(T::tuned(m.omega)).times(dense(a)(i, j))
        } else {
            T::null()
        },
        m.scaled_diag@[j] == T::embed(T::tuned(relaxation(m.omega))).times(dense(a)(j, j)),
        dense(a)(j, j) == a.entry(j, j),
{
    let s = m.pattern;
    let n = s.dim as int;
    let p = *a.pattern;
    law_zero_fill(s, p);
    assert(column_filled(
        s,
        m.omega,
        entries(a),
        m.scaled_diag@,
        m.l_values@,
        m.u_values@,
        j,
    ));
    assert(s.l.has(j, j)) by {
        assert(s.l.start(j) < s.l.end(j) && s.l.row_idx@[s.l.start(j)] == j);
        assert(s.l.in_col(s.l.start(j), j));
    }
    assert(p.has(j, j));
    lemma_null_absorbs(T::embed(T::tuned(m.omega)));
    if s.l.has(i, j) {
        s.l.lemma_find(i, j);
        lemma_lower_col(s.l, n, s.l.find(i, j), j);
    }
    if s.u.has(i, j) {
        s.u.lemma_find(i, j);
        lemma_upper_col(s.u, n, s.u.find(i, j), j);
    }
    assert(s.l.has(i, j) <==> i >= j && p.has(i, j));
    assert(s.u.has(i, j) <==> i <= j && p.has(i, j));
}

/// The reciprocals of the scaled diagonal `w (2 - w) D`.
pub open spec fn middle_inverse<T: Scalar>(m: Ssor<T>) -> Seq<T> {
    Seq::new(m.scaled_diag@.len(), |i: int| m.scaled_diag@[i].reciprocal())
}

/// In exact arithmetic the SSOR action inverts
/// `M = (D + w L) (w (2 - w) D)^{-1} (D + w U)`: multiplying its output by the
/// three factors gives the right-hand side back.
pub proof fn law_inverts_splitting<T: Scalar>(
    m: Ssor<T>,
    src: spec_fn(int, int) -> T,
    x: Seq<T>,
)
    requires
        exact_field::<T>(),
        m.wf(),
        m.splits(src),
        x.len() == m.pattern.dim,
        forall|j: int| 0 <= j < m.pattern.dim ==> !vanishes(#[trigger] src(j, j)),
        forall|j: int| 0 <= j < m.pattern.dim ==> !vanishes(#[trigger] m.scaled_diag@[j]),
    ensures
        ({
            let y = m.action(Op::Apply, x);
            let z = times_vector(m.u_model(), y);
            times_vector(m.l_model(), scaled_rows(middle_inverse(m), false, z)) == x
        }),
{
    let n = x.len() as int;
    let l = m.l_model();
    let u = m.u_model();
    lemma_filled_diags(m, src);
    let t = lower_solve(l, false, false, x, n);
    lemma_solve_lengths(l, u, false, false, x);
    let z = scaled_rows(m.scaled_diag@, false, t);
    lemma_solve_lengths(l, u, false, false, z);
    let y = upper_solve(u, false, z, n);
    assert forall|i: int| 0 <= i < n implies #[trigger] times_vector(u, y)[i] == z[i] by {
        law_upper_solve(u, z, i);
    }
    assert(times_vector(u, y) =~= z);
    assert forall|i: int| 0 <= i < n implies #[trigger] scaled_rows(
        middle_inverse(m),
        false,
        z,
    )[i] == t[i] by {
        let d = m.scaled_diag@[i];
        lemma_times_associates(d.reciprocal(), d, t[i]);
        lemma_reciprocal_inverts(d);
        lemma_times_commutes(T::unit(), t[i]);
        lemma_unit_is_neutral(t[i]);
    }
    assert(scaled_rows(middle_inverse(m), false, z) =~= t);
    assert forall|i: int| 0 <= i < n implies #[trigger] times_vector(l, t)[i] == x[i] by {
        law_lower_solve(l, false, x, i);
    }
    assert(times_vector(l, t) =~= x);
}

/// Both factors have the diagonal of the source.
pub proof fn lemma_filled_diags<T: Scalar>(m: Ssor<T>, src: spec_fn(int, int) -> T)
    requires
        m.wf(),
        m.splits(src),
        forall|j: int| 0 <= j < m.pattern.dim ==> !vanishes(#[trigger] src(j, j)),
    ensures
        lower_diag_ok(m.l_model(), false, m.pattern.dim as int),
        upper_diag_ok(m.u_model(), m.pattern.dim as int),
{
    let s = m.pattern;
    assert forall|j: int| 0 <= j < s.dim implies !vanishes(
        m.l_values@[#[trigger] s.l.start(j)],
    ) by {
        assert(column_filled(
            s,
            m.omega,
            src,
            m.scaled_diag@,
            m.l_values@,
            m.u_values@,
            j,
        ));
        assert(s.l.start(j) < s.l.end(j));
        assert(s.l.in_col(s.l.start(j), j));
        assert(!vanishes(src(j, j)));
    }
    assert forall|j: int| 0 <= j < s.dim implies !vanishes(
        m.u_values@[#[trigger] s.u.end(j) - 1],
    ) by {
        assert(column_filled(
            s,
            m.omega,
            src,
            m.scaled_diag@,
            m.l_values@,
            m.u_values@,
            j,
        ));
        assert(s.u.start(j) < s.u.end(j));
        assert(s.u.in_col(s.u.end(j) - 1, j));
        assert(!vanishes(src(j, j)));
    }
}

/// The transpose of `a`, conjugated where `conj` is set, is `a` itself.
pub open spec fn mirrors<T: Scalar>(a: spec_fn(int, int) -> T, conj: bool, n: int) -> bool {
    forall|i: int, j: int|
        0 <= i < n && 0 <= j < n ==> conj_if(conj, #[trigger] a(i, j)) == a(j, i)
}

/// Conjugation does not touch a real factor.
proof fn lemma_conj_scaled<T: Scalar>(conj: bool, r: T::Real, x: T)
    requires
        exact_conjugation::<T>(),
        exact_roots::<T>(),
    ensures
        conj_if(conj, T::embed(r).times(x)) == T::embed(r).times(conj_if(conj, x)),
{
    reveal(exact_conjugation);
    lemma_embed_conjugate::<T>(r);
    assert(T::embed(r).times(x).conjugate() == T::embed(r).conjugate().times(x.conjugate()));
}

/// In exact arithmetic the transposed apply is the apply when `A` is symmetric,
/// and the adjoint apply is the apply when `A` is Hermitian.
pub proof fn law_symmetric_transpose_is_apply<T: Scalar>(
    m: Ssor<T>,
    a: CscRef<'_, T>,
    op: Op,
    x: Seq<T>,
)
    requires
        exact_field::<T>(),
        exact_conjugation::<T>(),
        exact_roots::<T>(),
        is_ssor_of(m, a),
        op.transposes(),
        mirrors(dense(a), op.conjugates(), a.pattern.ncols as int),
        x.len() == a.pattern.ncols,
    ensures
        m.action(op, x) == m.action(Op::Apply, x),
{
    let n = x.len() as int;
    let conj = op.conjugates();
    let l = m.l_model();
    let u = m.u_model();
    let le = |i: int, j: int| dense_entry(l, i, j);
    let ue = |i: int, j: int| dense_entry(u, i, j);
    assert forall|j: int| 0 <= j < m.pattern.dim implies !vanishes(#[trigger] entries(a)(j, j)) by {
        assert(!vanishes(a.entry(j, j)));
    }
    lemma_filled_diags(m, entries(a));
    assert forall|i: int, j: int| 0 <= i < n && 0 <= j < n implies #[trigger] transposed(ue, conj)(
        i,
        j,
    ) == le(i, j) && transposed(le, conj)(i, j) == ue(i, j) by {
        law_holds_splitting(m, a, i, j);
        law_holds_splitting(m, a, j, i);
        lemma_conj_scaled(conj, T::tuned(m.omega), dense(a)(i, j));
        lemma_conj_scaled(conj, T::tuned(m.omega), dense(a)(j, i));
        assert(conj_if(conj, dense(a)(i, j)) == dense(a)(j, i));
        assert(conj_if(conj, dense(a)(j, i)) == dense(a)(i, j));
        reveal(exact_conjugation);
    }
    let y0 = lower_solve(l, false, false, x, n);
    let y1 = upper_transpose_solve(u, conj, x, n);
    lemma_solve_lengths(l, u, false, conj, x);
    assert forall|j: int| 0 <= j < n implies #[trigger] times_vector(l, y1)[j] == x[j] by {
        assert(!vanishes(u.values[u.pattern.end(j) - 1]));
        lemma_conj_if_inverts(conj, u.values[u.pattern.end(j) - 1]);
        law_upper_transpose_solve(u, conj, x, j);
        lemma_dot_sum(u, conj, y1, j);
        lemma_times_vector(l, y1);
        let f = |i: int| conj_if(conj, dense_entry(u, i, j)).times(y1[i]);
        let g = |i: int| le(j, i).times(y1[i]);
        assert forall|i: int| 0 <= i < n implies #[trigger] f(i) == g(i) by {
            assert(transposed(ue, conj)(j, i) == le(j, i));
        }
        lemma_sum_equal(f, g, n);
    }
    assert(times_vector(l, y1) =~= x);
    assert forall|i: int| 0 <= i < n implies #[trigger] times_vector(l, y0)[i] == x[i] by {
        law_lower_solve(l, false, x, i);
    }
    assert(times_vector(l, y0) =~= x);
    lemma_lower_injective(l, false, y1, y0, n);
    assert(y1 =~= y0);
    let z0 = scaled_rows(m.scaled_diag@, false, y0);
    let z1 = scaled_rows(m.scaled_diag@, conj, y1);
    assert forall|i: int| 0 <= i < n implies #[trigger] z1[i] == z0[i] by {
        law_holds_splitting(m, a, i, i);
        lemma_conj_scaled(conj, T::tuned(relaxation(m.omega)), dense(a)(i, i));
        assert(conj_if(conj, dense(a)(i, i)) == dense(a)(i, i));
    }
    assert(z1 =~= z0);
    let v0 = upper_solve(u, false, z0, n);
    let v1 = lower_transpose_solve(l, false, conj, z0, n);
    lemma_solve_lengths(l, u, false, conj, z0);
    lemma_lower_transpose_times(l, conj, v1);
    lemma_times_vector(u, v1);
    assert forall|j: int| 0 <= j < n implies #[trigger] times_vector(u, v1)[j] == z0[j] by {
        assert(!vanishes(l.values[l.pattern.start(j)]));
        lemma_conj_if_inverts(conj, l.values[l.pattern.start(j)]);
        law_lower_transpose_solve(l, false, conj, z0, j);
        let q = transposed(le, conj);
        assert(lower_transpose_times(l, conj, v1)[j] == z0[j]);
        let f = |i: int| q(j, i).times(v1[i]);
        let g = |i: int| ue(j, i).times(v1[i]);
        assert forall|i: int| 0 <= i < n implies #[trigger] f(i) == g(i) by {
            assert(transposed(ue, conj)(j, i) == le(j, i));
        }
        lemma_sum_equal(f, g, n);
    }
    assert(times_vector(u, v1) =~= z0);
    assert forall|i: int| 0 <= i < n implies #[trigger] times_vector(u, v0)[i] == z0[i] by {
        law_upper_solve(u, z0, i);
    }
    assert(times_vector(u, v0) =~= z0);
    lemma_upper_injective(u, v1, v0, 0);
    assert(v1 =~= v0);
}

/// In exact arithmetic symmetric Gauss-Seidel (`w (2 - w) = 1`) of a diagonal
/// matrix inverts it.
pub proof fn law_inverts_diagonal<T: Scalar>(m: Ssor<T>, a: CscRef<'_, T>, x: Seq<T>)
    requires
        exact_field::<T>(),
        is_ssor_of(m, a),
        T::embed(T::tuned(relaxation(m.omega))) == T::unit(),
        forall|i: int, j: int| #[trigger] stored(*a.pattern)(i, j) ==> i == j,
        x.len() == a.pattern.ncols,
    ensures
        dense_times(dense(a), m.action(Op::Apply, x)) == x,
{
    let n = x.len() as int;
    let l = m.l_model();
    let u = m.u_model();
    assert forall|j: int| 0 <= j < m.pattern.dim implies !vanishes(#[trigger] entries(a)(j, j)) by {
        assert(!vanishes(a.entry(j, j)));
    }
    assert forall|j: int| 0 <= j < n implies #[trigger] m.scaled_diag@[j] == a.entry(j, j) by {
        law_holds_splitting(m, a, j, j);
        lemma_times_commutes(T::unit(), a.entry(j, j));
        lemma_unit_is_neutral(a.entry(j, j));
    }
    assert forall|j: int| 0 <= j < m.pattern.dim implies !vanishes(
        #[trigger] m.scaled_diag@[j],
    ) by {
        assert(!vanishes(a.entry(j, j)));
    }
    law_inverts_splitting(m, entries(a), x);
    let y = m.action(Op::Apply, x);
    lemma_filled_diags(m, entries(a));
    lemma_solve_lengths(l, u, false, false, x);
    lemma_solve_lengths(
        l,
        u,
        false,
        false,
        scaled_rows(m.scaled_diag@, false, lower_solve(l, false, false, x, n)),
    );
    let z = times_vector(u, y);
    let t = scaled_rows(middle_inverse(m), false, z);
    assert forall|i: int| 0 <= i < n implies #[trigger] dense_times(dense(a), y)[i] == x[i] by {
        let d = a.entry(i, i);
        assert(!vanishes(d));
        lemma_diagonal_row(m, a, y, i);
        lemma_diagonal_row(m, a, t, i);
        assert(times_vector(l, t)[i] == x[i]);
        assert(m.scaled_diag@[i] == d);
        assert(t[i] == d.reciprocal().times(d.times(y[i])));
        lemma_times_associates(d, d.reciprocal(), d.times(y[i]));
        lemma_times_commutes(d, d.reciprocal());
        lemma_reciprocal_inverts(d);
        lemma_times_commutes(T::unit(), d.times(y[i]));
        lemma_unit_is_neutral(d.times(y[i]));
    }
    assert(dense_times(dense(a), y) =~= x);
}

/// With a diagonal matrix each product has one term.
proof fn lemma_diagonal_row<T: Scalar>(m: Ssor<T>, a: CscRef<'_, T>, v: Seq<T>, i: int)
    requires
        exact_field::<T>(),
        is_ssor_of(m, a),
        forall|i: int, j: int| #[trigger] stored(*a.pattern)(i, j) ==> i == j,
        v.len() == a.pattern.ncols,
        0 <= i < v.len(),
    ensures
        times_vector(m.l_model(), v)[i] == a.entry(i, i).times(v[i]),
        times_vector(m.u_model(), v)[i] == a.entry(i, i).times(v[i]),
        dense_times(dense(a), v)[i] == a.entry(i, i).times(v[i]),
{
    let n = v.len() as int;
    let l = m.l_model();
    let u = m.u_model();
    let lf = |j: int| dense_entry(l, i, j).times(v[j]);
    let uf = |j: int| dense_entry(u, i, j).times(v[j]);
    let af = |j: int| dense(a)(i, j).times(v[j]);
    law_holds_splitting(m, a, i, i);
    assert forall|j: int| 0 <= j < n && j != i implies #[trigger] lf(j) == T::null() && uf(j)
        == T::null() && af(j) == T::null() by {
        law_holds_splitting(m, a, i, j);
        assert(!stored(*a.pattern)(i, j));
        assert(dense(a)(i, j) == T::null());
        lemma_null_absorbs(T::embed(T::tuned(m.omega)));
        lemma_times_commutes(T::null(), v[j]);
        lemma_null_absorbs(v[j]);
    }
    assert forall|j: int| 0 <= j < n && j != i implies #[trigger] uf(j) == T::null() by {
        assert(lf(j) == T::null());
    }
    assert forall|j: int| 0 <= j < n && j != i implies #[trigger] af(j) == T::null() by {
        assert(lf(j) == T::null());
    }
    lemma_sum_single(lf, n, i);
    lemma_sum_single(uf, n, i);
    lemma_sum_single(af, n, i);
    lemma_matvec_sum(l, v, i, n);
    lemma_matvec_sum(u, v, i, n);
}

/// Refactorising against a matrix whose pattern was analysed computes the buffers
/// that a fresh construction computes. `m` stands for the refactorised
/// preconditioner, `f` for the fresh one.
pub proof fn law_refactorize_matches_fresh<T: Scalar>(m: Ssor<T>, f: Ssor<T>, a: CscRef<'_, T>)
    requires
        m.wf(),
        m.pattern.describes(*a.pattern),
        m.splits(source(m.pattern, a)),
        is_ssor_of(f, a),
        f.pattern == m.pattern,
        f.omega == m.omega,
    ensures
        columns_ok(m.pattern, a, m.pattern.dim as int),
        m.scaled_diag@ == f.scaled_diag@,
        m.l_values@ == f.l_values@,
        m.u_values@ == f.u_values@,
{
    let s = m.pattern;
    lemma_source_is_entry(s, a);
    lemma_splits_agree(m, source(s, a), entries(a));
    assert forall|j: int| 0 <= j < s.dim implies #[trigger] column_ok(s, a, j) by {
        lemma_diagonal_value(s, a, j);
        assert(!vanishes(a.entry(j, j)));
    }
    assert forall|j: int| 0 <= j < s.dim implies #[trigger] m.scaled_diag@[j]
        == f.scaled_diag@[j] by {
        lemma_same_column(m, f, a, j);
    }
    assert(m.scaled_diag@ =~= f.scaled_diag@);
    assert forall|p: int| 0 <= p < m.l_values@.len() implies #[trigger] m.l_values@[p]
        == f.l_values@[p] by {
        let j = s.l.lemma_some_col(p);
        lemma_same_column(m, f, a, j);
        assert(s.l.in_col(p, j));
    }
    assert(m.l_values@ =~= f.l_values@);
    assert forall|p: int| 0 <= p < m.u_values@.len() implies #[trigger] m.u_values@[p]
        == f.u_values@[p] by {
        let j = s.u.lemma_some_col(p);
        lemma_same_column(m, f, a, j);
        assert(s.u.in_col(p, j));
    }
    assert(m.u_values@ =~= f.u_values@);
}

/// The splitting of a column is determined by the matrix.
proof fn lemma_same_column<T: Scalar>(m: Ssor<T>, f: Ssor<T>, a: CscRef<'_, T>, j: int)
    requires
        m.splits(entries(a)),
        f.splits(entries(a)),
        f.pattern == m.pattern,
        f.omega == m.omega,
        0 <= j < m.pattern.dim,
    ensures
        m.scaled_diag@[j] == f.scaled_diag@[j],
        forall|p: int| #[trigger] m.pattern.l.in_col(p, j) ==> m.l_values@[p] == f.l_values@[p],
        forall|p: int| #[trigger] m.pattern.u.in_col(p, j) ==> m.u_values@[p] == f.u_values@[p],
{
    assert(column_filled(
        m.pattern,
        m.omega,
        entries(a),
        m.scaled_diag@,
        m.l_values@,
        m.u_values@,
        j,
    ));
    assert(column_filled(
        f.pattern,
        f.omega,
        entries(a),
        f.scaled_diag@,
        f.l_values@,
        f.u_values@,
        j,
    ));
}

} // verus!
