//! What the four forms of a preconditioner are to the matrix behind it.
use crate::block_jacobi::{
    block_done, block_solved, factor_of, has_zero_pivot, in_block, is_block, is_rows, mat_entries,
    BlockFactor, BlockJacobiPrecond,
};
use crate::conjugates::{conj_all, law_ssor_conjugates, lemma_product};
use crate::dense::Mat;
use crate::fsai::factor::Fsai;
use crate::inverse::{dense_times, lemma_lower_transpose_times, lemma_times_vector, transposed};
use crate::linalg::{
    law_lower_solve, law_lower_transpose_solve, law_spmv, law_upper_solve,
    law_upper_transpose_solve, lemma_solve_lengths, lower_solve, lower_transpose_solve, product,
    scaled_rows, spmv, upper_solve, upper_transpose_solve,
};
use crate::lu::dense_entry;
use crate::op::{Op, Preconditioner};
use crate::overlay::dense;
use crate::poly::bounds::stands_for;
use crate::reading::{reads_ratios, reads_reals, reads_tuning};
use crate::scalar::{
    conj_if, exact_conjugation, exact_field, lemma_conj_if_inverts, vanishes, RealScalar, Scalar,
};
use crate::spai::factor::Spai;
use crate::sparse::{entries, CscModel, CscRef};
use crate::ssor::factor::{omega_ok, relaxation, Ssor};
use crate::ssor::SsorParams;
use crate::ssor::laws::{is_ssor_of, law_holds_splitting, lemma_filled_diags};
use crate::sums::{lemma_conj_sum, lemma_dot_sum, lemma_matvec_sum, lemma_sum_equal, sum};
use crate::triangular::{lower_transpose_times, times_vector};
use vstd::prelude::*;

verus! {

/// The entries of a form of the matrix `a`: of `a` itself, its conjugate, its
/// transpose, or its adjoint.
pub open spec fn form<T: Scalar>(a: spec_fn(int, int) -> T, op: Op) -> spec_fn(int, int) -> T {
    match op {
        Op::Apply => a,
        Op::Conj => |i: int, j: int| a(i, j).conjugate(),
        Op::Transpose => |i: int, j: int| a(j, i),
        Op::Adjoint => |i: int, j: int| a(j, i).conjugate(),
    }
}

/// The entries of a sparse matrix.
pub open spec fn sparse_entries<T: Scalar>(m: CscModel<T>) -> spec_fn(int, int) -> T {
    |i: int, j: int| dense_entry(m, i, j)
}

/// Equal entries give equal products.
proof fn lemma_same_times<T: Scalar>(
    a: spec_fn(int, int) -> T,
    b: spec_fn(int, int) -> T,
    x: Seq<T>,
)
    requires
        forall|i: int, j: int|
            0 <= i < x.len() && 0 <= j < x.len() ==> #[trigger] a(i, j) == b(i, j),
    ensures
        dense_times(a, x) == dense_times(b, x),
{
    assert forall|i: int| 0 <= i < x.len() implies #[trigger] dense_times(a, x)[i] == dense_times(
        b,
        x,
    )[i] by {
        lemma_sum_equal(
            |j: int| a(i, j).times(x[j]),
            |j: int| b(i, j).times(x[j]),
            x.len() as int,
        );
    }
    assert(dense_times(a, x) =~= dense_times(b, x));
}

/// Conjugating both factors conjugates the product.
proof fn lemma_conj_times<T: Scalar>(a: spec_fn(int, int) -> T, x: Seq<T>)
    requires
        exact_conjugation::<T>(),
    ensures
        dense_times(form(a, Op::Conj), conj_all(x)) == conj_all(dense_times(a, x)),
{
    let n = x.len() as int;
    let b = form(a, Op::Conj);
    assert forall|i: int| 0 <= i < n implies #[trigger] dense_times(b, conj_all(x))[i]
        == conj_all(dense_times(a, x))[i] by {
        let f = |j: int| a(i, j).times(x[j]);
        let g = |j: int| b(i, j).times(conj_all(x)[j]);
        let h = |j: int| conj_if(true, f(j));
        lemma_conj_sum(true, f, n);
        assert forall|j: int| 0 <= j < n implies #[trigger] g(j) == h(j) by {
            reveal(exact_conjugation);
        }
        lemma_sum_equal(g, h, n);
        lemma_sum_equal(h, |j: int| conj_if(true, f(j)), n);
    }
    assert(dense_times(b, conj_all(x)) =~= conj_all(dense_times(a, x)));
}

/// Conjugating twice changes nothing.
proof fn lemma_conj_twice<T: Scalar>(x: Seq<T>)
    requires
        exact_conjugation::<T>(),
    ensures
        conj_all(conj_all(x)) == x,
{
    reveal(exact_conjugation);
    assert(conj_all(conj_all(x)) =~= x);
}

/// A sparse product, plain or conjugated, transposed or not, is the product with
/// the matching form of the matrix.
pub proof fn law_product_is_dense<T: Scalar>(m: CscModel<T>, op: Op, x: Seq<T>)
    requires
        exact_field::<T>(),
        exact_conjugation::<T>(),
        m.wf(),
        m.pattern.nrows == m.pattern.ncols,
        m.pattern.sorted(),
        x.len() == m.pattern.ncols,
    ensures
        match op {
            Op::Apply => product(m, false, false, x),
            Op::Conj => product(m, false, true, x),
            Op::Transpose => product(m, true, false, x),
            Op::Adjoint => product(m, true, true, x),
        } == dense_times(form(sparse_entries(m), op), x),
{
    let n = x.len() as int;
    let e = sparse_entries(m);
    let p = form(e, op);
    if op is Transpose || op is Adjoint {
        let conj = op is Adjoint;
        let y = product(m, true, conj, x);
        assert forall|j: int| 0 <= j < n implies #[trigger] y[j] == dense_times(p, x)[j] by {
            lemma_dot_sum(m, conj, x, j);
            lemma_sum_equal(
                |i: int| conj_if(conj, dense_entry(m, i, j)).times(x[i]),
                |i: int| p(j, i).times(x[i]),
                n,
            );
        }
        assert(y =~= dense_times(p, x));
    } else {
        let x0 = if op is Conj {
            conj_all(x)
        } else {
            x
        };
        let y = spmv(m, false, x0, n);
        law_spmv_len(m, x0);
        assert forall|i: int| 0 <= i < n implies #[trigger] y[i] == dense_times(e, x0)[i] by {
            law_spmv(m, x0, n, i);
            lemma_matvec_sum(m, x0, i, n);
            lemma_sum_equal(
                |j: int| dense_entry(m, i, j).times(x0[j]),
                |j: int| e(i, j).times(x0[j]),
                n,
            );
        }
        assert(y =~= dense_times(e, x0));
        if op is Conj {
            lemma_product(m, false, x0);
            lemma_conj_twice(x);
            lemma_conj_times(e, x0);
        }
    }
}

/// A sparse product has the length of its operand.
proof fn law_spmv_len<T: Scalar>(m: CscModel<T>, x: Seq<T>)
    requires
        exact_conjugation::<T>(),
        m.wf(),
        m.pattern.nrows == m.pattern.ncols,
        x.len() == m.pattern.ncols,
    ensures
        spmv(m, false, x, x.len() as int).len() == x.len(),
{
    lemma_product(m, false, x);
}

/// Every form of SPAI is the product with the matching form of `M`.
pub proof fn law_spai_is_product<T: Scalar>(f: Spai<T>, op: Op, x: Seq<T>)
    requires
        exact_field::<T>(),
        exact_conjugation::<T>(),
        f.wf(),
        f.m.pattern.sorted(),
        x.len() == f.order(),
    ensures
        f.action(op, x) == dense_times(form(sparse_entries(f.m_model()), op), x),
{
    law_product_is_dense(f.m_model(), op, x);
}

/// FSAI applies `G^H G`, in its plain and in its adjoint form, and `G^T conj(G)` in
/// the other two.
pub proof fn law_fsai_is_gram_product<T: Scalar>(f: Fsai<T>, op: Op, x: Seq<T>)
    requires
        exact_field::<T>(),
        exact_conjugation::<T>(),
        f.wf(),
        x.len() == f.order(),
    ensures
        ({
            let g = sparse_entries(f.g_model());
            match op {
                Op::Apply | Op::Adjoint => f.action(op, x) == dense_times(
                    form(g, Op::Adjoint),
                    dense_times(g, x),
                ),
                Op::Conj | Op::Transpose => f.action(op, x) == dense_times(
                    form(g, Op::Transpose),
                    dense_times(form(g, Op::Conj), x),
                ),
            }
        }),
{
    let m = f.g_model();
    let g = sparse_entries(m);
    if op is Apply || op is Adjoint {
        law_product_is_dense(m, Op::Apply, x);
        law_product_is_dense(m, Op::Adjoint, dense_times(g, x));
    } else {
        law_product_is_dense(m, Op::Conj, x);
        law_product_is_dense(m, Op::Transpose, dense_times(form(g, Op::Conj), x));
    }
}

/// `D + w L`, of the matrix `a` with the diagonal `D` and the strict lower part
/// `L`.
pub open spec fn lower_part<T: Scalar>(a: spec_fn(int, int) -> T, w: T) -> spec_fn(int, int) -> T {
    |i: int, j: int|
        if i == j {
            a(j, j)
        } else if i > j {
            w.times(a(i, j))
        } else {
            T::null()
        }
}

/// `D + w U`, of the matrix `a` with the diagonal `D` and the strict upper part
/// `U`.
pub open spec fn upper_part<T: Scalar>(a: spec_fn(int, int) -> T, w: T) -> spec_fn(int, int) -> T {
    |i: int, j: int|
        if i == j {
            a(j, j)
        } else if i < j {
            w.times(a(i, j))
        } else {
            T::null()
        }
}

/// `first t = x` and `diag(a) r t = second y`.
pub open spec fn passes_through<T: Scalar>(
    a: spec_fn(int, int) -> T,
    r: T,
    op: Op,
    first: spec_fn(int, int) -> T,
    second: spec_fn(int, int) -> T,
    x: Seq<T>,
    t: Seq<T>,
    y: Seq<T>,
) -> bool {
    &&& t.len() == x.len()
    &&& y.len() == x.len()
    &&& dense_times(first, t) == x
    &&& forall|i: int|
        0 <= i < x.len() ==> #[trigger] dense_times(second, y)[i] == (match op {
            Op::Apply | Op::Transpose => r.times(a(i, i)),
            Op::Conj | Op::Adjoint => r.times(a(i, i)).conjugate(),
        }).times(t[i])
}

/// The plain form of SSOR passes through the two triangles.
proof fn lemma_ssor_applies<T: Scalar>(m: Ssor<T>, a: CscRef<'_, T>, x: Seq<T>) -> (t: Seq<T>)
    requires
        exact_field::<T>(),
        is_ssor_of(m, a),
        x.len() == a.pattern.ncols,
    ensures
        ({
            let w = T::embed(T::tuned(m.omega));
            let r = T::embed(T::tuned(relaxation(m.omega)));
            let e = dense(a);
            passes_through(
                e,
                r,
                Op::Apply,
                lower_part(e, w),
                upper_part(e, w),
                x,
                t,
                m.action(Op::Apply, x),
            )
        }),
{
    let n = x.len() as int;
    let l = m.l_model();
    let u = m.u_model();
    let e = dense(a);
    let w = T::embed(T::tuned(m.omega));
    assert forall|j: int| 0 <= j < m.pattern.dim implies !vanishes(#[trigger] entries(a)(j, j)) by {
        assert(!vanishes(a.entry(j, j)));
    }
    lemma_filled_diags(m, entries(a));
    assert forall|i: int, j: int| 0 <= i < n && 0 <= j < n implies #[trigger] sparse_entries(l)(
        i,
        j,
    ) == lower_part(e, w)(i, j) by {
        law_holds_splitting(m, a, i, j);
    }
    assert forall|i: int, j: int| 0 <= i < n && 0 <= j < n implies #[trigger] sparse_entries(u)(
        i,
        j,
    ) == upper_part(e, w)(i, j) by {
        law_holds_splitting(m, a, i, j);
    }
    let t = lower_solve(l, false, false, x, n);
    lemma_solve_lengths(l, u, false, false, x);
    let z = scaled_rows(m.scaled_diag@, false, t);
    lemma_solve_lengths(l, u, false, false, z);
    let y = upper_solve(u, false, z, n);
    assert forall|i: int| 0 <= i < n implies #[trigger] times_vector(l, t)[i] == x[i] by {
        law_lower_solve(l, false, x, i);
    }
    assert(times_vector(l, t) =~= x);
    lemma_times_vector(l, t);
    lemma_same_times(sparse_entries(l), lower_part(e, w), t);
    assert forall|i: int| 0 <= i < n implies #[trigger] times_vector(u, y)[i] == z[i] by {
        law_upper_solve(u, z, i);
    }
    assert(times_vector(u, y) =~= z);
    lemma_times_vector(u, y);
    lemma_same_times(sparse_entries(u), upper_part(e, w), y);
    assert(dense_times(upper_part(e, w), y) == z);
    assert forall|i: int| 0 <= i < n implies #[trigger] z[i] == T::embed(
        T::tuned(relaxation(m.omega)),
    ).times(e(i, i)).times(t[i]) by {
        law_holds_splitting(m, a, i, i);
    }
    t
}

/// The transposed forms of SSOR pass through the two triangles transposed, in the
/// other order.
proof fn lemma_ssor_transposes<T: Scalar>(
    m: Ssor<T>,
    a: CscRef<'_, T>,
    op: Op,
    x: Seq<T>,
) -> (t: Seq<T>)
    requires
        exact_field::<T>(),
        exact_conjugation::<T>(),
        is_ssor_of(m, a),
        x.len() == a.pattern.ncols,
        op is Transpose || op is Adjoint,
    ensures
        ({
            let w = T::embed(T::tuned(m.omega));
            let r = T::embed(T::tuned(relaxation(m.omega)));
            let e = dense(a);
            passes_through(
                e,
                r,
                op,
                form(upper_part(e, w), op),
                form(lower_part(e, w), op),
                x,
                t,
                m.action(op, x),
            )
        }),
{
    let n = x.len() as int;
    let conj = op is Adjoint;
    let l = m.l_model();
    let u = m.u_model();
    let e = dense(a);
    let w = T::embed(T::tuned(m.omega));
    let low = form(lower_part(e, w), op);
    let up = form(upper_part(e, w), op);
    assert forall|j: int| 0 <= j < m.pattern.dim implies !vanishes(#[trigger] entries(a)(j, j)) by {
        assert(!vanishes(a.entry(j, j)));
    }
    lemma_filled_diags(m, entries(a));
    assert forall|i: int, j: int| 0 <= i < n && 0 <= j < n implies dense_entry(l, j, i)
        == lower_part(e, w)(j, i) && dense_entry(u, j, i) == upper_part(e, w)(j, i)
        && #[trigger] low(i, j) == conj_if(conj, dense_entry(l, j, i)) && up(i, j) == conj_if(
        conj,
        dense_entry(u, j, i),
    ) by {
        law_holds_splitting(m, a, j, i);
    }
    let t = upper_transpose_solve(u, conj, x, n);
    lemma_solve_lengths(l, u, false, conj, x);
    assert forall|j: int| 0 <= j < n implies #[trigger] dense_times(up, t)[j] == x[j] by {
        assert(!vanishes(u.values[u.pattern.end(j) - 1]));
        lemma_conj_if_inverts(conj, u.values[u.pattern.end(j) - 1]);
        law_upper_transpose_solve(u, conj, x, j);
        lemma_dot_sum(u, conj, t, j);
        let f = |i: int| conj_if(conj, dense_entry(u, i, j)).times(t[i]);
        let g = |i: int| up(j, i).times(t[i]);
        assert forall|i: int| 0 <= i < n implies #[trigger] f(i) == g(i) by {
            assert(low(j, i) == conj_if(conj, dense_entry(l, i, j)));
        }
        lemma_sum_equal(f, g, n);
    }
    assert(dense_times(up, t) =~= x);
    let z = scaled_rows(m.scaled_diag@, conj, t);
    lemma_solve_lengths(l, u, false, conj, z);
    let y = lower_transpose_solve(l, false, conj, z, n);
    lemma_lower_transpose_times(l, conj, y);
    assert forall|j: int| 0 <= j < n implies #[trigger] dense_times(low, y)[j] == z[j] by {
        assert(!vanishes(l.values[l.pattern.start(j)]));
        lemma_conj_if_inverts(conj, l.values[l.pattern.start(j)]);
        law_lower_transpose_solve(l, false, conj, z, j);
        assert(lower_transpose_times(l, conj, y)[j] == z[j]);
        let q = transposed(|i: int, k: int| dense_entry(l, i, k), conj);
        let f = |i: int| q(j, i).times(y[i]);
        let g = |i: int| low(j, i).times(y[i]);
        assert forall|i: int| 0 <= i < n implies #[trigger] f(i) == g(i) by {
            assert(low(j, i) == conj_if(conj, dense_entry(l, i, j)));
        }
        lemma_sum_equal(f, g, n);
    }
    assert forall|i: int| 0 <= i < n implies #[trigger] dense_times(low, y)[i] == conj_if(
        conj,
        T::embed(T::tuned(relaxation(m.omega))).times(e(i, i)),
    ).times(t[i]) by {
        law_holds_splitting(m, a, i, i);
        assert(dense_times(low, y)[i] == z[i]);
    }
    t
}

/// In exact arithmetic every form of SSOR inverts the matching form of
/// `M = (D + w L) (w (2 - w) D)^{-1} (D + w U)`, where `D`, `L` and `U` are the
/// diagonal and the strict triangles of the matrix. `r.0` stands for `w`, `r.1` for
/// `w (2 - w)`, and `r.2` is what stands between the two triangles.
pub proof fn law_ssor_inverts_every_form<T: Scalar>(
    v: spec_fn(T::Real) -> real,
    w: spec_fn(T::Tuning) -> real,
    m: Ssor<T>,
    a: CscRef<'_, T>,
    op: Op,
    x: Seq<T>,
) -> (r: (T, T, Seq<T>))
    requires
        exact_field::<T>(),
        exact_conjugation::<T>(),
        reads_reals(w),
        reads_tuning::<T>(v, w),
        is_ssor_of(m, a),
        x.len() == a.pattern.ncols,
    ensures
        stands_for(v, r.0, w(m.omega)),
        stands_for(v, r.1, w(m.omega) * (2real - w(m.omega))),
        ({
            let e = dense(a);
            let low = lower_part(e, r.0);
            let up = upper_part(e, r.0);
            let y = m.action(op, x);
            match op {
                Op::Apply => passes_through(e, r.1, op, low, up, x, r.2, y),
                Op::Conj => passes_through(
                    e,
                    r.1,
                    op,
                    form(low, Op::Conj),
                    form(up, Op::Conj),
                    x,
                    r.2,
                    y,
                ),
                Op::Transpose => passes_through(
                    e,
                    r.1,
                    op,
                    form(up, Op::Transpose),
                    form(low, Op::Transpose),
                    x,
                    r.2,
                    y,
                ),
                Op::Adjoint => passes_through(
                    e,
                    r.1,
                    op,
                    form(up, Op::Adjoint),
                    form(low, Op::Adjoint),
                    x,
                    r.2,
                    y,
                ),
            }
        }),
{
    let om = T::embed(T::tuned(m.omega));
    let rho = T::embed(T::tuned(relaxation(m.omega)));
    assert(v(T::tuned(m.omega)) == w(m.omega)) by {
        reveal(reads_tuning);
    }
    assert(v(T::tuned(relaxation(m.omega))) == w(m.omega) * (2real - w(m.omega))) by {
        reveal(reads_tuning);
        reveal(reads_reals);
    }
    if op is Apply {
        let t = lemma_ssor_applies(m, a, x);
        (om, rho, t)
    } else if op is Conj {
        let e = dense(a);
        let x0 = conj_all(x);
        lemma_conj_twice(x);
        let t0 = lemma_ssor_applies(m, a, x0);
        let y0 = m.action(Op::Apply, x0);
        law_ssor_conjugates(m, op, x0);
        lemma_conj_times(lower_part(e, om), t0);
        lemma_conj_times(upper_part(e, om), y0);
        let t = conj_all(t0);
        let y = m.action(op, x);
        assert(y == conj_all(y0));
        let up = form(upper_part(e, om), Op::Conj);
        assert forall|i: int| 0 <= i < x.len() implies #[trigger] dense_times(up, y)[i] == rho.times(
            e(i, i),
        ).conjugate().times(t[i]) by {
            reveal(exact_conjugation);
            assert(dense_times(upper_part(e, om), y0)[i] == rho.times(e(i, i)).times(t0[i]));
        }
        (om, rho, t)
    } else {
        let t = lemma_ssor_transposes(m, a, op, x);
        (om, rho, t)
    }
}

/// The relaxation factor is accepted exactly where it lies strictly between zero
/// and two.
pub proof fn law_relaxation_range<R: RealScalar>(w: spec_fn(R) -> real, omega: R)
    requires
        reads_reals(w),
    ensures
        omega_ok(omega) <==> 0real < w(omega) < 2real,
{
    reveal(reads_reals);
}

/// The relaxation factor used where none is given is one: symmetric Gauss-Seidel.
pub proof fn law_default_relaxation<R: RealScalar>(w: spec_fn(R) -> real, params: SsorParams<R>)
    requires
        reads_reals(w),
        reads_ratios(w),
        params.is_default(),
    ensures
        w(params.omega) == 1real,
        omega_ok(params.omega),
{
    reveal(reads_reals);
    reveal(reads_ratios);
    assert(w(R::ratio(1, 1)) * (1u64 as real) == (1u64 as real));
}

/// Solving with a factor that `lu` gave for a block, and that has no zero pivot,
/// solves with the form `op` of the block.
pub open spec fn kernels_solve<
    T: Scalar,
    F: Fn(&Mat<T>) -> BlockFactor<T>,
    S: Fn(&Mat<T>, &[usize], &[usize], Op, &Mat<T>) -> Mat<T>,
>(lu: F, solve: S, op: Op) -> bool {
    forall|
        b: Mat<T>,
        f: BlockFactor<T>,
        m: Mat<T>,
        fwd: &[usize],
        inv: &[usize],
        r: Mat<T>,
        z: Mat<T>,
        i: int,
        c: int,
    |
        {
            &&& #[trigger] call_ensures(lu, (&b,), f)
            &&& !has_zero_pivot(f.lu)
            &&& m.nrows == f.lu.nrows
            &&& m.ncols == f.lu.ncols
            &&& m.data@ == f.lu.data@
            &&& fwd@ == f.perm_fwd@
            &&& inv@ == f.perm_inv@
            &&& r.nrows == b.nrows
            &&& #[trigger] call_ensures(solve, (&m, fwd, inv, op, &r), z)
            &&& 0 <= i < b.nrows
            &&& 0 <= c < r.ncols
        } ==> sum(|j: int| form(mat_entries(b), op)(i, j).times(z.at(j, c)), b.ncols as int)
            == #[trigger] r.at(i, c)
}

/// With kernels that solve with the form `op` of a block, every form of
/// block-Jacobi solves with the matching form of each diagonal block: the rows of
/// the block in the result, times that form, are the rows of the right-hand side.
pub proof fn law_blocks_solve_every_form<
    T: Scalar,
    F: Fn(&Mat<T>) -> BlockFactor<T>,
    S: Fn(&Mat<T>, &[usize], &[usize], Op, &Mat<T>) -> Mat<T>,
>(
    lu: F,
    solve: S,
    op: Op,
    a: Mat<T>,
    m: BlockJacobiPrecond<T>,
    x: Mat<T>,
    y: Mat<T>,
    k: int,
    i: int,
    c: int,
)
    requires
        exact_field::<T>(),
        kernels_solve(lu, solve, op),
        a.wf(),
        a.nrows == a.ncols,
        m.wf(),
        m.n == a.nrows,
        block_done(lu, a, m.block_offsets@, m, k),
        x.wf(),
        x.nrows == m.n,
        y.wf(),
        y.nrows == m.n,
        y.ncols == x.ncols,
        block_solved(solve, m, op, x, y, k),
        0 <= k < m.blocks(),
        in_block(m.block_offsets@, k, i),
        0 <= c < x.ncols,
    ensures
        ({
            let s = m.block_offsets@[k] as int;
            let e = m.block_offsets@[k + 1] as int;
            sum(|t: int| form(mat_entries(a), op)(i, s + t).times(y.at(s + t, c)), e - s)
                == x.at(i, c)
        }),
{
    let off = m.block_offsets@;
    let s = off[k] as int;
    let e = off[k + 1] as int;
    let fac = choose|fac: BlockFactor<T>|
        {
            &&& #[trigger] factor_of(lu, a, off, k, fac)
            &&& m.keeps(k, fac)
            &&& !has_zero_pivot(fac.lu)
        };
    assert(factor_of(lu, a, off, k, fac));
    let b = choose|b: Mat<T>| is_block(a, off, k, b) && #[trigger] call_ensures(lu, (&b,), fac);
    let (lk, fwd, inv, r, z) = choose|
        lk: Mat<T>,
        fwd: &[usize],
        inv: &[usize],
        r: Mat<T>,
        z: Mat<T>,
    |
        {
            &&& lk.nrows == e - s
            &&& lk.ncols == e - s
            &&& lk.data@ == m.factors@.subrange(
                m.factor_offsets@[k] as int,
                m.factor_offsets@[k + 1] as int,
            )
            &&& fwd@ == m.perm_fwd@.subrange(s, e)
            &&& inv@ == m.perm_inv@.subrange(s, e)
            &&& is_rows(x, off, k, r)
            &&& #[trigger] call_ensures(solve, (&lk, fwd, inv, op, &r), z)
            &&& is_rows(y, off, k, z)
        };
    assert(call_ensures(solve, (&lk, fwd, inv, op, &r), z));
    let g = |j: int| form(mat_entries(b), op)(i - s, j).times(z.at(j, c));
    assert(r.at(i - s, c) == x.at(s + (i - s), c));
    assert(sum(g, e - s) == r.at(i - s, c));
    let h = |t: int| form(mat_entries(a), op)(i, s + t).times(y.at(s + t, c));
    assert forall|t: int| 0 <= t < e - s implies #[trigger] h(t) == g(t) by {
        assert(b.at(i - s, t) == a.at(s + (i - s), s + t));
        assert(b.at(t, i - s) == a.at(s + t, s + (i - s)));
        assert(z.at(t, c) == y.at(s + t, c));
    }
    lemma_sum_equal(h, g, e - s);
}

} // verus!
