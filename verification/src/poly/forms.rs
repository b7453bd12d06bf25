//! The transposed and adjoint applies are the transpose and the adjoint of the
//! apply.
use super::apply::{
    cheb_state, difference, image, interval, neumann, neumann_acc, poly_action, rho, summed,
    Interval,
};
use super::factor::Poly;
use super::laws::{exact_embedding, law_image_is_linear, lemma_image_len, multiple};
use super::Coeffs;
use crate::conjugates::{conj_all, law_poly_conjugates, lemma_conj_twice};
use crate::linalg::{law_spmv, scatter_add, spmv};
use crate::lu::dense_entry;
use crate::op::{Op, Preconditioner};
use crate::scalar::{
    conj_if, exact_conjugation, exact_field, exact_roots, lemma_minus_undoes_plus,
    lemma_plus_cancels, lemma_times_associates, lemma_times_commutes,
    lemma_times_distributes_left, RealScalar, Scalar,
};
use crate::sparse::CscModel;
use crate::sums::{
    lemma_dot_sum, lemma_matvec_sum, lemma_sum_equal, lemma_sum_plus, lemma_sum_swap,
    lemma_sum_times, lemma_times_sum, sum,
};
use vstd::prelude::*;

verus! {

/// `sum_i y_i x_i`.
pub open spec fn pairing<T: Scalar>(y: Seq<T>, x: Seq<T>) -> T {
    sum(|i: int| y[i].times(x[i]), x.len() as int)
}

/// The matrix that `a` stores is its own transpose, conjugated where `conj` is
/// set.
pub open spec fn mirrored<T: Scalar>(a: CscModel<T>, conj: bool) -> bool {
    forall|i: int, j: int|
        0 <= i < a.pattern.ncols && 0 <= j < a.pattern.ncols ==> conj_if(
            conj,
            #[trigger] dense_entry(a, i, j),
        ) == dense_entry(a, j, i)
}

/// The operator is square and sorted, and the vector fits it.
spec fn fits<T: Scalar>(a: CscModel<T>, x: Seq<T>) -> bool {
    &&& a.wf()
    &&& a.pattern.sorted()
    &&& a.pattern.nrows == a.pattern.ncols
    &&& x.len() == a.pattern.ncols
}

proof fn lemma_pairing_swaps<T: Scalar>(y: Seq<T>, x: Seq<T>)
    requires
        exact_field::<T>(),
        y.len() == x.len(),
    ensures
        pairing(y, x) == pairing(x, y),
{
    let f = |i: int| y[i].times(x[i]);
    let g = |i: int| x[i].times(y[i]);
    assert forall|i: int| 0 <= i < x.len() implies #[trigger] f(i) == g(i) by {
        lemma_times_commutes(y[i], x[i]);
    }
    lemma_sum_equal(f, g, x.len() as int);
}

/// A pairing is linear in its second argument.
proof fn lemma_pairing_linear<T: Scalar>(y: Seq<T>, c: T, u: Seq<T>, v: Seq<T>)
    requires
        exact_field::<T>(),
        u.len() == v.len(),
    ensures
        pairing(y, summed(u, v)) == pairing(y, u).plus(pairing(y, v)),
        pairing(y, multiple(c, u)) == c.times(pairing(y, u)),
{
    let n = u.len() as int;
    let f = |i: int| y[i].times(u[i]);
    let g = |i: int| y[i].times(v[i]);
    let fg = |i: int| f(i).plus(g(i));
    let both = |i: int| y[i].times(summed(u, v)[i]);
    assert forall|i: int| 0 <= i < n implies #[trigger] both(i) == fg(i) by {
        lemma_times_distributes_left(y[i], u[i], v[i]);
    }
    lemma_sum_equal(both, fg, n);
    lemma_sum_plus(f, g, n);
    let cf = |i: int| c.times(f(i));
    let scaled = |i: int| y[i].times(multiple(c, u)[i]);
    assert forall|i: int| 0 <= i < n implies #[trigger] scaled(i) == cf(i) by {
        lemma_times_associates(y[i], c, u[i]);
        lemma_times_commutes(y[i], c);
        lemma_times_associates(c, y[i], u[i]);
    }
    lemma_sum_equal(scaled, cf, n);
    lemma_times_sum(c, f, n);
}

/// A difference and what was taken away make up the whole.
proof fn lemma_difference_restores<T: Scalar>(u: Seq<T>, v: Seq<T>)
    requires
        exact_field::<T>(),
        u.len() == v.len(),
    ensures
        summed(difference(u, v), v) == u,
{
    assert forall|i: int| 0 <= i < u.len() implies #[trigger] summed(difference(u, v), v)[i]
        == u[i] by {
        lemma_minus_undoes_plus(u[i], v[i]);
    }
    assert(summed(difference(u, v), v) =~= u);
}

proof fn lemma_pairing_minus<T: Scalar>(y: Seq<T>, u: Seq<T>, v: Seq<T>)
    requires
        exact_field::<T>(),
        u.len() == v.len(),
    ensures
        pairing(y, difference(u, v)) == pairing(y, u).minus(pairing(y, v)),
{
    lemma_difference_restores(u, v);
    lemma_pairing_linear(y, T::null(), difference(u, v), v);
    let d = pairing(y, difference(u, v));
    lemma_minus_undoes_plus(pairing(y, u), pairing(y, v));
    lemma_plus_cancels(d, pairing(y, u).minus(pairing(y, v)), pairing(y, v));
}

proof fn lemma_image_minus<T: Scalar>(a: CscModel<T>, op: Op, u: Seq<T>, v: Seq<T>)
    requires
        exact_field::<T>(),
        fits(a, u),
        fits(a, v),
    ensures
        image(a, op, difference(u, v)) == difference(image(a, op, u), image(a, op, v)),
{
    lemma_difference_restores(u, v);
    law_image_is_linear(a, op, T::null(), difference(u, v), v);
    lemma_image_len(a, op, u);
    lemma_image_len(a, op, v);
    lemma_image_len(a, op, difference(u, v));
    let d = image(a, op, difference(u, v));
    let au = image(a, op, u);
    let av = image(a, op, v);
    assert forall|i: int| 0 <= i < u.len() implies #[trigger] d[i] == difference(au, av)[i] by {
        assert(summed(d, av)[i] == au[i]);
        lemma_minus_undoes_plus(au[i], av[i]);
        lemma_plus_cancels(d[i], au[i].minus(av[i]), av[i]);
    }
    assert(d =~= difference(au, av));
}

/// One entry of the transposed product.
proof fn lemma_transposed_entry<T: Scalar>(a: CscModel<T>, op: Op, x: Seq<T>, j: int)
    requires
        exact_field::<T>(),
        exact_conjugation::<T>(),
        fits(a, x),
        op.transposes(),
        0 <= j < x.len(),
    ensures
        image(a, op, x)[j] == sum(
            |i: int| conj_if(op.conjugates(), dense_entry(a, i, j)).times(x[i]),
            x.len() as int,
        ),
{
    lemma_dot_sum(a, op.conjugates(), x, j);
}

/// One entry of the product.
proof fn lemma_image_entry<T: Scalar>(a: CscModel<T>, x: Seq<T>, i: int)
    requires
        exact_field::<T>(),
        fits(a, x),
        0 <= i < x.len(),
    ensures
        image(a, Op::Apply, x)[i] == sum(
            |j: int| dense_entry(a, i, j).times(x[j]),
            x.len() as int,
        ),
{
    law_spmv(a, x, x.len() as int, i);
    lemma_matvec_sum(a, x, i, x.len() as int);
}

/// `y^T (A x) = (A^T y)^T x`.
proof fn lemma_pairing_moves<T: Scalar>(a: CscModel<T>, y: Seq<T>, x: Seq<T>)
    requires
        exact_field::<T>(),
        exact_conjugation::<T>(),
        fits(a, x),
        fits(a, y),
    ensures
        pairing(y, image(a, Op::Apply, x)) == pairing(image(a, Op::Transpose, y), x),
{
    let n = x.len() as int;
    let ax = image(a, Op::Apply, x);
    let ay = image(a, Op::Transpose, y);
    lemma_image_len(a, Op::Apply, x);
    lemma_image_len(a, Op::Transpose, y);
    let cell = |i: int, j: int| y[i].times(dense_entry(a, i, j).times(x[j]));
    let rows = |i: int| sum(|j: int| cell(i, j), n);
    let cols = |j: int| sum(|i: int| cell(i, j), n);
    let f = |i: int| y[i].times(ax[i]);
    let g = |j: int| ay[j].times(x[j]);
    assert forall|i: int| 0 <= i < n implies #[trigger] f(i) == rows(i) by {
        lemma_image_entry(a, x, i);
        let t = |j: int| dense_entry(a, i, j).times(x[j]);
        lemma_times_sum(y[i], t, n);
        lemma_sum_equal(|j: int| y[i].times(t(j)), |j: int| cell(i, j), n);
    }
    lemma_sum_equal(f, rows, n);
    lemma_sum_swap(cell, n, n);
    assert forall|j: int| 0 <= j < n implies #[trigger] g(j) == cols(j) by {
        lemma_transposed_entry(a, Op::Transpose, y, j);
        let t = |i: int| conj_if(false, dense_entry(a, i, j)).times(y[i]);
        lemma_sum_times(t, x[j], n);
        let u = |i: int| t(i).times(x[j]);
        let v = |i: int| cell(i, j);
        assert forall|i: int| 0 <= i < n implies #[trigger] u(i) == v(i) by {
            lemma_times_commutes(dense_entry(a, i, j), y[i]);
            lemma_times_associates(y[i], dense_entry(a, i, j), x[j]);
        }
        lemma_sum_equal(u, v, n);
    }
    lemma_sum_equal(g, cols, n);
}

proof fn lemma_acc_len<T: Scalar>(a: CscModel<T>, op: Op, omega: T, b: Seq<T>, k: int)
    ensures
        neumann_acc(a, op, omega, b, k).len() == b.len(),
{
}

/// One Horner step, vector by vector.
proof fn lemma_acc_step<T: Scalar>(a: CscModel<T>, op: Op, omega: T, b: Seq<T>, k: int)
    requires
        a.wf(),
        a.pattern.nrows == a.pattern.ncols,
        b.len() == a.pattern.ncols,
        k > 0,
    ensures
        ({
            let x = neumann_acc(a, op, omega, b, k - 1);
            neumann_acc(a, op, omega, b, k) == difference(
                summed(b, x),
                multiple(omega, image(a, op, x)),
            )
        }),
{
    let x = neumann_acc(a, op, omega, b, k - 1);
    lemma_acc_len(a, op, omega, b, k - 1);
    lemma_image_len(a, op, x);
    assert(neumann_acc(a, op, omega, b, k) =~= difference(
        summed(b, x),
        multiple(omega, image(a, op, x)),
    ));
}

/// The accumulator commutes with the operator.
proof fn lemma_acc_commutes<T: Scalar>(a: CscModel<T>, op: Op, omega: T, b: Seq<T>, k: int)
    requires
        exact_field::<T>(),
        fits(a, b),
    ensures
        image(a, op, neumann_acc(a, op, omega, b, k)) == neumann_acc(
            a,
            op,
            omega,
            image(a, op, b),
            k,
        ),
    decreases k,
{
    lemma_image_len(a, op, b);
    if k > 0 {
        let x = neumann_acc(a, op, omega, b, k - 1);
        lemma_acc_commutes(a, op, omega, b, k - 1);
        lemma_acc_len(a, op, omega, b, k - 1);
        lemma_acc_step(a, op, omega, b, k);
        lemma_acc_step(a, op, omega, image(a, op, b), k);
        lemma_image_len(a, op, x);
        lemma_image_minus(a, op, summed(b, x), multiple(omega, image(a, op, x)));
        law_image_is_linear(a, op, omega, b, x);
        law_image_is_linear(a, op, omega, image(a, op, x), x);
    }
}

proof fn lemma_acc_transposes<T: Scalar>(
    a: CscModel<T>,
    omega: T,
    y: Seq<T>,
    b: Seq<T>,
    k: int,
)
    requires
        exact_field::<T>(),
        exact_conjugation::<T>(),
        fits(a, b),
        fits(a, y),
    ensures
        pairing(y, neumann_acc(a, Op::Apply, omega, b, k)) == pairing(
            neumann_acc(a, Op::Transpose, omega, y, k),
            b,
        ),
    decreases k,
{
    let t = Op::Transpose;
    if k > 0 {
        let x = neumann_acc(a, Op::Apply, omega, b, k - 1);
        let z = neumann_acc(a, t, omega, y, k - 1);
        let ax = image(a, Op::Apply, x);
        let az = image(a, t, z);
        let ay = image(a, t, y);
        lemma_acc_len(a, Op::Apply, omega, b, k - 1);
        lemma_acc_len(a, t, omega, y, k - 1);
        lemma_image_len(a, Op::Apply, x);
        lemma_image_len(a, t, z);
        lemma_image_len(a, t, y);
        lemma_acc_step(a, Op::Apply, omega, b, k);
        lemma_acc_step(a, t, omega, y, k);
        lemma_pairing_minus(y, summed(b, x), multiple(omega, ax));
        lemma_pairing_linear(y, omega, b, x);
        lemma_pairing_linear(y, omega, ax, ax);
        lemma_pairing_moves(a, y, x);
        lemma_acc_transposes(a, omega, y, b, k - 1);
        lemma_acc_transposes(a, omega, ay, b, k - 1);
        lemma_acc_commutes(a, t, omega, y, k - 1);
        let whole = neumann_acc(a, t, omega, y, k);
        lemma_acc_len(a, t, omega, y, k);
        lemma_pairing_swaps(whole, b);
        lemma_pairing_minus(b, summed(y, z), multiple(omega, az));
        lemma_pairing_linear(b, omega, y, z);
        lemma_pairing_linear(b, omega, az, az);
        lemma_pairing_swaps(y, b);
        lemma_pairing_swaps(z, b);
        lemma_pairing_swaps(az, b);
    }
}

/// One step of the iteration, vector by vector.
proof fn lemma_state_step<T: Scalar>(
    a: CscModel<T>,
    op: Op,
    iv: Interval<T::Real>,
    b: Seq<T>,
    k: int,
)
    requires
        exact_field::<T>(),
        exact_embedding::<T>(),
        a.wf(),
        a.pattern.nrows == a.pattern.ncols,
        b.len() == a.pattern.ncols,
    ensures
        cheb_state(a, op, iv, b, k).x.len() == b.len(),
        cheb_state(a, op, iv, b, k).d.len() == b.len(),
        k <= 0 ==> cheb_state(a, op, iv, b, k).x == multiple(
            T::embed(iv.theta.reciprocal()),
            b,
        ),
        k > 0 ==> {
            let was = cheb_state(a, op, iv, b, k - 1);
            cheb_state(a, op, iv, b, k).d == summed(
                multiple(step_direction(iv, k), was.d),
                multiple(step_residual(iv, k), difference(b, image(a, op, was.x))),
            )
        },
    decreases k,
{
    let now = cheb_state(a, op, iv, b, k);
    if k <= 0 {
        let ti = T::embed(iv.theta.reciprocal());
        assert forall|i: int| 0 <= i < b.len() implies #[trigger] now.x[i] == multiple(
            ti,
            b,
        )[i] by {
            lemma_times_commutes(b[i], ti);
        }
        assert(now.x =~= multiple(ti, b));
    } else {
        lemma_state_step(a, op, iv, b, k - 1);
        let was = cheb_state(a, op, iv, b, k - 1);
        let r = difference(b, image(a, op, was.x));
        let c1 = step_direction::<T>(iv, k);
        let c2 = step_residual::<T>(iv, k);
        assert(now.x.len() == b.len());
        assert forall|i: int| 0 <= i < b.len() implies #[trigger] now.d[i] == summed(
            multiple(c1, was.d),
            multiple(c2, r),
        )[i] by {
            lemma_times_commutes(was.d[i], c1);
            lemma_times_commutes(r[i], c2);
        }
        assert(now.d =~= summed(multiple(c1, was.d), multiple(c2, r)));
    }
}

/// How much of the last direction step `k` keeps.
spec fn step_direction<T: Scalar>(iv: Interval<T::Real>, k: int) -> T {
    T::embed(rho(iv.sigma, k).times(rho(iv.sigma, k - 1)))
}

/// How much of the residual step `k` takes.
spec fn step_residual<T: Scalar>(iv: Interval<T::Real>, k: int) -> T {
    T::embed(T::Real::ratio(2, 1).times(rho(iv.sigma, k)).over(iv.delta))
}

/// The iteration commutes with the operator.
proof fn lemma_state_commutes<T: Scalar>(
    a: CscModel<T>,
    op: Op,
    iv: Interval<T::Real>,
    b: Seq<T>,
    k: int,
)
    requires
        exact_field::<T>(),
        exact_embedding::<T>(),
        fits(a, b),
    ensures
        image(a, op, cheb_state(a, op, iv, b, k).x) == cheb_state(a, op, iv, image(a, op, b), k).x,
        image(a, op, cheb_state(a, op, iv, b, k).d) == cheb_state(a, op, iv, image(a, op, b), k).d,
    decreases k,
{
    let ab = image(a, op, b);
    lemma_image_len(a, op, b);
    lemma_state_step(a, op, iv, b, k);
    lemma_state_step(a, op, iv, ab, k);
    if k <= 0 {
        law_image_is_linear(a, op, T::embed(iv.theta.reciprocal()), b, b);
    } else {
        lemma_state_commutes(a, op, iv, b, k - 1);
        lemma_state_step(a, op, iv, b, k - 1);
        let was = cheb_state(a, op, iv, b, k - 1);
        let now = cheb_state(a, op, iv, b, k);
        let ax = image(a, op, was.x);
        lemma_image_len(a, op, was.x);
        let r = difference(b, ax);
        let c1 = step_direction::<T>(iv, k);
        let c2 = step_residual::<T>(iv, k);
        lemma_image_minus(a, op, b, ax);
        law_image_is_linear(a, op, c1, was.d, was.d);
        law_image_is_linear(a, op, c2, r, r);
        law_image_is_linear(a, op, c1, multiple(c1, was.d), multiple(c2, r));
        law_image_is_linear(a, op, c1, was.x, now.d);
    }
}

proof fn lemma_state_transposes<T: Scalar>(
    a: CscModel<T>,
    iv: Interval<T::Real>,
    y: Seq<T>,
    b: Seq<T>,
    k: int,
)
    requires
        exact_field::<T>(),
        exact_conjugation::<T>(),
        exact_embedding::<T>(),
        fits(a, b),
        fits(a, y),
    ensures
        pairing(y, cheb_state(a, Op::Apply, iv, b, k).x) == pairing(
            cheb_state(a, Op::Transpose, iv, y, k).x,
            b,
        ),
        pairing(y, cheb_state(a, Op::Apply, iv, b, k).d) == pairing(
            cheb_state(a, Op::Transpose, iv, y, k).d,
            b,
        ),
    decreases k,
{
    let t = Op::Transpose;
    let now = cheb_state(a, Op::Apply, iv, b, k);
    let twin = cheb_state(a, t, iv, y, k);
    lemma_state_step(a, Op::Apply, iv, b, k);
    lemma_state_step(a, t, iv, y, k);
    if k <= 0 {
        let ti = T::embed(iv.theta.reciprocal());
        lemma_pairing_linear(y, ti, b, b);
        lemma_pairing_swaps(twin.x, b);
        lemma_pairing_linear(b, ti, y, y);
        lemma_pairing_swaps(y, b);
    } else {
        let was = cheb_state(a, Op::Apply, iv, b, k - 1);
        let wast = cheb_state(a, t, iv, y, k - 1);
        lemma_state_step(a, Op::Apply, iv, b, k - 1);
        lemma_state_step(a, t, iv, y, k - 1);
        let ay = image(a, t, y);
        lemma_image_len(a, t, y);
        lemma_state_transposes(a, iv, y, b, k - 1);
        lemma_state_transposes(a, iv, ay, b, k - 1);
        lemma_state_commutes(a, t, iv, y, k - 1);
        let ax = image(a, Op::Apply, was.x);
        let az = image(a, t, wast.x);
        lemma_image_len(a, Op::Apply, was.x);
        lemma_image_len(a, t, wast.x);
        let c1 = step_direction::<T>(iv, k);
        let c2 = step_residual::<T>(iv, k);
        let r = difference(b, ax);
        let rt = difference(y, az);
        lemma_pairing_moves(a, y, was.x);
        lemma_pairing_minus(y, b, ax);
        lemma_pairing_minus(b, y, az);
        lemma_pairing_swaps(y, b);
        lemma_pairing_swaps(az, b);
        assert(pairing(y, r) == pairing(b, rt));
        lemma_pairing_linear(y, c1, was.d, was.d);
        lemma_pairing_linear(y, c2, r, r);
        lemma_pairing_linear(y, c1, multiple(c1, was.d), multiple(c2, r));
        lemma_pairing_linear(b, c1, wast.d, wast.d);
        lemma_pairing_linear(b, c2, rt, rt);
        lemma_pairing_linear(b, c1, multiple(c1, wast.d), multiple(c2, rt));
        lemma_pairing_swaps(wast.d, b);
        lemma_pairing_swaps(wast.x, b);
        assert(pairing(y, now.d) == pairing(b, twin.d));
        lemma_pairing_linear(y, c1, was.x, now.d);
        lemma_pairing_linear(b, c1, wast.x, twin.d);
        lemma_pairing_swaps(twin.d, b);
        lemma_pairing_swaps(twin.x, b);
    }
}

/// In exact arithmetic the transposed apply acts with the transpose of what the
/// apply acts with: `y^T (M^{-1} x) = (M^{-T} y)^T x`.
pub proof fn law_transposes<T: Scalar>(f: Poly<T>, y: Seq<T>, x: Seq<T>)
    requires
        exact_field::<T>(),
        exact_conjugation::<T>(),
        exact_embedding::<T>(),
        f.wf(),
        f.a.pattern.sorted(),
        x.len() == f.order(),
        y.len() == f.order(),
    ensures
        pairing(y, f.action(Op::Apply, x)) == pairing(f.action(Op::Transpose, y), x),
{
    let a = f.a_model();
    let d = f.degree as int;
    match f.coeffs {
        Coeffs::Neumann { omega } => {
            let u = neumann_acc(a, Op::Apply, omega, x, d);
            let v = neumann_acc(a, Op::Transpose, omega, y, d);
            lemma_acc_len(a, Op::Apply, omega, x, d);
            lemma_acc_len(a, Op::Transpose, omega, y, d);
            lemma_acc_transposes(a, omega, y, x, d);
            assert(neumann(a, Op::Apply, omega, d, x) =~= multiple(omega, u));
            assert(neumann(a, Op::Transpose, omega, d, y) =~= multiple(omega, v));
            lemma_pairing_linear(y, omega, u, u);
            lemma_pairing_swaps(v, x);
            lemma_pairing_linear(x, omega, v, v);
            lemma_pairing_swaps(multiple(omega, v), x);
        },
        Coeffs::Chebyshev { lambda_min, lambda_max } => {
            let iv = interval(lambda_min.real_part(), lambda_max.real_part());
            lemma_state_transposes(a, iv, y, x, d - 1);
        },
    }
}

/// In exact arithmetic the adjoint apply acts with the adjoint of what the apply
/// acts with: `y^H (M^{-1} x) = (M^{-H} y)^H x`.
pub proof fn law_adjoins<T: Scalar>(f: Poly<T>, y: Seq<T>, x: Seq<T>)
    requires
        exact_field::<T>(),
        exact_conjugation::<T>(),
        exact_roots::<T>(),
        exact_embedding::<T>(),
        f.wf(),
        f.a.pattern.sorted(),
        x.len() == f.order(),
        y.len() == f.order(),
    ensures
        pairing(conj_all(y), f.action(Op::Apply, x)) == pairing(
            conj_all(f.action(Op::Adjoint, y)),
            x,
        ),
{
    law_transposes(f, conj_all(y), x);
    law_poly_conjugates(f, Op::Adjoint, conj_all(y));
    lemma_conj_twice(y);
    lemma_conj_twice(f.action(Op::Transpose, conj_all(y)));
}

/// A mirrored operator has the same transposed product.
proof fn lemma_mirrored_image<T: Scalar>(a: CscModel<T>, op: Op, x: Seq<T>)
    requires
        exact_field::<T>(),
        exact_conjugation::<T>(),
        fits(a, x),
        op.transposes(),
        mirrored(a, op.conjugates()),
    ensures
        image(a, op, x) == image(a, Op::Apply, x),
{
    let n = x.len() as int;
    lemma_image_len(a, op, x);
    lemma_image_len(a, Op::Apply, x);
    assert forall|j: int| 0 <= j < n implies #[trigger] image(a, op, x)[j] == image(
        a,
        Op::Apply,
        x,
    )[j] by {
        lemma_transposed_entry(a, op, x, j);
        lemma_image_entry(a, x, j);
        let f = |i: int| conj_if(op.conjugates(), dense_entry(a, i, j)).times(x[i]);
        let g = |i: int| dense_entry(a, j, i).times(x[i]);
        assert forall|i: int| 0 <= i < n implies #[trigger] f(i) == g(i) by {
            assert(conj_if(op.conjugates(), dense_entry(a, i, j)) == dense_entry(a, j, i));
        }
        lemma_sum_equal(f, g, n);
    }
    assert(image(a, op, x) =~= image(a, Op::Apply, x));
}

/// Where the stored values are real, scattering does not depend on conjugation.
proof fn lemma_real_scatter<T: Scalar>(m: CscModel<T>, xk: T, y: Seq<T>, lo: int, hi: int)
    requires
        forall|p: int| lo <= p < hi ==> (#[trigger] m.values[p]).conjugate() == m.values[p],
    ensures
        scatter_add(m, true, xk, y, lo, hi) == scatter_add(m, false, xk, y, lo, hi),
    decreases hi - lo,
{
    if lo < hi {
        lemma_real_scatter(m, xk, y, lo, hi - 1);
        assert(m.values[hi - 1].conjugate() == m.values[hi - 1]);
    }
}

/// The values of a real symmetric operator are real.
proof fn lemma_values_real<T: Scalar>(a: CscModel<T>, j: int)
    requires
        a.wf(),
        a.pattern.sorted(),
        a.pattern.nrows == a.pattern.ncols,
        mirrored(a, false),
        mirrored(a, true),
        0 <= j < a.pattern.ncols,
    ensures
        forall|p: int|
            a.pattern.start(j) <= p < a.pattern.end(j) ==> (#[trigger] a.values[p]).conjugate()
                == a.values[p],
{
    a.pattern.lemma_col_bounds(j);
    assert forall|p: int| a.pattern.start(j) <= p < a.pattern.end(j) implies (
    #[trigger] a.values[p]).conjugate() == a.values[p] by {
        let i = a.pattern.row_idx@[p] as int;
        assert(a.pattern.in_col(p, j));
        assert(a.pattern.sorted_col(j));
        a.pattern.lemma_find_at(p, j);
        assert(a.pattern.has(i, j));
        assert(dense_entry(a, i, j) == a.values[p]);
        assert(conj_if(false, dense_entry(a, i, j)) == dense_entry(a, j, i));
        assert(conj_if(true, dense_entry(a, i, j)) == dense_entry(a, j, i));
    }
}

proof fn lemma_real_spmv<T: Scalar>(a: CscModel<T>, x: Seq<T>, k: int)
    requires
        a.wf(),
        a.pattern.sorted(),
        a.pattern.nrows == a.pattern.ncols,
        mirrored(a, false),
        mirrored(a, true),
        k <= a.pattern.ncols,
    ensures
        spmv(a, true, x, k) == spmv(a, false, x, k),
    decreases k,
{
    if k > 0 {
        lemma_real_spmv(a, x, k - 1);
        lemma_values_real(a, k - 1);
        lemma_real_scatter(
            a,
            x[k - 1],
            spmv(a, false, x, k - 1),
            a.pattern.start(k - 1),
            a.pattern.end(k - 1),
        );
    }
}

/// Operators with the same products have the same polynomial.
proof fn lemma_same_images<T: Scalar>(a: CscModel<T>, op: Op, coeffs: Coeffs<T>, d: int, b: Seq<T>)
    requires
        a.wf(),
        a.pattern.nrows == a.pattern.ncols,
        b.len() == a.pattern.ncols,
        forall|x: Seq<T>|
            x.len() == b.len() ==> #[trigger] image(a, op, x) == image(a, Op::Apply, x),
    ensures
        poly_action(a, op, coeffs, d, b) == poly_action(a, Op::Apply, coeffs, d, b),
{
    match coeffs {
        Coeffs::Neumann { omega } => {
            lemma_same_acc(a, op, omega, b, d);
            assert(neumann(a, op, omega, d, b) =~= neumann(a, Op::Apply, omega, d, b));
        },
        Coeffs::Chebyshev { lambda_min, lambda_max } => {
            lemma_same_state(
                a,
                op,
                interval(lambda_min.real_part(), lambda_max.real_part()),
                b,
                d - 1,
            );
        },
    }
}

proof fn lemma_same_acc<T: Scalar>(a: CscModel<T>, op: Op, omega: T, b: Seq<T>, k: int)
    requires
        forall|x: Seq<T>|
            x.len() == b.len() ==> #[trigger] image(a, op, x) == image(a, Op::Apply, x),
    ensures
        neumann_acc(a, op, omega, b, k) == neumann_acc(a, Op::Apply, omega, b, k),
    decreases k,
{
    if k > 0 {
        lemma_same_acc(a, op, omega, b, k - 1);
        let x = neumann_acc(a, op, omega, b, k - 1);
        assert(x.len() == b.len());
        assert(image(a, op, x) == image(a, Op::Apply, x));
        assert(neumann_acc(a, op, omega, b, k) =~= neumann_acc(a, Op::Apply, omega, b, k));
    }
}

proof fn lemma_same_state<T: Scalar>(
    a: CscModel<T>,
    op: Op,
    iv: Interval<T::Real>,
    b: Seq<T>,
    k: int,
)
    requires
        forall|x: Seq<T>|
            x.len() == b.len() ==> #[trigger] image(a, op, x) == image(a, Op::Apply, x),
    ensures
        cheb_state(a, op, iv, b, k) == cheb_state(a, Op::Apply, iv, b, k),
        cheb_state(a, op, iv, b, k).x.len() == b.len(),
    decreases k,
{
    if k > 0 {
        lemma_same_state(a, op, iv, b, k - 1);
        let x = cheb_state(a, op, iv, b, k - 1).x;
        assert(image(a, op, x) == image(a, Op::Apply, x));
    }
}

/// In exact arithmetic the transposed apply is the apply where `A` is symmetric,
/// and the adjoint apply is the apply where `A` is Hermitian.
pub proof fn law_symmetric_transpose_is_apply<T: Scalar>(f: Poly<T>, op: Op, x: Seq<T>)
    requires
        exact_field::<T>(),
        exact_conjugation::<T>(),
        f.wf(),
        f.a.pattern.sorted(),
        op.transposes(),
        mirrored(f.a_model(), op.conjugates()),
        x.len() == f.order(),
    ensures
        f.action(op, x) == f.action(Op::Apply, x),
{
    let a = f.a_model();
    assert forall|y: Seq<T>| y.len() == x.len() implies #[trigger] image(a, op, y) == image(
        a,
        Op::Apply,
        y,
    ) by {
        lemma_mirrored_image(a, op, y);
    }
    lemma_same_images(a, op, f.coeffs, f.degree as int, x);
}

/// In exact arithmetic all four applies are one where `A` is real symmetric:
/// both its own transpose and its own adjoint.
pub proof fn law_real_symmetric_applies<T: Scalar>(f: Poly<T>, op: Op, x: Seq<T>)
    requires
        exact_field::<T>(),
        exact_conjugation::<T>(),
        f.wf(),
        f.a.pattern.sorted(),
        mirrored(f.a_model(), false),
        mirrored(f.a_model(), true),
        x.len() == f.order(),
    ensures
        f.action(op, x) == f.action(Op::Apply, x),
{
    let a = f.a_model();
    if op.transposes() {
        law_symmetric_transpose_is_apply(f, op, x);
    } else if op is Conj {
        assert forall|y: Seq<T>| y.len() == x.len() implies #[trigger] image(a, op, y) == image(
            a,
            Op::Apply,
            y,
        ) by {
            lemma_real_spmv(a, y, a.pattern.ncols as int);
        }
        lemma_same_images(a, op, f.coeffs, f.degree as int, x);
    }
}

} // verus!
