//! The conjugated applies are the conjugates of the plain ones.
use crate::fsai::Fsai;
use crate::ic0::Ic0;
use crate::ict::Ict;
use crate::ilu0::Ilu0;
use crate::iluk::Iluk;
use crate::ilutp::apply::gathered;
use crate::ilutp::Ilutp;
use crate::linalg::{
    divided, dot, dot_rev, dot_term, lower_solve, lower_transpose_solve, product, scaled_rows,
    scatter_add, spmv, spmv_transpose, upper_solve, upper_transpose_solve,
};
use crate::lu::{lower_ok, upper_ok};
use crate::op::{Op, Preconditioner};
use crate::scalar::{
    exact_conjugation, exact_field, exact_roots, lemma_embed_conjugate, lemma_minus_undoes_plus,
    lemma_plus_cancels, RealScalar, Scalar,
};
use crate::poly::apply::{cheb_state, image, interval, neumann_acc, rho, Interval};
use crate::poly::laws::exact_embedding;
use crate::poly::{Coeffs, Poly};
use crate::spai::Spai;
use crate::sparse::CscModel;
use crate::ssor::Ssor;
use crate::triangular::{llh_action, lu_action};
use vstd::prelude::*;

verus! {

/// `x`, every entry conjugated.
pub open spec fn conj_all<T: Scalar>(x: Seq<T>) -> Seq<T> {
    Seq::new(x.len(), |i: int| x[i].conjugate())
}

proof fn lemma_conj_minus<T: Scalar>(a: T, b: T)
    requires
        exact_field::<T>(),
        exact_conjugation::<T>(),
    ensures
        a.minus(b).conjugate() == a.conjugate().minus(b.conjugate()),
{
    reveal(exact_conjugation);
    lemma_minus_undoes_plus(a, b);
    lemma_minus_undoes_plus(a.conjugate(), b.conjugate());
    assert(a.minus(b).plus(b).conjugate() == a.minus(b).conjugate().plus(b.conjugate()));
    lemma_plus_cancels(
        a.minus(b).conjugate(),
        a.conjugate().minus(b.conjugate()),
        b.conjugate(),
    );
}

proof fn lemma_conj_times<T: Scalar>(a: T, b: T)
    requires
        exact_conjugation::<T>(),
    ensures
        a.times(b).conjugate() == a.conjugate().times(b.conjugate()),
{
    reveal(exact_conjugation);
}

proof fn lemma_conj_plus<T: Scalar>(a: T, b: T)
    requires
        exact_conjugation::<T>(),
    ensures
        a.plus(b).conjugate() == a.conjugate().plus(b.conjugate()),
{
    reveal(exact_conjugation);
}

proof fn lemma_conj_null<T: Scalar>()
    requires
        exact_conjugation::<T>(),
    ensures
        T::null().conjugate() == T::null(),
{
    reveal(exact_conjugation);
}

proof fn lemma_divided<T: Scalar>(unit: bool, d: T, x: T)
    requires
        exact_conjugation::<T>(),
    ensures
        divided(unit, true, d, x.conjugate()) == divided(unit, false, d, x).conjugate(),
{
    lemma_conj_times(x, d.reciprocal());
}

proof fn lemma_lower<T: Scalar>(l: CscModel<T>, unit: bool, x: Seq<T>, k: int)
    requires
        exact_field::<T>(),
        exact_conjugation::<T>(),
        0 <= k <= x.len(),
    ensures
        lower_solve(l, unit, false, x, k).len() == x.len(),
        lower_solve(l, unit, true, conj_all(x), k) == conj_all(lower_solve(l, unit, false, x, k)),
    decreases k,
{
    if k > 0 {
        lemma_lower(l, unit, x, k - 1);
        let j = k - 1;
        let y = lower_solve(l, unit, false, x, j);
        let d = l.values[l.pattern.start(j)];
        let yj = divided(unit, false, d, y[j]);
        lemma_divided(unit, d, y[j]);
        let left = lower_solve(l, unit, true, conj_all(x), k);
        let right = conj_all(lower_solve(l, unit, false, x, k));
        assert forall|i: int| 0 <= i < x.len() implies #[trigger] left[i] == right[i] by {
            lemma_conj_times(l.entry(i, j), yj);
            lemma_conj_minus(y[i], l.entry(i, j).times(yj));
        }
        assert(left =~= right);
    }
}

proof fn lemma_upper<T: Scalar>(u: CscModel<T>, x: Seq<T>, k: int)
    requires
        exact_field::<T>(),
        exact_conjugation::<T>(),
        0 <= k <= x.len(),
    ensures
        upper_solve(u, false, x, k).len() == x.len(),
        upper_solve(u, true, conj_all(x), k) == conj_all(upper_solve(u, false, x, k)),
    decreases k,
{
    if k > 0 {
        lemma_upper(u, x, k - 1);
        let j = x.len() - k;
        let y = upper_solve(u, false, x, k - 1);
        let d = u.values[u.pattern.end(j) - 1];
        let yj = divided(false, false, d, y[j]);
        lemma_divided(false, d, y[j]);
        let left = upper_solve(u, true, conj_all(x), k);
        let right = conj_all(upper_solve(u, false, x, k));
        assert forall|i: int| 0 <= i < x.len() implies #[trigger] left[i] == right[i] by {
            lemma_conj_times(u.entry(i, j), yj);
            lemma_conj_minus(y[i], u.entry(i, j).times(yj));
        }
        assert(left =~= right);
    }
}

proof fn lemma_dot<T: Scalar>(m: CscModel<T>, x: Seq<T>, lo: int, hi: int)
    requires
        exact_conjugation::<T>(),
        forall|p: int| lo <= p < hi ==> (#[trigger] m.pattern.row_idx@[p]) < x.len(),
    ensures
        dot(m, true, conj_all(x), lo, hi) == dot(m, false, x, lo, hi).conjugate(),
        dot_rev(m, true, conj_all(x), lo, hi) == dot_rev(m, false, x, lo, hi).conjugate(),
    decreases hi - lo,
{
    if lo < hi {
        lemma_dot(m, x, lo, hi - 1);
        lemma_dot(m, x, lo + 1, hi);
        assert(m.pattern.row_idx@[hi - 1] < x.len());
        assert(m.pattern.row_idx@[lo] < x.len());
        lemma_conj_times(m.values[hi - 1], x[m.pattern.row_idx@[hi - 1] as int]);
        lemma_conj_times(m.values[lo], x[m.pattern.row_idx@[lo] as int]);
        lemma_conj_plus(dot(m, false, x, lo, hi - 1), dot_term(m, false, x, hi - 1));
        lemma_conj_plus(dot_rev(m, false, x, lo + 1, hi), dot_term(m, false, x, lo));
    } else {
        lemma_conj_null::<T>();
    }
}

proof fn lemma_lower_transpose<T: Scalar>(l: CscModel<T>, unit: bool, x: Seq<T>, k: int)
    requires
        exact_field::<T>(),
        exact_conjugation::<T>(),
        lower_ok(l.pattern, x.len() as int),
        0 <= k <= x.len(),
    ensures
        lower_transpose_solve(l, unit, false, x, k).len() == x.len(),
        lower_transpose_solve(l, unit, true, conj_all(x), k) == conj_all(
            lower_transpose_solve(l, unit, false, x, k),
        ),
    decreases k,
{
    if k > 0 {
        lemma_lower_transpose(l, unit, x, k - 1);
        let j = x.len() - k;
        let y = lower_transpose_solve(l, unit, false, x, k - 1);
        let s = l.pattern.start(j);
        let e = l.pattern.end(j);
        l.pattern.lemma_col_bounds(j);
        let inner = dot_rev(l, false, y, s + 1, e);
        lemma_dot(l, y, s + 1, e);
        lemma_conj_minus(y[j], inner);
        lemma_divided(unit, l.values[s], y[j].minus(inner));
        assert(lower_transpose_solve(l, unit, true, conj_all(x), k) =~= conj_all(
            lower_transpose_solve(l, unit, false, x, k),
        ));
    }
}

proof fn lemma_upper_transpose<T: Scalar>(u: CscModel<T>, x: Seq<T>, k: int)
    requires
        exact_field::<T>(),
        exact_conjugation::<T>(),
        upper_ok(u.pattern, x.len() as int),
        0 <= k <= x.len(),
    ensures
        upper_transpose_solve(u, false, x, k).len() == x.len(),
        upper_transpose_solve(u, true, conj_all(x), k) == conj_all(
            upper_transpose_solve(u, false, x, k),
        ),
    decreases k,
{
    if k > 0 {
        lemma_upper_transpose(u, x, k - 1);
        let j = k - 1;
        let y = upper_transpose_solve(u, false, x, j);
        let s = u.pattern.start(j);
        let e = u.pattern.end(j);
        u.pattern.lemma_col_bounds(j);
        let inner = dot(u, false, y, s, e - 1);
        lemma_dot(u, y, s, e - 1);
        lemma_conj_minus(y[j], inner);
        lemma_divided(false, u.values[e - 1], y[j].minus(inner));
        assert(upper_transpose_solve(u, true, conj_all(x), k) =~= conj_all(
            upper_transpose_solve(u, false, x, k),
        ));
    }
}

proof fn lemma_scatter<T: Scalar>(m: CscModel<T>, xk: T, y: Seq<T>, lo: int, hi: int)
    requires
        exact_conjugation::<T>(),
        forall|p: int| lo <= p < hi ==> (#[trigger] m.pattern.row_idx@[p]) < y.len(),
    ensures
        scatter_add(m, false, xk, y, lo, hi).len() == y.len(),
        scatter_add(m, true, xk.conjugate(), conj_all(y), lo, hi) == conj_all(
            scatter_add(m, false, xk, y, lo, hi),
        ),
    decreases hi - lo,
{
    if lo < hi {
        lemma_scatter(m, xk, y, lo, hi - 1);
        let z = scatter_add(m, false, xk, y, lo, hi - 1);
        let i = m.pattern.row_idx@[hi - 1] as int;
        lemma_conj_times(m.values[hi - 1], xk);
        lemma_conj_plus(z[i], m.values[hi - 1].times(xk));
        assert(scatter_add(m, true, xk.conjugate(), conj_all(y), lo, hi) =~= conj_all(
            scatter_add(m, false, xk, y, lo, hi),
        ));
    }
}

proof fn lemma_spmv<T: Scalar>(m: CscModel<T>, x: Seq<T>, k: int)
    requires
        exact_conjugation::<T>(),
        m.wf(),
        x.len() == m.pattern.ncols,
        0 <= k <= x.len(),
    ensures
        spmv(m, false, x, k).len() == m.pattern.nrows,
        spmv(m, true, conj_all(x), k) == conj_all(spmv(m, false, x, k)),
    decreases k,
{
    if k > 0 {
        lemma_spmv(m, x, k - 1);
        m.pattern.lemma_col_bounds(k - 1);
        lemma_scatter(
            m,
            x[k - 1],
            spmv(m, false, x, k - 1),
            m.pattern.start(k - 1),
            m.pattern.end(k - 1),
        );
    } else {
        lemma_conj_null::<T>();
        assert(spmv(m, true, conj_all(x), k) =~= conj_all(spmv(m, false, x, k)));
    }
}

/// A conjugated product is the conjugate of the product.
pub proof fn lemma_product<T: Scalar>(m: CscModel<T>, transpose: bool, x: Seq<T>)
    requires
        exact_conjugation::<T>(),
        m.wf(),
        m.pattern.nrows == m.pattern.ncols,
        x.len() == m.pattern.ncols,
    ensures
        product(m, transpose, false, x).len() == x.len(),
        product(m, transpose, true, conj_all(x)) == conj_all(product(m, transpose, false, x)),
{
    if transpose {
        assert forall|j: int| 0 <= j < m.pattern.ncols implies #[trigger] spmv_transpose(
            m,
            true,
            conj_all(x),
        )[j] == conj_all(spmv_transpose(m, false, x))[j] by {
            m.pattern.lemma_col_bounds(j);
            lemma_dot(m, x, m.pattern.start(j), m.pattern.end(j));
        }
        assert(spmv_transpose(m, true, conj_all(x)) =~= conj_all(spmv_transpose(m, false, x)));
    } else {
        lemma_spmv(m, x, m.pattern.ncols as int);
    }
}

/// The plain form of `op`.
pub open spec fn plain(op: Op) -> Op {
    if op.transposes() {
        Op::Transpose
    } else {
        Op::Apply
    }
}

/// A conjugated LU action is the conjugate of the plain one.
proof fn lemma_lu<T: Scalar>(l: CscModel<T>, u: CscModel<T>, op: Op, x: Seq<T>)
    requires
        exact_field::<T>(),
        exact_conjugation::<T>(),
        lower_ok(l.pattern, x.len() as int),
        upper_ok(u.pattern, x.len() as int),
        op.conjugates(),
    ensures
        lu_action(l, u, plain(op), x).len() == x.len(),
        lu_action(l, u, op, conj_all(x)) == conj_all(lu_action(l, u, plain(op), x)),
{
    let n = x.len() as int;
    if op.transposes() {
        lemma_upper_transpose(u, x, n);
        lemma_lower_transpose(l, true, upper_transpose_solve(u, false, x, n), n);
    } else {
        lemma_lower(l, true, x, n);
        lemma_upper(u, lower_solve(l, true, false, x, n), n);
    }
}

/// In exact arithmetic the conjugated applies of ILU(0), ILU(k) and ILUTP are
/// the conjugates of the plain ones: `conj(M^{-1}) conj(x) = conj(M^{-1} x)` and
/// `M^{-H} conj(x) = conj(M^{-T} x)`.
pub proof fn law_lu_conjugates<T: Scalar>(
    a: Ilu0<T>,
    b: Iluk<T>,
    c: Ilutp<T>,
    op: Op,
    x: Seq<T>,
)
    requires
        exact_field::<T>(),
        exact_conjugation::<T>(),
        a.wf(),
        b.wf(),
        c.wf(),
        a.order() == x.len(),
        b.order() == x.len(),
        c.order() == x.len(),
        op.conjugates(),
    ensures
        a.action(op, conj_all(x)) == conj_all(a.action(plain(op), x)),
        b.action(op, conj_all(x)) == conj_all(b.action(plain(op), x)),
        c.action(op, conj_all(x)) == conj_all(c.action(plain(op), x)),
{
    let n = x.len() as int;
    lemma_lu(a.l_model(), a.u_model(), op, x);
    lemma_lu(b.l_model(), b.u_model(), op, x);
    if op.transposes() {
        let y = gathered(x, c.perm@);
        assert forall|r: int| 0 <= r < n implies #[trigger] gathered(conj_all(x), c.perm@)[r]
            == conj_all(y)[r] by {
            assert(c.perm@[r] < n);
        }
        assert(gathered(conj_all(x), c.perm@) =~= conj_all(y));
        lemma_lu(c.l_model(), c.u_model(), op, y);
    } else {
        lemma_lu(c.l_model(), c.u_model(), op, x);
        let y = lu_action(c.l_model(), c.u_model(), plain(op), x);
        assert forall|r: int| 0 <= r < n implies #[trigger] gathered(conj_all(y), c.perm_inv@)[r]
            == conj_all(gathered(y, c.perm_inv@))[r] by {
            assert(c.perm_inv@[r] < n);
        }
        assert(gathered(conj_all(y), c.perm_inv@) =~= conj_all(gathered(y, c.perm_inv@)));
    }
}

/// In exact arithmetic the conjugated applies of SSOR are the conjugates of the
/// plain ones.
pub proof fn law_ssor_conjugates<T: Scalar>(m: Ssor<T>, op: Op, x: Seq<T>)
    requires
        exact_field::<T>(),
        exact_conjugation::<T>(),
        m.wf(),
        m.order() == x.len(),
        op.conjugates(),
    ensures
        m.action(op, conj_all(x)) == conj_all(m.action(plain(op), x)),
{
    let n = x.len() as int;
    let l = m.l_model();
    let u = m.u_model();
    let d = m.scaled_diag@;
    if op.transposes() {
        lemma_upper_transpose(u, x, n);
        let y = upper_transpose_solve(u, false, x, n);
        lemma_scaled(d, y);
        lemma_lower_transpose(l, false, scaled_rows(d, false, y), n);
    } else {
        lemma_lower(l, false, x, n);
        let y = lower_solve(l, false, false, x, n);
        lemma_scaled(d, y);
        lemma_upper(u, scaled_rows(d, false, y), n);
    }
}

proof fn lemma_scaled<T: Scalar>(d: Seq<T>, y: Seq<T>)
    requires
        exact_conjugation::<T>(),
    ensures
        scaled_rows(d, true, conj_all(y)) == conj_all(scaled_rows(d, false, y)),
{
    assert forall|i: int| 0 <= i < y.len() implies #[trigger] scaled_rows(d, true, conj_all(y))[i]
        == conj_all(scaled_rows(d, false, y))[i] by {
        lemma_conj_times(d[i], y[i]);
    }
    assert(scaled_rows(d, true, conj_all(y)) =~= conj_all(scaled_rows(d, false, y)));
}

/// In exact arithmetic the conjugated applies of IC(0), ICT and FSAI are the
/// conjugates of the plain ones.
pub proof fn law_hermitian_conjugates<T: Scalar>(a: Ic0<T>, b: Ict<T>, c: Fsai<T>, x: Seq<T>)
    requires
        exact_field::<T>(),
        exact_conjugation::<T>(),
        a.wf(),
        b.wf(),
        c.wf(),
        a.order() == x.len(),
        b.order() == x.len(),
        c.order() == x.len(),
    ensures
        a.action(Op::Conj, conj_all(x)) == conj_all(a.action(Op::Apply, x)),
        b.action(Op::Conj, conj_all(x)) == conj_all(b.action(Op::Apply, x)),
        c.action(Op::Conj, conj_all(x)) == conj_all(c.action(Op::Apply, x)),
{
    lemma_llh(a.l_model(), x);
    lemma_llh(b.l_model(), x);
    let g = c.g_model();
    lemma_product(g, false, x);
    let y = product(g, false, false, x);
    lemma_conj_twice(y);
    lemma_product(g, true, conj_all(y));
    lemma_conj_twice(product(g, true, false, conj_all(y)));
}

pub proof fn lemma_conj_twice<T: Scalar>(x: Seq<T>)
    requires
        exact_conjugation::<T>(),
    ensures
        conj_all(conj_all(x)) == x,
{
    reveal(exact_conjugation);
    assert(conj_all(conj_all(x)) =~= x);
}

/// A conjugated Cholesky action is the conjugate of the plain one.
proof fn lemma_llh<T: Scalar>(l: CscModel<T>, x: Seq<T>)
    requires
        exact_field::<T>(),
        exact_conjugation::<T>(),
        lower_ok(l.pattern, x.len() as int),
    ensures
        llh_action(l, true, conj_all(x)) == conj_all(llh_action(l, false, x)),
{
    let n = x.len() as int;
    lemma_lower(l, false, x, n);
    let y = lower_solve(l, false, false, x, n);
    lemma_conj_twice(y);
    lemma_lower_transpose(l, false, conj_all(y), n);
    lemma_conj_twice(lower_transpose_solve(l, false, false, conj_all(y), n));
}

proof fn lemma_conj_scaled<T: Scalar>(x: T, r: T::Real)
    requires
        exact_conjugation::<T>(),
        exact_roots::<T>(),
        exact_embedding::<T>(),
    ensures
        x.scaled(r).conjugate() == x.conjugate().scaled(r),
{
    lemma_conj_times(x, T::embed(r));
    lemma_embed_conjugate::<T>(r);
}

proof fn lemma_acc<T: Scalar>(m: CscModel<T>, op: Op, omega: T, b: Seq<T>, k: int)
    requires
        exact_field::<T>(),
        exact_conjugation::<T>(),
        m.wf(),
        m.pattern.nrows == m.pattern.ncols,
        b.len() == m.pattern.ncols,
        op.conjugates(),
        omega.conjugate() == omega,
    ensures
        neumann_acc(m, op, omega, conj_all(b), k) == conj_all(
            neumann_acc(m, plain(op), omega, b, k),
        ),
    decreases k,
{
    if k > 0 {
        lemma_acc(m, op, omega, b, k - 1);
        let x = neumann_acc(m, plain(op), omega, b, k - 1);
        assert(x.len() == b.len());
        lemma_product(m, op.transposes(), x);
        let ax = image(m, plain(op), x);
        let left = neumann_acc(m, op, omega, conj_all(b), k);
        let right = conj_all(neumann_acc(m, plain(op), omega, b, k));
        assert forall|i: int| 0 <= i < b.len() implies #[trigger] left[i] == right[i] by {
            lemma_conj_minus(b[i].plus(x[i]), omega.times(ax[i]));
            lemma_conj_plus(b[i], x[i]);
            lemma_conj_times(omega, ax[i]);
        }
        assert(left =~= right);
    }
}

proof fn lemma_cheb<T: Scalar>(m: CscModel<T>, op: Op, iv: Interval<T::Real>, b: Seq<T>, k: int)
    requires
        exact_field::<T>(),
        exact_conjugation::<T>(),
        exact_roots::<T>(),
        exact_embedding::<T>(),
        m.wf(),
        m.pattern.nrows == m.pattern.ncols,
        b.len() == m.pattern.ncols,
        op.conjugates(),
    ensures
        cheb_state(m, plain(op), iv, b, k).x.len() == b.len(),
        cheb_state(m, plain(op), iv, b, k).d.len() == b.len(),
        cheb_state(m, op, iv, conj_all(b), k).x == conj_all(cheb_state(m, plain(op), iv, b, k).x),
        cheb_state(m, op, iv, conj_all(b), k).d == conj_all(cheb_state(m, plain(op), iv, b, k).d),
    decreases k,
{
    let left = cheb_state(m, op, iv, conj_all(b), k);
    let right = cheb_state(m, plain(op), iv, b, k);
    if k <= 0 {
        assert forall|i: int| 0 <= i < b.len() implies #[trigger] left.x[i] == conj_all(
            right.x,
        )[i] by {
            lemma_conj_scaled(b[i], iv.theta.reciprocal());
        }
        assert(left.x =~= conj_all(right.x));
    } else {
        lemma_cheb(m, op, iv, b, k - 1);
        let was = cheb_state(m, plain(op), iv, b, k - 1);
        lemma_product(m, op.transposes(), was.x);
        let ax = image(m, plain(op), was.x);
        let c1 = rho(iv.sigma, k).times(rho(iv.sigma, k - 1));
        let c2 = T::Real::ratio(2, 1).times(rho(iv.sigma, k)).over(iv.delta);
        assert forall|i: int| 0 <= i < b.len() implies #[trigger] left.d[i] == conj_all(
            right.d,
        )[i] by {
            let r = b[i].minus(ax[i]);
            lemma_conj_minus(b[i], ax[i]);
            lemma_conj_scaled(was.d[i], c1);
            lemma_conj_scaled(r, c2);
            lemma_conj_plus(was.d[i].scaled(c1), r.scaled(c2));
        }
        assert(left.d =~= conj_all(right.d));
        assert forall|i: int| 0 <= i < b.len() implies #[trigger] left.x[i] == conj_all(
            right.x,
        )[i] by {
            lemma_conj_plus(was.x[i], right.d[i]);
        }
        assert(left.x =~= conj_all(right.x));
    }
}

/// In exact arithmetic the conjugated applies of the polynomial preconditioner
/// are the conjugates of the plain ones.
pub proof fn law_poly_conjugates<T: Scalar>(f: Poly<T>, op: Op, x: Seq<T>)
    requires
        exact_field::<T>(),
        exact_conjugation::<T>(),
        exact_roots::<T>(),
        exact_embedding::<T>(),
        f.wf(),
        f.order() == x.len(),
        op.conjugates(),
    ensures
        f.action(op, conj_all(x)) == conj_all(f.action(plain(op), x)),
{
    let m = f.a_model();
    let d = f.degree as int;
    match f.coeffs {
        Coeffs::Neumann { omega } => {
            let r = choose|r: T::Real| omega == #[trigger] T::embed(r);
            lemma_embed_conjugate::<T>(r);
            lemma_acc(m, op, omega, x, d);
            let acc = neumann_acc(m, plain(op), omega, x, d);
            assert(acc.len() == x.len());
            let left = f.action(op, conj_all(x));
            let right = conj_all(f.action(plain(op), x));
            assert forall|i: int| 0 <= i < x.len() implies #[trigger] left[i] == right[i] by {
                lemma_conj_times(omega, acc[i]);
            }
            assert(left =~= right);
        },
        Coeffs::Chebyshev { lambda_min, lambda_max } => {
            let iv = interval(lambda_min.real_part(), lambda_max.real_part());
            lemma_cheb(m, op, iv, x, d - 1);
        },
    }
}

/// In exact arithmetic the conjugated applies of SPAI are the conjugates of the
/// plain ones.
pub proof fn law_spai_conjugates<T: Scalar>(f: Spai<T>, op: Op, x: Seq<T>)
    requires
        exact_conjugation::<T>(),
        f.wf(),
        f.order() == x.len(),
        op.conjugates(),
    ensures
        f.action(op, conj_all(x)) == conj_all(f.action(plain(op), x)),
{
    lemma_product(f.m_model(), op.transposes(), x);
}

} // verus!
