//! The polynomials that the recurrences evaluate.
use super::apply::{
    cheb_state, combined, difference, image, interval, neumann, neumann_acc, poly_action, rho,
    summed, Interval,
};
use super::Coeffs;
use crate::linalg::{dot, scatter_add, spmv};
use crate::op::Op;
use crate::reading::reads_reals;
use crate::scalar::{
    conj_if, exact_field, lemma_minus_associates, lemma_minus_exchange, lemma_minus_undoes_plus,
    lemma_null_absorbs, lemma_null_is_neutral, lemma_plus_associates, lemma_plus_cancels,
    lemma_plus_commutes, lemma_plus_exchange, lemma_times_associates, lemma_times_commutes,
    lemma_times_distributes, lemma_times_distributes_left, lemma_unit_is_neutral, RealScalar,
    Scalar,
};
use crate::sparse::CscModel;
use crate::sums::sum;
use vstd::prelude::*;

verus! {

/// `c x`.
pub open spec fn multiple<T: Scalar>(c: T, x: Seq<T>) -> Seq<T> {
    Seq::new(x.len(), |i: int| c.times(x[i]))
}

/// The vectors fit the operator.
spec fn fits<T: Scalar>(a: CscModel<T>, x: Seq<T>) -> bool {
    a.wf() && a.pattern.nrows == a.pattern.ncols && x.len() == a.pattern.ncols
}

proof fn lemma_scatter_len<T: Scalar>(
    m: CscModel<T>,
    conj: bool,
    xk: T,
    y: Seq<T>,
    lo: int,
    hi: int,
)
    requires
        0 <= lo,
        hi <= m.pattern.row_idx@.len(),
        forall|p: int| lo <= p < hi ==> (#[trigger] m.pattern.row_idx@[p]) < y.len(),
    ensures
        scatter_add(m, conj, xk, y, lo, hi).len() == y.len(),
    decreases hi - lo,
{
    if lo < hi {
        lemma_scatter_len(m, conj, xk, y, lo, hi - 1);
        assert(m.pattern.row_idx@[hi - 1] < y.len());
    }
}

proof fn lemma_spmv_len<T: Scalar>(m: CscModel<T>, conj: bool, x: Seq<T>, k: int)
    requires
        m.wf(),
        0 <= k <= m.pattern.ncols,
    ensures
        spmv(m, conj, x, k).len() == m.pattern.nrows,
    decreases k,
{
    if k > 0 {
        lemma_spmv_len(m, conj, x, k - 1);
        m.pattern.lemma_col_bounds(k - 1);
        lemma_scatter_len(
            m,
            conj,
            x[k - 1],
            spmv(m, conj, x, k - 1),
            m.pattern.start(k - 1),
            m.pattern.end(k - 1),
        );
    }
}

/// A product with a square matrix has the length of its operand.
pub proof fn lemma_image_len<T: Scalar>(a: CscModel<T>, op: Op, x: Seq<T>)
    requires
        a.wf(),
        a.pattern.nrows == a.pattern.ncols,
    ensures
        image(a, op, x).len() == a.pattern.ncols,
{
    if !op.transposes() {
        lemma_spmv_len(a, op.conjugates(), x, a.pattern.ncols as int);
    }
}

/// Scattering a sum is the sum of the scatterings.
proof fn lemma_scatter_plus<T: Scalar>(
    m: CscModel<T>,
    conj: bool,
    xk: T,
    yk: T,
    u: Seq<T>,
    v: Seq<T>,
    lo: int,
    hi: int,
)
    requires
        exact_field::<T>(),
        u.len() == v.len(),
        0 <= lo,
        hi <= m.pattern.row_idx@.len(),
        forall|p: int| lo <= p < hi ==> (#[trigger] m.pattern.row_idx@[p]) < u.len(),
    ensures
        scatter_add(m, conj, xk.plus(yk), summed(u, v), lo, hi) == summed(
            scatter_add(m, conj, xk, u, lo, hi),
            scatter_add(m, conj, yk, v, lo, hi),
        ),
    decreases hi - lo,
{
    lemma_scatter_len(m, conj, xk, u, lo, hi);
    lemma_scatter_len(m, conj, yk, v, lo, hi);
    lemma_scatter_len(m, conj, xk.plus(yk), summed(u, v), lo, hi);
    if lo < hi {
        lemma_scatter_plus(m, conj, xk, yk, u, v, lo, hi - 1);
        lemma_scatter_len(m, conj, xk, u, lo, hi - 1);
        lemma_scatter_len(m, conj, yk, v, lo, hi - 1);
        let i = m.pattern.row_idx@[hi - 1] as int;
        let c = conj_if(conj, m.values[hi - 1]);
        let a = scatter_add(m, conj, xk, u, lo, hi - 1);
        let b = scatter_add(m, conj, yk, v, lo, hi - 1);
        lemma_times_distributes_left(c, xk, yk);
        lemma_plus_exchange(a[i], b[i], c.times(xk), c.times(yk));
    }
    assert(scatter_add(m, conj, xk.plus(yk), summed(u, v), lo, hi) =~= summed(
        scatter_add(m, conj, xk, u, lo, hi),
        scatter_add(m, conj, yk, v, lo, hi),
    ));
}

/// Scattering a multiple is the multiple of the scattering.
proof fn lemma_scatter_multiple<T: Scalar>(
    m: CscModel<T>,
    conj: bool,
    c: T,
    xk: T,
    u: Seq<T>,
    lo: int,
    hi: int,
)
    requires
        exact_field::<T>(),
        0 <= lo,
        hi <= m.pattern.row_idx@.len(),
        forall|p: int| lo <= p < hi ==> (#[trigger] m.pattern.row_idx@[p]) < u.len(),
    ensures
        scatter_add(m, conj, c.times(xk), multiple(c, u), lo, hi) == multiple(
            c,
            scatter_add(m, conj, xk, u, lo, hi),
        ),
    decreases hi - lo,
{
    lemma_scatter_len(m, conj, xk, u, lo, hi);
    lemma_scatter_len(m, conj, c.times(xk), multiple(c, u), lo, hi);
    if lo < hi {
        lemma_scatter_multiple(m, conj, c, xk, u, lo, hi - 1);
        lemma_scatter_len(m, conj, xk, u, lo, hi - 1);
        let i = m.pattern.row_idx@[hi - 1] as int;
        let v = conj_if(conj, m.values[hi - 1]);
        let a = scatter_add(m, conj, xk, u, lo, hi - 1);
        lemma_times_associates(v, c, xk);
        lemma_times_commutes(v, c);
        lemma_times_associates(c, v, xk);
        lemma_times_distributes_left(c, a[i], v.times(xk));
    }
    assert(scatter_add(m, conj, c.times(xk), multiple(c, u), lo, hi) =~= multiple(
        c,
        scatter_add(m, conj, xk, u, lo, hi),
    ));
}

/// In exact arithmetic the product with a matrix is linear.
pub proof fn law_image_is_linear<T: Scalar>(a: CscModel<T>, op: Op, c: T, x: Seq<T>, y: Seq<T>)
    requires
        exact_field::<T>(),
        a.wf(),
        a.pattern.nrows == a.pattern.ncols,
        x.len() == a.pattern.ncols,
        y.len() == a.pattern.ncols,
    ensures
        image(a, op, summed(x, y)) == summed(image(a, op, x), image(a, op, y)),
        image(a, op, multiple(c, x)) == multiple(c, image(a, op, x)),
{
    let conj = op.conjugates();
    if op.transposes() {
        assert forall|j: int| 0 <= j < a.pattern.ncols implies #[trigger] image(
            a,
            op,
            summed(x, y),
        )[j] == summed(image(a, op, x), image(a, op, y))[j] && image(a, op, multiple(c, x))[j]
            == multiple(c, image(a, op, x))[j] by {
            a.pattern.lemma_col_bounds(j);
            lemma_dot_linear(a, conj, c, x, y, a.pattern.start(j), a.pattern.end(j));
        }
        assert(image(a, op, summed(x, y)) =~= summed(image(a, op, x), image(a, op, y)));
        assert forall|j: int| 0 <= j < a.pattern.ncols implies #[trigger] image(
            a,
            op,
            multiple(c, x),
        )[j] == multiple(c, image(a, op, x))[j] by {
            assert(image(a, op, summed(x, y))[j] == summed(image(a, op, x), image(a, op, y))[j]);
        }
        assert(image(a, op, multiple(c, x)) =~= multiple(c, image(a, op, x)));
    } else {
        lemma_linear_upto(a, conj, c, x, y, a.pattern.ncols as int);
    }
}

proof fn lemma_linear_upto<T: Scalar>(
    a: CscModel<T>,
    conj: bool,
    c: T,
    x: Seq<T>,
    y: Seq<T>,
    k: int,
)
    requires
        exact_field::<T>(),
        fits(a, x),
        fits(a, y),
        0 <= k <= a.pattern.ncols,
    ensures
        spmv(a, conj, summed(x, y), k) == summed(spmv(a, conj, x, k), spmv(a, conj, y, k)),
        spmv(a, conj, multiple(c, x), k) == multiple(c, spmv(a, conj, x, k)),
    decreases k,
{
    lemma_spmv_len(a, conj, x, k);
    lemma_spmv_len(a, conj, y, k);
    if k == 0 {
        lemma_null_is_neutral(T::null());
        lemma_null_absorbs(c);
        assert(spmv(a, conj, summed(x, y), k) =~= summed(
            spmv(a, conj, x, k),
            spmv(a, conj, y, k),
        ));
        assert(spmv(a, conj, multiple(c, x), k) =~= multiple(c, spmv(a, conj, x, k)));
    } else {
        lemma_linear_upto(a, conj, c, x, y, k - 1);
        lemma_spmv_len(a, conj, x, k - 1);
        lemma_spmv_len(a, conj, y, k - 1);
        let p = a.pattern;
        p.lemma_col_bounds(k - 1);
        lemma_scatter_plus(
            a,
            conj,
            x[k - 1],
            y[k - 1],
            spmv(a, conj, x, k - 1),
            spmv(a, conj, y, k - 1),
            p.start(k - 1),
            p.end(k - 1),
        );
        lemma_scatter_multiple(
            a,
            conj,
            c,
            x[k - 1],
            spmv(a, conj, x, k - 1),
            p.start(k - 1),
            p.end(k - 1),
        );
    }
}

/// A transposed product is linear, entry by entry.
proof fn lemma_dot_linear<T: Scalar>(
    a: CscModel<T>,
    conj: bool,
    c: T,
    x: Seq<T>,
    y: Seq<T>,
    lo: int,
    hi: int,
)
    requires
        exact_field::<T>(),
        fits(a, x),
        fits(a, y),
        0 <= lo,
        hi <= a.pattern.row_idx@.len(),
    ensures
        dot(a, conj, summed(x, y), lo, hi) == dot(a, conj, x, lo, hi).plus(
            dot(a, conj, y, lo, hi),
        ),
        dot(a, conj, multiple(c, x), lo, hi) == c.times(dot(a, conj, x, lo, hi)),
    decreases hi - lo,
{
    if lo >= hi {
        lemma_null_is_neutral(T::null());
        lemma_null_absorbs(c);
    } else {
        lemma_dot_linear(a, conj, c, x, y, lo, hi - 1);
        let i = a.pattern.row_idx@[hi - 1] as int;
        let v = conj_if(conj, a.values[hi - 1]);
        let dx = dot(a, conj, x, lo, hi - 1);
        let dy = dot(a, conj, y, lo, hi - 1);
        lemma_times_distributes_left(v, x[i], y[i]);
        lemma_plus_exchange(dx, dy, v.times(x[i]), v.times(y[i]));
        lemma_times_associates(v, c, x[i]);
        lemma_times_commutes(v, c);
        lemma_times_associates(c, v, x[i]);
        lemma_times_distributes_left(c, dx, v.times(x[i]));
    }
}

/// `(I - w A) x`.
pub open spec fn damped<T: Scalar>(a: CscModel<T>, op: Op, omega: T, x: Seq<T>) -> Seq<T> {
    difference(x, multiple(omega, image(a, op, x)))
}

/// `(I - w A)^k b`.
pub open spec fn damped_power<T: Scalar>(
    a: CscModel<T>,
    op: Op,
    omega: T,
    b: Seq<T>,
    k: int,
) -> Seq<T>
    decreases k,
{
    if k <= 0 {
        b
    } else {
        damped(a, op, omega, damped_power(a, op, omega, b, k - 1))
    }
}

/// `sum_{k = 0}^{d} (I - w A)^k b`.
pub open spec fn damped_sum<T: Scalar>(
    a: CscModel<T>,
    op: Op,
    omega: T,
    b: Seq<T>,
    d: int,
) -> Seq<T> {
    Seq::new(b.len(), |i: int| sum(|k: int| damped_power(a, op, omega, b, k)[i], d + 1))
}

proof fn lemma_power_len<T: Scalar>(a: CscModel<T>, op: Op, omega: T, b: Seq<T>, k: int)
    ensures
        damped_power(a, op, omega, b, k).len() == b.len(),
    decreases k,
{
    if k > 0 {
        lemma_power_len(a, op, omega, b, k - 1);
    }
}

/// `I - w A` is linear.
proof fn lemma_damped_plus<T: Scalar>(a: CscModel<T>, op: Op, omega: T, x: Seq<T>, y: Seq<T>)
    requires
        exact_field::<T>(),
        fits(a, x),
        fits(a, y),
    ensures
        damped(a, op, omega, summed(x, y)) == summed(damped(a, op, omega, x), damped(a, op, omega, y)),
{
    law_image_is_linear(a, op, omega, x, y);
    lemma_image_len(a, op, x);
    lemma_image_len(a, op, y);
    assert forall|i: int| 0 <= i < x.len() implies #[trigger] damped(a, op, omega, summed(x, y))[i]
        == summed(damped(a, op, omega, x), damped(a, op, omega, y))[i] by {
        let ax = image(a, op, x)[i];
        let ay = image(a, op, y)[i];
        lemma_times_distributes_left(omega, ax, ay);
        lemma_minus_exchange(x[i], y[i], omega.times(ax), omega.times(ay));
    }
    assert(damped(a, op, omega, summed(x, y)) =~= summed(damped(a, op, omega, x), damped(a, op, omega, y)));
}

/// `b + (I - w A) S_d = S_{d + 1}`.
proof fn lemma_horner<T: Scalar>(a: CscModel<T>, op: Op, omega: T, b: Seq<T>, d: int)
    requires
        exact_field::<T>(),
        fits(a, b),
        d >= 0,
    ensures
        summed(b, damped(a, op, omega, damped_sum(a, op, omega, b, d))) == damped_sum(a, op, omega, b, d + 1),
    decreases d,
{
    let s = damped_sum(a, op, omega, b, d);
    let next = damped_sum(a, op, omega, b, d + 1);
    let last = damped_power(a, op, omega, b, d + 1);
    lemma_power_len(a, op, omega, b, d + 1);
    lemma_power_len(a, op, omega, b, d);
    assert(next =~= summed(s, last));
    if d == 0 {
        assert forall|i: int| 0 <= i < b.len() implies #[trigger] s[i] == b[i] by {
            let f = |k: int| damped_power(a, op, omega, b, k)[i];
            assert(sum(f, 1) == sum(f, 0).plus(f(0)));
            lemma_plus_commutes(T::null(), b[i]);
            lemma_null_is_neutral(b[i]);
        }
        assert(s =~= b);
        assert(summed(b, damped(a, op, omega, s)) =~= next);
    } else {
        let before = damped_sum(a, op, omega, b, d - 1);
        let p = damped_power(a, op, omega, b, d);
        lemma_horner(a, op, omega, b, d - 1);
        assert(s =~= summed(before, p));
        lemma_damped_plus(a, op, omega, before, p);
        assert(damped(a, op, omega, p) == last);
        let db = damped(a, op, omega, before);
        assert forall|i: int| 0 <= i < b.len() implies #[trigger] summed(b, damped(a, op, omega, s))[i]
            == next[i] by {
            lemma_plus_associates(b[i], db[i], last[i]);
            assert(summed(b, db)[i] == s[i]);
        }
        assert(summed(b, damped(a, op, omega, s)) =~= next);
    }
}

/// The accumulator is the sum of the powers.
proof fn lemma_acc_is_sum<T: Scalar>(a: CscModel<T>, op: Op, omega: T, b: Seq<T>, d: int)
    requires
        exact_field::<T>(),
        fits(a, b),
        d >= 0,
    ensures
        neumann_acc(a, op, omega, b, d) == damped_sum(a, op, omega, b, d),
    decreases d,
{
    let s = damped_sum(a, op, omega, b, d);
    if d == 0 {
        assert forall|i: int| 0 <= i < b.len() implies #[trigger] s[i] == b[i] by {
            let f = |k: int| damped_power(a, op, omega, b, k)[i];
            assert(sum(f, 1) == sum(f, 0).plus(f(0)));
            lemma_plus_commutes(T::null(), b[i]);
            lemma_null_is_neutral(b[i]);
        }
        assert(s =~= b);
    } else {
        lemma_acc_is_sum(a, op, omega, b, d - 1);
        lemma_horner(a, op, omega, b, d - 1);
        let x = neumann_acc(a, op, omega, b, d - 1);
        lemma_image_len(a, op, x);
        assert forall|i: int| 0 <= i < b.len() implies #[trigger] neumann_acc(a, op, omega, b, d)[i]
            == s[i] by {
            lemma_minus_associates(b[i], x[i], omega.times(image(a, op, x)[i]));
            assert(summed(b, damped(a, op, omega, x))[i] == s[i]);
        }
        assert(neumann_acc(a, op, omega, b, d) =~= s);
    }
}

/// In exact arithmetic the Neumann preconditioner of degree `d` applies
/// `w sum_{k = 0}^{d} (I - w A)^k`.
pub proof fn law_neumann_series<T: Scalar>(a: CscModel<T>, op: Op, omega: T, d: int, b: Seq<T>)
    requires
        exact_field::<T>(),
        a.wf(),
        a.pattern.nrows == a.pattern.ncols,
        b.len() == a.pattern.ncols,
        d >= 0,
    ensures
        poly_action(a, op, Coeffs::Neumann { omega }, d, b) == multiple(
            omega,
            damped_sum(a, op, omega, b, d),
        ),
{
    lemma_acc_is_sum(a, op, omega, b, d);
    assert(neumann(a, op, omega, d, b) =~= multiple(omega, damped_sum(a, op, omega, b, d)));
}

/// In exact arithmetic the residual that the Neumann preconditioner of degree
/// `d` leaves is `(I - w A)^{d + 1} b`.
pub proof fn law_neumann_residual<T: Scalar>(a: CscModel<T>, op: Op, omega: T, d: int, b: Seq<T>)
    requires
        exact_field::<T>(),
        a.wf(),
        a.pattern.nrows == a.pattern.ncols,
        b.len() == a.pattern.ncols,
        d >= 0,
    ensures
        difference(b, image(a, op, poly_action(a, op, Coeffs::Neumann { omega }, d, b))) == damped_power(
            a,
            op,
            omega,
            b,
            d + 1,
        ),
{
    let s = damped_sum(a, op, omega, b, d);
    let r = difference(b, image(a, op, neumann(a, op, omega, d, b)));
    let p = damped_power(a, op, omega, b, d + 1);
    law_neumann_series(a, op, omega, d, b);
    law_image_is_linear(a, op, omega, s, s);
    lemma_horner(a, op, omega, b, d);
    lemma_power_len(a, op, omega, b, d + 1);
    lemma_image_len(a, op, s);
    assert forall|i: int| 0 <= i < b.len() implies #[trigger] r[i] == p[i] by {
        let z = omega.times(image(a, op, s)[i]);
        let next = damped_sum(a, op, omega, b, d + 1);
        assert(summed(b, damped(a, op, omega, s))[i] == next[i]);
        assert(next[i] == s[i].plus(p[i]));
        lemma_minus_associates(b[i], s[i], z);
        assert(b[i].plus(s[i].minus(z)) == s[i].plus(p[i]));
        lemma_balance(b[i], s[i], z, p[i]);
    }
    assert(r =~= p);
}

/// From `b + (s - z) = s + p` follows `b - z = p`.
proof fn lemma_balance<T: Scalar>(b: T, s: T, z: T, p: T)
    requires
        exact_field::<T>(),
        b.plus(s.minus(z)) == s.plus(p),
    ensures
        b.minus(z) == p,
{
    lemma_plus_commutes(b, s);
    lemma_minus_associates(b, s, z);
    lemma_minus_associates(s, b, z);
    lemma_plus_commutes(s, b.minus(z));
    lemma_plus_commutes(s, p);
    lemma_plus_cancels(b.minus(z), p, s);
}

/// Real scalars are embedded with their arithmetic.
pub open spec fn exact_embedding<T: Scalar>() -> bool {
    &&& forall|x: T, r: T::Real| #[trigger] x.scaled(r) == x.times(T::embed(r))
    &&& forall|r: T::Real, s: T::Real| #[trigger]
        T::embed(r.minus(s)) == T::embed(r).minus(T::embed(s))
    &&& forall|r: T::Real, s: T::Real| #[trigger]
        T::embed(r.times(s)) == T::embed(r).times(T::embed(s))
    &&& forall|r: T::Real|
        !r.is_null() ==> #[trigger] T::embed(r.reciprocal()).times(T::embed(r)) == T::unit()
    &&& forall|r: T::Real, s: T::Real|
        !s.is_null() ==> #[trigger] T::embed(r.over(s)).times(T::embed(s)) == T::embed(r)
    &&& T::embed(T::Real::ratio(2, 1)) == two::<T>()
}

/// `1 + 1`.
pub open spec fn two<T: Scalar>() -> T {
    T::unit().plus(T::unit())
}

/// No denominator of the first `d` steps of the recurrence is zero.
pub open spec fn recurrence_ok<R: RealScalar>(iv: Interval<R>, d: int) -> bool {
    &&& !iv.theta.is_null()
    &&& !iv.delta.is_null()
    &&& !iv.sigma.is_null()
    &&& forall|k: int|
        0 <= k < d - 1 ==> !R::ratio(2, 1).times(iv.sigma).minus(
            #[trigger] rho(iv.sigma, k),
        ).is_null()
}

/// The Chebyshev polynomial `T_k` at `s`.
pub open spec fn cheb_value<T: Scalar>(s: T, k: int) -> T
    decreases k,
{
    if k <= 0 {
        T::unit()
    } else if k == 1 {
        s
    } else {
        two::<T>().times(s.times(cheb_value(s, k - 1))).minus(cheb_value(s, k - 2))
    }
}

/// `(theta I - A) / delta`, applied to `x`.
pub open spec fn mapped<T: Scalar>(
    a: CscModel<T>,
    op: Op,
    iv: Interval<T::Real>,
    x: Seq<T>,
) -> Seq<T> {
    multiple(
        T::embed(iv.delta.reciprocal()),
        difference(multiple(T::embed(iv.theta), x), image(a, op, x)),
    )
}

/// The Chebyshev polynomial `T_k` of `(theta I - A) / delta`, applied to `b`.
pub open spec fn cheb_vector<T: Scalar>(
    a: CscModel<T>,
    op: Op,
    iv: Interval<T::Real>,
    b: Seq<T>,
    k: int,
) -> Seq<T>
    decreases k,
{
    if k <= 0 {
        b
    } else if k == 1 {
        mapped(a, op, iv, b)
    } else {
        difference(
            multiple(two::<T>(), mapped(a, op, iv, cheb_vector(a, op, iv, b, k - 1))),
            cheb_vector(a, op, iv, b, k - 2),
        )
    }
}

/// The residual `b - A x_k` of the iteration.
pub open spec fn cheb_residual<T: Scalar>(
    a: CscModel<T>,
    op: Op,
    iv: Interval<T::Real>,
    b: Seq<T>,
    k: int,
) -> Seq<T> {
    if k <= 0 {
        b
    } else {
        difference(b, image(a, op, cheb_state(a, op, iv, b, k - 1).x))
    }
}

/// `c (x - y) = c x - c y`.
pub proof fn lemma_times_minus<T: Scalar>(c: T, x: T, y: T)
    requires
        exact_field::<T>(),
    ensures
        c.times(x.minus(y)) == c.times(x).minus(c.times(y)),
{
    lemma_minus_undoes_plus(x, y);
    lemma_times_distributes_left(c, x.minus(y), y);
    lemma_minus_undoes_plus(c.times(x), c.times(y));
    lemma_plus_cancels(c.times(x.minus(y)), c.times(x).minus(c.times(y)), c.times(y));
}

/// From `r = x - z` follows `z = x - r`.
proof fn lemma_minus_swaps<T: Scalar>(x: T, z: T)
    requires
        exact_field::<T>(),
    ensures
        x.minus(x.minus(z)) == z,
{
    let r = x.minus(z);
    lemma_minus_undoes_plus(x, z);
    lemma_minus_undoes_plus(x, r);
    lemma_plus_commutes(z, r);
    lemma_plus_cancels(x.minus(r), z, r);
}

/// `x - (y + z) = (x - y) - z`.
proof fn lemma_minus_sum<T: Scalar>(x: T, y: T, z: T)
    requires
        exact_field::<T>(),
    ensures
        x.minus(y.plus(z)) == x.minus(y).minus(z),
{
    let w = x.minus(y).minus(z);
    lemma_minus_undoes_plus(x.minus(y), z);
    lemma_minus_undoes_plus(x, y);
    lemma_plus_commutes(y, z);
    lemma_plus_associates(w, z, y);
    lemma_minus_undoes_plus(x, y.plus(z));
    lemma_plus_cancels(x.minus(y.plus(z)), w, y.plus(z));
}

/// `p - ((u - q) + v) = ((p + q) - v) - u`.
proof fn lemma_regroup<T: Scalar>(p: T, q: T, u: T, v: T)
    requires
        exact_field::<T>(),
    ensures
        p.minus(u.minus(q).plus(v)) == p.plus(q).minus(v).minus(u),
{
    let x = p.plus(q).minus(v).minus(u);
    let m = u.minus(q).plus(v);
    lemma_minus_undoes_plus(p.plus(q).minus(v), u);
    lemma_minus_undoes_plus(p.plus(q), v);
    lemma_plus_associates(x, u, v);
    lemma_minus_undoes_plus(u, q);
    lemma_plus_associates(u.minus(q), v, q);
    lemma_plus_commutes(v, q);
    lemma_plus_associates(u.minus(q), q, v);
    lemma_plus_associates(x, m, q);
    lemma_plus_cancels(x.plus(m), p, q);
    lemma_minus_undoes_plus(p, m);
    lemma_plus_cancels(p.minus(m), x, m);
}

/// `rho_k T_{k + 1}(sigma) = T_k(sigma)`.
proof fn lemma_rho<T: Scalar>(iv: Interval<T::Real>, d: int, k: int)
    requires
        exact_field::<T>(),
        exact_embedding::<T>(),
        recurrence_ok(iv, d),
        0 <= k < d,
    ensures
        T::embed(rho(iv.sigma, k)).times(cheb_value(T::embed(iv.sigma), k + 1)) == cheb_value(
            T::embed(iv.sigma),
            k,
        ),
    decreases k,
{
    let s = T::embed(iv.sigma);
    let r = T::embed(rho(iv.sigma, k));
    if k > 0 {
        lemma_rho::<T>(iv, d, k - 1);
        let before = rho(iv.sigma, k - 1);
        let e = T::embed(before);
        let t = cheb_value(s, k);
        let bottom = T::Real::ratio(2, 1).times(iv.sigma).minus(before);
        assert(!bottom.is_null());
        let den = two::<T>().times(s).minus(e);
        assert(T::embed(bottom) == den);
        assert(r.times(den) == T::unit());
        lemma_times_commutes(den, t);
        lemma_times_minus(t, two::<T>().times(s), e);
        lemma_times_commutes(t, two::<T>().times(s));
        lemma_times_associates(two::<T>(), s, t);
        lemma_times_commutes(t, e);
        assert(cheb_value(s, k + 1) == den.times(t));
        lemma_times_associates(r, den, t);
        lemma_times_commutes(T::unit(), t);
        lemma_unit_is_neutral(t);
    }
}

/// `sigma = theta / delta`.
proof fn lemma_sigma<T: Scalar>(iv: Interval<T::Real>)
    requires
        exact_field::<T>(),
        exact_embedding::<T>(),
        !iv.delta.is_null(),
        iv.sigma == iv.theta.over(iv.delta),
    ensures
        T::embed(iv.delta.reciprocal()).times(T::embed(iv.theta)) == T::embed(iv.sigma),
{
    let s = T::embed(iv.sigma);
    let de = T::embed(iv.delta);
    let inv = T::embed(iv.delta.reciprocal());
    assert(s.times(de) == T::embed(iv.theta));
    assert(inv.times(de) == T::unit());
    lemma_times_commutes(s, de);
    lemma_times_associates(inv, de, s);
    lemma_times_commutes(T::unit(), s);
    lemma_unit_is_neutral(s);
}

/// The first step: `sigma (b - z / theta) = (theta b - z) / delta`.
proof fn lemma_first_entry<T: Scalar>(iv: Interval<T::Real>, b: T, z: T)
    requires
        exact_field::<T>(),
        exact_embedding::<T>(),
        recurrence_ok(iv, 1),
        iv.sigma == iv.theta.over(iv.delta),
    ensures
        T::embed(iv.sigma).times(b.minus(T::embed(iv.theta.reciprocal()).times(z))) == T::embed(
            iv.delta.reciprocal(),
        ).times(T::embed(iv.theta).times(b).minus(z)),
{
    let s = T::embed(iv.sigma);
    let th = T::embed(iv.theta);
    let ti = T::embed(iv.theta.reciprocal());
    let inv = T::embed(iv.delta.reciprocal());
    lemma_sigma::<T>(iv);
    lemma_times_minus(s, b, ti.times(z));
    lemma_times_minus(inv, th.times(b), z);
    lemma_times_associates(inv, th, b);
    lemma_times_associates(s, ti, z);
    assert(ti.times(th) == T::unit());
    lemma_times_commutes(ti, th);
    lemma_times_associates(inv, th, ti);
    lemma_unit_is_neutral(inv);
}

/// One entry of a later step. `t0`, `t1`, `t2` stand for the Chebyshev values at
/// `sigma`, `r0` and `r1` for the entries of the last two residuals, and `z` for
/// the entry of `A` times the last residual.
proof fn lemma_step_entry<T: Scalar>(
    iv: Interval<T::Real>,
    d: int,
    k: int,
    r0: T,
    r1: T,
    z: T,
)
    requires
        exact_field::<T>(),
        exact_embedding::<T>(),
        recurrence_ok(iv, d),
        iv.sigma == iv.theta.over(iv.delta),
        1 <= k < d,
    ensures
        ({
            let s = T::embed(iv.sigma);
            let now = rho(iv.sigma, k);
            let c1 = T::embed(now.times(rho(iv.sigma, k - 1)));
            let c2 = T::embed(T::Real::ratio(2, 1).times(now).over(iv.delta));
            let t0 = cheb_value(s, k - 1);
            let t1 = cheb_value(s, k);
            let t2 = cheb_value(s, k + 1);
            t2.times(r1.minus(r0.minus(r1).times(c1).plus(z.times(c2)))) == two::<T>().times(
                T::embed(iv.delta.reciprocal()).times(
                    T::embed(iv.theta).times(t1.times(r1)).minus(t1.times(z)),
                ),
            ).minus(t0.times(r0))
        }),
{
    let s = T::embed(iv.sigma);
    let th = T::embed(iv.theta);
    let de = T::embed(iv.delta);
    let inv = T::embed(iv.delta.reciprocal());
    let now = rho(iv.sigma, k);
    let before = rho(iv.sigma, k - 1);
    let en = T::embed(now);
    let eb = T::embed(before);
    let c1 = T::embed(now.times(before));
    let c2 = T::embed(T::Real::ratio(2, 1).times(now).over(iv.delta));
    let t0 = cheb_value(s, k - 1);
    let t1 = cheb_value(s, k);
    let t2 = cheb_value(s, k + 1);
    let w = two::<T>();
    lemma_rho::<T>(iv, d, k);
    lemma_rho::<T>(iv, d, k - 1);
    lemma_sigma::<T>(iv);
    assert(t2.times(c1) == t0) by {
        lemma_times_commutes(en, eb);
        lemma_times_commutes(t2, eb.times(en));
        lemma_times_associates(eb, en, t2);
    }
    assert(t2.times(c2) == w.times(inv).times(t1)) by {
        assert(c2.times(de) == w.times(en));
        assert(inv.times(de) == T::unit());
        lemma_times_commutes(inv, de);
        lemma_times_associates(c2, de, inv);
        lemma_unit_is_neutral(c2);
        assert(c2 == w.times(en).times(inv));
        lemma_times_associates(w, en, inv);
        lemma_times_commutes(en, inv);
        lemma_times_associates(w, inv, en);
        lemma_times_commutes(t2, c2);
        lemma_times_associates(w.times(inv), en, t2);
    }
    let p = t2.times(r1);
    let q = t0.times(r1);
    let u = t0.times(r0);
    let v = w.times(inv).times(t1).times(z);
    let x = r0.minus(r1).times(c1);
    let y = z.times(c2);
    assert(t2.times(x) == u.minus(q)) by {
        lemma_times_commutes(r0.minus(r1), c1);
        lemma_times_associates(t2, c1, r0.minus(r1));
        lemma_times_minus(t0, r0, r1);
    }
    assert(t2.times(y) == v) by {
        lemma_times_commutes(z, c2);
        lemma_times_associates(t2, c2, z);
    }
    lemma_times_minus(t2, r1, x.plus(y));
    lemma_times_distributes_left(t2, x, y);
    lemma_regroup(p, q, u, v);
    let inner = th.times(t1.times(r1)).minus(t1.times(z));
    let g = w.times(inv);
    assert(w.times(inv.times(inner)) == p.plus(q).minus(v)) by {
        lemma_times_associates(w, inv, inner);
        lemma_times_minus(g, th.times(t1.times(r1)), t1.times(z));
        lemma_times_associates(g, t1, z);
        lemma_times_associates(g, th, t1.times(r1));
        lemma_times_associates(w, inv, th);
        lemma_times_associates(w.times(s), t1, r1);
        lemma_times_associates(w, s, t1);
        let m = w.times(s.times(t1));
        assert(g.times(th.times(t1.times(r1))) == m.times(r1));
        lemma_minus_undoes_plus(m, t0);
        assert(t2.plus(t0) == m);
        lemma_times_distributes(t2, t0, r1);
    }
}

/// The state after `k` steps: the residual is a Chebyshev polynomial, up to its
/// value at `sigma`, and the direction accounts for the last change.
proof fn lemma_cheb<T: Scalar>(
    a: CscModel<T>,
    op: Op,
    iv: Interval<T::Real>,
    b: Seq<T>,
    d: int,
    k: int,
)
    requires
        exact_field::<T>(),
        exact_embedding::<T>(),
        recurrence_ok(iv, d),
        iv.sigma == iv.theta.over(iv.delta),
        fits(a, b),
        0 <= k < d,
    ensures
        cheb_state(a, op, iv, b, k).x.len() == b.len(),
        cheb_state(a, op, iv, b, k).d.len() == b.len(),
        image(a, op, cheb_state(a, op, iv, b, k).d) == difference(
            cheb_residual(a, op, iv, b, k),
            cheb_residual(a, op, iv, b, k + 1),
        ),
        multiple(cheb_value(T::embed(iv.sigma), k + 1), cheb_residual(a, op, iv, b, k + 1))
            == cheb_vector(a, op, iv, b, k + 1),
    decreases k,
{
    let n = b.len() as int;
    let s = T::embed(iv.sigma);
    let now = cheb_state(a, op, iv, b, k);
    let r1 = cheb_residual(a, op, iv, b, k);
    let r2 = cheb_residual(a, op, iv, b, k + 1);
    let t2 = cheb_value(s, k + 1);
    if k == 0 {
        let ti = T::embed(iv.theta.reciprocal());
        assert forall|i: int| 0 <= i < n implies #[trigger] now.x[i] == multiple(ti, b)[i] by {
            lemma_times_commutes(b[i], ti);
        }
        assert(now.x =~= multiple(ti, b));
        law_image_is_linear(a, op, ti, b, b);
        lemma_image_len(a, op, b);
        assert forall|i: int| 0 <= i < n implies #[trigger] multiple(t2, r2)[i] == cheb_vector(
            a,
            op,
            iv,
            b,
            1,
        )[i] by {
            lemma_first_entry::<T>(iv, b[i], image(a, op, b)[i]);
        }
        assert(multiple(t2, r2) =~= cheb_vector(a, op, iv, b, 1));
        assert forall|i: int| 0 <= i < n implies #[trigger] image(a, op, now.d)[i] == difference(
            r1,
            r2,
        )[i] by {
            lemma_minus_swaps(b[i], image(a, op, now.x)[i]);
        }
        assert(image(a, op, now.d) =~= difference(r1, r2));
    } else {
        lemma_cheb(a, op, iv, b, d, k - 1);
        let was = cheb_state(a, op, iv, b, k - 1);
        let r0 = cheb_residual(a, op, iv, b, k - 1);
        let t0 = cheb_value(s, k - 1);
        let t1 = cheb_value(s, k);
        let c1r = rho(iv.sigma, k).times(rho(iv.sigma, k - 1));
        let c2r = T::Real::ratio(2, 1).times(rho(iv.sigma, k)).over(iv.delta);
        let c1 = T::embed(c1r);
        let c2 = T::embed(c2r);
        assert(r1 == difference(b, image(a, op, was.x)));
        lemma_image_len(a, op, was.x);
        lemma_image_len(a, op, was.d);
        assert(now.d == combined(was.d, c1r, r1, c2r));
        assert forall|i: int| 0 <= i < n implies #[trigger] now.d[i] == summed(
            multiple(c1, was.d),
            multiple(c2, r1),
        )[i] by {
            lemma_times_commutes(was.d[i], c1);
            lemma_times_commutes(r1[i], c2);
        }
        assert(now.d =~= summed(multiple(c1, was.d), multiple(c2, r1)));
        law_image_is_linear(a, op, c1, multiple(c1, was.d), multiple(c2, r1));
        law_image_is_linear(a, op, c1, was.d, was.d);
        law_image_is_linear(a, op, c2, r1, r1);
        law_image_is_linear(a, op, c1, was.x, now.d);
        lemma_image_len(a, op, r1);
        lemma_image_len(a, op, now.d);
        let ad = image(a, op, now.d);
        assert forall|i: int| 0 <= i < n implies #[trigger] r2[i] == r1[i].minus(ad[i]) by {
            lemma_minus_sum(b[i], image(a, op, was.x)[i], ad[i]);
        }
        assert forall|i: int| 0 <= i < n implies #[trigger] ad[i] == difference(r1, r2)[i] by {
            assert(r2[i] == r1[i].minus(ad[i]));
            lemma_minus_swaps(r1[i], ad[i]);
        }
        assert(ad =~= difference(r1, r2));
        let v1 = cheb_vector(a, op, iv, b, k);
        let v0 = cheb_vector(a, op, iv, b, k - 1);
        assert(v1 == multiple(t1, r1));
        law_image_is_linear(a, op, t1, r1, r1);
        assert(v0 =~= multiple(t0, r0)) by {
            if k >= 2 {
                lemma_cheb(a, op, iv, b, d, k - 2);
            } else {
                assert forall|i: int| 0 <= i < n implies #[trigger] v0[i] == multiple(t0, r0)[i] by {
                    lemma_times_commutes(T::unit(), b[i]);
                    lemma_unit_is_neutral(b[i]);
                }
            }
        }
        assert(r0.len() == n);
        let v2 = cheb_vector(a, op, iv, b, k + 1);
        assert forall|i: int| 0 <= i < n implies #[trigger] multiple(t2, r2)[i] == v2[i] by {
            let z = image(a, op, r1)[i];
            lemma_step_entry::<T>(iv, d, k, r0[i], r1[i], z);
            assert(r2[i] == r1[i].minus(ad[i]));
            let awd = image(a, op, was.d)[i];
            assert(awd == r0[i].minus(r1[i]));
            lemma_times_commutes(c1, awd);
            lemma_times_commutes(c2, z);
            assert(ad[i] == awd.times(c1).plus(z.times(c2)));
            assert(image(a, op, v1)[i] == t1.times(z));
        }
        assert(multiple(t2, r2) =~= v2);
    }
}

/// In exact arithmetic the residual that the Chebyshev preconditioner of degree
/// `d` over `[lo, hi]` leaves is the shifted and scaled Chebyshev polynomial:
/// `T_d(sigma) (b - A p(A) b) = T_d((theta I - A) / delta) b`, with the centre
/// `theta`, the half width `delta` and `sigma = theta / delta`.
pub proof fn law_chebyshev_residual<T: Scalar>(
    a: CscModel<T>,
    op: Op,
    lambda_min: T,
    lambda_max: T,
    d: int,
    b: Seq<T>,
)
    requires
        exact_field::<T>(),
        exact_embedding::<T>(),
        a.wf(),
        a.pattern.nrows == a.pattern.ncols,
        b.len() == a.pattern.ncols,
        d >= 1,
        recurrence_ok(interval(lambda_min.real_part(), lambda_max.real_part()), d),
    ensures
        ({
            let iv = interval(lambda_min.real_part(), lambda_max.real_part());
            let x = poly_action(a, op, Coeffs::Chebyshev { lambda_min, lambda_max }, d, b);
            multiple(cheb_value(T::embed(iv.sigma), d), difference(b, image(a, op, x)))
                == cheb_vector(a, op, iv, b, d)
        }),
{
    let iv = interval(lambda_min.real_part(), lambda_max.real_part());
    lemma_cheb(a, op, iv, b, d, d - 1);
}

/// Over an interval `0 < lo < hi` no step of the Chebyshev recurrence divides by
/// zero.
pub proof fn law_recurrence_is_sound<R: RealScalar>(
    v: spec_fn(R) -> real,
    lo: R,
    hi: R,
    d: int,
)
    requires
        reads_reals(v),
        0real < v(lo) < v(hi),
    ensures
        recurrence_ok(interval(lo, hi), d),
{
    reveal(reads_reals);
    let iv = interval(lo, hi);
    let half = v(R::ratio(1, 2));
    let l = v(lo);
    let h = v(hi);
    let th = v(iv.theta);
    let de = v(iv.delta);
    let s = v(iv.sigma);
    assert(th == (l + h) * half);
    assert(de == (h - l) * half);
    assert(0real < de < th) by (nonlinear_arith)
        requires
            th == (l + h) * half,
            de == (h - l) * half,
            half * 2real == 1real,
            0real < l < h,
    ;
    assert(s * de == th);
    assert(1real < s) by (nonlinear_arith)
        requires
            s * de == th,
            0real < de < th,
    ;
    assert forall|k: int| 0 <= k < d - 1 implies !R::ratio(2, 1).times(iv.sigma).minus(
        #[trigger] rho(iv.sigma, k),
    ).is_null() by {
        lemma_rho_range(v, iv.sigma, k);
    }
}

/// The ratios lie strictly between zero and one.
proof fn lemma_rho_range<R: RealScalar>(v: spec_fn(R) -> real, sigma: R, k: int)
    requires
        reads_reals(v),
        1real < v(sigma),
    ensures
        0real < v(rho(sigma, k)) < 1real,
    decreases k,
{
    reveal(reads_reals);
    let r = v(rho(sigma, k));
    let s = v(sigma);
    if k <= 0 {
        assert(r * s == 1real);
        assert(0real < r < 1real) by (nonlinear_arith)
            requires
                r * s == 1real,
                1real < s,
        ;
    } else {
        lemma_rho_range(v, sigma, k - 1);
        let den = R::ratio(2, 1).times(sigma).minus(rho(sigma, k - 1));
        let q = v(den);
        assert(q == 2real * s - v(rho(sigma, k - 1)));
        assert(r * q == 1real);
        assert(0real < r < 1real) by (nonlinear_arith)
            requires
                r * q == 1real,
                1real < q,
        ;
    }
}

} // verus!
