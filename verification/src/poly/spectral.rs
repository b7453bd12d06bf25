//! How far the Chebyshev preconditioner reduces the error along an eigenvector.
use super::alternation::lemma_scaled_bound;
use super::apply::{difference, image, interval, poly_action, Interval};
use super::chebyshev::{cheb, law_bounded_inside, law_grows_outside};
use super::differences::{
    inverse, lemma_associates, lemma_commutes, lemma_inverse, lemma_inverse_positive, lemma_neutral,
};
use super::laws::{
    cheb_value, cheb_vector, exact_embedding, law_chebyshev_residual, law_image_is_linear,
    law_recurrence_is_sound, lemma_image_len, lemma_times_minus, mapped, multiple, two,
};
use super::minimax::{law_no_polynomial_does_better, poly_value};
use super::Coeffs;
use crate::op::Op;
use crate::reading::{abs_real, reads_magnitudes, reads_reals};
use crate::scalar::{
    exact_field, lemma_times_associates, lemma_times_commutes, lemma_unit_is_neutral, RealScalar,
    Scalar,
};
use crate::sparse::CscModel;
use vstd::prelude::*;

verus! {

/// `1`, made of what the recurrence computes with.
spec fn one<R: RealScalar>() -> R {
    R::ratio(2, 1).reciprocal().times(R::ratio(2, 1))
}

/// The Chebyshev polynomial `T_k` at the real scalar `s`.
spec fn cheb_scalar<R: RealScalar>(s: R, k: int) -> R
    decreases k,
{
    if k <= 0 {
        one()
    } else if k == 1 {
        s
    } else {
        R::ratio(2, 1).times(s.times(cheb_scalar(s, k - 1))).minus(cheb_scalar(s, k - 2))
    }
}

/// It is read as the polynomial at the number that `s` is read as.
proof fn lemma_scalar_reads<R: RealScalar>(v: spec_fn(R) -> real, s: R, k: int)
    requires
        reads_reals(v),
    ensures
        v(cheb_scalar(s, k)) == cheb(v(s), k),
    decreases k,
{
    reveal(reads_reals);
    if k >= 2 {
        lemma_scalar_reads(v, s, k - 1);
        lemma_scalar_reads(v, s, k - 2);
        assert(v(s.times(cheb_scalar(s, k - 1))) == v(s) * v(cheb_scalar(s, k - 1)));
    }
}

/// It is embedded as the polynomial at the entry that `s` is embedded as.
proof fn lemma_scalar_embeds<T: Scalar>(v: spec_fn(T::Real) -> real, s: T::Real, k: int)
    requires
        reads_reals(v),
        exact_embedding::<T>(),
    ensures
        T::embed(cheb_scalar(s, k)) == cheb_value(T::embed(s), k),
    decreases k,
{
    if k <= 0 {
        reveal(reads_reals);
        assert(!T::Real::ratio(2, 1).is_null());
    } else if k >= 2 {
        lemma_scalar_embeds::<T>(v, s, k - 1);
        lemma_scalar_embeds::<T>(v, s, k - 2);
        let c = cheb_scalar(s, k - 1);
        assert(T::embed(s.times(c)) == T::embed(s).times(T::embed(c)));
    }
}

/// Where the interval maps the eigenvalue `lam` to: `(theta - lam) / delta`.
spec fn place<R: RealScalar>(iv: Interval<R>, lam: R) -> R {
    iv.delta.reciprocal().times(iv.theta.minus(lam))
}

/// One entry of the mapped matrix, applied to a multiple of an eigenvector.
proof fn lemma_mapped_entry<T: Scalar>(iv: Interval<T::Real>, lam: T::Real, c: T, b: T)
    requires
        exact_field::<T>(),
        exact_embedding::<T>(),
    ensures
        T::embed(iv.delta.reciprocal()).times(
            T::embed(iv.theta).times(c.times(b)).minus(c.times(T::embed(lam).times(b))),
        ) == T::embed(place(iv, lam)).times(c.times(b)),
{
    let i = T::embed(iv.delta.reciprocal());
    let th = T::embed(iv.theta);
    let la = T::embed(lam);
    let x = c.times(b);
    assert(c.times(la.times(b)) == la.times(x)) by {
        lemma_times_associates(c, la, b);
        lemma_times_commutes(c, la);
        lemma_times_associates(la, c, b);
    }
    assert(th.times(x).minus(la.times(x)) == th.minus(la).times(x)) by {
        lemma_times_minus(x, th, la);
        lemma_times_commutes(x, th);
        lemma_times_commutes(x, la);
        lemma_times_commutes(x, th.minus(la));
    }
    assert(T::embed(place(iv, lam)) == i.times(th.minus(la)));
    lemma_times_associates(i, th.minus(la), x);
}

/// On an eigenvector the polynomial in the matrix is the polynomial in the
/// eigenvalue.
proof fn lemma_eigenvector<T: Scalar>(
    a: CscModel<T>,
    op: Op,
    iv: Interval<T::Real>,
    b: Seq<T>,
    lam: T::Real,
    k: int,
)
    requires
        exact_field::<T>(),
        exact_embedding::<T>(),
        a.wf(),
        a.pattern.nrows == a.pattern.ncols,
        b.len() == a.pattern.ncols,
        image(a, op, b) == multiple(T::embed(lam), b),
        k >= 0,
    ensures
        cheb_vector(a, op, iv, b, k) == multiple(cheb_value(T::embed(place(iv, lam)), k), b),
    decreases k,
{
    let n = b.len() as int;
    let y = T::embed(place(iv, lam));
    if k == 0 {
        assert forall|i: int| 0 <= i < n implies #[trigger] b[i] == multiple(T::unit(), b)[i] by {
            lemma_times_commutes(T::unit(), b[i]);
            lemma_unit_is_neutral(b[i]);
        }
        assert(b =~= multiple(T::unit(), b));
    } else if k == 1 {
        let w = mapped(a, op, iv, b);
        lemma_image_len(a, op, b);
        assert forall|i: int| 0 <= i < n implies #[trigger] w[i] == multiple(y, b)[i] by {
            let u = T::unit();
            lemma_mapped_entry::<T>(iv, lam, u, b[i]);
            lemma_times_commutes(u, b[i]);
            lemma_unit_is_neutral(b[i]);
            let z = T::embed(lam).times(b[i]);
            lemma_times_commutes(u, z);
            lemma_unit_is_neutral(z);
            assert(image(a, op, b)[i] == z);
        }
        assert(w =~= multiple(y, b));
    } else {
        lemma_eigenvector(a, op, iv, b, lam, k - 1);
        lemma_eigenvector(a, op, iv, b, lam, k - 2);
        let c1 = cheb_value(y, k - 1);
        let c0 = cheb_value(y, k - 2);
        let x = multiple(c1, b);
        law_image_is_linear(a, op, c1, b, b);
        lemma_image_len(a, op, x);
        let w = mapped(a, op, iv, x);
        let r = cheb_vector(a, op, iv, b, k);
        let t = two::<T>();
        assert forall|i: int| 0 <= i < n implies #[trigger] r[i] == multiple(cheb_value(y, k), b)[i] by {
            assert(image(a, op, x)[i] == c1.times(image(a, op, b)[i]));
            assert(image(a, op, b)[i] == T::embed(lam).times(b[i]));
            lemma_mapped_entry::<T>(iv, lam, c1, b[i]);
            assert(w[i] == y.times(c1.times(b[i])));
            lemma_times_associates(y, c1, b[i]);
            lemma_times_associates(t, y.times(c1), b[i]);
            let p = t.times(y.times(c1));
            lemma_times_minus(b[i], p, c0);
            lemma_times_commutes(b[i], p);
            lemma_times_commutes(b[i], c0);
            lemma_times_commutes(b[i], p.minus(c0));
            assert(r[i] == t.times(w[i]).minus(c0.times(b[i])));
        }
        assert(r =~= multiple(cheb_value(y, k), b));
    }
}

proof fn lemma_part(t: real, b: real)
    by (nonlinear_arith)
    requires
        t <= 1real,
        b >= 0real,
    ensures
        t * b <= b,
{
}

/// The interval maps `[lo, hi]` into `[-1, 1]`, and zero beyond one.
proof fn lemma_places<R: RealScalar>(v: spec_fn(R) -> real, lo: R, hi: R, lam: R)
    requires
        reads_reals(v),
        0real < v(lo) < v(hi),
        v(lo) <= v(lam) <= v(hi),
    ensures
        1real < v(interval(lo, hi).sigma),
        -1real <= v(place(interval(lo, hi), lam)) <= 1real,
{
    reveal(reads_reals);
    let iv = interval(lo, hi);
    let half = v(R::ratio(1, 2));
    let l = v(lo);
    let h = v(hi);
    let z = v(lam);
    let th = v(iv.theta);
    let de = v(iv.delta);
    let s = v(iv.sigma);
    assert(th == (l + h) * half);
    assert(de == (h - l) * half);
    assert(0real < de < th && -de <= th - z <= de) by (nonlinear_arith)
        requires
            th == (l + h) * half,
            de == (h - l) * half,
            half * 2real == 1real,
            0real < l < h,
            l <= z <= h,
    ;
    assert(s * de == th);
    assert(1real < s) by (nonlinear_arith)
        requires
            s * de == th,
            0real < de < th,
    ;
    let i = v(iv.delta.reciprocal());
    assert(i * de == 1real);
    lemma_inverse_positive(i, de);
    lemma_scaled_bound(i, th - z, de);
    assert(de * i == i * de) by (nonlinear_arith);
    assert(v(iv.theta.minus(lam)) == th - z);
}

/// In exact arithmetic, along an eigenvector `b` of `op(A)` whose eigenvalue lies in
/// `[lo, hi]`, the Chebyshev preconditioner of degree `d` over that interval leaves
/// at most the part `1 / T_d(theta / delta)`: every entry of `b - op(A) p(op(A)) b`
/// is smaller than that of `b` by this factor, and the factor is at most one.
pub proof fn law_chebyshev_contracts<T: Scalar>(
    v: spec_fn(T::Real) -> real,
    a: CscModel<T>,
    op: Op,
    lambda_min: T,
    lambda_max: T,
    d: int,
    b: Seq<T>,
    lam: T::Real,
)
    requires
        exact_field::<T>(),
        exact_embedding::<T>(),
        reads_reals(v),
        reads_magnitudes::<T>(v),
        a.wf(),
        a.pattern.nrows == a.pattern.ncols,
        b.len() == a.pattern.ncols,
        d >= 1,
        0real < v(lambda_min.real_part()) < v(lambda_max.real_part()),
        v(lambda_min.real_part()) <= v(lam) <= v(lambda_max.real_part()),
        image(a, op, b) == multiple(T::embed(lam), b),
    ensures
        ({
            let iv = interval(lambda_min.real_part(), lambda_max.real_part());
            let x = poly_action(a, op, Coeffs::Chebyshev { lambda_min, lambda_max }, d, b);
            let r = difference(b, image(a, op, x));
            &&& 1real < v(iv.sigma)
            &&& 1real <= cheb(v(iv.sigma), d)
            &&& forall|i: int|
                0 <= i < b.len() ==> cheb(v(iv.sigma), d) * v((#[trigger] r[i]).magnitude()) <= v(
                    b[i].magnitude(),
                )
        }),
{
    let lo = lambda_min.real_part();
    let hi = lambda_max.real_part();
    let iv = interval(lo, hi);
    let x = poly_action(a, op, Coeffs::Chebyshev { lambda_min, lambda_max }, d, b);
    let r = difference(b, image(a, op, x));
    law_recurrence_is_sound(v, lo, hi, d);
    law_chebyshev_residual(a, op, lambda_min, lambda_max, d, b);
    lemma_eigenvector(a, op, iv, b, lam, d);
    lemma_places(v, lo, hi, lam);
    let y = place(iv, lam);
    let cs = cheb_scalar(iv.sigma, d);
    let cy = cheb_scalar(y, d);
    lemma_scalar_reads(v, iv.sigma, d);
    lemma_scalar_reads(v, y, d);
    lemma_scalar_embeds::<T>(v, iv.sigma, d);
    lemma_scalar_embeds::<T>(v, y, d);
    law_grows_outside(v(iv.sigma), d);
    law_bounded_inside(v(y), d);
    assert forall|i: int| 0 <= i < b.len() implies cheb(v(iv.sigma), d) * v(
        (#[trigger] r[i]).magnitude(),
    ) <= v(b[i].magnitude()) by {
        reveal(reads_magnitudes);
        assert(multiple(T::embed(cs), r)[i] == multiple(T::embed(cy), b)[i]);
        assert(T::embed(cs).times(r[i]) == T::embed(cy).times(b[i]));
        assert(v(T::embed(cs).times(r[i]).magnitude()) == abs_real(v(cs)) * v(r[i].magnitude()));
        assert(v(T::embed(cy).times(b[i]).magnitude()) == abs_real(v(cy)) * v(b[i].magnitude()));
        lemma_part(abs_real(v(cy)), v(b[i].magnitude()));
    }
}

/// The Chebyshev preconditioner is the best of its degree: no polynomial `q` of
/// degree below `d`, read as real coefficients, leaves less than the part
/// `1 / T_d(theta / delta)` of every eigenvector whose eigenvalue lies in
/// `[lo, hi]`.
pub proof fn law_chebyshev_is_best<R: RealScalar>(
    v: spec_fn(R) -> real,
    lo: R,
    hi: R,
    d: int,
    q: Seq<real>,
    m: real,
)
    requires
        reads_reals(v),
        0real < v(lo) < v(hi),
        d >= 1,
        q.len() <= d,
        forall|t: real|
            v(lo) <= t <= v(hi) ==> -m <= 1real - t * (#[trigger] poly_value(q, t)) <= m,
    ensures
        m * cheb(v(interval(lo, hi).sigma), d) >= 1real,
{
    reveal(reads_reals);
    let iv = interval(lo, hi);
    let half = v(R::ratio(1, 2));
    let l = v(lo);
    let h = v(hi);
    let th = (l + h) / 2real;
    let de = (h - l) / 2real;
    let s = v(iv.sigma);
    assert(v(iv.theta) == (l + h) * half);
    assert(v(iv.delta) == (h - l) * half);
    lemma_halves(l + h, half);
    lemma_halves(h - l, half);
    assert(v(iv.delta) == de && v(iv.theta) == th);
    assert(s * de == th);
    let i = inverse(de);
    lemma_inverse(de);
    lemma_commutes(i, de);
    lemma_associates(s, de, i);
    lemma_neutral(s);
    assert(s == th * i);
    law_no_polynomial_does_better(l, h, d, q, m);
}

proof fn lemma_halves(x: real, half: real)
    by (nonlinear_arith)
    requires
        half * 2real == 1real,
    ensures
        x * half == x / 2real,
{
}

} // verus!
