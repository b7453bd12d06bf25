//! Applying the polynomial preconditioner with products only.
//!
//! Both forms evaluate `y = p(A) b`, or the same polynomial in `A^T`, `conj(A)`
//! or `A^H`, using sparse products and element-wise vector updates.
use super::factor::Poly;
use super::Coeffs;
use crate::dense::{lemma_offset, offset, Mat};
use crate::linalg::{product, sparse_dense_matmul};
use crate::op::{Op, Preconditioner, Work};
use crate::scalar::{RealScalar, Scalar};
use crate::scratch::{scratch_for, scratch_for_both, Scratch};
use crate::sparse::{CscModel, CscRef};
use crate::util::spd_bounds::stretched;
use vstd::prelude::*;

verus! {

/// `op(A) x`: the product with `A`, transposed and conjugated as `op` says.
pub open spec fn image<T: Scalar>(a: CscModel<T>, op: Op, x: Seq<T>) -> Seq<T> {
    product(a, op.transposes(), op.conjugates(), x)
}

/// One Horner step of the Neumann series: `b + x - w op(A) x`.
pub open spec fn neumann_step<T: Scalar>(
    a: CscModel<T>,
    op: Op,
    omega: T,
    b: Seq<T>,
    x: Seq<T>,
) -> Seq<T> {
    Seq::new(b.len(), |i: int| b[i].plus(x[i]).minus(omega.times(image(a, op, x)[i])))
}

/// The accumulator after `k` Horner steps.
pub open spec fn neumann_acc<T: Scalar>(
    a: CscModel<T>,
    op: Op,
    omega: T,
    b: Seq<T>,
    k: int,
) -> Seq<T>
    decreases k,
{
    if k <= 0 {
        b
    } else {
        neumann_step(a, op, omega, b, neumann_acc(a, op, omega, b, k - 1))
    }
}

/// The Neumann polynomial of degree `degree`, applied to `b`.
pub open spec fn neumann<T: Scalar>(
    a: CscModel<T>,
    op: Op,
    omega: T,
    degree: int,
    b: Seq<T>,
) -> Seq<T> {
    let acc = neumann_acc(a, op, omega, b, degree);
    Seq::new(b.len(), |i: int| omega.times(acc[i]))
}

/// The scalars of the Chebyshev recurrence.
pub struct Interval<R> {
    pub theta: R,
    pub delta: R,
    pub sigma: R,
}

/// Centre, half width and their ratio for `[lo, hi]`.
pub open spec fn interval<R: RealScalar>(lo: R, hi: R) -> Interval<R> {
    let half = R::ratio(1, 2);
    let theta = lo.plus(hi).times(half);
    let delta = hi.minus(lo).times(half);
    Interval { theta, delta, sigma: theta.over(delta) }
}

/// The ratio `rho` of step `k`.
pub open spec fn rho<R: RealScalar>(sigma: R, k: int) -> R
    decreases k,
{
    if k <= 0 {
        sigma.reciprocal()
    } else {
        R::ratio(2, 1).times(sigma).minus(rho(sigma, k - 1)).reciprocal()
    }
}

/// The iterate and the last direction of the Chebyshev iteration.
pub struct ChebState<T> {
    pub x: Seq<T>,
    pub d: Seq<T>,
}

/// `c1 d + c2 r`.
pub open spec fn combined<T: Scalar>(d: Seq<T>, c1: T::Real, r: Seq<T>, c2: T::Real) -> Seq<T> {
    Seq::new(d.len(), |i: int| d[i].scaled(c1).plus(r[i].scaled(c2)))
}

/// `x + y`.
pub open spec fn summed<T: Scalar>(x: Seq<T>, y: Seq<T>) -> Seq<T> {
    Seq::new(x.len(), |i: int| x[i].plus(y[i]))
}

/// `x - y`.
pub open spec fn difference<T: Scalar>(x: Seq<T>, y: Seq<T>) -> Seq<T> {
    Seq::new(x.len(), |i: int| x[i].minus(y[i]))
}

/// Step `k` of the Chebyshev iteration: the direction is mixed with the
/// residual and added to the iterate.
pub open spec fn cheb_step<T: Scalar>(
    a: CscModel<T>,
    op: Op,
    iv: Interval<T::Real>,
    b: Seq<T>,
    s: ChebState<T>,
    k: int,
) -> ChebState<T> {
    let r = difference(b, image(a, op, s.x));
    let now = rho(iv.sigma, k);
    let c1 = now.times(rho(iv.sigma, k - 1));
    let c2 = T::Real::ratio(2, 1).times(now).over(iv.delta);
    let d = combined(s.d, c1, r, c2);
    ChebState { x: summed(s.x, d), d }
}

/// The iteration from `x_0 = 0`, `k` steps after the first.
pub open spec fn cheb_state<T: Scalar>(
    a: CscModel<T>,
    op: Op,
    iv: Interval<T::Real>,
    b: Seq<T>,
    k: int,
) -> ChebState<T>
    decreases k,
{
    if k <= 0 {
        let x = stretched(b, iv.theta.reciprocal());
        ChebState { x, d: x }
    } else {
        cheb_step(a, op, iv, b, cheb_state(a, op, iv, b, k - 1), k)
    }
}

/// `p(op(A)) b`.
pub open spec fn poly_action<T: Scalar>(
    a: CscModel<T>,
    op: Op,
    coeffs: Coeffs<T>,
    degree: int,
    b: Seq<T>,
) -> Seq<T> {
    match coeffs {
        Coeffs::Neumann { omega } => neumann(a, op, omega, degree, b),
        Coeffs::Chebyshev { lambda_min, lambda_max } => {
            let iv = interval(lambda_min.real_part(), lambda_max.real_part());
            cheb_state(a, op, iv, b, degree - 1).x
        },
    }
}

/// `x = b + x - w v`, entry by entry.
fn neumann_update<T: Scalar>(b: &Mat<T>, v: &Mat<T>, omega: &T, x: &mut Mat<T>)
    requires
        b.wf(),
        v.wf(),
        old(x).wf(),
        b.nrows == old(x).nrows && b.ncols == old(x).ncols,
        v.nrows == old(x).nrows && v.ncols == old(x).ncols,
    ensures
        final(x).wf(),
        final(x).nrows == old(x).nrows,
        final(x).ncols == old(x).ncols,
        forall|c: int|
            0 <= c < old(x).ncols ==> #[trigger] final(x).col(c) =~= Seq::new(
                b.nrows as nat,
                |i: int|
                    b.col(c)[i].plus(old(x).col(c)[i]).minus(omega.times(v.col(c)[i])),
            ),
{
    let ghost x0 = *x;
    let len: usize = x.data.len();
    let mut p: usize = 0;
    while p < len
        invariant
            p <= len,
            len == x0.data@.len(),
            len == b.data@.len(),
            len == v.data@.len(),
            x.nrows == x0.nrows,
            x.ncols == x0.ncols,
            x.data@.len() == len,
            forall|k: int|
                0 <= k < p ==> #[trigger] x.data@[k] == b.data@[k].plus(x0.data@[k]).minus(
                    omega.times(v.data@[k]),
                ),
            forall|k: int| p <= k < len ==> #[trigger] x.data@[k] == x0.data@[k],
        decreases len - p,
    {
        let y: T = b.data[p].add(&x.data[p]).sub(&omega.mul(&v.data[p]));
        x.data.set(p, y);
        p += 1;
    }
    proof {
        assert forall|c: int| 0 <= c < x0.ncols implies #[trigger] x.col(c) =~= Seq::new(
            b.nrows as nat,
            |i: int| b.col(c)[i].plus(x0.col(c)[i]).minus(omega.times(v.col(c)[i])),
        ) by {
            assert forall|i: int| 0 <= i < x0.nrows implies #[trigger] x.col(c)[i]
                == b.col(c)[i].plus(x0.col(c)[i]).minus(omega.times(v.col(c)[i])) by {
                lemma_offset(x0.nrows as int, x0.ncols as int, i, c);
                assert(x.col(c)[i] == x.data@[offset(x0.nrows as int, i, c)]);
            }
        }
    }
}

/// `x = w x`, entry by entry.
fn scale_all<T: Scalar>(omega: &T, x: &mut Mat<T>)
    requires
        old(x).wf(),
    ensures
        final(x).wf(),
        final(x).nrows == old(x).nrows,
        final(x).ncols == old(x).ncols,
        forall|c: int|
            0 <= c < old(x).ncols ==> #[trigger] final(x).col(c) =~= Seq::new(
                old(x).nrows as nat,
                |i: int| omega.times(old(x).col(c)[i]),
            ),
{
    let ghost x0 = *x;
    let len: usize = x.data.len();
    let mut p: usize = 0;
    while p < len
        invariant
            p <= len,
            len == x0.data@.len(),
            x.nrows == x0.nrows,
            x.ncols == x0.ncols,
            x.data@.len() == len,
            forall|k: int| 0 <= k < p ==> #[trigger] x.data@[k] == omega.times(x0.data@[k]),
            forall|k: int| p <= k < len ==> #[trigger] x.data@[k] == x0.data@[k],
        decreases len - p,
    {
        let y: T = omega.mul(&x.data[p]);
        x.data.set(p, y);
        p += 1;
    }
    proof {
        assert forall|c: int| 0 <= c < x0.ncols implies #[trigger] x.col(c) =~= Seq::new(
            x0.nrows as nat,
            |i: int| omega.times(x0.col(c)[i]),
        ) by {
            assert forall|i: int| 0 <= i < x0.nrows implies #[trigger] x.col(c)[i] == omega.times(
                x0.col(c)[i],
            ) by {
                lemma_offset(x0.nrows as int, x0.ncols as int, i, c);
                assert(x.col(c)[i] == x.data@[offset(x0.nrows as int, i, c)]);
            }
        }
    }
}

/// `x = r b`, entry by entry.
fn stretch_into<T: Scalar>(b: &Mat<T>, r: &T::Real, x: &mut Mat<T>)
    requires
        b.wf(),
        old(x).wf(),
        b.nrows == old(x).nrows && b.ncols == old(x).ncols,
    ensures
        final(x).wf(),
        final(x).nrows == old(x).nrows,
        final(x).ncols == old(x).ncols,
        forall|c: int|
            0 <= c < old(x).ncols ==> #[trigger] final(x).col(c) == stretched(b.col(c), *r),
{
    let ghost x0 = *x;
    let len: usize = x.data.len();
    let mut p: usize = 0;
    while p < len
        invariant
            p <= len,
            len == x0.data@.len(),
            len == b.data@.len(),
            x.nrows == x0.nrows,
            x.ncols == x0.ncols,
            x.data@.len() == len,
            forall|k: int| 0 <= k < p ==> #[trigger] x.data@[k] == b.data@[k].scaled(*r),
        decreases len - p,
    {
        let y: T = b.data[p].mul_real(r);
        x.data.set(p, y);
        p += 1;
    }
    proof {
        assert forall|c: int| 0 <= c < x0.ncols implies #[trigger] x.col(c) == stretched(
            b.col(c),
            *r,
        ) by {
            assert forall|i: int| 0 <= i < x0.nrows implies #[trigger] x.col(c)[i]
                == b.col(c)[i].scaled(*r) by {
                lemma_offset(x0.nrows as int, x0.ncols as int, i, c);
                assert(x.col(c)[i] == x.data@[offset(x0.nrows as int, i, c)]);
            }
            assert(x.col(c) =~= stretched(b.col(c), *r));
        }
    }
}

/// `r = b - r`, entry by entry.
fn residual_into<T: Scalar>(b: &Mat<T>, r: &mut Mat<T>)
    requires
        b.wf(),
        old(r).wf(),
        b.nrows == old(r).nrows && b.ncols == old(r).ncols,
    ensures
        final(r).wf(),
        final(r).nrows == old(r).nrows,
        final(r).ncols == old(r).ncols,
        forall|c: int|
            0 <= c < old(r).ncols ==> #[trigger] final(r).col(c) == difference(
                b.col(c),
                old(r).col(c),
            ),
{
    let ghost r0 = *r;
    let len: usize = r.data.len();
    let mut p: usize = 0;
    while p < len
        invariant
            p <= len,
            len == r0.data@.len(),
            len == b.data@.len(),
            r.nrows == r0.nrows,
            r.ncols == r0.ncols,
            r.data@.len() == len,
            forall|k: int| 0 <= k < p ==> #[trigger] r.data@[k] == b.data@[k].minus(r0.data@[k]),
            forall|k: int| p <= k < len ==> #[trigger] r.data@[k] == r0.data@[k],
        decreases len - p,
    {
        let y: T = b.data[p].sub(&r.data[p]);
        r.data.set(p, y);
        p += 1;
    }
    proof {
        assert forall|c: int| 0 <= c < r0.ncols implies #[trigger] r.col(c) == difference(
            b.col(c),
            r0.col(c),
        ) by {
            assert forall|i: int| 0 <= i < r0.nrows implies #[trigger] r.col(c)[i]
                == b.col(c)[i].minus(r0.col(c)[i]) by {
                lemma_offset(r0.nrows as int, r0.ncols as int, i, c);
                assert(r.col(c)[i] == r.data@[offset(r0.nrows as int, i, c)]);
            }
            assert(r.col(c) =~= difference(b.col(c), r0.col(c)));
        }
    }
}

/// `d = c1 d + c2 r`, then `x = x + d`, entry by entry.
fn advance<T: Scalar>(
    c1: &T::Real,
    c2: &T::Real,
    r: &Mat<T>,
    d: &mut Mat<T>,
    x: &mut Mat<T>,
)
    requires
        r.wf(),
        old(d).wf(),
        old(x).wf(),
        r.nrows == old(x).nrows && r.ncols == old(x).ncols,
        old(d).nrows == old(x).nrows && old(d).ncols == old(x).ncols,
    ensures
        final(d).wf(),
        final(x).wf(),
        final(d).nrows == old(d).nrows,
        final(d).ncols == old(d).ncols,
        final(x).nrows == old(x).nrows,
        final(x).ncols == old(x).ncols,
        forall|c: int|
            0 <= c < old(x).ncols ==> #[trigger] final(d).col(c) == combined(
                old(d).col(c),
                *c1,
                r.col(c),
                *c2,
            ),
        forall|c: int|
            0 <= c < old(x).ncols ==> #[trigger] final(x).col(c) == summed(
                old(x).col(c),
                final(d).col(c),
            ),
{
    let ghost d0 = *d;
    let ghost x0 = *x;
    let len: usize = x.data.len();
    let mut p: usize = 0;
    while p < len
        invariant
            p <= len,
            len == x0.data@.len(),
            len == d0.data@.len(),
            len == r.data@.len(),
            x.nrows == x0.nrows,
            x.ncols == x0.ncols,
            d.nrows == d0.nrows,
            d.ncols == d0.ncols,
            x.data@.len() == len,
            d.data@.len() == len,
            forall|k: int|
                0 <= k < p ==> #[trigger] d.data@[k] == d0.data@[k].scaled(*c1).plus(
                    r.data@[k].scaled(*c2),
                ),
            forall|k: int| 0 <= k < p ==> #[trigger] x.data@[k] == x0.data@[k].plus(d.data@[k]),
            forall|k: int| p <= k < len ==> #[trigger] d.data@[k] == d0.data@[k],
            forall|k: int| p <= k < len ==> #[trigger] x.data@[k] == x0.data@[k],
        decreases len - p,
    {
        let dv: T = d.data[p].mul_real(c1).add(&r.data[p].mul_real(c2));
        let xv: T = x.data[p].add(&dv);
        d.data.set(p, dv);
        x.data.set(p, xv);
        p += 1;
    }
    proof {
        let n = x0.nrows as int;
        assert forall|c: int| 0 <= c < x0.ncols implies #[trigger] d.col(c) == combined(
            d0.col(c),
            *c1,
            r.col(c),
            *c2,
        ) by {
            assert forall|i: int| 0 <= i < n implies #[trigger] d.col(c)[i] == d0.col(c)[i].scaled(
                *c1,
            ).plus(r.col(c)[i].scaled(*c2)) by {
                lemma_offset(n, x0.ncols as int, i, c);
                assert(d.col(c)[i] == d.data@[offset(n, i, c)]);
            }
            assert(d.col(c) =~= combined(d0.col(c), *c1, r.col(c), *c2));
        }
        assert forall|c: int| 0 <= c < x0.ncols implies #[trigger] x.col(c) == summed(
            x0.col(c),
            d.col(c),
        ) by {
            assert forall|i: int| 0 <= i < n implies #[trigger] x.col(c)[i] == x0.col(c)[i].plus(
                d.col(c)[i],
            ) by {
                lemma_offset(n, x0.ncols as int, i, c);
                assert(x.col(c)[i] == x.data@[offset(n, i, c)]);
            }
            assert(x.col(c) =~= summed(x0.col(c), d.col(c)));
        }
    }
}

/// The Neumann series `p(A) = w * sum_{k=0}^{degree} (I - w A)^k` by Horner, for
/// `op(A)` in place of `A`.
fn run_neumann<T: Scalar>(
    a: CscRef<'_, T>,
    op: Op,
    degree: usize,
    omega: &T,
    b: &Mat<T>,
    x: &mut Mat<T>,
    v: &mut Mat<T>,
)
    requires
        a.wf(),
        b.wf(),
        old(x).wf(),
        old(v).wf(),
        a.pattern.nrows == b.nrows,
        a.pattern.ncols == b.nrows,
        old(x).nrows == b.nrows && old(x).ncols == b.ncols,
        old(v).nrows == b.nrows && old(v).ncols == b.ncols,
    ensures
        final(v).wf(),
        final(x).wf(),
        final(x).nrows == old(x).nrows,
        final(x).ncols == old(x).ncols,
        forall|c: int|
            0 <= c < b.ncols ==> #[trigger] final(x).col(c) == neumann(
                a@,
                op,
                *omega,
                degree as int,
                b.col(c),
            ),
{
    x.copy_from(b);
    let mut k: usize = 0;
    while k < degree
        invariant
            a.wf(),
            b.wf(),
            x.wf(),
            v.wf(),
            a.pattern.nrows == b.nrows,
            a.pattern.ncols == b.nrows,
            x.nrows == b.nrows && x.ncols == b.ncols,
            v.nrows == b.nrows && v.ncols == b.ncols,
            k <= degree,
            forall|c: int|
                0 <= c < b.ncols ==> #[trigger] x.col(c) == neumann_acc(
                    a@,
                    op,
                    *omega,
                    b.col(c),
                    k as int,
                ),
        decreases degree - k,
    {
        let ghost x0 = *x;
        sparse_dense_matmul(a, op.is_transpose(), op.is_conj(), x, v);
        neumann_update(b, v, omega, x);
        assert forall|c: int| 0 <= c < b.ncols implies #[trigger] x.col(c) == neumann_acc(
            a@,
            op,
            *omega,
            b.col(c),
            k + 1,
        ) by {
            assert(v.col(c) == image(a@, op, x0.col(c)));
            assert(x.col(c) =~= neumann_step(a@, op, *omega, b.col(c), x0.col(c)));
        }
        k += 1;
    }
    let ghost x1 = *x;
    scale_all(omega, x);
    assert forall|c: int| 0 <= c < b.ncols implies #[trigger] x.col(c) == neumann(
        a@,
        op,
        *omega,
        degree as int,
        b.col(c),
    ) by {
        assert(x1.col(c) == neumann_acc(a@, op, *omega, b.col(c), degree as int));
        assert(x.col(c) =~= neumann(a@, op, *omega, degree as int, b.col(c)));
    }
}

/// The Chebyshev iteration (`x_0 = 0`) on `op(A) x = b` over `[lo, hi]`, for
/// `degree` steps.
fn run_chebyshev<T: Scalar>(
    a: CscRef<'_, T>,
    op: Op,
    degree: usize,
    lo: &T::Real,
    hi: &T::Real,
    b: &Mat<T>,
    x: &mut Mat<T>,
    d: &mut Mat<T>,
    r: &mut Mat<T>,
)
    requires
        degree >= 1,
        a.wf(),
        b.wf(),
        old(x).wf(),
        old(d).wf(),
        old(r).wf(),
        a.pattern.nrows == b.nrows,
        a.pattern.ncols == b.nrows,
        old(x).nrows == b.nrows && old(x).ncols == b.ncols,
        old(d).nrows == b.nrows && old(d).ncols == b.ncols,
        old(r).nrows == b.nrows && old(r).ncols == b.ncols,
    ensures
        final(d).wf(),
        final(r).wf(),
        final(x).wf(),
        final(x).nrows == old(x).nrows,
        final(x).ncols == old(x).ncols,
        forall|c: int|
            0 <= c < b.ncols ==> #[trigger] final(x).col(c) == cheb_state(
                a@,
                op,
                interval(*lo, *hi),
                b.col(c),
                degree - 1,
            ).x,
{
    let half: T::Real = T::Real::from_ratio(1, 2);
    let two: T::Real = T::Real::from_ratio(2, 1);
    let theta: T::Real = lo.add(hi).mul(&half);
    let delta: T::Real = hi.sub(lo).mul(&half);
    let sigma: T::Real = theta.div(&delta);
    let inv_theta: T::Real = theta.recip();
    let ghost iv = interval(*lo, *hi);
    stretch_into(b, &inv_theta, d);
    x.copy_from(d);
    let mut rho_prev: T::Real = sigma.recip();
    let mut k: usize = 1;
    while k < degree
        invariant
            a.wf(),
            b.wf(),
            x.wf(),
            d.wf(),
            r.wf(),
            a.pattern.nrows == b.nrows,
            a.pattern.ncols == b.nrows,
            x.nrows == b.nrows && x.ncols == b.ncols,
            d.nrows == b.nrows && d.ncols == b.ncols,
            r.nrows == b.nrows && r.ncols == b.ncols,
            1 <= k <= degree,
            iv == interval(*lo, *hi),
            sigma == iv.sigma,
            delta == iv.delta,
            two == T::Real::ratio(2, 1),
            rho_prev == rho(iv.sigma, k - 1),
            forall|c: int|
                0 <= c < b.ncols ==> #[trigger] x.col(c) == cheb_state(a@, op, iv, b.col(c), k - 1).x,
            forall|c: int|
                0 <= c < b.ncols ==> #[trigger] d.col(c) == cheb_state(a@, op, iv, b.col(c), k - 1).d,
        decreases degree - k,
    {
        let ghost x0 = *x;
        let ghost d0 = *d;
        sparse_dense_matmul(a, op.is_transpose(), op.is_conj(), x, r);
        let ghost r0 = *r;
        residual_into(b, r);
        let now: T::Real = two.mul(&sigma).sub(&rho_prev).recip();
        let c1: T::Real = now.mul(&rho_prev);
        let c2: T::Real = two.mul(&now).div(&delta);
        advance(&c1, &c2, r, d, x);
        proof {
            assert forall|c: int| 0 <= c < b.ncols implies #[trigger] d.col(c) == cheb_state(
                a@,
                op,
                iv,
                b.col(c),
                k as int,
            ).d && x.col(c) == cheb_state(a@, op, iv, b.col(c), k as int).x by {
                assert(x0.col(c) == cheb_state(a@, op, iv, b.col(c), k - 1).x);
                assert(d0.col(c) == cheb_state(a@, op, iv, b.col(c), k - 1).d);
                assert(r0.col(c) == image(a@, op, x0.col(c)));
                assert(r.col(c) == difference(b.col(c), r0.col(c)));
                assert(x.col(c) == summed(x0.col(c), d.col(c)));
            }
            assert forall|c: int| 0 <= c < b.ncols implies #[trigger] x.col(c) == cheb_state(
                a@,
                op,
                iv,
                b.col(c),
                k as int,
            ).x by {
                assert(d.col(c) == cheb_state(a@, op, iv, b.col(c), k as int).d);
            }
        }
        rho_prev = now;
        k += 1;
    }
}

impl<T: Scalar> Poly<T> {
    /// How many buffers of the shape of the right-hand side the recurrence uses.
    pub open spec fn buffers(&self) -> nat {
        match self.coeffs {
            Coeffs::Neumann { .. } => 1,
            Coeffs::Chebyshev { .. } => 2,
        }
    }

    /// How many buffers of the shape of the right-hand side the recurrence uses.
    pub fn run_buffers(&self) -> (r: usize)
        ensures
            r == self.buffers(),
            1 <= r <= 2,
    {
        match &self.coeffs {
            Coeffs::Neumann { omega } => 1,
            Coeffs::Chebyshev { lambda_min, lambda_max } => 2,
        }
    }

    /// Scratch memory for the out-of-place apply.
    pub fn apply_scratch(&self, rhs_ncols: usize) -> (r: Scratch)
        requires
            self.a.pattern.ncols * rhs_ncols * self.buffers() <= usize::MAX,
        ensures
            r == scratch_for::<T>((self.a.pattern.ncols * rhs_ncols * self.buffers()) as nat),
    {
        let k: usize = self.run_buffers();
        proof {
            lemma_products_fit(k as int, self.a.pattern.ncols as int, rhs_ncols as int);
        }
        Scratch::elements::<T>(self.a.pattern.ncols * rhs_ncols * k)
    }

    /// Scratch memory for the in-place apply: one extra buffer keeps a copy of
    /// the right-hand side.
    pub fn apply_in_place_scratch(&self, rhs_ncols: usize) -> (r: Scratch)
        requires
            self.a.pattern.ncols * rhs_ncols * self.buffers() <= usize::MAX,
        ensures
            r == scratch_for_both::<T>(
                (self.a.pattern.ncols * rhs_ncols) as nat,
                (self.a.pattern.ncols * rhs_ncols * self.buffers()) as nat,
            ),
    {
        let k: usize = self.run_buffers();
        proof {
            lemma_products_fit(k as int, self.a.pattern.ncols as int, rhs_ncols as int);
        }
        Scratch::both::<T>(
            self.a.pattern.ncols * rhs_ncols,
            self.a.pattern.ncols * rhs_ncols * k,
        )
    }

    /// Evaluates `x = p(op(A)) b`.
    fn run(&self, op: Op, b: &Mat<T>, x: &mut Mat<T>, d: &mut Mat<T>, r: &mut Mat<T>)
        requires
            self.wf(),
            b.wf(),
            old(x).wf(),
            old(d).wf(),
            old(r).wf(),
            b.nrows == self.a.pattern.ncols,
            old(x).nrows == b.nrows && old(x).ncols == b.ncols,
            old(d).nrows == b.nrows && old(d).ncols == b.ncols,
            old(r).nrows == b.nrows && old(r).ncols == b.ncols,
        ensures
            final(d).wf(),
            final(r).wf(),
            final(x).wf(),
            final(x).nrows == old(x).nrows,
            final(x).ncols == old(x).ncols,
            forall|c: int|
                0 <= c < b.ncols ==> #[trigger] final(x).col(c) == poly_action(
                    self.a_model(),
                    op,
                    self.coeffs,
                    self.degree as int,
                    b.col(c),
                ),
    {
        match &self.coeffs {
            Coeffs::Neumann { omega } => {
                run_neumann(self.a_view(), op, self.degree, omega, b, x, d);
            },
            Coeffs::Chebyshev { lambda_min, lambda_max } => {
                run_chebyshev(
                    self.a_view(),
                    op,
                    self.degree,
                    &lambda_min.re(),
                    &lambda_max.re(),
                    b,
                    x,
                    d,
                    r,
                );
            },
        }
    }
}

/// Products that stay below one that fits.
proof fn lemma_products_fit(k: int, n: int, m: int)
    requires
        1 <= k <= 2,
        0 <= n,
        0 <= m,
        n * m * k <= usize::MAX,
    ensures
        0 <= n * m <= usize::MAX,
        0 <= n * m * k <= usize::MAX,
{
    assert(0 <= n * m <= n * m * k) by (nonlinear_arith)
        requires
            1 <= k <= 2,
            0 <= n,
            0 <= m,
    ;
}

impl<T: Scalar> Preconditioner<T> for Poly<T> {
    open spec fn ready(&self) -> bool {
        self.wf()
    }

    open spec fn order(&self) -> nat {
        self.a.pattern.ncols as nat
    }

    /// `p(op(A))`. The coefficients are real, so that a transposed, conjugated or
    /// adjoint polynomial in `A` is the polynomial in `A^T`, `conj(A)` or `A^H`.
    open spec fn action(&self, op: Op, x: Seq<T>) -> Seq<T> {
        poly_action(self.a_model(), op, self.coeffs, self.degree as int, x)
    }

    fn nrows(&self) -> (n: usize) {
        self.dim()
    }

    fn ncols(&self) -> (n: usize) {
        self.dim()
    }

    fn apply_in_place(&self, op: Op, rhs: &mut Mat<T>, work: &mut Work<T>) {
        let len: usize = rhs.data.len();
        assert(len == rhs.nrows * rhs.ncols);
        work.shape(rhs.nrows, rhs.ncols);
        work.c.copy_from(rhs);
        self.run(op, &work.c, rhs, &mut work.a, &mut work.b);
    }

    fn apply(&self, op: Op, out: &mut Mat<T>, rhs: &Mat<T>, work: &mut Work<T>) {
        let len: usize = rhs.data.len();
        assert(len == rhs.nrows * rhs.ncols);
        work.shape(rhs.nrows, rhs.ncols);
        self.run(op, rhs, out, &mut work.a, &mut work.b);
    }
}

} // verus!
