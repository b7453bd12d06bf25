//! Eigenvalue-bound estimation for Hermitian positive-definite operators.
//!
//! Chebyshev acceleration needs an interval `[lambda_min, lambda_max]` that
//! brackets the spectrum. Two cheap estimators live here: the Gershgorin discs,
//! a closed form from the entries, and a few steps of power iteration for the
//! largest eigenvalue.
use crate::dense::Mat;
use crate::linalg::{sparse_dense_matmul, spmv};
use crate::scalar::{RealScalar, Scalar};
use crate::sparse::{CscModel, CscRef};
use vstd::prelude::*;

verus! {

/// The centre of disc `i` as the first `p` stored entries give it: the real
/// part of the last diagonal entry among them.
pub open spec fn centre<T: Scalar>(a: CscModel<T>, i: int, p: int) -> T::Real
    decreases p,
{
    if p <= 0 {
        T::Real::null()
    } else if a.pattern.row_idx@[p - 1] == i && a.pattern.in_col(p - 1, i) {
        a.values[p - 1].real_part()
    } else {
        centre(a, i, p - 1)
    }
}

/// The radius of disc `i` as the first `p` stored entries give it: the
/// magnitudes of the off-diagonal entries in row `i`, summed in stored order.
pub open spec fn radius<T: Scalar>(a: CscModel<T>, i: int, p: int) -> T::Real
    decreases p,
{
    if p <= 0 {
        T::Real::null()
    } else if a.pattern.row_idx@[p - 1] == i && !a.pattern.in_col(p - 1, i) {
        radius(a, i, p - 1).plus(a.values[p - 1].magnitude())
    } else {
        radius(a, i, p - 1)
    }
}

/// The lower end of disc `i`.
pub open spec fn disc_lo<T: Scalar>(a: CscModel<T>, i: int) -> T::Real {
    let nnz = a.values.len() as int;
    centre(a, i, nnz).minus(radius(a, i, nnz))
}

/// The upper end of disc `i`.
pub open spec fn disc_hi<T: Scalar>(a: CscModel<T>, i: int) -> T::Real {
    let nnz = a.values.len() as int;
    centre(a, i, nnz).plus(radius(a, i, nnz))
}

/// The smallest lower end among the first `k` discs; ties keep the earlier one.
pub open spec fn lowest<T: Scalar>(a: CscModel<T>, k: int) -> T::Real
    decreases k,
{
    if k <= 0 {
        T::Real::null()
    } else if k == 1 || disc_lo(a, k - 1).below(lowest(a, k - 1)) {
        disc_lo(a, k - 1)
    } else {
        lowest(a, k - 1)
    }
}

/// The largest upper end among the first `k` discs; ties keep the earlier one.
pub open spec fn highest<T: Scalar>(a: CscModel<T>, k: int) -> T::Real
    decreases k,
{
    if k <= 0 {
        T::Real::null()
    } else if k == 1 || highest(a, k - 1).below(disc_hi(a, k - 1)) {
        disc_hi(a, k - 1)
    } else {
        highest(a, k - 1)
    }
}

/// A vector of `n` real zeros.
fn real_zeros<R: RealScalar>(n: usize) -> (v: Vec<R>)
    ensures
        v@.len() == n,
        forall|i: int| 0 <= i < n ==> #[trigger] v@[i] == R::null(),
{
    let mut v: Vec<R> = Vec::with_capacity(n);
    let mut i: usize = 0;
    while i < n
        invariant
            i <= n,
            v@.len() == i,
            forall|k: int| 0 <= k < i ==> #[trigger] v@[k] == R::null(),
        decreases n - i,
    {
        v.push(R::zero());
        i += 1;
    }
    v
}

/// The centres and radii of all discs.
fn discs<T: Scalar>(a: CscRef<'_, T>) -> (r: (Vec<T::Real>, Vec<T::Real>))
    requires
        a.wf(),
        a.pattern.nrows == a.pattern.ncols,
    ensures
        r.0@.len() == a.pattern.nrows,
        r.1@.len() == a.pattern.nrows,
        forall|i: int|
            0 <= i < a.pattern.nrows ==> #[trigger] r.0@[i] == centre(
                a@,
                i,
                a.values@.len() as int,
            ),
        forall|i: int|
            0 <= i < a.pattern.nrows ==> #[trigger] r.1@[i] == radius(
                a@,
                i,
                a.values@.len() as int,
            ),
{
    let n: usize = a.pattern.nrows;
    let mut diag: Vec<T::Real> = real_zeros(n);
    let mut rad: Vec<T::Real> = real_zeros(n);
    let mut j: usize = 0;
    while j < n
        invariant
            a.wf(),
            n == a.pattern.nrows,
            n == a.pattern.ncols,
            j <= n,
            diag@.len() == n,
            rad@.len() == n,
            forall|i: int|
                0 <= i < n ==> #[trigger] diag@[i] == centre(
                    a@,
                    i,
                    a.pattern.col_ptr@[j as int] as int,
                ),
            forall|i: int|
                0 <= i < n ==> #[trigger] rad@[i] == radius(
                    a@,
                    i,
                    a.pattern.col_ptr@[j as int] as int,
                ),
        decreases n - j,
    {
        let e: usize = a.pattern.col_ptr[j + 1];
        let mut p: usize = a.pattern.col_ptr[j];
        proof {
            a.pattern.lemma_col_bounds(j as int);
        }
        while p < e
            invariant
                a.wf(),
                n == a.pattern.nrows,
                n == a.pattern.ncols,
                j < n,
                e == a.pattern.end(j as int),
                a.pattern.start(j as int) <= p <= e <= a.pattern.row_idx@.len(),
                diag@.len() == n,
                rad@.len() == n,
                forall|i: int| 0 <= i < n ==> #[trigger] diag@[i] == centre(a@, i, p as int),
                forall|i: int| 0 <= i < n ==> #[trigger] rad@[i] == radius(a@, i, p as int),
            decreases e - p,
        {
            let i: usize = a.pattern.row_idx[p];
            proof {
                let pp = p as int;
                assert(a.pattern.in_col(pp, j as int));
                if i != j && a.pattern.in_col(pp, i as int) {
                    a.pattern.lemma_col_unique(pp, j as int, i as int);
                }
            }
            if i == j {
                diag.set(i, a.values[p].re());
            } else {
                let r: T::Real = rad[i].add(&a.values[p].abs());
                rad.set(i, r);
            }
            p += 1;
        }
        j += 1;
    }
    (diag, rad)
}

/// The Gershgorin interval `(lo, hi)` of a square matrix: every disc reaches
/// from its centre, the real part of the diagonal entry, as far as the
/// magnitudes of the other entries in its row sum up to.
pub fn gershgorin_bounds<T: Scalar>(a: CscRef<'_, T>) -> (r: (T::Real, T::Real))
    requires
        a.wf(),
        a.pattern.nrows == a.pattern.ncols,
    ensures
        r.0 == lowest(a@, a.pattern.nrows as int),
        r.1 == highest(a@, a.pattern.nrows as int),
{
    let n: usize = a.pattern.nrows;
    let (diag, rad): (Vec<T::Real>, Vec<T::Real>) = discs(a);
    if n == 0 {
        return (T::Real::zero(), T::Real::zero());
    }
    let mut lo: T::Real = diag[0].sub(&rad[0]);
    let mut hi: T::Real = diag[0].add(&rad[0]);
    assert(diag@[0] == centre(a@, 0, a.values@.len() as int));
    assert(rad@[0] == radius(a@, 0, a.values@.len() as int));
    let mut i: usize = 1;
    while i < n
        invariant
            n == a.pattern.nrows,
            1 <= i <= n,
            diag@.len() == n,
            rad@.len() == n,
            forall|k: int|
                0 <= k < n ==> #[trigger] diag@[k] == centre(a@, k, a.values@.len() as int),
            forall|k: int|
                0 <= k < n ==> #[trigger] rad@[k] == radius(a@, k, a.values@.len() as int),
            lo == lowest(a@, i as int),
            hi == highest(a@, i as int),
        decreases n - i,
    {
        let d_lo: T::Real = diag[i].sub(&rad[i]);
        let d_hi: T::Real = diag[i].add(&rad[i]);
        if d_lo.lt(&lo) {
            lo = d_lo;
        }
        if hi.lt(&d_hi) {
            hi = d_hi;
        }
        i += 1;
    }
    (lo, hi)
}

/// `Re(x^H y)`, summed over the first `k` entries.
pub open spec fn real_dot_spec<T: Scalar>(x: Seq<T>, y: Seq<T>, k: int) -> T::Real
    decreases k,
{
    if k <= 0 {
        T::Real::null()
    } else {
        real_dot_spec(x, y, k - 1).plus(x[k - 1].conjugate().times(y[k - 1]).real_part())
    }
}

/// The Euclidean norm of `x`.
pub open spec fn norm<T: Scalar>(x: Seq<T>) -> T::Real {
    real_dot_spec(x, x, x.len() as int).root()
}

/// `x`, every entry multiplied by the real `r`.
pub open spec fn stretched<T: Scalar>(x: Seq<T>, r: T::Real) -> Seq<T> {
    Seq::new(x.len(), |i: int| x[i].scaled(r))
}

/// `x` divided by its norm, unless that is zero.
pub open spec fn normalized<T: Scalar>(x: Seq<T>) -> Seq<T> {
    if norm(x).is_null() {
        x
    } else {
        stretched(x, norm(x).reciprocal())
    }
}

/// The start vector: entry `i` is `1 + (i mod 7) / 2`.
pub open spec fn start_vector<T: Scalar>(n: nat) -> Seq<T> {
    Seq::new(n, |i: int| T::embed(T::Real::ratio((2 + i % 7) as u64, 2)))
}

/// The iterate, the last Rayleigh quotient, and whether the iteration stopped
/// on a zero vector.
pub struct PowerState<T: Scalar> {
    pub x: Seq<T>,
    pub lambda: T::Real,
    pub stopped: bool,
}

/// One step: the Rayleigh quotient of the iterate, then the next iterate.
pub open spec fn power_step<T: Scalar>(a: CscModel<T>, s: PowerState<T>) -> PowerState<T> {
    let y = spmv(a, false, s.x, a.pattern.ncols as int);
    let lambda = real_dot_spec(s.x, y, s.x.len() as int);
    if s.stopped {
        s
    } else if norm(y).is_null() {
        PowerState { x: s.x, lambda, stopped: true }
    } else {
        PowerState { x: stretched(y, norm(y).reciprocal()), lambda, stopped: false }
    }
}

/// The state after `k` steps.
pub open spec fn power_state<T: Scalar>(a: CscModel<T>, k: int) -> PowerState<T>
    decreases k,
{
    if k <= 0 {
        PowerState {
            x: normalized(start_vector::<T>(a.pattern.nrows as nat)),
            lambda: T::Real::null(),
            stopped: false,
        }
    } else {
        power_step(a, power_state(a, k - 1))
    }
}

/// The estimate of the largest eigenvalue after `iters` steps.
pub open spec fn power_estimate<T: Scalar>(a: CscModel<T>, iters: int) -> T::Real {
    if a.pattern.nrows == 0 {
        T::Real::null()
    } else {
        power_state(a, iters).lambda.magnitude()
    }
}

/// `Re(x^H y)` for single-column matrices.
fn real_dot<T: Scalar>(x: &Mat<T>, y: &Mat<T>) -> (r: T::Real)
    requires
        x.wf(),
        y.wf(),
        x.ncols == 1,
        y.ncols == 1,
        x.nrows == y.nrows,
    ensures
        r == real_dot_spec(x.col(0), y.col(0), x.nrows as int),
{
    let n: usize = x.nrows;
    let mut acc: T::Real = T::Real::zero();
    let mut i: usize = 0;
    while i < n
        invariant
            x.wf(),
            y.wf(),
            x.ncols == 1,
            y.ncols == 1,
            x.nrows == n,
            y.nrows == n,
            i <= n,
            acc == real_dot_spec(x.col(0), y.col(0), i as int),
        decreases n - i,
    {
        assert(x.col(0)[i as int] == x.at(i as int, 0));
        assert(y.col(0)[i as int] == y.at(i as int, 0));
        acc = acc.add(&x.get(i, 0).conj().mul(y.get(i, 0)).re());
        i += 1;
    }
    acc
}

/// Writes `y`, every entry multiplied by `r`, into `x`.
fn stretch<T: Scalar>(y: &Mat<T>, r: &T::Real, x: &mut Mat<T>)
    requires
        y.wf(),
        old(x).wf(),
        y.ncols == 1,
        old(x).ncols == 1,
        y.nrows == old(x).nrows,
    ensures
        final(x).wf(),
        final(x).nrows == old(x).nrows,
        final(x).ncols == 1,
        final(x).col(0) == stretched(y.col(0), *r),
{
    let n: usize = y.nrows;
    let mut i: usize = 0;
    while i < n
        invariant
            y.wf(),
            x.wf(),
            y.ncols == 1,
            x.ncols == 1,
            y.nrows == n,
            x.nrows == n,
            i <= n,
            forall|k: int| 0 <= k < i ==> #[trigger] x.col(0)[k] == y.col(0)[k].scaled(*r),
        decreases n - i,
    {
        assert(y.col(0)[i as int] == y.at(i as int, 0));
        let v: T = y.get(i, 0).mul_real(r);
        x.set(i, 0, v);
        i += 1;
    }
    assert(x.col(0) =~= stretched(y.col(0), *r));
}

/// The normalised start vector as a column.
fn start_column<T: Scalar>(n: usize) -> (x: Mat<T>)
    ensures
        x.wf(),
        x.nrows == n,
        x.ncols == 1,
        x.col(0) == normalized(start_vector::<T>(n as nat)),
{
    let mut x: Mat<T> = Mat::zeros(n, 1);
    let mut i: usize = 0;
    while i < n
        invariant
            x.wf(),
            x.nrows == n,
            x.ncols == 1,
            i <= n,
            forall|k: int| 0 <= k < i ==> #[trigger] x.col(0)[k] == start_vector::<T>(n as nat)[k],
        decreases n - i,
    {
        let num: u64 = 2 + (i % 7) as u64;
        let v: T = T::from_real(&T::Real::from_ratio(num, 2));
        x.set(i, 0, v);
        i += 1;
    }
    assert(x.col(0) =~= start_vector::<T>(n as nat));
    let nrm: T::Real = real_dot(&x, &x).sqrt();
    if nrm.is_zero() {
        return x;
    }
    let mut out: Mat<T> = Mat::zeros(n, 1);
    stretch(&x, &nrm.recip(), &mut out);
    out
}

/// Estimates the largest eigenvalue (by magnitude) with at most `iters` steps
/// of power iteration.
pub fn power_iteration_max<T: Scalar>(a: CscRef<'_, T>, iters: usize) -> (r: T::Real)
    requires
        a.wf(),
        a.pattern.nrows == a.pattern.ncols,
    ensures
        r == power_estimate(a@, iters as int),
{
    let n: usize = a.pattern.nrows;
    if n == 0 {
        return T::Real::zero();
    }
    let mut x: Mat<T> = start_column(n);
    let mut y: Mat<T> = Mat::zeros(n, 1);
    let mut lambda: T::Real = T::Real::zero();
    let mut k: usize = 0;
    while k < iters
        invariant
            a.wf(),
            n == a.pattern.nrows,
            n == a.pattern.ncols,
            n > 0,
            x.wf(),
            y.wf(),
            x.nrows == n,
            y.nrows == n,
            x.ncols == 1,
            y.ncols == 1,
            k <= iters,
            power_state(a@, k as int) == (PowerState { x: x.col(0), lambda, stopped: false }),
        decreases iters - k,
    {
        sparse_dense_matmul(a, false, false, &x, &mut y);
        lambda = real_dot(&x, &y);
        let nrm: T::Real = real_dot(&y, &y).sqrt();
        if nrm.is_zero() {
            proof {
                lemma_power_stopped(a@, k + 1, iters as int);
            }
            return lambda.abs();
        }
        stretch(&y, &nrm.recip(), &mut x);
        k += 1;
    }
    lambda.abs()
}

/// Once stopped, the iteration stays where it is.
proof fn lemma_power_stopped<T: Scalar>(a: CscModel<T>, k1: int, k2: int)
    requires
        0 <= k1 <= k2,
        power_state(a, k1).stopped,
    ensures
        power_state(a, k2) == power_state(a, k1),
    decreases k2,
{
    if k1 < k2 {
        lemma_power_stopped(a, k1, k2 - 1);
    }
}

} // verus!
