//! Construction, bound estimation and refactorisation for [`Poly`].
use super::{BoundEstimate, Coeffs, PolyError, PolyKind, PolyParams};
use crate::scalar::{RealScalar, Scalar};
use crate::sparse::{CscMatrix, CscModel, CscPattern, CscRef};
use crate::util::spd_bounds::{
    gershgorin_bounds, highest, lowest, power_estimate, power_iteration_max,
};
use vstd::prelude::*;

verus! {

/// Polynomial preconditioner `M^{-1} = p(A)`.
///
/// Stores an owned copy of `A` and the polynomial coefficients.
#[derive(Debug, Clone)]
pub struct Poly<T: Scalar> {
    pub degree: usize,
    pub a: CscMatrix<T>,
    pub coeffs: Coeffs<T>,
    pub recompute: Option<BoundEstimate<T::Tuning>>,
}

/// A damping factor that the Neumann series accepts.
pub open spec fn omega_usable<R: RealScalar>(omega: R) -> bool {
    omega.is_finite_spec() && !omega.at_most(R::null())
}

/// Bounds that a caller may pass.
pub open spec fn interval_usable<R: RealScalar>(lambda_min: R, lambda_max: R) -> bool {
    &&& lambda_min.is_finite_spec()
    &&& lambda_max.is_finite_spec()
    &&& !lambda_min.at_most(R::null())
    &&& !lambda_max.at_most(lambda_min)
}

/// The coefficients of `kind`, or why it has none.
pub open spec fn kind_coeffs<T: Scalar>(kind: PolyKind<T::Tuning>) -> Result<Coeffs<T>, PolyError> {
    match kind {
        PolyKind::Neumann { omega } => if omega_usable(omega) {
            Ok(Coeffs::Neumann { omega: T::embed(T::tuned(omega)) })
        } else {
            Err(PolyError::InvalidOmega)
        },
        PolyKind::Chebyshev { lambda_min, lambda_max } => if interval_usable(
            lambda_min,
            lambda_max,
        ) {
            Ok(
                Coeffs::Chebyshev {
                    lambda_min: T::embed(T::tuned(lambda_min)),
                    lambda_max: T::embed(T::tuned(lambda_max)),
                },
            )
        } else {
            Err(PolyError::InvalidBounds)
        },
    }
}

/// The larger of a lower bound and its floor, one ten-thousandth of `hi`.
pub open spec fn floored<T: Scalar>(glo: T::Real, hi: T::Real) -> T::Real {
    let floor = hi.times(T::tuned(T::Tuning::ratio(1, 10000)));
    if floor.below(glo) {
        glo
    } else {
        floor
    }
}

/// The Chebyshev interval that an estimate `(glo, hi)` gives, if it gives one.
pub open spec fn finalized<T: Scalar>(
    glo: T::Real,
    hi: T::Real,
) -> Option<(T::Real, T::Real)> {
    let lo = floored::<T>(glo, hi);
    if T::Real::null().below(hi) && T::Real::null().below(lo) && lo.below(hi) {
        Some((lo, hi))
    } else {
        None
    }
}

/// The Chebyshev interval that `estimate` finds for `a`, if it finds one.
pub open spec fn estimated<T: Scalar>(
    a: CscModel<T>,
    estimate: BoundEstimate<T::Tuning>,
) -> Option<(T::Real, T::Real)> {
    let n = a.pattern.nrows as int;
    match estimate {
        BoundEstimate::Manual { lambda_min, lambda_max } => if interval_usable(
            lambda_min,
            lambda_max,
        ) {
            Some((T::tuned(lambda_min), T::tuned(lambda_max)))
        } else {
            None
        },
        BoundEstimate::Gershgorin => finalized::<T>(lowest(a, n), highest(a, n)),
        BoundEstimate::PowerIteration { iters } => {
            let k = if iters >= 1 {
                iters as int
            } else {
                1
            };
            finalized::<T>(lowest(a, n), power_estimate(a, k))
        },
    }
}

/// The coefficients over the interval `b`.
pub open spec fn interval_coeffs<T: Scalar>(b: (T::Real, T::Real)) -> Coeffs<T> {
    Coeffs::Chebyshev { lambda_min: T::embed(b.0), lambda_max: T::embed(b.1) }
}

/// Whether `[lambda_min, lambda_max]` is an interval that a caller may pass.
pub fn bounds_usable<R: RealScalar>(lambda_min: &R, lambda_max: &R) -> (b: bool)
    ensures
        b == interval_usable(*lambda_min, *lambda_max),
{
    lambda_min.is_finite() && lambda_max.is_finite() && !lambda_min.le(&R::zero())
        && !lambda_max.le(lambda_min)
}

/// The coefficients of `kind`.
///
/// # Errors
///
/// [`PolyError::InvalidOmega`] or [`PolyError::InvalidBounds`] if its parameters
/// are out of range.
pub fn resolve_kind<T: Scalar>(kind: &PolyKind<T::Tuning>) -> (r: Result<Coeffs<T>, PolyError>)
    ensures
        r == kind_coeffs::<T>(*kind),
{
    match kind {
        PolyKind::Neumann { omega } => {
            if !omega.is_finite() || omega.le(&T::Tuning::zero()) {
                return Err(PolyError::InvalidOmega);
            }
            Ok(Coeffs::Neumann { omega: T::from_real(&T::from_tuning(omega)) })
        },
        PolyKind::Chebyshev { lambda_min, lambda_max } => {
            if !bounds_usable(lambda_min, lambda_max) {
                return Err(PolyError::InvalidBounds);
            }
            Ok(
                Coeffs::Chebyshev {
                    lambda_min: T::from_real(&T::from_tuning(lambda_min)),
                    lambda_max: T::from_real(&T::from_tuning(lambda_max)),
                },
            )
        },
    }
}

/// Clamps a raw `(lo, hi)` estimate to a usable Chebyshev interval: `hi` must
/// be positive, `lo` is floored to a small positive value where the structural
/// lower bound is not positive, and `lo` must stay below `hi`.
fn finalize_bounds<T: Scalar>(glo: T::Real, hi: T::Real) -> (r: Option<(T::Real, T::Real)>)
    ensures
        r == finalized::<T>(glo, hi),
{
    let zero: T::Real = T::Real::zero();
    if !zero.lt(&hi) {
        return None;
    }
    let floor: T::Real = hi.mul(&T::from_tuning(&T::Tuning::from_ratio(1, 10000)));
    let lo: T::Real = if floor.lt(&glo) {
        glo
    } else {
        floor
    };
    if zero.lt(&lo) && lo.lt(&hi) {
        Some((lo, hi))
    } else {
        None
    }
}

/// Estimates `(lambda_min, lambda_max)` for the (assumed Hermitian
/// positive-definite) operator.
fn resolve_bounds<T: Scalar>(
    a: CscRef<'_, T>,
    estimate: &BoundEstimate<T::Tuning>,
) -> (r: Option<(T::Real, T::Real)>)
    requires
        a.wf(),
        a.pattern.nrows == a.pattern.ncols,
    ensures
        r == estimated(a@, *estimate),
{
    match estimate {
        BoundEstimate::Manual { lambda_min, lambda_max } => {
            if bounds_usable(lambda_min, lambda_max) {
                Some((T::from_tuning(lambda_min), T::from_tuning(lambda_max)))
            } else {
                None
            }
        },
        BoundEstimate::Gershgorin => {
            let (glo, ghi): (T::Real, T::Real) = gershgorin_bounds(a);
            finalize_bounds::<T>(glo, ghi)
        },
        BoundEstimate::PowerIteration { iters } => {
            let k: usize = if *iters >= 1 {
                *iters
            } else {
                1
            };
            let hi: T::Real = power_iteration_max(a, k);
            let (glo, _ghi): (T::Real, T::Real) = gershgorin_bounds(a);
            finalize_bounds::<T>(glo, hi)
        },
    }
}

/// A copy of the values of `a`.
fn copy_values<T: Scalar>(a: &[T]) -> (v: Vec<T>)
    ensures
        v@ == a@,
{
    let n: usize = a.len();
    let mut v: Vec<T> = Vec::with_capacity(n);
    let mut k: usize = 0;
    while k < n
        invariant
            n == a@.len(),
            k <= n,
            v@.len() == k,
            forall|p: int| 0 <= p < k ==> #[trigger] v@[p] == a@[p],
        decreases n - k,
    {
        v.push(a[k].copy());
        k += 1;
    }
    assert(v@ =~= a@);
    v
}

/// `p` has the shape and the column lengths of `q`.
pub open spec fn same_lengths(p: CscPattern, q: CscPattern) -> bool {
    p.nrows == q.nrows && p.ncols == q.ncols && p.col_ptr@ == q.col_ptr@
}

/// Column `j` is the first whose length in `p` is not that in `q`.
pub open spec fn lengths_differ_at(p: CscPattern, q: CscPattern, j: int) -> bool {
    &&& 0 <= j < p.ncols
    &&& p.end(j) - p.start(j) != q.end(j) - q.start(j)
    &&& forall|k: int| 0 <= k <= j ==> #[trigger] p.col_ptr@[k] == q.col_ptr@[k]
}

/// What [`Poly::try_new`] returns.
pub open spec fn built<T: Scalar>(
    a: CscRef<'_, T>,
    params: PolyParams<T::Tuning>,
    r: Result<Poly<T>, PolyError>,
) -> bool {
    &&& match r {
        Ok(m) => {
            &&& m.wf()
            &&& m.degree == params.degree
            &&& m.a.pattern.same_as(*a.pattern)
            &&& m.a.values@ == a.values@
            &&& kind_coeffs::<T>(params.kind) == Ok::<Coeffs<T>, PolyError>(m.coeffs)
            &&& m.recompute is None
        },
        Err(e) => if a.pattern.nrows != a.pattern.ncols {
            e == PolyError::NonSquareMatrix {
                nrows: a.pattern.nrows,
                ncols: a.pattern.ncols,
            }
        } else if params.degree == 0 {
            e is ZeroDegree
        } else {
            kind_coeffs::<T>(params.kind) == Err::<Coeffs<T>, PolyError>(e)
        },
    }
    &&& (r is Ok <==> a.pattern.nrows == a.pattern.ncols && params.degree > 0
        && kind_coeffs::<T>(params.kind) is Ok)
}

/// What [`Poly::try_new_auto`] returns.
pub open spec fn auto_built<T: Scalar>(
    a: CscRef<'_, T>,
    degree: usize,
    estimate: BoundEstimate<T::Tuning>,
    r: Result<Poly<T>, PolyError>,
) -> bool {
    &&& match r {
        Ok(m) => {
            &&& m.wf()
            &&& m.degree == degree
            &&& m.a.pattern.same_as(*a.pattern)
            &&& m.a.values@ == a.values@
            &&& estimated(a@, estimate) is Some
            &&& m.coeffs == interval_coeffs::<T>(estimated(a@, estimate)->0)
            &&& m.recompute == Some(estimate)
        },
        Err(e) => if a.pattern.nrows != a.pattern.ncols {
            e == PolyError::NonSquareMatrix {
                nrows: a.pattern.nrows,
                ncols: a.pattern.ncols,
            }
        } else if degree == 0 {
            e is ZeroDegree
        } else {
            e is InvalidBounds
        },
    }
    &&& (r is Ok <==> a.pattern.nrows == a.pattern.ncols && degree > 0 && estimated(
        a@,
        estimate,
    ) is Some)
}

/// What [`Poly::refactorize`] makes of `pre`, and what it returns.
pub open spec fn refactorized<T: Scalar>(
    pre: Poly<T>,
    a: CscRef<'_, T>,
    post: Poly<T>,
    r: Result<(), PolyError>,
) -> bool {
    &&& post.wf()
    &&& post.degree == pre.degree
    &&& post.a.pattern == pre.a.pattern
    &&& post.recompute == pre.recompute
    &&& {
        let matches = same_lengths(pre.a.pattern, *a.pattern);
        let est = match pre.recompute {
            Some(e) => estimated(a@, e),
            None => None,
        };
        match r {
            Ok(_) => {
                &&& matches
                &&& post.a.values@ == a.values@
                &&& if pre.recompute is Some {
                    est is Some && post.coeffs == interval_coeffs::<T>(est->0)
                } else {
                    post.coeffs == pre.coeffs
                }
            },
            Err(PolyError::InvalidBounds) => {
                &&& matches
                &&& pre.recompute is Some
                &&& est is None
                &&& post.a.values@ == a.values@
                &&& post.coeffs == pre.coeffs
            },
            Err(PolyError::PatternMismatch) => {
                let p = pre.a.pattern;
                if a.pattern.nrows != p.nrows || a.pattern.ncols != p.ncols {
                    post == pre
                } else {
                    &&& post.coeffs == pre.coeffs
                    &&& exists|j: int| #[trigger]
                        lengths_differ_at(p, *a.pattern, j) && post.a.values@
                            == a.values@.subrange(0, p.start(j)) + pre.a.values@.subrange(
                            p.start(j),
                            pre.a.values@.len() as int,
                        )
                }
            },
            Err(_) => false,
        }
    }
}

impl<T: Scalar> Poly<T> {
    pub open spec fn wf(&self) -> bool {
        &&& self.a.wf()
        &&& self.a.pattern.nrows == self.a.pattern.ncols
        &&& self.degree >= 1
        &&& self.coeffs.is_real()
    }

    /// The stored operator.
    pub open spec fn a_model(&self) -> CscModel<T> {
        CscModel { pattern: self.a.pattern, values: self.a.values@ }
    }

    /// Build a polynomial preconditioner with an explicit [`PolyKind`].
    ///
    /// # Errors
    ///
    /// - [`PolyError::NonSquareMatrix`] if `a` is not square.
    /// - [`PolyError::ZeroDegree`] if `degree` is zero.
    /// - [`PolyError::InvalidOmega`] / [`PolyError::InvalidBounds`] if the kind
    ///   parameters are out of range.
    pub fn try_new(a: CscRef<'_, T>, params: PolyParams<T::Tuning>) -> (r: Result<Self, PolyError>)
        requires
            a.wf(),
        ensures
            built(a, params, r),
    {
        if a.pattern.nrows != a.pattern.ncols {
            return Err(
                PolyError::NonSquareMatrix { nrows: a.pattern.nrows, ncols: a.pattern.ncols },
            );
        }
        if params.degree == 0 {
            return Err(PolyError::ZeroDegree);
        }
        match resolve_kind::<T>(&params.kind) {
            Ok(coeffs) => Ok(Self::assemble(a, params.degree, coeffs, None)),
            Err(e) => Err(e),
        }
    }

    /// Build a Chebyshev preconditioner, estimating the spectral interval with
    /// `estimate`.
    ///
    /// # Errors
    ///
    /// As [`Poly::try_new`], plus [`PolyError::InvalidBounds`] if the estimate
    /// does not yield a usable `0 < lambda_min < lambda_max`.
    pub fn try_new_auto(
        a: CscRef<'_, T>,
        degree: usize,
        estimate: BoundEstimate<T::Tuning>,
    ) -> (r: Result<Self, PolyError>)
        requires
            a.wf(),
        ensures
            auto_built(a, degree, estimate, r),
    {
        if a.pattern.nrows != a.pattern.ncols {
            return Err(
                PolyError::NonSquareMatrix { nrows: a.pattern.nrows, ncols: a.pattern.ncols },
            );
        }
        if degree == 0 {
            return Err(PolyError::ZeroDegree);
        }
        match resolve_bounds(a, &estimate) {
            Some((lo, hi)) => {
                let coeffs: Coeffs<T> = Coeffs::Chebyshev {
                    lambda_min: T::from_real(&lo),
                    lambda_max: T::from_real(&hi),
                };
                Ok(Self::assemble(a, degree, coeffs, Some(estimate)))
            },
            None => Err(PolyError::InvalidBounds),
        }
    }

    fn assemble(
        a: CscRef<'_, T>,
        degree: usize,
        coeffs: Coeffs<T>,
        recompute: Option<BoundEstimate<T::Tuning>>,
    ) -> (r: Self)
        requires
            a.wf(),
            a.pattern.nrows == a.pattern.ncols,
            degree >= 1,
            coeffs.is_real(),
        ensures
            r.wf(),
            r.degree == degree,
            r.coeffs == coeffs,
            r.recompute == recompute,
            r.a.pattern.same_as(*a.pattern),
            r.a.values@ == a.values@,
    {
        let pattern: CscPattern = a.pattern.duplicate();
        let values: Vec<T> = copy_values(a.values);
        Poly { degree, a: CscMatrix { pattern, values }, coeffs, recompute }
    }

    /// Refactorise against a new matrix with the same sparsity pattern.
    ///
    /// Updates the stored operator values in place. If the preconditioner was
    /// built via [`Poly::try_new_auto`], the spectral bounds are re-estimated
    /// from the new values; otherwise the coefficients are retained.
    ///
    /// # Errors
    ///
    /// - [`PolyError::PatternMismatch`] if `a`'s shape or column lengths
    ///   disagree with the stored pattern. The values of the columns before the
    ///   first disagreement have then been replaced, the others kept.
    /// - [`PolyError::InvalidBounds`] if the new values yield no usable
    ///   interval. They have then been stored, and the coefficients kept.
    pub fn refactorize(&mut self, a: CscRef<'_, T>) -> (r: Result<(), PolyError>)
        requires
            old(self).wf(),
            a.wf(),
        ensures
            refactorized(*old(self), a, *final(self), r),
    {
        let n: usize = self.a.pattern.ncols;
        let ghost p0 = self.a.pattern;
        let ghost v0 = self.a.values@;
        let ghost nnz = v0.len() as int;
        if a.pattern.nrows != n || a.pattern.ncols != n {
            return Err(PolyError::PatternMismatch);
        }
        let mut j: usize = 0;
        while j < n
            invariant
                n == p0.ncols,
                n == p0.nrows,
                a.wf(),
                a.pattern.nrows == n,
                a.pattern.ncols == n,
                p0.wf(),
                self.a.pattern == p0,
                self.degree == old(self).degree,
                self.coeffs == old(self).coeffs,
                self.recompute == old(self).recompute,
                p0 == old(self).a.pattern,
                v0 == old(self).a.values@,
                nnz == v0.len(),
                self.a.values@.len() == nnz,
                nnz == p0.row_idx@.len(),
                old(self).degree >= 1,
                old(self).coeffs.is_real(),
                j <= n,
                forall|k: int|
                    0 <= k <= j ==> #[trigger] p0.col_ptr@[k] == a.pattern.col_ptr@[k],
                forall|p: int|
                    0 <= p < p0.col_ptr@[j as int] ==> #[trigger] self.a.values@[p] == a.values@[p],
                forall|p: int|
                    p0.col_ptr@[j as int] <= p < nnz ==> #[trigger] self.a.values@[p] == v0[p],
            decreases n - j,
        {
            let start: usize = self.a.pattern.col_ptr[j];
            let end: usize = self.a.pattern.col_ptr[j + 1];
            let a_start: usize = a.pattern.col_ptr[j];
            let a_end: usize = a.pattern.col_ptr[j + 1];
            proof {
                p0.lemma_col_bounds(j as int);
                a.pattern.lemma_col_bounds(j as int);
                assert(p0.col_ptr@[j as int] == a.pattern.col_ptr@[j as int]);
            }
            if end - start != a_end - a_start {
                proof {
                    let k = start as int;
                    assert(a.values@.subrange(0, k) + v0.subrange(k, nnz) =~= self.a.values@);
                    assert(p0.col_ptr@[j + 1] != a.pattern.col_ptr@[j + 1]);
                    assert(lengths_differ_at(p0, *a.pattern, j as int));
                }
                return Err(PolyError::PatternMismatch);
            }
            let mut k: usize = start;
            while k < end
                invariant
                    p0.wf(),
                    a.wf(),
                    start <= k <= end,
                    end <= nnz,
                    end <= a.values@.len(),
                    self.a.pattern == p0,
                    self.degree == old(self).degree,
                    self.coeffs == old(self).coeffs,
                    self.recompute == old(self).recompute,
                    nnz == v0.len(),
                    self.a.values@.len() == nnz,
                    forall|p: int|
                        0 <= p < k ==> #[trigger] self.a.values@[p] == a.values@[p],
                    forall|p: int| k <= p < nnz ==> #[trigger] self.a.values@[p] == v0[p],
                decreases end - k,
            {
                let x: T = a.values[k].copy();
                self.a.values.set(k, x);
                k += 1;
            }
            j += 1;
        }
        proof {
            assert(p0.col_ptr@ =~= a.pattern.col_ptr@);
            assert(p0.col_ptr@[n as int] == a.pattern.col_ptr@[n as int]);
            assert(self.a.values@ =~= a.values@);
        }
        let bounds: Option<(T::Real, T::Real)> = match &self.recompute {
            None => {
                return Ok(());
            },
            Some(est) => resolve_bounds(a, est),
        };
        match bounds {
            Some((lo, hi)) => {
                self.coeffs = Coeffs::Chebyshev {
                    lambda_min: T::from_real(&lo),
                    lambda_max: T::from_real(&hi),
                };
                Ok(())
            },
            None => Err(PolyError::InvalidBounds),
        }
    }

    /// Dimension `n` of the preconditioner.
    pub fn dim(&self) -> (n: usize)
        ensures
            n == self.a.pattern.ncols,
    {
        self.a.pattern.ncols
    }

    /// Polynomial degree.
    pub fn degree(&self) -> (d: usize)
        ensures
            d == self.degree,
    {
        self.degree
    }

    /// View of the stored operator `A`.
    pub fn a_view(&self) -> (r: CscRef<'_, T>)
        ensures
            r@ == self.a_model(),
            self.wf() ==> r.wf(),
    {
        CscRef { pattern: &self.a.pattern, values: self.a.values.as_slice() }
    }
}

} // verus!
