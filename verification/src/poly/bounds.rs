//! The interval that an estimate gives, and what a refactorisation makes of it.
use super::factor::{
    auto_built, built, estimated, floored, interval_coeffs, lengths_differ_at, refactorized, Poly,
};
use super::{BoundEstimate, Coeffs, PolyError, PolyKind, PolyParams};
use crate::reading::{
    is_greatest, is_least, reads_magnitudes, reads_ratios, reads_reals, reads_tuning,
};
use crate::scalar::{RealScalar, Scalar};
use crate::sparse::{CscModel, CscRef};
use crate::util::gershgorin::{disc_bottoms, disc_tops, law_gershgorin_interval};
use crate::util::spd_bounds::{highest, lowest, power_estimate};
use vstd::prelude::*;

verus! {

/// The entry `x` is the real number `r`.
pub open spec fn stands_for<T: Scalar>(v: spec_fn(T::Real) -> real, x: T, r: real) -> bool {
    exists|s: T::Real| x == #[trigger] T::embed(s) && v(s) == r
}

/// The coefficients are those over the interval from `lo` to `hi`.
pub open spec fn spans<T: Scalar>(
    v: spec_fn(T::Real) -> real,
    coeffs: Coeffs<T>,
    lo: real,
    hi: real,
) -> bool {
    coeffs matches Coeffs::Chebyshev { lambda_min, lambda_max } && stands_for(v, lambda_min, lo)
        && stands_for(v, lambda_max, hi)
}

/// The larger of two numbers.
pub open spec fn larger(x: real, y: real) -> real {
    if x < y {
        y
    } else {
        x
    }
}

/// The upper end that `estimate` finds: the highest end of a disc, or the power
/// estimate after the steps asked for, at least one.
pub open spec fn is_upper_end<T: Scalar>(
    v: spec_fn(T::Real) -> real,
    a: CscModel<T>,
    estimate: BoundEstimate<T::Tuning>,
    hi: real,
) -> bool {
    match estimate {
        BoundEstimate::Gershgorin => is_greatest(disc_tops(v, a), a.pattern.nrows as int, hi),
        BoundEstimate::PowerIteration { iters } => if iters == 0 {
            hi == v(power_estimate(a, 1))
        } else {
            hi == v(power_estimate(a, iters as int))
        },
        BoundEstimate::Manual { .. } => false,
    }
}

/// A ratio times its denominator.
proof fn lemma_share(h: real, c: real)
    by (nonlinear_arith)
    requires
        c * 10000real == 1real,
    ensures
        (h * c) * 10000real == h,
{
}

/// The floor is a ten-thousandth of the upper end, and the larger of it and the
/// lower bound is taken.
proof fn lemma_floored<T: Scalar>(
    v: spec_fn(T::Real) -> real,
    w: spec_fn(T::Tuning) -> real,
    glo: T::Real,
    hi: T::Real,
    floor: real,
)
    requires
        reads_reals(v),
        reads_tuning::<T>(v, w),
        reads_ratios(w),
        floor * 10000real == v(hi),
    ensures
        v(floored::<T>(glo, hi)) == larger(v(glo), floor),
{
    let c = w(T::Tuning::ratio(1, 10000));
    assert(c * 10000real == 1real) by {
        reveal(reads_ratios);
        assert(w(T::Tuning::ratio(1, 10000)) * (10000u64 as real) == (1u64 as real));
    }
    lemma_share(v(hi), c);
    reveal(reads_reals);
    reveal(reads_tuning);
    assert(v(hi.times(T::tuned(T::Tuning::ratio(1, 10000)))) == v(hi) * c);
}

/// Equal least values are one value, and so are equal greatest values.
proof fn lemma_ends_unique(f: spec_fn(int) -> real, n: int, x: real, y: real)
    ensures
        is_least(f, n, x) && is_least(f, n, y) ==> x == y,
        is_greatest(f, n, x) && is_greatest(f, n, y) ==> x == y,
{
}

/// The interval of an estimate reaches from the larger of the lowest end `lo` of
/// a Gershgorin disc and a ten-thousandth of the upper end `hi`, up to `hi`, and
/// there is one exactly where `hi` is positive and above that lower end.
pub proof fn law_estimated_interval<T: Scalar>(
    v: spec_fn(T::Real) -> real,
    w: spec_fn(T::Tuning) -> real,
    a: CscModel<T>,
    estimate: BoundEstimate<T::Tuning>,
    lo: real,
    hi: real,
    floor: real,
)
    requires
        reads_reals(v),
        reads_magnitudes::<T>(v),
        reads_tuning::<T>(v, w),
        reads_ratios(w),
        a.wf(),
        a.pattern.nrows == a.pattern.ncols,
        a.pattern.nrows > 0,
        a.pattern.sorted(),
        is_least(disc_bottoms(v, a), a.pattern.nrows as int, lo),
        is_upper_end(v, a, estimate, hi),
        floor * 10000real == hi,
    ensures
        estimated(a, estimate) is Some <==> 0real < hi && larger(lo, floor) < hi,
        estimated(a, estimate) matches Some(b) ==> spans(
            v,
            interval_coeffs::<T>(b),
            larger(lo, floor),
            hi,
        ),
        0real < hi && floor <= lo < hi ==> spans(
            v,
            interval_coeffs::<T>(estimated(a, estimate)->0),
            lo,
            hi,
        ),
{
    let n = a.pattern.nrows as int;
    law_gershgorin_interval(v, a);
    lemma_ends_unique(disc_bottoms(v, a), n, lo, v(lowest(a, n)));
    lemma_ends_unique(disc_tops(v, a), n, hi, v(highest(a, n)));
    let top = match estimate {
        BoundEstimate::PowerIteration { iters } => if iters == 0 {
            power_estimate(a, 1)
        } else {
            power_estimate(a, iters as int)
        },
        _ => highest(a, n),
    };
    assert(v(top) == hi);
    lemma_floored::<T>(v, w, lowest(a, n), top, floor);
    let bottom = floored::<T>(lowest(a, n), top);
    reveal(reads_reals);
    if let Some(b) = estimated(a, estimate) {
        assert(b == (bottom, top));
        assert(T::embed(b.0) == T::embed(bottom));
        assert(T::embed(b.1) == T::embed(top));
    }
}

/// Building with an estimate succeeds exactly where the estimate gives an
/// interval, and iterates over it: from the larger of the lowest end of a disc and
/// a ten-thousandth of the upper end, up to that.
pub proof fn law_auto_interval<T: Scalar>(
    v: spec_fn(T::Real) -> real,
    w: spec_fn(T::Tuning) -> real,
    a: CscRef<'_, T>,
    degree: usize,
    estimate: BoundEstimate<T::Tuning>,
    r: Result<Poly<T>, PolyError>,
    lo: real,
    hi: real,
    floor: real,
)
    requires
        reads_reals(v),
        reads_magnitudes::<T>(v),
        reads_tuning::<T>(v, w),
        reads_ratios(w),
        a.wf(),
        a.pattern.nrows == a.pattern.ncols,
        a.pattern.nrows > 0,
        a.pattern.sorted(),
        degree > 0,
        is_least(disc_bottoms(v, a@), a.pattern.nrows as int, lo),
        is_upper_end(v, a@, estimate, hi),
        floor * 10000real == hi,
        auto_built(a, degree, estimate, r),
    ensures
        r is Ok <==> 0real < hi && larger(lo, floor) < hi,
        r is Err ==> r->Err_0 == PolyError::InvalidBounds,
        r matches Ok(m) ==> spans(v, m.coeffs, larger(lo, floor), hi) && m.degree == degree
            && m.a.values@ == a.values@ && m.a.pattern.same_as(*a.pattern),
{
    law_estimated_interval(v, w, a@, estimate, lo, hi, floor);
}

/// Bounds that the caller gives are taken as they are, by a kind as by an
/// estimate, where they are finite and `0 < lambda_min < lambda_max`, and refused
/// otherwise.
pub proof fn law_given_interval<T: Scalar>(
    v: spec_fn(T::Real) -> real,
    w: spec_fn(T::Tuning) -> real,
    a: CscRef<'_, T>,
    degree: usize,
    lambda_min: T::Tuning,
    lambda_max: T::Tuning,
    r: Result<Poly<T>, PolyError>,
)
    requires
        reads_reals(w),
        reads_tuning::<T>(v, w),
        a.wf(),
        a.pattern.nrows == a.pattern.ncols,
        degree > 0,
        auto_built(a, degree, BoundEstimate::Manual { lambda_min, lambda_max }, r) || built(
            a,
            PolyParams { degree, kind: PolyKind::Chebyshev { lambda_min, lambda_max } },
            r,
        ),
    ensures
        r is Ok <==> lambda_min.is_finite_spec() && lambda_max.is_finite_spec() && 0real < w(
            lambda_min,
        ) < w(lambda_max),
        r is Err ==> r->Err_0 == PolyError::InvalidBounds,
        r matches Ok(m) ==> spans(v, m.coeffs, w(lambda_min), w(lambda_max)) && m.degree == degree
            && m.a.values@ == a.values@ && m.a.pattern.same_as(*a.pattern),
{
    reveal(reads_reals);
    reveal(reads_tuning);
    assert(v(T::tuned(lambda_min)) == w(lambda_min));
    assert(v(T::tuned(lambda_max)) == w(lambda_max));
    assert(T::embed(T::tuned(lambda_min)) == T::embed(T::tuned(lambda_min)));
}

/// The damping factor that the caller gives is taken as it is where it is finite
/// and positive, and refused otherwise.
pub proof fn law_given_damping<T: Scalar>(
    v: spec_fn(T::Real) -> real,
    w: spec_fn(T::Tuning) -> real,
    a: CscRef<'_, T>,
    degree: usize,
    omega: T::Tuning,
    r: Result<Poly<T>, PolyError>,
)
    requires
        reads_reals(w),
        reads_tuning::<T>(v, w),
        a.wf(),
        a.pattern.nrows == a.pattern.ncols,
        degree > 0,
        built(a, PolyParams { degree, kind: PolyKind::Neumann { omega } }, r),
    ensures
        r is Ok <==> omega.is_finite_spec() && 0real < w(omega),
        r is Err ==> r->Err_0 == PolyError::InvalidOmega,
        r matches Ok(m) ==> m.coeffs matches Coeffs::Neumann { omega: x } && stands_for(
            v,
            x,
            w(omega),
        ),
{
    reveal(reads_reals);
    reveal(reads_tuning);
    assert(v(T::tuned(omega)) == w(omega));
    assert(T::embed(T::tuned(omega)) == T::embed(T::tuned(omega)));
}

/// Refactorising what an estimate built does what building anew from the new
/// values does, or fails where that fails.
pub proof fn law_refactorize_rebuilds<T: Scalar>(
    a0: CscRef<'_, T>,
    degree: usize,
    estimate: BoundEstimate<T::Tuning>,
    pre: Poly<T>,
    a: CscRef<'_, T>,
    post: Poly<T>,
    r: Result<(), PolyError>,
    fresh: Result<Poly<T>, PolyError>,
)
    requires
        auto_built(a0, degree, estimate, Ok(pre)),
        a.wf(),
        a.pattern.same_as(*a0.pattern),
        refactorized(pre, a, post, r),
        auto_built(a, degree, estimate, fresh),
    ensures
        r is Ok <==> fresh is Ok,
        post.a.values@ == a.values@,
        fresh matches Ok(m) ==> post.coeffs == m.coeffs && post.degree == m.degree
            && m.a.values@ == post.a.values@ && m.a.pattern.same_as(post.a.pattern),
        fresh is Err ==> post.coeffs == pre.coeffs && r == Err::<(), PolyError>(fresh->Err_0),
{
}

/// Refactorising what was built with given coefficients keeps them, and takes the
/// new values.
pub proof fn law_refactorize_keeps_given<T: Scalar>(
    a0: CscRef<'_, T>,
    params: PolyParams<T::Tuning>,
    pre: Poly<T>,
    a: CscRef<'_, T>,
    post: Poly<T>,
    r: Result<(), PolyError>,
)
    requires
        built(a0, params, Ok(pre)),
        a.wf(),
        a.pattern.same_as(*a0.pattern),
        refactorized(pre, a, post, r),
    ensures
        r is Ok,
        post.coeffs == pre.coeffs,
        post.degree == params.degree,
        post.a.values@ == a.values@,
{
}

/// A refactorisation that is refused for its column lengths has taken over the new
/// values of the columns before the first whose length differs, and kept the other
/// values and the coefficients.
pub proof fn law_mismatch_stops<T: Scalar>(
    pre: Poly<T>,
    a: CscRef<'_, T>,
    post: Poly<T>,
    r: Result<(), PolyError>,
) -> (j: int)
    requires
        pre.wf(),
        a.wf(),
        a.pattern.nrows == pre.a.pattern.nrows,
        a.pattern.ncols == pre.a.pattern.ncols,
        refactorized(pre, a, post, r),
        r == Err::<(), PolyError>(PolyError::PatternMismatch),
    ensures
        0 <= j < a.pattern.ncols,
        a.pattern.end(j) - a.pattern.start(j) != pre.a.pattern.end(j) - pre.a.pattern.start(j),
        forall|k: int|
            0 <= k < j ==> (#[trigger] a.pattern.end(k)) - a.pattern.start(k)
                == pre.a.pattern.end(k) - pre.a.pattern.start(k),
        forall|p: int|
            0 <= p < pre.a.values@.len() ==> #[trigger] post.a.values@[p] == if p
                < pre.a.pattern.start(j) {
                a.values@[p]
            } else {
                pre.a.values@[p]
            },
        post.coeffs == pre.coeffs,
{
    let p = pre.a.pattern;
    let j = choose|j: int| #[trigger]
        lengths_differ_at(p, *a.pattern, j) && post.a.values@ == a.values@.subrange(0, p.start(j))
            + pre.a.values@.subrange(p.start(j), pre.a.values@.len() as int);
    p.lemma_col_bounds(j);
    a.pattern.lemma_col_bounds(j);
    assert(p.col_ptr@[j] == a.pattern.col_ptr@[j]);
    assert forall|k: int| 0 <= k < j implies (#[trigger] a.pattern.end(k)) - a.pattern.start(k)
        == p.end(k) - p.start(k) by {
        assert(p.col_ptr@[k] == a.pattern.col_ptr@[k]);
        assert(p.col_ptr@[k + 1] == a.pattern.col_ptr@[k + 1]);
    }
    j
}

/// A matrix without rows has no interval to estimate.
pub proof fn law_nothing_to_estimate<T: Scalar>(
    a: CscModel<T>,
    estimate: BoundEstimate<T::Tuning>,
)
    requires
        a.pattern.nrows == 0,
        !(estimate is Manual),
    ensures
        estimated(a, estimate) is None,
{
    T::Real::below_irreflexive(T::Real::null());
}

} // verus!
