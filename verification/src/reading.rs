//! Scalars read as the real numbers they stand for.
use crate::scalar::{RealScalar, Scalar};
use vstd::prelude::*;

verus! {

/// The absolute value.
pub open spec fn abs_real(x: real) -> real {
    if x < 0real {
        0real - x
    } else {
        x
    }
}

/// `v` reads every scalar as a real number, and every operation as the operation
/// on real numbers.
#[verifier::opaque]
pub open spec fn reads_reals<R: RealScalar>(v: spec_fn(R) -> real) -> bool {
    &&& v(R::null()) == 0real
    &&& forall|a: R, b: R| #[trigger] v(a.plus(b)) == v(a) + v(b)
    &&& forall|a: R, b: R| #[trigger] v(a.minus(b)) == v(a) - v(b)
    &&& forall|a: R, b: R| #[trigger] v(a.times(b)) == v(a) * v(b)
    &&& forall|a: R, b: R| v(b) != 0real ==> #[trigger] v(a.over(b)) * v(b) == v(a)
    &&& forall|a: R| v(a) != 0real ==> #[trigger] v(a.reciprocal()) * v(a) == 1real
    &&& forall|a: R, b: R| #[trigger] a.below(b) <==> v(a) < v(b)
    &&& forall|a: R, b: R| #[trigger] a.at_most(b) <==> v(a) <= v(b)
    &&& forall|a: R| #[trigger] a.is_null() <==> v(a) == 0real
    &&& v(R::ratio(2, 1)) == 2real
    &&& v(R::ratio(1, 2)) * 2real == 1real
}

/// Magnitudes of the entries are read as absolute values: they multiply, obey
/// the triangle inequality, and are zero for zero only.
#[verifier::opaque]
pub open spec fn reads_magnitudes<T: Scalar>(v: spec_fn(T::Real) -> real) -> bool {
    &&& v(T::null().magnitude()) == 0real
    &&& forall|x: T| 0real <= #[trigger] v(x.magnitude())
    &&& forall|x: T| #[trigger] v(x.magnitude()) == 0real ==> x == T::null()
    &&& forall|x: T, y: T| #[trigger]
        v(x.plus(y).magnitude()) <= v(x.magnitude()) + v(y.magnitude())
    &&& forall|x: T, y: T| #[trigger]
        v(x.times(y).magnitude()) == v(x.magnitude()) * v(y.magnitude())
    &&& forall|r: T::Real| #[trigger] v(T::embed(r).magnitude()) == abs_real(v(r))
    &&& forall|r: T::Real, s: T::Real| #[trigger]
        T::embed(r.minus(s)) == T::embed(r).minus(T::embed(s))
}

/// `v` reads every ratio as the quotient it is built from.
#[verifier::opaque]
pub open spec fn reads_ratios<R: RealScalar>(v: spec_fn(R) -> real) -> bool {
    forall|num: u64, den: u64|
        den > 0 ==> #[trigger] v(R::ratio(num, den)) * (den as real) == (num as real)
}

/// `v` reads the root of a number that is not negative as its square root.
#[verifier::opaque]
pub open spec fn reads_roots<R: RealScalar>(v: spec_fn(R) -> real) -> bool {
    forall|r: R|
        0real <= v(r) ==> 0real <= #[trigger] v(r.root()) && v(r.root()) * v(r.root()) == v(r)
}

/// `v` reads squared magnitudes as the squares of the magnitudes.
#[verifier::opaque]
pub open spec fn reads_squares<T: Scalar>(v: spec_fn(T::Real) -> real) -> bool {
    forall|x: T| #[trigger] v(x.magnitude_squared()) == v(x.magnitude()) * v(x.magnitude())
}

/// The integer nearest to a number within the range of `usize` is at most a half
/// away from it.
#[verifier::opaque]
pub open spec fn reads_nearest<R: RealScalar>(v: spec_fn(R) -> real) -> bool {
    forall|r: R|
        0real <= v(r) <= (usize::MAX as real) ==> within_half(#[trigger] r.nearest() as int, v(r))
}

/// The integer `k` is at most a half away from `x`.
pub open spec fn within_half(k: int, x: real) -> bool {
    2real * x - 1real <= 2real * (k as real) <= 2real * x + 1real
}

/// `v` reads the magnitude of a real scalar as its absolute value.
#[verifier::opaque]
pub open spec fn reads_absolutes<R: RealScalar>(v: spec_fn(R) -> real) -> bool {
    forall|r: R| #[trigger] v(r.magnitude()) == abs_real(v(r))
}

/// Real scalars among the entries: products with them, their conjugates and the
/// real parts of products are what they are for complex numbers.
#[verifier::opaque]
pub open spec fn reads_parts<T: Scalar>(v: spec_fn(T::Real) -> real) -> bool {
    &&& forall|r: T::Real, x: T| #[trigger]
        v(T::embed(r).times(x).real_part()) == v(r) * v(x.real_part())
    &&& forall|x: T| #[trigger]
        v(x.conjugate().times(x).real_part()) == v(x.magnitude()) * v(x.magnitude())
    &&& forall|r: T::Real, s: T::Real| #[trigger]
        T::embed(r.times(s)) == T::embed(r).times(T::embed(s))
    &&& forall|r: T::Real| #[trigger] T::embed(r).conjugate() == T::embed(r)
    &&& forall|r: T::Real, x: T| #[trigger] x.scaled(r) == T::embed(r).times(x)
}

/// `w` reads the tuning parameters, and each stands for the number it is read as.
#[verifier::opaque]
pub open spec fn reads_tuning<T: Scalar>(
    v: spec_fn(T::Real) -> real,
    w: spec_fn(T::Tuning) -> real,
) -> bool {
    forall|p: T::Tuning| #[trigger] v(T::tuned(p)) == w(p)
}

/// `x` is the smallest of the first `n` values of `f`.
pub open spec fn is_least(f: spec_fn(int) -> real, n: int, x: real) -> bool {
    &&& exists|i: int| 0 <= i < n && x == #[trigger] f(i)
    &&& forall|i: int| 0 <= i < n ==> x <= #[trigger] f(i)
}

/// `x` is the largest of the first `n` values of `f`.
pub open spec fn is_greatest(f: spec_fn(int) -> real, n: int, x: real) -> bool {
    &&& exists|i: int| 0 <= i < n && x == #[trigger] f(i)
    &&& forall|i: int| 0 <= i < n ==> #[trigger] f(i) <= x
}

/// The sum of the first `k` terms.
pub open spec fn real_sum(f: spec_fn(int) -> real, k: int) -> real
    decreases k,
{
    if k <= 0 {
        0real
    } else {
        real_sum(f, k - 1) + f(k - 1)
    }
}

} // verus!
