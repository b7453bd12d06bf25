//! Single precision matrices with parameters in double precision.
use faer_precond::scalar::{RealScalar, Scalar};
use faer_precond::sparse::{CscMatrix, CscPattern};
use faer_precond::{
    BoundEstimate, FillControl, Ict, IctError, IctParams, Ilutp, IlutpParams, Poly, PolyError,
    PolyKind, PolyParams, RowNorm, Ssor, SsorError, SsorParams,
};

/// Double precision, for the parameters.
#[derive(Debug, Clone, Copy, PartialEq)]
struct F64(f64);

/// Single precision, for the entries.
#[derive(Debug, Clone, Copy, PartialEq)]
struct F32(f32);

impl RealScalar for F64 {
    fn null() -> Self {
        F64(0.0)
    }
    fn plus(self, other: Self) -> Self {
        F64(self.0 + other.0)
    }
    fn minus(self, other: Self) -> Self {
        F64(self.0 - other.0)
    }
    fn times(self, other: Self) -> Self {
        F64(self.0 * other.0)
    }
    fn over(self, other: Self) -> Self {
        F64(self.0 / other.0)
    }
    fn reciprocal(self) -> Self {
        F64(self.0.recip())
    }
    fn root(self) -> Self {
        F64(self.0.sqrt())
    }
    fn magnitude(self) -> Self {
        F64(self.0.abs())
    }
    fn below(self, other: Self) -> bool {
        self.0 < other.0
    }
    fn at_most(self, other: Self) -> bool {
        self.0 <= other.0
    }
    fn is_null(self) -> bool {
        self.0 == 0.0
    }
    fn is_finite_spec(self) -> bool {
        self.0.is_finite()
    }
    fn ratio(num: u64, den: u64) -> Self {
        F64(num as f64 / den as f64)
    }
    fn nearest(self) -> usize {
        self.0.round() as usize
    }
    fn below_irreflexive(_a: Self) {}
    fn below_transitive(_a: Self, _b: Self, _c: Self) {}
    fn copy(&self) -> Self {
        *self
    }
    fn zero() -> Self {
        F64(0.0)
    }
    fn add(&self, other: &Self) -> Self {
        RealScalar::plus(*self, *other)
    }
    fn sub(&self, other: &Self) -> Self {
        RealScalar::minus(*self, *other)
    }
    fn mul(&self, other: &Self) -> Self {
        RealScalar::times(*self, *other)
    }
    fn div(&self, other: &Self) -> Self {
        self.over(*other)
    }
    fn recip(&self) -> Self {
        RealScalar::reciprocal(*self)
    }
    fn sqrt(&self) -> Self {
        self.root()
    }
    fn abs(&self) -> Self {
        RealScalar::magnitude(*self)
    }
    fn lt(&self, other: &Self) -> bool {
        self.below(*other)
    }
    fn le(&self, other: &Self) -> bool {
        self.at_most(*other)
    }
    fn is_zero(&self) -> bool {
        self.is_null()
    }
    fn is_finite(&self) -> bool {
        self.is_finite_spec()
    }
    fn from_ratio(num: u64, den: u64) -> Self {
        Self::ratio(num, den)
    }
    fn round_to_usize(&self) -> usize {
        self.nearest()
    }
}

impl RealScalar for F32 {
    fn null() -> Self {
        F32(0.0)
    }
    fn plus(self, other: Self) -> Self {
        F32(self.0 + other.0)
    }
    fn minus(self, other: Self) -> Self {
        F32(self.0 - other.0)
    }
    fn times(self, other: Self) -> Self {
        F32(self.0 * other.0)
    }
    fn over(self, other: Self) -> Self {
        F32(self.0 / other.0)
    }
    fn reciprocal(self) -> Self {
        F32(self.0.recip())
    }
    fn root(self) -> Self {
        F32(self.0.sqrt())
    }
    fn magnitude(self) -> Self {
        F32(self.0.abs())
    }
    fn below(self, other: Self) -> bool {
        self.0 < other.0
    }
    fn at_most(self, other: Self) -> bool {
        self.0 <= other.0
    }
    fn is_null(self) -> bool {
        self.0 == 0.0
    }
    fn is_finite_spec(self) -> bool {
        self.0.is_finite()
    }
    fn ratio(num: u64, den: u64) -> Self {
        F32((num as f64 / den as f64) as f32)
    }
    fn nearest(self) -> usize {
        self.0.round() as usize
    }
    fn below_irreflexive(_a: Self) {}
    fn below_transitive(_a: Self, _b: Self, _c: Self) {}
    fn copy(&self) -> Self {
        *self
    }
    fn zero() -> Self {
        F32(0.0)
    }
    fn add(&self, other: &Self) -> Self {
        RealScalar::plus(*self, *other)
    }
    fn sub(&self, other: &Self) -> Self {
        RealScalar::minus(*self, *other)
    }
    fn mul(&self, other: &Self) -> Self {
        RealScalar::times(*self, *other)
    }
    fn div(&self, other: &Self) -> Self {
        self.over(*other)
    }
    fn recip(&self) -> Self {
        RealScalar::reciprocal(*self)
    }
    fn sqrt(&self) -> Self {
        self.root()
    }
    fn abs(&self) -> Self {
        RealScalar::magnitude(*self)
    }
    fn lt(&self, other: &Self) -> bool {
        self.below(*other)
    }
    fn le(&self, other: &Self) -> bool {
        self.at_most(*other)
    }
    fn is_zero(&self) -> bool {
        self.is_null()
    }
    fn is_finite(&self) -> bool {
        self.is_finite_spec()
    }
    fn from_ratio(num: u64, den: u64) -> Self {
        Self::ratio(num, den)
    }
    fn round_to_usize(&self) -> usize {
        self.nearest()
    }
}

impl Scalar for F32 {
    type Real = F32;
    type Tuning = F64;
    fn null() -> Self {
        F32(0.0)
    }
    fn unit() -> Self {
        F32(1.0)
    }
    fn plus(self, other: Self) -> Self {
        F32(self.0 + other.0)
    }
    fn minus(self, other: Self) -> Self {
        F32(self.0 - other.0)
    }
    fn times(self, other: Self) -> Self {
        F32(self.0 * other.0)
    }
    fn negated(self) -> Self {
        F32(-self.0)
    }
    fn reciprocal(self) -> Self {
        F32(self.0.recip())
    }
    fn conjugate(self) -> Self {
        self
    }
    fn real_part(self) -> F32 {
        self
    }
    fn embed(r: F32) -> Self {
        r
    }
    fn magnitude(self) -> F32 {
        F32(self.0.abs())
    }
    fn magnitude_squared(self) -> F32 {
        F32(self.0 * self.0)
    }
    fn scaled(self, r: F32) -> Self {
        F32(self.0 * r.0)
    }
    fn tuned(p: F64) -> F32 {
        F32(p.0 as f32)
    }
    fn copy(&self) -> Self {
        *self
    }
    fn zero() -> Self {
        F32(0.0)
    }
    fn one() -> Self {
        F32(1.0)
    }
    fn add(&self, other: &Self) -> Self {
        Scalar::plus(*self, *other)
    }
    fn sub(&self, other: &Self) -> Self {
        Scalar::minus(*self, *other)
    }
    fn mul(&self, other: &Self) -> Self {
        Scalar::times(*self, *other)
    }
    fn neg(&self) -> Self {
        self.negated()
    }
    fn recip(&self) -> Self {
        Scalar::reciprocal(*self)
    }
    fn conj(&self) -> Self {
        self.conjugate()
    }
    fn re(&self) -> F32 {
        self.real_part()
    }
    fn from_real(r: &F32) -> Self {
        Self::embed(*r)
    }
    fn abs(&self) -> F32 {
        Scalar::magnitude(*self)
    }
    fn abs2(&self) -> F32 {
        self.magnitude_squared()
    }
    fn mul_real(&self, r: &F32) -> Self {
        self.scaled(*r)
    }
    fn from_tuning(p: &F64) -> F32 {
        Self::tuned(*p)
    }
}

/// A dense 3 x 3 matrix.
fn full() -> CscMatrix<F32> {
    let pattern =
        CscPattern::try_new(3, 3, vec![0, 3, 6, 9], vec![0, 1, 2, 0, 1, 2, 0, 1, 2]).unwrap();
    let values = [4.0, 1.0, 0.5, 1.0, 4.0, 1.0, 0.5, 1.0, 4.0].map(F32).to_vec();
    CscMatrix::try_new(pattern, values).unwrap()
}

#[test]
fn budgets_are_rounded_in_double_precision() {
    let fill = FillControl::Factor(F64(0.49999999));
    let params = IctParams { drop_tol: F64(0.0), fill, norm: RowNorm::Two };
    let f = Ict::try_new_with_params(full().as_ref(), params).unwrap();
    assert_eq!(f.l_view().pattern.col_ptr, [0, 2, 4, 5]);
    let params =
        IlutpParams { drop_tol: F64(0.0), fill, pivot_tol: F64(0.0), norm: RowNorm::Two };
    let f = Ilutp::try_new_with_params(full().as_ref(), params).unwrap();
    assert_eq!(f.u_view().pattern.row_idx.len(), 5);
}

#[test]
fn tolerances_are_checked_in_double_precision() {
    let params =
        IctParams { drop_tol: F64(1e300), fill: FillControl::PerRow(3), norm: RowNorm::One };
    let f = Ict::try_new_with_params(full().as_ref(), params).unwrap();
    assert_eq!(f.l_view().pattern.row_idx, [0, 1, 2]);
    let params = IctParams { drop_tol: F64(-1e-300), ..params };
    let error = Ict::try_new_with_params(full().as_ref(), params).unwrap_err();
    assert_eq!(error, IctError::InvalidDropTol);
}

#[test]
fn a_tiny_pivot_tolerance_still_pivots() {
    let pattern = CscPattern::try_new(2, 2, vec![0, 2, 4], vec![0, 1, 0, 1]).unwrap();
    let a = CscMatrix::try_new(pattern, [1.0, 1.0, 2.0, 1.0].map(F32).to_vec()).unwrap();
    let params = IlutpParams {
        drop_tol: F64(0.0),
        fill: FillControl::PerRow(2),
        pivot_tol: F64(1e-300),
        norm: RowNorm::Two,
    };
    assert!(Ilutp::try_new_with_params(a.as_ref(), params).unwrap().is_permuted());
    let params = IlutpParams { pivot_tol: F64(0.0), ..params };
    assert!(!Ilutp::try_new_with_params(a.as_ref(), params).unwrap().is_permuted());
}

#[test]
fn the_relaxation_is_computed_in_double_precision() {
    for omega in [0.3, 0.7, 1.1, 1.3, 1.9] {
        let m = Ssor::try_new(full().as_ref(), SsorParams { omega: F64(omega) }).unwrap();
        let scale = (omega * (2.0 - omega)) as f32;
        assert_eq!(m.scaled_diag[0], F32(scale * 4.0));
        assert_eq!(*m.omega(), F64(omega));
    }
    let almost = SsorParams { omega: F64(1.9999999999) };
    assert!(Ssor::try_new(full().as_ref(), almost).is_ok());
    let error = Ssor::try_new(full().as_ref(), SsorParams { omega: F64(2.0) }).unwrap_err();
    assert_eq!(error, SsorError::InvalidOmega);
}

#[test]
fn bounds_are_compared_in_double_precision() {
    let kind = PolyKind::Chebyshev { lambda_min: F64(1.0), lambda_max: F64(1.0 + 1e-12) };
    assert!(Poly::try_new(full().as_ref(), PolyParams { degree: 1, kind }).is_ok());
    let estimate = BoundEstimate::Manual { lambda_min: F64(1e300), lambda_max: F64(1e301) };
    assert!(Poly::try_new_auto(full().as_ref(), 1, estimate).is_ok());
    let kind = PolyKind::Chebyshev { lambda_min: F64(2.0), lambda_max: F64(1.0) };
    let error = Poly::try_new(full().as_ref(), PolyParams { degree: 1, kind }).unwrap_err();
    assert_eq!(error, PolyError::InvalidBounds);
}
