//! Complex matrices: what the conjugated and the adjoint applies do.
use faer_precond::dense::Mat;
use faer_precond::fsai::Fsai;
use faer_precond::ict::{FillControl, Ict, IctParams, RowNorm};
use faer_precond::op::{Op, Preconditioner, Work};
use faer_precond::scalar::{RealScalar, Scalar};
use faer_precond::sparse::{CscMatrix, CscPattern};
use faer_precond::{
    FsaiPattern, Ic0, Ilu0, Iluk, Ilutp, IlutpParams, Poly, PolyKind, PolyParams, Spai,
    SpaiPattern, Ssor, SsorParams,
};

/// Double precision as a matrix entry.
#[derive(Debug, Clone, Copy, PartialEq)]
struct F64(f64);

impl RealScalar for F64 {
    fn null() -> Self {
        F64(0.0)
    }
    fn plus(self, other: Self) -> Self {
        F64(self.0 + other.0)
    }
    fn minus(self, other: Self) -> Self {
        F64(self.0 - other.0)
    }
    fn times(self, other: Self) -> Self {
        F64(self.0 * other.0)
    }
    fn over(self, other: Self) -> Self {
        F64(self.0 / other.0)
    }
    fn reciprocal(self) -> Self {
        F64(self.0.recip())
    }
    fn root(self) -> Self {
        F64(self.0.sqrt())
    }
    fn magnitude(self) -> Self {
        F64(self.0.abs())
    }
    fn below(self, other: Self) -> bool {
        self.0 < other.0
    }
    fn at_most(self, other: Self) -> bool {
        self.0 <= other.0
    }
    fn is_null(self) -> bool {
        self.0 == 0.0
    }
    fn is_finite_spec(self) -> bool {
        self.0.is_finite()
    }
    fn ratio(num: u64, den: u64) -> Self {
        F64(num as f64 / den as f64)
    }
    fn nearest(self) -> usize {
        self.0.round() as usize
    }
    fn below_irreflexive(_a: Self) {}
    fn below_transitive(_a: Self, _b: Self, _c: Self) {}
    fn copy(&self) -> Self {
        *self
    }
    fn zero() -> Self {
        F64(0.0)
    }
    fn add(&self, other: &Self) -> Self {
        RealScalar::plus(*self, *other)
    }
    fn sub(&self, other: &Self) -> Self {
        RealScalar::minus(*self, *other)
    }
    fn mul(&self, other: &Self) -> Self {
        RealScalar::times(*self, *other)
    }
    fn div(&self, other: &Self) -> Self {
        self.over(*other)
    }
    fn recip(&self) -> Self {
        RealScalar::reciprocal(*self)
    }
    fn sqrt(&self) -> Self {
        self.root()
    }
    fn abs(&self) -> Self {
        RealScalar::magnitude(*self)
    }
    fn lt(&self, other: &Self) -> bool {
        self.below(*other)
    }
    fn le(&self, other: &Self) -> bool {
        self.at_most(*other)
    }
    fn is_zero(&self) -> bool {
        self.is_null()
    }
    fn is_finite(&self) -> bool {
        self.is_finite_spec()
    }
    fn from_ratio(num: u64, den: u64) -> Self {
        Self::ratio(num, den)
    }
    fn round_to_usize(&self) -> usize {
        self.nearest()
    }
}

/// A complex matrix entry.
#[derive(Debug, Clone, Copy, PartialEq)]
struct C64 {
    re: f64,
    im: f64,
}

fn c(re: f64, im: f64) -> C64 {
    C64 { re, im }
}

impl Scalar for C64 {
    type Real = F64;
    type Tuning = F64;
    fn null() -> Self {
        c(0.0, 0.0)
    }
    fn unit() -> Self {
        c(1.0, 0.0)
    }
    fn plus(self, other: Self) -> Self {
        c(self.re + other.re, self.im + other.im)
    }
    fn minus(self, other: Self) -> Self {
        c(self.re - other.re, self.im - other.im)
    }
    fn times(self, other: Self) -> Self {
        c(
            self.re * other.re - self.im * other.im,
            self.re * other.im + self.im * other.re,
        )
    }
    fn negated(self) -> Self {
        c(-self.re, -self.im)
    }
    fn reciprocal(self) -> Self {
        let n = self.re * self.re + self.im * self.im;
        c(self.re / n, -self.im / n)
    }
    fn conjugate(self) -> Self {
        c(self.re, -self.im)
    }
    fn real_part(self) -> F64 {
        F64(self.re)
    }
    fn embed(r: F64) -> Self {
        c(r.0, 0.0)
    }
    fn magnitude(self) -> F64 {
        F64(self.re.hypot(self.im))
    }
    fn magnitude_squared(self) -> F64 {
        F64(self.re * self.re + self.im * self.im)
    }
    fn scaled(self, r: F64) -> Self {
        c(self.re * r.0, self.im * r.0)
    }
    fn tuned(p: F64) -> F64 {
        p
    }
    fn copy(&self) -> Self {
        *self
    }
    fn zero() -> Self {
        Self::null()
    }
    fn one() -> Self {
        Self::unit()
    }
    fn add(&self, other: &Self) -> Self {
        self.plus(*other)
    }
    fn sub(&self, other: &Self) -> Self {
        self.minus(*other)
    }
    fn mul(&self, other: &Self) -> Self {
        self.times(*other)
    }
    fn neg(&self) -> Self {
        self.negated()
    }
    fn recip(&self) -> Self {
        self.reciprocal()
    }
    fn conj(&self) -> Self {
        self.conjugate()
    }
    fn re(&self) -> F64 {
        self.real_part()
    }
    fn from_real(r: &F64) -> Self {
        Self::embed(*r)
    }
    fn abs(&self) -> F64 {
        self.magnitude()
    }
    fn abs2(&self) -> F64 {
        self.magnitude_squared()
    }
    fn mul_real(&self, r: &F64) -> Self {
        self.scaled(*r)
    }
    fn from_tuning(p: &F64) -> F64 {
        *p
    }
}

type Rows = Vec<Vec<C64>>;

fn csc(a: &Rows) -> CscMatrix<C64> {
    let n = a.len();
    let mut col_ptr = vec![0];
    let mut row_idx = Vec::new();
    let mut values = Vec::new();
    for j in 0..n {
        for (i, row) in a.iter().enumerate() {
            if row[j] != c(0.0, 0.0) {
                row_idx.push(i);
                values.push(row[j]);
            }
        }
        col_ptr.push(row_idx.len());
    }
    CscMatrix::try_new(CscPattern::try_new(n, n, col_ptr, row_idx).unwrap(), values).unwrap()
}

/// A tridiagonal matrix that is not Hermitian.
fn skew(n: usize) -> Rows {
    let mut a = vec![vec![c(0.0, 0.0); n]; n];
    for i in 0..n {
        a[i][i] = c(4.0, 1.0 + i as f64);
        if i > 0 {
            a[i][i - 1] = c(-1.0, 0.5);
            a[i - 1][i] = c(0.25, -2.0);
        }
    }
    a
}

/// A tridiagonal Hermitian positive definite matrix.
fn hermitian(n: usize) -> Rows {
    let mut a = vec![vec![c(0.0, 0.0); n]; n];
    for i in 0..n {
        a[i][i] = c(4.0 + i as f64, 0.0);
        if i > 0 {
            a[i][i - 1] = c(-1.0, 0.5);
            a[i - 1][i] = c(-1.0, -0.5);
        }
    }
    a
}

fn vector(n: usize) -> Vec<C64> {
    (0..n).map(|i| c(1.0 + i as f64, 2.0 - 0.5 * i as f64)).collect()
}

fn conj(x: &[C64]) -> Vec<C64> {
    x.iter().map(|v| v.conjugate()).collect()
}

/// `op(A) x`.
fn times(a: &Rows, op: Op, x: &[C64]) -> Vec<C64> {
    (0..a.len())
        .map(|i| {
            let mut sum = c(0.0, 0.0);
            for j in 0..a.len() {
                let v = if op.is_transpose() { a[j][i] } else { a[i][j] };
                let v = if op.is_conj() { v.conjugate() } else { v };
                sum = sum.plus(v.times(x[j]));
            }
            sum
        })
        .collect()
}

fn apply<P: Preconditioner<C64>>(pc: &P, op: Op, x: &[C64]) -> Vec<C64> {
    let mut m = Mat::try_new(x.len(), 1, x.to_vec()).unwrap();
    pc.apply_in_place(op, &mut m, &mut Work::new());
    (0..x.len()).map(|i| *m.get(i, 0)).collect()
}

fn assert_close(x: &[C64], y: &[C64]) {
    assert_eq!(x.len(), y.len());
    for (a, b) in x.iter().zip(y) {
        assert!(a.minus(*b).magnitude().0 < 1e-10, "{a:?} != {b:?}");
    }
}

const OPS: [Op; 4] = [Op::Apply, Op::Conj, Op::Transpose, Op::Adjoint];

/// `op(M^{-1})` inverts `op(A)` from both sides.
fn assert_inverts<P: Preconditioner<C64>>(pc: &P, a: &Rows) {
    let x = vector(a.len());
    for op in OPS {
        assert_close(&apply(pc, op, &times(a, op, &x)), &x);
        assert_close(&times(a, op, &apply(pc, op, &x)), &x);
    }
}

/// The conjugated applies are the conjugates of the plain ones.
fn assert_conjugates<P: Preconditioner<C64>>(pc: &P, n: usize) {
    let x = vector(n);
    for (op, plain) in [(Op::Conj, Op::Apply), (Op::Adjoint, Op::Transpose)] {
        assert_close(&apply(pc, op, &conj(&x)), &conj(&apply(pc, plain, &x)));
    }
}

/// Solves a small dense system by elimination.
fn dense_solve(s: &Mat<C64>, e: &Mat<C64>) -> Vec<C64> {
    let n = s.nrows;
    let mut m: Rows =
        (0..n).map(|i| (0..n).map(|j| *s.get(i, j)).chain([*e.get(i, 0)]).collect()).collect();
    for k in 0..n {
        let p = m[k][k].reciprocal();
        for j in k..=n {
            m[k][j] = m[k][j].times(p);
        }
        for i in 0..n {
            if i != k {
                let f = m[i][k];
                for j in k..=n {
                    m[i][j] = m[i][j].minus(f.times(m[k][j]));
                }
            }
        }
    }
    m.iter().map(|row| row[n]).collect()
}

fn llt(s: &Mat<C64>, e: &Mat<C64>) -> Option<Mat<C64>> {
    Mat::try_new(s.nrows, 1, dense_solve(s, e))
}

/// Solves a square block; the pattern of a diagonal matrix gives no other.
fn lstsq(s: &Mat<C64>, e: &Mat<C64>) -> Mat<C64> {
    assert_eq!(s.nrows, s.ncols);
    Mat::try_new(s.ncols, 1, dense_solve(s, e)).unwrap()
}

fn exact_ict() -> IctParams<F64> {
    IctParams { drop_tol: F64(0.0), fill: FillControl::PerRow(100), norm: RowNorm::Two }
}

fn exact_ilutp(pivot_tol: f64) -> IlutpParams<F64> {
    IlutpParams {
        drop_tol: F64(0.0),
        fill: FillControl::PerRow(100),
        pivot_tol: F64(pivot_tol),
        ..IlutpParams::default()
    }
}

#[test]
fn complex_lu_inverts_a_tridiagonal_in_every_form() {
    let a = skew(6);
    let m = csc(&a);
    assert_inverts(&Ilu0::try_new(m.as_ref()).unwrap(), &a);
    assert_inverts(&Iluk::try_new(m.as_ref(), 2).unwrap(), &a);
    assert_inverts(&Ilutp::try_new_with_params(m.as_ref(), exact_ilutp(0.0)).unwrap(), &a);
    assert_inverts(&Ilutp::try_new_with_params(m.as_ref(), exact_ilutp(1.0)).unwrap(), &a);
}

#[test]
fn complex_cholesky_inverts_a_tridiagonal_in_every_form() {
    let a = hermitian(6);
    let m = csc(&a);
    assert_inverts(&Ic0::try_new(m.as_ref()).unwrap(), &a);
    assert_inverts(&Ict::try_new_with_params(m.as_ref(), exact_ict()).unwrap(), &a);
}

#[test]
fn complex_cholesky_reads_the_lower_triangle_only() {
    let a = hermitian(5);
    let mut lower = a.clone();
    for i in 1..5 {
        lower[i - 1][i] = c(0.0, 0.0);
    }
    let m = csc(&lower);
    assert_inverts(&Ic0::try_new(m.as_ref()).unwrap(), &a);
    assert_inverts(&Ict::try_new_with_params(m.as_ref(), exact_ict()).unwrap(), &a);
    let f = Fsai::try_new(m.as_ref(), FsaiPattern::LowerOfPower { power: 5 }, llt).unwrap();
    assert_inverts(&f, &a);
}

#[test]
fn conjugated_applies_are_conjugates() {
    let n = 5;
    let s = csc(&skew(n));
    let h = csc(&hermitian(n));
    assert_conjugates(&Ilu0::try_new(s.as_ref()).unwrap(), n);
    assert_conjugates(&Iluk::try_new(s.as_ref(), 1).unwrap(), n);
    assert_conjugates(&Ilutp::try_new_with_params(s.as_ref(), exact_ilutp(1.0)).unwrap(), n);
    assert_conjugates(&Ssor::try_new(s.as_ref(), SsorParams { omega: F64(1.5) }).unwrap(), n);
    assert_conjugates(&Ic0::try_new(h.as_ref()).unwrap(), n);
    assert_conjugates(&Ict::try_new(h.as_ref()).unwrap(), n);
    assert_conjugates(&Fsai::try_new(h.as_ref(), FsaiPattern::LowerOfA, llt).unwrap(), n);
}

#[test]
fn hermitian_input_makes_the_adjoint_the_apply() {
    let n = 6;
    let x = vector(n);
    let h = csc(&hermitian(n));
    let ssor = Ssor::try_new(h.as_ref(), SsorParams { omega: F64(1.3) }).unwrap();
    assert_close(&apply(&ssor, Op::Adjoint, &x), &apply(&ssor, Op::Apply, &x));
    let s = csc(&skew(n));
    let ssor = Ssor::try_new(s.as_ref(), SsorParams { omega: F64(1.3) }).unwrap();
    let d: f64 = apply(&ssor, Op::Adjoint, &x)
        .iter()
        .zip(apply(&ssor, Op::Apply, &x))
        .map(|(a, b)| a.minus(b).magnitude().0)
        .sum();
    assert!(d > 1e-3);
}

#[test]
fn complex_fsai_has_unit_diagonal_and_annihilates() {
    let n = 6;
    let a = hermitian(n);
    let m = csc(&a);
    let f = Fsai::try_new(m.as_ref(), FsaiPattern::LowerOfA, llt).unwrap();
    let mut g = vec![vec![c(0.0, 0.0); n]; n];
    for j in 0..n {
        for p in f.g.pattern.col_ptr[j]..f.g.pattern.col_ptr[j + 1] {
            g[f.g.pattern.row_idx[p]][j] = f.g.values[p];
        }
    }
    for i in 0..n {
        let left: Vec<C64> = (0..n)
            .map(|j| (0..n).fold(c(0.0, 0.0), |s, r| s.plus(g[i][r].times(a[r][j]))))
            .collect();
        for j in 0..i {
            if g[i][j] != c(0.0, 0.0) {
                assert!(left[j].magnitude().0 < 1e-12);
            }
        }
        let unit = (0..n).fold(c(0.0, 0.0), |s, j| s.plus(left[j].times(g[i][j].conjugate())));
        assert_close(&[unit], &[c(1.0, 0.0)]);
    }
}

#[test]
fn complex_diagonal_is_inverted() {
    let n = 4;
    let mut a = vec![vec![c(0.0, 0.0); n]; n];
    for i in 0..n {
        a[i][i] = c(2.0 + i as f64, 1.0 - i as f64);
    }
    let m = csc(&a);
    let power = SpaiPattern::ColumnsOfPower { power: 3 };
    assert_inverts(&Spai::try_new(m.as_ref(), SpaiPattern::ColumnsOfA, lstsq).unwrap(), &a);
    assert_inverts(&Spai::try_new(m.as_ref(), power, lstsq).unwrap(), &a);
    assert_inverts(&Ssor::try_new(m.as_ref(), SsorParams { omega: F64(1.0) }).unwrap(), &a);
    for (i, row) in a.iter_mut().enumerate() {
        row[i] = c(2.0 + i as f64, 0.0);
    }
    let m = csc(&a);
    assert_inverts(&Fsai::try_new(m.as_ref(), FsaiPattern::LowerOfA, llt).unwrap(), &a);
}

fn polynomials(a: &Rows) -> [Poly<C64>; 2] {
    let neumann = PolyKind::Neumann { omega: F64(0.125) };
    let chebyshev = PolyKind::Chebyshev { lambda_min: F64(2.0), lambda_max: F64(8.0) };
    [neumann, chebyshev]
        .map(|kind| Poly::try_new(csc(a).as_ref(), PolyParams { degree: 4, kind }).unwrap())
}

/// The four forms of `p(A) = I - A / 4` for the rows `(2, i)` and `(-i, 2)`.
#[test]
fn neumann_forms_of_a_hermitian_matrix() {
    let a = vec![vec![c(2.0, 0.0), c(0.0, 1.0)], vec![c(0.0, -1.0), c(2.0, 0.0)]];
    let params = PolyParams { degree: 1, kind: PolyKind::Neumann { omega: F64(0.5) } };
    let pc = Poly::try_new(csc(&a).as_ref(), params).unwrap();
    let b = [c(4.0, 0.0), c(0.0, 0.0)];
    assert_close(&apply(&pc, Op::Apply, &b), &[c(2.0, 0.0), c(0.0, 1.0)]);
    assert_close(&apply(&pc, Op::Adjoint, &b), &[c(2.0, 0.0), c(0.0, 1.0)]);
    assert_close(&apply(&pc, Op::Transpose, &b), &[c(2.0, 0.0), c(0.0, -1.0)]);
    assert_close(&apply(&pc, Op::Conj, &b), &[c(2.0, 0.0), c(0.0, -1.0)]);
}

/// `y^H (M^{-1} x) = (M^{-H} y)^H x`.
#[test]
fn polynomials_conjugate_and_adjoin() {
    let a = skew(5);
    let x = vector(5);
    let y: Vec<C64> = (0..5).map(|i| c(0.5 * i as f64, 1.0 - i as f64)).collect();
    let pairing = |u: &[C64], v: &[C64]| {
        let mut sum = c(0.0, 0.0);
        for (p, q) in u.iter().zip(v) {
            sum = sum.plus(p.times(*q));
        }
        sum
    };
    for pc in polynomials(&a) {
        assert_conjugates(&pc, 5);
        let left = pairing(&conj(&y), &apply(&pc, Op::Apply, &x));
        let right = pairing(&conj(&apply(&pc, Op::Adjoint, &y)), &x);
        assert_close(&[left], &[right]);
    }
}

/// On a Hermitian matrix the adjoint apply is the apply.
#[test]
fn hermitian_polynomials_are_self_adjoint() {
    let a = hermitian(5);
    let x = vector(5);
    for pc in polynomials(&a) {
        assert_close(&apply(&pc, Op::Adjoint, &x), &apply(&pc, Op::Apply, &x));
        assert_close(&apply(&pc, Op::Transpose, &x), &apply(&pc, Op::Conj, &x));
    }
}
