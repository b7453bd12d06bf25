//! The incomplete factorisations: ILU(0), ILU(k), ILUTP, IC(0) and ICT.
#![allow(dead_code)]
use faer::sparse::{SparseColMat, Triplet};
use faer::Mat;
use faer_precond::dense::Mat as Dense;
use faer_precond::op::{Op, Preconditioner, Work};
use faer_precond::scalar::{RealScalar, Scalar};
use faer_precond::sparse::{CscMatrix, CscPattern, CscRef};
use faer_precond::{
    FillControl, Fsai, FsaiError, FsaiPattern, Ic0, Ic0Error, Ict, IctError, IctParams, Ilu0,
    Ilu0Error, Iluk, IlukError, IlukParams, Ilutp, IlutpError, IlutpParams, RowNorm, Spai,
    SpaiError, SpaiPattern, Ssor, SsorError, SsorParams, SymbolicIc0, SymbolicIlu0, SymbolicIluk,
};

/// Double precision as a matrix entry.
#[derive(Debug, Clone, Copy, PartialEq)]
struct F64(f64);

impl RealScalar for F64 {
    fn null() -> Self {
        F64(0.0)
    }
    fn plus(self, other: Self) -> Self {
        F64(self.0 + other.0)
    }
    fn minus(self, other: Self) -> Self {
        F64(self.0 - other.0)
    }
    fn times(self, other: Self) -> Self {
        F64(self.0 * other.0)
    }
    fn over(self, other: Self) -> Self {
        F64(self.0 / other.0)
    }
    fn reciprocal(self) -> Self {
        F64(self.0.recip())
    }
    fn root(self) -> Self {
        F64(self.0.sqrt())
    }
    fn magnitude(self) -> Self {
        F64(self.0.abs())
    }
    fn below(self, other: Self) -> bool {
        self.0 < other.0
    }
    fn at_most(self, other: Self) -> bool {
        self.0 <= other.0
    }
    fn is_null(self) -> bool {
        self.0 == 0.0
    }
    fn is_finite_spec(self) -> bool {
        self.0.is_finite()
    }
    fn ratio(num: u64, den: u64) -> Self {
        F64(num as f64 / den as f64)
    }
    fn nearest(self) -> usize {
        self.0.round() as usize
    }
    fn below_irreflexive(_a: Self) {}
    fn below_transitive(_a: Self, _b: Self, _c: Self) {}
    fn copy(&self) -> Self {
        *self
    }
    fn zero() -> Self {
        F64(0.0)
    }
    fn add(&self, other: &Self) -> Self {
        RealScalar::plus(*self, *other)
    }
    fn sub(&self, other: &Self) -> Self {
        RealScalar::minus(*self, *other)
    }
    fn mul(&self, other: &Self) -> Self {
        RealScalar::times(*self, *other)
    }
    fn div(&self, other: &Self) -> Self {
        self.over(*other)
    }
    fn recip(&self) -> Self {
        RealScalar::reciprocal(*self)
    }
    fn sqrt(&self) -> Self {
        self.root()
    }
    fn abs(&self) -> Self {
        RealScalar::magnitude(*self)
    }
    fn lt(&self, other: &Self) -> bool {
        self.below(*other)
    }
    fn le(&self, other: &Self) -> bool {
        self.at_most(*other)
    }
    fn is_zero(&self) -> bool {
        self.is_null()
    }
    fn is_finite(&self) -> bool {
        self.is_finite_spec()
    }
    fn from_ratio(num: u64, den: u64) -> Self {
        Self::ratio(num, den)
    }
    fn round_to_usize(&self) -> usize {
        self.nearest()
    }
}

impl Scalar for F64 {
    type Real = F64;
    type Tuning = F64;
    fn null() -> Self {
        F64(0.0)
    }
    fn unit() -> Self {
        F64(1.0)
    }
    fn plus(self, other: Self) -> Self {
        F64(self.0 + other.0)
    }
    fn minus(self, other: Self) -> Self {
        F64(self.0 - other.0)
    }
    fn times(self, other: Self) -> Self {
        F64(self.0 * other.0)
    }
    fn negated(self) -> Self {
        F64(-self.0)
    }
    fn reciprocal(self) -> Self {
        F64(self.0.recip())
    }
    fn conjugate(self) -> Self {
        self
    }
    fn real_part(self) -> F64 {
        self
    }
    fn embed(r: F64) -> Self {
        r
    }
    fn magnitude(self) -> F64 {
        F64(self.0.abs())
    }
    fn magnitude_squared(self) -> F64 {
        F64(self.0 * self.0)
    }
    fn scaled(self, r: F64) -> Self {
        F64(self.0 * r.0)
    }
    fn tuned(p: F64) -> F64 {
        p
    }
    fn copy(&self) -> Self {
        *self
    }
    fn zero() -> Self {
        F64(0.0)
    }
    fn one() -> Self {
        F64(1.0)
    }
    fn add(&self, other: &Self) -> Self {
        Scalar::plus(*self, *other)
    }
    fn sub(&self, other: &Self) -> Self {
        Scalar::minus(*self, *other)
    }
    fn mul(&self, other: &Self) -> Self {
        Scalar::times(*self, *other)
    }
    fn neg(&self) -> Self {
        self.negated()
    }
    fn recip(&self) -> Self {
        Scalar::reciprocal(*self)
    }
    fn conj(&self) -> Self {
        self.conjugate()
    }
    fn re(&self) -> F64 {
        self.real_part()
    }
    fn from_real(r: &F64) -> Self {
        Self::embed(*r)
    }
    fn abs(&self) -> F64 {
        Scalar::magnitude(*self)
    }
    fn abs2(&self) -> F64 {
        self.magnitude_squared()
    }
    fn mul_real(&self, r: &F64) -> Self {
        self.scaled(*r)
    }
    fn from_tuning(p: &F64) -> F64 {
        *p
    }
}

type Sparse = SparseColMat<usize, f64>;

/// The matrix as this library stores it.
fn csc(a: &Sparse) -> CscMatrix<F64> {
    let a = a.as_ref();
    let mut col_ptr = vec![0];
    let mut row_idx = Vec::new();
    let mut values = Vec::new();
    for j in 0..a.ncols() {
        for (r, v) in a.symbolic().row_idx_of_col_raw(j).iter().zip(a.val_of_col(j)) {
            row_idx.push(*r);
            values.push(F64(*v));
        }
        col_ptr.push(row_idx.len());
    }
    let pattern = CscPattern::try_new(a.nrows(), a.ncols(), col_ptr, row_idx).unwrap();
    CscMatrix::try_new(pattern, values).unwrap()
}

fn to_library(m: &Mat<f64>) -> Dense<F64> {
    let mut data = Vec::new();
    for j in 0..m.ncols() {
        for i in 0..m.nrows() {
            data.push(F64(m[(i, j)]));
        }
    }
    Dense::try_new(m.nrows(), m.ncols(), data).unwrap()
}

fn from_library(m: &Dense<F64>) -> Mat<f64> {
    Mat::from_fn(m.nrows, m.ncols, |i, j| m.get(i, j).0)
}

fn apply_in_place<P: Preconditioner<F64>>(pc: &P, op: Op, rhs: &mut Mat<f64>) {
    let mut m = to_library(rhs);
    pc.apply_in_place(op, &mut m, &mut Work::new());
    *rhs = from_library(&m);
}

fn apply<P: Preconditioner<F64>>(pc: &P, op: Op, rhs: &Mat<f64>) -> Mat<f64> {
    let mut out = to_library(&Mat::zeros(rhs.nrows(), rhs.ncols()));
    pc.apply(op, &mut out, &to_library(rhs), &mut Work::new());
    from_library(&out)
}

fn assert_close(lhs: &Mat<f64>, rhs: &Mat<f64>, tol: f64) {
    assert_eq!(lhs.nrows(), rhs.nrows());
    assert_eq!(lhs.ncols(), rhs.ncols());
    for j in 0..lhs.ncols() {
        for i in 0..lhs.nrows() {
            let diff = (lhs[(i, j)] - rhs[(i, j)]).abs();
            assert!(diff <= tol, "mismatch at ({i}, {j}): diff={diff}");
        }
    }
}

fn column(x: &[f64]) -> Mat<f64> {
    Mat::from_fn(x.len(), 1, |i, _| x[i])
}

fn to_dense(a: &Sparse) -> Mat<f64> {
    view_to_dense(csc(a).as_ref())
}

fn view_to_dense(a: CscRef<'_, F64>) -> Mat<f64> {
    let mut dense = Mat::zeros(a.pattern.nrows, a.pattern.ncols);
    for j in 0..a.pattern.ncols {
        for p in a.pattern.col_ptr[j]..a.pattern.col_ptr[j + 1] {
            dense[(a.pattern.row_idx[p], j)] = a.values[p].0;
        }
    }
    dense
}

fn norm(x: &Mat<f64>) -> f64 {
    let mut sum = 0.0;
    for i in 0..x.nrows() {
        sum += x[(i, 0)] * x[(i, 0)];
    }
    sum.sqrt()
}

fn residual_ratio<P: Preconditioner<F64>>(a: &Sparse, pc: &P, b: &Mat<f64>) -> f64 {
    let mut x = b.clone();
    apply_in_place(pc, Op::Apply, &mut x);
    norm(&(&to_dense(a) * &x - b)) / norm(b)
}

fn from_triplets(n: usize, m: usize, t: &[Triplet<usize, usize, f64>]) -> Sparse {
    SparseColMat::try_new_from_triplets(n, m, t).unwrap()
}

/// A matrix with `diag` on the diagonal, `sub` below it and `sup` above it.
fn tridiagonal(n: usize, diag: f64, sub: f64, sup: f64) -> Sparse {
    let mut t = Vec::new();
    for i in 0..n {
        t.push(Triplet::new(i, i, diag));
        if i > 0 {
            t.push(Triplet::new(i, i - 1, sub));
            t.push(Triplet::new(i - 1, i, sup));
        }
    }
    from_triplets(n, n, &t)
}

/// The 5-point stencil on a `grid x grid` mesh with an added first-derivative
/// term of strength `beta`; `beta = 0` is the Laplacian.
fn advection_diffusion_2d(grid: usize, diag: f64, beta: f64) -> Sparse {
    let mut t = Vec::new();
    for gy in 0..grid {
        for gx in 0..grid {
            let idx = gy * grid + gx;
            t.push(Triplet::new(idx, idx, diag));
            if gx > 0 {
                t.push(Triplet::new(idx, idx - 1, -1.0 - beta));
            }
            if gx + 1 < grid {
                t.push(Triplet::new(idx, idx + 1, -1.0 + beta));
            }
            if gy > 0 {
                t.push(Triplet::new(idx, idx - grid, -1.0));
            }
            if gy + 1 < grid {
                t.push(Triplet::new(idx, idx + grid, -1.0));
            }
        }
    }
    from_triplets(grid * grid, grid * grid, &t)
}

fn laplacian_2d(grid: usize) -> Sparse {
    advection_diffusion_2d(grid, 4.0, 0.0)
}

/// Three diagonal entries in a matrix of three rows and four columns.
fn not_square() -> Sparse {
    let t: Vec<_> = (0..3).map(|i| Triplet::new(i, i, 1.0)).collect();
    from_triplets(3, 4, &t)
}

fn cyclic_rhs(n: usize) -> Mat<f64> {
    Mat::from_fn(n, 1, |i, _| (i % 7) as f64 - 3.0)
}

fn mat_to_sparse(rows: &[&[f64]]) -> Sparse {
    let mut t = Vec::new();
    for (i, row) in rows.iter().enumerate() {
        for (j, &v) in row.iter().enumerate() {
            if v != 0.0 {
                t.push(Triplet::new(i, j, v));
            }
        }
    }
    from_triplets(rows.len(), rows.len(), &t)
}

fn values_close(lhs: &[F64], rhs: &[F64], tol: f64) {
    assert_eq!(lhs.len(), rhs.len());
    for (a, b) in lhs.iter().zip(rhs) {
        assert!((a.0 - b.0).abs() < tol);
    }
}

/// `L * U` agrees with `A` wherever `A` stores an entry.
fn assert_pattern_equation(a: &Sparse, lu: &Mat<f64>, tol: f64) {
    let dense = to_dense(a);
    let m = csc(a);
    for j in 0..a.ncols() {
        for p in m.pattern.col_ptr[j]..m.pattern.col_ptr[j + 1] {
            let i = m.pattern.row_idx[p];
            let diff = (lu[(i, j)] - dense[(i, j)]).abs();
            assert!(diff <= tol, "L*U disagrees with A at ({i},{j}): {diff}");
        }
    }
}

const X5: [f64; 5] = [1.0, -2.0, 3.0, -1.0, 0.5];
const X6: [f64; 6] = [1.0, -2.0, 3.0, -1.0, 0.5, 2.0];
const X8: [f64; 8] = [1.0, -2.0, 3.0, -1.0, 0.5, 2.0, -3.0, 1.5];

// ILU(0)

#[test]
fn ilu0_tridiagonal_matches_exact_inverse() {
    let a = tridiagonal(5, 4.0, -1.0, -1.0);
    let pc = Ilu0::try_new(csc(&a).as_ref()).unwrap();
    let x_true = column(&X5);
    let mut rhs = &to_dense(&a) * &x_true;
    apply_in_place(&pc, Op::Apply, &mut rhs);
    assert_close(&rhs, &x_true, 1e-12);
}

#[test]
fn ilu0_factor_satisfies_pattern_equation() {
    let a = laplacian_2d(4);
    let pc = Ilu0::try_new(csc(&a).as_ref()).unwrap();
    let lu = &view_to_dense(pc.l_view()) * &view_to_dense(pc.u_view());
    assert_pattern_equation(&a, &lu, 1e-12);
}

#[test]
fn ilu0_reduces_residual_significantly() {
    let a = laplacian_2d(8);
    let pc = Ilu0::try_new(csc(&a).as_ref()).unwrap();
    assert!(residual_ratio(&a, &pc, &cyclic_rhs(64)) < 0.5);
}

#[test]
fn ilu0_exposes_its_shape() {
    let a = csc(&tridiagonal(5, 4.0, -1.0, -1.0));
    let s = SymbolicIlu0::try_new(&a.pattern).unwrap();
    assert_eq!((s.dim(), s.a_nnz(), s.l_nnz(), s.u_nnz()), (5, 13, 9, 9));
    let empty = Ilu0::<F64>::new_with_symbolic(s);
    assert_eq!(empty.dim(), 5);
    assert_eq!(empty.symbolic().l_nnz(), 9);
    assert_eq!((empty.nrows(), empty.ncols()), (5, 5));
    assert!(empty.l_view().values.iter().all(|v| v.0 == 0.0));
}

#[test]
fn ilu0_rejects_zero_pivot_and_unsorted_rows() {
    let a = mat_to_sparse(&[&[1.0, 2.0], &[2.0, 4.0]]);
    assert_eq!(
        Ilu0::try_new(csc(&a).as_ref()).unwrap_err(),
        Ilu0Error::ZeroPivot { col: 1 }
    );
    let p = CscPattern::try_new(2, 2, vec![0, 2, 3], vec![1, 0, 1]).unwrap();
    assert_eq!(
        SymbolicIlu0::try_new(&p).unwrap_err(),
        Ilu0Error::UnsortedRowIndices { col: 0 }
    );
}

#[test]
fn ilu0_zero_fill_keeps_the_pattern() {
    let a = csc(&laplacian_2d(4));
    let s = SymbolicIlu0::try_new(&a.pattern).unwrap();
    for j in 0..16 {
        let rows = &a.pattern.row_idx[a.pattern.col_ptr[j]..a.pattern.col_ptr[j + 1]];
        let mut both = s.u.row_idx[s.u.col_ptr[j]..s.u.col_ptr[j + 1]].to_vec();
        both.extend_from_slice(&s.l.row_idx[s.l.col_ptr[j] + 1..s.l.col_ptr[j + 1]]);
        assert_eq!(both, rows);
    }
}

// ILU(k)

#[test]
fn level_zero_matches_ilu0_pattern() {
    let a = csc(&laplacian_2d(5));
    let sk = SymbolicIluk::try_new(&a.pattern, 0).unwrap();
    let s0 = SymbolicIlu0::try_new(&a.pattern).unwrap();
    assert_eq!(sk.l.col_ptr, s0.l.col_ptr);
    assert_eq!(sk.l.row_idx, s0.l.row_idx);
    assert_eq!(sk.u.col_ptr, s0.u.col_ptr);
    assert_eq!(sk.u.row_idx, s0.u.row_idx);
}

#[test]
fn level_zero_matches_ilu0_values() {
    let a = csc(&advection_diffusion_2d(5, 4.0, 0.3));
    let fk = Iluk::try_new(a.as_ref(), 0).unwrap();
    let f0 = Ilu0::try_new(a.as_ref()).unwrap();
    assert_eq!(fk.l_view().values, f0.l_view().values);
    assert_eq!(fk.u_view().values, f0.u_view().values);
}

#[test]
fn level_one_grows_the_pattern() {
    let a = csc(&laplacian_2d(5));
    let s0 = SymbolicIluk::try_new(&a.pattern, 0).unwrap();
    let s1 = SymbolicIluk::try_new(&a.pattern, 1).unwrap();
    assert!(
        s1.l_nnz() + s1.u_nnz() > s0.l_nnz() + s0.u_nnz(),
        "ILU(1) should introduce fill over ILU(0)"
    );
}

#[test]
fn factor_matches_a_on_its_own_pattern() {
    let a = laplacian_2d(5);
    let pc = Iluk::try_new(csc(&a).as_ref(), 1).unwrap();
    let lu = &view_to_dense(pc.l_view()) * &view_to_dense(pc.u_view());
    assert_pattern_equation(&a, &lu, 1e-10);
}

#[test]
fn tridiagonal_is_exact() {
    let a = tridiagonal(6, 4.0, -1.0, -1.0);
    let pc = Iluk::try_new(csc(&a).as_ref(), 2).unwrap();
    let x_true = column(&X6);
    let mut rhs = &to_dense(&a) * &x_true;
    apply_in_place(&pc, Op::Apply, &mut rhs);
    assert_close(&rhs, &x_true, 1e-12);
}

#[test]
fn iluk_rejects_zero_pivot_and_mismatch() {
    let a = mat_to_sparse(&[&[1.0, 2.0], &[2.0, 4.0]]);
    assert_eq!(
        Iluk::try_new(csc(&a).as_ref(), 1).unwrap_err(),
        IlukError::ZeroPivot { col: 1 }
    );
    let mut pc = Iluk::try_new(csc(&tridiagonal(4, 4.0, -1.0, -1.0)).as_ref(), 1).unwrap();
    assert_eq!(
        pc.refactorize(csc(&tridiagonal(5, 4.0, -1.0, -1.0)).as_ref()).unwrap_err(),
        IlukError::PatternMismatch
    );
    assert_eq!(IlukParams::default().level, 1);
}

// IC(0)

#[test]
fn ic0_tridiagonal_matches_exact_inverse() {
    let a = tridiagonal(5, 4.0, -1.0, -1.0);
    let pc = Ic0::try_new(csc(&a).as_ref()).unwrap();
    let x_true = column(&X5);
    let mut rhs = &to_dense(&a) * &x_true;
    apply_in_place(&pc, Op::Apply, &mut rhs);
    assert_close(&rhs, &x_true, 1e-12);
}

#[test]
fn ic0_factor_satisfies_pattern_equation_lower_triangle() {
    let a = laplacian_2d(4);
    let pc = Ic0::try_new(csc(&a).as_ref()).unwrap();
    let l = view_to_dense(pc.l_view());
    let llt = &l * l.transpose();
    let dense = to_dense(&a);
    let m = csc(&a);
    for j in 0..a.ncols() {
        for p in m.pattern.col_ptr[j]..m.pattern.col_ptr[j + 1] {
            let i = m.pattern.row_idx[p];
            if i < j {
                continue;
            }
            let diff = (llt[(i, j)] - dense[(i, j)]).abs();
            assert!(diff <= 1e-12, "L*L^T disagrees with A at ({i},{j}): {diff}");
        }
    }
}

#[test]
fn ic0_l_has_positive_diagonal() {
    let pc = Ic0::try_new(csc(&laplacian_2d(5)).as_ref()).unwrap();
    let l = pc.l_view();
    for j in 0..l.pattern.ncols {
        let diag = l.values[l.pattern.col_ptr[j]].0;
        assert!(diag > 0.0, "L[{j},{j}] = {diag} should be positive");
    }
}

#[test]
fn ic0_reduces_residual_significantly() {
    let a = laplacian_2d(8);
    let pc = Ic0::try_new(csc(&a).as_ref()).unwrap();
    assert!(residual_ratio(&a, &pc, &cyclic_rhs(64)) < 0.5);
}

#[test]
fn transpose_and_adjoint_match_apply_for_real_spd() {
    let pc = Ic0::try_new(csc(&tridiagonal(6, 4.0, -1.0, -1.0)).as_ref()).unwrap();
    let rhs = column(&[1.0, 2.0, 3.0, -1.0, 0.5, -2.0]);
    let x = apply(&pc, Op::Apply, &rhs);
    assert_close(&x, &apply(&pc, Op::Transpose, &rhs), 1e-12);
    assert_close(&x, &apply(&pc, Op::Adjoint, &rhs), 1e-12);
}

#[test]
fn rejects_indefinite_matrix() {
    let a = from_triplets(2, 2, &[Triplet::new(0, 0, 1.0), Triplet::new(1, 1, -1.0)]);
    assert_eq!(
        Ic0::try_new(csc(&a).as_ref()).unwrap_err(),
        Ic0Error::NotPositiveDefinite { col: 1 }
    );
}

#[test]
fn ic0_ignores_the_upper_triangle() {
    let full = csc(&tridiagonal(6, 4.0, -1.0, -1.0));
    let other = csc(&tridiagonal(6, 4.0, -1.0, 7.5));
    let f = Ic0::try_new(full.as_ref()).unwrap();
    let g = Ic0::try_new(other.as_ref()).unwrap();
    assert_eq!(f.l_view().values, g.l_view().values);
    let s = SymbolicIc0::try_new(&full.pattern).unwrap();
    assert_eq!((s.dim(), s.l_nnz()), (6, 11));
}

// ICT

/// `drop_tol = 0` and a large fill budget keep everything.
fn exact_ict(n: usize) -> IctParams<F64> {
    IctParams { drop_tol: F64(0.0), fill: FillControl::PerRow(n), norm: RowNorm::Two }
}

#[test]
fn exact_keep_inverts_tridiagonal() {
    let a = tridiagonal(7, 4.0, -1.0, -1.0);
    let pc = Ict::try_new_with_params(csc(&a).as_ref(), exact_ict(7)).unwrap();
    let x_true = column(&[1.0, -2.0, 3.0, -1.0, 0.5, 2.0, -1.5]);
    let mut rhs = &to_dense(&a) * &x_true;
    apply_in_place(&pc, Op::Apply, &mut rhs);
    assert_close(&rhs, &x_true, 1e-10);
}

#[test]
fn exact_keep_reconstructs_laplacian() {
    let a = laplacian_2d(4);
    let pc = Ict::try_new_with_params(csc(&a).as_ref(), exact_ict(16)).unwrap();
    let x_true = Mat::from_fn(16, 1, |i, _| (i % 5) as f64 - 2.0);
    let mut rhs = &to_dense(&a) * &x_true;
    apply_in_place(&pc, Op::Apply, &mut rhs);
    assert_close(&rhs, &x_true, 1e-8);
    let l = view_to_dense(pc.l_view());
    assert_close(&(&l * l.transpose()), &to_dense(&a), 1e-9);
}

#[test]
fn symmetric_transpose_equals_apply() {
    let pc = Ict::try_new(csc(&tridiagonal(6, 4.0, -1.0, -1.0)).as_ref()).unwrap();
    let rhs = column(&[1.0, -2.0, 3.0, 0.5, -1.0, 2.0]);
    assert_close(&apply(&pc, Op::Apply, &rhs), &apply(&pc, Op::Transpose, &rhs), 1e-12);
}

#[test]
fn rejects_non_positive_definite() {
    let a = mat_to_sparse(&[&[1.0, 2.0], &[2.0, 1.0]]);
    assert_eq!(
        Ict::try_new(csc(&a).as_ref()).unwrap_err(),
        IctError::NotPositiveDefinite { col: 1 }
    );
}

#[test]
fn ict_budget_bounds_the_columns() {
    let a = csc(&laplacian_2d(6));
    let params = IctParams { drop_tol: F64(0.0), fill: FillControl::PerRow(2), norm: RowNorm::One };
    let pc = Ict::try_new_with_params(a.as_ref(), params).unwrap();
    let l = pc.l_view();
    for j in 0..36 {
        assert!(l.pattern.col_ptr[j + 1] - l.pattern.col_ptr[j] <= 3);
    }
    assert_eq!(pc.dim(), 36);
}

/// A lower triangle whose first column is stored in the order `rows`.
fn star(rows: [usize; 3]) -> CscMatrix<F64> {
    let mut row_idx = vec![0];
    row_idx.extend(rows);
    row_idx.extend([1, 2, 3]);
    let pattern = CscPattern::try_new(4, 4, vec![0, 4, 5, 6, 7], row_idx).unwrap();
    let values = [4.0, -1.0, -1.0, -1.0, 4.0, 4.0, 4.0].map(F64).to_vec();
    CscMatrix::try_new(pattern, values).unwrap()
}

#[test]
fn ict_keeps_the_first_of_equal_entries() {
    let params = IctParams { fill: FillControl::PerRow(2), ..exact_ict(4) };
    for (rows, kept) in [([1, 2, 3], [1, 2]), ([3, 1, 2], [1, 3]), ([2, 3, 1], [2, 3])] {
        let pc = Ict::try_new_with_params(star(rows).as_ref(), params).unwrap();
        let l = pc.l_view();
        assert_eq!(l.pattern.row_idx[0], 0);
        assert_eq!(l.pattern.row_idx[1..3], kept);
        assert_eq!(l.values[0], F64(2.0));
        assert_eq!(l.values[1..3], [F64(-0.5), F64(-0.5)]);
    }
}

#[test]
fn ict_subtracts_the_last_column_first() {
    let (a00, a10, a20, a11, a21, a22): (f64, f64, f64, f64, f64, f64) = (2.8, 1.3, 2.3, 7.3, 2.8, 5.5);
    let a = mat_to_sparse(&[&[a00, a10, a20], &[a10, a11, a21], &[a20, a21, a22]]);
    let pc = Ict::try_new_with_params(csc(&a).as_ref(), exact_ict(3)).unwrap();
    let inv = a00.sqrt().recip();
    let (l10, l20) = (a10 * inv, a20 * inv);
    let l11 = (a11 - l10 * l10).sqrt();
    let l21 = (a21 - l20 * l10) * l11.recip();
    let l22 = (a22 - l21 * l21 - l20 * l20).sqrt();
    assert_eq!(pc.l_view().values[5], F64(l22));
    assert_ne!(l22, (a22 - l20 * l20 - l21 * l21).sqrt());
}

#[test]
fn ict_reads_the_lower_triangle() {
    let full = laplacian_2d(4);
    let dense = to_dense(&full);
    let mut t = Vec::new();
    for j in 0..16 {
        for i in 0..16 {
            if i >= j && dense[(i, j)] != 0.0 {
                t.push(Triplet::new(i, j, dense[(i, j)]));
            }
        }
    }
    let lower = from_triplets(16, 16, &t);
    t.push(Triplet::new(0, 15, 100.0));
    t.push(Triplet::new(2, 3, -7.0));
    let other = from_triplets(16, 16, &t);
    let params = IctParams { drop_tol: F64(1e-2), fill: FillControl::PerRow(3), norm: RowNorm::One };
    let f = Ict::try_new_with_params(csc(&full).as_ref(), params).unwrap();
    for a in [lower, other] {
        let g = Ict::try_new_with_params(csc(&a).as_ref(), params).unwrap();
        assert_eq!(f.l_view().pattern.col_ptr, g.l_view().pattern.col_ptr);
        assert_eq!(f.l_view().pattern.row_idx, g.l_view().pattern.row_idx);
        assert_eq!(f.l_view().values, g.l_view().values);
    }
    let a = mat_to_sparse(&[&[1.0, 2.0], &[2.0, 1.0]]);
    let b = mat_to_sparse(&[&[1.0, 0.0], &[2.0, 1.0]]);
    assert_eq!(
        Ict::try_new_with_params(csc(&a).as_ref(), params).unwrap_err(),
        Ict::try_new_with_params(csc(&b).as_ref(), params).unwrap_err()
    );
}

#[test]
fn ict_refactorize_matches_fresh() {
    let params = IctParams { drop_tol: F64(1e-2), fill: FillControl::PerRow(3), norm: RowNorm::Two };
    let a = csc(&laplacian_2d(3));
    let mut pc = Ict::try_new_with_params(csc(&tridiagonal(9, 4.0, -1.0, -1.0)).as_ref(), params).unwrap();
    let small = csc(&tridiagonal(4, 4.0, -1.0, -1.0));
    assert_eq!(pc.refactorize(small.as_ref()).unwrap_err(), IctError::PatternMismatch);
    let bad = csc(&tridiagonal(9, 1.0, -2.0, -2.0));
    let error = pc.refactorize(bad.as_ref()).unwrap_err();
    assert_eq!(error, IctError::NotPositiveDefinite { col: 1 });
    assert_eq!(error, Ict::try_new_with_params(bad.as_ref(), params).unwrap_err());
    assert_eq!((pc.dim(), pc.l.ncols, pc.l.nrows), (9, 1, 9));
    assert_eq!(pc.l.row_idx, [0, 1]);
    assert_eq!(pc.l_values, [F64(1.0), F64(-2.0)]);
    pc.refactorize(a.as_ref()).unwrap();
    let fresh = Ict::try_new_with_params(a.as_ref(), params).unwrap();
    assert_eq!(pc.l_view().pattern.col_ptr, fresh.l_view().pattern.col_ptr);
    assert_eq!(pc.l_view().pattern.row_idx, fresh.l_view().pattern.row_idx);
    assert_eq!(pc.l_view().values, fresh.l_view().values);
}

// ILUTP

/// Keeps everything: the method is then a complete LU factorisation.
fn exact_ilutp(n: usize, pivot_tol: f64) -> IlutpParams<F64> {
    IlutpParams {
        drop_tol: F64(0.0),
        fill: FillControl::PerRow(n),
        pivot_tol: F64(pivot_tol),
        norm: RowNorm::Two,
    }
}

#[test]
fn exact_keep_inverts_system() {
    let a = tridiagonal(8, 4.0, -2.0, -1.0);
    let pc = Ilutp::try_new_with_params(csc(&a).as_ref(), exact_ilutp(8, 0.0)).unwrap();
    assert!(!pc.is_permuted());
    let x_true = column(&X8);
    let mut rhs = &to_dense(&a) * &x_true;
    apply_in_place(&pc, Op::Apply, &mut rhs);
    assert_close(&rhs, &x_true, 1e-10);
}

#[test]
fn exact_keep_with_pivoting_still_inverts() {
    let a = tridiagonal(8, 4.0, -2.0, -1.0);
    let pc = Ilutp::try_new_with_params(csc(&a).as_ref(), exact_ilutp(8, 0.5)).unwrap();
    let x_true = column(&X8);
    let mut rhs = &to_dense(&a) * &x_true;
    apply_in_place(&pc, Op::Apply, &mut rhs);
    assert_close(&rhs, &x_true, 1e-10);
}

#[test]
fn exact_keep_inverts_where_columns_move() {
    let a = mat_to_sparse(&[
        &[1e-8, 1.0, 0.0, 2.0],
        &[1.0, 1.0, 1.0, 0.0],
        &[0.0, 1.0, 1e-6, 3.0],
        &[4.0, 0.0, 1.0, 1.0],
    ]);
    let pc = Ilutp::try_new_with_params(csc(&a).as_ref(), exact_ilutp(4, 1.0)).unwrap();
    assert!(pc.is_permuted());
    for (k, &p) in pc.perm().iter().enumerate() {
        assert_eq!(pc.perm_inv()[p], k);
    }
    let x_true = column(&[1.0, -2.0, 0.5, 3.0]);
    let mut rhs = &to_dense(&a) * &x_true;
    apply_in_place(&pc, Op::Apply, &mut rhs);
    assert_close(&rhs, &x_true, 1e-10);
    let mut rhs = to_dense(&a).transpose() * &x_true;
    apply_in_place(&pc, Op::Transpose, &mut rhs);
    assert_close(&rhs, &x_true, 1e-10);
}

#[test]
fn reconstruction_matches_permuted_a() {
    let a = advection_diffusion_2d(4, 4.0, 0.3);
    let pc = Ilutp::try_new_with_params(csc(&a).as_ref(), exact_ilutp(16, 0.0)).unwrap();
    assert!(!pc.is_permuted());
    let lu = &view_to_dense(pc.l_view()) * &view_to_dense(pc.u_view());
    assert_close(&lu, &to_dense(&a), 1e-9);
}

#[test]
fn reconstruction_matches_permuted_a_with_pivoting() {
    let a = advection_diffusion_2d(4, 4.0, 0.4);
    let n = a.nrows();
    let pc = Ilutp::try_new_with_params(csc(&a).as_ref(), exact_ilutp(n, 0.5)).unwrap();
    let lu = &view_to_dense(pc.l_view()) * &view_to_dense(pc.u_view());
    let dense = to_dense(&a);
    let ap = Mat::from_fn(n, n, |r, k| dense[(r, pc.perm()[k])]);
    assert_close(&lu, &ap, 1e-9);
}

fn tiny_diagonal() -> Sparse {
    mat_to_sparse(&[&[1e-8, 1.0, 0.0], &[1.0, 1.0, 1.0], &[0.0, 1.0, 1.0]])
}

#[test]
fn pivot_tol_zero_is_pure_ilut() {
    let params = IlutpParams { pivot_tol: F64(0.0), ..exact_ilutp(3, 0.0) };
    let pc = Ilutp::try_new_with_params(csc(&tiny_diagonal()).as_ref(), params).unwrap();
    assert!(!pc.is_permuted());
}

#[test]
fn pivoting_triggers_on_tiny_diagonal() {
    let pc =
        Ilutp::try_new_with_params(csc(&tiny_diagonal()).as_ref(), exact_ilutp(3, 0.5)).unwrap();
    assert!(pc.is_permuted(), "tiny diagonal should force a pivot");
    let u = view_to_dense(pc.u_view());
    assert!(u[(0, 0)].abs() > 1e-3, "pivoting should avoid the tiny pivot, got {}", u[(0, 0)]);
}

#[test]
fn reduces_residual_on_nonsymmetric_problem() {
    let a = advection_diffusion_2d(8, 4.0, 0.5);
    let pc = Ilutp::try_new(csc(&a).as_ref()).unwrap();
    assert!(residual_ratio(&a, &pc, &cyclic_rhs(64)) < 0.5);
}

#[test]
fn rejects_zero_pivot_without_pivoting() {
    let a = mat_to_sparse(&[&[0.0, 0.0, 0.0], &[1.0, 1.0, 0.0], &[0.0, 1.0, 1.0]]);
    let params = IlutpParams { pivot_tol: F64(0.0), ..exact_ilutp(3, 0.0) };
    assert_eq!(
        Ilutp::try_new_with_params(csc(&a).as_ref(), params).unwrap_err(),
        IlutpError::ZeroPivot { row: 0 }
    );
}

#[test]
fn ilutp_keeps_its_parameters_and_asks_for_one_column() {
    let pc = Ilutp::try_new(csc(&tridiagonal(4, 4.0, -1.0, -1.0)).as_ref()).unwrap();
    assert_eq!(pc.params().drop_tol, F64(1e-3));
    assert_eq!(pc.params().pivot_tol, F64(0.1));
    assert_eq!(pc.params().fill, FillControl::Factor(F64(5.0)));
    assert_eq!(pc.dim(), 4);
    let s = pc.apply_scratch(3);
    assert_eq!((s.bytes, s.align), (32, 8));
}

#[test]
fn ilutp_chooses_the_first_of_equal_pivots() {
    let a = mat_to_sparse(&[&[0.5, 1.0, -1.0], &[1.0, 4.0, 0.0], &[0.0, 1.0, 4.0]]);
    let pc = Ilutp::try_new_with_params(csc(&a).as_ref(), exact_ilutp(3, 1.0)).unwrap();
    assert_eq!(pc.perm()[0], 1);
}

#[test]
fn ilutp_keeps_the_first_of_equal_entries() {
    let a = mat_to_sparse(&[
        &[4.0, 1.0, -1.0, 1.0],
        &[0.0, 4.0, 0.0, 0.0],
        &[0.0, 0.0, 4.0, 0.0],
        &[1.0, 1.0, 1.0, 4.0],
    ]);
    let params = IlutpParams { fill: FillControl::PerRow(1), ..exact_ilutp(4, 0.0) };
    let pc = Ilutp::try_new_with_params(csc(&a).as_ref(), params).unwrap();
    let u = view_to_dense(pc.u_view());
    assert_eq!([u[(0, 0)], u[(0, 1)], u[(0, 2)], u[(0, 3)]], [4.0, 1.0, 0.0, 0.0]);
    let l = view_to_dense(pc.l_view());
    assert_eq!([l[(3, 0)], l[(3, 1)], l[(3, 2)], l[(3, 3)]], [0.25, 0.0, 0.0, 1.0]);
}

#[test]
fn ilutp_refactorize_matches_fresh() {
    let params = IlutpParams {
        drop_tol: F64(1e-3),
        fill: FillControl::Factor(F64(2.0)),
        pivot_tol: F64(1.0),
        norm: RowNorm::One,
    };
    let a = csc(&mat_to_sparse(&[
        &[1e-8, 1.0, 0.0, 2.0],
        &[1.0, 1.0, 1.0, 0.0],
        &[0.0, 1.0, 1e-6, 3.0],
        &[4.0, 0.0, 1.0, 1.0],
    ]));
    let first = csc(&tridiagonal(4, 4.0, -2.0, -1.0));
    let mut pc = Ilutp::try_new_with_params(first.as_ref(), params).unwrap();
    let small = csc(&tridiagonal(3, 4.0, -1.0, -1.0));
    assert_eq!(
        pc.refactorize(small.as_ref()).unwrap_err(),
        IlutpError::NonSquareMatrix { nrows: 3, ncols: 3 }
    );
    let zero_row = csc(&mat_to_sparse(&[
        &[1.0, 2.0, 0.0, 0.0],
        &[0.0, 0.0, 0.0, 0.0],
        &[0.0, 0.0, 1.0, 0.0],
        &[0.0, 0.0, 0.0, 1.0],
    ]));
    let before = (pc.l_view().values.to_vec(), pc.u_view().values.to_vec());
    assert_eq!(
        pc.refactorize(zero_row.as_ref()).unwrap_err(),
        Ilutp::try_new_with_params(zero_row.as_ref(), params).unwrap_err()
    );
    assert_eq!((pc.l_view().values.to_vec(), pc.u_view().values.to_vec()), before);
    assert_eq!(pc.perm(), [1, 0, 2, 3]);
    assert_eq!(pc.perm_inv(), [1, 0, 2, 3]);
    assert!(pc.is_permuted());
    pc.refactorize(a.as_ref()).unwrap();
    let fresh = Ilutp::try_new_with_params(a.as_ref(), params).unwrap();
    assert!(pc.is_permuted());
    assert_eq!(pc.is_permuted(), fresh.is_permuted());
    assert_eq!(pc.perm(), fresh.perm());
    assert_eq!(pc.perm_inv(), fresh.perm_inv());
    assert_eq!(pc.l_view().pattern.col_ptr, fresh.l_view().pattern.col_ptr);
    assert_eq!(pc.l_view().pattern.row_idx, fresh.l_view().pattern.row_idx);
    assert_eq!(pc.l_view().values, fresh.l_view().values);
    assert_eq!(pc.u_view().pattern.col_ptr, fresh.u_view().pattern.col_ptr);
    assert_eq!(pc.u_view().pattern.row_idx, fresh.u_view().pattern.row_idx);
    assert_eq!(pc.u_view().values, fresh.u_view().values);
}

// Several factorisations at once

#[test]
fn mod_refactorize_matches_fresh_construction() {
    let a1 = csc(&tridiagonal(7, 4.0, -1.0, -1.0));
    let a2 = csc(&tridiagonal(7, 5.0, -2.0, -2.0));
    let fresh = Ilu0::try_new(a2.as_ref()).unwrap();
    let mut reused = Ilu0::try_new(a1.as_ref()).unwrap();
    reused.refactorize(a2.as_ref()).unwrap();
    values_close(fresh.l_view().values, reused.l_view().values, 1e-14);
    values_close(fresh.u_view().values, reused.u_view().values, 1e-14);

    let fresh = Ic0::try_new(a2.as_ref()).unwrap();
    let mut reused = Ic0::try_new(a1.as_ref()).unwrap();
    reused.refactorize(a2.as_ref()).unwrap();
    values_close(fresh.l_view().values, reused.l_view().values, 1e-14);

    let a1 = csc(&tridiagonal(7, 4.0, -2.0, -1.0));
    let a2 = csc(&tridiagonal(7, 5.0, -1.0, -2.0));
    let params = IlutpParams { pivot_tol: F64(0.0), ..IlutpParams::default() };
    let fresh = Ilutp::try_new_with_params(a2.as_ref(), params).unwrap();
    let mut reused = Ilutp::try_new_with_params(a1.as_ref(), params).unwrap();
    reused.refactorize(a2.as_ref()).unwrap();
    assert_close(&view_to_dense(fresh.l_view()), &view_to_dense(reused.l_view()), 1e-14);
    assert_close(&view_to_dense(fresh.u_view()), &view_to_dense(reused.u_view()), 1e-14);

    let a1 = csc(&tridiagonal(7, 4.0, -1.0, -1.0));
    let a2 = csc(&tridiagonal(7, 5.0, -2.0, -1.5));
    let params = SsorParams { omega: F64(1.4) };
    let fresh = Ssor::try_new(a2.as_ref(), params).unwrap();
    let mut reused = Ssor::try_new(a1.as_ref(), params).unwrap();
    reused.refactorize(a2.as_ref()).unwrap();
    values_close(fresh.l_view().values, reused.l_view().values, 1e-14);
    values_close(fresh.u_view().values, reused.u_view().values, 1e-14);
    values_close(&fresh.scaled_diag, &reused.scaled_diag, 1e-14);
}

#[test]
fn mod_refactorize_matches_fresh() {
    let lap = laplacian_2d(4);
    let a1 = csc(&lap);
    let mut t = Vec::new();
    for j in 0..16 {
        for p in a1.pattern.col_ptr[j]..a1.pattern.col_ptr[j + 1] {
            let i = a1.pattern.row_idx[p];
            let shift = if i == j { 0.5 } else { 0.0 };
            t.push(Triplet::new(i, j, a1.values[p].0 * 1.5 + shift));
        }
    }
    let a2 = csc(&from_triplets(16, 16, &t));
    let fresh = Iluk::try_new(a2.as_ref(), 1).unwrap();
    let mut reused = Iluk::try_new(a1.as_ref(), 1).unwrap();
    reused.refactorize(a2.as_ref()).unwrap();
    values_close(fresh.l_view().values, reused.l_view().values, 1e-12);
    values_close(fresh.u_view().values, reused.u_view().values, 1e-12);

    let a1 = csc(&tridiagonal(7, 4.0, -1.0, -1.0));
    let a2 = csc(&tridiagonal(7, 5.0, -1.5, -1.5));
    let fresh = Ict::try_new(a2.as_ref()).unwrap();
    let mut reused = Ict::try_new(a1.as_ref()).unwrap();
    reused.refactorize(a2.as_ref()).unwrap();
    values_close(fresh.l_view().values, reused.l_view().values, 1e-12);
}

#[test]
fn mod_rejects_non_square() {
    let a = csc(&not_square());
    let (nrows, ncols) = (3, 4);
    assert_eq!(
        Ilu0::try_new(a.as_ref()).unwrap_err(),
        Ilu0Error::NonSquareMatrix { nrows, ncols }
    );
    assert_eq!(
        Iluk::try_new(a.as_ref(), 1).unwrap_err(),
        IlukError::NonSquareMatrix { nrows, ncols }
    );
    assert_eq!(Ic0::try_new(a.as_ref()).unwrap_err(), Ic0Error::NonSquareMatrix { nrows, ncols });
    assert_eq!(
        Ilutp::try_new(a.as_ref()).unwrap_err(),
        IlutpError::NonSquareMatrix { nrows, ncols }
    );
    assert_eq!(Ict::try_new(a.as_ref()).unwrap_err(), IctError::NonSquareMatrix { nrows, ncols });
    assert_eq!(
        Ssor::try_new(a.as_ref(), SsorParams::default()).unwrap_err(),
        SsorError::NonSquareMatrix { nrows, ncols }
    );
    assert_eq!(
        Fsai::try_new(a.as_ref(), FsaiPattern::LowerOfA, |_, _| None).unwrap_err(),
        FsaiError::NonSquareMatrix { nrows, ncols }
    );
    let lstsq = |_: &Dense<F64>, e: &Dense<F64>| e.clone();
    assert_eq!(
        Spai::try_new(a.as_ref(), SpaiPattern::ColumnsOfA, lstsq).unwrap_err(),
        SpaiError::NonSquareMatrix { nrows, ncols }
    );
}

#[test]
fn mod_rejects_missing_diagonal() {
    let a = from_triplets(
        3,
        3,
        &[
            Triplet::new(0, 0, 1.0),
            Triplet::new(0, 1, 2.0),
            Triplet::new(2, 1, 3.0),
            Triplet::new(2, 2, 4.0),
        ],
    );
    assert_eq!(
        Ilu0::try_new(csc(&a).as_ref()).unwrap_err(),
        Ilu0Error::MissingDiagonal { col: 1 }
    );
    let a = from_triplets(
        3,
        3,
        &[Triplet::new(0, 0, 1.0), Triplet::new(2, 1, 3.0), Triplet::new(2, 2, 4.0)],
    );
    assert_eq!(
        Ic0::try_new(csc(&a).as_ref()).unwrap_err(),
        Ic0Error::MissingDiagonal { col: 1 }
    );
}

#[test]
fn mod_rejects_pattern_mismatch_on_refactorize() {
    let a1 = csc(&tridiagonal(5, 4.0, -1.0, -1.0));
    let a2 = csc(&tridiagonal(6, 4.0, -1.0, -1.0));
    let mut pc = Ilu0::try_new(a1.as_ref()).unwrap();
    assert_eq!(pc.refactorize(a2.as_ref()).unwrap_err(), Ilu0Error::PatternMismatch);
    let mut pc = Ic0::try_new(a1.as_ref()).unwrap();
    assert_eq!(pc.refactorize(a2.as_ref()).unwrap_err(), Ic0Error::PatternMismatch);
}

#[test]
fn mod_transpose_apply_inverts_transposed_system() {
    let a = tridiagonal(6, 4.0, -1.0, -1.0);
    let pc = Ilu0::try_new(csc(&a).as_ref()).unwrap();
    let x_true = column(&X6);
    let mut out = to_dense(&a).transpose() * &x_true;
    apply_in_place(&pc, Op::Transpose, &mut out);
    assert_close(&out, &x_true, 1e-12);

    let a = tridiagonal(6, 4.0, -2.0, -1.0);
    let pc = Ilutp::try_new_with_params(csc(&a).as_ref(), exact_ilutp(6, 0.0)).unwrap();
    let mut out = to_dense(&a).transpose() * &x_true;
    apply_in_place(&pc, Op::Transpose, &mut out);
    assert_close(&out, &x_true, 1e-10);
}

#[test]
fn mod_rejects_invalid_params() {
    let a = csc(&tridiagonal(3, 4.0, -1.0, -1.0));
    let bad = IctParams { drop_tol: F64(-1.0), ..Default::default() };
    assert_eq!(
        Ict::try_new_with_params(a.as_ref(), bad).unwrap_err(),
        IctError::InvalidDropTol
    );
    let bad = IctParams { fill: FillControl::Factor(F64(0.0)), ..Default::default() };
    assert_eq!(
        Ict::try_new_with_params(a.as_ref(), bad).unwrap_err(),
        IctError::InvalidFillControl
    );
    let bad = IlutpParams { drop_tol: F64(-1.0), ..Default::default() };
    assert_eq!(
        Ilutp::try_new_with_params(a.as_ref(), bad).unwrap_err(),
        IlutpError::InvalidDropTol
    );
    let bad = IlutpParams { pivot_tol: F64(1.5), ..Default::default() };
    assert_eq!(
        Ilutp::try_new_with_params(a.as_ref(), bad).unwrap_err(),
        IlutpError::InvalidPivotTol
    );
    let bad = IlutpParams { fill: FillControl::Factor(F64(0.0)), ..Default::default() };
    assert_eq!(
        Ilutp::try_new_with_params(a.as_ref(), bad).unwrap_err(),
        IlutpError::InvalidFillControl
    );
}

/// A diagonal matrix, by its diagonal.
fn scaling(diag: &[f64]) -> CscMatrix<F64> {
    let n = diag.len();
    let pattern = CscPattern::try_new(n, n, (0..=n).collect(), (0..n).collect()).unwrap();
    CscMatrix::try_new(pattern, diag.iter().map(|x| F64(*x)).collect()).unwrap()
}

/// Three columns, the second of which has two entries.
fn bent() -> CscMatrix<F64> {
    let pattern = CscPattern::try_new(3, 3, vec![0, 1, 3, 4], vec![0, 1, 2, 2]).unwrap();
    CscMatrix::try_new(pattern, vec![F64(5.0), F64(6.0), F64(7.0), F64(8.0)]).unwrap()
}

#[test]
fn failed_refactorisations_stop_at_the_column_at_fault() {
    let first = scaling(&[1.0, 2.0, 3.0]);
    let singular = scaling(&[5.0, 0.0, 7.0]);
    let bent = bent();
    let wide = scaling(&[1.0; 4]);
    let bare = |v: &[F64]| -> Vec<f64> { v.iter().map(|x| x.0).collect() };

    let mut pc = Ilu0::try_new(first.as_ref()).unwrap();
    assert_eq!(pc.refactorize(wide.as_ref()), Err(Ilu0Error::PatternMismatch));
    assert_eq!(bare(&pc.u_values), [1.0, 2.0, 3.0]);
    assert_eq!(pc.refactorize(bent.as_ref()), Err(Ilu0Error::PatternMismatch));
    assert_eq!(bare(&pc.u_values), [5.0, 2.0, 3.0]);
    let mut pc = Ilu0::try_new(first.as_ref()).unwrap();
    assert_eq!(pc.refactorize(singular.as_ref()), Err(Ilu0Error::ZeroPivot { col: 1 }));
    assert_eq!(bare(&pc.u_values), [5.0, 0.0, 7.0]);
    assert_eq!(bare(&pc.l_values), [1.0, 1.0, 1.0]);

    let mut pc = Iluk::try_new(first.as_ref(), 1).unwrap();
    assert_eq!(pc.refactorize(wide.as_ref()), Err(IlukError::PatternMismatch));
    assert_eq!(bare(&pc.u_values), [1.0, 2.0, 3.0]);
    assert_eq!(pc.refactorize(singular.as_ref()), Err(IlukError::ZeroPivot { col: 1 }));
    assert_eq!(bare(&pc.u_values), [5.0, 0.0, 3.0]);

    let squares = scaling(&[1.0, 4.0, 9.0]);
    let indefinite = scaling(&[25.0, -1.0, 49.0]);
    let mut pc = Ic0::try_new(squares.as_ref()).unwrap();
    assert_eq!(pc.refactorize(bent.as_ref()), Err(Ic0Error::PatternMismatch));
    assert_eq!(bare(&pc.l_values), [5.0, 2.0, 3.0]);
    let e = pc.refactorize(indefinite.as_ref());
    assert_eq!(e, Err(Ic0Error::NotPositiveDefinite { col: 1 }));
    assert_eq!(bare(&pc.l_values), [5.0, -1.0, 49.0]);

    let params = SsorParams { omega: F64(1.0) };
    let mut pc = Ssor::try_new(first.as_ref(), params).unwrap();
    assert_eq!(pc.refactorize(wide.as_ref()), Err(SsorError::PatternMismatch));
    assert_eq!(bare(&pc.scaled_diag), [1.0, 2.0, 3.0]);
    assert_eq!(pc.refactorize(singular.as_ref()), Err(SsorError::ZeroDiagonal { col: 1 }));
    assert_eq!(bare(&pc.scaled_diag), [5.0, 2.0, 3.0]);
    assert_eq!(bare(&pc.l_values), [5.0, 2.0, 3.0]);
    assert_eq!(pc.refactorize(bent.as_ref()), Err(SsorError::PatternMismatch));
    assert_eq!(bare(&pc.scaled_diag), [5.0, 6.0, 3.0]);
    assert_eq!(bare(&pc.u_values), [5.0, 2.0, 3.0]);
}

/// Counts grow with the level, and stop growing at the dimension at the latest.
#[test]
fn fill_levels_grow_and_saturate() {
    let n = 6;
    let mut triplets = Vec::new();
    for i in 0..n {
        triplets.push(Triplet::new(i, i, 8.0));
        if i > 0 {
            triplets.push(Triplet::new(i, 0, 1.0));
            triplets.push(Triplet::new(0, i, 1.0));
        }
    }
    let a = csc(&Sparse::try_new_from_triplets(n, n, &triplets).unwrap());
    let levels: Vec<SymbolicIluk> =
        (0..=2 * n).map(|k| SymbolicIluk::try_new(&a.pattern, k).unwrap()).collect();
    for pair in levels.windows(2) {
        assert!(pair[0].l_nnz() <= pair[1].l_nnz());
        assert!(pair[0].u_nnz() <= pair[1].u_nnz());
    }
    assert_eq!(levels[0].l_nnz(), 11);
    assert_eq!(levels[1].l_nnz(), 21);
    for s in &levels[n..] {
        assert_eq!(s.l.row_idx, levels[n].l.row_idx);
        assert_eq!(s.u.row_idx, levels[n].u.row_idx);
    }
}

/// The level of `(4, 5)` is the number of inner vertices of `4 -> 0 -> 1 -> 2 -> 5`.
#[test]
fn fill_levels_count_the_shortest_walk() {
    let mut triplets: Vec<Triplet<usize, usize, f64>> =
        (0..6).map(|i| Triplet::new(i, i, 8.0)).collect();
    for (i, j) in [(4, 0), (0, 1), (1, 2), (2, 5)] {
        triplets.push(Triplet::new(i, j, 1.0));
    }
    let a = csc(&Sparse::try_new_from_triplets(6, 6, &triplets).unwrap());
    for level in 0..6 {
        let s = SymbolicIluk::try_new(&a.pattern, level).unwrap();
        let rows = &s.u.row_idx[s.u.col_ptr[5]..s.u.col_ptr[6]];
        assert_eq!(rows.contains(&4), level >= 3);
        let rows = &s.l.row_idx[s.l.col_ptr[1]..s.l.col_ptr[2]];
        assert_eq!(rows.contains(&4), level >= 1);
    }
}
