//! Diagonal, block, stationary and polynomial preconditioners, and the sparse
//! approximate inverses.
#![allow(dead_code)]
use dyn_stack::{MemBuffer, MemStack};
use faer::linalg::lu::partial_pivoting::{factor as plu_factor, solve as plu_solve};
use faer::linalg::solvers::{Llt, Qr, ShapeCore, Solve, SolveLstsq};
use faer::perm::PermRef;
use faer::sparse::{SparseColMat, Triplet};
use faer::{Conj, Mat, Par, Side};
use faer_precond::block_jacobi::{zero_pivot, BlockFactor};
use faer_precond::dense::Mat as Dense;
use faer_precond::fsai::factor::{local_block, lower_row_patterns, scaled_row};
use faer_precond::op::{Op, Preconditioner, Work};
use faer_precond::scalar::{RealScalar, Scalar};
use faer_precond::sparse::{CscMatrix, CscPattern, CscRef};
use faer_precond::util::powers::power_columns;
use faer_precond::util::spd_bounds::{gershgorin_bounds, power_iteration_max};
use faer_precond::{
    BlockJacobiError, BlockJacobiPrecond, BoundEstimate, Fsai, FsaiError, FsaiPattern, Ict, Iluk,
    Ilutp, JacobiError, JacobiPrecond, Poly, PolyError, PolyKind, PolyParams, SolvePrecond, Spai,
    SpaiError, SpaiPattern, Ssor, SsorError, SsorParams,
};

/// Double precision as a matrix entry.
#[derive(Debug, Clone, Copy, PartialEq)]
struct F64(f64);

impl RealScalar for F64 {
    fn null() -> Self {
        F64(0.0)
    }
    fn plus(self, other: Self) -> Self {
        F64(self.0 + other.0)
    }
    fn minus(self, other: Self) -> Self {
        F64(self.0 - other.0)
    }
    fn times(self, other: Self) -> Self {
        F64(self.0 * other.0)
    }
    fn over(self, other: Self) -> Self {
        F64(self.0 / other.0)
    }
    fn reciprocal(self) -> Self {
        F64(self.0.recip())
    }
    fn root(self) -> Self {
        F64(self.0.sqrt())
    }
    fn magnitude(self) -> Self {
        F64(self.0.abs())
    }
    fn below(self, other: Self) -> bool {
        self.0 < other.0
    }
    fn at_most(self, other: Self) -> bool {
        self.0 <= other.0
    }
    fn is_null(self) -> bool {
        self.0 == 0.0
    }
    fn is_finite_spec(self) -> bool {
        self.0.is_finite()
    }
    fn ratio(num: u64, den: u64) -> Self {
        F64(num as f64 / den as f64)
    }
    fn nearest(self) -> usize {
        self.0.round() as usize
    }
    fn below_irreflexive(_a: Self) {}
    fn below_transitive(_a: Self, _b: Self, _c: Self) {}
    fn copy(&self) -> Self {
        *self
    }
    fn zero() -> Self {
        F64(0.0)
    }
    fn add(&self, other: &Self) -> Self {
        RealScalar::plus(*self, *other)
    }
    fn sub(&self, other: &Self) -> Self {
        RealScalar::minus(*self, *other)
    }
    fn mul(&self, other: &Self) -> Self {
        RealScalar::times(*self, *other)
    }
    fn div(&self, other: &Self) -> Self {
        self.over(*other)
    }
    fn recip(&self) -> Self {
        RealScalar::reciprocal(*self)
    }
    fn sqrt(&self) -> Self {
        self.root()
    }
    fn abs(&self) -> Self {
        RealScalar::magnitude(*self)
    }
    fn lt(&self, other: &Self) -> bool {
        self.below(*other)
    }
    fn le(&self, other: &Self) -> bool {
        self.at_most(*other)
    }
    fn is_zero(&self) -> bool {
        self.is_null()
    }
    fn is_finite(&self) -> bool {
        self.is_finite_spec()
    }
    fn from_ratio(num: u64, den: u64) -> Self {
        Self::ratio(num, den)
    }
    fn round_to_usize(&self) -> usize {
        self.nearest()
    }
}

impl Scalar for F64 {
    type Real = F64;
    type Tuning = F64;
    fn null() -> Self {
        F64(0.0)
    }
    fn unit() -> Self {
        F64(1.0)
    }
    fn plus(self, other: Self) -> Self {
        F64(self.0 + other.0)
    }
    fn minus(self, other: Self) -> Self {
        F64(self.0 - other.0)
    }
    fn times(self, other: Self) -> Self {
        F64(self.0 * other.0)
    }
    fn negated(self) -> Self {
        F64(-self.0)
    }
    fn reciprocal(self) -> Self {
        F64(self.0.recip())
    }
    fn conjugate(self) -> Self {
        self
    }
    fn real_part(self) -> F64 {
        self
    }
    fn embed(r: F64) -> Self {
        r
    }
    fn magnitude(self) -> F64 {
        F64(self.0.abs())
    }
    fn magnitude_squared(self) -> F64 {
        F64(self.0 * self.0)
    }
    fn scaled(self, r: F64) -> Self {
        F64(self.0 * r.0)
    }
    fn tuned(p: F64) -> F64 {
        p
    }
    fn copy(&self) -> Self {
        *self
    }
    fn zero() -> Self {
        F64(0.0)
    }
    fn one() -> Self {
        F64(1.0)
    }
    fn add(&self, other: &Self) -> Self {
        Scalar::plus(*self, *other)
    }
    fn sub(&self, other: &Self) -> Self {
        Scalar::minus(*self, *other)
    }
    fn mul(&self, other: &Self) -> Self {
        Scalar::times(*self, *other)
    }
    fn neg(&self) -> Self {
        self.negated()
    }
    fn recip(&self) -> Self {
        Scalar::reciprocal(*self)
    }
    fn conj(&self) -> Self {
        self.conjugate()
    }
    fn re(&self) -> F64 {
        self.real_part()
    }
    fn from_real(r: &F64) -> Self {
        Self::embed(*r)
    }
    fn abs(&self) -> F64 {
        Scalar::magnitude(*self)
    }
    fn abs2(&self) -> F64 {
        self.magnitude_squared()
    }
    fn mul_real(&self, r: &F64) -> Self {
        self.scaled(*r)
    }
    fn from_tuning(p: &F64) -> F64 {
        *p
    }
}

type Sparse = SparseColMat<usize, f64>;

/// The matrix as this library stores it.
fn csc(a: &Sparse) -> CscMatrix<F64> {
    let a = a.as_ref();
    let mut col_ptr = vec![0];
    let mut row_idx = Vec::new();
    let mut values = Vec::new();
    for j in 0..a.ncols() {
        for (r, v) in a.symbolic().row_idx_of_col_raw(j).iter().zip(a.val_of_col(j)) {
            row_idx.push(*r);
            values.push(F64(*v));
        }
        col_ptr.push(row_idx.len());
    }
    let pattern = CscPattern::try_new(a.nrows(), a.ncols(), col_ptr, row_idx).unwrap();
    CscMatrix::try_new(pattern, values).unwrap()
}

fn to_library(m: &Mat<f64>) -> Dense<F64> {
    let mut data = Vec::new();
    for j in 0..m.ncols() {
        for i in 0..m.nrows() {
            data.push(F64(m[(i, j)]));
        }
    }
    Dense::try_new(m.nrows(), m.ncols(), data).unwrap()
}

fn from_library(m: &Dense<F64>) -> Mat<f64> {
    Mat::from_fn(m.nrows, m.ncols, |i, j| m.get(i, j).0)
}

fn apply_in_place<P: Preconditioner<F64>>(pc: &P, op: Op, rhs: &mut Mat<f64>) {
    let mut m = to_library(rhs);
    pc.apply_in_place(op, &mut m, &mut Work::new());
    *rhs = from_library(&m);
}

fn apply<P: Preconditioner<F64>>(pc: &P, op: Op, rhs: &Mat<f64>) -> Mat<f64> {
    let mut out = to_library(&Mat::zeros(rhs.nrows(), rhs.ncols()));
    pc.apply(op, &mut out, &to_library(rhs), &mut Work::new());
    from_library(&out)
}

fn assert_close(lhs: &Mat<f64>, rhs: &Mat<f64>, tol: f64) {
    assert_eq!(lhs.nrows(), rhs.nrows());
    assert_eq!(lhs.ncols(), rhs.ncols());
    for j in 0..lhs.ncols() {
        for i in 0..lhs.nrows() {
            let diff = (lhs[(i, j)] - rhs[(i, j)]).abs();
            assert!(diff <= tol, "mismatch at ({i}, {j}): diff={diff}");
        }
    }
}

fn column(x: &[f64]) -> Mat<f64> {
    Mat::from_fn(x.len(), 1, |i, _| x[i])
}

fn to_dense(a: &Sparse) -> Mat<f64> {
    view_to_dense(csc(a).as_ref())
}

fn view_to_dense(a: CscRef<'_, F64>) -> Mat<f64> {
    let mut dense = Mat::zeros(a.pattern.nrows, a.pattern.ncols);
    for j in 0..a.pattern.ncols {
        for p in a.pattern.col_ptr[j]..a.pattern.col_ptr[j + 1] {
            dense[(a.pattern.row_idx[p], j)] = a.values[p].0;
        }
    }
    dense
}

fn norm(x: &Mat<f64>) -> f64 {
    let mut sum = 0.0;
    for i in 0..x.nrows() {
        sum += x[(i, 0)] * x[(i, 0)];
    }
    sum.sqrt()
}

fn residual_ratio<P: Preconditioner<F64>>(a: &Sparse, pc: &P, b: &Mat<f64>) -> f64 {
    let mut x = b.clone();
    apply_in_place(pc, Op::Apply, &mut x);
    norm(&(&to_dense(a) * &x - b)) / norm(b)
}

fn from_triplets(n: usize, m: usize, t: &[Triplet<usize, usize, f64>]) -> Sparse {
    SparseColMat::try_new_from_triplets(n, m, t).unwrap()
}

/// A matrix with `diag` on the diagonal, `sub` below it and `sup` above it.
fn tridiagonal(n: usize, diag: f64, sub: f64, sup: f64) -> Sparse {
    let mut t = Vec::new();
    for i in 0..n {
        t.push(Triplet::new(i, i, diag));
        if i > 0 {
            t.push(Triplet::new(i, i - 1, sub));
            t.push(Triplet::new(i - 1, i, sup));
        }
    }
    from_triplets(n, n, &t)
}

/// The 5-point stencil on a `grid x grid` mesh with an added first-derivative
/// term of strength `beta`; `beta = 0` is the Laplacian.
fn advection_diffusion_2d(grid: usize, diag: f64, beta: f64) -> Sparse {
    let mut t = Vec::new();
    for gy in 0..grid {
        for gx in 0..grid {
            let idx = gy * grid + gx;
            t.push(Triplet::new(idx, idx, diag));
            if gx > 0 {
                t.push(Triplet::new(idx, idx - 1, -1.0 - beta));
            }
            if gx + 1 < grid {
                t.push(Triplet::new(idx, idx + 1, -1.0 + beta));
            }
            if gy > 0 {
                t.push(Triplet::new(idx, idx - grid, -1.0));
            }
            if gy + 1 < grid {
                t.push(Triplet::new(idx, idx + grid, -1.0));
            }
        }
    }
    from_triplets(grid * grid, grid * grid, &t)
}

fn laplacian_2d(grid: usize) -> Sparse {
    advection_diffusion_2d(grid, 4.0, 0.0)
}

/// Three diagonal entries in a matrix of three rows and four columns.
fn not_square() -> Sparse {
    let t: Vec<_> = (0..3).map(|i| Triplet::new(i, i, 1.0)).collect();
    from_triplets(3, 4, &t)
}

fn cyclic_rhs(n: usize) -> Mat<f64> {
    Mat::from_fn(n, 1, |i, _| (i % 7) as f64 - 3.0)
}

fn diagonal(diag: &[f64]) -> Sparse {
    let t: Vec<_> = diag.iter().enumerate().map(|(i, &v)| Triplet::new(i, i, v)).collect();
    from_triplets(diag.len(), diag.len(), &t)
}

fn rows(r: &[&[f64]]) -> Mat<f64> {
    Mat::from_fn(r.len(), r[0].len(), |i, j| r[i][j])
}

/// Solves with the Cholesky factor of a block.
fn llt(a: &Dense<F64>, e: &Dense<F64>) -> Option<Dense<F64>> {
    let f = Llt::new(from_library(a).as_ref(), Side::Lower).ok()?;
    Some(to_library(&f.solve(&from_library(e))))
}

/// The least-squares solution of a block.
fn lstsq(a: &Dense<F64>, e: &Dense<F64>) -> Dense<F64> {
    to_library(&Qr::new(from_library(a).as_ref()).solve_lstsq(&from_library(e)))
}

/// Factors a block with partial pivoting.
fn lu(b: &Dense<F64>) -> BlockFactor<F64> {
    let n = b.nrows;
    let mut m = from_library(b);
    let mut perm_fwd = vec![0usize; n];
    let mut perm_inv = vec![0usize; n];
    let req =
        plu_factor::lu_in_place_scratch::<usize, f64>(n, n, Par::Seq, Default::default());
    let mut buf = MemBuffer::new(req);
    let _ = plu_factor::lu_in_place::<usize, f64>(
        m.as_mut(),
        &mut perm_fwd,
        &mut perm_inv,
        Par::Seq,
        MemStack::new(&mut buf),
        Default::default(),
    );
    BlockFactor { lu: to_library(&m), perm_fwd, perm_inv }
}

/// Solves with the factor of a block.
fn solve(
    f: &Dense<F64>,
    perm_fwd: &[usize],
    perm_inv: &[usize],
    op: Op,
    b: &Dense<F64>,
) -> Dense<F64> {
    let n = f.nrows;
    let m = from_library(f);
    let mut x = from_library(b);
    let perm = PermRef::new_checked(perm_fwd, perm_inv, n);
    let conj = if op.is_conj() { Conj::Yes } else { Conj::No };
    let req = plu_solve::solve_in_place_scratch::<usize, f64>(n, b.ncols, Par::Seq);
    let mut buf = MemBuffer::new(req);
    let stack = MemStack::new(&mut buf);
    if op.is_transpose() {
        plu_solve::solve_transpose_in_place_with_conj(
            m.as_ref(),
            m.as_ref(),
            perm,
            conj,
            x.as_mut(),
            Par::Seq,
            stack,
        );
    } else {
        plu_solve::solve_in_place_with_conj(
            m.as_ref(),
            m.as_ref(),
            perm,
            conj,
            x.as_mut(),
            Par::Seq,
            stack,
        );
    }
    to_library(&x)
}

// Jacobi

fn jacobi(diag: &[f64]) -> Result<JacobiPrecond<F64>, JacobiError> {
    let diag: Vec<_> = diag.iter().map(|&x| F64(x)).collect();
    JacobiPrecond::try_from_diagonal(&diag)
}

#[test]
fn builds_from_diagonal() {
    let pc = jacobi(&[2.0, 4.0, 8.0]).unwrap();
    assert_eq!(pc.dim(), 3);
    assert_eq!(pc.inverse_diagonal(), &[F64(0.5), F64(0.25), F64(0.125)]);
}

#[test]
fn jacobi_rejects_zero_diagonal() {
    assert_eq!(
        jacobi(&[2.0, 0.0, 8.0]).unwrap_err(),
        JacobiError::ZeroDiagonalEntry { index: 1 }
    );
}

#[test]
fn builds_from_matrix_diagonal() {
    let a = rows(&[&[2.0, 9.0, 0.0], &[1.0, 4.0, 5.0], &[0.0, 7.0, 8.0]]);
    let pc = JacobiPrecond::try_from_matrix_diagonal(&to_library(&a)).unwrap();
    assert_eq!(pc.inverse_diagonal(), &[F64(0.5), F64(0.25), F64(0.125)]);
    let wide = to_library(&Mat::zeros(2, 3));
    assert_eq!(
        JacobiPrecond::try_from_matrix_diagonal(&wide).unwrap_err(),
        JacobiError::NonSquareMatrix { nrows: 2, ncols: 3 }
    );
}

#[test]
fn apply_matches_expected_multiple_rhs() {
    let pc = jacobi(&[2.0, 4.0]).unwrap();
    let out = apply(&pc, Op::Apply, &rows(&[&[2.0, 8.0], &[4.0, 12.0]]));
    assert_close(&out, &rows(&[&[1.0, 4.0], &[1.0, 3.0]]), 1e-12);
}

#[test]
fn jacobi_apply_in_place_matches_apply() {
    let pc = jacobi(&[2.0, 4.0]).unwrap();
    let rhs = rows(&[&[2.0, 8.0], &[4.0, 12.0]]);
    let mut inplace = rhs.clone();
    apply_in_place(&pc, Op::Apply, &mut inplace);
    assert_close(&apply(&pc, Op::Apply, &rhs), &inplace, 1e-12);
}

#[test]
fn transpose_and_adjoint_are_usable() {
    let pc = jacobi(&[2.0, 4.0]).unwrap();
    let rhs = column(&[2.0, 4.0]);
    let expected = column(&[1.0, 1.0]);
    assert_close(&apply(&pc, Op::Transpose, &rhs), &expected, 1e-12);
    assert_close(&apply(&pc, Op::Adjoint, &rhs), &expected, 1e-12);
}

#[test]
fn jacobi_transpose_and_adjoint_in_place_are_usable() {
    let pc = jacobi(&[2.0, 4.0]).unwrap();
    let expected = column(&[1.0, 1.0]);
    for op in [Op::Transpose, Op::Adjoint] {
        let mut rhs = column(&[2.0, 4.0]);
        apply_in_place(&pc, op, &mut rhs);
        assert_close(&rhs, &expected, 1e-12);
    }
}

#[test]
fn jacobi_from_inverse_takes_the_reciprocals_as_they_are() {
    let pc = JacobiPrecond::from_inverse_diagonal(vec![F64(3.0), F64(0.0)]);
    assert_eq!(pc.inverse_diagonal(), &[F64(3.0), F64(0.0)]);
    assert!(!pc.is_empty());
    assert!(JacobiPrecond::<F64>::from_inverse_diagonal(vec![]).is_empty());
    assert_close(&apply(&pc, Op::Conj, &column(&[2.0, 5.0])), &column(&[6.0, 0.0]), 0.0);
}

// Block Jacobi

/// A 2x2 block and a 3x3 block, with entries beside them that do not matter.
fn test_matrix() -> Mat<f64> {
    rows(&[
        &[4.0, 1.0, 7.0, 9.0, 0.0],
        &[2.0, 3.0, 0.0, 0.0, 8.0],
        &[9.0, 5.0, 6.0, 1.0, 2.0],
        &[1.0, 1.0, 3.0, 5.0, 1.0],
        &[3.0, 0.0, 2.0, 1.0, 4.0],
    ])
}

fn block_diagonal() -> Mat<f64> {
    rows(&[
        &[4.0, 1.0, 0.0, 0.0, 0.0],
        &[2.0, 3.0, 0.0, 0.0, 0.0],
        &[0.0, 0.0, 6.0, 1.0, 2.0],
        &[0.0, 0.0, 3.0, 5.0, 1.0],
        &[0.0, 0.0, 2.0, 1.0, 4.0],
    ])
}

fn block_jacobi(
    a: &Mat<f64>,
    offsets: &[usize],
) -> Result<BlockJacobiPrecond<F64>, BlockJacobiError> {
    BlockJacobiPrecond::try_new(&to_library(a), offsets, lu)
}

fn block_apply(pc: &BlockJacobiPrecond<F64>, op: Op, rhs: &Mat<f64>) -> Mat<f64> {
    let mut out = to_library(&Mat::zeros(rhs.nrows(), rhs.ncols()));
    pc.apply(op, &mut out, &to_library(rhs), solve);
    from_library(&out)
}

#[test]
fn builds_from_matrix() {
    let pc = block_jacobi(&test_matrix(), &[0, 2, 5]).unwrap();
    assert_eq!(pc.dim(), 5);
    assert_eq!(pc.block_count(), 2);
    assert_eq!(pc.max_block_size(), 3);
    assert_eq!(pc.block_offsets(), &[0, 2, 5]);
    assert!(!pc.is_empty());
}

#[test]
fn block_jacobi_rejects_non_square() {
    let a = Mat::from_fn(3, 4, |i, j| (i + j) as f64);
    assert_eq!(
        block_jacobi(&a, &[0, 3]).unwrap_err(),
        BlockJacobiError::NonSquareMatrix { nrows: 3, ncols: 4 }
    );
}

#[test]
fn rejects_bad_offsets() {
    let a = Mat::identity(4, 4);
    assert!(matches!(block_jacobi(&a, &[]).unwrap_err(), BlockJacobiError::EmptyBlocks));
    assert!(matches!(
        block_jacobi(&a, &[1, 4]).unwrap_err(),
        BlockJacobiError::BlockOffsetsMustStartAtZero { first: 1 }
    ));
    assert!(matches!(
        block_jacobi(&a, &[0, 3]).unwrap_err(),
        BlockJacobiError::BlockOffsetsMustEndAtDim { last: 3, dim: 4 }
    ));
    assert!(matches!(
        block_jacobi(&a, &[0, 2, 2, 4]).unwrap_err(),
        BlockJacobiError::BlockOffsetsNotStrictlyIncreasing { index: 2, prev: 2, curr: 2 }
    ));
}

#[test]
fn rejects_singular_block() {
    let mut a = Mat::<f64>::identity(4, 4);
    a[(2, 2)] = 0.0;
    a[(2, 3)] = 1.0;
    a[(3, 2)] = 0.0;
    a[(3, 3)] = 0.0;
    assert_eq!(
        block_jacobi(&a, &[0, 2, 4]).unwrap_err(),
        BlockJacobiError::SingularBlock { block_index: 1 }
    );
    assert!(zero_pivot(&to_library(&a)));
    assert!(!zero_pivot(&to_library(&Mat::identity(3, 3))));
}

#[test]
fn apply_inverts_block_diagonal_part() {
    let a = block_diagonal();
    let pc = block_jacobi(&a, &[0, 2, 5]).unwrap();
    let x = rows(&[&[1.0, -2.0], &[2.0, 1.0], &[3.0, 0.5], &[-1.0, 2.0], &[0.5, -1.0]]);
    assert_close(&block_apply(&pc, Op::Apply, &(&a * &x)), &x, 1e-12);
}

#[test]
fn block_jacobi_apply_in_place_matches_apply() {
    let pc = block_jacobi(&test_matrix(), &[0, 2, 5]).unwrap();
    let rhs = rows(&[&[1.0, 4.0], &[2.0, 5.0], &[3.0, 6.0], &[4.0, 7.0], &[5.0, 8.0]]);
    let mut inplace = to_library(&rhs);
    pc.apply_in_place(Op::Apply, &mut inplace, solve);
    assert_close(&block_apply(&pc, Op::Apply, &rhs), &from_library(&inplace), 1e-12);
}

#[test]
fn transpose_matches_block_transpose_solve() {
    let a = block_diagonal();
    let pc = block_jacobi(&a, &[0, 2, 5]).unwrap();
    let x = column(&[1.0, 2.0, 3.0, -1.0, 0.5]);
    assert_close(&block_apply(&pc, Op::Transpose, &(a.transpose() * &x)), &x, 1e-12);
}

#[test]
fn adjoint_equals_transpose_for_real() {
    let pc = block_jacobi(&test_matrix(), &[0, 2, 5]).unwrap();
    let rhs = column(&[1.0, -2.0, 3.0, 4.0, -1.0]);
    assert_close(
        &block_apply(&pc, Op::Transpose, &rhs),
        &block_apply(&pc, Op::Adjoint, &rhs),
        1e-12,
    );
}

#[test]
fn single_block_matches_full_lu() {
    let a = rows(&[&[4.0, 1.0, 2.0], &[3.0, 5.0, 1.0], &[1.0, 2.0, 6.0]]);
    let pc = block_jacobi(&a, &[0, 3]).unwrap();
    let x = column(&[1.0, 2.0, 3.0]);
    assert_close(&block_apply(&pc, Op::Apply, &(&a * &x)), &x, 1e-12);
}

// SSOR

#[test]
fn sgs_on_diagonal_is_exact_inverse() {
    let a = diagonal(&[2.0, 4.0, 8.0]);
    let pc = Ssor::try_new(csc(&a).as_ref(), SsorParams::default()).unwrap();
    let mut x = column(&[2.0, 8.0, 16.0]);
    apply_in_place(&pc, Op::Apply, &mut x);
    assert_close(&x, &column(&[1.0, 2.0, 2.0]), 1e-12);
    assert_eq!((pc.dim(), *pc.omega()), (3, F64(1.0)));
}

#[test]
fn symmetric_input_makes_transpose_equal_apply() {
    let a = tridiagonal(6, 4.0, -1.0, -1.0);
    let pc = Ssor::try_new(csc(&a).as_ref(), SsorParams { omega: F64(1.3) }).unwrap();
    let rhs = column(&[1.0, -2.0, 3.0, 0.5, -1.0, 2.0]);
    assert_close(&apply(&pc, Op::Apply, &rhs), &apply(&pc, Op::Transpose, &rhs), 1e-12);
}

#[test]
fn sgs_reduces_residual_on_laplacian() {
    let a = laplacian_2d(8);
    let pc = Ssor::try_new(csc(&a).as_ref(), SsorParams::default()).unwrap();
    let ratio = residual_ratio(&a, &pc, &cyclic_rhs(64));
    assert!(ratio < 0.7, "SGS residual ratio {ratio} too large");
}

#[test]
fn rejects_invalid_omega() {
    let a = csc(&tridiagonal(3, 4.0, -1.0, -1.0));
    for omega in [0.0, 2.0] {
        assert_eq!(
            Ssor::try_new(a.as_ref(), SsorParams { omega: F64(omega) }).unwrap_err(),
            SsorError::InvalidOmega
        );
    }
}

#[test]
fn mod_rejects_zero_diagonal() {
    let a = csc(&diagonal(&[1.0, 0.0, 1.0]));
    assert_eq!(
        Ssor::try_new(a.as_ref(), SsorParams::default()).unwrap_err(),
        SsorError::ZeroDiagonal { col: 1 }
    );
}

#[test]
fn ssor_inverts_its_splitting() {
    let a = tridiagonal(5, 4.0, -2.0, -1.0);
    let w = 1.25;
    let pc = Ssor::try_new(csc(&a).as_ref(), SsorParams { omega: F64(w) }).unwrap();
    let l = view_to_dense(pc.l_view());
    let u = view_to_dense(pc.u_view());
    assert_eq!((l[(1, 0)], l[(1, 1)], u[(0, 1)]), (-2.0 * w, 4.0, -w));
    let d = Mat::from_fn(5, 5, |i, j| if i == j { 1.0 / (w * (2.0 - w) * 4.0) } else { 0.0 });
    let m = &l * &d * &u;
    let x = column(&[1.0, -2.0, 3.0, 0.5, -1.0]);
    assert_close(&apply(&pc, Op::Apply, &(&m * &x)), &x, 1e-12);
    assert_close(&apply(&pc, Op::Transpose, &(m.transpose() * &x)), &x, 1e-12);
}

#[test]
fn ssor_refuses_other_patterns() {
    let a = csc(&tridiagonal(4, 4.0, -1.0, -1.0));
    let mut pc = Ssor::try_new(a.as_ref(), SsorParams::default()).unwrap();
    assert_eq!(
        pc.refactorize(csc(&diagonal(&[1.0, 1.0, 1.0, 1.0])).as_ref()).unwrap_err(),
        SsorError::PatternMismatch
    );
    let missing = from_triplets(2, 2, &[Triplet::new(0, 0, 1.0), Triplet::new(0, 1, 1.0)]);
    assert_eq!(
        Ssor::try_new(csc(&missing).as_ref(), SsorParams::default()).unwrap_err(),
        SsorError::MissingDiagonal { col: 1 }
    );
    let p = CscPattern::try_new(2, 2, vec![0, 2, 3], vec![1, 0, 1]).unwrap();
    let m = CscMatrix::try_new(p, vec![F64(1.0); 3]).unwrap();
    assert_eq!(
        Ssor::try_new(m.as_ref(), SsorParams::default()).unwrap_err(),
        SsorError::UnsortedRowIndices { col: 0 }
    );
}

// Polynomials

fn neumann(a: &Sparse, degree: usize, omega: f64) -> Poly<F64> {
    let kind = PolyKind::Neumann { omega: F64(omega) };
    Poly::try_new(csc(a).as_ref(), PolyParams { degree, kind }).unwrap()
}

fn chebyshev(a: &Sparse, degree: usize, lo: f64, hi: f64) -> Poly<F64> {
    let kind = PolyKind::Chebyshev { lambda_min: F64(lo), lambda_max: F64(hi) };
    Poly::try_new(csc(a).as_ref(), PolyParams { degree, kind }).unwrap()
}

#[test]
fn neumann_higher_degree_reduces_residual() {
    let a = tridiagonal(20, 2.5, -1.0, -1.0);
    let b = Mat::from_fn(20, 1, |i, _| (i % 5) as f64 - 2.0);
    let r_low = residual_ratio(&a, &neumann(&a, 2, 0.4), &b);
    let r_high = residual_ratio(&a, &neumann(&a, 12, 0.4), &b);
    assert!(r_high < r_low, "higher Neumann degree should reduce residual: {r_high} !< {r_low}");
}

#[test]
fn chebyshev_reduces_residual_with_exact_bounds() {
    let grid = 8;
    let a = laplacian_2d(grid);
    let h = std::f64::consts::PI / (grid as f64 + 1.0);
    let lam_min = 4.0 - 4.0 * h.cos();
    let lam_max = 4.0 - 4.0 * (grid as f64 * h).cos();
    let pc = chebyshev(&a, 8, lam_min, lam_max);
    let ratio = residual_ratio(&a, &pc, &cyclic_rhs(64));
    assert!(ratio < 0.5, "Chebyshev residual ratio {ratio} too large");
}

#[test]
fn auto_power_iteration_builds_and_helps() {
    let a = laplacian_2d(8);
    let est = BoundEstimate::PowerIteration { iters: 30 };
    let pc = Poly::try_new_auto(csc(&a).as_ref(), 6, est).unwrap();
    let ratio = residual_ratio(&a, &pc, &cyclic_rhs(64));
    assert!(ratio < 1.0, "auto Chebyshev should not diverge: {ratio}");
}

#[test]
fn refactorize_updates_values() {
    let a1 = tridiagonal(10, 3.0, -1.0, -1.0);
    let a2 = tridiagonal(10, 4.0, -1.5, -1.5);
    let fresh = neumann(&a2, 4, 0.3);
    let mut reused = neumann(&a1, 4, 0.3);
    reused.refactorize(csc(&a2).as_ref()).unwrap();
    assert_eq!(fresh.a_view().values, reused.a_view().values);
}

#[test]
fn rejects_bad_params() {
    let a = csc(&tridiagonal(4, 3.0, -1.0, -1.0));
    let build = |degree, kind| Poly::try_new(a.as_ref(), PolyParams { degree, kind }).unwrap_err();
    assert_eq!(build(0, PolyKind::Neumann { omega: F64(0.3) }), PolyError::ZeroDegree);
    assert_eq!(build(3, PolyKind::Neumann { omega: F64(-1.0) }), PolyError::InvalidOmega);
    let kind = PolyKind::Chebyshev { lambda_min: F64(2.0), lambda_max: F64(1.0) };
    assert_eq!(build(3, kind), PolyError::InvalidBounds);
}

#[test]
fn neumann_is_the_series() {
    let a = tridiagonal(4, 2.5, -1.0, -0.5);
    let w = 0.3;
    let b = column(&[1.0, -2.0, 0.5, 3.0]);
    let pc = neumann(&a, 3, w);
    assert_eq!((pc.dim(), pc.degree()), (4, 3));
    for op in [Op::Apply, Op::Conj, Op::Transpose, Op::Adjoint] {
        let mut dense = to_dense(&a);
        if op.is_transpose() {
            dense = dense.transpose().to_owned();
        }
        let mut term = b.clone();
        let mut sum = b.clone();
        for _ in 0..3 {
            let image = &dense * &term;
            term = Mat::from_fn(4, 1, |i, _| term[(i, 0)] - w * image[(i, 0)]);
            sum = &sum + &term;
        }
        let expected = Mat::from_fn(4, 1, |i, _| w * sum[(i, 0)]);
        assert_close(&apply(&pc, op, &b), &expected, 1e-13);
    }
}

/// `y^T (M^{-1} x) = (M^{-T} y)^T x`, on a nonsymmetric matrix.
#[test]
fn polynomials_transpose() {
    let a = tridiagonal(5, 3.0, -1.0, 0.5);
    let x = column(&[1.0, -2.0, 0.5, 3.0, -1.0]);
    let y = column(&[0.5, 4.0, -1.0, 2.0, 1.5]);
    for pc in [neumann(&a, 4, 0.25), chebyshev(&a, 4, 1.0, 5.0)] {
        let mx = apply(&pc, Op::Apply, &x);
        let my = apply(&pc, Op::Transpose, &y);
        let left: f64 = (0..5).map(|i| y[(i, 0)] * mx[(i, 0)]).sum();
        let right: f64 = (0..5).map(|i| my[(i, 0)] * x[(i, 0)]).sum();
        assert!((left - right).abs() < 1e-12);
        assert_close(&apply(&pc, Op::Adjoint, &y), &my, 1e-14);
        assert!((my[(0, 0)] - apply(&pc, Op::Apply, &y)[(0, 0)]).abs() > 1e-3);
    }
}

/// On a symmetric matrix the four forms are one.
#[test]
fn symmetric_polynomials_have_one_form() {
    let a = tridiagonal(5, 3.0, -1.0, -1.0);
    let x = column(&[1.0, -2.0, 0.5, 3.0, -1.0]);
    for pc in [neumann(&a, 4, 0.25), chebyshev(&a, 4, 1.0, 5.0)] {
        let mx = apply(&pc, Op::Apply, &x);
        for op in [Op::Conj, Op::Transpose, Op::Adjoint] {
            assert_close(&apply(&pc, op, &x), &mx, 1e-14);
        }
    }
}

/// A diagonal entry whose square underflows is still an entry.
#[test]
fn jacobi_takes_tiny_entries() {
    let pc = jacobi(&[1e-200, 2.0]).unwrap();
    assert_eq!(pc.inverse_diagonal()[0], F64(1e200));
    assert_eq!(
        jacobi(&[1e-200, 0.0]).unwrap_err(),
        JacobiError::ZeroDiagonalEntry { index: 1 }
    );
}

#[test]
fn chebyshev_of_degree_one_scales_by_the_centre() {
    let a = tridiagonal(3, 3.0, -1.0, -1.0);
    let b = column(&[1.0, -2.0, 4.0]);
    let out = apply(&chebyshev(&a, 1, 1.0, 7.0), Op::Apply, &b);
    assert_close(&out, &column(&[0.25, -0.5, 1.0]), 1e-15);
}

#[test]
fn chebyshev_residual_is_the_chebyshev_polynomial() {
    // On a diagonal matrix each entry of the residual is T_d((theta - a) / delta)
    // over T_d(theta / delta).
    let diag = [1.0, 2.0, 3.5, 5.0];
    let a = diagonal(&diag);
    let (lo, hi) = (1.0, 5.0);
    let (theta, delta) = ((lo + hi) / 2.0, (hi - lo) / 2.0);
    let t = |x: f64, d: usize| {
        let (mut p, mut q) = (1.0, x);
        for _ in 1..d {
            (p, q) = (q, 2.0 * x * q - p);
        }
        q
    };
    for degree in 1..6 {
        let x = apply(&chebyshev(&a, degree, lo, hi), Op::Apply, &column(&[1.0; 4]));
        for i in 0..4 {
            let residual = 1.0 - diag[i] * x[(i, 0)];
            let expected = t((theta - diag[i]) / delta, degree) / t(theta / delta, degree);
            assert!((residual - expected).abs() < 1e-12);
        }
    }
}

/// `T_d(x)`.
fn chebyshev_value(x: f64, d: usize) -> f64 {
    let (mut before, mut now) = (1.0, x);
    for _ in 1..d {
        (before, now) = (now, 2.0 * x * now - before);
    }
    now
}

#[test]
fn chebyshev_contracts_and_no_polynomial_does_better() {
    let (lo, hi) = (1.0, 5.0);
    let eigenvalues: Vec<f64> = (0..=40).map(|k| lo + (hi - lo) * k as f64 / 40.0).collect();
    let a = diagonal(&eigenvalues);
    let b = column(&[1.0; 41]);
    for degree in 1..6 {
        let bound = 1.0 / chebyshev_value((hi + lo) / (hi - lo), degree);
        let largest = |x: Mat<f64>| {
            (0..41).map(|i| (1.0 - eigenvalues[i] * x[(i, 0)]).abs()).fold(0.0, f64::max)
        };
        let best = largest(apply(&chebyshev(&a, degree, lo, hi), Op::Apply, &b));
        assert!(best <= bound + 1e-12);
        assert!(best >= bound - 1e-12);
        for omega in [0.2, 0.3, 1.0 / 3.0, 0.4] {
            let x = Mat::from_fn(41, 1, |i, _| {
                (1.0 - (1.0 - omega * eigenvalues[i]).powi(degree as i32)) / eigenvalues[i]
            });
            assert!(largest(x) >= bound - 1e-12);
        }
    }
}

#[test]
fn estimated_bounds_bracket_the_spectrum() {
    let a = csc(&tridiagonal(6, 4.0, -1.0, -1.0));
    let (lo, hi) = gershgorin_bounds(a.as_ref());
    assert_eq!((lo, hi), (F64(2.0), F64(6.0)));
    let top = power_iteration_max(a.as_ref(), 200).0;
    let exact = 4.0 + 2.0 * (std::f64::consts::PI / 7.0).cos();
    assert!((top - exact).abs() < 1e-8);
    let none = csc(&from_triplets(0, 0, &[]));
    assert_eq!(gershgorin_bounds(none.as_ref()), (F64(0.0), F64(0.0)));
    assert_eq!(power_iteration_max(none.as_ref(), 3), F64(0.0));
}

#[test]
fn auto_bounds_are_checked() {
    let build = |a: &Sparse, est| Poly::try_new_auto(csc(a).as_ref(), 2, est);
    let negative = diagonal(&[-1.0, -2.0]);
    assert_eq!(
        build(&negative, BoundEstimate::Gershgorin).unwrap_err(),
        PolyError::InvalidBounds
    );
    // A constant diagonal leaves no room between the two bounds.
    let flat = diagonal(&[2.0, 2.0]);
    assert_eq!(build(&flat, BoundEstimate::Gershgorin).unwrap_err(), PolyError::InvalidBounds);
    let manual = BoundEstimate::Manual { lambda_min: F64(1.0), lambda_max: F64(3.0) };
    let mut pc = build(&flat, manual).unwrap();
    assert_eq!(pc.refactorize(csc(&negative).as_ref()), Ok(()));
    let mut pc = build(&tridiagonal(4, 4.0, -1.0, -1.0), BoundEstimate::Gershgorin).unwrap();
    assert_eq!(
        pc.refactorize(csc(&tridiagonal(4, -4.0, -1.0, -1.0)).as_ref()),
        Err(PolyError::InvalidBounds)
    );
    assert_eq!(pc.refactorize(csc(&flat).as_ref()), Err(PolyError::PatternMismatch));
    assert_eq!(
        Poly::try_new_auto(csc(&not_square()).as_ref(), 2, manual).unwrap_err(),
        PolyError::NonSquareMatrix { nrows: 3, ncols: 4 }
    );
}

#[test]
fn scratch_follows_the_buffers() {
    let a = tridiagonal(10, 4.0, -1.0, -1.0);
    let n = neumann(&a, 2, 0.2);
    assert_eq!(n.apply_scratch(3).bytes, 8 * 10 * 3);
    assert_eq!(n.apply_in_place_scratch(3).bytes, 8 * 10 * 3 * 2);
    let c = chebyshev(&a, 2, 1.0, 6.0);
    assert_eq!((c.apply_scratch(3).bytes, c.apply_scratch(3).align), (8 * 10 * 3 * 2, 8));
    assert_eq!(c.apply_in_place_scratch(3).bytes, 8 * 10 * 3 * 3);
    let g = Fsai::try_new(csc(&a).as_ref(), FsaiPattern::LowerOfA, llt).unwrap();
    assert_eq!(g.apply_scratch(3).bytes, 8 * 10 * 3);
    let m = Spai::try_new(csc(&a).as_ref(), SpaiPattern::ColumnsOfA, lstsq).unwrap();
    assert_eq!(m.apply_in_place_scratch(2).bytes, 8 * 10 * 2);
    assert_eq!(faer_precond::scratch::Scratch::empty().align, 1);
}

// Sparse approximate inverses

#[test]
fn mod_diagonal_is_exact_inverse() {
    let a = csc(&diagonal(&[2.0, 4.0, 8.0]));
    let expected = column(&[1.0, 2.0, 2.0]);
    let pc = Fsai::try_new(a.as_ref(), FsaiPattern::LowerOfA, llt).unwrap();
    let mut x = column(&[2.0, 8.0, 16.0]);
    apply_in_place(&pc, Op::Apply, &mut x);
    assert_close(&x, &expected, 1e-12);
    let pc = Spai::try_new(a.as_ref(), SpaiPattern::ColumnsOfA, lstsq).unwrap();
    let mut x = column(&[2.0, 8.0, 16.0]);
    apply_in_place(&pc, Op::Apply, &mut x);
    assert_close(&x, &expected, 1e-12);
}

#[test]
fn mod_reduces_residual_on_laplacian() {
    let a = laplacian_2d(8);
    let b = cyclic_rhs(64);
    let pc = Fsai::try_new(csc(&a).as_ref(), FsaiPattern::LowerOfA, llt).unwrap();
    let ratio = residual_ratio(&a, &pc, &b);
    assert!(ratio < 1.0, "FSAI should reduce the residual: {ratio}");
    let pc = Ict::try_new(csc(&a).as_ref()).unwrap();
    assert!(residual_ratio(&a, &pc, &b) < 0.5, "ICT residual ratio too large");
    let pc = Iluk::try_new(csc(&a).as_ref(), 1).unwrap();
    assert!(residual_ratio(&a, &pc, &b) < 0.5, "ILU(1) residual ratio too large");
}

#[test]
fn denser_pattern_improves_accuracy() {
    let a = laplacian_2d(8);
    let b = cyclic_rhs(64);
    let p1 = Fsai::try_new(csc(&a).as_ref(), FsaiPattern::LowerOfA, llt).unwrap();
    let p2 = Fsai::try_new(csc(&a).as_ref(), FsaiPattern::LowerOfPower { power: 2 }, llt).unwrap();
    let r1 = residual_ratio(&a, &p1, &b);
    let r2 = residual_ratio(&a, &p2, &b);
    assert!(r2 < r1, "denser FSAI pattern should help: {r2} !< {r1}");
}

#[test]
fn symmetric_two_matvec_matches_dense() {
    let a = tridiagonal(6, 4.0, -1.0, -1.0);
    let pc = Fsai::try_new(csc(&a).as_ref(), FsaiPattern::LowerOfA, llt).unwrap();
    let rhs = column(&[1.0, -2.0, 3.0, 0.5, -1.0, 2.0]);
    let fwd = apply(&pc, Op::Apply, &rhs);
    assert_close(&fwd, &apply(&pc, Op::Transpose, &rhs), 1e-12);
    let g = view_to_dense(pc.g_view());
    assert_close(&fwd, &(g.transpose() * (&g * &rhs)), 1e-12);
}

#[test]
fn fsai_has_unit_diagonal() {
    let a = laplacian_2d(4);
    let pc = Fsai::try_new(csc(&a).as_ref(), FsaiPattern::LowerOfPower { power: 2 }, llt).unwrap();
    let g = view_to_dense(pc.g_view());
    let gag = &g * &to_dense(&a) * g.transpose();
    for i in 0..16 {
        assert!((gag[(i, i)] - 1.0).abs() < 1e-12);
    }
}

#[test]
fn fsai_reports_what_is_wrong() {
    let a = csc(&diagonal(&[1.0, -1.0]));
    assert_eq!(
        Fsai::try_new(a.as_ref(), FsaiPattern::default(), llt).unwrap_err(),
        FsaiError::NotPositiveDefinite { row: 1 }
    );
    assert_eq!(
        Fsai::try_new(a.as_ref(), FsaiPattern::LowerOfPower { power: 0 }, llt).unwrap_err(),
        FsaiError::InvalidPower
    );
    assert_eq!(
        Spai::try_new(a.as_ref(), SpaiPattern::ColumnsOfPower { power: 0 }, lstsq).unwrap_err(),
        SpaiError::InvalidPower
    );
    assert_eq!(SpaiPattern::default(), SpaiPattern::ColumnsOfA);
}

#[test]
fn fsai_rows_are_scaled_solutions() {
    let a = csc(&tridiagonal(3, 4.0, -1.0, -1.0));
    assert_eq!(lower_row_patterns(&a.pattern, 1), vec![vec![0], vec![0, 1], vec![1, 2]]);
    let block = local_block(a.as_ref(), &vec![0, 1]);
    assert_close(&from_library(&block), &rows(&[&[4.0, -1.0], &[-1.0, 4.0]]), 0.0);
    let g = to_library(&column(&[0.5, 0.25]));
    assert_eq!(scaled_row(&g), Some(vec![F64(1.0), F64(0.5)]));
    assert_eq!(scaled_row(&to_library(&column(&[0.5, -0.25]))), None);
}

#[test]
fn powers_follow_paths() {
    let a = csc(&tridiagonal(5, 4.0, -1.0, -1.0));
    assert_eq!(power_columns(&a.pattern, 1)[2], vec![1, 2, 3]);
    assert_eq!(power_columns(&a.pattern, 2)[0], vec![0, 1, 2]);
    assert_eq!(power_columns(&a.pattern, 4)[0], vec![0, 1, 2, 3, 4]);
    let one = csc(&diagonal(&[1.0]));
    assert_eq!(power_columns(&one.pattern, 3), vec![vec![0]]);
    let cycle = from_triplets(
        3,
        3,
        &[Triplet::new(1, 0, 1.0), Triplet::new(2, 1, 1.0), Triplet::new(0, 2, 1.0)],
    );
    assert_eq!(power_columns(&csc(&cycle).pattern, 2), vec![vec![2], vec![0], vec![1]]);
}

#[test]
fn reduces_residual_on_nonsymmetric() {
    let a = tridiagonal(12, 4.0, -2.0, -1.0);
    let pattern = SpaiPattern::ColumnsOfPower { power: 2 };
    let pc = Spai::try_new(csc(&a).as_ref(), pattern, lstsq).unwrap();
    let ratio = residual_ratio(&a, &pc, &cyclic_rhs(12));
    assert!(ratio < 1.0, "SPAI should reduce the residual: {ratio}");
}

#[test]
fn transpose_differs_from_forward_on_nonsymmetric() {
    let a = tridiagonal(8, 4.0, -2.0, -1.0);
    let pc = Spai::try_new(csc(&a).as_ref(), SpaiPattern::ColumnsOfA, lstsq).unwrap();
    let rhs = Mat::from_fn(8, 1, |i, _| (i % 5) as f64 - 2.0);
    let fwd = apply(&pc, Op::Apply, &rhs);
    let tr = apply(&pc, Op::Transpose, &rhs);
    let diff: f64 = (0..8).map(|i| (fwd[(i, 0)] - tr[(i, 0)]).abs()).sum();
    assert!(diff > 1e-8, "transpose apply should differ from forward");
    let m = view_to_dense(pc.m_view());
    assert_close(&fwd, &(&m * &rhs), 1e-13);
    assert_close(&tr, &(m.transpose() * &rhs), 1e-13);
}

#[test]
fn spai_minimises_the_frobenius_norm() {
    let a = tridiagonal(6, 4.0, -2.0, -1.0);
    let pc = Spai::try_new(csc(&a).as_ref(), SpaiPattern::ColumnsOfA, lstsq).unwrap();
    let frobenius = |m: &Mat<f64>| {
        let r = &to_dense(&a) * m - Mat::<f64>::identity(6, 6);
        (0..6).map(|j| (0..6).map(|i| r[(i, j)] * r[(i, j)]).sum::<f64>()).sum::<f64>()
    };
    let m = view_to_dense(pc.m_view());
    let least = frobenius(&m);
    let p = &pc.m_view().pattern;
    for j in 0..6 {
        for k in p.col_ptr[j]..p.col_ptr[j + 1] {
            for step in [-0.1, -1e-3, 1e-3, 0.1] {
                let mut other = m.clone();
                other[(p.row_idx[k], j)] += step;
                assert!(frobenius(&other) > least);
            }
        }
    }
}

#[test]
fn spai_is_exact_with_a_full_pattern() {
    let a = tridiagonal(4, 4.0, -2.0, -1.0);
    let pattern = SpaiPattern::ColumnsOfPower { power: 3 };
    let pc = Spai::try_new(csc(&a).as_ref(), pattern, lstsq).unwrap();
    assert_close(&(&to_dense(&a) * &view_to_dense(pc.m_view())), &Mat::identity(4, 4), 1e-12);
}

#[test]
fn mod_out_of_place_matches_in_place() {
    fn check<P: Preconditioner<F64>>(pc: &P, rhs: &Mat<f64>) {
        let mut inplace = rhs.clone();
        apply_in_place(pc, Op::Apply, &mut inplace);
        assert_close(&apply(pc, Op::Apply, rhs), &inplace, 1e-12);
    }
    let a = csc(&advection_diffusion_2d(5, 4.0, 0.3));
    let rhs = Mat::from_fn(25, 2, |i, j| ((i + 3 * j) % 11) as f64 - 4.0);
    check(&Ilutp::try_new(a.as_ref()).unwrap(), &rhs);
    let rhs = Mat::from_fn(12, 2, |i, j| ((i + 3 * j) % 7) as f64 - 3.0);
    check(&chebyshev(&tridiagonal(12, 3.0, -1.0, -1.0), 5, 1.0, 5.0), &rhs);
    let a = csc(&tridiagonal(10, 4.0, -2.0, -1.0));
    let rhs = Mat::from_fn(10, 2, |i, j| ((i + 3 * j) % 7) as f64 - 3.0);
    check(&Spai::try_new(a.as_ref(), SpaiPattern::ColumnsOfA, lstsq).unwrap(), &rhs);
    let a = csc(&tridiagonal(7, 4.0, -2.0, -1.0));
    let rhs = Mat::from_fn(7, 2, |i, j| ((i + 2 * j) % 5) as f64 - 2.0);
    check(&Ssor::try_new(a.as_ref(), SsorParams { omega: F64(1.2) }).unwrap(), &rhs);
}

// Adapter

#[test]
fn inner_accessors_work() {
    let a = rows(&[&[4.0, 1.0], &[1.0, 3.0]]);
    let solver = || SolvePrecond::new(Llt::new(a.as_ref(), Side::Lower).unwrap());
    assert_eq!(solver().inner().nrows(), 2);
    assert_eq!(solver().into_inner().nrows(), 2);
}
