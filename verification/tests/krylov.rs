//! The preconditioners inside faer's iterative solvers.
#![allow(dead_code)]
use dyn_stack::{MemBuffer, MemStack, StackReq};
use faer::linalg::lu::partial_pivoting::{factor as plu_factor, solve as plu_solve};
use faer::linalg::solvers::{Llt, ShapeCore, SolveCore};
use faer::matrix_free::bicgstab::{bicgstab, bicgstab_scratch, BicgParams};
use faer::matrix_free::conjugate_gradient::{
    conjugate_gradient, conjugate_gradient_scratch, CgParams,
};
use faer::matrix_free::{IdentityPrecond, LinOp, Precond};
use faer::perm::PermRef;
use faer::sparse::{SparseColMat, Triplet};
use faer::{Conj, Mat, MatMut, MatRef, Par, Side};
use faer_precond::block_jacobi::BlockFactor;
use faer_precond::dense::Mat as Dense;
use faer_precond::op::{Op, Preconditioner, Work};
use faer_precond::scalar::{RealScalar, Scalar};
use faer_precond::sparse::{CscMatrix, CscPattern, CscRef};
use faer_precond::{BlockJacobiPrecond, Ic0, Ilu0, Ilutp, JacobiPrecond, SolvePrecond};

/// Double precision as a matrix entry.
#[derive(Debug, Clone, Copy, PartialEq)]
struct F64(f64);

impl RealScalar for F64 {
    fn null() -> Self {
        F64(0.0)
    }
    fn plus(self, other: Self) -> Self {
        F64(self.0 + other.0)
    }
    fn minus(self, other: Self) -> Self {
        F64(self.0 - other.0)
    }
    fn times(self, other: Self) -> Self {
        F64(self.0 * other.0)
    }
    fn over(self, other: Self) -> Self {
        F64(self.0 / other.0)
    }
    fn reciprocal(self) -> Self {
        F64(self.0.recip())
    }
    fn root(self) -> Self {
        F64(self.0.sqrt())
    }
    fn magnitude(self) -> Self {
        F64(self.0.abs())
    }
    fn below(self, other: Self) -> bool {
        self.0 < other.0
    }
    fn at_most(self, other: Self) -> bool {
        self.0 <= other.0
    }
    fn is_null(self) -> bool {
        self.0 == 0.0
    }
    fn is_finite_spec(self) -> bool {
        self.0.is_finite()
    }
    fn ratio(num: u64, den: u64) -> Self {
        F64(num as f64 / den as f64)
    }
    fn nearest(self) -> usize {
        self.0.round() as usize
    }
    fn below_irreflexive(_a: Self) {}
    fn below_transitive(_a: Self, _b: Self, _c: Self) {}
    fn copy(&self) -> Self {
        *self
    }
    fn zero() -> Self {
        F64(0.0)
    }
    fn add(&self, other: &Self) -> Self {
        RealScalar::plus(*self, *other)
    }
    fn sub(&self, other: &Self) -> Self {
        RealScalar::minus(*self, *other)
    }
    fn mul(&self, other: &Self) -> Self {
        RealScalar::times(*self, *other)
    }
    fn div(&self, other: &Self) -> Self {
        self.over(*other)
    }
    fn recip(&self) -> Self {
        RealScalar::reciprocal(*self)
    }
    fn sqrt(&self) -> Self {
        self.root()
    }
    fn abs(&self) -> Self {
        RealScalar::magnitude(*self)
    }
    fn lt(&self, other: &Self) -> bool {
        self.below(*other)
    }
    fn le(&self, other: &Self) -> bool {
        self.at_most(*other)
    }
    fn is_zero(&self) -> bool {
        self.is_null()
    }
    fn is_finite(&self) -> bool {
        self.is_finite_spec()
    }
    fn from_ratio(num: u64, den: u64) -> Self {
        Self::ratio(num, den)
    }
    fn round_to_usize(&self) -> usize {
        self.nearest()
    }
}

impl Scalar for F64 {
    type Real = F64;
    type Tuning = F64;
    fn null() -> Self {
        F64(0.0)
    }
    fn unit() -> Self {
        F64(1.0)
    }
    fn plus(self, other: Self) -> Self {
        F64(self.0 + other.0)
    }
    fn minus(self, other: Self) -> Self {
        F64(self.0 - other.0)
    }
    fn times(self, other: Self) -> Self {
        F64(self.0 * other.0)
    }
    fn negated(self) -> Self {
        F64(-self.0)
    }
    fn reciprocal(self) -> Self {
        F64(self.0.recip())
    }
    fn conjugate(self) -> Self {
        self
    }
    fn real_part(self) -> F64 {
        self
    }
    fn embed(r: F64) -> Self {
        r
    }
    fn magnitude(self) -> F64 {
        F64(self.0.abs())
    }
    fn magnitude_squared(self) -> F64 {
        F64(self.0 * self.0)
    }
    fn scaled(self, r: F64) -> Self {
        F64(self.0 * r.0)
    }
    fn tuned(p: F64) -> F64 {
        p
    }
    fn copy(&self) -> Self {
        *self
    }
    fn zero() -> Self {
        F64(0.0)
    }
    fn one() -> Self {
        F64(1.0)
    }
    fn add(&self, other: &Self) -> Self {
        Scalar::plus(*self, *other)
    }
    fn sub(&self, other: &Self) -> Self {
        Scalar::minus(*self, *other)
    }
    fn mul(&self, other: &Self) -> Self {
        Scalar::times(*self, *other)
    }
    fn neg(&self) -> Self {
        self.negated()
    }
    fn recip(&self) -> Self {
        Scalar::reciprocal(*self)
    }
    fn conj(&self) -> Self {
        self.conjugate()
    }
    fn re(&self) -> F64 {
        self.real_part()
    }
    fn from_real(r: &F64) -> Self {
        Self::embed(*r)
    }
    fn abs(&self) -> F64 {
        Scalar::magnitude(*self)
    }
    fn abs2(&self) -> F64 {
        self.magnitude_squared()
    }
    fn mul_real(&self, r: &F64) -> Self {
        self.scaled(*r)
    }
    fn from_tuning(p: &F64) -> F64 {
        *p
    }
}

type Sparse = SparseColMat<usize, f64>;

/// The matrix as this library stores it.
fn csc(a: &Sparse) -> CscMatrix<F64> {
    let a = a.as_ref();
    let mut col_ptr = vec![0];
    let mut row_idx = Vec::new();
    let mut values = Vec::new();
    for j in 0..a.ncols() {
        for (r, v) in a.symbolic().row_idx_of_col_raw(j).iter().zip(a.val_of_col(j)) {
            row_idx.push(*r);
            values.push(F64(*v));
        }
        col_ptr.push(row_idx.len());
    }
    let pattern = CscPattern::try_new(a.nrows(), a.ncols(), col_ptr, row_idx).unwrap();
    CscMatrix::try_new(pattern, values).unwrap()
}

fn to_library(m: &Mat<f64>) -> Dense<F64> {
    let mut data = Vec::new();
    for j in 0..m.ncols() {
        for i in 0..m.nrows() {
            data.push(F64(m[(i, j)]));
        }
    }
    Dense::try_new(m.nrows(), m.ncols(), data).unwrap()
}

fn from_library(m: &Dense<F64>) -> Mat<f64> {
    Mat::from_fn(m.nrows, m.ncols, |i, j| m.get(i, j).0)
}

fn apply_in_place<P: Preconditioner<F64>>(pc: &P, op: Op, rhs: &mut Mat<f64>) {
    let mut m = to_library(rhs);
    pc.apply_in_place(op, &mut m, &mut Work::new());
    *rhs = from_library(&m);
}

fn apply<P: Preconditioner<F64>>(pc: &P, op: Op, rhs: &Mat<f64>) -> Mat<f64> {
    let mut out = to_library(&Mat::zeros(rhs.nrows(), rhs.ncols()));
    pc.apply(op, &mut out, &to_library(rhs), &mut Work::new());
    from_library(&out)
}

fn assert_close(lhs: &Mat<f64>, rhs: &Mat<f64>, tol: f64) {
    assert_eq!(lhs.nrows(), rhs.nrows());
    assert_eq!(lhs.ncols(), rhs.ncols());
    for j in 0..lhs.ncols() {
        for i in 0..lhs.nrows() {
            let diff = (lhs[(i, j)] - rhs[(i, j)]).abs();
            assert!(diff <= tol, "mismatch at ({i}, {j}): diff={diff}");
        }
    }
}

fn column(x: &[f64]) -> Mat<f64> {
    Mat::from_fn(x.len(), 1, |i, _| x[i])
}

fn to_dense(a: &Sparse) -> Mat<f64> {
    view_to_dense(csc(a).as_ref())
}

fn view_to_dense(a: CscRef<'_, F64>) -> Mat<f64> {
    let mut dense = Mat::zeros(a.pattern.nrows, a.pattern.ncols);
    for j in 0..a.pattern.ncols {
        for p in a.pattern.col_ptr[j]..a.pattern.col_ptr[j + 1] {
            dense[(a.pattern.row_idx[p], j)] = a.values[p].0;
        }
    }
    dense
}

fn norm(x: &Mat<f64>) -> f64 {
    let mut sum = 0.0;
    for i in 0..x.nrows() {
        sum += x[(i, 0)] * x[(i, 0)];
    }
    sum.sqrt()
}

fn residual_ratio<P: Preconditioner<F64>>(a: &Sparse, pc: &P, b: &Mat<f64>) -> f64 {
    let mut x = b.clone();
    apply_in_place(pc, Op::Apply, &mut x);
    norm(&(&to_dense(a) * &x - b)) / norm(b)
}

fn from_triplets(n: usize, m: usize, t: &[Triplet<usize, usize, f64>]) -> Sparse {
    SparseColMat::try_new_from_triplets(n, m, t).unwrap()
}

/// A matrix with `diag` on the diagonal, `sub` below it and `sup` above it.
fn tridiagonal(n: usize, diag: f64, sub: f64, sup: f64) -> Sparse {
    let mut t = Vec::new();
    for i in 0..n {
        t.push(Triplet::new(i, i, diag));
        if i > 0 {
            t.push(Triplet::new(i, i - 1, sub));
            t.push(Triplet::new(i - 1, i, sup));
        }
    }
    from_triplets(n, n, &t)
}

/// The 5-point stencil on a `grid x grid` mesh with an added first-derivative
/// term of strength `beta`; `beta = 0` is the Laplacian.
fn advection_diffusion_2d(grid: usize, diag: f64, beta: f64) -> Sparse {
    let mut t = Vec::new();
    for gy in 0..grid {
        for gx in 0..grid {
            let idx = gy * grid + gx;
            t.push(Triplet::new(idx, idx, diag));
            if gx > 0 {
                t.push(Triplet::new(idx, idx - 1, -1.0 - beta));
            }
            if gx + 1 < grid {
                t.push(Triplet::new(idx, idx + 1, -1.0 + beta));
            }
            if gy > 0 {
                t.push(Triplet::new(idx, idx - grid, -1.0));
            }
            if gy + 1 < grid {
                t.push(Triplet::new(idx, idx + grid, -1.0));
            }
        }
    }
    from_triplets(grid * grid, grid * grid, &t)
}

fn laplacian_2d(grid: usize) -> Sparse {
    advection_diffusion_2d(grid, 4.0, 0.0)
}

/// Three diagonal entries in a matrix of three rows and four columns.
fn not_square() -> Sparse {
    let t: Vec<_> = (0..3).map(|i| Triplet::new(i, i, 1.0)).collect();
    from_triplets(3, 4, &t)
}

fn cyclic_rhs(n: usize) -> Mat<f64> {
    Mat::from_fn(n, 1, |i, _| (i % 7) as f64 - 3.0)
}

/// A preconditioner of this library as an operator for faer's solvers.
#[derive(Debug)]
struct Operator<'a, P>(&'a P);

impl<P: Preconditioner<F64> + Sync + std::fmt::Debug> LinOp<f64> for Operator<'_, P> {
    fn apply_scratch(&self, _rhs_ncols: usize, _par: Par) -> StackReq {
        StackReq::EMPTY
    }
    fn nrows(&self) -> usize {
        self.0.nrows()
    }
    fn ncols(&self) -> usize {
        self.0.ncols()
    }
    fn apply(&self, mut out: MatMut<'_, f64>, rhs: MatRef<'_, f64>, _: Par, _: &mut MemStack) {
        out.copy_from(apply(self.0, Op::Apply, &rhs.to_owned()));
    }
    fn conj_apply(&self, mut out: MatMut<'_, f64>, rhs: MatRef<'_, f64>, _: Par, _: &mut MemStack) {
        out.copy_from(apply(self.0, Op::Conj, &rhs.to_owned()));
    }
}

impl<P: Preconditioner<F64> + Sync + std::fmt::Debug> Precond<f64> for Operator<'_, P> {
    fn apply_in_place_scratch(&self, _rhs_ncols: usize, _par: Par) -> StackReq {
        StackReq::EMPTY
    }
    fn apply_in_place(&self, mut rhs: MatMut<'_, f64>, _: Par, _: &mut MemStack) {
        let x = apply(self.0, Op::Apply, &rhs.as_ref().to_owned());
        rhs.copy_from(x);
    }
    fn conj_apply_in_place(&self, mut rhs: MatMut<'_, f64>, _: Par, _: &mut MemStack) {
        let x = apply(self.0, Op::Conj, &rhs.as_ref().to_owned());
        rhs.copy_from(x);
    }
}

/// Block Jacobi as an operator for faer's solvers.
#[derive(Debug)]
struct BlockOperator(BlockJacobiPrecond<F64>);

impl BlockOperator {
    fn run(&self, op: Op, rhs: MatRef<'_, f64>) -> Mat<f64> {
        let mut x = to_library(&rhs.to_owned());
        self.0.apply_in_place(op, &mut x, solve);
        from_library(&x)
    }
}

impl LinOp<f64> for BlockOperator {
    fn apply_scratch(&self, _rhs_ncols: usize, _par: Par) -> StackReq {
        StackReq::EMPTY
    }
    fn nrows(&self) -> usize {
        self.0.dim()
    }
    fn ncols(&self) -> usize {
        self.0.dim()
    }
    fn apply(&self, mut out: MatMut<'_, f64>, rhs: MatRef<'_, f64>, _: Par, _: &mut MemStack) {
        out.copy_from(self.run(Op::Apply, rhs));
    }
    fn conj_apply(&self, mut out: MatMut<'_, f64>, rhs: MatRef<'_, f64>, _: Par, _: &mut MemStack) {
        out.copy_from(self.run(Op::Conj, rhs));
    }
}

impl Precond<f64> for BlockOperator {
    fn apply_in_place_scratch(&self, _rhs_ncols: usize, _par: Par) -> StackReq {
        StackReq::EMPTY
    }
    fn apply_in_place(&self, mut rhs: MatMut<'_, f64>, _: Par, _: &mut MemStack) {
        let x = self.run(Op::Apply, rhs.as_ref());
        rhs.copy_from(x);
    }
    fn conj_apply_in_place(&self, mut rhs: MatMut<'_, f64>, _: Par, _: &mut MemStack) {
        let x = self.run(Op::Conj, rhs.as_ref());
        rhs.copy_from(x);
    }
}

/// A wrapped solver as an operator for faer's solvers.
#[derive(Debug)]
struct SolveOperator(SolvePrecond<Llt<f64>>);

/// Asks a Cholesky factorisation of faer for a solution.
fn llt_solve(solver: &Llt<f64>, op: Op, b: &Dense<F64>) -> Dense<F64> {
    let mut x = from_library(b);
    let conj = if op.is_conj() { Conj::Yes } else { Conj::No };
    if op.is_transpose() {
        solver.solve_transpose_in_place_with_conj(conj, x.as_mut());
    } else {
        solver.solve_in_place_with_conj(conj, x.as_mut());
    }
    to_library(&x)
}

impl SolveOperator {
    fn run(&self, op: Op, rhs: MatRef<'_, f64>) -> Mat<f64> {
        let mut x = to_library(&rhs.to_owned());
        self.0.apply_in_place(op, &mut x, llt_solve);
        from_library(&x)
    }
}

impl LinOp<f64> for SolveOperator {
    fn apply_scratch(&self, _rhs_ncols: usize, _par: Par) -> StackReq {
        StackReq::EMPTY
    }
    fn nrows(&self) -> usize {
        self.0.inner().nrows()
    }
    fn ncols(&self) -> usize {
        self.0.inner().ncols()
    }
    fn apply(&self, mut out: MatMut<'_, f64>, rhs: MatRef<'_, f64>, _: Par, _: &mut MemStack) {
        out.copy_from(self.run(Op::Apply, rhs));
    }
    fn conj_apply(&self, mut out: MatMut<'_, f64>, rhs: MatRef<'_, f64>, _: Par, _: &mut MemStack) {
        out.copy_from(self.run(Op::Conj, rhs));
    }
}

impl Precond<f64> for SolveOperator {
    fn apply_in_place_scratch(&self, _rhs_ncols: usize, _par: Par) -> StackReq {
        StackReq::EMPTY
    }
    fn apply_in_place(&self, mut rhs: MatMut<'_, f64>, _: Par, _: &mut MemStack) {
        let x = self.run(Op::Apply, rhs.as_ref());
        rhs.copy_from(x);
    }
    fn conj_apply_in_place(&self, mut rhs: MatMut<'_, f64>, _: Par, _: &mut MemStack) {
        let x = self.run(Op::Conj, rhs.as_ref());
        rhs.copy_from(x);
    }
}

fn lu(b: &Dense<F64>) -> BlockFactor<F64> {
    let n = b.nrows;
    let mut m = from_library(b);
    let mut perm_fwd = vec![0usize; n];
    let mut perm_inv = vec![0usize; n];
    let req =
        plu_factor::lu_in_place_scratch::<usize, f64>(n, n, Par::Seq, Default::default());
    let mut buf = MemBuffer::new(req);
    let _ = plu_factor::lu_in_place::<usize, f64>(
        m.as_mut(),
        &mut perm_fwd,
        &mut perm_inv,
        Par::Seq,
        MemStack::new(&mut buf),
        Default::default(),
    );
    BlockFactor { lu: to_library(&m), perm_fwd, perm_inv }
}

fn solve(
    f: &Dense<F64>,
    perm_fwd: &[usize],
    perm_inv: &[usize],
    _op: Op,
    b: &Dense<F64>,
) -> Dense<F64> {
    let m = from_library(f);
    let mut x = from_library(b);
    let req = plu_solve::solve_in_place_scratch::<usize, f64>(f.nrows, b.ncols, Par::Seq);
    let mut buf = MemBuffer::new(req);
    plu_solve::solve_in_place_with_conj(
        m.as_ref(),
        m.as_ref(),
        PermRef::new_checked(perm_fwd, perm_inv, f.nrows),
        Conj::No,
        x.as_mut(),
        Par::Seq,
        MemStack::new(&mut buf),
    );
    to_library(&x)
}

fn cg_iter_count<P: Precond<f64>>(a: &Sparse, precond: P) -> usize {
    let n = a.nrows();
    let b = cyclic_rhs(n);
    let mut out = Mat::<f64>::zeros(n, 1);
    let params =
        CgParams::<f64> { max_iters: 500, rel_tolerance: 1e-10, ..Default::default() };
    let mut buf =
        MemBuffer::new(conjugate_gradient_scratch(&precond, a.as_ref(), 1, Par::Seq));
    let info = conjugate_gradient(
        out.as_mut(),
        precond,
        a.as_ref(),
        b.as_ref(),
        params,
        |_| {},
        Par::Seq,
        MemStack::new(&mut buf),
    )
    .expect("CG should converge");
    assert!(info.rel_residual <= params.rel_tolerance * 10.0);
    info.iter_count
}

fn bicgstab_iter_count<P1: Precond<f64>>(a: &Sparse, left: P1) -> usize {
    let n = a.nrows();
    let b = cyclic_rhs(n);
    let mut out = Mat::<f64>::zeros(n, 1);
    let right = IdentityPrecond { dim: n };
    let params =
        BicgParams::<f64> { max_iters: 500, rel_tolerance: 1e-10, ..Default::default() };
    let mut buf = MemBuffer::new(bicgstab_scratch(&left, &right, a.as_ref(), 1, Par::Seq));
    let info = bicgstab(
        out.as_mut(),
        left,
        right,
        a.as_ref(),
        b.as_ref(),
        params,
        |_| {},
        Par::Seq,
        MemStack::new(&mut buf),
    )
    .expect("BiCGSTAB should converge");
    assert!(info.rel_residual <= params.rel_tolerance * 10.0);
    info.iter_count
}

#[test]
fn ic0_accelerates_cg_on_laplacian() {
    let a = laplacian_2d(12);
    let baseline = cg_iter_count(&a, IdentityPrecond { dim: a.nrows() });
    let pc = Ic0::try_new(csc(&a).as_ref()).expect("Laplacian is SPD");
    let iters = cg_iter_count(&a, Operator(&pc));
    assert!(iters < baseline, "IC(0) should accelerate CG: baseline {baseline} vs {iters}");
}

#[test]
fn jacobi_accelerates_or_matches_cg_on_laplacian() {
    let a = laplacian_2d(10);
    let n = a.nrows();
    let baseline = cg_iter_count(&a, IdentityPrecond { dim: n });
    let dense = to_dense(&a);
    let diag: Vec<F64> = (0..n).map(|i| F64(dense[(i, i)])).collect();
    let pc = JacobiPrecond::try_from_diagonal(&diag).unwrap();
    let iters = cg_iter_count(&a, Operator(&pc));
    assert!(iters <= baseline, "Jacobi should not regress CG: baseline {baseline} vs {iters}");
}

#[test]
fn ilu0_accelerates_bicgstab_on_nonsymmetric_problem() {
    let a = tridiagonal(64, 4.0, -2.0, -1.0);
    let baseline = bicgstab_iter_count(&a, IdentityPrecond { dim: a.nrows() });
    let pc = Ilu0::try_new(csc(&a).as_ref()).expect("LU pattern is non-singular");
    let iters = bicgstab_iter_count(&a, Operator(&pc));
    assert!(iters < baseline, "ILU(0) should accelerate BiCGSTAB: {baseline} vs {iters}");
}

#[test]
fn ilutp_accelerates_bicgstab_on_nonsymmetric_problem() {
    let a = advection_diffusion_2d(12, 4.0, 0.7);
    let baseline = bicgstab_iter_count(&a, IdentityPrecond { dim: a.nrows() });
    let pc = Ilutp::try_new(csc(&a).as_ref()).expect("ILUTP factorisation");
    let iters = bicgstab_iter_count(&a, Operator(&pc));
    assert!(iters < baseline, "ILUTP should accelerate BiCGSTAB: {baseline} vs {iters}");
}

#[test]
fn ilutp_outperforms_ilu0_on_strongly_nonsymmetric_problem() {
    let a = advection_diffusion_2d(12, 4.0, 0.9);
    let ilu0 = Ilu0::try_new(csc(&a).as_ref()).expect("ILU(0) factorisation");
    let ilu0_iters = bicgstab_iter_count(&a, Operator(&ilu0));
    let ilutp = Ilutp::try_new(csc(&a).as_ref()).expect("ILUTP factorisation");
    let ilutp_iters = bicgstab_iter_count(&a, Operator(&ilutp));
    assert!(ilutp_iters <= ilu0_iters, "ILU(0) {ilu0_iters} vs ILUTP {ilutp_iters}");
}

#[test]
fn block_jacobi_with_block_diagonal_a_converges_in_one_step() {
    let entries = [
        [4.0, 1.0, 0.0, 0.0, 0.0],
        [2.0, 3.0, 0.0, 0.0, 0.0],
        [0.0, 0.0, 6.0, 1.0, 2.0],
        [0.0, 0.0, 3.0, 5.0, 1.0],
        [0.0, 0.0, 2.0, 1.0, 4.0],
    ];
    let a = Mat::from_fn(5, 5, |i, j| entries[i][j]);
    let pc = BlockOperator(BlockJacobiPrecond::try_new(&to_library(&a), &[0, 2, 5], lu).unwrap());
    let b = Mat::from_fn(5, 1, |i, _| i as f64 + 1.0);
    let mut out = Mat::<f64>::zeros(5, 1);
    let params = BicgParams::<f64> { max_iters: 5, rel_tolerance: 1e-12, ..Default::default() };
    let identity = IdentityPrecond { dim: 5 };
    let mut buf = MemBuffer::new(bicgstab_scratch(&pc, identity, a.as_ref(), 1, Par::Seq));
    let info = bicgstab(
        out.as_mut(),
        &pc,
        identity,
        a.as_ref(),
        b.as_ref(),
        params,
        |_| {},
        Par::Seq,
        MemStack::new(&mut buf),
    )
    .expect("BiCGSTAB should converge");
    assert!(info.iter_count <= 1, "should converge in 1 iter, got {}", info.iter_count);
}

#[test]
fn ic0_refactorize_drives_cg_on_changed_values() {
    let a1 = laplacian_2d(8);
    let a2 = advection_diffusion_2d(8, 6.0, 0.0);
    let mut pc = Ic0::try_new(csc(&a1).as_ref()).unwrap();
    pc.refactorize(csc(&a2).as_ref()).unwrap();
    let iters = cg_iter_count(&a2, Operator(&pc));
    let baseline = cg_iter_count(&a2, IdentityPrecond { dim: a2.nrows() });
    assert!(iters < baseline, "IC(0) refactorize: baseline {baseline} vs reused {iters}");
}

fn test_solver() -> SolvePrecond<Llt<f64>> {
    let a = Mat::from_fn(2, 2, |i, j| [[4.0, 1.0], [1.0, 3.0]][i][j]);
    SolvePrecond::new(Llt::new(a.as_ref(), Side::Lower).expect("matrix should be SPD"))
}

fn test_rhs() -> Dense<F64> {
    to_library(&column(&[1.0, 2.0]))
}

fn solve_apply(pc: &SolvePrecond<Llt<f64>>, op: Op) -> Mat<f64> {
    let mut out = to_library(&Mat::zeros(2, 1));
    pc.apply(op, &mut out, &test_rhs(), llt_solve);
    from_library(&out)
}

fn solve_apply_in_place(pc: &SolvePrecond<Llt<f64>>, op: Op) -> Mat<f64> {
    let mut x = test_rhs();
    pc.apply_in_place(op, &mut x, llt_solve);
    from_library(&x)
}

#[test]
fn exposes_dimensions() {
    let pc = SolveOperator(test_solver());
    assert_eq!(pc.nrows(), 2);
    assert_eq!(pc.ncols(), 2);
}

#[test]
fn apply_solves_system() {
    let out = solve_apply(&test_solver(), Op::Apply);
    assert_close(&out, &column(&[1.0 / 11.0, 7.0 / 11.0]), 1e-12);
}

#[test]
fn solve_apply_in_place_matches_apply() {
    let pc = test_solver();
    let out = solve_apply(&pc, Op::Apply);
    assert_close(&out, &solve_apply_in_place(&pc, Op::Apply), 1e-12);
}

#[test]
fn transpose_apply_is_usable() {
    let out = solve_apply(&test_solver(), Op::Transpose);
    assert_close(&out, &column(&[1.0 / 11.0, 7.0 / 11.0]), 1e-12);
}

#[test]
fn adjoint_apply_is_usable() {
    let out = solve_apply(&test_solver(), Op::Adjoint);
    assert_close(&out, &column(&[1.0 / 11.0, 7.0 / 11.0]), 1e-12);
}

#[test]
fn solve_transpose_and_adjoint_in_place_are_usable() {
    let pc = test_solver();
    let expected = column(&[1.0 / 11.0, 7.0 / 11.0]);
    assert_close(&solve_apply_in_place(&pc, Op::Transpose), &expected, 1e-12);
    assert_close(&solve_apply_in_place(&pc, Op::Adjoint), &expected, 1e-12);
}

#[test]
fn solve_precond_with_exact_llt_converges_in_one_step() {
    let a = laplacian_2d(6);
    let n = a.nrows();
    let llt = Llt::new(to_dense(&a).as_ref(), Side::Lower).expect("Laplacian is SPD");
    let pc = SolveOperator(SolvePrecond::new(llt));
    let b = Mat::<f64>::from_fn(n, 1, |i, _| (i as f64 - 3.0).sin());
    let mut out = Mat::<f64>::zeros(n, 1);
    let params =
        CgParams::<f64> { max_iters: 5, rel_tolerance: 1e-12, ..Default::default() };
    let mut buf = MemBuffer::new(conjugate_gradient_scratch(&pc, a.as_ref(), 1, Par::Seq));
    let info = conjugate_gradient(
        out.as_mut(),
        &pc,
        a.as_ref(),
        b.as_ref(),
        params,
        |_| {},
        Par::Seq,
        MemStack::new(&mut buf),
    )
    .expect("CG should converge");
    assert!(
        info.iter_count <= 1,
        "exact-preconditioned CG should converge in 1 iter, got {}",
        info.iter_count,
    );
}
