//! Point-Jacobi (diagonal) preconditioner.
//!
//! The simplest preconditioner there is: `M = diag(A)`. Applying it divides
//! each entry of the right-hand side by the matching diagonal entry of `A`.
//! Construction inverts the diagonal once, and every apply is an element-wise
//! product.
use crate::conjugates::conj_all;
use crate::dense::Mat;
use crate::linalg::{scale_rows_in_place, scaled_rows};
use crate::op::{Op, Preconditioner, Work};
use crate::scalar::{
    conj_if, exact_conjugation, exact_field, lemma_conj_if_inverts, lemma_reciprocal_inverts,
    lemma_times_associates, lemma_times_commutes, lemma_unit_is_neutral, vanishes, RealScalar,
    Scalar,
};
use vstd::prelude::*;

verus! {

/// Why a [`JacobiPrecond`] could not be built.
#[derive(Debug, Clone, Copy, PartialEq, Eq)]
pub enum JacobiError {
    /// The source matrix was not square.
    NonSquareMatrix { nrows: usize, ncols: usize },
    /// Diagonal entry `index` was zero, so it cannot be inverted.
    ZeroDiagonalEntry { index: usize },
}

/// Point-Jacobi preconditioner: `M^{-1} y = diag(A)^{-1} y`.
///
/// Stores the reciprocals of `A`'s diagonal and multiplies them into the
/// right-hand side.
#[derive(Debug, Clone)]
pub struct JacobiPrecond<T> {
    inv_diag: Vec<T>,
}

/// The first entry of `diag` that cannot be inverted, if there is one.
pub open spec fn is_first_zero<T: Scalar>(diag: Seq<T>, index: int) -> bool {
    &&& 0 <= index < diag.len()
    &&& vanishes(diag[index])
    &&& forall|k: int| 0 <= k < index ==> !vanishes(#[trigger] diag[k])
}

/// No entry of `diag` is zero.
pub open spec fn invertible<T: Scalar>(diag: Seq<T>) -> bool {
    forall|k: int| 0 <= k < diag.len() ==> !vanishes(#[trigger] diag[k])
}

/// The reciprocals of `diag`.
pub open spec fn inverted<T: Scalar>(diag: Seq<T>) -> Seq<T> {
    Seq::new(diag.len(), |k: int| diag[k].reciprocal())
}

/// The diagonal of a square dense matrix.
pub open spec fn diagonal<T>(m: Mat<T>) -> Seq<T> {
    Seq::new(m.nrows as nat, |i: int| m.at(i, i))
}

impl<T> JacobiPrecond<T> {
    /// The stored reciprocals.
    pub closed spec fn inv(&self) -> Seq<T> {
        self.inv_diag@
    }

    /// Build directly from the already-inverted diagonal `1 / diag(A)`.
    ///
    /// No checking is done: use this only when you have computed the
    /// reciprocals yourself. Prefer [`Self::try_from_diagonal`] otherwise.
    pub fn from_inverse_diagonal(inv_diag: Vec<T>) -> (r: Self)
        ensures
            r.inv() == inv_diag@,
    {
        JacobiPrecond { inv_diag }
    }

    /// The stored inverse diagonal, `1 / diag(A)`.
    pub fn inverse_diagonal(&self) -> (r: &[T])
        ensures
            r@ == self.inv(),
    {
        self.inv_diag.as_slice()
    }

    /// Dimension `n` of the preconditioner.
    pub fn dim(&self) -> (n: usize)
        ensures
            n == self.inv().len(),
    {
        self.inv_diag.len()
    }

    /// `true` if the preconditioner has dimension zero.
    pub fn is_empty(&self) -> (b: bool)
        ensures
            b == (self.inv().len() == 0),
    {
        self.inv_diag.len() == 0
    }
}

impl<T: Scalar> JacobiPrecond<T> {
    /// The stored reciprocals are those of `diag`, which has no zero.
    pub open spec fn inverts(&self, diag: Seq<T>) -> bool {
        &&& invertible(diag)
        &&& self.inv() == inverted(diag)
    }

    /// Build from a slice holding the diagonal of `A`.
    ///
    /// # Errors
    ///
    /// [`JacobiError::ZeroDiagonalEntry`] names the first zero entry.
    pub fn try_from_diagonal(diag: &[T]) -> (r: Result<Self, JacobiError>)
        ensures
            r is Ok <==> invertible(diag@),
            r matches Ok(m) ==> m.inverts(diag@) && m.inv() == inverted(diag@),
            r matches Err(e) ==> e matches JacobiError::ZeroDiagonalEntry { index }
                && is_first_zero(diag@, index as int),
    {
        let n: usize = diag.len();
        let mut inv_diag: Vec<T> = Vec::with_capacity(n);
        let mut index: usize = 0;
        while index < n
            invariant
                n == diag@.len(),
                index <= n,
                inv_diag@.len() == index,
                forall|k: int| 0 <= k < index ==> !vanishes(#[trigger] diag@[k]),
                forall|k: int| 0 <= k < index ==> #[trigger] inv_diag@[k] == diag@[k].reciprocal(),
            decreases n - index,
        {
            if diag[index].abs().is_zero() {
                assert(vanishes(diag@[index as int]));
                return Err(JacobiError::ZeroDiagonalEntry { index });
            }
            inv_diag.push(diag[index].recip());
            index += 1;
        }
        assert(inv_diag@ =~= inverted(diag@));
        Ok(JacobiPrecond { inv_diag })
    }

    /// Build by reading the diagonal of a dense matrix `mat`.
    ///
    /// # Errors
    ///
    /// [`JacobiError::NonSquareMatrix`] if `mat` is not square, or
    /// [`JacobiError::ZeroDiagonalEntry`] for the first zero on the diagonal.
    pub fn try_from_matrix_diagonal(mat: &Mat<T>) -> (r: Result<Self, JacobiError>)
        requires
            mat.wf(),
        ensures
            r is Ok <==> mat.nrows == mat.ncols && invertible(diagonal(*mat)),
            r matches Ok(m) ==> m.inverts(diagonal(*mat)) && m.inv() == inverted(diagonal(*mat)),
            r matches Err(e) ==> match e {
                JacobiError::NonSquareMatrix { nrows, ncols } => nrows == mat.nrows && ncols
                    == mat.ncols && nrows != ncols,
                JacobiError::ZeroDiagonalEntry { index } => mat.nrows == mat.ncols
                    && is_first_zero(diagonal(*mat), index as int),
            },
    {
        let n: usize = mat.nrows;
        if n != mat.ncols {
            return Err(JacobiError::NonSquareMatrix { nrows: n, ncols: mat.ncols });
        }
        let mut diag: Vec<T> = Vec::with_capacity(n);
        let mut i: usize = 0;
        while i < n
            invariant
                mat.wf(),
                n == mat.nrows,
                n == mat.ncols,
                i <= n,
                diag@.len() == i,
                forall|k: int| 0 <= k < i ==> #[trigger] diag@[k] == mat.at(k, k),
            decreases n - i,
        {
            diag.push(mat.get(i, i).copy());
            i += 1;
        }
        assert(diag@ =~= diagonal(*mat));
        Self::try_from_diagonal(diag.as_slice())
    }
}

impl<T: Scalar> Preconditioner<T> for JacobiPrecond<T> {
    open spec fn ready(&self) -> bool {
        true
    }

    open spec fn order(&self) -> nat {
        self.inv().len()
    }

    open spec fn action(&self, op: Op, x: Seq<T>) -> Seq<T> {
        scaled_rows(self.inv(), op.conjugates(), x)
    }

    fn nrows(&self) -> (n: usize) {
        self.dim()
    }

    fn ncols(&self) -> (n: usize) {
        self.dim()
    }

    fn apply_in_place(&self, op: Op, rhs: &mut Mat<T>, work: &mut Work<T>) {
        scale_rows_in_place(self.inv_diag.as_slice(), op.is_conj(), rhs);
    }
}

/// In exact arithmetic every form of the preconditioner inverts the matching form
/// of the diagonal it was built from: multiplying its output by the diagonal,
/// conjugated for the conjugate and the adjoint, gives the right-hand side back.
pub proof fn law_inverts_diagonal<T: Scalar>(
    m: JacobiPrecond<T>,
    diag: Seq<T>,
    op: Op,
    x: Seq<T>,
    i: int,
)
    requires
        exact_field::<T>(),
        op.conjugates() ==> exact_conjugation::<T>(),
        m.inverts(diag),
        x.len() == diag.len(),
        0 <= i < x.len(),
    ensures
        m.action(op, x).len() == x.len(),
        match op {
            Op::Apply | Op::Transpose => diag[i].times(m.action(op, x)[i]) == x[i],
            Op::Conj | Op::Adjoint => diag[i].conjugate().times(m.action(op, x)[i]) == x[i],
        },
{
    let conj = op.conjugates();
    let d = conj_if(conj, diag[i]);
    let e = conj_if(conj, diag[i].reciprocal());
    if conj {
        lemma_conj_if_inverts(conj, diag[i]);
    } else {
        lemma_reciprocal_inverts(diag[i]);
    }
    lemma_times_associates(d, e, x[i]);
    lemma_times_commutes(d, e);
    lemma_times_commutes(T::unit(), x[i]);
    lemma_unit_is_neutral(x[i]);
}

/// In exact arithmetic every form of the preconditioner built from a matrix
/// divides entry `i` by the diagonal entry `i` of the matrix, conjugated for the
/// conjugate and the adjoint.
pub proof fn law_divides_by_matrix_diagonal<T: Scalar>(
    m: JacobiPrecond<T>,
    a: Mat<T>,
    op: Op,
    x: Seq<T>,
    i: int,
)
    requires
        exact_field::<T>(),
        op.conjugates() ==> exact_conjugation::<T>(),
        a.wf(),
        a.nrows == a.ncols,
        m.inverts(diagonal(a)),
        x.len() == a.nrows,
        0 <= i < x.len(),
    ensures
        match op {
            Op::Apply | Op::Transpose => a.at(i, i).times(m.action(op, x)[i]) == x[i],
            Op::Conj | Op::Adjoint => a.at(i, i).conjugate().times(m.action(op, x)[i]) == x[i],
        },
{
    law_inverts_diagonal(m, diagonal(a), op, x, i);
}

/// In exact arithmetic the conjugated forms are the plain forms between two
/// conjugations, whatever reciprocals the preconditioner was given.
pub proof fn law_jacobi_conjugates<T: Scalar>(m: JacobiPrecond<T>, x: Seq<T>)
    requires
        exact_conjugation::<T>(),
        x.len() == m.inv().len(),
    ensures
        m.action(Op::Conj, x) == conj_all(m.action(Op::Apply, conj_all(x))),
        m.action(Op::Adjoint, x) == conj_all(m.action(Op::Transpose, conj_all(x))),
        m.action(Op::Transpose, x) == m.action(Op::Apply, x),
{
    reveal(exact_conjugation);
    assert(m.action(Op::Conj, x) =~= conj_all(m.action(Op::Apply, conj_all(x))));
    assert(m.action(Op::Adjoint, x) =~= conj_all(m.action(Op::Transpose, conj_all(x))));
}

} // verus!
