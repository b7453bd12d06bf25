//! How a preconditioner is applied to a block of right-hand sides.
use crate::dense::Mat;
use crate::scalar::{zeros, Scalar};
use vstd::prelude::*;

verus! {

/// Which form of `M^{-1}` to apply.
#[derive(Debug, Clone, Copy, PartialEq, Eq)]
pub enum Op {
    /// `M^{-1}`.
    Apply,
    /// `conj(M^{-1})`.
    Conj,
    /// `M^{-T}`.
    Transpose,
    /// `M^{-H}`.
    Adjoint,
}

impl Op {
    pub open spec fn transposes(self) -> bool {
        self is Transpose || self is Adjoint
    }

    pub open spec fn conjugates(self) -> bool {
        self is Conj || self is Adjoint
    }

    /// Whether the operator is transposed.
    pub fn is_transpose(self) -> (b: bool)
        ensures
            b == self.transposes(),
    {
        match self {
            Op::Apply => false,
            Op::Conj => false,
            Op::Transpose => true,
            Op::Adjoint => true,
        }
    }

    /// Whether the operator is conjugated.
    pub fn is_conj(self) -> (b: bool)
        ensures
            b == self.conjugates(),
    {
        match self {
            Op::Apply => false,
            Op::Conj => true,
            Op::Transpose => false,
            Op::Adjoint => true,
        }
    }
}

/// Buffers that an apply may overwrite.
///
/// They take their shape on first use and keep it, so that repeated applies
/// to right-hand sides of one shape do not allocate.
#[derive(Debug, Clone)]
pub struct Work<T> {
    pub column: Vec<T>,
    pub a: Mat<T>,
    pub b: Mat<T>,
    pub c: Mat<T>,
}

/// Gives `m` the shape `nrows x ncols`, keeping it as it is where it has that
/// shape already.
fn reshape<T: Scalar>(m: &mut Mat<T>, nrows: usize, ncols: usize)
    requires
        old(m).wf(),
        nrows * ncols <= usize::MAX,
    ensures
        final(m).wf(),
        final(m).nrows == nrows,
        final(m).ncols == ncols,
        old(m).nrows == nrows && old(m).ncols == ncols ==> *final(m) == *old(m),
{
    if m.nrows != nrows || m.ncols != ncols {
        *m = Mat::zeros(nrows, ncols);
    }
}

impl<T: Scalar> Work<T> {
    pub open spec fn wf(&self) -> bool {
        &&& self.a.wf()
        &&& self.b.wf()
        &&& self.c.wf()
    }

    /// Every buffer fits `ncols` right-hand sides of length `nrows`.
    pub open spec fn shaped(&self, nrows: int, ncols: int) -> bool {
        &&& self.column@.len() == nrows
        &&& self.a.nrows == nrows && self.a.ncols == ncols
        &&& self.b.nrows == nrows && self.b.ncols == ncols
        &&& self.c.nrows == nrows && self.c.ncols == ncols
    }

    /// Empty buffers.
    pub fn new() -> (w: Self)
        ensures
            w.wf(),
            w.shaped(0, 0),
    {
        Work {
            column: zeros(0),
            a: Mat::zeros(0, 0),
            b: Mat::zeros(0, 0),
            c: Mat::zeros(0, 0),
        }
    }

    /// Shapes every buffer for `ncols` right-hand sides of length `nrows`.
    pub fn shape(&mut self, nrows: usize, ncols: usize)
        requires
            old(self).wf(),
            nrows * ncols <= usize::MAX,
        ensures
            final(self).wf(),
            final(self).shaped(nrows as int, ncols as int),
            old(self).shaped(nrows as int, ncols as int) ==> *final(self) == *old(self),
    {
        if self.column.len() != nrows {
            self.column = zeros(nrows);
        }
        reshape(&mut self.a, nrows, ncols);
        reshape(&mut self.b, nrows, ncols);
        reshape(&mut self.c, nrows, ncols);
    }
}

/// An approximate inverse `M^{-1}` that is applied column by column.
pub trait Preconditioner<T: Scalar> {
    /// The preconditioner has been built.
    spec fn ready(&self) -> bool;

    /// The number of rows and columns of `M`.
    spec fn order(&self) -> nat;

    /// What `op` makes of one right-hand side.
    spec fn action(&self, op: Op, x: Seq<T>) -> Seq<T>;

    fn nrows(&self) -> (n: usize)
        requires
            self.ready(),
        ensures
            n == self.order(),
    ;

    fn ncols(&self) -> (n: usize)
        requires
            self.ready(),
        ensures
            n == self.order(),
    ;

    /// Overwrites every column of `rhs` with the action of `op` on it.
    fn apply_in_place(&self, op: Op, rhs: &mut Mat<T>, work: &mut Work<T>)
        requires
            self.ready(),
            old(rhs).wf(),
            old(rhs).nrows == self.order(),
            old(work).wf(),
        ensures
            final(work).wf(),
            final(rhs).wf(),
            final(rhs).nrows == old(rhs).nrows,
            final(rhs).ncols == old(rhs).ncols,
            forall|c: int|
                0 <= c < old(rhs).ncols ==> #[trigger] final(rhs).col(c) == self.action(
                    op,
                    old(rhs).col(c),
                ),
    ;

    /// Writes the action of `op` on every column of `rhs` into `out`.
    fn apply(&self, op: Op, out: &mut Mat<T>, rhs: &Mat<T>, work: &mut Work<T>)
        requires
            self.ready(),
            old(out).wf(),
            rhs.wf(),
            rhs.nrows == self.order(),
            old(out).nrows == rhs.nrows,
            old(out).ncols == rhs.ncols,
            old(work).wf(),
        ensures
            final(work).wf(),
            final(out).wf(),
            final(out).nrows == old(out).nrows,
            final(out).ncols == old(out).ncols,
            forall|c: int|
                0 <= c < rhs.ncols ==> #[trigger] final(out).col(c) == self.action(op, rhs.col(c)),
    {
        out.copy_from(rhs);
        self.apply_in_place(op, out, work);
    }
}

} // verus!
