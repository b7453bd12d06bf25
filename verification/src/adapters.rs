//! Wrapping an existing solver as a preconditioner.
//!
//! The solver is opaque here: `solve` says how it is asked for `op(A)^{-1} b`.
use crate::block_jacobi::mat_entries;
use crate::dense::Mat;
use crate::forms::form;
use crate::inverse::dense_times;
use crate::op::Op;
use crate::scalar::Scalar;
use vstd::prelude::*;

verus! {

/// A solver that is to be used as a preconditioner: applying it solves.
#[derive(Debug, Clone)]
pub struct SolvePrecond<S> {
    pub solver: S,
}

impl<S> SolvePrecond<S> {
    pub fn new(solver: S) -> (r: Self)
        ensures
            r.solver == solver,
    {
        SolvePrecond { solver }
    }

    /// Borrow the solver.
    pub fn inner(&self) -> (r: &S)
        ensures
            *r == self.solver,
    {
        &self.solver
    }

    /// Take the solver back out.
    pub fn into_inner(self) -> (r: S)
        ensures
            r == self.solver,
    {
        self.solver
    }
}

/// `solve` accepts every right-hand side of the height of `b`, and keeps its
/// shape.
pub open spec fn solves_like<S, T, F: Fn(&S, Op, &Mat<T>) -> Mat<T>>(
    solver: S,
    op: Op,
    b: Mat<T>,
    solve: F,
) -> bool {
    &&& forall|r: Mat<T>|
        r.wf() && r.nrows == b.nrows && r.ncols == b.ncols ==> #[trigger] call_requires(
            solve,
            (&solver, op, &r),
        )
    &&& forall|r: Mat<T>, x: Mat<T>|
        r.wf() && #[trigger] call_ensures(solve, (&solver, op, &r), x) ==> x.wf() && x.nrows
            == r.nrows && x.ncols == r.ncols
}

/// `out` is what the solver of `m` makes of `rhs` when asked for the form `op`.
pub open spec fn applied<S, T, F: Fn(&S, Op, &Mat<T>) -> Mat<T>>(
    m: SolvePrecond<S>,
    solve: F,
    op: Op,
    rhs: Mat<T>,
    out: Mat<T>,
) -> bool {
    &&& call_ensures(solve, (&m.solver, op, &rhs), out)
    &&& out.wf()
    &&& out.nrows == rhs.nrows
    &&& out.ncols == rhs.ncols
}

impl<S> SolvePrecond<S> {
    /// Overwrites `rhs` with what the solver makes of it.
    pub fn apply_in_place<T, F: Fn(&S, Op, &Mat<T>) -> Mat<T>>(
        &self,
        op: Op,
        rhs: &mut Mat<T>,
        solve: F,
    )
        requires
            old(rhs).wf(),
            solves_like(self.solver, op, *old(rhs), solve),
        ensures
            applied(*self, solve, op, *old(rhs), *final(rhs)),
    {
        let x: Mat<T> = solve(&self.solver, op, &*rhs);
        *rhs = x;
    }

    /// Writes what the solver makes of `rhs` into `out`.
    pub fn apply<T, F: Fn(&S, Op, &Mat<T>) -> Mat<T>>(
        &self,
        op: Op,
        out: &mut Mat<T>,
        rhs: &Mat<T>,
        solve: F,
    )
        requires
            rhs.wf(),
            old(out).wf(),
            old(out).nrows == rhs.nrows,
            old(out).ncols == rhs.ncols,
            solves_like(self.solver, op, *rhs, solve),
        ensures
            applied(*self, solve, op, *rhs, *final(out)),
    {
        let x: Mat<T> = solve(&self.solver, op, rhs);
        *out = x;
    }
}

/// Asked for the form `op`, the solver solves with that form of `a`.
pub open spec fn solves_form<S, T: Scalar, F: Fn(&S, Op, &Mat<T>) -> Mat<T>>(
    solver: S,
    solve: F,
    a: Mat<T>,
    op: Op,
) -> bool {
    forall|r: Mat<T>, x: Mat<T>, c: int|
        #![trigger call_ensures(solve, (&solver, op, &r), x), r.col(c)]
        r.wf() && r.nrows == a.nrows && 0 <= c < r.ncols && call_ensures(
            solve,
            (&solver, op, &r),
            x,
        ) ==> dense_times(form(mat_entries(a), op), x.col(c)) == r.col(c)
}

/// A solver that solves with every form of `a` is, as a preconditioner, the inverse
/// of the form that is asked for: that form of `a` times the result is the
/// right-hand side.
pub proof fn law_solver_inverts<S, T: Scalar, F: Fn(&S, Op, &Mat<T>) -> Mat<T>>(
    m: SolvePrecond<S>,
    solve: F,
    a: Mat<T>,
    op: Op,
    rhs: Mat<T>,
    out: Mat<T>,
    c: int,
)
    requires
        solves_form(m.solver, solve, a, op),
        rhs.wf(),
        rhs.nrows == a.nrows,
        applied(m, solve, op, rhs, out),
        0 <= c < rhs.ncols,
    ensures
        out.ncols == rhs.ncols,
        dense_times(form(mat_entries(a), op), out.col(c)) == rhs.col(c),
{
    assert(rhs.col(c) == rhs.col(c));
}

} // verus!
