//! Applying ILUTP: two triangular solves and the column permutation.
//!
//! The factors satisfy `L U = A P` up to what was dropped, so
//! `M^{-1} = P U^{-1} L^{-1}`. `P` is real: conjugation only touches the
//! triangular factors.
use super::numeric::{moves, Ilutp};
use super::row::inverse_perms;
use crate::dense::Mat;
use crate::op::{Op, Preconditioner, Work};
use crate::scalar::{zeros, Scalar};
use crate::scratch::{scratch_for, Scratch};
use crate::triangular::{lu_action, solve_lu_in_place};
use vstd::prelude::*;

verus! {

/// The entries of `x`, gathered by `map`.
pub open spec fn gathered<T>(x: Seq<T>, map: Seq<usize>) -> Seq<T> {
    Seq::new(x.len(), |r: int| x[map[r] as int])
}

/// Overwrites column `j` of `rhs` with its gathered permutation.
fn permute_column<T: Scalar>(rhs: &mut Mat<T>, map: &[usize], tmp: &mut Vec<T>, j: usize)
    requires
        old(rhs).wf(),
        j < old(rhs).ncols,
        map@.len() == old(rhs).nrows,
        old(tmp)@.len() == old(rhs).nrows,
        forall|r: int| 0 <= r < map@.len() ==> (#[trigger] map@[r]) < map@.len(),
    ensures
        final(tmp)@.len() == old(tmp)@.len(),
        final(rhs).wf(),
        final(rhs).nrows == old(rhs).nrows,
        final(rhs).ncols == old(rhs).ncols,
        final(rhs).col(j as int) == gathered(old(rhs).col(j as int), map@),
        forall|b: int|
            0 <= b < old(rhs).ncols && b != j ==> #[trigger] final(rhs).col(b) == old(rhs).col(b),
{
    let ghost m0 = *rhs;
    let ghost jj = j as int;
    let n: usize = rhs.nrows;
    let mut r: usize = 0;
    while r < n
        invariant
            r <= n,
            n == rhs.nrows,
            *rhs == m0,
            rhs.wf(),
            jj == j,
            j < rhs.ncols,
            map@.len() == n,
            tmp@.len() == n,
            forall|k: int| 0 <= k < n ==> (#[trigger] map@[k]) < n,
            forall|k: int| 0 <= k < r ==> #[trigger] tmp@[k] == m0.col(jj)[map@[k] as int],
        decreases n - r,
    {
        let x: T = rhs.get(map[r], j).copy();
        tmp.set(r, x);
        r += 1;
    }
    let mut r: usize = 0;
    while r < n
        invariant
            r <= n,
            n == m0.nrows,
            rhs.wf(),
            rhs.nrows == m0.nrows,
            rhs.ncols == m0.ncols,
            jj == j,
            j < m0.ncols,
            map@.len() == n,
            tmp@.len() == n,
            forall|k: int| 0 <= k < n ==> #[trigger] tmp@[k] == m0.col(jj)[map@[k] as int],
            forall|k: int| 0 <= k < r ==> #[trigger] rhs.col(jj)[k] == tmp@[k],
            forall|b: int| 0 <= b < m0.ncols && b != j ==> #[trigger] rhs.col(b) == m0.col(b),
        decreases n - r,
    {
        let x: T = tmp[r].copy();
        rhs.set(r, j, x);
        r += 1;
    }
    assert(rhs.col(jj) =~= gathered(m0.col(jj), map@));
}

/// Overwrites each column of `rhs` with its `map`-gathered permutation:
/// `out[r] = in[map[r]]`.
fn permute_rows<T: Scalar>(rhs: &mut Mat<T>, map: &[usize], tmp: &mut Vec<T>)
    requires
        old(rhs).wf(),
        map@.len() == old(rhs).nrows,
        old(tmp)@.len() == old(rhs).nrows,
        forall|r: int| 0 <= r < map@.len() ==> (#[trigger] map@[r]) < map@.len(),
    ensures
        final(tmp)@.len() == old(tmp)@.len(),
        final(rhs).wf(),
        final(rhs).nrows == old(rhs).nrows,
        final(rhs).ncols == old(rhs).ncols,
        forall|c: int|
            0 <= c < old(rhs).ncols ==> #[trigger] final(rhs).col(c) == gathered(
                old(rhs).col(c),
                map@,
            ),
{
    let ghost m0 = *rhs;
    let ncols: usize = rhs.ncols;
    let mut c: usize = 0;
    while c < ncols
        invariant
            ncols == m0.ncols,
            c <= ncols,
            rhs.wf(),
            rhs.nrows == m0.nrows,
            rhs.ncols == m0.ncols,
            map@.len() == m0.nrows,
            tmp@.len() == m0.nrows,
            tmp@.len() == old(tmp)@.len(),
            forall|r: int| 0 <= r < map@.len() ==> (#[trigger] map@[r]) < map@.len(),
            forall|b: int| 0 <= b < c ==> #[trigger] rhs.col(b) == gathered(m0.col(b), map@),
            forall|b: int| c <= b < ncols ==> #[trigger] rhs.col(b) == m0.col(b),
        decreases ncols - c,
    {
        permute_column(rhs, map, tmp, c);
        c += 1;
    }
}

/// Permuting by a permutation that moves nothing changes nothing.
proof fn lemma_unmoved<T>(x: Seq<T>, perm: Seq<usize>, perm_inv: Seq<usize>)
    requires
        inverse_perms(perm, perm_inv, x.len() as int),
        !moves(perm),
    ensures
        gathered(x, perm) == x,
        gathered(x, perm_inv) == x,
{
    assert(gathered(x, perm) =~= x);
    assert forall|r: int| 0 <= r < x.len() implies #[trigger] perm_inv[r] == r by {
        assert(perm[r] == r);
    }
    assert(gathered(x, perm_inv) =~= x);
}

impl<T: Scalar> Ilutp<T> {
    /// Scratch memory for one apply: one column.
    pub fn apply_scratch(&self, rhs_ncols: usize) -> (r: Scratch)
        ensures
            r == scratch_for::<T>(self.n as nat),
    {
        Scratch::elements::<T>(self.n)
    }
}

impl<T: Scalar> Preconditioner<T> for Ilutp<T> {
    open spec fn ready(&self) -> bool {
        self.wf()
    }

    open spec fn order(&self) -> nat {
        self.n as nat
    }

    /// `M^{-1} = P U^{-1} L^{-1}`, with `(P y)[r] = y[perm_inv[r]]`.
    open spec fn action(&self, op: Op, x: Seq<T>) -> Seq<T> {
        if op.transposes() {
            lu_action(self.l_model(), self.u_model(), op, gathered(x, self.perm@))
        } else {
            gathered(lu_action(self.l_model(), self.u_model(), op, x), self.perm_inv@)
        }
    }

    fn nrows(&self) -> (n: usize) {
        self.dim()
    }

    fn ncols(&self) -> (n: usize) {
        self.dim()
    }

    fn apply_in_place(&self, op: Op, rhs: &mut Mat<T>, work: &mut Work<T>) {
        let ghost m0 = *rhs;
        if self.permuted && work.column.len() != self.n {
            work.column = zeros(self.n);
        }
        if op.is_transpose() {
            if self.permuted {
                permute_rows(rhs, self.perm.as_slice(), &mut work.column);
            }
            let ghost m1 = *rhs;
            solve_lu_in_place(self.l_view(), self.u_view(), op, rhs);
            proof {
                assert forall|c: int| 0 <= c < m0.ncols implies #[trigger] rhs.col(c)
                    == self.action(op, m0.col(c)) by {
                    if !self.permuted {
                        lemma_unmoved(m0.col(c), self.perm@, self.perm_inv@);
                    }
                    assert(m1.col(c) == gathered(m0.col(c), self.perm@));
                }
            }
        } else {
            solve_lu_in_place(self.l_view(), self.u_view(), op, rhs);
            let ghost m1 = *rhs;
            if self.permuted {
                permute_rows(rhs, self.perm_inv.as_slice(), &mut work.column);
            }
            proof {
                assert forall|c: int| 0 <= c < m0.ncols implies #[trigger] rhs.col(c)
                    == self.action(op, m0.col(c)) by {
                    assert(m1.col(c) == lu_action(self.l_model(), self.u_model(), op, m0.col(c)));
                    if !self.permuted {
                        lemma_unmoved(m1.col(c), self.perm@, self.perm_inv@);
                    }
                }
            }
        }
    }
}

} // verus!
