//! Dense matrices, stored column by column.
use crate::scalar::{zeros, Scalar};
use vstd::prelude::*;

verus! {

/// A dense matrix. Entry `(i, j)` is stored at `j * nrows + i`.
#[derive(Debug, Clone)]
pub struct Mat<T> {
    pub nrows: usize,
    pub ncols: usize,
    pub data: Vec<T>,
}

/// Where entry `(i, j)` is stored.
pub open spec fn offset(nrows: int, i: int, j: int) -> int {
    j * nrows + i
}

/// Entries have places of their own inside the buffer.
pub proof fn lemma_offset(nrows: int, ncols: int, i: int, j: int)
    requires
        0 <= i < nrows,
        0 <= j < ncols,
    ensures
        0 <= offset(nrows, i, j) < nrows * ncols,
        0 <= j * nrows <= offset(nrows, i, j),
{
    assert(j * nrows + i < nrows * ncols) by (nonlinear_arith)
        requires
            0 <= i < nrows,
            0 <= j < ncols,
    ;
    assert(0 <= j * nrows) by (nonlinear_arith)
        requires
            0 <= i < nrows,
            0 <= j,
    ;
}

/// Different entries have different places.
pub proof fn lemma_offset_distinct(nrows: int, i: int, j: int, i2: int, j2: int)
    requires
        0 <= i < nrows,
        0 <= i2 < nrows,
        offset(nrows, i, j) == offset(nrows, i2, j2),
    ensures
        i == i2,
        j == j2,
{
    if j < j2 {
        assert(j * nrows + nrows <= j2 * nrows) by (nonlinear_arith)
            requires
                j < j2,
                0 <= nrows,
        ;
    } else if j2 < j {
        assert(j2 * nrows + nrows <= j * nrows) by (nonlinear_arith)
            requires
                j2 < j,
                0 <= nrows,
        ;
    }
}

impl<T> Mat<T> {
    pub open spec fn wf(&self) -> bool {
        self.data@.len() == self.nrows * self.ncols
    }

    /// Entry `(i, j)`.
    pub open spec fn at(&self, i: int, j: int) -> T {
        self.data@[offset(self.nrows as int, i, j)]
    }

    /// Column `j`.
    pub open spec fn col(&self, j: int) -> Seq<T> {
        Seq::new(self.nrows as nat, |i: int| self.at(i, j))
    }

    /// A matrix from its buffer, if the length fits.
    pub fn try_new(nrows: usize, ncols: usize, data: Vec<T>) -> (r: Option<Self>)
        ensures
            r is Some <==> data@.len() == nrows * ncols,
            r matches Some(m) ==> m.wf() && m.nrows == nrows && m.ncols == ncols && m.data == data,
    {
        let data_len: usize = data.len();
        match nrows.checked_mul(ncols) {
            Some(len) => {
                if len == data_len {
                    Some(Mat { nrows, ncols, data })
                } else {
                    None
                }
            },
            None => None,
        }
    }

    /// Reads entry `(i, j)`.
    pub fn get(&self, i: usize, j: usize) -> (r: &T)
        requires
            self.wf(),
            i < self.nrows,
            j < self.ncols,
        ensures
            *r == self.at(i as int, j as int),
    {
        proof {
            lemma_offset(self.nrows as int, self.ncols as int, i as int, j as int);
        }
        let len: usize = self.data.len();
        assert(j * self.nrows + i < len);
        &self.data[j * self.nrows + i]
    }

    /// Writes entry `(i, j)`.
    pub fn set(&mut self, i: usize, j: usize, x: T)
        requires
            old(self).wf(),
            i < old(self).nrows,
            j < old(self).ncols,
        ensures
            final(self).wf(),
            final(self).nrows == old(self).nrows,
            final(self).ncols == old(self).ncols,
            final(self).col(j as int) == old(self).col(j as int).update(i as int, x),
            forall|c: int|
                0 <= c < old(self).ncols && c != j ==> #[trigger] final(self).col(c) == old(
                    self,
                ).col(c),
    {
        let ghost m0 = *self;
        proof {
            lemma_offset(self.nrows as int, self.ncols as int, i as int, j as int);
        }
        let len: usize = self.data.len();
        assert(j * self.nrows + i < len);
        let k: usize = j * self.nrows + i;
        self.data.set(k, x);
        proof {
            let n = self.nrows as int;
            assert forall|a: int, c: int|
                0 <= a < n && 0 <= c < self.ncols && !(a == i && c == j) implies #[trigger] self.at(
                a,
                c,
            ) == m0.at(a, c) by {
                lemma_offset(n, self.ncols as int, a, c);
                if offset(n, a, c) == k {
                    lemma_offset_distinct(n, a, c, i as int, j as int);
                }
            }
            assert(self.col(j as int) =~= m0.col(j as int).update(i as int, x));
            assert forall|c: int| 0 <= c < m0.ncols && c != j implies #[trigger] self.col(c)
                == m0.col(c) by {
                assert(self.col(c) =~= m0.col(c));
            }
        }
    }
}

impl<T: Scalar> Mat<T> {
    /// An `nrows x ncols` matrix of zeros.
    pub fn zeros(nrows: usize, ncols: usize) -> (m: Self)
        requires
            nrows * ncols <= usize::MAX,
        ensures
            m.wf(),
            m.nrows == nrows,
            m.ncols == ncols,
            forall|c: int|
                0 <= c < ncols ==> #[trigger] m.col(c) == Seq::new(nrows as nat, |i: int| T::null()),
    {
        let len: usize = nrows * ncols;
        let m: Mat<T> = Mat { nrows, ncols, data: zeros(len) };
        proof {
            assert forall|c: int| 0 <= c < ncols implies #[trigger] m.col(c) == Seq::new(
                nrows as nat,
                |i: int| T::null(),
            ) by {
                assert forall|i: int| 0 <= i < nrows implies m.at(i, c) == T::null() by {
                    lemma_offset(nrows as int, ncols as int, i, c);
                }
                assert(m.col(c) =~= Seq::new(nrows as nat, |i: int| T::null()));
            }
        }
        m
    }

    /// Overwrites the matrix with the entries of `other`, of the same shape.
    pub fn copy_from(&mut self, other: &Mat<T>)
        requires
            old(self).wf(),
            other.wf(),
            old(self).nrows == other.nrows,
            old(self).ncols == other.ncols,
        ensures
            final(self).data@ == other.data@,
            final(self).wf(),
            final(self).nrows == other.nrows,
            final(self).ncols == other.ncols,
            forall|c: int| 0 <= c < other.ncols ==> #[trigger] final(self).col(c) == other.col(c),
    {
        let len: usize = self.data.len();
        let mut k: usize = 0;
        while k < len
            invariant
                k <= len,
                len == self.data@.len(),
                len == other.data@.len(),
                self.nrows == other.nrows,
                self.ncols == other.ncols,
                forall|p: int| 0 <= p < k ==> #[trigger] self.data@[p] == other.data@[p],
            decreases len - k,
        {
            let x: T = other.data[k].copy();
            self.data.set(k, x);
            k += 1;
        }
        assert(self.data@ =~= other.data@);
        proof {
            assert forall|c: int| 0 <= c < other.ncols implies #[trigger] self.col(c) == other.col(
                c,
            ) by {
                assert(self.col(c) =~= other.col(c));
            }
        }
    }
}

} // verus!
