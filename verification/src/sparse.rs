//! Compressed sparse column (CSC) patterns and matrices.
//!
//! A pattern lists, for each column, the rows of its stored entries. The
//! entries of column `j` occupy the positions `col_ptr[j] .. col_ptr[j + 1]`
//! of `row_idx`, and a matrix keeps the value of each entry at the same
//! position. Rows need not be sorted within a column.
use vstd::prelude::*;

verus! {

/// The positions of the stored entries of a sparse matrix.
#[derive(Debug, Clone)]
pub struct CscPattern {
    pub nrows: usize,
    pub ncols: usize,
    pub col_ptr: Vec<usize>,
    pub row_idx: Vec<usize>,
}

/// A CSC matrix that owns its entries.
#[derive(Debug, Clone)]
pub struct CscMatrix<T> {
    pub pattern: CscPattern,
    pub values: Vec<T>,
}

/// A borrowed CSC matrix.
#[derive(Debug)]
pub struct CscRef<'a, T> {
    pub pattern: &'a CscPattern,
    pub values: &'a [T],
}

/// A CSC matrix as a mathematical value.
pub struct CscModel<T> {
    pub pattern: CscPattern,
    pub values: Seq<T>,
}

impl<'a, T> Clone for CscRef<'a, T> {
    fn clone(&self) -> (r: Self)
        ensures
            r == *self,
    {
        CscRef { pattern: self.pattern, values: self.values }
    }
}

impl<'a, T> Copy for CscRef<'a, T> {

}

/// The columns of `c` from `j` on hold in `v` what they hold in `v0`.
pub open spec fn retained<T>(c: CscPattern, v0: Seq<T>, v: Seq<T>, j: int) -> bool {
    forall|k: int, p: int| j <= k < c.ncols && #[trigger] c.in_col(p, k) ==> v[p] == v0[p]
}

/// Where only column `j` changes, the columns behind it are retained.
pub proof fn lemma_retained_past<T>(c: CscPattern, v0: Seq<T>, v1: Seq<T>, v2: Seq<T>, j: int)
    requires
        c.wf(),
        0 <= j < c.ncols,
        retained(c, v0, v1, j),
        forall|p: int|
            0 <= p < c.row_idx@.len() && !c.in_col(p, j) ==> #[trigger] v2[p] == v1[p],
    ensures
        retained(c, v0, v2, j + 1),
{
    assert forall|k: int, p: int| j + 1 <= k < c.ncols && #[trigger] c.in_col(p, k) implies v2[p]
        == v0[p] by {
        c.lemma_col_bounds(k);
        if c.in_col(p, j) {
            c.lemma_col_unique(p, j, k);
        }
        assert(v2[p] == v1[p]);
    }
}

/// The entries that a pattern stores, as a relation.
pub open spec fn stored(p: CscPattern) -> spec_fn(int, int) -> bool {
    |i: int, j: int| 0 <= i < p.nrows && 0 <= j < p.ncols && p.has(i, j)
}

/// The values of the stored entries, as a function.
pub open spec fn entries<T>(a: CscRef<'_, T>) -> spec_fn(int, int) -> T {
    |i: int, j: int| a.entry(i, j)
}

/// What makes `col_ptr` and `row_idx` describe an `nrows x ncols` pattern.
pub open spec fn csc_parts_ok(
    nrows: int,
    ncols: int,
    col_ptr: Seq<usize>,
    row_idx: Seq<usize>,
) -> bool {
    &&& col_ptr.len() == ncols + 1
    &&& col_ptr[0] == 0
    &&& col_ptr[ncols] == row_idx.len()
    &&& forall|i: int, j: int| 0 <= i <= j <= ncols ==> #[trigger] col_ptr[i] <= #[trigger] col_ptr[j]
    &&& forall|p: int| 0 <= p < row_idx.len() ==> (#[trigger] row_idx[p]) < nrows
}

impl CscPattern {
    pub open spec fn wf(&self) -> bool {
        csc_parts_ok(self.nrows as int, self.ncols as int, self.col_ptr@, self.row_idx@)
    }

    /// First position of column `j`.
    pub open spec fn start(&self, j: int) -> int {
        self.col_ptr@[j] as int
    }

    /// One past the last position of column `j`.
    pub open spec fn end(&self, j: int) -> int {
        self.col_ptr@[j + 1] as int
    }

    /// Position `p` holds an entry of column `j`.
    pub open spec fn in_col(&self, p: int, j: int) -> bool {
        self.start(j) <= p < self.end(j)
    }

    /// The entry `(i, j)` is stored.
    pub open spec fn has(&self, i: int, j: int) -> bool {
        exists|p: int| #[trigger] self.in_col(p, j) && self.row_idx@[p] == i
    }

    /// The rows of column `j`, in stored order.
    pub open spec fn col(&self, j: int) -> Seq<usize> {
        self.row_idx@.subrange(self.start(j), self.end(j))
    }

    /// The position of the stored entry `(i, j)`.
    pub open spec fn find(&self, i: int, j: int) -> int {
        choose|p: int| #[trigger] self.in_col(p, j) && self.row_idx@[p] == i
    }

    /// The rows of column `j` are strictly ascending.
    pub open spec fn sorted_col(&self, j: int) -> bool {
        forall|p: int, q: int|
            self.start(j) <= p < q < self.end(j) ==> #[trigger] self.row_idx@[p]
                < #[trigger] self.row_idx@[q]
    }

    /// The rows of every column are strictly ascending.
    pub open spec fn sorted(&self) -> bool {
        forall|j: int| 0 <= j < self.ncols ==> #[trigger] self.sorted_col(j)
    }

    /// No entry is stored twice.
    pub open spec fn distinct(&self) -> bool {
        forall|j: int, p: int, q: int|
            0 <= j < self.ncols && #[trigger] self.in_col(p, j) && #[trigger] self.in_col(q, j)
                && p != q ==> self.row_idx@[p] != self.row_idx@[q]
    }

    /// Both patterns store the same entries at the same positions.
    pub open spec fn same_as(&self, other: CscPattern) -> bool {
        &&& self.nrows == other.nrows
        &&& self.ncols == other.ncols
        &&& self.col_ptr@ == other.col_ptr@
        &&& self.row_idx@ == other.row_idx@
    }

    /// A copy of the pattern.
    pub fn duplicate(&self) -> (r: Self)
        ensures
            r.same_as(*self),
    {
        let col_ptr: Vec<usize> = self.col_ptr.clone();
        let row_idx: Vec<usize> = self.row_idx.clone();
        assert(col_ptr@ =~= self.col_ptr@);
        assert(row_idx@ =~= self.row_idx@);
        CscPattern { nrows: self.nrows, ncols: self.ncols, col_ptr, row_idx }
    }

    /// A pattern from its parts, if they describe one.
    pub fn try_new(
        nrows: usize,
        ncols: usize,
        col_ptr: Vec<usize>,
        row_idx: Vec<usize>,
    ) -> (r: Option<Self>)
        ensures
            r is Some <==> csc_parts_ok(nrows as int, ncols as int, col_ptr@, row_idx@),
            r matches Some(p) ==> p.wf() && p.nrows == nrows && p.ncols == ncols && p.col_ptr
                == col_ptr && p.row_idx == row_idx,
    {
        if ncols >= col_ptr.len() || col_ptr.len() - ncols != 1 {
            return None;
        }
        if col_ptr[0] != 0 || col_ptr[ncols] != row_idx.len() {
            return None;
        }
        let mut j: usize = 0;
        while j < ncols
            invariant
                j <= ncols,
                col_ptr@.len() == ncols + 1,
                forall|a: int, b: int|
                    0 <= a <= b <= j ==> #[trigger] col_ptr@[a] <= #[trigger] col_ptr@[b],
            decreases ncols - j,
        {
            if col_ptr[j] > col_ptr[j + 1] {
                return None;
            }
            j += 1;
        }
        let mut p: usize = 0;
        while p < row_idx.len()
            invariant
                p <= row_idx@.len(),
                forall|a: int| 0 <= a < p ==> (#[trigger] row_idx@[a]) < nrows,
            decreases row_idx.len() - p,
        {
            if row_idx[p] >= nrows {
                return None;
            }
            p += 1;
        }
        Some(CscPattern { nrows, ncols, col_ptr, row_idx })
    }

    /// A pattern with `nrows` rows and no column.
    pub fn empty(nrows: usize) -> (r: Self)
        ensures
            r.wf(),
            r.nrows == nrows,
            r.ncols == 0,
            r.row_idx@.len() == 0,
    {
        let mut col_ptr: Vec<usize> = Vec::new();
        col_ptr.push(0);
        CscPattern { nrows, ncols: 0, col_ptr, row_idx: Vec::new() }
    }

    /// Appends a column that stores `rows`.
    pub fn append_column(&mut self, rows: &Vec<usize>)
        requires
            old(self).wf(),
            forall|k: int| 0 <= k < rows@.len() ==> (#[trigger] rows@[k]) < old(self).nrows,
        ensures
            final(self).wf(),
            final(self).nrows == old(self).nrows,
            final(self).ncols == old(self).ncols + 1,
            final(self).row_idx@ == old(self).row_idx@ + rows@,
            final(self).col(old(self).ncols as int) == rows@,
            final(self).start(old(self).ncols as int) == old(self).row_idx@.len(),
            forall|j: int|
                0 <= j <= old(self).ncols ==> #[trigger] final(self).col_ptr@[j] == old(
                    self,
                ).col_ptr@[j],
            forall|j: int|
                0 <= j < old(self).ncols ==> #[trigger] final(self).col(j) == old(self).col(j),
    {
        let ghost p0 = *self;
        let mut k: usize = 0;
        while k < rows.len()
            invariant
                k <= rows@.len(),
                self.nrows == p0.nrows,
                self.ncols == p0.ncols,
                self.col_ptr == p0.col_ptr,
                self.row_idx@ == p0.row_idx@ + rows@.subrange(0, k as int),
                p0.wf(),
                forall|t: int| 0 <= t < rows@.len() ==> (#[trigger] rows@[t]) < p0.nrows,
            decreases rows.len() - k,
        {
            self.row_idx.push(rows[k]);
            assert(rows@.subrange(0, k + 1) == rows@.subrange(0, k as int).push(rows@[k as int]));
            k += 1;
        }
        assert(rows@.subrange(0, k as int) == rows@);
        let end: usize = self.row_idx.len();
        let ncols: usize = self.col_ptr.len();
        self.col_ptr.push(end);
        self.ncols = ncols;
        proof {
            assert(self.col(p0.ncols as int) == rows@);
            assert forall|j: int| 0 <= j < p0.ncols implies #[trigger] self.col(j) == p0.col(j) by {
                p0.lemma_col_bounds(j);
                assert(self.col_ptr@[j] == p0.col_ptr@[j]);
                assert(self.col_ptr@[j + 1] == p0.col_ptr@[j + 1]);
            }
        }
    }

    /// Number of stored entries.
    pub fn nnz(&self) -> (r: usize)
        ensures
            r == self.row_idx@.len(),
    {
        self.row_idx.len()
    }

    /// The stored entry `(i, j)` lies where `find` says.
    pub proof fn lemma_find(&self, i: int, j: int)
        requires
            self.has(i, j),
        ensures
            self.in_col(self.find(i, j), j),
            self.row_idx@[self.find(i, j)] == i,
    {
    }

    /// A column stores `(i, j)` exactly if it lists row `i`.
    pub proof fn lemma_col_has(&self, i: int, j: int)
        requires
            self.wf(),
            0 <= j < self.ncols,
        ensures
            self.has(i, j) <==> exists|k: int|
                0 <= k < self.col(j).len() && #[trigger] self.col(j)[k] == i,
    {
        self.lemma_col_bounds(j);
        if self.has(i, j) {
            self.lemma_find(i, j);
            let k = self.find(i, j) - self.start(j);
            assert(self.col(j)[k] == i);
        }
        if exists|k: int| 0 <= k < self.col(j).len() && #[trigger] self.col(j)[k] == i {
            let k = choose|k: int| 0 <= k < self.col(j).len() && #[trigger] self.col(j)[k] == i;
            assert(self.in_col(self.start(j) + k, j));
        }
    }

    /// A position of a sorted column is the one that `find` picks for its row.
    pub proof fn lemma_find_at(&self, p: int, j: int)
        requires
            self.in_col(p, j),
            self.sorted_col(j),
        ensures
            self.has(self.row_idx@[p] as int, j),
            self.find(self.row_idx@[p] as int, j) == p,
    {
        let i = self.row_idx@[p] as int;
        assert(self.has(i, j));
        self.lemma_find(i, j);
        let q = self.find(i, j);
        if q < p {
            assert(self.row_idx@[q] < self.row_idx@[p]);
        } else if p < q {
            assert(self.row_idx@[p] < self.row_idx@[q]);
        }
    }

    /// Where no entry is stored twice, `find` picks the only position.
    pub proof fn lemma_find_only(&self, p: int, j: int)
        requires
            self.distinct(),
            0 <= j < self.ncols,
            self.in_col(p, j),
        ensures
            self.has(self.row_idx@[p] as int, j),
            self.find(self.row_idx@[p] as int, j) == p,
    {
        let i = self.row_idx@[p] as int;
        assert(self.has(i, j));
        self.lemma_find(i, j);
        let q = self.find(i, j);
        assert(self.in_col(q, j));
    }

    /// Every position belongs to a column.
    pub proof fn lemma_some_col(&self, p: int) -> (j: int)
        requires
            self.wf(),
            0 <= p < self.row_idx@.len(),
        ensures
            0 <= j < self.ncols,
            self.in_col(p, j),
    {
        self.lemma_some_col_from(p, self.ncols as int)
    }

    proof fn lemma_some_col_from(&self, p: int, k: int) -> (j: int)
        requires
            self.wf(),
            0 <= k <= self.ncols,
            0 <= p < self.col_ptr@[k],
        ensures
            0 <= j < k,
            self.in_col(p, j),
        decreases k,
    {
        if p >= self.col_ptr@[k - 1] {
            k - 1
        } else {
            self.lemma_some_col_from(p, k - 1)
        }
    }

    /// Positions of a column are positions of the pattern.
    pub proof fn lemma_col_bounds(&self, j: int)
        requires
            self.wf(),
            0 <= j < self.ncols,
        ensures
            0 <= self.start(j) <= self.end(j) <= self.row_idx@.len(),
    {
        assert(self.col_ptr@[0] <= self.col_ptr@[j]);
        assert(self.col_ptr@[j] <= self.col_ptr@[j + 1]);
        assert(self.col_ptr@[j + 1] <= self.col_ptr@[self.ncols as int]);
    }

    /// A position lies in one column only.
    pub proof fn lemma_col_unique(&self, p: int, j: int, k: int)
        requires
            self.wf(),
            0 <= j < self.ncols,
            0 <= k < self.ncols,
            self.in_col(p, j),
            self.in_col(p, k),
        ensures
            j == k,
    {
        if j < k {
            assert(self.col_ptr@[j + 1] <= self.col_ptr@[k]);
        } else if k < j {
            assert(self.col_ptr@[k + 1] <= self.col_ptr@[j]);
        }
    }

    /// A sorted pattern stores no entry twice.
    pub proof fn lemma_sorted_distinct(&self)
        requires
            self.sorted(),
        ensures
            self.distinct(),
    {
        assert forall|j: int, p: int, q: int|
            0 <= j < self.ncols && #[trigger] self.in_col(p, j) && #[trigger] self.in_col(q, j)
                && p != q implies self.row_idx@[p] != self.row_idx@[q] by {
            assert(self.sorted_col(j));
            if p < q {
                assert(self.row_idx@[p] < self.row_idx@[q]);
            } else {
                assert(self.row_idx@[q] < self.row_idx@[p]);
            }
        }
    }
}

impl<T> CscMatrix<T> {
    pub open spec fn wf(&self) -> bool {
        &&& self.pattern.wf()
        &&& self.values@.len() == self.pattern.row_idx@.len()
    }

    /// A matrix from a pattern and one value for each of its entries.
    pub fn try_new(pattern: CscPattern, values: Vec<T>) -> (r: Option<Self>)
        requires
            pattern.wf(),
        ensures
            r is Some <==> values@.len() == pattern.row_idx@.len(),
            r matches Some(m) ==> m.wf() && m.pattern == pattern && m.values == values,
    {
        if values.len() == pattern.row_idx.len() {
            Some(CscMatrix { pattern, values })
        } else {
            None
        }
    }

    /// A view of the matrix.
    pub fn as_ref(&self) -> (r: CscRef<'_, T>)
        ensures
            *r.pattern == self.pattern,
            r.values@ == self.values@,
            self.wf() ==> r.wf(),
    {
        CscRef { pattern: &self.pattern, values: self.values.as_slice() }
    }
}

impl<'a, T> CscRef<'a, T> {
    pub open spec fn wf(&self) -> bool {
        &&& self.pattern.wf()
        &&& self.values@.len() == self.pattern.row_idx@.len()
    }

    /// The value of the stored entry `(i, j)`.
    pub open spec fn entry(&self, i: int, j: int) -> T {
        self.values@[self.pattern.find(i, j)]
    }
}

impl<'a, T> View for CscRef<'a, T> {
    type V = CscModel<T>;

    open spec fn view(&self) -> CscModel<T> {
        CscModel { pattern: *self.pattern, values: self.values@ }
    }
}

impl<T> CscModel<T> {
    pub open spec fn wf(&self) -> bool {
        &&& self.pattern.wf()
        &&& self.values.len() == self.pattern.row_idx@.len()
    }

    /// The value of the stored entry `(i, j)`.
    pub open spec fn entry(&self, i: int, j: int) -> T {
        self.values[self.pattern.find(i, j)]
    }
}

} // verus!
