//! Symbolic structure for zero-fill incomplete Cholesky.
//!
//! The pattern of `L` is the lower triangle of the pattern of `A`. Beside it
//! stands a row index: for each row of `L`, the columns that it meets and the
//! positions of those entries among the values of `L`.
use vstd::prelude::*;

use super::Ic0Error;
use crate::lu::{lemma_lower_col, lemma_upper_from_has, lower_ok, upper_ok};
use crate::sparse::{stored, CscPattern};
use crate::transpose::{is_transpose, lemma_transpose_has, lemma_transpose_sorted, transpose};
use crate::util::diag_split::{
    diag_col_ok, diag_error_of, is_diag_pos, splittable, validated_diag_pos, DiagError,
};

verus! {

/// Symbolic factor for IC(0).
///
/// Built once for a given sparsity pattern, then reused across any number of
/// numerical refactorisations.
#[derive(Debug, Clone)]
pub struct SymbolicIc0 {
    pub dim: usize,
    pub a_nnz: usize,
    /// Index within column `j` of `A` where row `j` (the diagonal) appears.
    pub diag_pos: Vec<usize>,
    /// `L`'s pattern. The diagonal is stored *first* in each column.
    pub l: CscPattern,
    /// The rows of `L`: column `i` of this pattern lists the columns in which
    /// row `i` of `L` is stored, the diagonal last.
    pub rows: CscPattern,
    /// For each entry of `rows`, the index of that entry among `L`'s values.
    pub row_lpos: Vec<usize>,
}

/// The error that reports `e`.
pub open spec fn ic0_error_of(e: DiagError) -> Ic0Error {
    match e {
        DiagError::NonSquare { nrows, ncols } => Ic0Error::NonSquareMatrix { nrows, ncols },
        DiagError::MissingDiagonal { col } => Ic0Error::MissingDiagonal { col },
        DiagError::UnsortedRowIndices { col } => Ic0Error::UnsortedRowIndices { col },
    }
}

/// Column `j` of `l` is column `j` of `p` from position `d` on.
pub open spec fn tail_col(p: CscPattern, l: CscPattern, d: int, j: int) -> bool {
    l.col(j) == p.col(j).subrange(d, p.col(j).len() as int)
}

/// The stored entries of `p` on and below the diagonal.
pub open spec fn stored_lower(p: CscPattern) -> spec_fn(int, int) -> bool {
    |i: int, j: int| i >= j && stored(p)(i, j)
}

impl SymbolicIc0 {
    pub open spec fn wf(&self) -> bool {
        &&& lower_ok(self.l, self.dim as int)
        &&& upper_ok(self.rows, self.dim as int)
        &&& is_transpose(self.l, self.rows, self.row_lpos@)
        &&& self.diag_pos@.len() == self.dim
    }

    /// `self` is the symbolic factor of the pattern `p`.
    pub open spec fn describes(&self, p: CscPattern) -> bool {
        &&& self.wf()
        &&& self.dim == p.ncols
        &&& self.a_nnz == p.row_idx@.len()
        &&& is_diag_pos(p, self.diag_pos@)
        &&& forall|j: int|
            0 <= j < self.dim ==> #[trigger] tail_col(p, self.l, self.diag_pos@[j] as int, j)
    }

    /// Build the symbolic IC(0) structure from a CSC sparsity pattern.
    ///
    /// Only the lower triangle of `pattern` is consumed. The pattern must be
    /// square, every column must contain its diagonal entry, and its rows must
    /// be sorted ascending; otherwise the error names the first column that
    /// breaks this.
    pub fn try_new(pattern: &CscPattern) -> (r: Result<Self, Ic0Error>)
        requires
            pattern.wf(),
        ensures
            r is Ok <==> splittable(*pattern),
            r matches Ok(s) ==> s.describes(*pattern),
            r matches Err(e) ==> exists|d: DiagError| #[trigger]
                diag_error_of(*pattern, d) && e == ic0_error_of(d),
    {
        let diag_pos: Vec<usize> = match validated_diag_pos(pattern) {
            Ok(d) => d,
            Err(e) => {
                return Err(
                    match e {
                        DiagError::NonSquare { nrows, ncols } => Ic0Error::NonSquareMatrix {
                            nrows,
                            ncols,
                        },
                        DiagError::MissingDiagonal { col } => Ic0Error::MissingDiagonal { col },
                        DiagError::UnsortedRowIndices { col } => Ic0Error::UnsortedRowIndices {
                            col,
                        },
                    },
                );
            },
        };
        let n: usize = pattern.ncols;
        let ptr_len: usize = pattern.col_ptr.len();
        assert(n < ptr_len);
        let mut l: CscPattern = CscPattern::empty(n);
        let mut j: usize = 0;
        while j < n
            invariant
                pattern.wf(),
                splittable(*pattern),
                n == pattern.ncols,
                is_diag_pos(*pattern, diag_pos@),
                j <= n,
                l.wf(),
                l.nrows == n,
                l.ncols == j,
                forall|k: int| 0 <= k < j ==> #[trigger] tail_col(*pattern, l, diag_pos@[k] as int, k),
            decreases n - j,
        {
            let s: usize = pattern.col_ptr[j];
            let e: usize = pattern.col_ptr[j + 1];
            let d: usize = diag_pos[j];
            proof {
                pattern.lemma_col_bounds(j as int);
            }
            let ghost pcol = pattern.col(j as int);
            let mut lcol: Vec<usize> = Vec::new();
            let mut k: usize = s + d;
            while k < e
                invariant
                    pattern.wf(),
                    n == pattern.nrows,
                    s == pattern.start(j as int),
                    e == pattern.end(j as int),
                    pcol == pattern.col(j as int),
                    s + d <= k <= e <= pattern.row_idx@.len(),
                    lcol@ == pcol.subrange(d as int, k - s),
                    forall|t: int| 0 <= t < lcol@.len() ==> (#[trigger] lcol@[t]) < n,
                decreases e - k,
            {
                lcol.push(pattern.row_idx[k]);
                assert(pcol.subrange(d as int, k + 1 - s) == pcol.subrange(d as int, k - s).push(
                    pcol[k - s],
                ));
                k += 1;
            }
            let ghost l0 = l;
            l.append_column(&lcol);
            proof {
                assert forall|t: int| 0 <= t < j + 1 implies #[trigger] tail_col(
                    *pattern,
                    l,
                    diag_pos@[t] as int,
                    t,
                ) by {
                    if t < j {
                        assert(tail_col(*pattern, l0, diag_pos@[t] as int, t));
                        assert(l.col(t) == l0.col(t));
                    }
                }
            }
            j += 1;
        }
        proof {
            lemma_tail_ok(*pattern, l, diag_pos@);
            l.lemma_sorted_distinct();
        }
        let (rows, row_lpos): (CscPattern, Vec<usize>) = transpose(&l);
        proof {
            lemma_transpose_sorted(l, rows, row_lpos@);
            assert forall|i: int, k: int| 0 <= i < n && 0 <= k < n implies (#[trigger] rows.has(k, i)
                <==> l.has(i, k)) by {
                lemma_transpose_has(l, rows, row_lpos@, i, k);
            }
            assert forall|i: int| 0 <= i < n implies #[trigger] rows.has(i, i) by {
                assert(l.start(i) < l.end(i));
                assert(l.in_col(l.start(i), i));
                assert(l.has(i, i));
            }
            assert forall|k: int, i: int| 0 <= k < n && 0 <= i < n && #[trigger] rows.has(
                k,
                i,
            ) implies k <= i by {
                l.lemma_find(i, k);
                lemma_lower_col(l, n as int, l.find(i, k), k);
            }
            lemma_upper_from_has(rows, n as int);
        }
        let a_nnz: usize = pattern.row_idx.len();
        Ok(SymbolicIc0 { dim: n, a_nnz, diag_pos, l, rows, row_lpos })
    }

    /// Dimension `n` of the analysed matrix.
    pub fn dim(&self) -> (r: usize)
        ensures
            r == self.dim,
    {
        self.dim
    }

    /// Number of structural nonzeros in `A` (as supplied, including any
    /// strictly upper-triangle entries that were ignored).
    pub fn a_nnz(&self) -> (r: usize)
        ensures
            r == self.a_nnz,
    {
        self.a_nnz
    }

    /// Number of structural nonzeros in `L` (includes the diagonal slots).
    pub fn l_nnz(&self) -> (r: usize)
        ensures
            r == self.l.row_idx@.len(),
    {
        self.l.row_idx.len()
    }
}

/// What a tail column stores.
pub proof fn lemma_tail_col(p: CscPattern, l: CscPattern, d: Seq<usize>, j: int)
    requires
        p.wf(),
        splittable(p),
        is_diag_pos(p, d),
        l.wf(),
        l.ncols == p.ncols,
        0 <= j < p.ncols,
        tail_col(p, l, d[j] as int, j),
    ensures
        l.sorted_col(j),
        l.start(j) < l.end(j),
        l.row_idx@[l.start(j)] == j,
        l.end(j) - l.start(j) == p.end(j) - p.start(j) - d[j],
        forall|k: int|
            0 <= k < l.end(j) - l.start(j) ==> #[trigger] l.row_idx@[l.start(j) + k]
                == p.row_idx@[p.start(j) + d[j] + k],
{
    p.lemma_col_bounds(j);
    l.lemma_col_bounds(j);
    assert(diag_col_ok(p, j));
    assert(p.start(j) + d[j] < p.end(j));
    let dj = d[j] as int;
    assert(l.col(j).len() == p.col(j).len() - dj);
    assert forall|k: int| 0 <= k < l.end(j) - l.start(j) implies #[trigger] l.row_idx@[l.start(j)
        + k] == p.row_idx@[p.start(j) + d[j] + k] by {
        assert(l.col(j)[k] == p.col(j)[dj + k]);
    }
    assert(l.row_idx@[l.start(j) + 0] == p.row_idx@[p.start(j) + d[j] + 0]);
    assert forall|a: int, b: int|
        l.start(j) <= a < b < l.end(j) implies #[trigger] l.row_idx@[a]
        < #[trigger] l.row_idx@[b] by {
        let ka = a - l.start(j);
        let kb = b - l.start(j);
        assert(l.row_idx@[l.start(j) + ka] == p.row_idx@[p.start(j) + d[j] + ka]);
        assert(l.row_idx@[l.start(j) + kb] == p.row_idx@[p.start(j) + d[j] + kb]);
    }
}

proof fn lemma_tail_ok(p: CscPattern, l: CscPattern, d: Seq<usize>)
    requires
        p.wf(),
        splittable(p),
        is_diag_pos(p, d),
        l.wf(),
        l.nrows == p.ncols,
        l.ncols == p.ncols,
        forall|j: int| 0 <= j < p.ncols ==> #[trigger] tail_col(p, l, d[j] as int, j),
    ensures
        lower_ok(l, p.ncols as int),
{
    assert forall|j: int| 0 <= j < p.ncols implies #[trigger] l.sorted_col(j) by {
        assert(tail_col(p, l, d[j] as int, j));
        lemma_tail_col(p, l, d, j);
    }
    assert forall|j: int| 0 <= j < p.ncols implies #[trigger] l.start(j) < l.end(j)
        && l.row_idx@[l.start(j)] == j by {
        assert(tail_col(p, l, d[j] as int, j));
        lemma_tail_col(p, l, d, j);
    }
}

/// The factor stores the entries that `A` stores on and below its diagonal, and
/// no others.
pub proof fn law_zero_fill(s: SymbolicIc0, p: CscPattern)
    requires
        p.wf(),
        splittable(p),
        s.describes(p),
    ensures
        stored(s.l) == stored_lower(p),
{
    assert forall|i: int, j: int| #[trigger] stored(s.l)(i, j) == stored_lower(p)(i, j) by {
        if 0 <= i < s.dim && 0 <= j < s.dim {
            let d = s.diag_pos@[j] as int;
            assert(tail_col(p, s.l, d, j));
            lemma_tail_col(p, s.l, s.diag_pos@, j);
            assert(diag_col_ok(p, j));
            assert(p.start(j) + s.diag_pos@[j] < p.end(j));
            if p.has(i, j) && i >= j {
                p.lemma_find(i, j);
                let k = p.find(i, j) - p.start(j) - d;
                if k < 0 {
                    assert(p.row_idx@[p.find(i, j)] < p.row_idx@[p.start(j) + d]);
                }
                assert(s.l.row_idx@[s.l.start(j) + k] == p.row_idx@[p.start(j) + s.diag_pos@[j] + k]);
                assert(s.l.in_col(s.l.start(j) + k, j));
            }
            if s.l.has(i, j) {
                s.l.lemma_find(i, j);
                let q = s.l.find(i, j);
                lemma_lower_col(s.l, s.dim as int, q, j);
                let k = q - s.l.start(j);
                assert(s.l.row_idx@[s.l.start(j) + k] == p.row_idx@[p.start(j) + s.diag_pos@[j] + k]);
                assert(p.in_col(p.start(j) + s.diag_pos@[j] + k, j));
            }
        }
    }
    assert(stored(s.l) =~= stored_lower(p));
}

} // verus!
