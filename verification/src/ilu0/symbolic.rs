//! Symbolic structure for zero-fill incomplete LU.
//!
//! The patterns of `L` and `U` are exactly the lower and upper triangles of
//! the pattern of `A`, in the diagonal-first and diagonal-last layout.
use vstd::prelude::*;

use super::Ilu0Error;
use crate::lu::{lower_ok, lu_has, upper_ok};
use crate::sparse::{stored, CscPattern};
use crate::util::diag_split::{
    diag_col_ok, diag_error_of, is_diag_pos, splittable, validated_diag_pos, DiagError,
};

verus! {

/// Symbolic factor for ILU(0).
///
/// Built once for a given sparsity pattern, then reused across any number of
/// numerical refactorisations.
#[derive(Debug, Clone)]
pub struct SymbolicIlu0 {
    pub dim: usize,
    pub a_nnz: usize,
    /// Index *within* column `j` of `A` where row `j` (the diagonal) appears.
    pub diag_pos: Vec<usize>,
    /// `L`'s pattern. The diagonal is stored *first* in each column.
    pub l: CscPattern,
    /// `U`'s pattern. The diagonal is stored *last* in each column.
    pub u: CscPattern,
}

/// The error that reports `e`.
pub open spec fn ilu0_error_of(e: DiagError) -> Ilu0Error {
    match e {
        DiagError::NonSquare { nrows, ncols } => Ilu0Error::NonSquareMatrix { nrows, ncols },
        DiagError::MissingDiagonal { col } => Ilu0Error::MissingDiagonal { col },
        DiagError::UnsortedRowIndices { col } => Ilu0Error::UnsortedRowIndices { col },
    }
}

/// Column `j` of `u` and of `l` is column `j` of `p` up to its diagonal, which
/// stands at place `d`, and from it on.
pub open spec fn splits_col(p: CscPattern, l: CscPattern, u: CscPattern, d: int, j: int) -> bool {
    &&& u.col(j) == p.col(j).subrange(0, d + 1)
    &&& l.col(j) == p.col(j).subrange(d, p.col(j).len() as int)
}

impl SymbolicIlu0 {
    pub open spec fn wf(&self) -> bool {
        &&& lower_ok(self.l, self.dim as int)
        &&& upper_ok(self.u, self.dim as int)
        &&& self.diag_pos@.len() == self.dim
        &&& forall|j: int|
            0 <= j < self.dim ==> self.u.end(j) - self.u.start(j) == #[trigger] self.diag_pos@[j] + 1
        &&& self.a_nnz + self.dim == self.l.row_idx@.len() + self.u.row_idx@.len()
    }

    /// `self` is the symbolic factor of the pattern `p`.
    pub open spec fn describes(&self, p: CscPattern) -> bool {
        &&& self.wf()
        &&& self.dim == p.ncols
        &&& self.a_nnz == p.row_idx@.len()
        &&& is_diag_pos(p, self.diag_pos@)
        &&& forall|j: int|
            0 <= j < self.dim ==> #[trigger] splits_col(
                p,
                self.l,
                self.u,
                self.diag_pos@[j] as int,
                j,
            )
    }

    /// Build the symbolic ILU(0) structure from a CSC sparsity pattern.
    ///
    /// The pattern must be square, every column must contain its diagonal
    /// entry, and its rows must be sorted ascending; otherwise the error names
    /// the first column that breaks this.
    pub fn try_new(pattern: &CscPattern) -> (r: Result<Self, Ilu0Error>)
        requires
            pattern.wf(),
        ensures
            r is Ok <==> splittable(*pattern),
            r matches Ok(s) ==> s.describes(*pattern),
            r matches Err(e) ==> exists|d: DiagError| #[trigger]
                diag_error_of(*pattern, d) && e == ilu0_error_of(d),
    {
        let diag_pos: Vec<usize> = match validated_diag_pos(pattern) {
            Ok(d) => d,
            Err(e) => {
                return Err(
                    match e {
                        DiagError::NonSquare { nrows, ncols } => Ilu0Error::NonSquareMatrix {
                            nrows,
                            ncols,
                        },
                        DiagError::MissingDiagonal { col } => Ilu0Error::MissingDiagonal { col },
                        DiagError::UnsortedRowIndices { col } => Ilu0Error::UnsortedRowIndices {
                            col,
                        },
                    },
                );
            },
        };
        let n: usize = pattern.ncols;
        let mut l: CscPattern = CscPattern::empty(n);
        let mut u: CscPattern = CscPattern::empty(n);
        let mut j: usize = 0;
        while j < n
            invariant
                pattern.wf(),
                splittable(*pattern),
                n == pattern.ncols,
                is_diag_pos(*pattern, diag_pos@),
                j <= n,
                l.wf(),
                l.nrows == n,
                l.ncols == j,
                u.wf(),
                u.nrows == n,
                u.ncols == j,
                l.row_idx@.len() + u.row_idx@.len() == pattern.col_ptr@[j as int] + j,
                forall|k: int|
                    0 <= k < j ==> #[trigger] splits_col(*pattern, l, u, diag_pos@[k] as int, k),
            decreases n - j,
        {
            let s: usize = pattern.col_ptr[j];
            let e: usize = pattern.col_ptr[j + 1];
            let d: usize = diag_pos[j];
            proof {
                pattern.lemma_col_bounds(j as int);
            }
            let ghost pcol = pattern.col(j as int);
            let mut ucol: Vec<usize> = Vec::new();
            let mut k: usize = s;
            while k <= s + d
                invariant
                    pattern.wf(),
                    n == pattern.nrows,
                    s == pattern.start(j as int),
                    e == pattern.end(j as int),
                    pcol == pattern.col(j as int),
                    s <= k <= s + d + 1 <= e <= pattern.row_idx@.len(),
                    ucol@ == pcol.subrange(0, k - s),
                    forall|t: int| 0 <= t < ucol@.len() ==> (#[trigger] ucol@[t]) < n,
                decreases s + d + 1 - k,
            {
                ucol.push(pattern.row_idx[k]);
                assert(pcol.subrange(0, k + 1 - s) == pcol.subrange(0, k - s).push(pcol[k - s]));
                k += 1;
            }
            let mut lcol: Vec<usize> = Vec::new();
            let mut k: usize = s + d;
            while k < e
                invariant
                    pattern.wf(),
                    n == pattern.nrows,
                    s == pattern.start(j as int),
                    e == pattern.end(j as int),
                    pcol == pattern.col(j as int),
                    s + d <= k <= e <= pattern.row_idx@.len(),
                    lcol@ == pcol.subrange(d as int, k - s),
                    forall|t: int| 0 <= t < lcol@.len() ==> (#[trigger] lcol@[t]) < n,
                decreases e - k,
            {
                lcol.push(pattern.row_idx[k]);
                assert(pcol.subrange(d as int, k + 1 - s) == pcol.subrange(d as int, k - s).push(
                    pcol[k - s],
                ));
                k += 1;
            }
            let ghost l0 = l;
            let ghost u0 = u;
            l.append_column(&lcol);
            u.append_column(&ucol);
            proof {
                assert forall|t: int| 0 <= t < j + 1 implies #[trigger] splits_col(
                    *pattern,
                    l,
                    u,
                    diag_pos@[t] as int,
                    t,
                ) by {
                    if t < j {
                        assert(splits_col(*pattern, l0, u0, diag_pos@[t] as int, t));
                        assert(l.col(t) == l0.col(t));
                        assert(u.col(t) == u0.col(t));
                    } else {
                        assert(l.col(t) == lcol@);
                        assert(u.col(t) == ucol@);
                    }
                }
            }
            j += 1;
        }
        let ghost d0 = diag_pos@;
        let a_nnz: usize = pattern.row_idx.len();
        let r: SymbolicIlu0 = SymbolicIlu0 { dim: n, a_nnz, diag_pos, l, u };
        proof {
            lemma_split_ok(*pattern, r.l, r.u, d0);
        }
        Ok(r)
    }

    /// Dimension `n` of the analysed matrix.
    pub fn dim(&self) -> (r: usize)
        ensures
            r == self.dim,
    {
        self.dim
    }

    /// Number of structural nonzeros in `A`.
    pub fn a_nnz(&self) -> (r: usize)
        ensures
            r == self.a_nnz,
    {
        self.a_nnz
    }

    /// Number of structural nonzeros in `L` (includes its unit diagonal slots).
    pub fn l_nnz(&self) -> (r: usize)
        ensures
            r == self.l.row_idx@.len(),
    {
        self.l.row_idx.len()
    }

    /// Number of structural nonzeros in `U` (includes its diagonal slots).
    pub fn u_nnz(&self) -> (r: usize)
        ensures
            r == self.u.row_idx@.len(),
    {
        self.u.row_idx.len()
    }
}

/// Splitting every column at its diagonal gives two triangular patterns.
proof fn lemma_split_ok(p: CscPattern, l: CscPattern, u: CscPattern, d: Seq<usize>)
    requires
        p.wf(),
        splittable(p),
        is_diag_pos(p, d),
        l.wf(),
        u.wf(),
        l.nrows == p.ncols,
        l.ncols == p.ncols,
        u.nrows == p.ncols,
        u.ncols == p.ncols,
        forall|j: int| 0 <= j < p.ncols ==> #[trigger] splits_col(p, l, u, d[j] as int, j),
    ensures
        lower_ok(l, p.ncols as int),
        upper_ok(u, p.ncols as int),
        forall|j: int| 0 <= j < p.ncols ==> u.end(j) - u.start(j) == #[trigger] d[j] + 1,
{
    assert forall|j: int| 0 <= j < p.ncols implies {
        &&& #[trigger] l.sorted_col(j)
        &&& u.sorted_col(j)
        &&& l.start(j) < l.end(j)
        &&& l.row_idx@[l.start(j)] == j
        &&& u.start(j) < u.end(j)
        &&& u.row_idx@[u.end(j) - 1] == j
        &&& u.end(j) - u.start(j) == d[j] + 1
    } by {
        lemma_split_col(p, l, u, d, j);
    }
    assert(l.sorted());
    assert forall|j: int| 0 <= j < p.ncols implies #[trigger] u.sorted_col(j) by {
        assert(l.sorted_col(j));
    }
    assert forall|j: int| 0 <= j < p.ncols implies #[trigger] u.start(j) < u.end(j)
        && u.row_idx@[u.end(j) - 1] == j by {
        assert(l.sorted_col(j));
    }
    assert forall|j: int| 0 <= j < p.ncols implies #[trigger] l.start(j) < l.end(j)
        && l.row_idx@[l.start(j)] == j by {
        assert(l.sorted_col(j));
    }
    assert forall|j: int| 0 <= j < p.ncols implies u.end(j) - u.start(j) == #[trigger] d[j] + 1 by {
        assert(l.sorted_col(j));
    }
}

proof fn lemma_split_col(p: CscPattern, l: CscPattern, u: CscPattern, d: Seq<usize>, j: int)
    requires
        p.wf(),
        splittable(p),
        is_diag_pos(p, d),
        l.wf(),
        u.wf(),
        l.nrows == p.ncols,
        l.ncols == p.ncols,
        u.nrows == p.ncols,
        u.ncols == p.ncols,
        0 <= j < p.ncols,
        splits_col(p, l, u, d[j] as int, j),
    ensures
        l.sorted_col(j),
        u.sorted_col(j),
        l.start(j) < l.end(j),
        l.row_idx@[l.start(j)] == j,
        u.start(j) < u.end(j),
        u.row_idx@[u.end(j) - 1] == j,
        u.end(j) - u.start(j) == d[j] + 1,
        l.end(j) - l.start(j) == p.end(j) - p.start(j) - d[j],
        forall|k: int|
            0 <= k <= d[j] ==> #[trigger] u.row_idx@[u.start(j) + k] == p.row_idx@[p.start(j) + k],
        forall|k: int|
            d[j] <= k < p.end(j) - p.start(j) ==> #[trigger] l.row_idx@[l.start(j) + k - d[j]]
                == p.row_idx@[p.start(j) + k],
{
    p.lemma_col_bounds(j);
    l.lemma_col_bounds(j);
    u.lemma_col_bounds(j);
    assert(diag_col_ok(p, j));
    let dj = d[j] as int;
    assert(p.start(j) + d[j] < p.end(j));
    assert(u.col(j).len() == dj + 1);
    assert(l.col(j).len() == p.col(j).len() - dj);
    assert forall|k: int| 0 <= k <= dj implies #[trigger] u.row_idx@[u.start(j) + k]
        == p.row_idx@[p.start(j) + k] by {
        assert(u.col(j)[k] == p.col(j)[k]);
    }
    assert forall|k: int| dj <= k < p.end(j) - p.start(j) implies #[trigger] l.row_idx@[l.start(j)
        + k - dj] == p.row_idx@[p.start(j) + k] by {
        assert(l.col(j)[k - dj] == p.col(j)[k]);
    }
    assert(u.row_idx@[u.start(j) + dj] == p.row_idx@[p.start(j) + dj]);
    assert(l.row_idx@[l.start(j) + dj - dj] == p.row_idx@[p.start(j) + dj]);
    assert(u.sorted_col(j)) by {
        assert forall|a: int, b: int|
            u.start(j) <= a < b < u.end(j) implies #[trigger] u.row_idx@[a]
            < #[trigger] u.row_idx@[b] by {
            assert(u.row_idx@[u.start(j) + (a - u.start(j))] == p.row_idx@[p.start(j) + (a
                - u.start(j))]);
            assert(u.row_idx@[u.start(j) + (b - u.start(j))] == p.row_idx@[p.start(j) + (b
                - u.start(j))]);
        }
    }
    assert(l.sorted_col(j)) by {
        assert forall|a: int, b: int|
            l.start(j) <= a < b < l.end(j) implies #[trigger] l.row_idx@[a]
            < #[trigger] l.row_idx@[b] by {
            let ka = a - l.start(j) + dj;
            let kb = b - l.start(j) + dj;
            assert(l.row_idx@[l.start(j) + ka - dj] == p.row_idx@[p.start(j) + ka]);
            assert(l.row_idx@[l.start(j) + kb - dj] == p.row_idx@[p.start(j) + kb]);
        }
    }
}

/// The factors store the entries that `A` stores, and no others.
pub proof fn law_zero_fill(s: SymbolicIlu0, p: CscPattern)
    requires
        p.wf(),
        splittable(p),
        s.describes(p),
    ensures
        forall|i: int, j: int|
            0 <= i && 0 <= j < s.dim ==> (#[trigger] s.l.has(i, j) <==> i >= j && p.has(i, j)),
        forall|i: int, j: int|
            0 <= i && 0 <= j < s.dim ==> (#[trigger] s.u.has(i, j) <==> i <= j && p.has(i, j)),
        lu_has(s.l, s.u) == stored(p),
        s.l.row_idx@.len() + s.u.row_idx@.len() == p.row_idx@.len() + s.dim,
{
    assert forall|i: int, j: int| 0 <= i && 0 <= j < s.dim implies {
        &&& (#[trigger] s.l.has(i, j) <==> i >= j && p.has(i, j))
        &&& (s.u.has(i, j) <==> i <= j && p.has(i, j))
    } by {
        lemma_split_has(s, p, i, j);
    }
    assert forall|i: int, j: int| 0 <= i && 0 <= j < s.dim implies (#[trigger] s.u.has(i, j)
        <==> i <= j && p.has(i, j)) by {
        lemma_split_has(s, p, i, j);
    }
    assert(lu_has(s.l, s.u) =~= stored(p));
}

proof fn lemma_split_has(s: SymbolicIlu0, p: CscPattern, i: int, j: int)
    requires
        p.wf(),
        splittable(p),
        s.describes(p),
        0 <= j < s.dim,
        0 <= i,
    ensures
        s.l.has(i, j) <==> i >= j && p.has(i, j),
        s.u.has(i, j) <==> i <= j && p.has(i, j),
{
    let d = s.diag_pos@[j] as int;
    assert(splits_col(p, s.l, s.u, d, j));
    lemma_split_col(p, s.l, s.u, s.diag_pos@, j);
    assert(diag_col_ok(p, j));
    assert(p.start(j) + s.diag_pos@[j] < p.end(j));
    if p.has(i, j) {
        p.lemma_find(i, j);
        let k = p.find(i, j) - p.start(j);
        if i >= j {
            if k < d {
                assert(p.row_idx@[p.start(j) + k] < p.row_idx@[p.start(j) + d]);
            }
            assert(s.l.row_idx@[s.l.start(j) + k - d] == p.row_idx@[p.start(j) + k]);
            assert(s.l.in_col(s.l.start(j) + k - d, j));
        }
        if i <= j {
            if k > d {
                assert(p.row_idx@[p.start(j) + d] < p.row_idx@[p.start(j) + k]);
            }
            assert(s.u.row_idx@[s.u.start(j) + k] == p.row_idx@[p.start(j) + k]);
            assert(s.u.in_col(s.u.start(j) + k, j));
        }
    }
    if s.l.has(i, j) {
        s.l.lemma_find(i, j);
        let k = s.l.find(i, j) - s.l.start(j) + d;
        assert(s.l.row_idx@[s.l.start(j) + k - d] == p.row_idx@[p.start(j) + k]);
        assert(p.in_col(p.start(j) + k, j));
        if k > d {
            assert(p.row_idx@[p.start(j) + d] < p.row_idx@[p.start(j) + k]);
        }
    }
    if s.u.has(i, j) {
        s.u.lemma_find(i, j);
        let k = s.u.find(i, j) - s.u.start(j);
        assert(s.u.row_idx@[s.u.start(j) + k] == p.row_idx@[p.start(j) + k]);
        assert(p.in_col(p.start(j) + k, j));
        if k < d {
            assert(p.row_idx@[p.start(j) + k] < p.row_idx@[p.start(j) + d]);
        }
    }
}

} // verus!
