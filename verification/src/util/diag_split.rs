//! Locating the diagonal in a sparsity pattern.
use vstd::prelude::*;

use crate::sparse::CscPattern;

verus! {

/// Why a pattern could not be split around its diagonal.
#[derive(Debug, Clone, Copy, PartialEq, Eq, Structural)]
pub enum DiagError {
    /// The pattern was not square.
    NonSquare { nrows: usize, ncols: usize },
    /// Column `col` does not list its diagonal entry `(col, col)`.
    MissingDiagonal { col: usize },
    /// Column `col` has row indices that are not sorted ascending.
    UnsortedRowIndices { col: usize },
}

/// Column `j` is sorted and holds its diagonal entry.
pub open spec fn diag_col_ok(p: CscPattern, j: int) -> bool {
    p.sorted_col(j) && p.has(j, j)
}

/// The first `j` columns are sorted and hold their diagonal entries.
pub open spec fn diag_cols_ok(p: CscPattern, j: int) -> bool {
    forall|k: int| 0 <= k < j ==> #[trigger] diag_col_ok(p, k)
}

/// A square pattern whose columns are sorted and hold their diagonal.
pub open spec fn splittable(p: CscPattern) -> bool {
    p.nrows == p.ncols && diag_cols_ok(p, p.ncols as int)
}

/// `d` lists where the diagonal sits within each column.
pub open spec fn is_diag_pos(p: CscPattern, d: Seq<usize>) -> bool {
    &&& d.len() == p.ncols
    &&& forall|j: int|
        0 <= j < p.ncols ==> {
            &&& p.start(j) + #[trigger] d[j] < p.end(j)
            &&& p.row_idx@[p.start(j) + d[j]] == j
        }
}

/// `e` says what is wrong with the first column that cannot be split.
pub open spec fn diag_error_of(p: CscPattern, e: DiagError) -> bool {
    match e {
        DiagError::NonSquare { nrows, ncols } => p.nrows != p.ncols && nrows == p.nrows && ncols
            == p.ncols,
        DiagError::UnsortedRowIndices { col } => {
            &&& p.nrows == p.ncols
            &&& col < p.ncols
            &&& diag_cols_ok(p, col as int)
            &&& !p.sorted_col(col as int)
        },
        DiagError::MissingDiagonal { col } => {
            &&& p.nrows == p.ncols
            &&& col < p.ncols
            &&& diag_cols_ok(p, col as int)
            &&& p.sorted_col(col as int)
            &&& !p.has(col as int, col as int)
        },
    }
}

/// Validates the pattern `p` and returns, for each column `j`, the index
/// *within* that column where row `j` (the diagonal) sits.
pub fn validated_diag_pos(p: &CscPattern) -> (r: Result<Vec<usize>, DiagError>)
    requires
        p.wf(),
    ensures
        r is Ok <==> splittable(*p),
        r matches Ok(d) ==> is_diag_pos(*p, d@),
        r matches Err(e) ==> diag_error_of(*p, e),
{
    if p.nrows != p.ncols {
        return Err(DiagError::NonSquare { nrows: p.nrows, ncols: p.ncols });
    }
    let n: usize = p.ncols;
    let mut diag_pos: Vec<usize> = Vec::with_capacity(n);
    let mut j: usize = 0;
    while j < n
        invariant
            p.wf(),
            n == p.ncols,
            p.nrows == p.ncols,
            j <= n,
            diag_pos@.len() == j,
            diag_cols_ok(*p, j as int),
            forall|k: int|
                0 <= k < j ==> p.start(k) + #[trigger] diag_pos@[k] < p.end(k) && p.row_idx@[p.start(
                    k,
                ) + diag_pos@[k]] == k,
        decreases n - j,
    {
        let s: usize = p.col_ptr[j];
        let e: usize = p.col_ptr[j + 1];
        proof {
            p.lemma_col_bounds(j as int);
        }
        let mut diag: Option<usize> = None;
        let mut k: usize = s;
        while k < e
            invariant
                p.wf(),
                n == p.ncols,
                p.nrows == p.ncols,
                j < n,
                s == p.start(j as int),
                e == p.end(j as int),
                s <= k <= e <= p.row_idx@.len(),
                diag_cols_ok(*p, j as int),
                forall|a: int, b: int|
                    s <= a < b < k ==> #[trigger] p.row_idx@[a] < #[trigger] p.row_idx@[b],
                diag matches Some(d) ==> s + d < k && p.row_idx@[s + d] == j,
                diag is None ==> forall|a: int| s <= a < k ==> #[trigger] p.row_idx@[a] != j,
            decreases e - k,
        {
            let r: usize = p.row_idx[k];
            if k > s && r <= p.row_idx[k - 1] {
                assert(p.row_idx@[k - 1] >= p.row_idx@[k as int]);
                assert(!p.sorted_col(j as int));
                assert(!diag_col_ok(*p, j as int));
                return Err(DiagError::UnsortedRowIndices { col: j });
            }
            if r == j {
                diag = Some(k - s);
            }
            k += 1;
        }
        assert(p.sorted_col(j as int));
        match diag {
            Some(d) => {
                assert(p.in_col(s + d, j as int));
                assert(p.has(j as int, j as int));
                assert(diag_col_ok(*p, j as int));
                diag_pos.push(d);
            },
            None => {
                assert(!p.has(j as int, j as int));
                assert(!diag_col_ok(*p, j as int));
                return Err(DiagError::MissingDiagonal { col: j });
            },
        }
        j += 1;
    }
    Ok(diag_pos)
}

} // verus!
