//! Patterns of powers as walks.
use super::powers::{is_power_column, lemma_reaches_last, lemma_reaches_step, links, reaches};
use crate::dense::Mat;
use crate::fsai::factor::{is_lower_row, row_built, Fsai};
use crate::fsai::{FsaiError, FsaiPattern};
use crate::scalar::Scalar;
use crate::spai::factor::{column_fitted, Spai};
use crate::spai::{SpaiError, SpaiPattern};
use crate::sparse::{CscPattern, CscRef};
use vstd::prelude::*;

verus! {

/// `path` is a walk of `k` steps, each along a stored entry of `p` from its row to
/// its column.
pub open spec fn is_walk(p: CscPattern, path: Seq<int>, k: int) -> bool {
    &&& path.len() == k + 1
    &&& forall|t: int| 0 <= t < k ==> #[trigger] links(p, path[t], path[t + 1])
}

/// A walk of `k` steps leads from `r` to `c`.
pub open spec fn walks(p: CscPattern, k: int, r: int, c: int) -> bool {
    exists|path: Seq<int>| #[trigger] is_walk(p, path, k) && path[0] == r && path[k] == c
}

/// The pattern of `A^k` holds `(r, c)` exactly where a walk of `k` stored entries
/// leads from row `r` to column `c`.
pub proof fn law_powers_are_walks(p: CscPattern, k: int, r: int, c: int)
    requires
        k >= 1,
    ensures
        reaches(p, k, r, c) <==> walks(p, k, r, c),
    decreases k,
{
    if reaches(p, k, r, c) {
        if k == 1 {
            let path = seq![r, c];
            assert(links(p, path[0], path[1]));
            assert(is_walk(p, path, 1));
        } else {
            let m = lemma_reaches_last(p, k - 1, r, c);
            law_powers_are_walks(p, k - 1, m, c);
            let rest = choose|rest: Seq<int>| #[trigger]
                is_walk(p, rest, k - 1) && rest[0] == m && rest[k - 1] == c;
            let path = seq![r] + rest;
            assert forall|t: int| 0 <= t < k implies #[trigger] links(p, path[t], path[t + 1]) by {
                if t == 0 {
                    assert(path[1] == rest[0]);
                } else {
                    assert(links(p, rest[t - 1], rest[t - 1 + 1]));
                    assert(path[t] == rest[t - 1]);
                    assert(path[t + 1] == rest[t - 1 + 1]);
                }
            }
            assert(is_walk(p, path, k));
            assert(path[k] == rest[k - 1]);
        }
    }
    if walks(p, k, r, c) {
        let path = choose|path: Seq<int>| #[trigger]
            is_walk(p, path, k) && path[0] == r && path[k] == c;
        let first: int = 0;
        assert(links(p, path[first], path[first + 1]));
        if k > 1 {
            let rest = path.skip(1);
            assert forall|t: int| 0 <= t < k - 1 implies #[trigger] links(
                p,
                rest[t],
                rest[t + 1],
            ) by {
                assert(links(p, path[t + 1], path[t + 1 + 1]));
                assert(rest[t] == path[t + 1]);
                assert(rest[t + 1] == path[t + 1 + 1]);
            }
            assert(is_walk(p, rest, k - 1));
            assert(rest[0] == path[1] && rest[k - 1] == c);
            law_powers_are_walks(p, k - 1, path[1], c);
            lemma_reaches_step(p, k - 1, r, path[1], c);
        }
    }
}

/// The pattern of `A^(j+k)` is that of the product of `A^j` and `A^k`.
pub proof fn law_powers_multiply(p: CscPattern, j: int, k: int, r: int, c: int)
    requires
        j >= 1,
        k >= 1,
    ensures
        reaches(p, j + k, r, c) <==> exists|m: int| #[trigger]
            reaches(p, j, r, m) && reaches(p, k, m, c),
    decreases j,
{
    if reaches(p, j + k, r, c) {
        let x = lemma_reaches_last(p, j + k - 1, r, c);
        if j == 1 {
            assert(reaches(p, 1, r, x) && reaches(p, k, x, c));
        } else {
            law_powers_multiply(p, j - 1, k, x, c);
            let m = choose|m: int| #[trigger] reaches(p, j - 1, x, m) && reaches(p, k, m, c);
            lemma_reaches_step(p, j - 1, r, x, m);
            assert(reaches(p, j, r, m));
        }
    }
    if exists|m: int| #[trigger] reaches(p, j, r, m) && reaches(p, k, m, c) {
        let m = choose|m: int| #[trigger] reaches(p, j, r, m) && reaches(p, k, m, c);
        if j == 1 {
            lemma_reaches_step(p, k, r, m, c);
        } else {
            let x = lemma_reaches_last(p, j - 1, r, m);
            assert(reaches(p, j - 1, x, m));
            law_powers_multiply(p, j - 1, k, x, c);
            lemma_reaches_step(p, j + k - 1, r, x, c);
        }
    }
}

/// The steps that a pattern asks for.
pub open spec fn lower_steps(pattern: FsaiPattern) -> int {
    match pattern {
        FsaiPattern::LowerOfA => 1,
        FsaiPattern::LowerOfPower { power } => power as int,
    }
}

/// The steps that a pattern asks for.
pub open spec fn column_steps(pattern: SpaiPattern) -> int {
    match pattern {
        SpaiPattern::ColumnsOfA => 1,
        SpaiPattern::ColumnsOfPower { power } => power as int,
    }
}

/// `G` stores its diagonal, and below it every place that a walk of as many
/// entries of `A` as the pattern asks for leads to. A power of zero is refused.
pub proof fn law_fsai_pattern<T: Scalar, F: Fn(&Mat<T>, &Mat<T>) -> Option<Mat<T>>>(
    llt: F,
    a: CscRef<'_, T>,
    pattern: FsaiPattern,
    r: Result<Fsai<T>, FsaiError>,
    i: int,
    j: int,
)
    requires
        a.wf(),
        crate::fsai::factor::built(llt, a, pattern, r),
        0 <= i < a.pattern.ncols,
        0 <= j < a.pattern.ncols,
    ensures
        r matches Ok(f) ==> lower_steps(pattern) >= 1 && (f.g.pattern.has(i, j) <==> i == j || (j < i
            && walks(*a.pattern, lower_steps(pattern), i, j))),
        a.pattern.nrows == a.pattern.ncols && lower_steps(pattern) == 0 ==> r == Err::<
            Fsai<T>,
            FsaiError,
        >(FsaiError::InvalidPower),
{
    if let Ok(f) = r {
        let k = lower_steps(pattern);
        law_powers_are_walks(*a.pattern, k, i, j);
        assert(row_built(llt, a@, pattern.power(), f.g_model(), i));
        let (rows, x) = choose|rows: Seq<usize>, x: Mat<T>|
            {
                &&& is_lower_row(a@.pattern, pattern.power(), i, rows)
                &&& #[trigger] crate::fsai::factor::attempted(llt, a@, rows, Some(x))
                &&& forall|c: usize| #[trigger]
                    rows.contains(c) <==> c < f.g_model().pattern.ncols
                        && f.g_model().pattern.has(i, c as int)
            };
        let c = j as usize;
        assert(rows.contains(c) <==> c == i || (c < i && reaches(*a.pattern, k, i, c as int)));
    }
}

/// `M` stores every place that a walk of as many entries of `A` as the pattern asks
/// for leads to. A power of zero is refused.
pub proof fn law_spai_pattern<T: Scalar, F: Fn(&Mat<T>, &Mat<T>) -> Mat<T>>(
    lstsq: F,
    a: CscRef<'_, T>,
    pattern: SpaiPattern,
    r: Result<Spai<T>, SpaiError>,
    i: int,
    j: int,
)
    requires
        a.wf(),
        crate::spai::factor::built(lstsq, a, pattern, r),
        0 <= i < a.pattern.ncols,
        0 <= j < a.pattern.ncols,
    ensures
        r matches Ok(f) ==> column_steps(pattern) >= 1 && (f.m.pattern.has(i, j) <==> walks(
            *a.pattern,
            column_steps(pattern),
            i,
            j,
        )),
        a.pattern.nrows == a.pattern.ncols && column_steps(pattern) == 0 ==> r == Err::<
            Spai<T>,
            SpaiError,
        >(SpaiError::InvalidPower),
{
    if let Ok(f) = r {
        let k = column_steps(pattern);
        law_powers_are_walks(*a.pattern, k, i, j);
        assert(column_fitted(lstsq, a@, pattern.power(), f.m_model(), j));
        let col = f.m.pattern.col(j);
        f.m.pattern.lemma_col_bounds(j);
        assert(is_power_column(*a.pattern, k, j, col));
        let c = i as usize;
        assert(col.contains(c) <==> reaches(*a.pattern, k, c as int, j));
        if f.m.pattern.has(i, j) {
            let q = f.m.pattern.find(i, j);
            f.m.pattern.lemma_find(i, j);
            assert(col[q - f.m.pattern.start(j)] == c);
        }
        if col.contains(c) {
            let x = col.index_of(c);
            let q = f.m.pattern.start(j) + x;
            assert(f.m.pattern.in_col(q, j));
            assert(f.m.pattern.row_idx@[q] == i);
        }
    }
}

} // verus!
