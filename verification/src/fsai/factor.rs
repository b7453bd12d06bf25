//! Construction of the FSAI factor `G`.
//!
//! Row `i` with pattern set `J_i = {j <= i : (i, j) in pattern}` solves
//! `A[J_i, J_i] g = e_i` and is scaled by `1 / sqrt(g_i)`; the resulting
//! `M^{-1} = G^H G` has unit diagonal in `G A G^H`.
use super::{FsaiError, FsaiPattern};
use crate::dense::Mat;
use crate::lu::dense_entry;
use crate::scalar::{RealScalar, Scalar};
use crate::sparse::{CscMatrix, CscModel, CscPattern, CscRef};
use crate::transpose::{
    is_transpose, lemma_transpose_has, lemma_transpose_sorted, placed, transpose,
};
use crate::util::powers::{
    ascending, is_power_column, law_power_of_transpose, lemma_ascending_unique, power_columns,
    reaches,
};
use crate::util::unit::{is_unit_column, unit_column};
use vstd::prelude::*;

verus! {

/// Factorized sparse approximate inverse: `M^{-1} = G^H G`.
#[derive(Debug, Clone)]
pub struct Fsai<T> {
    pub g: CscMatrix<T>,
}

/// `v` is the pattern of row `i` of `G`: the columns of row `i` of `A^power` up
/// to the diagonal, which always belongs to it.
pub open spec fn is_lower_row(p: CscPattern, power: int, i: int, v: Seq<usize>) -> bool {
    &&& ascending(v)
    &&& v.len() > 0
    &&& v.last() == i
    &&& forall|c: usize| #[trigger]
        v.contains(c) <==> c == i || (c < i && reaches(p, power, i, c as int))
}

/// The local block of every row fits in memory.
pub open spec fn blocks_fit(p: CscPattern, power: int) -> bool {
    forall|i: int, v: Seq<usize>|
        0 <= i < p.nrows && #[trigger] is_lower_row(p, power, i, v) ==> v.len() * v.len()
            <= usize::MAX
}

/// `A[r, c]` for a Hermitian matrix that may store only its lower triangle.
pub open spec fn hermitian_entry<T: Scalar>(a: CscModel<T>, r: int, c: int) -> T {
    if r >= c {
        dense_entry(a, r, c)
    } else {
        dense_entry(a, c, r).conjugate()
    }
}

/// `s` is the dense block `A[rows, rows]`, read off the lower triangle.
pub open spec fn is_local_block<T: Scalar>(a: CscModel<T>, rows: Seq<usize>, s: Mat<T>) -> bool {
    &&& s.wf()
    &&& s.nrows == rows.len()
    &&& s.ncols == rows.len()
    &&& forall|r: int, c: int|
        0 <= r < rows.len() && 0 <= c < rows.len() ==> #[trigger] s.at(r, c) == hermitian_entry(
            a,
            rows[r] as int,
            rows[c] as int,
        )
}

/// `llt` accepts every square block with a right-hand side of its height, and
/// returns a solution of that height where the block is positive definite.
pub open spec fn solves_spd<T, F: Fn(&Mat<T>, &Mat<T>) -> Option<Mat<T>>>(llt: F) -> bool {
    &&& forall|s: Mat<T>, e: Mat<T>|
        s.wf() && s.nrows == s.ncols && e.wf() && e.nrows == s.nrows && e.ncols == 1
            ==> #[trigger] call_requires(llt, (&s, &e))
    &&& forall|s: Mat<T>, e: Mat<T>, x: Option<Mat<T>>| #[trigger]
        call_ensures(llt, (&s, &e), x) && x is Some ==> x->0.wf() && x->0.nrows == s.nrows
            && x->0.ncols == 1
}

/// `x` is what `llt` gave for the row pattern `rows`.
pub open spec fn attempted<T: Scalar, F: Fn(&Mat<T>, &Mat<T>) -> Option<Mat<T>>>(
    llt: F,
    a: CscModel<T>,
    rows: Seq<usize>,
    x: Option<Mat<T>>,
) -> bool {
    exists|s: Mat<T>, e: Mat<T>|
        {
            &&& is_local_block(a, rows, s)
            &&& is_unit_column(rows, rows.last() as int, e)
            &&& #[trigger] call_ensures(llt, (&s, &e), x)
        }
}

/// The diagonal entry of a solution: its last entry.
pub open spec fn pivot<T: Scalar>(x: Mat<T>) -> T::Real {
    x.at(x.nrows - 1, 0).real_part()
}

/// Entry `k` of the row that a solution scales to.
pub open spec fn scaled_entry<T: Scalar>(x: Mat<T>, k: int) -> T {
    T::embed(pivot(x).root()).reciprocal().times(x.at(k, 0).conjugate())
}

/// Row `i` of `g` has the prescribed pattern and holds a scaled solution that
/// `llt` gave for it.
pub open spec fn row_built<T: Scalar, F: Fn(&Mat<T>, &Mat<T>) -> Option<Mat<T>>>(
    llt: F,
    a: CscModel<T>,
    power: int,
    g: CscModel<T>,
    i: int,
) -> bool {
    exists|rows: Seq<usize>, x: Mat<T>|
        {
            &&& is_lower_row(a.pattern, power, i, rows)
            &&& #[trigger] attempted(llt, a, rows, Some(x))
            &&& T::Real::null().below(pivot(x))
            &&& forall|c: usize| #[trigger]
                rows.contains(c) <==> c < g.pattern.ncols && g.pattern.has(i, c as int)
            &&& forall|k: int|
                0 <= k < rows.len() ==> g.entry(i, #[trigger] rows[k] as int) == scaled_entry(x, k)
        }
}

/// Row `i` could not be built: `llt` gave no solution, or one without a positive
/// diagonal entry.
pub open spec fn row_failed<T: Scalar, F: Fn(&Mat<T>, &Mat<T>) -> Option<Mat<T>>>(
    llt: F,
    a: CscModel<T>,
    power: int,
    i: int,
) -> bool {
    exists|rows: Seq<usize>, x: Option<Mat<T>>|
        {
            &&& is_lower_row(a.pattern, power, i, rows)
            &&& #[trigger] attempted(llt, a, rows, x)
            &&& x is None || !T::Real::null().below(pivot(x->0))
        }
}

/// Row `i` could be built: `llt` gave a solution with a positive diagonal entry.
pub open spec fn row_passed<T: Scalar, F: Fn(&Mat<T>, &Mat<T>) -> Option<Mat<T>>>(
    llt: F,
    a: CscModel<T>,
    power: int,
    i: int,
) -> bool {
    exists|rows: Seq<usize>, x: Mat<T>|
        {
            &&& is_lower_row(a.pattern, power, i, rows)
            &&& #[trigger] attempted(llt, a, rows, Some(x))
            &&& T::Real::null().below(pivot(x))
        }
}

/// The row patterns of `G`, each ascending.
pub fn lower_row_patterns(p: &CscPattern, power: usize) -> (r: Vec<Vec<usize>>)
    requires
        p.wf(),
        p.distinct(),
        p.nrows == p.ncols,
        power >= 1,
    ensures
        r@.len() == p.nrows,
        forall|i: int|
            0 <= i < p.nrows ==> is_lower_row(*p, power as int, i, #[trigger] r@[i]@),
{
    let n: usize = p.nrows;
    let len: usize = p.col_ptr.len();
    let ghost pw = power as int;
    let (t, order): (CscPattern, Vec<usize>) = transpose(p);
    proof {
        lemma_transpose_sorted(*p, t, order@);
        t.lemma_sorted_distinct();
    }
    let full: Vec<Vec<usize>> = power_columns(&t, power);
    let mut out: Vec<Vec<usize>> = Vec::with_capacity(n);
    let mut i: usize = 0;
    while i < n
        invariant
            p.wf(),
            p.nrows == p.ncols,
            n == p.nrows,
            pw >= 1,
            is_transpose(*p, t, order@),
            t.ncols == n,
            full@.len() == n,
            forall|c: int| 0 <= c < n ==> is_power_column(t, pw, c, #[trigger] full@[c]@),
            i <= n,
            out@.len() == i,
            forall|k: int| 0 <= k < i ==> is_lower_row(*p, pw, k, #[trigger] out@[k]@),
        decreases n - i,
    {
        let ghost ii = i as int;
        let ghost f = full@[ii]@;
        let mut row: Vec<usize> = Vec::new();
        let m: usize = full[i].len();
        let mut k: usize = 0;
        while k < m && full[i][k] < i
            invariant
                i < n,
                full@.len() == n,
                f == full@[i as int]@,
                m == f.len(),
                ascending(f),
                k <= m,
                row@ == f.subrange(0, k as int),
                forall|x: int| 0 <= x < k ==> (#[trigger] f[x]) < i,
            decreases m - k,
        {
            row.push(full[i][k]);
            assert(row@ =~= f.subrange(0, k + 1));
            k += 1;
        }
        let ghost low = row@;
        row.push(i);
        proof {
            assert(is_power_column(t, pw, ii, f));
            assert forall|x: int, y: int| 0 <= x < y < row@.len() implies #[trigger] row@[x]
                < #[trigger] row@[y] by {
                if y < k {
                    assert(f[x] < f[y]);
                } else {
                    assert(f[x] < i);
                }
            }
            assert forall|c: usize| #[trigger] row@.contains(c) <==> c == i || (c < i && reaches(
                *p,
                pw,
                ii,
                c as int,
            )) by {
                law_power_of_transpose(*p, t, order@, pw, ii, c as int);
                if row@.contains(c) {
                    let x = choose|x: int| 0 <= x < row@.len() && row@[x] == c;
                    if x < k {
                        assert(f[x] == c);
                        assert(f.contains(c));
                    }
                }
                if c == i {
                    assert(row@[k as int] == i);
                }
                if c < i && reaches(*p, pw, ii, c as int) {
                    assert(f.contains(c));
                    let x = choose|x: int| 0 <= x < f.len() && f[x] == c;
                    if x >= k {
                        if x > k {
                            assert(f[k as int] < f[x]);
                        }
                    }
                    assert(row@[x] == c);
                }
            }
        }
        out.push(row);
        i += 1;
    }
    out
}

/// Whether the local block of every row fits in memory.
pub fn local_blocks_fit(p: &CscPattern, power: usize) -> (b: bool)
    requires
        p.wf(),
        p.distinct(),
        p.nrows == p.ncols,
        power >= 1,
    ensures
        b == blocks_fit(*p, power as int),
{
    let rows: Vec<Vec<usize>> = lower_row_patterns(p, power);
    let n: usize = rows.len();
    let mut i: usize = 0;
    while i < n
        invariant
            n == rows@.len(),
            n == p.nrows,
            i <= n,
            forall|k: int|
                0 <= k < n ==> is_lower_row(*p, power as int, k, #[trigger] rows@[k]@),
            forall|k: int|
                0 <= k < i ==> (#[trigger] rows@[k]@).len() * rows@[k]@.len() <= usize::MAX,
        decreases n - i,
    {
        let len: usize = rows[i].len();
        assert(is_lower_row(*p, power as int, i as int, rows@[i as int]@));
        if len.checked_mul(len).is_none() {
            return false;
        }
        i += 1;
    }
    proof {
        assert forall|k: int, v: Seq<usize>|
            0 <= k < p.nrows && #[trigger] is_lower_row(*p, power as int, k, v) implies v.len()
            * v.len() <= usize::MAX by {
            assert(is_lower_row(*p, power as int, k, rows@[k]@));
            lemma_ascending_unique(v, rows@[k]@);
        }
    }
    true
}

/// The entry `(r, c)` of `a`, zero where nothing is stored.
fn get_entry<T: Scalar>(a: CscRef<'_, T>, r: usize, c: usize) -> (x: T)
    requires
        a.wf(),
        a.pattern.distinct(),
        c < a.pattern.ncols,
    ensures
        x == dense_entry(a@, r as int, c as int),
{
    let start: usize = a.pattern.col_ptr[c];
    let end: usize = a.pattern.col_ptr[c + 1];
    proof {
        a.pattern.lemma_col_bounds(c as int);
    }
    let mut q: usize = start;
    while q < end
        invariant
            a.wf(),
            a.pattern.distinct(),
            c < a.pattern.ncols,
            start == a.pattern.start(c as int),
            end == a.pattern.end(c as int),
            start <= q <= end,
            end <= a.pattern.row_idx@.len(),
            forall|t: int| start <= t < q ==> #[trigger] a.pattern.row_idx@[t] != r,
        decreases end - q,
    {
        if a.pattern.row_idx[q] == r {
            proof {
                assert(a.pattern.in_col(q as int, c as int));
                a.pattern.lemma_find_only(q as int, c as int);
            }
            return a.values[q].copy();
        }
        q += 1;
    }
    proof {
        if a.pattern.has(r as int, c as int) {
            a.pattern.lemma_find(r as int, c as int);
            assert(a.pattern.row_idx@[a.pattern.find(r as int, c as int)] == r);
        }
    }
    T::zero()
}

/// `A[r, c]` for a Hermitian matrix that may store only its lower triangle.
fn get_hermitian<T: Scalar>(a: CscRef<'_, T>, r: usize, c: usize) -> (x: T)
    requires
        a.wf(),
        a.pattern.distinct(),
        r < a.pattern.ncols,
        c < a.pattern.ncols,
    ensures
        x == hermitian_entry(a@, r as int, c as int),
{
    if r >= c {
        get_entry(a, r, c)
    } else {
        get_entry(a, c, r).conj()
    }
}

/// The dense block `A[rows, rows]`, read off the lower triangle.
pub fn local_block<T: Scalar>(a: CscRef<'_, T>, rows: &Vec<usize>) -> (s: Mat<T>)
    requires
        a.wf(),
        a.pattern.distinct(),
        forall|x: int| 0 <= x < rows@.len() ==> (#[trigger] rows@[x]) < a.pattern.ncols,
        rows@.len() * rows@.len() <= usize::MAX,
    ensures
        is_local_block(a@, rows@, s),
{
    let m: usize = rows.len();
    let mut s: Mat<T> = Mat::zeros(m, m);
    let mut c: usize = 0;
    while c < m
        invariant
            a.wf(),
            a.pattern.distinct(),
            forall|x: int| 0 <= x < rows@.len() ==> (#[trigger] rows@[x]) < a.pattern.ncols,
            m == rows@.len(),
            s.wf(),
            s.nrows == m,
            s.ncols == m,
            c <= m,
            forall|d: int, r: int|
                0 <= d < c && 0 <= r < m ==> #[trigger] s.col(d)[r] == hermitian_entry(
                    a@,
                    rows@[r] as int,
                    rows@[d] as int,
                ),
        decreases m - c,
    {
        let ghost s0 = s;
        let mut r: usize = 0;
        while r < m
            invariant
                a.wf(),
                a.pattern.distinct(),
                forall|x: int| 0 <= x < rows@.len() ==> (#[trigger] rows@[x]) < a.pattern.ncols,
                m == rows@.len(),
                s.wf(),
                s.nrows == m,
                s.ncols == m,
                c < m,
                r <= m,
                forall|d: int| 0 <= d < m && d != c ==> #[trigger] s.col(d) == s0.col(d),
                forall|x: int|
                    0 <= x < r ==> #[trigger] s.col(c as int)[x] == hermitian_entry(
                        a@,
                        rows@[x] as int,
                        rows@[c as int] as int,
                    ),
            decreases m - r,
        {
            let v: T = get_hermitian(a, rows[r], rows[c]);
            s.set(r, c, v);
            r += 1;
        }
        assert forall|d: int, r: int| 0 <= d < c + 1 && 0 <= r < m implies #[trigger] s.col(d)[r]
            == hermitian_entry(a@, rows@[r] as int, rows@[d] as int) by {
            if d < c {
                assert(s.col(d) == s0.col(d));
                assert(s0.col(d)[r] == hermitian_entry(a@, rows@[r] as int, rows@[d] as int));
            }
        }
        c += 1;
    }
    assert forall|r: int, d: int| 0 <= r < m && 0 <= d < m implies #[trigger] s.at(r, d)
        == hermitian_entry(a@, rows@[r] as int, rows@[d] as int) by {
        assert(s.col(d)[r] == s.at(r, d));
    }
    s
}

/// The row that a solution scales to, if its diagonal entry is positive.
pub fn scaled_row<T: Scalar>(x: &Mat<T>) -> (r: Option<Vec<T>>)
    requires
        x.wf(),
        x.nrows >= 1,
        x.ncols == 1,
    ensures
        r is Some <==> T::Real::null().below(pivot(*x)),
        r matches Some(v) ==> v@.len() == x.nrows && forall|k: int|
            0 <= k < x.nrows ==> #[trigger] v@[k] == scaled_entry(*x, k),
{
    let m: usize = x.nrows;
    let g: T::Real = x.get(m - 1, 0).re();
    if !T::Real::zero().lt(&g) {
        return None;
    }
    let d: T = T::from_real(&g.sqrt()).recip();
    let mut v: Vec<T> = Vec::with_capacity(m);
    let mut k: usize = 0;
    while k < m
        invariant
            x.wf(),
            x.ncols == 1,
            m == x.nrows,
            k <= m,
            v@.len() == k,
            d == T::embed(pivot(*x).root()).reciprocal(),
            forall|y: int| 0 <= y < k ==> #[trigger] v@[y] == scaled_entry(*x, y),
        decreases m - k,
    {
        let y: T = d.mul(&x.get(k, 0).conj());
        v.push(y);
        k += 1;
    }
    Some(v)
}

/// Row `i` is kept as column `i` of `rows`, with its values at the same
/// positions.
spec fn row_kept<T: Scalar, F: Fn(&Mat<T>, &Mat<T>) -> Option<Mat<T>>>(
    llt: F,
    a: CscModel<T>,
    power: int,
    rows: CscPattern,
    values: Seq<T>,
    i: int,
) -> bool {
    &&& is_lower_row(a.pattern, power, i, rows.col(i))
    &&& exists|x: Mat<T>|
        {
            &&& #[trigger] attempted(llt, a, rows.col(i), Some(x))
            &&& T::Real::null().below(pivot(x))
            &&& forall|k: int|
                0 <= k < rows.col(i).len() ==> #[trigger] values[rows.start(i) + k] == scaled_entry(
                    x,
                    k,
                )
        }
}

/// Gathers `v` by `order`.
fn gather<T: Scalar>(v: &Vec<T>, order: &Vec<usize>) -> (r: Vec<T>)
    requires
        forall|s: int| 0 <= s < order@.len() ==> (#[trigger] order@[s]) < v@.len(),
    ensures
        r@.len() == order@.len(),
        forall|s: int| 0 <= s < order@.len() ==> #[trigger] r@[s] == v@[order@[s] as int],
{
    let n: usize = order.len();
    let mut r: Vec<T> = Vec::with_capacity(n);
    let mut s: usize = 0;
    while s < n
        invariant
            n == order@.len(),
            s <= n,
            r@.len() == s,
            forall|x: int| 0 <= x < order@.len() ==> (#[trigger] order@[x]) < v@.len(),
            forall|x: int| 0 <= x < s ==> #[trigger] r@[x] == v@[order@[x] as int],
        decreases n - s,
    {
        r.push(v[order[s]].copy());
        s += 1;
    }
    r
}

/// A kept row is a row of the transposed assembly.
proof fn lemma_row_assembled<T: Scalar, F: Fn(&Mat<T>, &Mat<T>) -> Option<Mat<T>>>(
    llt: F,
    a: CscModel<T>,
    power: int,
    rows: CscPattern,
    values: Seq<T>,
    g: CscModel<T>,
    order: Seq<usize>,
    i: int,
)
    requires
        rows.wf(),
        rows.sorted(),
        rows.nrows == rows.ncols,
        values.len() == rows.row_idx@.len(),
        is_transpose(rows, g.pattern, order),
        g.values.len() == order.len(),
        forall|s: int| 0 <= s < order.len() ==> #[trigger] g.values[s] == values[order[s] as int],
        0 <= i < rows.ncols,
        row_kept(llt, a, power, rows, values, i),
    ensures
        row_built(llt, a, power, g, i),
{
    let ji = rows.col(i);
    let x = choose|x: Mat<T>|
        {
            &&& #[trigger] attempted(llt, a, ji, Some(x))
            &&& T::Real::null().below(pivot(x))
            &&& forall|k: int|
                0 <= k < ji.len() ==> #[trigger] values[rows.start(i) + k] == scaled_entry(x, k)
        };
    rows.lemma_col_bounds(i);
    rows.lemma_sorted_distinct();
    lemma_transpose_sorted(rows, g.pattern, order);
    assert forall|c: usize| #[trigger] ji.contains(c) <==> c < g.pattern.ncols && g.pattern.has(
        i,
        c as int,
    ) by {
        if ji.contains(c) {
            let k = choose|k: int| 0 <= k < ji.len() && ji[k] == c;
            assert(rows.in_col(rows.start(i) + k, i));
            assert(rows.row_idx@[rows.start(i) + k] == c);
            assert(rows.has(c as int, i));
            lemma_transpose_has(rows, g.pattern, order, c as int, i);
        }
        if c < g.pattern.ncols && g.pattern.has(i, c as int) {
            lemma_transpose_has(rows, g.pattern, order, c as int, i);
            rows.lemma_find(c as int, i);
            let k = rows.find(c as int, i) - rows.start(i);
            assert(ji[k] == c);
        }
    }
    assert forall|k: int| 0 <= k < ji.len() implies g.entry(i, #[trigger] ji[k] as int)
        == scaled_entry(x, k) by {
        let c = ji[k] as int;
        let q = rows.start(i) + k;
        assert(rows.in_col(q, i));
        assert(rows.row_idx@[q] == c);
        assert(placed(g.pattern, order, rows.row_idx@[q] as int, q));
        let s = choose|s: int| #[trigger] g.pattern.in_col(s, c) && order[s] == q;
        g.pattern.lemma_col_bounds(c);
        assert(rows.in_col(order[s] as int, g.pattern.row_idx@[s] as int));
        rows.lemma_col_unique(q, i, g.pattern.row_idx@[s] as int);
        assert(g.pattern.sorted_col(c));
        g.pattern.lemma_find_at(s, c);
        assert(g.values[s] == values[order[s] as int]);
        assert(values[rows.start(i) + k] == scaled_entry(x, k));
    }
    assert(attempted(llt, a, ji, Some(x)));
}

/// What [`Fsai::try_new`] returns.
pub open spec fn built<T: Scalar, F: Fn(&Mat<T>, &Mat<T>) -> Option<Mat<T>>>(
    llt: F,
    a: CscRef<'_, T>,
    pattern: FsaiPattern,
    r: Result<Fsai<T>, FsaiError>,
) -> bool {
    match r {
        Ok(f) => {
            &&& a.pattern.nrows == a.pattern.ncols
            &&& pattern.power() >= 1
            &&& f.wf()
            &&& f.g.pattern.ncols == a.pattern.ncols
            &&& forall|i: int|
                0 <= i < a.pattern.ncols ==> #[trigger] row_built(
                    llt,
                    a@,
                    pattern.power(),
                    f.g_model(),
                    i,
                )
        },
        Err(e) => if a.pattern.nrows != a.pattern.ncols {
            e == FsaiError::NonSquareMatrix {
                nrows: a.pattern.nrows,
                ncols: a.pattern.ncols,
            }
        } else if pattern.power() == 0 {
            e is InvalidPower
        } else {
            &&& e matches FsaiError::NotPositiveDefinite { row }
            &&& row < a.pattern.ncols
            &&& row_failed(llt, a@, pattern.power(), row as int)
            &&& forall|k: int|
                0 <= k < row ==> #[trigger] row_passed(llt, a@, pattern.power(), k)
        },
    }
}

impl<T: Scalar> Fsai<T> {
    pub open spec fn wf(&self) -> bool {
        self.g.wf() && self.g.pattern.nrows == self.g.pattern.ncols && self.g.pattern.sorted()
    }

    /// The factor `G`.
    pub open spec fn g_model(&self) -> CscModel<T> {
        CscModel { pattern: self.g.pattern, values: self.g.values@ }
    }

    /// Build an FSAI preconditioner for the Hermitian positive-definite `A`.
    /// `llt` solves one dense positive-definite system, or finds that it is not
    /// positive definite.
    ///
    /// # Errors
    ///
    /// - [`FsaiError::NonSquareMatrix`] if `A` is not square.
    /// - [`FsaiError::InvalidPower`] if a `LowerOfPower` power is zero.
    /// - [`FsaiError::NotPositiveDefinite`] names the first row whose local block
    ///   is not positive definite.
    pub fn try_new<F: Fn(&Mat<T>, &Mat<T>) -> Option<Mat<T>>>(
        a: CscRef<'_, T>,
        pattern: FsaiPattern,
        llt: F,
    ) -> (r: Result<Self, FsaiError>)
        requires
            a.wf(),
            a.pattern.distinct(),
            a.pattern.nrows == a.pattern.ncols && pattern.power() >= 1 ==> blocks_fit(
                *a.pattern,
                pattern.power(),
            ),
            solves_spd(llt),
        ensures
            built(llt, a, pattern, r),
    {
        let n: usize = a.pattern.ncols;
        if a.pattern.nrows != n {
            return Err(FsaiError::NonSquareMatrix { nrows: a.pattern.nrows, ncols: n });
        }
        let power: usize = match pattern {
            FsaiPattern::LowerOfA => 1,
            FsaiPattern::LowerOfPower { power } => power,
        };
        if power == 0 {
            return Err(FsaiError::InvalidPower);
        }
        let len: usize = a.pattern.col_ptr.len();
        let ghost pw = power as int;
        let row_sets: Vec<Vec<usize>> = lower_row_patterns(a.pattern, power);
        let mut rp: CscPattern = CscPattern::empty(n);
        let mut rv: Vec<T> = Vec::new();
        let mut i: usize = 0;
        while i < n
            invariant
                a.wf(),
                a.pattern.distinct(),
                a.pattern.nrows == n,
                a.pattern.ncols == n,
                n < usize::MAX,
                blocks_fit(*a.pattern, pw),
                solves_spd(llt),
                pw == pattern.power(),
                pw >= 1,
                row_sets@.len() == n,
                forall|k: int|
                    0 <= k < n ==> is_lower_row(*a.pattern, pw, k, #[trigger] row_sets@[k]@),
                rp.wf(),
                rp.nrows == n,
                rp.ncols == i,
                rv@.len() == rp.row_idx@.len(),
                i <= n,
                forall|k: int| 0 <= k < i ==> #[trigger] row_kept(llt, a@, pw, rp, rv@, k),
                forall|k: int| 0 <= k < i ==> #[trigger] row_passed(llt, a@, pw, k),
            decreases n - i,
        {
            let ghost ii = i as int;
            let ghost ji = row_sets@[ii]@;
            proof {
                assert(is_lower_row(*a.pattern, pw, ii, ji));
                assert forall|x: int| 0 <= x < ji.len() implies (#[trigger] ji[x]) < n by {
                    assert(ji.contains(ji[x]));
                }
            }
            let s: Mat<T> = local_block(a, &row_sets[i]);
            let e: Mat<T> = unit_column(&row_sets[i], i);
            let sol: Option<Mat<T>> = llt(&s, &e);
            proof {
                assert(is_local_block(a@, ji, s));
                assert(is_unit_column(ji, ji.last() as int, e));
                assert(call_ensures(llt, (&s, &e), sol));
                assert(attempted(llt, a@, ji, sol));
            }
            let x: Mat<T> = match sol {
                Some(x) => x,
                None => {
                    assert(row_failed(llt, a@, pw, ii));
                    return Err(FsaiError::NotPositiveDefinite { row: i });
                },
            };
            let vals: Vec<T> = match scaled_row(&x) {
                Some(v) => v,
                None => {
                    assert(row_failed(llt, a@, pw, ii));
                    return Err(FsaiError::NotPositiveDefinite { row: i });
                },
            };
            assert(row_passed(llt, a@, pw, ii));
            let ghost rp0 = rp;
            let ghost rv0 = rv@;
            rp.append_column(&row_sets[i]);
            let cnt: usize = vals.len();
            let mut k: usize = 0;
            while k < cnt
                invariant
                    k <= cnt,
                    cnt == vals@.len(),
                    rv@.len() == rv0.len() + k,
                    forall|y: int| 0 <= y < rv0.len() ==> #[trigger] rv@[y] == rv0[y],
                    forall|y: int| 0 <= y < k ==> #[trigger] rv@[rv0.len() + y] == vals@[y],
                decreases cnt - k,
            {
                rv.push(vals[k].copy());
                k += 1;
            }
            proof {
                assert forall|k: int| 0 <= k < i + 1 implies #[trigger] row_kept(
                    llt,
                    a@,
                    pw,
                    rp,
                    rv@,
                    k,
                ) by {
                    if k < i {
                        assert(row_kept(llt, a@, pw, rp0, rv0, k));
                        rp0.lemma_col_bounds(k);
                        assert(rp.col(k) == rp0.col(k));
                        assert(rp.col_ptr@[k] == rp0.col_ptr@[k]);
                        let y = choose|y: Mat<T>|
                            {
                                &&& #[trigger] attempted(llt, a@, rp0.col(k), Some(y))
                                &&& T::Real::null().below(pivot(y))
                                &&& forall|c: int|
                                    0 <= c < rp0.col(k).len() ==> #[trigger] rv0[rp0.start(k) + c]
                                        == scaled_entry(y, c)
                            };
                        assert(attempted(llt, a@, rp.col(k), Some(y)));
                        assert forall|c: int| 0 <= c < rp.col(k).len() implies #[trigger] rv@[
                            rp.start(k) + c
                        ] == scaled_entry(y, c) by {
                            assert(rv0[rp0.start(k) + c] == scaled_entry(y, c));
                        }
                    } else {
                        assert(rp.col(ii) == ji);
                        assert(rp.start(ii) == rv0.len());
                        assert(attempted(llt, a@, rp.col(ii), Some(x)));
                        assert forall|c: int| 0 <= c < rp.col(ii).len() implies #[trigger] rv@[
                            rp.start(ii) + c
                        ] == scaled_entry(x, c) by {
                            assert(rv@[rv0.len() + c] == vals@[c]);
                        }
                    }
                }
            }
            i += 1;
        }
        proof {
            assert forall|j: int| 0 <= j < rp.ncols implies #[trigger] rp.sorted_col(j) by {
                assert(row_kept(llt, a@, pw, rp, rv@, j));
                rp.lemma_col_bounds(j);
                assert forall|p: int, q: int|
                    rp.start(j) <= p < q < rp.end(j) implies #[trigger] rp.row_idx@[p]
                    < #[trigger] rp.row_idx@[q] by {
                    assert(rp.col(j)[p - rp.start(j)] < rp.col(j)[q - rp.start(j)]);
                }
            }
            rp.lemma_sorted_distinct();
        }
        let (gp, order): (CscPattern, Vec<usize>) = transpose(&rp);
        proof {
            lemma_transpose_sorted(rp, gp, order@);
            assert forall|s: int| 0 <= s < order@.len() implies (#[trigger] order@[s])
                < rv@.len() by {
                lemma_order_bounds(rp, gp, order@, s);
            }
        }
        let gv: Vec<T> = gather(&rv, &order);
        let f: Fsai<T> = Fsai { g: CscMatrix { pattern: gp, values: gv } };
        proof {
            assert forall|i: int| 0 <= i < n implies #[trigger] row_built(
                llt,
                a@,
                pw,
                f.g_model(),
                i,
            ) by {
                assert(row_kept(llt, a@, pw, rp, rv@, i));
                lemma_row_assembled(llt, a@, pw, rp, rv@, f.g_model(), order@, i);
            }
        }
        Ok(f)
    }

    /// Dimension `n` of the preconditioner.
    pub fn dim(&self) -> (n: usize)
        ensures
            n == self.g.pattern.ncols,
    {
        self.g.pattern.ncols
    }

    /// View over the lower-triangular factor `G`.
    pub fn g_view(&self) -> (r: CscRef<'_, T>)
        ensures
            r@ == self.g_model(),
            self.wf() ==> r.wf(),
    {
        CscRef { pattern: &self.g.pattern, values: self.g.values.as_slice() }
    }
}

/// The order of a transposition names positions of the pattern.
proof fn lemma_order_bounds(p: CscPattern, t: CscPattern, order: Seq<usize>, s: int)
    requires
        p.wf(),
        is_transpose(p, t, order),
        0 <= s < order.len(),
    ensures
        order[s] < p.row_idx@.len(),
{
    let i = t.lemma_some_col(s);
    assert(t.in_col(s, i));
}

} // verus!
