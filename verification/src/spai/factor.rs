//! Construction of the SPAI approximate inverse `M`.
//!
//! Column `k` of `M` minimises `||A m_k - e_k||` over its pattern `J_k`. Only
//! the rows that the columns in `J_k` store are involved, so each problem is a
//! small dense one: `A[I_k, J_k] m_k = e_k[I_k]`.
use super::{SpaiError, SpaiPattern};
use crate::dense::Mat;
use crate::lu::dense_entry;
use crate::scalar::Scalar;
use crate::sparse::{CscMatrix, CscModel, CscPattern, CscRef};
use crate::util::powers::{
    ascending, covers, is_power_column, is_union, lemma_ascending_unique, lemma_reaches_bounds,
    links, power_columns, union_rows,
};
use crate::util::unit::{is_unit_column, unit_column};
use vstd::prelude::*;

verus! {

/// Sparse approximate inverse: `M^{-1} = M ~= A^{-1}`.
#[derive(Debug, Clone)]
pub struct Spai<T> {
    pub m: CscMatrix<T>,
}

/// The dense problem of every column fits in memory.
pub open spec fn blocks_fit(p: CscPattern, power: int) -> bool {
    forall|k: int, cols: Seq<usize>, rows: Seq<usize>|
        0 <= k < p.ncols && #[trigger] is_power_column(p, power, k, cols) && #[trigger] is_union(
            p,
            cols,
            rows,
        ) ==> rows.len() * cols.len() <= usize::MAX
}

/// Whether the dense problem of every column fits in memory.
pub fn local_blocks_fit(p: &CscPattern, power: usize) -> (b: bool)
    requires
        p.wf(),
        p.distinct(),
        p.nrows == p.ncols,
        power >= 1,
    ensures
        b == blocks_fit(*p, power as int),
{
    let cols: Vec<Vec<usize>> = power_columns(p, power);
    let ghost pw = power as int;
    let n: usize = p.ncols;
    let len: usize = p.col_ptr.len();
    let mut marker: Vec<usize> = vec![usize::MAX; n];
    let ghost mut seen: Seq<Seq<usize>> = Seq::empty();
    let mut k: usize = 0;
    while k < n
        invariant
            p.wf(),
            p.nrows == n,
            p.ncols == n,
            n < usize::MAX,
            pw == power,
            cols@.len() == n,
            marker@.len() == n,
            k <= n,
            forall|c: int| 0 <= c < n ==> is_power_column(*p, pw, c, #[trigger] cols@[c]@),
            forall|r: int| 0 <= r < n ==> #[trigger] marker@[r] < k || marker@[r] == usize::MAX,
            seen.len() == k,
            forall|c: int|
                0 <= c < k ==> is_union(*p, cols@[c]@, #[trigger] seen[c]) && seen[c].len()
                    * cols@[c]@.len() <= usize::MAX,
        decreases n - k,
    {
        let ghost jk = cols@[k as int]@;
        proof {
            assert(is_power_column(*p, pw, k as int, jk));
            assert forall|y: int| 0 <= y < jk.len() implies (#[trigger] jk[y]) < n by {
                assert(jk.contains(jk[y]));
                lemma_reaches_bounds(*p, pw, jk[y] as int, k as int);
            }
        }
        let rows: Vec<usize> = union_rows(p, &cols[k], k, &mut marker);
        if rows.len().checked_mul(cols[k].len()).is_none() {
            assert(is_union(*p, jk, rows@));
            return false;
        }
        proof {
            seen = seen.push(rows@);
        }
        k += 1;
    }
    proof {
        assert forall|c: int, v: Seq<usize>, w: Seq<usize>|
            0 <= c < p.ncols && #[trigger] is_power_column(*p, pw, c, v) && #[trigger] is_union(
                *p,
                v,
                w,
            ) implies w.len() * v.len() <= usize::MAX by {
            assert(is_power_column(*p, pw, c, cols@[c]@));
            lemma_ascending_unique(v, cols@[c]@);
            assert(is_union(*p, cols@[c]@, seen[c]));
            lemma_ascending_unique(w, seen[c]);
        }
    }
    true
}

/// `s` is the dense block `A[rows, cols]`.
pub open spec fn is_submatrix<T: Scalar>(
    a: CscModel<T>,
    rows: Seq<usize>,
    cols: Seq<usize>,
    s: Mat<T>,
) -> bool {
    &&& s.wf()
    &&& s.nrows == rows.len()
    &&& s.ncols == cols.len()
    &&& forall|r: int, c: int|
        0 <= r < rows.len() && 0 <= c < cols.len() ==> #[trigger] s.at(r, c) == dense_entry(
            a,
            rows[r] as int,
            cols[c] as int,
        )
}

/// `lstsq` accepts every block with a right-hand side of its height and returns
/// one coefficient for each column.
pub open spec fn fits_columns<T, F: Fn(&Mat<T>, &Mat<T>) -> Mat<T>>(lstsq: F) -> bool {
    &&& forall|s: Mat<T>, e: Mat<T>|
        s.wf() && e.wf() && e.nrows == s.nrows && e.ncols == 1 ==> #[trigger] call_requires(
            lstsq,
            (&s, &e),
        )
    &&& forall|s: Mat<T>, e: Mat<T>, x: Mat<T>|
        s.wf() && #[trigger] call_ensures(lstsq, (&s, &e), x) ==> x.wf() && x.nrows == s.ncols
            && x.ncols == 1
}

/// `x` is what `lstsq` gave for column `k` with the pattern `cols`.
pub open spec fn fitted<T: Scalar, F: Fn(&Mat<T>, &Mat<T>) -> Mat<T>>(
    lstsq: F,
    a: CscModel<T>,
    cols: Seq<usize>,
    k: int,
    x: Mat<T>,
) -> bool {
    exists|rows: Seq<usize>, s: Mat<T>, e: Mat<T>|
        {
            &&& #[trigger] is_union(a.pattern, cols, rows)
            &&& is_submatrix(a, rows, cols, s)
            &&& is_unit_column(rows, k, e)
            &&& #[trigger] call_ensures(lstsq, (&s, &e), x)
        }
}

/// Column `k` of `m` has the pattern of column `k` of `A^power` and holds the
/// coefficients that `lstsq` gave for it.
pub open spec fn column_fitted<T: Scalar, F: Fn(&Mat<T>, &Mat<T>) -> Mat<T>>(
    lstsq: F,
    a: CscModel<T>,
    power: int,
    m: CscModel<T>,
    k: int,
) -> bool {
    &&& is_power_column(a.pattern, power, k, m.pattern.col(k))
    &&& exists|x: Mat<T>| #[trigger]
        fitted(lstsq, a, m.pattern.col(k), k, x) && m.values.subrange(
            m.pattern.start(k),
            m.pattern.end(k),
        ) == x.data@
}

/// The value in row `r` of column `j` as its first stored positions give it.
spec fn column_value<T: Scalar>(a: CscModel<T>, j: int, q: int, r: int) -> T
    decreases q - a.pattern.start(j),
{
    if q <= a.pattern.start(j) {
        T::null()
    } else if a.pattern.row_idx@[q - 1] == r {
        a.values[q - 1]
    } else {
        column_value(a, j, q - 1, r)
    }
}

/// All positions of a column give its dense entries.
proof fn lemma_column_value<T: Scalar>(a: CscModel<T>, j: int, q: int, r: int)
    requires
        a.pattern.wf(),
        a.pattern.distinct(),
        0 <= j < a.pattern.ncols,
        a.pattern.start(j) <= q <= a.pattern.end(j),
        forall|t: int| q <= t < a.pattern.end(j) ==> #[trigger] a.pattern.row_idx@[t] != r,
    ensures
        column_value(a, j, q, r) == dense_entry(a, r, j),
    decreases q,
{
    let p = a.pattern;
    if q <= p.start(j) {
        if p.has(r, j) {
            p.lemma_find(r, j);
            assert(p.row_idx@[p.find(r, j)] == r);
        }
    } else if p.row_idx@[q - 1] == r {
        assert(p.in_col(q - 1, j));
        assert(p.has(r, j));
        p.lemma_find(r, j);
        let f = p.find(r, j);
        if f != q - 1 {
            assert(p.in_col(f, j));
        }
    } else {
        lemma_column_value(a, j, q - 1, r);
    }
}

/// The dense block `A[rows, cols]`. `local` gives each row its place in `rows`.
fn submatrix<T: Scalar>(
    a: CscRef<'_, T>,
    rows: &Vec<usize>,
    cols: &Vec<usize>,
    local: &Vec<usize>,
) -> (s: Mat<T>)
    requires
        a.wf(),
        a.pattern.distinct(),
        is_union(*a.pattern, cols@, rows@),
        forall|y: int| 0 <= y < cols@.len() ==> (#[trigger] cols@[y]) < a.pattern.ncols,
        local@.len() == a.pattern.nrows,
        forall|x: int|
            0 <= x < rows@.len() ==> (#[trigger] rows@[x]) < a.pattern.nrows
                && local@[rows@[x] as int] == x,
        rows@.len() * cols@.len() <= usize::MAX,
    ensures
        is_submatrix(a@, rows@, cols@, s),
{
    let nr: usize = rows.len();
    let nc: usize = cols.len();
    let mut s: Mat<T> = Mat::zeros(nr, nc);
    let mut c: usize = 0;
    while c < nc
        invariant
            a.wf(),
            a.pattern.distinct(),
            is_union(*a.pattern, cols@, rows@),
            forall|y: int| 0 <= y < cols@.len() ==> (#[trigger] cols@[y]) < a.pattern.ncols,
            local@.len() == a.pattern.nrows,
            forall|x: int|
                0 <= x < rows@.len() ==> (#[trigger] rows@[x]) < a.pattern.nrows
                    && local@[rows@[x] as int] == x,
            nr == rows@.len(),
            nc == cols@.len(),
            s.wf(),
            s.nrows == nr,
            s.ncols == nc,
            c <= nc,
            forall|d: int, r: int|
                0 <= d < c && 0 <= r < nr ==> #[trigger] s.col(d)[r] == dense_entry(
                    a@,
                    rows@[r] as int,
                    cols@[d] as int,
                ),
            forall|d: int|
                c <= d < nc ==> #[trigger] s.col(d) == Seq::new(nr as nat, |i: int| T::null()),
        decreases nc - c,
    {
        let j: usize = cols[c];
        let ghost jj = j as int;
        let ghost s0 = s;
        let start: usize = a.pattern.col_ptr[j];
        let end: usize = a.pattern.col_ptr[j + 1];
        proof {
            a.pattern.lemma_col_bounds(jj);
            assert(s.col(c as int) == Seq::new(nr as nat, |i: int| T::null()));
        }
        let mut q: usize = start;
        while q < end
            invariant
                a.wf(),
                is_union(*a.pattern, cols@, rows@),
                local@.len() == a.pattern.nrows,
                forall|x: int|
                    0 <= x < rows@.len() ==> (#[trigger] rows@[x]) < a.pattern.nrows
                        && local@[rows@[x] as int] == x,
                nr == rows@.len(),
                nc == cols@.len(),
                jj == j,
                j < a.pattern.ncols,
                j == cols@[c as int],
                start == a.pattern.start(jj),
                end == a.pattern.end(jj),
                start <= q <= end,
                end <= a.pattern.row_idx@.len(),
                c < nc,
                s.wf(),
                s.nrows == nr,
                s.ncols == nc,
                forall|d: int| 0 <= d < nc && d != c ==> #[trigger] s.col(d) == s0.col(d),
                forall|r: int|
                    0 <= r < nr ==> #[trigger] s.col(c as int)[r] == column_value(
                        a@,
                        jj,
                        q as int,
                        rows@[r] as int,
                    ),
            decreases end - q,
        {
            let row: usize = a.pattern.row_idx[q];
            proof {
                assert(a.pattern.in_col(q as int, jj));
                assert(a.pattern.has(row as int, jj));
                assert(links(*a.pattern, row as int, cols@[c as int] as int));
                assert(covers(*a.pattern, cols@, row as int));
                assert(rows@.contains(row));
                let x = choose|x: int| 0 <= x < rows@.len() && rows@[x] == row;
                assert(local@[rows@[x] as int] == x);
            }
            let at: usize = local[row];
            let v: T = a.values[q].copy();
            s.set(at, c, v);
            q += 1;
        }
        proof {
            assert forall|d: int, r: int| 0 <= d < c + 1 && 0 <= r < nr implies #[trigger] s.col(
                d,
            )[r] == dense_entry(a@, rows@[r] as int, cols@[d] as int) by {
                if d < c {
                    assert(s.col(d) == s0.col(d));
                    assert(s0.col(d)[r] == dense_entry(a@, rows@[r] as int, cols@[d] as int));
                } else {
                    lemma_column_value(a@, jj, end as int, rows@[r] as int);
                }
            }
        }
        c += 1;
    }
    proof {
        assert forall|r: int, d: int| 0 <= r < nr && 0 <= d < nc implies #[trigger] s.at(r, d)
            == dense_entry(a@, rows@[r] as int, cols@[d] as int) by {
            assert(s.col(d)[r] == s.at(r, d));
        }
    }
    s
}

/// What [`Spai::try_new`] returns.
pub open spec fn built<T: Scalar, F: Fn(&Mat<T>, &Mat<T>) -> Mat<T>>(
    lstsq: F,
    a: CscRef<'_, T>,
    pattern: SpaiPattern,
    r: Result<Spai<T>, SpaiError>,
) -> bool {
    match r {
        Ok(f) => {
            &&& a.pattern.nrows == a.pattern.ncols
            &&& pattern.power() >= 1
            &&& f.wf()
            &&& f.m.pattern.ncols == a.pattern.ncols
            &&& forall|k: int|
                0 <= k < a.pattern.ncols ==> #[trigger] column_fitted(
                    lstsq,
                    a@,
                    pattern.power(),
                    f.m_model(),
                    k,
                )
        },
        Err(e) => if a.pattern.nrows != a.pattern.ncols {
            e == SpaiError::NonSquareMatrix {
                nrows: a.pattern.nrows,
                ncols: a.pattern.ncols,
            }
        } else {
            e is InvalidPower && pattern.power() == 0
        },
    }
}

impl<T: Scalar> Spai<T> {
    pub open spec fn wf(&self) -> bool {
        self.m.wf() && self.m.pattern.nrows == self.m.pattern.ncols
    }

    /// The approximate inverse `M`.
    pub open spec fn m_model(&self) -> CscModel<T> {
        CscModel { pattern: self.m.pattern, values: self.m.values@ }
    }

    /// Build a SPAI preconditioner for `A`. `lstsq` solves one dense
    /// least-squares problem.
    ///
    /// # Errors
    ///
    /// - [`SpaiError::NonSquareMatrix`] if `A` is not square.
    /// - [`SpaiError::InvalidPower`] if a `ColumnsOfPower` power is zero.
    pub fn try_new<F: Fn(&Mat<T>, &Mat<T>) -> Mat<T>>(
        a: CscRef<'_, T>,
        pattern: SpaiPattern,
        lstsq: F,
    ) -> (r: Result<Self, SpaiError>)
        requires
            a.wf(),
            a.pattern.distinct(),
            a.pattern.nrows == a.pattern.ncols && pattern.power() >= 1 ==> blocks_fit(
                *a.pattern,
                pattern.power(),
            ),
            fits_columns(lstsq),
        ensures
            built(lstsq, a, pattern, r),
    {
        let n: usize = a.pattern.ncols;
        if a.pattern.nrows != n {
            return Err(SpaiError::NonSquareMatrix { nrows: a.pattern.nrows, ncols: n });
        }
        let power: usize = match pattern {
            SpaiPattern::ColumnsOfA => 1,
            SpaiPattern::ColumnsOfPower { power } => power,
        };
        if power == 0 {
            return Err(SpaiError::InvalidPower);
        }
        let len: usize = a.pattern.col_ptr.len();
        let ghost pw = power as int;
        let cols: Vec<Vec<usize>> = power_columns(a.pattern, power);
        let mut mp: CscPattern = CscPattern::empty(n);
        let mut mv: Vec<T> = Vec::new();
        let mut marker: Vec<usize> = vec![usize::MAX; n];
        let mut local: Vec<usize> = vec![0; n];
        let mut k: usize = 0;
        while k < n
            invariant
                a.wf(),
                a.pattern.distinct(),
                a.pattern.nrows == n,
                a.pattern.ncols == n,
                n < usize::MAX,
                blocks_fit(*a.pattern, pw),
                fits_columns(lstsq),
                pw == pattern.power(),
                pw >= 1,
                cols@.len() == n,
                forall|c: int|
                    0 <= c < n ==> is_power_column(*a.pattern, pw, c, #[trigger] cols@[c]@),
                mp.wf(),
                mp.nrows == n,
                mp.ncols == k,
                mv@.len() == mp.row_idx@.len(),
                marker@.len() == n,
                local@.len() == n,
                forall|r: int|
                    0 <= r < n ==> #[trigger] marker@[r] < k || marker@[r] == usize::MAX,
                k <= n,
                forall|c: int|
                    0 <= c < k ==> #[trigger] column_fitted(
                        lstsq,
                        a@,
                        pw,
                        CscModel { pattern: mp, values: mv@ },
                        c,
                    ),
            decreases n - k,
        {
            let ghost kk = k as int;
            let ghost jk = cols@[kk]@;
            proof {
                assert(is_power_column(*a.pattern, pw, kk, jk));
                assert forall|y: int| 0 <= y < jk.len() implies (#[trigger] jk[y]) < n by {
                    assert(jk.contains(jk[y]));
                    lemma_reaches_bounds(*a.pattern, pw, jk[y] as int, kk);
                }
            }
            let rows: Vec<usize> = union_rows(a.pattern, &cols[k], k, &mut marker);
            proof {
                assert forall|x: int| 0 <= x < rows@.len() implies (#[trigger] rows@[x]) < n by {
                    assert(rows@.contains(rows@[x]));
                    let y = choose|y: int|
                        0 <= y < jk.len() && #[trigger] links(
                            *a.pattern,
                            rows@[x] as int,
                            jk[y] as int,
                        );
                    assert(links(*a.pattern, rows@[x] as int, jk[y] as int));
                }
            }
            let m: usize = rows.len();
            let mut x: usize = 0;
            while x < m
                invariant
                    x <= m,
                    m == rows@.len(),
                    local@.len() == n,
                    ascending(rows@),
                    forall|y: int| 0 <= y < m ==> (#[trigger] rows@[y]) < n,
                    forall|y: int| 0 <= y < x ==> local@[#[trigger] rows@[y] as int] == y,
                decreases m - x,
            {
                local.set(rows[x], x);
                x += 1;
            }
            let s: Mat<T> = submatrix(a, &rows, &cols[k], &local);
            let e: Mat<T> = unit_column(&rows, k);
            let sol: Mat<T> = lstsq(&s, &e);
            proof {
                assert(is_union(a@.pattern, jk, rows@));
                assert(is_submatrix(a@, rows@, jk, s));
                assert(is_unit_column(rows@, kk, e));
                assert(call_ensures(lstsq, (&s, &e), sol));
                assert(fitted(lstsq, a@, jk, kk, sol));
            }
            let ghost mp0 = mp;
            let ghost mv0 = mv@;
            mp.append_column(&cols[k]);
            let cnt: usize = cols[k].len();
            let mut c: usize = 0;
            while c < cnt
                invariant
                    c <= cnt,
                    cnt == jk.len(),
                    sol.wf(),
                    sol.nrows == cnt,
                    sol.ncols == 1,
                    mv@.len() == mv0.len() + c,
                    forall|y: int| 0 <= y < mv0.len() ==> #[trigger] mv@[y] == mv0[y],
                    forall|y: int|
                        mv0.len() <= y < mv@.len() ==> #[trigger] mv@[y] == sol.data@[y
                            - mv0.len()],
                decreases cnt - c,
            {
                assert(sol.at(c as int, 0) == sol.data@[c as int]);
                mv.push(sol.get(c, 0).copy());
                c += 1;
            }
            proof {
                let md = CscModel { pattern: mp, values: mv@ };
                let md0 = CscModel { pattern: mp0, values: mv0 };
                assert(sol.data@.len() == cnt);
                assert forall|c: int| 0 <= c < k + 1 implies #[trigger] column_fitted(
                    lstsq,
                    a@,
                    pw,
                    md,
                    c,
                ) by {
                    if c < k {
                        assert(column_fitted(lstsq, a@, pw, md0, c));
                        mp0.lemma_col_bounds(c);
                        assert(mp.col(c) == mp0.col(c));
                        assert(mp.col_ptr@[c] == mp0.col_ptr@[c]);
                        assert(mp.col_ptr@[c + 1] == mp0.col_ptr@[c + 1]);
                        assert(mv@.subrange(mp.start(c), mp.end(c)) =~= mv0.subrange(
                            mp0.start(c),
                            mp0.end(c),
                        ));
                        let sx = choose|sx: Mat<T>| #[trigger]
                            fitted(lstsq, a@, mp0.col(c), c, sx) && mv0.subrange(
                                mp0.start(c),
                                mp0.end(c),
                            ) == sx.data@;
                        assert(fitted(lstsq, a@, md.pattern.col(c), c, sx) && md.values.subrange(
                            md.pattern.start(c),
                            md.pattern.end(c),
                        ) == sx.data@);
                    } else {
                        mp.lemma_col_bounds(kk);
                        assert(mp.col(kk) == jk);
                        assert(mp.col(kk).len() == mp.end(kk) - mp.start(kk));
                        assert(mv@.subrange(mp.start(kk), mp.end(kk)) =~= sol.data@);
                        assert(is_power_column(a@.pattern, pw, kk, md.pattern.col(kk)));
                        assert(fitted(lstsq, a@, md.pattern.col(kk), kk, sol) && md.values.subrange(
                            md.pattern.start(kk),
                            md.pattern.end(kk),
                        ) == sol.data@);
                    }
                }
            }
            k += 1;
        }
        Ok(Spai { m: CscMatrix { pattern: mp, values: mv } })
    }

    /// Dimension `n` of the preconditioner.
    pub fn dim(&self) -> (n: usize)
        ensures
            n == self.m.pattern.ncols,
    {
        self.m.pattern.ncols
    }

    /// View over the approximate inverse `M`.
    pub fn m_view(&self) -> (r: CscRef<'_, T>)
        ensures
            r@ == self.m_model(),
            self.wf() ==> r.wf(),
    {
        CscRef { pattern: &self.m.pattern, values: self.m.values.as_slice() }
    }
}

} // verus!
