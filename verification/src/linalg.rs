//! Sparse kernels on dense columns: triangular solves and products.
//!
//! Each kernel is described on one column as the sequence of its column steps,
//! in the order in which they are taken. Triangular factors store their
//! diagonal first (lower) or last (upper) in each column.
use vstd::prelude::*;

use crate::dense::Mat;
use crate::lu::{dense_entry, lemma_lower_col, lemma_upper_col, lower_ok, upper_ok};
use crate::scalar::{
    apply_conj, conj_if, exact_field, lemma_minus_undoes_plus, lemma_null_absorbs,
    lemma_null_is_neutral, lemma_plus_associates, lemma_plus_commutes, lemma_reciprocal_inverts,
    lemma_times_associates, lemma_times_commutes, lemma_unit_is_neutral, vanishes, Scalar,
};
use crate::sparse::{CscModel, CscRef};

verus! {

/// What the diagonal entry of column `j` turns `x` into: nothing changes for a
/// unit diagonal, and otherwise `x` is multiplied by the reciprocal.
pub open spec fn divided<T: Scalar>(unit: bool, conj: bool, d: T, x: T) -> T {
    if unit {
        x
    } else {
        x.times(conj_if(conj, d.reciprocal()))
    }
}

/// Column step `j` of the solve with the lower triangular `l`: `x[j]` is divided
/// by the diagonal, and its multiples are subtracted below.
pub open spec fn lower_step<T: Scalar>(
    l: CscModel<T>,
    unit: bool,
    conj: bool,
    x: Seq<T>,
    j: int,
) -> Seq<T> {
    let xj = divided(unit, conj, l.values[l.pattern.start(j)], x[j]);
    Seq::new(
        x.len(),
        |i: int|
            if i == j {
                xj
            } else if i > j && l.pattern.has(i, j) {
                x[i].minus(conj_if(conj, l.entry(i, j)).times(xj))
            } else {
                x[i]
            },
    )
}

/// The solve with `l` after its first `k` column steps, `j = 0, 1, ..`.
pub open spec fn lower_solve<T: Scalar>(
    l: CscModel<T>,
    unit: bool,
    conj: bool,
    x: Seq<T>,
    k: int,
) -> Seq<T>
    decreases k,
{
    if k <= 0 {
        x
    } else {
        lower_step(l, unit, conj, lower_solve(l, unit, conj, x, k - 1), k - 1)
    }
}

/// Column step `j` of the solve with the upper triangular `u`: `x[j]` is divided
/// by the diagonal, and its multiples are subtracted above.
pub open spec fn upper_step<T: Scalar>(
    u: CscModel<T>,
    conj: bool,
    x: Seq<T>,
    j: int,
) -> Seq<T> {
    let xj = divided(false, conj, u.values[u.pattern.end(j) - 1], x[j]);
    Seq::new(
        x.len(),
        |i: int|
            if i == j {
                xj
            } else if i < j && u.pattern.has(i, j) {
                x[i].minus(conj_if(conj, u.entry(i, j)).times(xj))
            } else {
                x[i]
            },
    )
}

/// The solve with `u` after the column steps `n - 1, n - 2, .., n - k`.
pub open spec fn upper_solve<T: Scalar>(u: CscModel<T>, conj: bool, x: Seq<T>, k: int) -> Seq<T>
    decreases k,
{
    if k <= 0 {
        x
    } else {
        upper_step(u, conj, upper_solve(u, conj, x, k - 1), x.len() - k)
    }
}

/// The product of the stored value at `p` with the entry of `x` in its row.
pub open spec fn dot_term<T: Scalar>(m: CscModel<T>, conj: bool, x: Seq<T>, p: int) -> T {
    conj_if(conj, m.values[p]).times(x[m.pattern.row_idx@[p] as int])
}

/// The products of the positions `lo .. hi`, summed from zero in stored order.
pub open spec fn dot<T: Scalar>(m: CscModel<T>, conj: bool, x: Seq<T>, lo: int, hi: int) -> T
    decreases hi - lo,
{
    if lo >= hi {
        T::null()
    } else {
        dot(m, conj, x, lo, hi - 1).plus(dot_term(m, conj, x, hi - 1))
    }
}

/// The products of the positions `lo .. hi`, summed from zero in reverse order.
pub open spec fn dot_rev<T: Scalar>(m: CscModel<T>, conj: bool, x: Seq<T>, lo: int, hi: int) -> T
    decreases hi - lo,
{
    if lo >= hi {
        T::null()
    } else {
        dot_rev(m, conj, x, lo + 1, hi).plus(dot_term(m, conj, x, lo))
    }
}

/// Step `j` of the solve with the transpose of the lower triangular `l`.
pub open spec fn lower_transpose_step<T: Scalar>(
    l: CscModel<T>,
    unit: bool,
    conj: bool,
    x: Seq<T>,
    j: int,
) -> Seq<T> {
    let s = l.pattern.start(j);
    let left = x[j].minus(dot_rev(l, conj, x, s + 1, l.pattern.end(j)));
    x.update(j, divided(unit, conj, l.values[s], left))
}

/// The solve with the transpose of `l` after the steps `n - 1, .., n - k`.
pub open spec fn lower_transpose_solve<T: Scalar>(
    l: CscModel<T>,
    unit: bool,
    conj: bool,
    x: Seq<T>,
    k: int,
) -> Seq<T>
    decreases k,
{
    if k <= 0 {
        x
    } else {
        lower_transpose_step(
            l,
            unit,
            conj,
            lower_transpose_solve(l, unit, conj, x, k - 1),
            x.len() - k,
        )
    }
}

/// Step `j` of the solve with the transpose of the upper triangular `u`.
pub open spec fn upper_transpose_step<T: Scalar>(
    u: CscModel<T>,
    conj: bool,
    x: Seq<T>,
    j: int,
) -> Seq<T> {
    let e = u.pattern.end(j);
    let left = x[j].minus(dot(u, conj, x, u.pattern.start(j), e - 1));
    x.update(j, divided(false, conj, u.values[e - 1], left))
}

/// The solve with the transpose of `u` after the steps `0, .., k - 1`.
pub open spec fn upper_transpose_solve<T: Scalar>(
    u: CscModel<T>,
    conj: bool,
    x: Seq<T>,
    k: int,
) -> Seq<T>
    decreases k,
{
    if k <= 0 {
        x
    } else {
        upper_transpose_step(u, conj, upper_transpose_solve(u, conj, x, k - 1), k - 1)
    }
}

/// Everything of `m` but column `c` is as in `m0`.
pub open spec fn same_but<T>(m: Mat<T>, m0: Mat<T>, c: int) -> bool {
    &&& m.wf()
    &&& m.nrows == m0.nrows
    &&& m.ncols == m0.ncols
    &&& forall|b: int| 0 <= b < m0.ncols && b != c ==> #[trigger] m.col(b) == m0.col(b)
}

/// Solves `L x = b` for column `c` of `m`, in place.
fn solve_lower_column<T: Scalar>(
    l: CscRef<'_, T>,
    unit: bool,
    conj: bool,
    m: &mut Mat<T>,
    c: usize,
)
    requires
        l.wf(),
        lower_ok(*l.pattern, old(m).nrows as int),
        old(m).wf(),
        c < old(m).ncols,
    ensures
        same_but(*final(m), *old(m), c as int),
        final(m).col(c as int) == lower_solve(
            l@,
            unit,
            conj,
            old(m).col(c as int),
            old(m).nrows as int,
        ),
{
    let n: usize = m.nrows;
    let ghost cc = c as int;
    let ghost m0 = *m;
    let ghost x0 = m.col(cc);
    let mut j: usize = 0;
    while j < n
        invariant
            n == m0.nrows,
            cc == c,
            c < m0.ncols,
            l.wf(),
            lower_ok(*l.pattern, n as int),
            same_but(*m, m0, cc),
            x0 == m0.col(cc),
            j <= n,
            m.col(cc) == lower_solve(l@, unit, conj, x0, j as int),
        decreases n - j,
    {
        let ghost jj = j as int;
        let ghost x = m.col(cc);
        let s: usize = l.pattern.col_ptr[j];
        let e: usize = l.pattern.col_ptr[j + 1];
        proof {
            l.pattern.lemma_col_bounds(jj);
            assert(l.pattern.start(jj) < l.pattern.end(jj));
        }
        let xj: T = if unit {
            m.get(j, c).copy()
        } else {
            let d: T = apply_conj(conj, &l.values[s].recip());
            let y: T = m.get(j, c).mul(&d);
            m.set(j, c, y.copy());
            y
        };
        assert(xj == divided(unit, conj, l.values@[s as int], x[jj]));
        assert(m.col(cc) =~= x.update(jj, xj));
        let mut p: usize = s + 1;
        while p < e
            invariant
                n == m0.nrows,
                cc == c,
                c < m0.ncols,
                jj == j,
                j < n,
                l.wf(),
                lower_ok(*l.pattern, n as int),
                same_but(*m, m0, cc),
                s == l.pattern.start(jj),
                e == l.pattern.end(jj),
                s + 1 <= p <= e <= l.pattern.row_idx@.len(),
                x.len() == n,
                m.col(cc).len() == n,
                m.col(cc)[jj] == xj,
                forall|i: int|
                    0 <= i < n && i != jj ==> #[trigger] m.col(cc)[i] == if exists|q: int|
                        s < q < p && #[trigger] l.pattern.row_idx@[q] == i {
                        x[i].minus(conj_if(conj, l.entry(i, jj)).times(xj))
                    } else {
                        x[i]
                    },
            decreases e - p,
        {
            let i: usize = l.pattern.row_idx[p];
            let ghost ii = i as int;
            let ghost y = m.col(cc);
            proof {
                assert(l.pattern.in_col(p as int, jj));
                lemma_lower_col(*l.pattern, n as int, p as int, jj);
                assert(l.pattern.sorted_col(jj));
                l.pattern.lemma_find_at(p as int, jj);
                assert(!(exists|q: int| s < q < p && #[trigger] l.pattern.row_idx@[q] == ii));
                assert(y[ii] == x[ii]);
            }
            let lij: T = apply_conj(conj, &l.values[p]);
            let v: T = m.get(i, c).sub(&lij.mul(&xj));
            m.set(i, c, v);
            proof {
                assert forall|b: int| 0 <= b < n && b != jj implies #[trigger] m.col(cc)[b]
                    == if exists|q: int| s < q < p + 1 && #[trigger] l.pattern.row_idx@[q] == b {
                    x[b].minus(conj_if(conj, l.entry(b, jj)).times(xj))
                } else {
                    x[b]
                } by {
                    if b == ii {
                        assert(l.pattern.row_idx@[p as int] == b);
                    } else {
                        assert(m.col(cc)[b] == y[b]);
                        if exists|q: int| s < q < p && #[trigger] l.pattern.row_idx@[q] == b {
                            let q = choose|q: int|
                                s < q < p && #[trigger] l.pattern.row_idx@[q] == b;
                            assert(s < q < p + 1 && l.pattern.row_idx@[q] == b);
                        } else {
                            assert(!(exists|q: int|
                                s < q < p + 1 && #[trigger] l.pattern.row_idx@[q] == b));
                        }
                    }
                }
            }
            p += 1;
        }
        proof {
            let y = lower_step(l@, unit, conj, x, jj);
            assert forall|i: int| 0 <= i < n implies m.col(cc)[i] == y[i] by {
                if i != jj {
                    if exists|q: int| s < q < p && #[trigger] l.pattern.row_idx@[q] == i {
                        let q = choose|q: int| s < q < p && #[trigger] l.pattern.row_idx@[q] == i;
                        assert(l.pattern.in_col(q, jj));
                        lemma_lower_col(*l.pattern, n as int, q, jj);
                        assert(l.pattern.has(i, jj));
                    } else if i > jj && l.pattern.has(i, jj) {
                        l.pattern.lemma_find(i, jj);
                        let q = l.pattern.find(i, jj);
                        lemma_lower_col(*l.pattern, n as int, q, jj);
                        assert(s < q < p && l.pattern.row_idx@[q] == i);
                    }
                }
            }
            assert(m.col(cc) =~= y);
        }
        j += 1;
    }
}

/// Solves `U x = b` for column `c` of `m`, in place.
fn solve_upper_column<T: Scalar>(u: CscRef<'_, T>, conj: bool, m: &mut Mat<T>, c: usize)
    requires
        u.wf(),
        upper_ok(*u.pattern, old(m).nrows as int),
        old(m).wf(),
        c < old(m).ncols,
    ensures
        same_but(*final(m), *old(m), c as int),
        final(m).col(c as int) == upper_solve(
            u@,
            conj,
            old(m).col(c as int),
            old(m).nrows as int,
        ),
{
    let n: usize = m.nrows;
    let ghost cc = c as int;
    let ghost m0 = *m;
    let ghost x0 = m.col(cc);
    let mut k: usize = n;
    while k > 0
        invariant
            n == m0.nrows,
            cc == c,
            c < m0.ncols,
            u.wf(),
            upper_ok(*u.pattern, n as int),
            same_but(*m, m0, cc),
            x0 == m0.col(cc),
            k <= n,
            m.col(cc) == upper_solve(u@, conj, x0, n - k),
        decreases k,
    {
        let j: usize = k - 1;
        let ghost jj = j as int;
        let ghost x = m.col(cc);
        let s: usize = u.pattern.col_ptr[j];
        let e: usize = u.pattern.col_ptr[j + 1];
        proof {
            u.pattern.lemma_col_bounds(jj);
            assert(u.pattern.start(jj) < u.pattern.end(jj));
        }
        let d: T = apply_conj(conj, &u.values[e - 1].recip());
        let xj: T = m.get(j, c).mul(&d);
        m.set(j, c, xj.copy());
        assert(m.col(cc) =~= x.update(jj, xj));
        let mut p: usize = e - 1;
        while p > s
            invariant
                n == m0.nrows,
                cc == c,
                c < m0.ncols,
                jj == j,
                j < n,
                u.wf(),
                upper_ok(*u.pattern, n as int),
                same_but(*m, m0, cc),
                s == u.pattern.start(jj),
                e == u.pattern.end(jj),
                s <= p <= e - 1,
                e <= u.pattern.row_idx@.len(),
                x.len() == n,
                m.col(cc).len() == n,
                m.col(cc)[jj] == xj,
                forall|i: int|
                    0 <= i < n && i != jj ==> #[trigger] m.col(cc)[i] == if exists|q: int|
                        p <= q < e - 1 && #[trigger] u.pattern.row_idx@[q] == i {
                        x[i].minus(conj_if(conj, u.entry(i, jj)).times(xj))
                    } else {
                        x[i]
                    },
            decreases p,
        {
            let r: usize = p - 1;
            let i: usize = u.pattern.row_idx[r];
            let ghost ii = i as int;
            let ghost y = m.col(cc);
            proof {
                assert(u.pattern.in_col(r as int, jj));
                lemma_upper_col(*u.pattern, n as int, r as int, jj);
                assert(u.pattern.sorted_col(jj));
                u.pattern.lemma_find_at(r as int, jj);
                assert(!(exists|q: int| p <= q < e - 1 && #[trigger] u.pattern.row_idx@[q] == ii));
                assert(y[ii] == x[ii]);
            }
            let uij: T = apply_conj(conj, &u.values[r]);
            let v: T = m.get(i, c).sub(&uij.mul(&xj));
            m.set(i, c, v);
            proof {
                assert forall|b: int| 0 <= b < n && b != jj implies #[trigger] m.col(cc)[b]
                    == if exists|q: int| r <= q < e - 1 && #[trigger] u.pattern.row_idx@[q] == b {
                    x[b].minus(conj_if(conj, u.entry(b, jj)).times(xj))
                } else {
                    x[b]
                } by {
                    if b == ii {
                        assert(u.pattern.row_idx@[r as int] == b);
                    } else {
                        assert(m.col(cc)[b] == y[b]);
                        if exists|q: int| p <= q < e - 1 && #[trigger] u.pattern.row_idx@[q] == b {
                            let q = choose|q: int|
                                p <= q < e - 1 && #[trigger] u.pattern.row_idx@[q] == b;
                            assert(r <= q < e - 1 && u.pattern.row_idx@[q] == b);
                        } else {
                            assert(!(exists|q: int|
                                r <= q < e - 1 && #[trigger] u.pattern.row_idx@[q] == b));
                        }
                    }
                }
            }
            p -= 1;
        }
        proof {
            let y = upper_step(u@, conj, x, jj);
            assert forall|i: int| 0 <= i < n implies m.col(cc)[i] == y[i] by {
                if i != jj {
                    if exists|q: int| p <= q < e - 1 && #[trigger] u.pattern.row_idx@[q] == i {
                        let q = choose|q: int|
                            p <= q < e - 1 && #[trigger] u.pattern.row_idx@[q] == i;
                        assert(u.pattern.in_col(q, jj));
                        lemma_upper_col(*u.pattern, n as int, q, jj);
                        assert(u.pattern.has(i, jj));
                    } else if i < jj && u.pattern.has(i, jj) {
                        u.pattern.lemma_find(i, jj);
                        let q = u.pattern.find(i, jj);
                        lemma_upper_col(*u.pattern, n as int, q, jj);
                        assert(p <= q < e - 1 && u.pattern.row_idx@[q] == i);
                    }
                }
            }
            assert(m.col(cc) =~= y);
        }
        k -= 1;
    }
}

/// Solves `L^T x = b` for column `c` of `m`, in place.
fn solve_lower_transpose_column<T: Scalar>(
    l: CscRef<'_, T>,
    unit: bool,
    conj: bool,
    m: &mut Mat<T>,
    c: usize,
)
    requires
        l.wf(),
        lower_ok(*l.pattern, old(m).nrows as int),
        old(m).wf(),
        c < old(m).ncols,
    ensures
        same_but(*final(m), *old(m), c as int),
        final(m).col(c as int) == lower_transpose_solve(
            l@,
            unit,
            conj,
            old(m).col(c as int),
            old(m).nrows as int,
        ),
{
    let n: usize = m.nrows;
    let ghost cc = c as int;
    let ghost m0 = *m;
    let ghost x0 = m.col(cc);
    let mut k: usize = n;
    while k > 0
        invariant
            n == m0.nrows,
            cc == c,
            c < m0.ncols,
            l.wf(),
            lower_ok(*l.pattern, n as int),
            same_but(*m, m0, cc),
            x0 == m0.col(cc),
            k <= n,
            m.col(cc) == lower_transpose_solve(l@, unit, conj, x0, n - k),
        decreases k,
    {
        let j: usize = k - 1;
        let ghost jj = j as int;
        let ghost x = m.col(cc);
        let s: usize = l.pattern.col_ptr[j];
        let e: usize = l.pattern.col_ptr[j + 1];
        proof {
            l.pattern.lemma_col_bounds(jj);
            assert(l.pattern.start(jj) < l.pattern.end(jj));
        }
        let mut acc: T = T::zero();
        let mut p: usize = e;
        while p > s + 1
            invariant
                n == m.nrows,
                m.wf(),
                c < m.ncols,
                cc == c,
                l.wf(),
                lower_ok(*l.pattern, n as int),
                x == m.col(cc),
                s + 1 <= p <= e <= l.pattern.row_idx@.len(),
                acc == dot_rev(l@, conj, x, p as int, e as int),
            decreases p,
        {
            let r: usize = p - 1;
            let i: usize = l.pattern.row_idx[r];
            let lij: T = apply_conj(conj, &l.values[r]);
            acc = acc.add(&lij.mul(m.get(i, c)));
            p -= 1;
        }
        let left: T = m.get(j, c).sub(&acc);
        let v: T = if unit {
            left
        } else {
            left.mul(&apply_conj(conj, &l.values[s].recip()))
        };
        m.set(j, c, v);
        assert(m.col(cc) =~= lower_transpose_step(l@, unit, conj, x, jj));
        k -= 1;
    }
}

/// Solves `U^T x = b` for column `c` of `m`, in place.
fn solve_upper_transpose_column<T: Scalar>(
    u: CscRef<'_, T>,
    conj: bool,
    m: &mut Mat<T>,
    c: usize,
)
    requires
        u.wf(),
        upper_ok(*u.pattern, old(m).nrows as int),
        old(m).wf(),
        c < old(m).ncols,
    ensures
        same_but(*final(m), *old(m), c as int),
        final(m).col(c as int) == upper_transpose_solve(
            u@,
            conj,
            old(m).col(c as int),
            old(m).nrows as int,
        ),
{
    let n: usize = m.nrows;
    let ghost cc = c as int;
    let ghost m0 = *m;
    let ghost x0 = m.col(cc);
    let mut j: usize = 0;
    while j < n
        invariant
            n == m0.nrows,
            cc == c,
            c < m0.ncols,
            u.wf(),
            upper_ok(*u.pattern, n as int),
            same_but(*m, m0, cc),
            x0 == m0.col(cc),
            j <= n,
            m.col(cc) == upper_transpose_solve(u@, conj, x0, j as int),
        decreases n - j,
    {
        let ghost jj = j as int;
        let ghost x = m.col(cc);
        let s: usize = u.pattern.col_ptr[j];
        let e: usize = u.pattern.col_ptr[j + 1];
        proof {
            u.pattern.lemma_col_bounds(jj);
            assert(u.pattern.start(jj) < u.pattern.end(jj));
        }
        let mut acc: T = T::zero();
        let mut p: usize = s;
        while p < e - 1
            invariant
                n == m.nrows,
                m.wf(),
                c < m.ncols,
                cc == c,
                u.wf(),
                upper_ok(*u.pattern, n as int),
                x == m.col(cc),
                s <= p <= e - 1,
                e <= u.pattern.row_idx@.len(),
                acc == dot(u@, conj, x, s as int, p as int),
            decreases e - p,
        {
            let i: usize = u.pattern.row_idx[p];
            let uij: T = apply_conj(conj, &u.values[p]);
            acc = acc.add(&uij.mul(m.get(i, c)));
            p += 1;
        }
        let left: T = m.get(j, c).sub(&acc);
        let v: T = left.mul(&apply_conj(conj, &u.values[e - 1].recip()));
        m.set(j, c, v);
        assert(m.col(cc) =~= upper_transpose_step(u@, conj, x, jj));
        j += 1;
    }
}

/// Solves `L x = b` for every column of `m`, in place; with `unit` set the
/// diagonal is taken to be one, and with `conj` set `L` is conjugated.
pub fn solve_lower_triangular_in_place<T: Scalar>(
    l: CscRef<'_, T>,
    unit: bool,
    conj: bool,
    m: &mut Mat<T>,
)
    requires
        l.wf(),
        lower_ok(*l.pattern, old(m).nrows as int),
        old(m).wf(),
    ensures
        final(m).wf(),
        final(m).nrows == old(m).nrows,
        final(m).ncols == old(m).ncols,
        forall|c: int|
            0 <= c < old(m).ncols ==> #[trigger] final(m).col(c) == lower_solve(
                l@,
                unit, conj,
                old(m).col(c),
                old(m).nrows as int,
            ),
{
    let ghost m0 = *m;
    let ncols: usize = m.ncols;
    let mut c: usize = 0;
    while c < ncols
        invariant
            l.wf(),
            lower_ok(*l.pattern, m0.nrows as int),
            ncols == m0.ncols,
            m.wf(),
            m.nrows == m0.nrows,
            m.ncols == m0.ncols,
            c <= ncols,
            forall|b: int|
                0 <= b < c ==> #[trigger] m.col(b) == lower_solve(
                    l@,
                    unit, conj,
                    m0.col(b),
                    m0.nrows as int,
                ),
            forall|b: int| c <= b < ncols ==> #[trigger] m.col(b) == m0.col(b),
        decreases ncols - c,
    {
        solve_lower_column(l, unit, conj, m, c);
        c += 1;
    }
}

/// Solves `U x = b` for every column of `m`, in place; with `conj` set `U` is
/// conjugated.
pub fn solve_upper_triangular_in_place<T: Scalar>(
    u: CscRef<'_, T>,
    conj: bool,
    m: &mut Mat<T>,
)
    requires
        u.wf(),
        upper_ok(*u.pattern, old(m).nrows as int),
        old(m).wf(),
    ensures
        final(m).wf(),
        final(m).nrows == old(m).nrows,
        final(m).ncols == old(m).ncols,
        forall|c: int|
            0 <= c < old(m).ncols ==> #[trigger] final(m).col(c) == upper_solve(
                u@,
                conj,
                old(m).col(c),
                old(m).nrows as int,
            ),
{
    let ghost m0 = *m;
    let ncols: usize = m.ncols;
    let mut c: usize = 0;
    while c < ncols
        invariant
            u.wf(),
            upper_ok(*u.pattern, m0.nrows as int),
            ncols == m0.ncols,
            m.wf(),
            m.nrows == m0.nrows,
            m.ncols == m0.ncols,
            c <= ncols,
            forall|b: int|
                0 <= b < c ==> #[trigger] m.col(b) == upper_solve(
                    u@,
                    conj,
                    m0.col(b),
                    m0.nrows as int,
                ),
            forall|b: int| c <= b < ncols ==> #[trigger] m.col(b) == m0.col(b),
        decreases ncols - c,
    {
        solve_upper_column(u, conj, m, c);
        c += 1;
    }
}

/// Solves `L^T x = b` for every column of `m`, in place; with `unit` set the
/// diagonal is taken to be one, and with `conj` set `L` is conjugated.
pub fn solve_lower_triangular_transpose_in_place<T: Scalar>(
    l: CscRef<'_, T>,
    unit: bool,
    conj: bool,
    m: &mut Mat<T>,
)
    requires
        l.wf(),
        lower_ok(*l.pattern, old(m).nrows as int),
        old(m).wf(),
    ensures
        final(m).wf(),
        final(m).nrows == old(m).nrows,
        final(m).ncols == old(m).ncols,
        forall|c: int|
            0 <= c < old(m).ncols ==> #[trigger] final(m).col(c) == lower_transpose_solve(
                l@,
                unit, conj,
                old(m).col(c),
                old(m).nrows as int,
            ),
{
    let ghost m0 = *m;
    let ncols: usize = m.ncols;
    let mut c: usize = 0;
    while c < ncols
        invariant
            l.wf(),
            lower_ok(*l.pattern, m0.nrows as int),
            ncols == m0.ncols,
            m.wf(),
            m.nrows == m0.nrows,
            m.ncols == m0.ncols,
            c <= ncols,
            forall|b: int|
                0 <= b < c ==> #[trigger] m.col(b) == lower_transpose_solve(
                    l@,
                    unit, conj,
                    m0.col(b),
                    m0.nrows as int,
                ),
            forall|b: int| c <= b < ncols ==> #[trigger] m.col(b) == m0.col(b),
        decreases ncols - c,
    {
        solve_lower_transpose_column(l, unit, conj, m, c);
        c += 1;
    }
}

/// Solves `U^T x = b` for every column of `m`, in place; with `conj` set `U` is
/// conjugated.
pub fn solve_upper_triangular_transpose_in_place<T: Scalar>(
    u: CscRef<'_, T>,
    conj: bool,
    m: &mut Mat<T>,
)
    requires
        u.wf(),
        upper_ok(*u.pattern, old(m).nrows as int),
        old(m).wf(),
    ensures
        final(m).wf(),
        final(m).nrows == old(m).nrows,
        final(m).ncols == old(m).ncols,
        forall|c: int|
            0 <= c < old(m).ncols ==> #[trigger] final(m).col(c) == upper_transpose_solve(
                u@,
                conj,
                old(m).col(c),
                old(m).nrows as int,
            ),
{
    let ghost m0 = *m;
    let ncols: usize = m.ncols;
    let mut c: usize = 0;
    while c < ncols
        invariant
            u.wf(),
            upper_ok(*u.pattern, m0.nrows as int),
            ncols == m0.ncols,
            m.wf(),
            m.nrows == m0.nrows,
            m.ncols == m0.ncols,
            c <= ncols,
            forall|b: int|
                0 <= b < c ==> #[trigger] m.col(b) == upper_transpose_solve(
                    u@,
                    conj,
                    m0.col(b),
                    m0.nrows as int,
                ),
            forall|b: int| c <= b < ncols ==> #[trigger] m.col(b) == m0.col(b),
        decreases ncols - c,
    {
        solve_upper_transpose_column(u, conj, m, c);
        c += 1;
    }
}

/// Adds `xk` times the stored values at the positions `lo .. hi` to the rows
/// they stand in, in stored order.
pub open spec fn scatter_add<T: Scalar>(
    m: CscModel<T>,
    conj: bool,
    xk: T,
    y: Seq<T>,
    lo: int,
    hi: int,
) -> Seq<T>
    decreases hi - lo,
{
    if lo >= hi {
        y
    } else {
        let z = scatter_add(m, conj, xk, y, lo, hi - 1);
        let i = m.pattern.row_idx@[hi - 1] as int;
        z.update(i, z[i].plus(conj_if(conj, m.values[hi - 1]).times(xk)))
    }
}

/// The product `m * x` after its first `k` columns.
pub open spec fn spmv<T: Scalar>(m: CscModel<T>, conj: bool, x: Seq<T>, k: int) -> Seq<T>
    decreases k,
{
    if k <= 0 {
        Seq::new(m.pattern.nrows as nat, |i: int| T::null())
    } else {
        scatter_add(
            m,
            conj,
            x[k - 1],
            spmv(m, conj, x, k - 1),
            m.pattern.start(k - 1),
            m.pattern.end(k - 1),
        )
    }
}

/// The product `m^T * x`.
pub open spec fn spmv_transpose<T: Scalar>(m: CscModel<T>, conj: bool, x: Seq<T>) -> Seq<T> {
    Seq::new(
        m.pattern.ncols as nat,
        |j: int| dot(m, conj, x, m.pattern.start(j), m.pattern.end(j)),
    )
}

/// `op(m) * x`, where `op` transposes and conjugates as asked.
pub open spec fn product<T: Scalar>(
    m: CscModel<T>,
    transpose: bool,
    conj: bool,
    x: Seq<T>,
) -> Seq<T> {
    if transpose {
        spmv_transpose(m, conj, x)
    } else {
        spmv(m, conj, x, m.pattern.ncols as int)
    }
}

/// Writes `m * x` for column `c`.
fn spmv_column<T: Scalar>(
    m: CscRef<'_, T>,
    conj: bool,
    x: &Mat<T>,
    out: &mut Mat<T>,
    c: usize,
)
    requires
        m.wf(),
        x.wf(),
        x.nrows == m.pattern.ncols,
        old(out).wf(),
        old(out).nrows == m.pattern.nrows,
        c < x.ncols,
        c < old(out).ncols,
    ensures
        same_but(*final(out), *old(out), c as int),
        final(out).col(c as int) == spmv(m@, conj, x.col(c as int), m.pattern.ncols as int),
{
    let nrows: usize = out.nrows;
    let ghost cc = c as int;
    let ghost out0 = *out;
    let mut i: usize = 0;
    while i < nrows
        invariant
            nrows == out0.nrows,
            cc == c,
            c < out0.ncols,
            same_but(*out, out0, cc),
            i <= nrows,
            forall|b: int| 0 <= b < i ==> #[trigger] out.col(cc)[b] == T::null(),
        decreases nrows - i,
    {
        let ghost y = out.col(cc);
        out.set(i, c, T::zero());
        proof {
            assert forall|b: int| 0 <= b < i + 1 implies #[trigger] out.col(cc)[b] == T::null() by {
                if b < i {
                    assert(out.col(cc)[b] == y[b]);
                }
            }
        }
        i += 1;
    }
    assert(out.col(cc) =~= spmv(m@, conj, x.col(cc), 0));
    let ncols: usize = m.pattern.ncols;
    let mut k: usize = 0;
    while k < ncols
        invariant
            nrows == out0.nrows,
            cc == c,
            c < out0.ncols,
            c < x.ncols,
            m.wf(),
            x.wf(),
            x.nrows == m.pattern.ncols,
            nrows == m.pattern.nrows,
            ncols == m.pattern.ncols,
            same_but(*out, out0, cc),
            k <= ncols,
            out.col(cc) == spmv(m@, conj, x.col(cc), k as int),
        decreases ncols - k,
    {
        let s: usize = m.pattern.col_ptr[k];
        let e: usize = m.pattern.col_ptr[k + 1];
        proof {
            m.pattern.lemma_col_bounds(k as int);
        }
        let xk: T = x.get(k, c).copy();
        let ghost y = out.col(cc);
        let mut p: usize = s;
        while p < e
            invariant
                nrows == out0.nrows,
                cc == c,
                c < out0.ncols,
                m.wf(),
                nrows == m.pattern.nrows,
                same_but(*out, out0, cc),
                s <= p <= e <= m.pattern.row_idx@.len(),
                out.col(cc) == scatter_add(m@, conj, xk, y, s as int, p as int),
            decreases e - p,
        {
            let i: usize = m.pattern.row_idx[p];
            let v: T = apply_conj(conj, &m.values[p]);
            let z: T = out.get(i, c).add(&v.mul(&xk));
            out.set(i, c, z);
            p += 1;
        }
        k += 1;
    }
}

/// Writes `m^T * x` for column `c`.
fn spmv_transpose_column<T: Scalar>(
    m: CscRef<'_, T>,
    conj: bool,
    x: &Mat<T>,
    out: &mut Mat<T>,
    c: usize,
)
    requires
        m.wf(),
        x.wf(),
        x.nrows == m.pattern.nrows,
        old(out).wf(),
        old(out).nrows == m.pattern.ncols,
        c < x.ncols,
        c < old(out).ncols,
    ensures
        same_but(*final(out), *old(out), c as int),
        final(out).col(c as int) == spmv_transpose(m@, conj, x.col(c as int)),
{
    let n: usize = out.nrows;
    let ghost cc = c as int;
    let ghost out0 = *out;
    let ghost xs = x.col(cc);
    let mut j: usize = 0;
    while j < n
        invariant
            n == out0.nrows,
            n == m.pattern.ncols,
            cc == c,
            c < out0.ncols,
            c < x.ncols,
            m.wf(),
            x.wf(),
            x.nrows == m.pattern.nrows,
            xs == x.col(cc),
            same_but(*out, out0, cc),
            j <= n,
            forall|b: int|
                0 <= b < j ==> #[trigger] out.col(cc)[b] == dot(
                    m@,
                    conj,
                    xs,
                    m.pattern.start(b),
                    m.pattern.end(b),
                ),
        decreases n - j,
    {
        let s: usize = m.pattern.col_ptr[j];
        let e: usize = m.pattern.col_ptr[j + 1];
        proof {
            m.pattern.lemma_col_bounds(j as int);
        }
        let mut acc: T = T::zero();
        let mut p: usize = s;
        while p < e
            invariant
                cc == c,
                c < x.ncols,
                m.wf(),
                x.wf(),
                x.nrows == m.pattern.nrows,
                xs == x.col(cc),
                s <= p <= e <= m.pattern.row_idx@.len(),
                acc == dot(m@, conj, xs, s as int, p as int),
            decreases e - p,
        {
            let i: usize = m.pattern.row_idx[p];
            let v: T = apply_conj(conj, &m.values[p]);
            acc = acc.add(&v.mul(x.get(i, c)));
            p += 1;
        }
        let ghost y = out.col(cc);
        out.set(j, c, acc);
        proof {
            assert forall|b: int| 0 <= b < j + 1 implies #[trigger] out.col(cc)[b] == dot(
                m@,
                conj,
                xs,
                m.pattern.start(b),
                m.pattern.end(b),
            ) by {
                if b < j {
                    assert(out.col(cc)[b] == y[b]);
                }
            }
        }
        j += 1;
    }
    assert(out.col(cc) =~= spmv_transpose(m@, conj, xs));
}

/// Writes `op(m) * x` into `out`, column by column.
pub fn sparse_dense_matmul<T: Scalar>(
    m: CscRef<'_, T>,
    transpose: bool,
    conj: bool,
    x: &Mat<T>,
    out: &mut Mat<T>,
)
    requires
        m.wf(),
        x.wf(),
        old(out).wf(),
        x.ncols == old(out).ncols,
        !transpose ==> x.nrows == m.pattern.ncols && old(out).nrows == m.pattern.nrows,
        transpose ==> x.nrows == m.pattern.nrows && old(out).nrows == m.pattern.ncols,
    ensures
        final(out).wf(),
        final(out).nrows == old(out).nrows,
        final(out).ncols == old(out).ncols,
        forall|c: int|
            0 <= c < x.ncols ==> #[trigger] final(out).col(c) == product(
                m@,
                transpose,
                conj,
                x.col(c),
            ),
{
    let ghost out0 = *out;
    let ncols: usize = x.ncols;
    let mut c: usize = 0;
    while c < ncols
        invariant
            m.wf(),
            x.wf(),
            ncols == x.ncols,
            ncols == out0.ncols,
            !transpose ==> x.nrows == m.pattern.ncols && out0.nrows == m.pattern.nrows,
            transpose ==> x.nrows == m.pattern.nrows && out0.nrows == m.pattern.ncols,
            out.wf(),
            out.nrows == out0.nrows,
            out.ncols == out0.ncols,
            c <= ncols,
            forall|b: int|
                0 <= b < c ==> #[trigger] out.col(b) == product(m@, transpose, conj, x.col(b)),
        decreases ncols - c,
    {
        if transpose {
            spmv_transpose_column(m, conj, x, out, c);
        } else {
            spmv_column(m, conj, x, out, c);
        }
        c += 1;
    }
}

/// Adding a column to the rows it stores, entry by entry.
proof fn lemma_scatter_entry<T: Scalar>(
    m: CscModel<T>,
    xk: T,
    y: Seq<T>,
    k: int,
    hi: int,
    i: int,
)
    requires
        m.wf(),
        0 <= k < m.pattern.ncols,
        m.pattern.sorted_col(k),
        m.pattern.start(k) <= hi <= m.pattern.end(k),
        y.len() == m.pattern.nrows,
        0 <= i < y.len(),
    ensures
        scatter_add(m, false, xk, y, m.pattern.start(k), hi).len() == y.len(),
        scatter_add(m, false, xk, y, m.pattern.start(k), hi)[i] == if m.pattern.has(i, k)
            && m.pattern.find(i, k) < hi {
            y[i].plus(m.entry(i, k).times(xk))
        } else {
            y[i]
        },
    decreases hi,
{
    let lo = m.pattern.start(k);
    m.pattern.lemma_col_bounds(k);
    if lo < hi {
        let q = m.pattern.row_idx@[hi - 1] as int;
        lemma_scatter_entry(m, xk, y, k, hi - 1, i);
        lemma_scatter_entry(m, xk, y, k, hi - 1, q);
        assert(m.pattern.in_col(hi - 1, k));
        m.pattern.lemma_find_at(hi - 1, k);
        if m.pattern.has(i, k) {
            m.pattern.lemma_find(i, k);
        }
    } else if m.pattern.has(i, k) {
        m.pattern.lemma_find(i, k);
    }
}

/// In exact arithmetic the sparse product of a sorted matrix is its dense one.
pub proof fn law_spmv<T: Scalar>(m: CscModel<T>, x: Seq<T>, k: int, i: int)
    requires
        exact_field::<T>(),
        m.wf(),
        m.pattern.sorted(),
        0 <= k <= m.pattern.ncols,
        0 <= i < m.pattern.nrows,
    ensures
        spmv(m, false, x, k).len() == m.pattern.nrows,
        spmv(m, false, x, k)[i] == matvec(m, x, i, k),
    decreases k,
{
    if k > 0 {
        law_spmv(m, x, k - 1, i);
        assert(m.pattern.sorted_col(k - 1));
        m.pattern.lemma_col_bounds(k - 1);
        let y = spmv(m, false, x, k - 1);
        lemma_scatter_entry(m, x[k - 1], y, k - 1, m.pattern.end(k - 1), i);
        if m.pattern.has(i, k - 1) {
            m.pattern.lemma_find(i, k - 1);
        } else {
            lemma_times_commutes(T::null(), x[k - 1]);
            lemma_null_absorbs(x[k - 1]);
            lemma_null_is_neutral(y[i]);
        }
    }
}

/// The entry `i` of the product `m * x`, summed over the first `k` columns.
pub open spec fn matvec<T: Scalar>(m: CscModel<T>, x: Seq<T>, i: int, k: int) -> T
    decreases k,
{
    if k <= 0 {
        T::null()
    } else {
        matvec(m, x, i, k - 1).plus(dense_entry(m, i, k - 1).times(x[k - 1]))
    }
}

/// The diagonal of a lower triangular factor: its entries do not vanish, and
/// with `unit` set they are one.
pub open spec fn lower_diag_ok<T: Scalar>(l: CscModel<T>, unit: bool, n: int) -> bool {
    forall|j: int|
        0 <= j < n ==> {
            let d = l.values[#[trigger] l.pattern.start(j)];
            if unit {
                d == T::unit()
            } else {
                !vanishes(d)
            }
        }
}

/// The diagonal entries of an upper triangular factor do not vanish.
pub open spec fn upper_diag_ok<T: Scalar>(u: CscModel<T>, n: int) -> bool {
    forall|j: int| 0 <= j < n ==> !vanishes(u.values[#[trigger] u.pattern.end(j) - 1])
}

/// Later steps leave an entry alone.
proof fn lemma_lower_settled<T: Scalar>(
    l: CscModel<T>,
    unit: bool,
    b: Seq<T>,
    j: int,
    k1: int,
    k2: int,
)
    requires
        0 <= j < k1 <= k2,
        j < b.len(),
    ensures
        lower_solve(l, unit, false, b, k2)[j] == lower_solve(l, unit, false, b, k1)[j],
        lower_solve(l, unit, false, b, k2).len() == b.len(),
    decreases k2,
{
    lemma_lower_len(l, unit, b, k2);
    if k1 < k2 {
        lemma_lower_settled(l, unit, b, j, k1, k2 - 1);
    }
}

proof fn lemma_lower_len<T: Scalar>(l: CscModel<T>, unit: bool, b: Seq<T>, k: int)
    ensures
        lower_solve(l, unit, false, b, k).len() == b.len(),
    decreases k,
{
    if k > 0 {
        lemma_lower_len(l, unit, b, k - 1);
    }
}

proof fn lemma_lower_partial<T: Scalar>(
    l: CscModel<T>,
    unit: bool,
    b: Seq<T>,
    i: int,
    k: int,
)
    requires
        exact_field::<T>(),
        l.wf(),
        lower_ok(l.pattern, b.len() as int),
        0 <= k <= i < b.len(),
    ensures
        lower_solve(l, unit, false, b, k)[i].plus(
            matvec(l, lower_solve(l, unit, false, b, b.len() as int), i, k),
        ) == b[i],
    decreases k,
{
    let n = b.len() as int;
    let x = lower_solve(l, unit, false, b, n);
    if k <= 0 {
        lemma_null_is_neutral(b[i]);
    } else {
        let j = k - 1;
        lemma_lower_partial(l, unit, b, i, j);
        lemma_lower_settled(l, unit, b, j, k, n);
        lemma_lower_len(l, unit, b, j);
        let y = lower_solve(l, unit, false, b, j);
        let y2 = lower_solve(l, unit, false, b, k);
        let part = matvec(l, x, i, j);
        let term = dense_entry(l, i, j).times(x[j]);
        assert(y2[j] == x[j]);
        if l.pattern.has(i, j) {
            assert(y2[i] == y[i].minus(term));
            lemma_minus_undoes_plus(y[i], term);
            lemma_plus_commutes(part, term);
            lemma_plus_associates(y2[i], term, part);
        } else {
            lemma_times_commutes(dense_entry(l, i, j), x[j]);
            lemma_null_absorbs(x[j]);
            lemma_null_is_neutral(part);
        }
    }
}

/// Columns beyond the diagonal add nothing to a row of a lower triangular
/// product.
proof fn lemma_lower_tail<T: Scalar>(l: CscModel<T>, x: Seq<T>, n: int, i: int, k: int, e: int)
    requires
        exact_field::<T>(),
        lower_ok(l.pattern, n),
        0 <= i < k <= e <= n,
    ensures
        matvec(l, x, i, e) == matvec(l, x, i, k),
    decreases e,
{
    if k < e {
        lemma_lower_tail(l, x, n, i, k, e - 1);
        let j = e - 1;
        if l.pattern.has(i, j) {
            l.pattern.lemma_find(i, j);
            lemma_lower_col(l.pattern, n, l.pattern.find(i, j), j);
        }
        lemma_times_commutes(dense_entry(l, i, j), x[j]);
        lemma_null_absorbs(x[j]);
        lemma_null_is_neutral(matvec(l, x, i, j));
    }
}

/// In exact arithmetic the lower triangular solve solves: `L x = b`.
pub proof fn law_lower_solve<T: Scalar>(l: CscModel<T>, unit: bool, b: Seq<T>, i: int)
    requires
        exact_field::<T>(),
        l.wf(),
        lower_ok(l.pattern, b.len() as int),
        lower_diag_ok(l, unit, b.len() as int),
        0 <= i < b.len(),
    ensures
        matvec(l, lower_solve(l, unit, false, b, b.len() as int), i, b.len() as int) == b[i],
{
    let n = b.len() as int;
    let x = lower_solve(l, unit, false, b, n);
    lemma_lower_partial(l, unit, b, i, i);
    lemma_lower_settled(l, unit, b, i, i + 1, n);
    lemma_lower_len(l, unit, b, i);
    let y = lower_solve(l, unit, false, b, i)[i];
    let s = l.pattern.start(i);
    let d = l.values[s];
    assert(l.pattern.start(i) < l.pattern.end(i) && l.pattern.row_idx@[s] == i);
    assert(l.pattern.sorted_col(i));
    l.pattern.lemma_find_at(s, i);
    assert(dense_entry(l, i, i) == d);
    assert(x[i] == divided(unit, false, d, y));
    let term = d.times(x[i]);
    if unit {
        assert(d == T::unit());
        lemma_times_commutes(d, y);
        lemma_unit_is_neutral(y);
    } else {
        lemma_times_commutes(d, x[i]);
        lemma_times_associates(y, d.reciprocal(), d);
        lemma_reciprocal_inverts(d);
        lemma_unit_is_neutral(y);
    }
    assert(term == y);
    lemma_plus_commutes(matvec(l, x, i, i), term);
    lemma_lower_tail(l, x, n, i, i + 1, n);
}

proof fn lemma_upper_len<T: Scalar>(u: CscModel<T>, b: Seq<T>, k: int)
    ensures
        upper_solve(u, false, b, k).len() == b.len(),
    decreases k,
{
    if k > 0 {
        lemma_upper_len(u, b, k - 1);
    }
}

/// Later steps leave an entry alone.
proof fn lemma_upper_settled<T: Scalar>(u: CscModel<T>, b: Seq<T>, j: int, k1: int, k2: int)
    requires
        0 <= k1 <= k2 <= b.len(),
        b.len() - k1 <= j < b.len(),
    ensures
        upper_solve(u, false, b, k2)[j] == upper_solve(u, false, b, k1)[j],
    decreases k2,
{
    lemma_upper_len(u, b, k2);
    if k1 < k2 {
        lemma_upper_len(u, b, k2 - 1);
        lemma_upper_settled(u, b, j, k1, k2 - 1);
    }
}

/// The entry `i` of the product `m * x`, summed over the columns from `k` on, the
/// last first.
spec fn matvec_from<T: Scalar>(m: CscModel<T>, x: Seq<T>, i: int, k: int) -> T
    decreases x.len() - k,
{
    if k >= x.len() {
        T::null()
    } else {
        matvec_from(m, x, i, k + 1).plus(dense_entry(m, i, k).times(x[k]))
    }
}

proof fn lemma_matvec_split<T: Scalar>(m: CscModel<T>, x: Seq<T>, i: int, k: int)
    requires
        exact_field::<T>(),
        0 <= k <= x.len(),
    ensures
        matvec(m, x, i, x.len() as int) == matvec(m, x, i, k).plus(matvec_from(m, x, i, k)),
    decreases x.len() - k,
{
    if k == x.len() {
        lemma_null_is_neutral(matvec(m, x, i, k));
    } else {
        lemma_matvec_split(m, x, i, k + 1);
        let a = matvec(m, x, i, k);
        let t = dense_entry(m, i, k).times(x[k]);
        let f = matvec_from(m, x, i, k + 1);
        lemma_plus_associates(a, t, f);
        lemma_plus_commutes(t, f);
    }
}

proof fn lemma_upper_partial<T: Scalar>(u: CscModel<T>, b: Seq<T>, i: int, k: int)
    requires
        exact_field::<T>(),
        u.wf(),
        upper_ok(u.pattern, b.len() as int),
        0 <= k,
        0 <= i < b.len() - k,
    ensures
        upper_solve(u, false, b, k)[i].plus(
            matvec_from(u, upper_solve(u, false, b, b.len() as int), i, b.len() - k),
        ) == b[i],
    decreases k,
{
    let n = b.len() as int;
    let x = upper_solve(u, false, b, n);
    lemma_upper_len(u, b, n);
    if k <= 0 {
        lemma_null_is_neutral(b[i]);
    } else {
        let j = n - k;
        lemma_upper_partial(u, b, i, k - 1);
        lemma_upper_settled(u, b, j, k, n);
        lemma_upper_len(u, b, k - 1);
        let y = upper_solve(u, false, b, k - 1);
        let y2 = upper_solve(u, false, b, k);
        let part = matvec_from(u, x, i, j + 1);
        let term = dense_entry(u, i, j).times(x[j]);
        assert(y2[j] == x[j]);
        if u.pattern.has(i, j) {
            assert(y2[i] == y[i].minus(term));
            lemma_minus_undoes_plus(y[i], term);
            lemma_plus_commutes(part, term);
            lemma_plus_associates(y2[i], term, part);
        } else {
            lemma_times_commutes(dense_entry(u, i, j), x[j]);
            lemma_null_absorbs(x[j]);
            lemma_null_is_neutral(part);
        }
    }
}

/// Columns before the diagonal add nothing to a row of an upper triangular
/// product.
proof fn lemma_upper_head<T: Scalar>(u: CscModel<T>, x: Seq<T>, n: int, i: int, k: int)
    requires
        exact_field::<T>(),
        upper_ok(u.pattern, n),
        0 <= k <= i < n,
    ensures
        matvec(u, x, i, k) == T::null(),
    decreases k,
{
    if k > 0 {
        lemma_upper_head(u, x, n, i, k - 1);
        let j = k - 1;
        if u.pattern.has(i, j) {
            u.pattern.lemma_find(i, j);
            lemma_upper_col(u.pattern, n, u.pattern.find(i, j), j);
        }
        lemma_times_commutes(dense_entry(u, i, j), x[j]);
        lemma_null_absorbs(x[j]);
        lemma_null_is_neutral(T::null());
    }
}

/// In exact arithmetic the upper triangular solve solves: `U x = b`.
pub proof fn law_upper_solve<T: Scalar>(u: CscModel<T>, b: Seq<T>, i: int)
    requires
        exact_field::<T>(),
        u.wf(),
        upper_ok(u.pattern, b.len() as int),
        upper_diag_ok(u, b.len() as int),
        0 <= i < b.len(),
    ensures
        matvec(u, upper_solve(u, false, b, b.len() as int), i, b.len() as int) == b[i],
{
    let n = b.len() as int;
    let x = upper_solve(u, false, b, n);
    lemma_upper_len(u, b, n);
    let k = n - 1 - i;
    lemma_upper_partial(u, b, i, k);
    lemma_upper_settled(u, b, i, k + 1, n);
    lemma_upper_len(u, b, k);
    let y = upper_solve(u, false, b, k)[i];
    let e = u.pattern.end(i);
    let d = u.values[e - 1];
    assert(u.pattern.start(i) < u.pattern.end(i));
    assert(u.pattern.sorted_col(i));
    u.pattern.lemma_find_at(e - 1, i);
    assert(dense_entry(u, i, i) == d);
    assert(!vanishes(u.values[u.pattern.end(i) - 1]));
    let term = d.times(x[i]);
    lemma_times_commutes(d, x[i]);
    lemma_times_associates(y, d.reciprocal(), d);
    lemma_reciprocal_inverts(d);
    lemma_unit_is_neutral(y);
    assert(term == y);
    let part = matvec_from(u, x, i, i + 1);
    lemma_plus_commutes(part, term);
    assert(matvec_from(u, x, i, i) == b[i]);
    lemma_matvec_split(u, x, i, i);
    lemma_upper_head(u, x, n, i, i);
    lemma_plus_commutes(T::null(), b[i]);
    lemma_null_is_neutral(b[i]);
}

proof fn lemma_lower_t_len<T: Scalar>(l: CscModel<T>, unit: bool, conj: bool, b: Seq<T>, k: int)
    requires
        k <= b.len(),
    ensures
        lower_transpose_solve(l, unit, conj, b, k).len() == b.len(),
    decreases k,
{
    if k > 0 {
        lemma_lower_t_len(l, unit, conj, b, k - 1);
    }
}

proof fn lemma_lower_t_settled<T: Scalar>(
    l: CscModel<T>,
    unit: bool,
    conj: bool,
    b: Seq<T>,
    j: int,
    k1: int,
    k2: int,
)
    requires
        0 <= k1 <= k2 <= b.len(),
        b.len() - k1 <= j < b.len(),
    ensures
        lower_transpose_solve(l, unit, conj, b, k2)[j] == lower_transpose_solve(
            l,
            unit,
            conj,
            b,
            k1,
        )[j],
    decreases k2,
{
    if k1 < k2 {
        lemma_lower_t_len(l, unit, conj, b, k2 - 1);
        lemma_lower_t_settled(l, unit, conj, b, j, k1, k2 - 1);
    }
}

proof fn lemma_lower_t_ahead<T: Scalar>(
    l: CscModel<T>,
    unit: bool,
    conj: bool,
    b: Seq<T>,
    j: int,
    k: int,
)
    requires
        0 <= k,
        0 <= j < b.len() - k,
    ensures
        lower_transpose_solve(l, unit, conj, b, k)[j] == b[j],
    decreases k,
{
    if k > 0 {
        lemma_lower_t_len(l, unit, conj, b, k - 1);
        lemma_lower_t_ahead(l, unit, conj, b, j, k - 1);
    }
}

/// A product over rows where two vectors agree is the same for both.
proof fn lemma_dot_rev_agree<T: Scalar>(
    m: CscModel<T>,
    conj: bool,
    x: Seq<T>,
    y: Seq<T>,
    lo: int,
    hi: int,
)
    requires
        forall|p: int|
            lo <= p < hi ==> x[(#[trigger] m.pattern.row_idx@[p]) as int]
                == y[m.pattern.row_idx@[p] as int],
    ensures
        dot_rev(m, conj, x, lo, hi) == dot_rev(m, conj, y, lo, hi),
    decreases hi - lo,
{
    if lo < hi {
        lemma_dot_rev_agree(m, conj, x, y, lo + 1, hi);
        assert(x[m.pattern.row_idx@[lo] as int] == y[m.pattern.row_idx@[lo] as int]);
    }
}

/// In exact arithmetic the transposed lower triangular solve solves
/// `L^T x = b`: entry `j` of the product is the sum over the stored entries of
/// column `j` of `L`, which `conj` conjugates.
pub proof fn law_lower_transpose_solve<T: Scalar>(
    l: CscModel<T>,
    unit: bool,
    conj: bool,
    b: Seq<T>,
    j: int,
)
    requires
        exact_field::<T>(),
        l.wf(),
        lower_ok(l.pattern, b.len() as int),
        0 <= j < b.len(),
        ({
            let d = l.values[l.pattern.start(j)];
            &&& unit ==> conj_if(conj, d) == T::unit()
            &&& !unit ==> conj_if(conj, d.reciprocal()).times(conj_if(conj, d)) == T::unit()
        }),
    ensures
        ({
            let x = lower_transpose_solve(l, unit, conj, b, b.len() as int);
            dot_rev(l, conj, x, l.pattern.start(j), l.pattern.end(j)) == b[j]
        }),
{
    let n = b.len() as int;
    let x = lower_transpose_solve(l, unit, conj, b, n);
    let k = n - 1 - j;
    let y = lower_transpose_solve(l, unit, conj, b, k);
    let s = l.pattern.start(j);
    let e = l.pattern.end(j);
    l.pattern.lemma_col_bounds(j);
    assert(l.pattern.start(j) < l.pattern.end(j) && l.pattern.row_idx@[s] == j);
    lemma_lower_t_len(l, unit, conj, b, k);
    lemma_lower_t_len(l, unit, conj, b, n);
    lemma_lower_t_settled(l, unit, conj, b, j, k + 1, n);
    lemma_lower_t_ahead(l, unit, conj, b, j, k);
    assert forall|p: int| s + 1 <= p < e implies x[(#[trigger] l.pattern.row_idx@[p]) as int]
        == y[l.pattern.row_idx@[p] as int] by {
        assert(l.pattern.in_col(p, j));
        lemma_lower_col(l.pattern, n, p, j);
        lemma_lower_t_settled(l, unit, conj, b, l.pattern.row_idx@[p] as int, k, n);
    }
    lemma_dot_rev_agree(l, conj, x, y, s + 1, e);
    let rest = dot_rev(l, conj, x, s + 1, e);
    let left = b[j].minus(rest);
    let d = l.values[s];
    assert(x[j] == divided(unit, conj, d, left));
    let c = conj_if(conj, d);
    let term = c.times(x[j]);
    if unit {
        lemma_times_commutes(c, left);
        lemma_unit_is_neutral(left);
    } else {
        let r = conj_if(conj, d.reciprocal());
        lemma_times_commutes(c, x[j]);
        lemma_times_associates(left, r, c);
        lemma_unit_is_neutral(left);
    }
    assert(term == left);
    lemma_plus_commutes(rest, term);
    lemma_minus_undoes_plus(b[j], rest);
}

proof fn lemma_upper_t_len<T: Scalar>(u: CscModel<T>, conj: bool, b: Seq<T>, k: int)
    requires
        k <= b.len(),
    ensures
        upper_transpose_solve(u, conj, b, k).len() == b.len(),
    decreases k,
{
    if k > 0 {
        lemma_upper_t_len(u, conj, b, k - 1);
    }
}

proof fn lemma_upper_t_settled<T: Scalar>(
    u: CscModel<T>,
    conj: bool,
    b: Seq<T>,
    j: int,
    k1: int,
    k2: int,
)
    requires
        0 <= j < k1 <= k2 <= b.len(),
    ensures
        upper_transpose_solve(u, conj, b, k2)[j] == upper_transpose_solve(u, conj, b, k1)[j],
    decreases k2,
{
    if k1 < k2 {
        lemma_upper_t_len(u, conj, b, k2 - 1);
        lemma_upper_t_settled(u, conj, b, j, k1, k2 - 1);
    }
}

proof fn lemma_upper_t_ahead<T: Scalar>(u: CscModel<T>, conj: bool, b: Seq<T>, j: int, k: int)
    requires
        0 <= k <= j < b.len(),
    ensures
        upper_transpose_solve(u, conj, b, k)[j] == b[j],
    decreases k,
{
    if k > 0 {
        lemma_upper_t_len(u, conj, b, k - 1);
        lemma_upper_t_ahead(u, conj, b, j, k - 1);
    }
}

proof fn lemma_dot_agree<T: Scalar>(
    m: CscModel<T>,
    conj: bool,
    x: Seq<T>,
    y: Seq<T>,
    lo: int,
    hi: int,
)
    requires
        forall|p: int|
            lo <= p < hi ==> x[(#[trigger] m.pattern.row_idx@[p]) as int]
                == y[m.pattern.row_idx@[p] as int],
    ensures
        dot(m, conj, x, lo, hi) == dot(m, conj, y, lo, hi),
    decreases hi - lo,
{
    if lo < hi {
        lemma_dot_agree(m, conj, x, y, lo, hi - 1);
        assert(x[m.pattern.row_idx@[hi - 1] as int] == y[m.pattern.row_idx@[hi - 1] as int]);
    }
}

/// In exact arithmetic the transposed upper triangular solve solves
/// `U^T x = b`: entry `j` of the product is the sum over the stored entries of
/// column `j` of `U`, which `conj` conjugates.
pub proof fn law_upper_transpose_solve<T: Scalar>(
    u: CscModel<T>,
    conj: bool,
    b: Seq<T>,
    j: int,
)
    requires
        exact_field::<T>(),
        u.wf(),
        upper_ok(u.pattern, b.len() as int),
        0 <= j < b.len(),
        ({
            let d = u.values[u.pattern.end(j) - 1];
            conj_if(conj, d.reciprocal()).times(conj_if(conj, d)) == T::unit()
        }),
    ensures
        ({
            let x = upper_transpose_solve(u, conj, b, b.len() as int);
            dot(u, conj, x, u.pattern.start(j), u.pattern.end(j)) == b[j]
        }),
{
    let n = b.len() as int;
    let x = upper_transpose_solve(u, conj, b, n);
    let y = upper_transpose_solve(u, conj, b, j);
    let s = u.pattern.start(j);
    let e = u.pattern.end(j);
    u.pattern.lemma_col_bounds(j);
    assert(u.pattern.start(j) < u.pattern.end(j) && u.pattern.row_idx@[u.pattern.end(j) - 1] == j);
    lemma_upper_t_len(u, conj, b, j);
    lemma_upper_t_len(u, conj, b, n);
    lemma_upper_t_settled(u, conj, b, j, j + 1, n);
    lemma_upper_t_ahead(u, conj, b, j, j);
    assert forall|p: int| s <= p < e - 1 implies x[(#[trigger] u.pattern.row_idx@[p]) as int]
        == y[u.pattern.row_idx@[p] as int] by {
        assert(u.pattern.in_col(p, j));
        lemma_upper_col(u.pattern, n, p, j);
        lemma_upper_t_settled(u, conj, b, u.pattern.row_idx@[p] as int, j, n);
    }
    lemma_dot_agree(u, conj, x, y, s, e - 1);
    let rest = dot(u, conj, x, s, e - 1);
    let left = b[j].minus(rest);
    let d = u.values[e - 1];
    assert(x[j] == divided(false, conj, d, left));
    let c = conj_if(conj, d);
    let r = conj_if(conj, d.reciprocal());
    let term = c.times(x[j]);
    lemma_times_commutes(c, x[j]);
    lemma_times_associates(left, r, c);
    lemma_unit_is_neutral(left);
    assert(term == left);
    lemma_plus_commutes(rest, term);
    lemma_minus_undoes_plus(b[j], rest);
}

/// A solve keeps the length of the right-hand side.
pub proof fn lemma_solve_lengths<T: Scalar>(
    l: CscModel<T>,
    u: CscModel<T>,
    unit: bool,
    conj: bool,
    b: Seq<T>,
)
    ensures
        lower_solve(l, unit, false, b, b.len() as int).len() == b.len(),
        upper_solve(u, false, b, b.len() as int).len() == b.len(),
        lower_transpose_solve(l, unit, conj, b, b.len() as int).len() == b.len(),
        upper_transpose_solve(u, conj, b, b.len() as int).len() == b.len(),
{
    lemma_lower_len(l, unit, b, b.len() as int);
    lemma_upper_len(u, b, b.len() as int);
    lemma_lower_t_len(l, unit, conj, b, b.len() as int);
    lemma_upper_t_len(u, conj, b, b.len() as int);
}

/// `x`, each entry multiplied by the matching entry of `diag`.
pub open spec fn scaled_rows<T: Scalar>(diag: Seq<T>, conj: bool, x: Seq<T>) -> Seq<T> {
    Seq::new(x.len(), |i: int| conj_if(conj, diag[i]).times(x[i]))
}

/// Multiplies row `i` of column `c` by `diag[i]`, for every `i`.
fn scale_column<T: Scalar>(diag: &[T], conj: bool, m: &mut Mat<T>, c: usize)
    requires
        old(m).wf(),
        old(m).nrows == diag@.len(),
        c < old(m).ncols,
    ensures
        same_but(*final(m), *old(m), c as int),
        final(m).col(c as int) == scaled_rows(diag@, conj, old(m).col(c as int)),
{
    let ghost m0 = *m;
    let ghost cc = c as int;
    let n: usize = m.nrows;
    let mut i: usize = 0;
    while i < n
        invariant
            cc == c,
            n == m0.nrows,
            c < m0.ncols,
            n == diag@.len(),
            same_but(*m, m0, cc),
            i <= n,
            forall|k: int|
                0 <= k < i ==> #[trigger] m.col(cc)[k] == conj_if(conj, diag@[k]).times(
                    m0.col(cc)[k],
                ),
            forall|k: int| i <= k < n ==> #[trigger] m.col(cc)[k] == m0.col(cc)[k],
        decreases n - i,
    {
        let s: T = apply_conj(conj, &diag[i]);
        assert(m.col(cc)[i as int] == m.at(i as int, cc));
        let x: T = s.mul(m.get(i, c));
        m.set(i, c, x);
        i += 1;
    }
    assert(m.col(cc) =~= scaled_rows(diag@, conj, m0.col(cc)));
}

/// Multiplies row `i` of `m` by `diag[i]`, conjugated when `conj` is set.
pub fn scale_rows_in_place<T: Scalar>(diag: &[T], conj: bool, m: &mut Mat<T>)
    requires
        old(m).wf(),
        old(m).nrows == diag@.len(),
    ensures
        final(m).wf(),
        final(m).nrows == old(m).nrows,
        final(m).ncols == old(m).ncols,
        forall|c: int|
            0 <= c < old(m).ncols ==> #[trigger] final(m).col(c) == scaled_rows(
                diag@,
                conj,
                old(m).col(c),
            ),
{
    let ghost m0 = *m;
    let ncols: usize = m.ncols;
    let mut c: usize = 0;
    while c < ncols
        invariant
            ncols == m0.ncols,
            m0.nrows == diag@.len(),
            m.wf(),
            m.nrows == m0.nrows,
            m.ncols == m0.ncols,
            c <= ncols,
            forall|b: int|
                0 <= b < c ==> #[trigger] m.col(b) == scaled_rows(diag@, conj, m0.col(b)),
            forall|b: int| c <= b < ncols ==> #[trigger] m.col(b) == m0.col(b),
        decreases ncols - c,
    {
        scale_column(diag, conj, m, c);
        c += 1;
    }
}

} // verus!
