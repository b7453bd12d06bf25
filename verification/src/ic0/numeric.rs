//! Numeric IC(0) factorisation.
use vstd::prelude::*;

use super::symbolic::{
    ic0_error_of, law_zero_fill, lemma_tail_col, stored_lower, tail_col, SymbolicIc0,
};
use super::Ic0Error;
use crate::lu::{dense_entry, lemma_lower_col, lemma_u_gap, lemma_upper_col, lower_ok};
use crate::scalar::{
    exact_field, exact_roots, is_real, lemma_embed_conjugate, lemma_minus_is_real,
    lemma_minus_undoes_plus, lemma_null_absorbs, lemma_null_conjugate, lemma_null_is_neutral,
    lemma_plus_associates, lemma_plus_commutes, lemma_reciprocal_inverts, lemma_root_squares,
    lemma_square_is_real, lemma_times_associates, lemma_times_commutes, lemma_unit_is_neutral,
    zeros, RealScalar, Scalar,
};
use crate::sparse::{
    entries, lemma_retained_past, retained, stored, CscModel, CscPattern, CscRef,
};
use crate::transpose::lemma_transpose_has;
use crate::util::diag_split::{diag_col_ok, diag_error_of, splittable, DiagError};

verus! {

/// Numeric IC(0) factor of a Hermitian positive-definite CSC matrix `A`.
///
/// Holds the `L` value buffer together with the symbolic structure and the
/// dense workspace used during refactorisation.
#[derive(Debug, Clone)]
pub struct Ic0<T> {
    pub symbolic: SymbolicIc0,
    pub l_values: Vec<T>,
    pub workspace_w: Vec<T>,
    pub workspace_marker: Vec<usize>,
}

/// The entry `(i, j)`, on or below the diagonal, once the pivots below `k` have
/// been eliminated: the source entry `a(i, j)`, less `L[i, m] * conj(L[j, m])`
/// for each pivot `m < k` that precedes `j` and meets both rows in the pattern
/// `s`, in ascending order of `m`.
pub open spec fn ic_entry<T: Scalar>(
    s: spec_fn(int, int) -> bool,
    a: spec_fn(int, int) -> T,
    i: int,
    j: int,
    k: int,
) -> T
    decreases k,
{
    if k <= 0 {
        a(i, j)
    } else {
        let m = k - 1;
        let before = ic_entry(s, a, i, j, m);
        if m < j && s(i, m) && s(j, m) {
            let pivot = T::embed(ic_entry(s, a, m, m, m).real_part().root());
            let l_im = ic_entry(s, a, i, m, m).times(pivot.reciprocal());
            let l_jm = ic_entry(s, a, j, m, m).times(pivot.reciprocal());
            before.minus(l_im.times(l_jm.conjugate()))
        } else {
            before
        }
    }
}

/// The real part of what is left on the diagonal of column `j`.
pub open spec fn chol_pivot<T: Scalar>(
    s: spec_fn(int, int) -> bool,
    a: spec_fn(int, int) -> T,
    j: int,
) -> T::Real {
    ic_entry(s, a, j, j, j).real_part()
}

/// The entry `L[i, j]`, for `i >= j`.
pub open spec fn chol_entry<T: Scalar>(
    s: spec_fn(int, int) -> bool,
    a: spec_fn(int, int) -> T,
    i: int,
    j: int,
) -> T {
    let pivot = T::embed(chol_pivot(s, a, j).root());
    if i == j {
        pivot
    } else {
        ic_entry(s, a, i, j, j).times(pivot.reciprocal())
    }
}

/// The pivots of the first `j` columns are positive.
pub open spec fn chol_pivots_ok<T: Scalar>(
    s: spec_fn(int, int) -> bool,
    a: spec_fn(int, int) -> T,
    j: int,
) -> bool {
    forall|k: int| 0 <= k < j ==> T::Real::null().below(#[trigger] chol_pivot(s, a, k))
}

/// Column `j` of `L` holds the entries of the factorisation.
pub open spec fn chol_col_done<T: Scalar>(
    l: CscPattern,
    a: spec_fn(int, int) -> T,
    lv: Seq<T>,
    j: int,
) -> bool {
    forall|p: int| #[trigger]
        l.in_col(p, j) ==> lv[p] == chol_entry(stored(l), a, l.row_idx@[p] as int, j)
}

/// The first `j` columns of `L` are done.
pub open spec fn chol_cols_done<T: Scalar>(
    l: CscPattern,
    a: spec_fn(int, int) -> T,
    lv: Seq<T>,
    j: int,
) -> bool {
    forall|k: int| 0 <= k < j ==> #[trigger] chol_col_done(l, a, lv, k)
}

/// Each mark names a column in which the marked row is stored, or no column at
/// all.
pub open spec fn marks_lower(l: CscPattern, marker: Seq<usize>) -> bool {
    &&& marker.len() == l.ncols
    &&& forall|i: int|
        0 <= i < l.ncols ==> #[trigger] marker[i] == usize::MAX || stored(l)(i, marker[i] as int)
}

/// Column `j` of `p` has the length and the diagonal position that `s` expects.
pub open spec fn column_matches(s: SymbolicIc0, p: CscPattern, j: int) -> bool {
    let d = s.diag_pos@[j] as int;
    &&& p.start(j) + d < p.end(j)
    &&& p.row_idx@[p.start(j) + d] == j
    &&& p.end(j) - p.start(j) - d == s.l.end(j) - s.l.start(j)
}

/// A matrix with pattern `p` can be refactorised into `s`.
pub open spec fn pattern_matches(s: SymbolicIc0, p: CscPattern) -> bool {
    &&& p.nrows == s.dim
    &&& p.ncols == s.dim
    &&& forall|j: int| 0 <= j < s.dim ==> #[trigger] column_matches(s, p, j)
}

/// The values of `a` laid over the pattern of the factor `s`: values are taken
/// by their position within the column.
pub open spec fn source<T>(s: SymbolicIc0, a: CscRef<'_, T>) -> spec_fn(int, int) -> T {
    |i: int, j: int|
        a.values@[a.pattern.start(j) + s.diag_pos@[j] + s.l.find(i, j) - s.l.start(j)]
}

/// The columns `j..m` hold the values of `a`.
pub open spec fn loaded<T>(
    s: SymbolicIc0,
    a: spec_fn(int, int) -> T,
    lv: Seq<T>,
    j: int,
    m: int,
) -> bool {
    forall|k: int, p: int|
        j <= k < m && #[trigger] s.l.in_col(p, k) ==> lv[p] == a(s.l.row_idx@[p] as int, k)
}

/// Column `j` is the first that does not match.
pub open spec fn mismatch_at(s: SymbolicIc0, p: CscPattern, j: int) -> bool {
    &&& 0 <= j < s.dim
    &&& !column_matches(s, p, j)
    &&& forall|k: int| 0 <= k < j ==> #[trigger] column_matches(s, p, k)
}

/// Pivots that do not meet row `j` leave column `j` alone.
proof fn lemma_ic_skip<T: Scalar>(
    s: spec_fn(int, int) -> bool,
    a: spec_fn(int, int) -> T,
    i: int,
    j: int,
    k1: int,
    k2: int,
)
    requires
        0 <= k1 <= k2,
        forall|m: int| k1 <= m < k2 ==> !(m < j && s(i, m) && #[trigger] s(j, m)),
    ensures
        ic_entry(s, a, i, j, k1) == ic_entry(s, a, i, j, k2),
    decreases k2,
{
    if k1 < k2 {
        lemma_ic_skip(s, a, i, j, k1, k2 - 1);
        assert(!(k2 - 1 < j && s(i, k2 - 1) && s(j, k2 - 1)));
    }
}

/// The factorisation reads its source only on the pattern.
pub proof fn lemma_ic_agree<T: Scalar>(
    s: spec_fn(int, int) -> bool,
    a: spec_fn(int, int) -> T,
    b: spec_fn(int, int) -> T,
    n: int,
    i: int,
    j: int,
    k: int,
)
    requires
        forall|p: int, q: int| #[trigger] s(p, q) ==> a(p, q) == b(p, q),
        forall|m: int| 0 <= m < n ==> #[trigger] s(m, m),
        s(i, j),
        0 <= i < n,
        0 <= j < n,
    ensures
        ic_entry(s, a, i, j, k) == ic_entry(s, b, i, j, k),
    decreases k,
{
    if k > 0 {
        let m = k - 1;
        lemma_ic_agree(s, a, b, n, i, j, m);
        if m < j && s(i, m) && s(j, m) {
            assert(s(m, m));
            lemma_ic_agree(s, a, b, n, i, m, m);
            lemma_ic_agree(s, a, b, n, m, m, m);
            lemma_ic_agree(s, a, b, n, j, m, m);
        }
    }
}

/// Every diagonal entry is stored.
pub proof fn lemma_diag_stored(l: CscPattern, n: int)
    requires
        lower_ok(l, n),
    ensures
        forall|k: int| 0 <= k < n ==> #[trigger] stored(l)(k, k),
{
    assert forall|k: int| 0 <= k < n implies #[trigger] stored(l)(k, k) by {
        assert(l.start(k) < l.end(k));
        assert(l.in_col(l.start(k), k));
    }
}

/// Values before the column that changed stay done.
proof fn lemma_chol_frame<T: Scalar>(
    l: CscPattern,
    a: spec_fn(int, int) -> T,
    lv: Seq<T>,
    lv2: Seq<T>,
    n: int,
    j: int,
)
    requires
        lower_ok(l, n),
        0 <= j < n,
        chol_cols_done(l, a, lv, j),
        forall|p: int| 0 <= p < l.start(j) ==> #[trigger] lv2[p] == lv[p],
    ensures
        chol_cols_done(l, a, lv2, j),
{
    assert forall|k: int| 0 <= k < j implies #[trigger] chol_col_done(l, a, lv2, k) by {
        assert(chol_col_done(l, a, lv, k));
        assert(l.col_ptr@[k + 1] <= l.col_ptr@[j]);
    }
}

/// Eliminates column `j`, whose source entries have been scattered into `w`,
/// and stores it. Returns whether its pivot is positive; if it is not, the
/// values are left as they were.
#[verifier::rlimit(60)]
fn eliminate_column<T: Scalar>(
    s: &SymbolicIc0,
    j: usize,
    w: &mut Vec<T>,
    marker: &Vec<usize>,
    lv: &mut Vec<T>,
    Ghost(a): Ghost<spec_fn(int, int) -> T>,
) -> (ok: bool)
    requires
        s.wf(),
        j < s.dim,
        old(w)@.len() == s.dim,
        marker@.len() == s.dim,
        old(lv)@.len() == s.l.row_idx@.len(),
        forall|i: int|
            0 <= i < s.dim ==> (#[trigger] marker@[i] == j <==> stored(s.l)(i, j as int)),
        forall|i: int|
            0 <= i < s.dim && stored(s.l)(i, j as int) ==> #[trigger] old(w)@[i] == a(i, j as int),
        chol_cols_done(s.l, a, old(lv)@, j as int),
    ensures
        final(w)@.len() == old(w)@.len(),
        final(lv)@.len() == old(lv)@.len(),
        ok <==> T::Real::null().below(chol_pivot(stored(s.l), a, j as int)),
        ok ==> chol_cols_done(s.l, a, final(lv)@, j + 1),
        forall|p: int|
            0 <= p < s.l.row_idx@.len() && !s.l.in_col(p, j as int) ==> #[trigger] final(lv)@[p]
                == old(lv)@[p],
        !ok ==> final(lv)@ == old(lv)@,
{
    let ghost n = s.dim as int;
    let ghost has = stored(s.l);
    let ghost jj = j as int;
    let ghost lv0 = lv@;
    let ls: usize = s.l.col_ptr[j];
    let le: usize = s.l.col_ptr[j + 1];
    let rs: usize = s.rows.col_ptr[j];
    let re: usize = s.rows.col_ptr[j + 1];
    proof {
        s.l.lemma_col_bounds(jj);
        s.rows.lemma_col_bounds(jj);
        assert(s.l.start(jj) < s.l.end(jj));
        assert(s.rows.start(jj) < s.rows.end(jj));
        lemma_diag_stored(s.l, n);
        assert(s.rows.in_col(rs as int, jj));
        lemma_upper_col(s.rows, n, rs as int, jj);
        lemma_u_gap(s.rows, n, jj, rs - 1);
        assert forall|i: int| 0 <= i < n && has(i, jj) implies #[trigger] w@[i] == ic_entry(
            has,
            a,
            i,
            jj,
            s.rows.row_idx@[rs as int] as int,
        ) by {
            assert forall|m: int| 0 <= m < s.rows.row_idx@[rs as int] implies !(m < jj && has(i, m)
                && #[trigger] has(jj, m)) by {
                lemma_transpose_has(s.l, s.rows, s.row_lpos@, jj, m);
            }
            lemma_ic_skip(has, a, i, jj, 0, s.rows.row_idx@[rs as int] as int);
        }
    }
    let mut t: usize = rs;
    while t < re - 1
        invariant
            n == s.dim,
            jj == j,
            j < s.dim,
            s.wf(),
            has == stored(s.l),
            rs == s.rows.start(jj),
            re == s.rows.end(jj),
            rs <= t <= re - 1,
            re <= s.rows.row_idx@.len(),
            w@.len() == n,
            marker@.len() == n,
            lv@.len() == s.l.row_idx@.len(),
            lv@ == lv0,
            chol_cols_done(s.l, a, lv0, jj),
            forall|i: int| 0 <= i < n ==> (#[trigger] marker@[i] == j <==> has(i, jj)),
            forall|i: int|
                0 <= i < n && has(i, jj) ==> #[trigger] w@[i] == ic_entry(
                    has,
                    a,
                    i,
                    jj,
                    s.rows.row_idx@[t as int] as int,
                ),
        decreases re - t,
    {
        let k: usize = s.rows.row_idx[t];
        let pos: usize = s.row_lpos[t];
        let ghost kk = k as int;
        proof {
            assert(s.rows.in_col(t as int, jj));
            lemma_upper_col(s.rows, n, t as int, jj);
            s.l.lemma_col_bounds(kk);
            assert(s.l.in_col(pos as int, kk));
            assert(s.l.row_idx@[pos as int] == jj);
            lemma_lower_col(s.l, n, pos as int, kk);
            assert(s.l.has(jj, kk));
            assert(has(jj, kk));
            assert(chol_col_done(s.l, a, lv0, kk));
        }
        let conj_l_jk: T = lv[pos].conj();
        let lke: usize = s.l.col_ptr[k + 1];
        let mut q: usize = pos;
        while q < lke
            invariant
                n == s.dim,
                jj == j,
                kk == k,
                k < j < s.dim,
                s.wf(),
                has == stored(s.l),
                has(jj, kk),
                s.l.start(kk) < pos,
                lke == s.l.end(kk),
                pos <= q <= lke <= s.l.row_idx@.len(),
                s.l.row_idx@[pos as int] == j,
                w@.len() == n,
                marker@.len() == n,
                lv@.len() == s.l.row_idx@.len(),
                lv@ == lv0,
                chol_col_done(s.l, a, lv0, kk),
                conj_l_jk == chol_entry(has, a, jj, kk).conjugate(),
                forall|i: int| 0 <= i < n ==> (#[trigger] marker@[i] == j <==> has(i, jj)),
                forall|i: int|
                    0 <= i < n && has(i, jj) ==> #[trigger] w@[i] == ic_entry(
                        has,
                        a,
                        i,
                        jj,
                        if exists|r: int| pos <= r < q && #[trigger] s.l.row_idx@[r] == i {
                            kk + 1
                        } else {
                            kk
                        },
                    ),
            decreases lke - q,
        {
            let i: usize = s.l.row_idx[q];
            let ghost ii = i as int;
            proof {
                assert(s.l.in_col(q as int, kk));
                lemma_lower_col(s.l, n, q as int, kk);
                assert(s.l.sorted_col(kk));
                assert(s.l.has(ii, kk));
                assert(has(ii, kk));
                assert(!(exists|r: int| pos <= r < q && #[trigger] s.l.row_idx@[r] == ii));
            }
            let ghost wq = w@;
            if marker[i] == j {
                let upd: T = lv[q].mul(&conj_l_jk);
                let x: T = w[i].sub(&upd);
                w.set(i, x);
                proof {
                    assert(lv0[q as int] == chol_entry(has, a, ii, kk));
                    assert(w@[ii] == ic_entry(has, a, ii, jj, kk + 1));
                }
            }
            proof {
                assert forall|x: int| 0 <= x < n && has(x, jj) implies #[trigger] w@[x] == ic_entry(
                    has,
                    a,
                    x,
                    jj,
                    if exists|r: int| pos <= r < q + 1 && #[trigger] s.l.row_idx@[r] == x {
                        kk + 1
                    } else {
                        kk
                    },
                ) by {
                    if x == ii {
                        assert(s.l.row_idx@[q as int] == x);
                    } else {
                        assert(wq[x] == w@[x]);
                        if exists|r: int| pos <= r < q && #[trigger] s.l.row_idx@[r] == x {
                            let r = choose|r: int| pos <= r < q && #[trigger] s.l.row_idx@[r] == x;
                            assert(pos <= r < q + 1 && s.l.row_idx@[r] == x);
                        } else {
                            assert(!(exists|r: int|
                                pos <= r < q + 1 && #[trigger] s.l.row_idx@[r] == x));
                        }
                    }
                }
            }
            q += 1;
        }
        proof {
            let next = s.rows.row_idx@[t + 1] as int;
            assert(s.rows.in_col(t + 1, jj));
            lemma_upper_col(s.rows, n, t + 1, jj);
            assert(s.rows.sorted_col(jj));
            lemma_u_gap(s.rows, n, jj, t as int);
            assert forall|i: int| 0 <= i < n && has(i, jj) implies #[trigger] w@[i] == ic_entry(
                has,
                a,
                i,
                jj,
                next,
            ) by {
                s.l.lemma_find(i, jj);
                lemma_lower_col(s.l, n, s.l.find(i, jj), jj);
                if exists|r: int| pos <= r < q && #[trigger] s.l.row_idx@[r] == i {
                } else {
                    if has(i, kk) {
                        s.l.lemma_find(i, kk);
                        let r = s.l.find(i, kk);
                        assert(s.l.sorted_col(kk));
                        if r < pos {
                            assert(s.l.row_idx@[r] < s.l.row_idx@[pos as int]);
                        }
                        assert(pos <= r < q && s.l.row_idx@[r] == i);
                    }
                    assert(ic_entry(has, a, i, jj, kk + 1) == ic_entry(has, a, i, jj, kk));
                }
                assert forall|m: int| kk + 1 <= m < next implies !(m < jj && has(i, m)
                    && #[trigger] has(jj, m)) by {
                    lemma_transpose_has(s.l, s.rows, s.row_lpos@, jj, m);
                }
                lemma_ic_skip(has, a, i, jj, kk + 1, next);
            }
        }
        t += 1;
    }
    proof {
        assert(s.rows.row_idx@[t as int] == jj);
        assert(has(jj, jj));
    }
    let pivot_real: T::Real = w[j].re();
    if !T::Real::zero().lt(&pivot_real) {
        return false;
    }
    let pivot_root: T::Real = pivot_real.sqrt();
    let pivot: T = T::from_real(&pivot_root);
    let pivot_inv: T = pivot.recip();
    let ghost ws = w@;
    lv.set(ls, pivot);
    let mut q: usize = ls + 1;
    while q < le
        invariant
            n == s.dim,
            jj == j,
            j < s.dim,
            s.wf(),
            has == stored(s.l),
            ls == s.l.start(jj),
            le == s.l.end(jj),
            ls + 1 <= q <= le,
            le <= s.l.row_idx@.len(),
            w@.len() == n,
            w@ == ws,
            lv@.len() == s.l.row_idx@.len(),
            pivot_inv == T::embed(chol_pivot(has, a, jj).root()).reciprocal(),
            forall|i: int|
                0 <= i < n && has(i, jj) ==> #[trigger] ws[i] == ic_entry(has, a, i, jj, jj),
            forall|p: int|
                0 <= p < s.l.row_idx@.len() && !s.l.in_col(p, jj) ==> #[trigger] lv@[p] == lv0[p],
            lv@[ls as int] == T::embed(chol_pivot(has, a, jj).root()),
            forall|p: int|
                ls < p < q ==> #[trigger] lv@[p] == chol_entry(
                    has,
                    a,
                    s.l.row_idx@[p] as int,
                    jj,
                ),
        decreases le - q,
    {
        let i: usize = s.l.row_idx[q];
        proof {
            assert(s.l.in_col(q as int, jj));
            lemma_lower_col(s.l, n, q as int, jj);
            assert(s.l.has(i as int, jj));
            assert(has(i as int, jj));
        }
        let x: T = w[i].mul(&pivot_inv);
        lv.set(q, x);
        q += 1;
    }
    proof {
        assert(chol_col_done(s.l, a, lv@, jj));
        lemma_chol_frame(s.l, a, lv0, lv@, n, jj);
    }
    true
}

/// Copies the lower triangle of `a` into the slots of the factor. Returns
/// whether every column matches.
fn load_values<T: Scalar>(s: &SymbolicIc0, lv: &mut Vec<T>, a: CscRef<'_, T>) -> (ok: bool)
    requires
        s.wf(),
        a.wf(),
        a.pattern.nrows == s.dim,
        a.pattern.ncols == s.dim,
        old(lv)@.len() == s.l.row_idx@.len(),
    ensures
        final(lv)@.len() == old(lv)@.len(),
        ok <==> pattern_matches(*s, *a.pattern),
        ok ==> loaded(*s, source(*s, a), final(lv)@, 0, s.dim as int),
        !ok ==> exists|j: int| #[trigger]
            mismatch_at(*s, *a.pattern, j) && loaded(*s, source(*s, a), final(lv)@, 0, j)
                && retained(s.l, old(lv)@, final(lv)@, j),
{
    let n: usize = s.dim;
    let ghost src = source(*s, a);
    let mut j: usize = 0;
    while j < n
        invariant
            n == s.dim,
            s.wf(),
            a.wf(),
            a.pattern.nrows == n,
            a.pattern.ncols == n,
            src == source(*s, a),
            j <= n,
            lv@.len() == s.l.row_idx@.len(),
            lv@.len() == old(lv)@.len(),
            forall|k: int| 0 <= k < j ==> #[trigger] column_matches(*s, *a.pattern, k),
            loaded(*s, src, lv@, 0, j as int),
            retained(s.l, old(lv)@, lv@, j as int),
        decreases n - j,
    {
        let ghost jj = j as int;
        let a_start: usize = a.pattern.col_ptr[j];
        let a_end: usize = a.pattern.col_ptr[j + 1];
        let d: usize = s.diag_pos[j];
        let l_start: usize = s.l.col_ptr[j];
        let l_end: usize = s.l.col_ptr[j + 1];
        proof {
            a.pattern.lemma_col_bounds(jj);
            s.l.lemma_col_bounds(jj);
            assert(s.l.start(jj) < s.l.end(jj));
        }
        if d >= a_end - a_start || a.pattern.row_idx[a_start + d] != j || l_end - l_start != a_end
            - a_start - d {
            assert(mismatch_at(*s, *a.pattern, jj));
            return false;
        }
        let ghost lv0 = lv@;
        let len: usize = l_end - l_start;
        let mut k: usize = 0;
        while k < len
            invariant
                jj == j,
                j < n,
                n == s.dim,
                s.wf(),
                a.wf(),
                src == source(*s, a),
                d == s.diag_pos@[jj],
                a_start == a.pattern.start(jj),
                a_start + d + len <= a.values@.len(),
                l_start == s.l.start(jj),
                l_start + len == s.l.end(jj),
                s.l.end(jj) <= s.l.row_idx@.len(),
                k <= len,
                lv@.len() == s.l.row_idx@.len(),
                forall|p: int| 0 <= p < lv@.len() && !s.l.in_col(p, jj) ==> #[trigger] lv@[p] == lv0[p],
                forall|p: int|
                    l_start <= p < l_start + k ==> #[trigger] lv@[p] == src(
                        s.l.row_idx@[p] as int,
                        jj,
                    ),
            decreases len - k,
        {
            proof {
                assert(s.l.in_col(l_start + k, jj));
                assert(s.l.sorted_col(jj));
                s.l.lemma_find_at(l_start + k, jj);
            }
            let x: T = a.values[a_start + d + k].copy();
            lv.set(l_start + k, x);
            k += 1;
        }
        proof {
            assert(column_matches(*s, *a.pattern, jj));
            assert forall|k: int, p: int|
                0 <= k < j + 1 && #[trigger] s.l.in_col(p, k) implies lv@[p] == src(
                s.l.row_idx@[p] as int,
                k,
            ) by {
                s.l.lemma_col_bounds(k);
                if k < j {
                    if s.l.in_col(p, jj) {
                        s.l.lemma_col_unique(p, jj, k);
                    }
                    assert(lv0[p] == src(s.l.row_idx@[p] as int, k));
                }
            }
            lemma_retained_past(s.l, old(lv)@, lv0, lv@, jj);
        }
        j += 1;
    }
    true
}

/// Spreads column `j` over the dense workspace and marks its rows.
#[verifier::spinoff_prover]
#[verifier::rlimit(60)]
fn scatter_column<T: Scalar>(
    s: &SymbolicIc0,
    j: usize,
    lv: &Vec<T>,
    w: &mut Vec<T>,
    marker: &mut Vec<usize>,
    Ghost(src): Ghost<spec_fn(int, int) -> T>,
)
    requires
        s.wf(),
        j < s.dim,
        lv@.len() == s.l.row_idx@.len(),
        old(w)@.len() == s.dim,
        marks_lower(s.l, old(marker)@),
        loaded(*s, src, lv@, j as int, s.dim as int),
    ensures
        final(w)@.len() == s.dim,
        marks_lower(s.l, final(marker)@),
        forall|i: int|
            0 <= i < s.dim ==> (#[trigger] final(marker)@[i] == j <==> stored(s.l)(i, j as int)),
        forall|i: int|
            0 <= i < s.dim && stored(s.l)(i, j as int) ==> #[trigger] final(w)@[i] == src(
                i,
                j as int,
            ),
{
    let ghost n = s.dim as int;
    let ghost jj = j as int;
    let ghost has = stored(s.l);
    let ls: usize = s.l.col_ptr[j];
    let le: usize = s.l.col_ptr[j + 1];
    proof {
        s.l.lemma_col_bounds(jj);
    }
    let mut k: usize = ls;
    while k < le
        invariant
            n == s.dim,
            jj == j,
            j < s.dim,
            s.wf(),
            has == stored(s.l),
            ls == s.l.start(jj),
            le == s.l.end(jj),
            ls <= k <= le <= s.l.row_idx@.len(),
            lv@.len() == s.l.row_idx@.len(),
            loaded(*s, src, lv@, jj, s.dim as int),
            w@.len() == n,
            marks_lower(s.l, marker@),
            forall|p: int| ls <= p < k ==> marker@[#[trigger] s.l.row_idx@[p] as int] == j,
            forall|p: int|
                ls <= p < k ==> w@[#[trigger] s.l.row_idx@[p] as int] == src(
                    s.l.row_idx@[p] as int,
                    jj,
                ),
        decreases le - k,
    {
        let i: usize = s.l.row_idx[k];
        proof {
            assert(s.l.in_col(k as int, jj));
            assert(s.l.has(i as int, jj));
            assert(has(i as int, jj));
            assert(s.l.sorted_col(jj));
        }
        marker.set(i, j);
        let x: T = lv[k].copy();
        w.set(i, x);
        k += 1;
    }
    proof {
        assert forall|i: int| 0 <= i < n && has(i, jj) implies #[trigger] marker@[i] == j && w@[i]
            == src(i, jj) by {
            s.l.lemma_find(i, jj);
            assert(s.l.row_idx@[s.l.find(i, jj)] == i);
        }
        assert forall|i: int| 0 <= i < n && has(i, jj) implies #[trigger] w@[i] == src(i, jj) by {
            assert(marker@[i] == j && w@[i] == src(i, jj));
        }
    }
}

impl<T: Scalar> Ic0<T> {
    /// The `L` factor.
    pub open spec fn l_model(&self) -> CscModel<T> {
        CscModel { pattern: self.symbolic.l, values: self.l_values@ }
    }

    pub open spec fn wf(&self) -> bool {
        &&& self.symbolic.wf()
        &&& self.l_values@.len() == self.symbolic.l.row_idx@.len()
        &&& self.workspace_w@.len() == self.symbolic.dim
        &&& marks_lower(self.symbolic.l, self.workspace_marker@)
    }

    /// The value buffer holds the incomplete Cholesky factor of the source
    /// values `a` on the factor's pattern.
    pub open spec fn factors(&self, a: spec_fn(int, int) -> T) -> bool {
        chol_cols_done(self.symbolic.l, a, self.l_values@, self.symbolic.dim as int)
    }

    /// The values of `a` have been loaded into the columns before `j`; the others
    /// are those of `before`.
    pub open spec fn loads(&self, a: spec_fn(int, int) -> T, before: Self, j: int) -> bool {
        &&& loaded(self.symbolic, a, self.l_values@, 0, j)
        &&& retained(self.symbolic.l, before.l_values@, self.l_values@, j)
    }

    /// The elimination of the source values `a` has stopped at the pivot of
    /// column `j`: the columns before it are done, the others hold what was
    /// loaded.
    pub open spec fn stops(&self, a: spec_fn(int, int) -> T, j: int) -> bool {
        &&& chol_cols_done(self.symbolic.l, a, self.l_values@, j)
        &&& loaded(self.symbolic, a, self.l_values@, j, self.symbolic.dim as int)
    }

    /// Allocate the value buffer and dense workspace for a given symbolic factor.
    ///
    /// The returned factor is *not* yet populated: call [`Ic0::refactorize`]
    /// to fill it with values from a matrix matching `symbolic`'s pattern.
    pub fn new_with_symbolic(symbolic: SymbolicIc0) -> (r: Self)
        requires
            symbolic.wf(),
        ensures
            r.wf(),
            r.symbolic == symbolic,
            forall|p: int| 0 <= p < r.l_values@.len() ==> #[trigger] r.l_values@[p] == T::null(),
    {
        let n: usize = symbolic.dim;
        let l_values: Vec<T> = zeros(symbolic.l_nnz());
        let workspace_w: Vec<T> = zeros(n);
        let workspace_marker: Vec<usize> = vec![usize::MAX; n];
        Ic0 { symbolic, l_values, workspace_w, workspace_marker }
    }

    /// Build a fully populated IC(0) factor from a Hermitian PD CSC matrix `A`.
    ///
    /// Only the lower triangle of `A` is consumed: values above the diagonal
    /// are ignored.
    pub fn try_new(a: CscRef<'_, T>) -> (r: Result<Self, Ic0Error>)
        requires
            a.wf(),
        ensures
            r is Ok <==> splittable(*a.pattern) && chol_pivots_ok(
                stored_lower(*a.pattern),
                entries(a),
                a.pattern.ncols as int,
            ),
            r matches Ok(f) ==> f.wf() && f.symbolic.describes(*a.pattern) && f.factors(
                entries(a),
            ),
            r matches Err(e) ==> match e {
                Ic0Error::NotPositiveDefinite { col } => {
                    let s = stored_lower(*a.pattern);
                    &&& splittable(*a.pattern)
                    &&& col < a.pattern.ncols
                    &&& chol_pivots_ok(s, entries(a), col as int)
                    &&& !T::Real::null().below(chol_pivot(s, entries(a), col as int))
                },
                Ic0Error::PatternMismatch => false,
                _ => exists|d: DiagError| #[trigger]
                    diag_error_of(*a.pattern, d) && e == ic0_error_of(d),
            },
    {
        let symbolic: SymbolicIc0 = match SymbolicIc0::try_new(a.pattern) {
            Ok(s) => s,
            Err(e) => {
                return Err(e);
            },
        };
        let mut me: Ic0<T> = Self::new_with_symbolic(symbolic);
        let ghost s = symbolic;
        proof {
            lemma_describes_matches(s, *a.pattern);
            law_zero_fill(s, *a.pattern);
        }
        let res: Result<(), Ic0Error> = me.refactorize(a);
        proof {
            lemma_source_is_entry(s, a);
            lemma_chol_agree(s.l, source(s, a), entries(a), s.dim as int);
        }
        match res {
            Ok(()) => {
                proof {
                    lemma_chol_done_agree(
                        s.l,
                        source(s, a),
                        entries(a),
                        me.l_values@,
                        s.dim as int,
                    );
                }
                Ok(me)
            },
            Err(e) => Err(e),
        }
    }

    /// Dimension `n` of the factored matrix.
    pub fn dim(&self) -> (r: usize)
        ensures
            r == self.symbolic.dim,
    {
        self.symbolic.dim
    }

    /// Borrow the symbolic factor.
    pub fn symbolic(&self) -> (r: &SymbolicIc0)
        ensures
            *r == self.symbolic,
    {
        &self.symbolic
    }

    /// Refactorise against a new matrix with the same sparsity pattern.
    ///
    /// Allocates nothing. `PatternMismatch` says that the shape, a column
    /// length or the position of a diagonal disagrees with the symbolic
    /// structure; `NotPositiveDefinite` names the first column whose pivot is
    /// not positive. Either leaves the columns partly overwritten.
    pub fn refactorize(&mut self, a: CscRef<'_, T>) -> (r: Result<(), Ic0Error>)
        requires
            old(self).wf(),
            a.wf(),
        ensures
            final(self).wf(),
            final(self).symbolic == old(self).symbolic,
            r is Ok <==> pattern_matches(old(self).symbolic, *a.pattern) && chol_pivots_ok(
                stored(old(self).symbolic.l),
                source(old(self).symbolic, a),
                old(self).symbolic.dim as int,
            ),
            r is Ok ==> final(self).factors(source(old(self).symbolic, a)),
            r matches Err(e) ==> match e {
                Ic0Error::PatternMismatch => {
                    let s = old(self).symbolic;
                    if a.pattern.nrows != s.dim || a.pattern.ncols != s.dim {
                        *final(self) == *old(self)
                    } else {
                        exists|j: int| #[trigger]
                            mismatch_at(s, *a.pattern, j) && final(self).loads(
                                source(s, a),
                                *old(self),
                                j,
                            )
                    }
                },
                Ic0Error::NotPositiveDefinite { col } => {
                    let s = stored(old(self).symbolic.l);
                    let src = source(old(self).symbolic, a);
                    &&& pattern_matches(old(self).symbolic, *a.pattern)
                    &&& col < old(self).symbolic.dim
                    &&& chol_pivots_ok(s, src, col as int)
                    &&& !T::Real::null().below(chol_pivot(s, src, col as int))
                    &&& final(self).stops(src, col as int)
                },
                _ => false,
            },
    {
        let n: usize = self.symbolic.dim;
        if a.pattern.nrows != n || a.pattern.ncols != n {
            return Err(Ic0Error::PatternMismatch);
        }
        let ghost s = self.symbolic;
        let ghost src = source(s, a);
        if !load_values(&self.symbolic, &mut self.l_values, a) {
            return Err(Ic0Error::PatternMismatch);
        }
        let mut j: usize = 0;
        while j < n
            invariant
                n == s.dim,
                self.symbolic == s,
                self.wf(),
                j <= n,
                pattern_matches(s, *a.pattern),
                src == source(s, a),
                loaded(s, src, self.l_values@, j as int, s.dim as int),
                chol_cols_done(s.l, src, self.l_values@, j as int),
                chol_pivots_ok(stored(s.l), src, j as int),
                s == old(self).symbolic,
            decreases n - j,
        {
            scatter_column(
                &self.symbolic,
                j,
                &self.l_values,
                &mut self.workspace_w,
                &mut self.workspace_marker,
                Ghost(src),
            );
            let ghost lv0 = self.l_values@;
            let ok: bool = eliminate_column(
                &self.symbolic,
                j,
                &mut self.workspace_w,
                &self.workspace_marker,
                &mut self.l_values,
                Ghost(src),
            );
            if !ok {
                assert(!chol_pivots_ok(stored(s.l), src, n as int));
                return Err(Ic0Error::NotPositiveDefinite { col: j });
            }
            proof {
                lemma_retained_past(s.l, lv0, lv0, self.l_values@, j as int);
            }
            j += 1;
        }
        Ok(())
    }

    /// View over the `L` factor (lower triangular, diagonal stored first in
    /// each column with the positive real pivot value).
    pub fn l_view(&self) -> (r: CscRef<'_, T>)
        ensures
            r@ == self.l_model(),
            self.wf() ==> r.wf(),
    {
        CscRef { pattern: &self.symbolic.l, values: self.l_values.as_slice() }
    }
}

pub proof fn lemma_describes_matches(s: SymbolicIc0, p: CscPattern)
    requires
        p.wf(),
        splittable(p),
        s.describes(p),
    ensures
        pattern_matches(s, p),
{
    assert forall|j: int| 0 <= j < s.dim implies #[trigger] column_matches(s, p, j) by {
        assert(tail_col(p, s.l, s.diag_pos@[j] as int, j));
        lemma_tail_col(p, s.l, s.diag_pos@, j);
        assert(p.start(j) + s.diag_pos@[j] < p.end(j));
    }
}

/// A matrix with the pattern that was analysed is read entry by entry.
pub proof fn lemma_source_is_entry<T>(s: SymbolicIc0, a: CscRef<'_, T>)
    requires
        a.wf(),
        splittable(*a.pattern),
        s.describes(*a.pattern),
    ensures
        forall|i: int, j: int| #[trigger]
            stored(s.l)(i, j) ==> source(s, a)(i, j) == entries(a)(i, j),
{
    let p = *a.pattern;
    assert forall|i: int, j: int| #[trigger] stored(s.l)(i, j) implies source(s, a)(i, j)
        == entries(a)(i, j) by {
        assert(tail_col(p, s.l, s.diag_pos@[j] as int, j));
        lemma_tail_col(p, s.l, s.diag_pos@, j);
        assert(diag_col_ok(p, j));
        assert(p.start(j) + s.diag_pos@[j] < p.end(j));
        s.l.lemma_find(i, j);
        let k = s.l.find(i, j) - s.l.start(j);
        assert(s.l.row_idx@[s.l.start(j) + k] == p.row_idx@[p.start(j) + s.diag_pos@[j] + k]);
        p.lemma_find_at(p.start(j) + s.diag_pos@[j] + k, j);
    }
}

/// Sources that agree on the pattern have the same pivots.
pub proof fn lemma_chol_agree<T: Scalar>(
    l: CscPattern,
    a: spec_fn(int, int) -> T,
    b: spec_fn(int, int) -> T,
    n: int,
)
    requires
        lower_ok(l, n),
        forall|i: int, j: int| #[trigger] stored(l)(i, j) ==> a(i, j) == b(i, j),
    ensures
        forall|k: int|
            #![trigger chol_pivot(stored(l), a, k)]
            #![trigger chol_pivot(stored(l), b, k)]
            0 <= k < n ==> chol_pivot(stored(l), a, k) == chol_pivot(stored(l), b, k),
{
    lemma_diag_stored(l, n);
    assert forall|k: int|
        #![trigger chol_pivot(stored(l), a, k)]
        #![trigger chol_pivot(stored(l), b, k)]
        0 <= k < n implies chol_pivot(stored(l), a, k) == chol_pivot(stored(l), b, k) by {
        assert(stored(l)(k, k));
        lemma_ic_agree(stored(l), a, b, n, k, k, k);
    }
}

/// Sources that agree on the pattern have the same factor.
pub proof fn lemma_chol_done_agree<T: Scalar>(
    l: CscPattern,
    a: spec_fn(int, int) -> T,
    b: spec_fn(int, int) -> T,
    lv: Seq<T>,
    n: int,
)
    requires
        lower_ok(l, n),
        forall|i: int, j: int| #[trigger] stored(l)(i, j) ==> a(i, j) == b(i, j),
        chol_cols_done(l, a, lv, n),
    ensures
        chol_cols_done(l, b, lv, n),
{
    lemma_diag_stored(l, n);
    lemma_chol_agree(l, a, b, n);
    let s = stored(l);
    assert forall|k: int| 0 <= k < n implies #[trigger] chol_col_done(l, b, lv, k) by {
        assert(chol_col_done(l, a, lv, k));
        assert(chol_pivot(s, a, k) == chol_pivot(s, b, k));
        assert forall|p: int| #[trigger] l.in_col(p, k) implies lv[p] == chol_entry(
            s,
            b,
            l.row_idx@[p] as int,
            k,
        ) by {
            lemma_lower_col(l, n, p, k);
            let i = l.row_idx@[p] as int;
            assert(l.has(i, k));
            assert(s(i, k));
            lemma_ic_agree(s, a, b, n, i, k, k);
        }
    }
}

/// The entry `(i, j)` of `l * l^H`, summed over the first `k` inner indices.
pub open spec fn gram_entry<T: Scalar>(l: CscModel<T>, i: int, j: int, k: int) -> T
    decreases k,
{
    if k <= 0 {
        T::null()
    } else {
        gram_entry(l, i, j, k - 1).plus(
            dense_entry(l, i, k - 1).times(dense_entry(l, j, k - 1).conjugate()),
        )
    }
}

/// In exact arithmetic, `L L^H` agrees with a Hermitian `A` at every stored
/// entry on or below the diagonal.
pub proof fn law_agrees_on_pattern<T: Scalar>(
    f: Ic0<T>,
    a: CscRef<'_, T>,
    i: int,
    j: int,
)
    requires
        exact_field::<T>(),
        exact_roots::<T>(),
        a.wf(),
        splittable(*a.pattern),
        chol_pivots_ok(stored_lower(*a.pattern), entries(a), a.pattern.ncols as int),
        f.wf(),
        f.symbolic.describes(*a.pattern),
        f.factors(entries(a)),
        is_real(a.entry(j, j)),
        stored_lower(*a.pattern)(i, j),
    ensures
        gram_entry(f.l_model(), i, j, a.pattern.ncols as int) == a.entry(i, j),
{
    let n = a.pattern.ncols as int;
    let lf = f.l_model();
    let s = stored(lf.pattern);
    let src = entries(a);
    law_zero_fill(f.symbolic, *a.pattern);
    lemma_partial_gram(lf, src, n, i, j, j);
    lemma_chol_dense(lf, src, n, i, j);
    lemma_chol_dense(lf, src, n, j, j);
    let x = ic_entry(s, src, i, j, j);
    let r = chol_pivot(s, src, j);
    let piv = T::embed(r.root());
    assert(T::Real::null().below(chol_pivot(s, src, j)));
    lemma_diag_stored(lf.pattern, n);
    assert(s(j, j));
    lemma_root_squares::<T>(r);
    lemma_embed_conjugate::<T>(r.root());
    let term = dense_entry(lf, i, j).times(dense_entry(lf, j, j).conjugate());
    if i == j {
        lemma_diag_real(s, src, j, j);
        assert(term == x);
    } else {
        lemma_times_associates(x, piv.reciprocal(), piv);
        lemma_reciprocal_inverts(piv);
        lemma_unit_is_neutral(x);
        assert(term == x);
    }
    let part = gram_entry(lf, i, j, j);
    lemma_plus_commutes(part, term);
    assert(gram_entry(lf, i, j, j + 1) == src(i, j));
    lemma_gram_tail(lf, n, i, j, j + 1, n);
}

/// What is left on the diagonal stays real.
proof fn lemma_diag_real<T: Scalar>(
    s: spec_fn(int, int) -> bool,
    a: spec_fn(int, int) -> T,
    j: int,
    k: int,
)
    requires
        exact_roots::<T>(),
        is_real(a(j, j)),
    ensures
        is_real(ic_entry(s, a, j, j, k)),
    decreases k,
{
    if k > 0 {
        let m = k - 1;
        lemma_diag_real(s, a, j, m);
        if m < j && s(j, m) {
            let pivot = T::embed(ic_entry(s, a, m, m, m).real_part().root());
            let l_jm = ic_entry(s, a, j, m, m).times(pivot.reciprocal());
            lemma_square_is_real(l_jm);
            lemma_minus_is_real(ic_entry(s, a, j, j, m), l_jm.times(l_jm.conjugate()));
        }
    }
}

/// What the stored factor holds at `(i, j)`.
pub proof fn lemma_chol_dense<T: Scalar>(
    l: CscModel<T>,
    a: spec_fn(int, int) -> T,
    n: int,
    i: int,
    j: int,
)
    requires
        lower_ok(l.pattern, n),
        chol_cols_done(l.pattern, a, l.values, n),
        0 <= i < n,
        0 <= j < n,
    ensures
        dense_entry(l, i, j) == if stored(l.pattern)(i, j) {
            chol_entry(stored(l.pattern), a, i, j)
        } else {
            T::null()
        },
        stored(l.pattern)(i, j) ==> i >= j,
{
    assert(chol_col_done(l.pattern, a, l.values, j));
    if l.pattern.has(i, j) {
        l.pattern.lemma_find(i, j);
        lemma_lower_col(l.pattern, n, l.pattern.find(i, j), j);
    }
}

proof fn lemma_partial_gram<T: Scalar>(
    l: CscModel<T>,
    a: spec_fn(int, int) -> T,
    n: int,
    i: int,
    j: int,
    k: int,
)
    requires
        exact_field::<T>(),
        exact_roots::<T>(),
        lower_ok(l.pattern, n),
        chol_cols_done(l.pattern, a, l.values, n),
        0 <= j <= i < n,
        0 <= k <= j,
    ensures
        ic_entry(stored(l.pattern), a, i, j, k).plus(gram_entry(l, i, j, k)) == a(i, j),
    decreases k,
{
    let s = stored(l.pattern);
    if k <= 0 {
        lemma_null_is_neutral(a(i, j));
    } else {
        let m = k - 1;
        lemma_partial_gram(l, a, n, i, j, m);
        lemma_chol_dense(l, a, n, i, m);
        lemma_chol_dense(l, a, n, j, m);
        let before = ic_entry(s, a, i, j, m);
        let part = gram_entry(l, i, j, m);
        let term = dense_entry(l, i, m).times(dense_entry(l, j, m).conjugate());
        if s(i, m) && s(j, m) {
            let after = ic_entry(s, a, i, j, k);
            assert(after == before.minus(term));
            lemma_minus_undoes_plus(before, term);
            lemma_plus_commutes(part, term);
            lemma_plus_associates(after, term, part);
        } else {
            lemma_null_conjugate::<T>();
            lemma_times_commutes(dense_entry(l, i, m), dense_entry(l, j, m).conjugate());
            lemma_null_absorbs(dense_entry(l, i, m));
            lemma_null_absorbs(dense_entry(l, j, m).conjugate());
            lemma_null_is_neutral(part);
        }
    }
}

proof fn lemma_gram_tail<T: Scalar>(l: CscModel<T>, n: int, i: int, j: int, k: int, m: int)
    requires
        exact_field::<T>(),
        exact_roots::<T>(),
        lower_ok(l.pattern, n),
        0 <= i < n,
        0 <= j < k <= m <= n,
    ensures
        gram_entry(l, i, j, m) == gram_entry(l, i, j, k),
    decreases m,
{
    if k < m {
        lemma_gram_tail(l, n, i, j, k, m - 1);
        let q = m - 1;
        if l.pattern.has(j, q) {
            l.pattern.lemma_find(j, q);
            lemma_lower_col(l.pattern, n, l.pattern.find(j, q), q);
        }
        lemma_null_conjugate::<T>();
        lemma_null_absorbs(dense_entry(l, i, q));
        lemma_null_is_neutral(gram_entry(l, i, j, q));
    }
}

} // verus!
