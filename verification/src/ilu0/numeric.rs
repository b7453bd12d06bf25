//! Numeric ILU(0) factorisation.
use vstd::prelude::*;

use super::symbolic::{ilu0_error_of, law_zero_fill, splits_col, SymbolicIlu0};
use super::Ilu0Error;
use crate::lu::{
    eliminate_column, law_product_on_pattern, lemma_done_agree, lemma_lower_col,
    lemma_pivots_agree, lemma_upper_col, lu_cols_done, lu_has, marks_pattern, pivots_ok,
    product_entry, u_col_done, upper_entry,
};
use crate::scalar::{exact_field, vanishes, zeros, Scalar};
use crate::sparse::{
    entries, lemma_retained_past, retained, stored, CscModel, CscPattern, CscRef,
};
use crate::util::diag_split::{diag_col_ok, diag_error_of, splittable, DiagError};

verus! {

/// Numeric ILU(0) factor of a CSC matrix `A`.
///
/// Holds the `L` and `U` value buffers together with the symbolic structure
/// and the dense workspace used during refactorisation.
#[derive(Debug, Clone)]
pub struct Ilu0<T> {
    pub symbolic: SymbolicIlu0,
    pub l_values: Vec<T>,
    pub u_values: Vec<T>,
    pub workspace_w: Vec<T>,
    pub workspace_marker: Vec<usize>,
}

/// Column `j` of `p` has the length and the diagonal position that `s` expects.
pub open spec fn column_matches(s: SymbolicIlu0, p: CscPattern, j: int) -> bool {
    let d = s.diag_pos@[j] as int;
    &&& p.start(j) + d < p.end(j)
    &&& p.row_idx@[p.start(j) + d] == j
    &&& p.end(j) - p.start(j) - d == s.l.end(j) - s.l.start(j)
}

/// A matrix with pattern `p` can be refactorised into `s`.
pub open spec fn pattern_matches(s: SymbolicIlu0, p: CscPattern) -> bool {
    &&& p.nrows == s.dim
    &&& p.ncols == s.dim
    &&& forall|j: int| 0 <= j < s.dim ==> #[trigger] column_matches(s, p, j)
}

/// The values of `a` laid over the pattern of the factor `s`: values are taken
/// by their position within the column.
pub open spec fn source<T>(s: SymbolicIlu0, a: CscRef<'_, T>) -> spec_fn(int, int) -> T {
    |i: int, j: int|
        if i <= j {
            a.values@[a.pattern.start(j) + s.u.find(i, j) - s.u.start(j)]
        } else {
            a.values@[a.pattern.start(j) + s.diag_pos@[j] + s.l.find(i, j) - s.l.start(j)]
        }
}

/// The columns `j..m` of `L` hold the values of `a` below a unit diagonal.
pub open spec fn lower_loaded<T: Scalar>(
    s: SymbolicIlu0,
    a: spec_fn(int, int) -> T,
    lv: Seq<T>,
    j: int,
    m: int,
) -> bool {
    forall|k: int, p: int|
        j <= k < m && #[trigger] s.l.in_col(p, k) ==> lv[p] == if p == s.l.start(k) {
            T::unit()
        } else {
            a(s.l.row_idx@[p] as int, k)
        }
}

/// The columns `j..m` of `U` hold the values of `a`.
pub open spec fn upper_loaded<T: Scalar>(
    s: SymbolicIlu0,
    a: spec_fn(int, int) -> T,
    uv: Seq<T>,
    j: int,
    m: int,
) -> bool {
    forall|k: int, p: int|
        j <= k < m && #[trigger] s.u.in_col(p, k) ==> uv[p] == a(s.u.row_idx@[p] as int, k)
}

/// The columns from `j` on hold the values of `a`.
spec fn loaded<T: Scalar>(
    s: SymbolicIlu0,
    a: spec_fn(int, int) -> T,
    lv: Seq<T>,
    uv: Seq<T>,
    j: int,
) -> bool {
    lower_loaded(s, a, lv, j, s.dim as int) && upper_loaded(s, a, uv, j, s.dim as int)
}

/// Column `j` is the first that does not match.
pub open spec fn mismatch_at(s: SymbolicIlu0, p: CscPattern, j: int) -> bool {
    &&& 0 <= j < s.dim
    &&& !column_matches(s, p, j)
    &&& forall|k: int| 0 <= k < j ==> #[trigger] column_matches(s, p, k)
}

impl<T: Scalar> Ilu0<T> {
    /// The `L` factor.
    pub open spec fn l_model(&self) -> CscModel<T> {
        CscModel { pattern: self.symbolic.l, values: self.l_values@ }
    }

    /// The `U` factor.
    pub open spec fn u_model(&self) -> CscModel<T> {
        CscModel { pattern: self.symbolic.u, values: self.u_values@ }
    }

    pub open spec fn wf(&self) -> bool {
        &&& self.symbolic.wf()
        &&& self.l_values@.len() == self.symbolic.l.row_idx@.len()
        &&& self.u_values@.len() == self.symbolic.u.row_idx@.len()
        &&& self.workspace_w@.len() == self.symbolic.dim
        &&& marks_pattern(self.symbolic.l, self.symbolic.u, self.workspace_marker@)
    }

    /// The value buffers hold the incomplete factors of the source values `a`
    /// on the factor's pattern.
    pub open spec fn factors(&self, a: spec_fn(int, int) -> T) -> bool {
        lu_cols_done(
            self.symbolic.l,
            self.symbolic.u,
            a,
            self.l_values@,
            self.u_values@,
            self.symbolic.dim as int,
        )
    }

    /// The values of `a` have been loaded into the columns before `j`; the others
    /// are those of `before`.
    pub open spec fn loads(&self, a: spec_fn(int, int) -> T, before: Self, j: int) -> bool {
        &&& lower_loaded(self.symbolic, a, self.l_values@, 0, j)
        &&& upper_loaded(self.symbolic, a, self.u_values@, 0, j)
        &&& retained(self.symbolic.l, before.l_values@, self.l_values@, j)
        &&& retained(self.symbolic.u, before.u_values@, self.u_values@, j)
    }

    /// The elimination of the source values `a` has stopped at the pivot of
    /// column `j`: the columns before it are done, and so is its column of `U`;
    /// the others hold what was loaded.
    pub open spec fn stops(&self, a: spec_fn(int, int) -> T, j: int) -> bool {
        let s = self.symbolic;
        &&& lu_cols_done(s.l, s.u, a, self.l_values@, self.u_values@, j)
        &&& u_col_done(s.l, s.u, a, self.u_values@, j)
        &&& lower_loaded(s, a, self.l_values@, j, s.dim as int)
        &&& upper_loaded(s, a, self.u_values@, j + 1, s.dim as int)
    }

    /// Allocate the value buffers and dense workspace for a given symbolic factor.
    ///
    /// The returned factor is *not* yet populated: call [`Ilu0::refactorize`]
    /// to fill it with values from a matrix matching `symbolic`'s pattern.
    pub fn new_with_symbolic(symbolic: SymbolicIlu0) -> (r: Self)
        requires
            symbolic.wf(),
        ensures
            r.wf(),
            r.symbolic == symbolic,
            forall|p: int| 0 <= p < r.l_values@.len() ==> #[trigger] r.l_values@[p] == T::null(),
            forall|p: int| 0 <= p < r.u_values@.len() ==> #[trigger] r.u_values@[p] == T::null(),
    {
        let n: usize = symbolic.dim;
        let l_values: Vec<T> = zeros(symbolic.l_nnz());
        let u_values: Vec<T> = zeros(symbolic.u_nnz());
        let workspace_w: Vec<T> = zeros(n);
        let workspace_marker: Vec<usize> = vec![usize::MAX; n];
        Ilu0 { symbolic, l_values, u_values, workspace_w, workspace_marker }
    }

    /// Build a fully populated ILU(0) factor from a CSC matrix `A` in one shot.
    pub fn try_new(a: CscRef<'_, T>) -> (r: Result<Self, Ilu0Error>)
        requires
            a.wf(),
        ensures
            r is Ok <==> splittable(*a.pattern) && pivots_ok(
                stored(*a.pattern),
                entries(a),
                a.pattern.ncols as int,
            ),
            r matches Ok(f) ==> f.wf() && f.symbolic.describes(*a.pattern) && f.factors(
                entries(a),
            ),
            r matches Err(e) ==> match e {
                Ilu0Error::ZeroPivot { col } => {
                    &&& splittable(*a.pattern)
                    &&& col < a.pattern.ncols
                    &&& pivots_ok(stored(*a.pattern), entries(a), col as int)
                    &&& vanishes(
                        upper_entry(stored(*a.pattern), entries(a), col as int, col as int),
                    )
                },
                Ilu0Error::PatternMismatch => false,
                _ => exists|d: DiagError| #[trigger]
                    diag_error_of(*a.pattern, d) && e == ilu0_error_of(d),
            },
    {
        let symbolic: SymbolicIlu0 = match SymbolicIlu0::try_new(a.pattern) {
            Ok(s) => s,
            Err(e) => {
                return Err(e);
            },
        };
        let mut me: Ilu0<T> = Self::new_with_symbolic(symbolic);
        let ghost s = symbolic;
        proof {
            lemma_describes_matches(s, *a.pattern);
            law_zero_fill(s, *a.pattern);
        }
        let res: Result<(), Ilu0Error> = me.refactorize(a);
        proof {
            lemma_source_is_entry(s, a);
            lemma_pivots_agree(s.l, s.u, source(s, a), entries(a), s.dim as int);
        }
        match res {
            Ok(()) => {
                proof {
                    lemma_done_agree(
                        s.l,
                        s.u,
                        source(s, a),
                        entries(a),
                        me.l_values@,
                        me.u_values@,
                        s.dim as int,
                    );
                }
                Ok(me)
            },
            Err(e) => Err(e),
        }
    }

    /// Dimension `n` of the factored matrix.
    pub fn dim(&self) -> (r: usize)
        ensures
            r == self.symbolic.dim,
    {
        self.symbolic.dim
    }

    /// Borrow the symbolic factor.
    pub fn symbolic(&self) -> (r: &SymbolicIlu0)
        ensures
            *r == self.symbolic,
    {
        &self.symbolic
    }

    /// Refactorise against a new matrix with the same sparsity pattern.
    ///
    /// Allocates nothing. `PatternMismatch` says that the shape, a column
    /// length or the position of a diagonal disagrees with the symbolic
    /// structure; `ZeroPivot` names the first column whose pivot vanishes. Either
    /// leaves the columns partly overwritten.
    pub fn refactorize(&mut self, a: CscRef<'_, T>) -> (r: Result<(), Ilu0Error>)
        requires
            old(self).wf(),
            a.wf(),
        ensures
            final(self).wf(),
            final(self).symbolic == old(self).symbolic,
            r is Ok <==> pattern_matches(old(self).symbolic, *a.pattern) && pivots_ok(
                lu_has(old(self).symbolic.l, old(self).symbolic.u),
                source(old(self).symbolic, a),
                old(self).symbolic.dim as int,
            ),
            r is Ok ==> final(self).factors(source(old(self).symbolic, a)),
            r matches Err(e) ==> match e {
                Ilu0Error::PatternMismatch => {
                    let s = old(self).symbolic;
                    if a.pattern.nrows != s.dim || a.pattern.ncols != s.dim {
                        *final(self) == *old(self)
                    } else {
                        exists|j: int| #[trigger]
                            mismatch_at(s, *a.pattern, j) && final(self).loads(
                                source(s, a),
                                *old(self),
                                j,
                            )
                    }
                },
                Ilu0Error::ZeroPivot { col } => {
                    let s = lu_has(old(self).symbolic.l, old(self).symbolic.u);
                    let src = source(old(self).symbolic, a);
                    &&& pattern_matches(old(self).symbolic, *a.pattern)
                    &&& col < old(self).symbolic.dim
                    &&& pivots_ok(s, src, col as int)
                    &&& vanishes(upper_entry(s, src, col as int, col as int))
                    &&& final(self).stops(src, col as int)
                },
                _ => false,
            },
    {
        let n: usize = self.symbolic.dim;
        if a.pattern.nrows != n || a.pattern.ncols != n {
            return Err(Ilu0Error::PatternMismatch);
        }
        let ghost s = self.symbolic;
        let ghost src = source(s, a);
        if !load_values(&self.symbolic, &mut self.l_values, &mut self.u_values, a) {
            return Err(Ilu0Error::PatternMismatch);
        }
        let mut j: usize = 0;
        while j < n
            invariant
                n == s.dim,
                self.symbolic == s,
                self.wf(),
                j <= n,
                pattern_matches(s, *a.pattern),
                src == source(s, a),
                loaded(s, src, self.l_values@, self.u_values@, j as int),
                lu_cols_done(s.l, s.u, src, self.l_values@, self.u_values@, j as int),
                pivots_ok(lu_has(s.l, s.u), src, j as int),
                s == old(self).symbolic,
            decreases n - j,
        {
            scatter_column(
                &self.symbolic,
                j,
                &self.l_values,
                &self.u_values,
                &mut self.workspace_w,
                &mut self.workspace_marker,
                Ghost(src),
            );
            let ghost lv0 = self.l_values@;
            let ghost uv0 = self.u_values@;
            let ok: bool = eliminate_column(
                &self.symbolic.l,
                &self.symbolic.u,
                j,
                &mut self.workspace_w,
                &self.workspace_marker,
                &mut self.l_values,
                &mut self.u_values,
                Ghost(src),
            );
            proof {
                assert forall|k: int, p: int|
                    j + 1 <= k < s.dim && #[trigger] s.u.in_col(p, k) implies self.u_values@[p] == src(
                    s.u.row_idx@[p] as int,
                    k,
                ) by {
                    if s.u.in_col(p, j as int) {
                        s.u.lemma_col_unique(p, j as int, k);
                    }
                    s.u.lemma_col_bounds(k);
                    assert(uv0[p] == src(s.u.row_idx@[p] as int, k));
                }
            }
            if !ok {
                assert(!pivots_ok(lu_has(s.l, s.u), src, n as int));
                return Err(Ilu0Error::ZeroPivot { col: j });
            }
            proof {
                lemma_retained_past(s.l, lv0, lv0, self.l_values@, j as int);
            }
            j += 1;
        }
        Ok(())
    }

    /// View over the `L` factor (unit lower triangular, diagonal stored first
    /// in each column with value one).
    pub fn l_view(&self) -> (r: CscRef<'_, T>)
        ensures
            r@ == self.l_model(),
            self.wf() ==> r.wf(),
    {
        CscRef { pattern: &self.symbolic.l, values: self.l_values.as_slice() }
    }

    /// View over the `U` factor (upper triangular, diagonal stored last in
    /// each column).
    pub fn u_view(&self) -> (r: CscRef<'_, T>)
        ensures
            r@ == self.u_model(),
            self.wf() ==> r.wf(),
    {
        CscRef { pattern: &self.symbolic.u, values: self.u_values.as_slice() }
    }
}

/// Copies the values of `a` into the slots of both factors. Returns whether
/// every column matches.
fn load_values<T: Scalar>(
    s: &SymbolicIlu0,
    lv: &mut Vec<T>,
    uv: &mut Vec<T>,
    a: CscRef<'_, T>,
) -> (ok: bool)
    requires
        s.wf(),
        a.wf(),
        a.pattern.nrows == s.dim,
        a.pattern.ncols == s.dim,
        old(lv)@.len() == s.l.row_idx@.len(),
        old(uv)@.len() == s.u.row_idx@.len(),
    ensures
        final(lv)@.len() == old(lv)@.len(),
        final(uv)@.len() == old(uv)@.len(),
        ok <==> pattern_matches(*s, *a.pattern),
        ok ==> loaded(*s, source(*s, a), final(lv)@, final(uv)@, 0),
        !ok ==> exists|j: int| #[trigger]
            mismatch_at(*s, *a.pattern, j) && lower_loaded(*s, source(*s, a), final(lv)@, 0, j)
                && upper_loaded(*s, source(*s, a), final(uv)@, 0, j) && retained(
                s.l,
                old(lv)@,
                final(lv)@,
                j,
            ) && retained(s.u, old(uv)@, final(uv)@, j),
{
    let n: usize = s.dim;
    let ghost src = source(*s, a);
    let mut j: usize = 0;
    while j < n
        invariant
            n == s.dim,
            s.wf(),
            a.wf(),
            a.pattern.nrows == n,
            a.pattern.ncols == n,
            src == source(*s, a),
            j <= n,
            lv@.len() == s.l.row_idx@.len(),
            uv@.len() == s.u.row_idx@.len(),
            lv@.len() == old(lv)@.len(),
            uv@.len() == old(uv)@.len(),
            forall|k: int| 0 <= k < j ==> #[trigger] column_matches(*s, *a.pattern, k),
            lower_loaded(*s, src, lv@, 0, j as int),
            upper_loaded(*s, src, uv@, 0, j as int),
            retained(s.l, old(lv)@, lv@, j as int),
            retained(s.u, old(uv)@, uv@, j as int),
        decreases n - j,
    {
        let ghost jj = j as int;
        let a_start: usize = a.pattern.col_ptr[j];
        let a_end: usize = a.pattern.col_ptr[j + 1];
        let d: usize = s.diag_pos[j];
        let l_start: usize = s.l.col_ptr[j];
        let l_end: usize = s.l.col_ptr[j + 1];
        let u_start: usize = s.u.col_ptr[j];
        proof {
            a.pattern.lemma_col_bounds(jj);
            s.l.lemma_col_bounds(jj);
            s.u.lemma_col_bounds(jj);
            assert(s.u.end(jj) - s.u.start(jj) == s.diag_pos@[jj] + 1);
            assert(s.l.start(jj) < s.l.end(jj));
        }
        if d >= a_end - a_start || a.pattern.row_idx[a_start + d] != j || l_end - l_start != a_end
            - a_start - d {
            assert(mismatch_at(*s, *a.pattern, jj));
            return false;
        }
        let ghost uv0 = uv@;
        let ghost lv0 = lv@;
        let mut k: usize = 0;
        while k <= d
            invariant
                jj == j,
                j < n,
                n == s.dim,
                s.wf(),
                a.wf(),
                src == source(*s, a),
                a_start == a.pattern.start(jj),
                a_start + d < a_end <= a.values@.len(),
                u_start == s.u.start(jj),
                u_start + d + 1 == s.u.end(jj),
                s.u.end(jj) <= s.u.row_idx@.len(),
                k <= d + 1,
                uv@.len() == s.u.row_idx@.len(),
                forall|p: int| 0 <= p < uv@.len() && !s.u.in_col(p, jj) ==> #[trigger] uv@[p] == uv0[p],
                forall|p: int|
                    u_start <= p < u_start + k ==> #[trigger] uv@[p] == src(
                        s.u.row_idx@[p] as int,
                        jj,
                    ),
            decreases d + 1 - k,
        {
            proof {
                assert(s.u.in_col(u_start + k, jj));
                lemma_upper_col(s.u, n as int, u_start + k, jj);
                assert(s.u.sorted_col(jj));
                s.u.lemma_find_at(u_start + k, jj);
            }
            let x: T = a.values[a_start + k].copy();
            uv.set(u_start + k, x);
            k += 1;
        }
        lv.set(l_start, T::one());
        let len: usize = l_end - l_start;
        let mut k: usize = 1;
        while k < len
            invariant
                jj == j,
                j < n,
                n == s.dim,
                s.wf(),
                a.wf(),
                src == source(*s, a),
                d == s.diag_pos@[jj],
                a_start == a.pattern.start(jj),
                a_start + d + len <= a.values@.len(),
                l_start == s.l.start(jj),
                l_start + len == s.l.end(jj),
                s.l.end(jj) <= s.l.row_idx@.len(),
                1 <= k <= len,
                lv@.len() == s.l.row_idx@.len(),
                forall|p: int| 0 <= p < lv@.len() && !s.l.in_col(p, jj) ==> #[trigger] lv@[p] == lv0[p],
                lv@[l_start as int] == T::unit(),
                forall|p: int|
                    l_start < p < l_start + k ==> #[trigger] lv@[p] == src(
                        s.l.row_idx@[p] as int,
                        jj,
                    ),
            decreases len - k,
        {
            proof {
                assert(s.l.in_col(l_start + k, jj));
                lemma_lower_col(s.l, n as int, l_start + k, jj);
                assert(s.l.sorted_col(jj));
                s.l.lemma_find_at(l_start + k, jj);
            }
            let x: T = a.values[a_start + d + k].copy();
            lv.set(l_start + k, x);
            k += 1;
        }
        proof {
            assert(column_matches(*s, *a.pattern, jj));
            assert forall|k: int, p: int|
                0 <= k < j + 1 && #[trigger] s.u.in_col(p, k) implies uv@[p] == src(
                s.u.row_idx@[p] as int,
                k,
            ) by {
                s.u.lemma_col_bounds(k);
                if k < j {
                    if s.u.in_col(p, jj) {
                        s.u.lemma_col_unique(p, jj, k);
                    }
                    assert(uv0[p] == src(s.u.row_idx@[p] as int, k));
                }
            }
            assert forall|k: int, p: int|
                0 <= k < j + 1 && #[trigger] s.l.in_col(p, k) implies lv@[p] == if p == s.l.start(
                k,
            ) {
                T::unit()
            } else {
                src(s.l.row_idx@[p] as int, k)
            } by {
                s.l.lemma_col_bounds(k);
                if k < j {
                    if s.l.in_col(p, jj) {
                        s.l.lemma_col_unique(p, jj, k);
                    }
                    assert(lv@[p] == lv0[p]);
                }
            }
            lemma_retained_past(s.l, old(lv)@, lv0, lv@, jj);
            lemma_retained_past(s.u, old(uv)@, uv0, uv@, jj);
        }
        j += 1;
    }
    true
}

/// Spreads column `j` of both factors over the dense workspace and marks the
/// rows of its pattern.
fn scatter_column<T: Scalar>(
    s: &SymbolicIlu0,
    j: usize,
    lv: &Vec<T>,
    uv: &Vec<T>,
    w: &mut Vec<T>,
    marker: &mut Vec<usize>,
    Ghost(src): Ghost<spec_fn(int, int) -> T>,
)
    requires
        s.wf(),
        j < s.dim,
        lv@.len() == s.l.row_idx@.len(),
        uv@.len() == s.u.row_idx@.len(),
        old(w)@.len() == s.dim,
        marks_pattern(s.l, s.u, old(marker)@),
        loaded(*s, src, lv@, uv@, j as int),
    ensures
        final(w)@.len() == s.dim,
        marks_pattern(s.l, s.u, final(marker)@),
        forall|i: int|
            0 <= i < s.dim ==> (#[trigger] final(marker)@[i] == j <==> lu_has(s.l, s.u)(
                i,
                j as int,
            )),
        forall|i: int|
            0 <= i < s.dim && lu_has(s.l, s.u)(i, j as int) ==> #[trigger] final(w)@[i] == src(
                i,
                j as int,
            ),
{
    let ghost n = s.dim as int;
    let ghost jj = j as int;
    let ghost has = lu_has(s.l, s.u);
    let us: usize = s.u.col_ptr[j];
    let ue: usize = s.u.col_ptr[j + 1];
    let ls: usize = s.l.col_ptr[j];
    let le: usize = s.l.col_ptr[j + 1];
    proof {
        s.u.lemma_col_bounds(jj);
        s.l.lemma_col_bounds(jj);
        assert(s.l.start(jj) < s.l.end(jj));
    }
    let mut k: usize = us;
    while k < ue
        invariant
            n == s.dim,
            jj == j,
            j < s.dim,
            s.wf(),
            has == lu_has(s.l, s.u),
            us == s.u.start(jj),
            ue == s.u.end(jj),
            us <= k <= ue <= s.u.row_idx@.len(),
            uv@.len() == s.u.row_idx@.len(),
            loaded(*s, src, lv@, uv@, jj),
            w@.len() == n,
            marks_pattern(s.l, s.u, marker@),
            forall|p: int| us <= p < k ==> marker@[#[trigger] s.u.row_idx@[p] as int] == j,
            forall|p: int|
                us <= p < k ==> w@[#[trigger] s.u.row_idx@[p] as int] == src(
                    s.u.row_idx@[p] as int,
                    jj,
                ),
        decreases ue - k,
    {
        let i: usize = s.u.row_idx[k];
        proof {
            assert(s.u.in_col(k as int, jj));
            lemma_upper_col(s.u, n, k as int, jj);
            assert(s.u.has(i as int, jj));
            assert(has(i as int, jj));
            assert(s.u.sorted_col(jj));
        }
        marker.set(i, j);
        let x: T = uv[k].copy();
        w.set(i, x);
        k += 1;
    }
    let ghost w1 = w@;
    let mut k: usize = ls + 1;
    while k < le
        invariant
            n == s.dim,
            jj == j,
            j < s.dim,
            s.wf(),
            has == lu_has(s.l, s.u),
            us == s.u.start(jj),
            ue == s.u.end(jj),
            ls == s.l.start(jj),
            le == s.l.end(jj),
            ls + 1 <= k <= le <= s.l.row_idx@.len(),
            lv@.len() == s.l.row_idx@.len(),
            loaded(*s, src, lv@, uv@, jj),
            w@.len() == n,
            marks_pattern(s.l, s.u, marker@),
            forall|p: int| us <= p < ue ==> marker@[#[trigger] s.u.row_idx@[p] as int] == j,
            forall|p: int|
                us <= p < ue ==> w@[#[trigger] s.u.row_idx@[p] as int] == src(
                    s.u.row_idx@[p] as int,
                    jj,
                ),
            forall|p: int| ls < p < k ==> marker@[#[trigger] s.l.row_idx@[p] as int] == j,
            forall|p: int|
                ls < p < k ==> w@[#[trigger] s.l.row_idx@[p] as int] == src(
                    s.l.row_idx@[p] as int,
                    jj,
                ),
        decreases le - k,
    {
        let i: usize = s.l.row_idx[k];
        proof {
            assert(s.l.in_col(k as int, jj));
            lemma_lower_col(s.l, n, k as int, jj);
            assert(s.l.has(i as int, jj));
            assert(has(i as int, jj));
            assert(s.l.sorted_col(jj));
            assert forall|p: int| us <= p < ue implies #[trigger] s.u.row_idx@[p] != i by {
                assert(s.u.in_col(p, jj));
                lemma_upper_col(s.u, n, p, jj);
            }
        }
        marker.set(i, j);
        let x: T = lv[k].copy();
        w.set(i, x);
        k += 1;
    }
    proof {
        assert forall|i: int| 0 <= i < n && has(i, jj) implies #[trigger] marker@[i] == j && w@[i]
            == src(i, jj) by {
            if i <= jj {
                s.u.lemma_find(i, jj);
                assert(s.u.row_idx@[s.u.find(i, jj)] == i);
            } else {
                s.l.lemma_find(i, jj);
                let p = s.l.find(i, jj);
                lemma_lower_col(s.l, n, p, jj);
                assert(s.l.row_idx@[p] == i);
            }
        }
        assert forall|i: int| 0 <= i < n && has(i, jj) implies #[trigger] w@[i] == src(i, jj) by {
            assert(marker@[i] == j && w@[i] == src(i, jj));
        }
    }
}

/// A pattern that was analysed matches its analysis.
pub proof fn lemma_describes_matches(s: SymbolicIlu0, p: CscPattern)
    requires
        p.wf(),
        splittable(p),
        s.describes(p),
    ensures
        pattern_matches(s, p),
{
    assert forall|j: int| 0 <= j < s.dim implies #[trigger] column_matches(s, p, j) by {
        assert(splits_col(p, s.l, s.u, s.diag_pos@[j] as int, j));
        p.lemma_col_bounds(j);
        s.l.lemma_col_bounds(j);
        assert(p.start(j) + s.diag_pos@[j] < p.end(j));
        assert(s.l.col(j).len() == p.col(j).len() - s.diag_pos@[j]);
    }
}

/// A matrix with the pattern that was analysed is read entry by entry.
pub proof fn lemma_source_is_entry<T>(s: SymbolicIlu0, a: CscRef<'_, T>)
    requires
        a.wf(),
        splittable(*a.pattern),
        s.describes(*a.pattern),
    ensures
        forall|i: int, j: int| #[trigger]
            lu_has(s.l, s.u)(i, j) ==> source(s, a)(i, j) == entries(a)(i, j),
{
    let p = *a.pattern;
    assert forall|i: int, j: int| #[trigger] lu_has(s.l, s.u)(i, j) implies source(s, a)(i, j)
        == entries(a)(i, j) by {
        let d = s.diag_pos@[j] as int;
        assert(splits_col(p, s.l, s.u, d, j));
        assert(diag_col_ok(p, j));
        p.lemma_col_bounds(j);
        s.l.lemma_col_bounds(j);
        s.u.lemma_col_bounds(j);
        assert(p.start(j) + s.diag_pos@[j] < p.end(j));
        if i <= j {
            s.u.lemma_find(i, j);
            let k = s.u.find(i, j) - s.u.start(j);
            assert(s.u.col(j)[k] == p.col(j)[k]);
            p.lemma_find_at(p.start(j) + k, j);
        } else {
            s.l.lemma_find(i, j);
            let k = s.l.find(i, j) - s.l.start(j);
            assert(s.l.col(j).len() == p.col(j).len() - d);
            assert(s.l.col(j)[k] == p.col(j)[d + k]);
            p.lemma_find_at(p.start(j) + d + k, j);
        }
    }
}

/// In exact arithmetic, `L * U` agrees with `A` at every entry in its pattern.
pub proof fn law_agrees_on_pattern<T: Scalar>(
    f: Ilu0<T>,
    a: CscRef<'_, T>,
    i: int,
    j: int,
)
    requires
        exact_field::<T>(),
        a.wf(),
        splittable(*a.pattern),
        pivots_ok(stored(*a.pattern), entries(a), a.pattern.ncols as int),
        f.wf(),
        f.symbolic.describes(*a.pattern),
        f.factors(entries(a)),
        stored(*a.pattern)(i, j),
    ensures
        product_entry(f.l_model(), f.u_model(), i, j, a.pattern.ncols as int) == a.entry(i, j),
{
    law_zero_fill(f.symbolic, *a.pattern);
    law_product_on_pattern(f.l_model(), f.u_model(), entries(a), a.pattern.ncols as int, i, j);
}

} // verus!
