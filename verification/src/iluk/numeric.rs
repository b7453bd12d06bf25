//! Numeric ILU(k) factorisation.
//!
//! The elimination is that of ILU(0), on the larger level-of-fill pattern.
//! `A`'s values are laid over the `L` and `U` slots, fill positions starting at
//! zero.
use vstd::prelude::*;

use super::symbolic::{iluk_error_of, kept, law_level_zero_pattern, SymbolicIluk};
use super::IlukError;
use crate::ilu0::Ilu0;
use crate::lu::{
    dense_entry, eliminate_column, law_product_on_pattern, lemma_diag_in_pattern, lemma_done_agree,
    lemma_factor_entries, lemma_lower_col, lemma_pivots_agree, lemma_upper_col, lu_cols_done,
    lu_has, marks_pattern, pivots_ok, product_entry, u_col_done, upper_entry,
};
use crate::overlay::{dense, lemma_overlay_is_dense, overlaid, overlay};
use crate::scalar::{exact_field, vanishes, zeros, Scalar};
use crate::sparse::{
    entries, lemma_retained_past, retained, stored, CscModel, CscPattern, CscRef,
};
use crate::util::diag_split::{diag_col_ok, diag_error_of, splittable, DiagError};

verus! {

/// Numeric ILU(k) factor of a CSC matrix `A`.
///
/// Holds the `L` and `U` value buffers, the symbolic structure and the dense
/// workspace used during refactorisation.
#[derive(Debug, Clone)]
pub struct Iluk<T> {
    pub symbolic: SymbolicIluk,
    pub l_values: Vec<T>,
    pub u_values: Vec<T>,
    pub workspace_w: Vec<T>,
    pub workspace_marker: Vec<usize>,
}

impl<T: Scalar> Iluk<T> {
    /// The `L` factor.
    pub open spec fn l_model(&self) -> CscModel<T> {
        CscModel { pattern: self.symbolic.l, values: self.l_values@ }
    }

    /// The `U` factor.
    pub open spec fn u_model(&self) -> CscModel<T> {
        CscModel { pattern: self.symbolic.u, values: self.u_values@ }
    }

    pub open spec fn wf(&self) -> bool {
        &&& self.symbolic.wf()
        &&& self.l_values@.len() == self.symbolic.l.row_idx@.len()
        &&& self.u_values@.len() == self.symbolic.u.row_idx@.len()
        &&& self.workspace_w@.len() == self.symbolic.dim
        &&& marks_pattern(self.symbolic.l, self.symbolic.u, self.workspace_marker@)
    }

    /// The value buffers hold the incomplete factors of the source values `a`
    /// on the factor's pattern.
    pub open spec fn factors(&self, a: spec_fn(int, int) -> T) -> bool {
        lu_cols_done(
            self.symbolic.l,
            self.symbolic.u,
            a,
            self.l_values@,
            self.u_values@,
            self.symbolic.dim as int,
        )
    }

    /// The elimination of the source values `a` has stopped at the pivot of
    /// column `j`: the columns before it are done, and so is its column of `U`;
    /// the others are those of `before`.
    pub open spec fn stops(&self, a: spec_fn(int, int) -> T, before: Self, j: int) -> bool {
        let (l, u) = (self.symbolic.l, self.symbolic.u);
        &&& lu_cols_done(l, u, a, self.l_values@, self.u_values@, j)
        &&& u_col_done(l, u, a, self.u_values@, j)
        &&& retained(l, before.l_values@, self.l_values@, j)
        &&& retained(u, before.u_values@, self.u_values@, j + 1)
    }

    /// Allocate the value buffers and dense workspace for a symbolic factor.
    pub fn new_with_symbolic(symbolic: SymbolicIluk) -> (r: Self)
        requires
            symbolic.wf(),
        ensures
            r.wf(),
            r.symbolic == symbolic,
            forall|p: int| 0 <= p < r.l_values@.len() ==> #[trigger] r.l_values@[p] == T::null(),
            forall|p: int| 0 <= p < r.u_values@.len() ==> #[trigger] r.u_values@[p] == T::null(),
    {
        let n: usize = symbolic.dim;
        let l_values: Vec<T> = zeros(symbolic.l_nnz());
        let u_values: Vec<T> = zeros(symbolic.u_nnz());
        let workspace_w: Vec<T> = zeros(n);
        let workspace_marker: Vec<usize> = vec![usize::MAX; n];
        Iluk { symbolic, l_values, u_values, workspace_w, workspace_marker }
    }

    /// Build a fully populated ILU(k) factor from a CSC matrix `A`.
    pub fn try_new(a: CscRef<'_, T>, level: usize) -> (r: Result<Self, IlukError>)
        requires
            a.wf(),
        ensures
            r is Ok <==> splittable(*a.pattern) && pivots_ok(
                kept(stored(*a.pattern), level as int, a.pattern.ncols as int),
                dense(a),
                a.pattern.ncols as int,
            ),
            r matches Ok(f) ==> f.wf() && f.symbolic.describes(*a.pattern, level as int)
                && f.factors(dense(a)),
            r matches Err(e) ==> match e {
                IlukError::ZeroPivot { col } => {
                    let s = kept(stored(*a.pattern), level as int, a.pattern.ncols as int);
                    &&& splittable(*a.pattern)
                    &&& col < a.pattern.ncols
                    &&& pivots_ok(s, dense(a), col as int)
                    &&& vanishes(upper_entry(s, dense(a), col as int, col as int))
                },
                IlukError::PatternMismatch => false,
                _ => exists|d: DiagError| #[trigger]
                    diag_error_of(*a.pattern, d) && e == iluk_error_of(d),
            },
    {
        let symbolic: SymbolicIluk = match SymbolicIluk::try_new(a.pattern, level) {
            Ok(s) => s,
            Err(e) => {
                return Err(e);
            },
        };
        let mut me: Iluk<T> = Self::new_with_symbolic(symbolic);
        let ghost s = symbolic;
        let res: Result<(), IlukError> = me.refactorize(a);
        proof {
            assert forall|i: int, j: int| #[trigger] lu_has(s.l, s.u)(i, j) implies overlay(a)(i, j)
                == dense(a)(i, j) by {
                assert(diag_col_ok(*a.pattern, j));
                lemma_overlay_is_dense(a, i, j);
            }
            lemma_pivots_agree(s.l, s.u, overlay(a), dense(a), s.dim as int);
        }
        match res {
            Ok(()) => {
                proof {
                    lemma_done_agree(
                        s.l,
                        s.u,
                        overlay(a),
                        dense(a),
                        me.l_values@,
                        me.u_values@,
                        s.dim as int,
                    );
                }
                Ok(me)
            },
            Err(e) => Err(e),
        }
    }

    /// Dimension `n` of the factored matrix.
    pub fn dim(&self) -> (r: usize)
        ensures
            r == self.symbolic.dim,
    {
        self.symbolic.dim
    }

    /// Borrow the symbolic factor.
    pub fn symbolic(&self) -> (r: &SymbolicIluk)
        ensures
            *r == self.symbolic,
    {
        &self.symbolic
    }

    /// Refactorise against a new matrix with the same sparsity pattern.
    ///
    /// Allocates nothing. `PatternMismatch` says that the shape disagrees with
    /// the symbolic structure; `ZeroPivot` names the first column whose pivot
    /// vanishes. Entries outside the factor's pattern are not read. Where a pivot
    /// vanishes, the columns before it and its column of `U` are new, the others
    /// are kept.
    pub fn refactorize(&mut self, a: CscRef<'_, T>) -> (r: Result<(), IlukError>)
        requires
            old(self).wf(),
            a.wf(),
        ensures
            final(self).wf(),
            final(self).symbolic == old(self).symbolic,
            r is Ok <==> a.pattern.nrows == old(self).symbolic.dim && a.pattern.ncols == old(
                self,
            ).symbolic.dim && pivots_ok(
                lu_has(old(self).symbolic.l, old(self).symbolic.u),
                overlay(a),
                old(self).symbolic.dim as int,
            ),
            r is Ok ==> final(self).factors(overlay(a)),
            r matches Err(e) ==> match e {
                IlukError::PatternMismatch => {
                    &&& a.pattern.nrows != old(self).symbolic.dim || a.pattern.ncols != old(
                        self,
                    ).symbolic.dim
                    &&& *final(self) == *old(self)
                },
                IlukError::ZeroPivot { col } => {
                    let s = lu_has(old(self).symbolic.l, old(self).symbolic.u);
                    &&& a.pattern.nrows == old(self).symbolic.dim
                    &&& a.pattern.ncols == old(self).symbolic.dim
                    &&& col < old(self).symbolic.dim
                    &&& pivots_ok(s, overlay(a), col as int)
                    &&& vanishes(upper_entry(s, overlay(a), col as int, col as int))
                    &&& final(self).stops(overlay(a), *old(self), col as int)
                },
                _ => false,
            },
    {
        let n: usize = self.symbolic.dim;
        if a.pattern.nrows != n || a.pattern.ncols != n {
            return Err(IlukError::PatternMismatch);
        }
        let ghost s = self.symbolic;
        let ghost src = overlay(a);
        let mut j: usize = 0;
        while j < n
            invariant
                n == s.dim,
                self.symbolic == s,
                s == old(self).symbolic,
                self.wf(),
                a.wf(),
                a.pattern.nrows == n,
                a.pattern.ncols == n,
                j <= n,
                src == overlay(a),
                lu_cols_done(s.l, s.u, src, self.l_values@, self.u_values@, j as int),
                pivots_ok(lu_has(s.l, s.u), src, j as int),
                retained(s.l, old(self).l_values@, self.l_values@, j as int),
                retained(s.u, old(self).u_values@, self.u_values@, j as int),
            decreases n - j,
        {
            overlay_column(
                &self.symbolic,
                j,
                a,
                &mut self.workspace_w,
                &mut self.workspace_marker,
            );
            let ghost lv0 = self.l_values@;
            let ghost uv0 = self.u_values@;
            let ok: bool = eliminate_column(
                &self.symbolic.l,
                &self.symbolic.u,
                j,
                &mut self.workspace_w,
                &self.workspace_marker,
                &mut self.l_values,
                &mut self.u_values,
                Ghost(src),
            );
            proof {
                lemma_retained_past(s.u, old(self).u_values@, uv0, self.u_values@, j as int);
            }
            if !ok {
                assert(!pivots_ok(lu_has(s.l, s.u), src, n as int));
                return Err(IlukError::ZeroPivot { col: j });
            }
            proof {
                lemma_retained_past(s.l, old(self).l_values@, lv0, self.l_values@, j as int);
            }
            j += 1;
        }
        Ok(())
    }

    /// View over the `L` factor (unit lower triangular, diagonal first).
    pub fn l_view(&self) -> (r: CscRef<'_, T>)
        ensures
            r@ == self.l_model(),
            self.wf() ==> r.wf(),
    {
        CscRef { pattern: &self.symbolic.l, values: self.l_values.as_slice() }
    }

    /// View over the `U` factor (upper triangular, diagonal last).
    pub fn u_view(&self) -> (r: CscRef<'_, T>)
        ensures
            r@ == self.u_model(),
            self.wf() ==> r.wf(),
    {
        CscRef { pattern: &self.symbolic.u, values: self.u_values.as_slice() }
    }
}

/// Marks the rows of `p` in column `j` and zeroes the workspace there.
fn mark_rows<T: Scalar>(
    p: &CscPattern,
    j: usize,
    w: &mut Vec<T>,
    marker: &mut Vec<usize>,
    Ghost(l): Ghost<CscPattern>,
    Ghost(u): Ghost<CscPattern>,
)
    requires
        p.wf(),
        p.nrows == l.ncols,
        p.ncols == l.ncols,
        j < p.ncols,
        old(w)@.len() == l.ncols,
        marks_pattern(l, u, old(marker)@),
        forall|i: int| 0 <= i < l.ncols && #[trigger] p.has(i, j as int) ==> lu_has(l, u)(i, j as int),
    ensures
        final(w)@.len() == l.ncols,
        marks_pattern(l, u, final(marker)@),
        forall|i: int|
            0 <= i < l.ncols && (p.has(i, j as int) || old(marker)@[i] == j)
                ==> #[trigger] final(marker)@[i] == j,
        forall|i: int|
            0 <= i < l.ncols && #[trigger] final(w)@[i] != old(w)@[i] ==> final(w)@[i] == T::null(),
        forall|i: int|
            0 <= i < l.ncols && #[trigger] p.has(i, j as int) ==> final(w)@[i] == T::null(),
{
    let ghost n = l.ncols as int;
    let ghost jj = j as int;
    let ghost w0 = w@;
    let ghost m0 = marker@;
    let s: usize = p.col_ptr[j];
    let e: usize = p.col_ptr[j + 1];
    proof {
        p.lemma_col_bounds(jj);
    }
    let mut k: usize = s;
    while k < e
        invariant
            n == l.ncols,
            jj == j,
            j < p.ncols,
            p.wf(),
            p.nrows == n,
            s == p.start(jj),
            e == p.end(jj),
            s <= k <= e <= p.row_idx@.len(),
            w@.len() == n,
            w0.len() == n,
            marks_pattern(l, u, marker@),
            forall|i: int|
                0 <= i < n && #[trigger] p.has(i, jj) ==> lu_has(l, u)(i, jj),
            forall|i: int| 0 <= i < n && m0[i] == j ==> #[trigger] marker@[i] == j,
            forall|i: int| 0 <= i < n && #[trigger] w@[i] != w0[i] ==> w@[i] == T::null(),
            forall|q: int| s <= q < k ==> marker@[#[trigger] p.row_idx@[q] as int] == j,
            forall|q: int| s <= q < k ==> w@[#[trigger] p.row_idx@[q] as int] == T::null(),
        decreases e - k,
    {
        let i: usize = p.row_idx[k];
        proof {
            assert(p.in_col(k as int, jj));
            assert(p.has(i as int, jj));
        }
        marker.set(i, j);
        w.set(i, T::zero());
        k += 1;
    }
    proof {
        assert forall|i: int| 0 <= i < n && p.has(i, jj) implies #[trigger] marker@[i] == j
            && w@[i] == T::null() by {
            p.lemma_find(i, jj);
            assert(p.row_idx@[p.find(i, jj)] == i);
        }
        assert forall|i: int| 0 <= i < n && #[trigger] p.has(i, jj) implies w@[i] == T::null() by {
            assert(marker@[i] == j && w@[i] == T::null());
        }
    }
}

/// Lays column `j` of `a` over the zeroed pattern of the factor's column `j`.
fn overlay_column<T: Scalar>(
    s: &SymbolicIluk,
    j: usize,
    a: CscRef<'_, T>,
    w: &mut Vec<T>,
    marker: &mut Vec<usize>,
)
    requires
        s.wf(),
        j < s.dim,
        a.wf(),
        a.pattern.nrows == s.dim,
        a.pattern.ncols == s.dim,
        old(w)@.len() == s.dim,
        marks_pattern(s.l, s.u, old(marker)@),
    ensures
        final(w)@.len() == s.dim,
        marks_pattern(s.l, s.u, final(marker)@),
        forall|i: int|
            0 <= i < s.dim ==> (#[trigger] final(marker)@[i] == j <==> lu_has(s.l, s.u)(
                i,
                j as int,
            )),
        forall|i: int|
            0 <= i < s.dim && lu_has(s.l, s.u)(i, j as int) ==> #[trigger] final(w)@[i] == overlay(
                a,
            )(i, j as int),
{
    let ghost n = s.dim as int;
    let ghost jj = j as int;
    let ghost has = lu_has(s.l, s.u);
    proof {
        lemma_diag_in_pattern(s.l, s.u, n);
        assert forall|i: int| 0 <= i < n && #[trigger] s.u.has(i, jj) implies has(i, jj) by {
            s.u.lemma_find(i, jj);
            lemma_upper_col(s.u, n, s.u.find(i, jj), jj);
        }
        assert forall|i: int| 0 <= i < n && #[trigger] s.l.has(i, jj) implies has(i, jj) by {
            s.l.lemma_find(i, jj);
            lemma_lower_col(s.l, n, s.l.find(i, jj), jj);
            assert(has(jj, jj));
        }
    }
    mark_rows(&s.u, j, w, marker, Ghost(s.l), Ghost(s.u));
    let ghost m1 = marker@;
    let ghost w1 = w@;
    mark_rows(&s.l, j, w, marker, Ghost(s.l), Ghost(s.u));
    proof {
        assert forall|i: int| 0 <= i < n implies (#[trigger] marker@[i] == j <==> has(i, jj)) by {
            if has(i, jj) {
                if i <= jj {
                    assert(s.u.has(i, jj));
                    assert(m1[i] == j);
                } else {
                    assert(s.l.has(i, jj));
                }
            }
        }
        assert forall|i: int| 0 <= i < n && has(i, jj) implies #[trigger] w@[i] == T::null() by {
            if i <= jj {
                assert(s.u.has(i, jj));
                assert(w1[i] == T::null());
            } else {
                assert(s.l.has(i, jj));
            }
        }
    }
    let a_start: usize = a.pattern.col_ptr[j];
    let a_end: usize = a.pattern.col_ptr[j + 1];
    proof {
        a.pattern.lemma_col_bounds(jj);
    }
    let mut p: usize = a_start;
    while p < a_end
        invariant
            n == s.dim,
            jj == j,
            j < s.dim,
            a.wf(),
            a.pattern.nrows == n,
            a_start == a.pattern.start(jj),
            a_end == a.pattern.end(jj),
            a_start <= p <= a_end <= a.pattern.row_idx@.len(),
            w@.len() == n,
            marker@.len() == n,
            forall|i: int| 0 <= i < n ==> (#[trigger] marker@[i] == j <==> has(i, jj)),
            forall|i: int|
                0 <= i < n && has(i, jj) ==> #[trigger] w@[i] == overlaid(a, i, jj, p as int),
        decreases a_end - p,
    {
        let i: usize = a.pattern.row_idx[p];
        if marker[i] == j {
            let x: T = a.values[p].copy();
            w.set(i, x);
        }
        p += 1;
    }
}

/// With fill level zero the factors are those of ILU(0), entry by entry.
pub proof fn law_level_zero_values<T: Scalar>(
    a: CscRef<'_, T>,
    f0: Ilu0<T>,
    fk: Iluk<T>,
    i: int,
    j: int,
)
    requires
        a.wf(),
        splittable(*a.pattern),
        f0.wf(),
        f0.symbolic.describes(*a.pattern),
        f0.factors(entries(a)),
        fk.wf(),
        fk.symbolic.describes(*a.pattern, 0),
        fk.factors(dense(a)),
        0 <= i < a.pattern.ncols,
        0 <= j < a.pattern.ncols,
    ensures
        dense_entry(fk.l_model(), i, j) == dense_entry(f0.l_model(), i, j),
        dense_entry(fk.u_model(), i, j) == dense_entry(f0.u_model(), i, j),
{
    let n = a.pattern.ncols as int;
    law_level_zero_pattern(*a.pattern, f0.symbolic, fk.symbolic);
    assert forall|p: int, q: int| #[trigger] lu_has(fk.symbolic.l, fk.symbolic.u)(p, q) implies
        dense(a)(p, q) == entries(a)(p, q) by {
        assert(stored(*a.pattern)(p, q));
    }
    lemma_done_agree(
        fk.symbolic.l,
        fk.symbolic.u,
        dense(a),
        entries(a),
        fk.l_values@,
        fk.u_values@,
        n,
    );
    lemma_factor_entries(f0.l_model(), f0.u_model(), entries(a), n, i, j);
    lemma_factor_entries(fk.l_model(), fk.u_model(), entries(a), n, i, j);
}

/// In exact arithmetic, `L * U` agrees with `A` at every kept entry: it equals
/// the stored entry, and vanishes where the entry is fill.
pub proof fn law_agrees_on_pattern<T: Scalar>(
    f: Iluk<T>,
    a: CscRef<'_, T>,
    level: int,
    i: int,
    j: int,
)
    requires
        exact_field::<T>(),
        a.wf(),
        splittable(*a.pattern),
        level >= 0,
        f.wf(),
        f.symbolic.describes(*a.pattern, level),
        f.factors(dense(a)),
        pivots_ok(lu_has(f.symbolic.l, f.symbolic.u), dense(a), a.pattern.ncols as int),
        kept(stored(*a.pattern), level, a.pattern.ncols as int)(i, j),
    ensures
        product_entry(f.l_model(), f.u_model(), i, j, a.pattern.ncols as int) == dense_entry(a@, i, j),
{
    law_product_on_pattern(f.l_model(), f.u_model(), dense(a), a.pattern.ncols as int, i, j);
}

} // verus!
