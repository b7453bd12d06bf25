//! Construction and refactorisation of the SSOR factors `(D + w L)` and
//! `(D + w U)`.
use super::{SsorError, SsorParams};
use crate::ilu0::numeric::{
    column_matches, lemma_describes_matches, lemma_source_is_entry, source,
};
use crate::ilu0::symbolic::ilu0_error_of;
use crate::ilu0::{Ilu0Error, SymbolicIlu0};
use crate::lu::lu_has;
use crate::scalar::{vanishes, zeros, RealScalar, Scalar};
use crate::sparse::{
    entries, lemma_retained_past, retained, CscModel, CscPattern, CscRef,
};
use crate::util::diag_split::{diag_error_of, splittable, DiagError};
use vstd::prelude::*;

verus! {

/// SSOR / symmetric Gauss-Seidel preconditioner.
///
/// Stores the scaled triangular factors `(D + w L)` and `(D + w U)` of `A` plus
/// the folded diagonal scaling.
#[derive(Debug, Clone)]
pub struct Ssor<T: Scalar> {
    /// The two triangles of the pattern of `A`.
    pub pattern: SymbolicIlu0,
    pub omega: T::Tuning,
    /// `w (2 - w) * A[i, i]`, the folded middle diagonal scaling.
    pub scaled_diag: Vec<T>,
    pub l_values: Vec<T>,
    pub u_values: Vec<T>,
}

/// The relaxation factor lies in the open interval `(0, 2)`.
pub open spec fn omega_ok<R: RealScalar>(omega: R) -> bool {
    R::null().below(omega) && omega.below(R::ratio(2, 1))
}

/// Whether the relaxation factor lies in the open interval `(0, 2)`.
pub fn omega_in_range<R: RealScalar>(omega: &R) -> (b: bool)
    ensures
        b == omega_ok(*omega),
{
    R::zero().lt(omega) && omega.lt(&R::from_ratio(2, 1))
}

/// The scalar `w (2 - w)`.
pub open spec fn relaxation<R: RealScalar>(omega: R) -> R {
    omega.times(R::ratio(2, 1).minus(omega))
}

/// The error that reports `e`.
pub open spec fn ssor_error_of(e: DiagError) -> SsorError {
    match e {
        DiagError::NonSquare { nrows, ncols } => SsorError::NonSquareMatrix { nrows, ncols },
        DiagError::MissingDiagonal { col } => SsorError::MissingDiagonal { col },
        DiagError::UnsortedRowIndices { col } => SsorError::UnsortedRowIndices { col },
    }
}

/// The value at the place where the diagonal of column `j` is expected.
pub open spec fn diagonal_value<T>(s: SymbolicIlu0, a: CscRef<'_, T>, j: int) -> T {
    a.values@[a.pattern.start(j) + s.diag_pos@[j]]
}

/// Column `j` of `a` has its diagonal where the pattern `s` has it.
pub open spec fn diagonal_in_place(s: SymbolicIlu0, p: CscPattern, j: int) -> bool {
    let d = s.diag_pos@[j] as int;
    p.start(j) + d < p.end(j) && p.row_idx@[p.start(j) + d] == j
}

/// Column `j` of `a` fits the pattern `s` and its diagonal is not zero.
pub open spec fn column_ok<T: Scalar>(s: SymbolicIlu0, a: CscRef<'_, T>, j: int) -> bool {
    column_matches(s, *a.pattern, j) && !vanishes(diagonal_value(s, a, j))
}

/// The first `j` columns of `a` fit the pattern `s` and have no zero on the
/// diagonal.
pub open spec fn columns_ok<T: Scalar>(s: SymbolicIlu0, a: CscRef<'_, T>, j: int) -> bool {
    forall|k: int| 0 <= k < j ==> #[trigger] column_ok(s, a, k)
}

/// What is wrong with the first column of `a` that cannot be taken over.
pub open spec fn fill_error<T: Scalar>(s: SymbolicIlu0, a: CscRef<'_, T>, e: SsorError) -> bool {
    if a.pattern.nrows != s.dim || a.pattern.ncols != s.dim {
        e is PatternMismatch
    } else {
        match e {
            SsorError::ZeroDiagonal { col } => {
                &&& col < s.dim
                &&& columns_ok(s, a, col as int)
                &&& diagonal_in_place(s, *a.pattern, col as int)
                &&& vanishes(diagonal_value(s, a, col as int))
            },
            SsorError::PatternMismatch => exists|col: int|
                {
                    &&& 0 <= col < s.dim
                    &&& columns_ok(s, a, col)
                    &&& !#[trigger] column_matches(s, *a.pattern, col)
                    &&& diagonal_in_place(s, *a.pattern, col) ==> !vanishes(
                        diagonal_value(s, a, col),
                    )
                },
            _ => false,
        }
    }
}

/// Column `j` of both factors holds the values `src`, scaled off the diagonal.
pub open spec fn column_filled<T: Scalar>(
    s: SymbolicIlu0,
    omega: T::Tuning,
    src: spec_fn(int, int) -> T,
    sd: Seq<T>,
    lv: Seq<T>,
    uv: Seq<T>,
    j: int,
) -> bool {
    &&& sd[j] == T::embed(T::tuned(relaxation(omega))).times(src(j, j))
    &&& forall|p: int| #[trigger]
        s.l.in_col(p, j) ==> lv[p] == if p == s.l.start(j) {
            src(j, j)
        } else {
            T::embed(T::tuned(omega)).times(src(s.l.row_idx@[p] as int, j))
        }
    &&& forall|p: int| #[trigger]
        s.u.in_col(p, j) ==> uv[p] == if p == s.u.end(j) - 1 {
            src(j, j)
        } else {
            T::embed(T::tuned(omega)).times(src(s.u.row_idx@[p] as int, j))
        }
}

/// Column `j` is the first of `a` that cannot be taken over.
pub open spec fn stuck_at<T: Scalar>(s: SymbolicIlu0, a: CscRef<'_, T>, j: int) -> bool {
    &&& 0 <= j < s.dim
    &&& columns_ok(s, a, j)
    &&& !column_ok(s, a, j)
}

impl<T: Scalar> Ssor<T> {
    pub open spec fn wf(&self) -> bool {
        &&& self.pattern.wf()
        &&& self.scaled_diag@.len() == self.pattern.dim
        &&& self.l_values@.len() == self.pattern.l.row_idx@.len()
        &&& self.u_values@.len() == self.pattern.u.row_idx@.len()
    }

    /// The factor `(D + w L)`.
    pub open spec fn l_model(&self) -> CscModel<T> {
        CscModel { pattern: self.pattern.l, values: self.l_values@ }
    }

    /// The factor `(D + w U)`.
    pub open spec fn u_model(&self) -> CscModel<T> {
        CscModel { pattern: self.pattern.u, values: self.u_values@ }
    }

    /// The buffers hold the scaled splitting of the source values `src`.
    pub open spec fn splits(&self, src: spec_fn(int, int) -> T) -> bool {
        forall|j: int|
            0 <= j < self.pattern.dim ==> #[trigger] column_filled(
                self.pattern,
                self.omega,
                src,
                self.scaled_diag@,
                self.l_values@,
                self.u_values@,
                j,
            )
    }

    /// The columns before `j` hold the scaled splitting of the source values
    /// `src`, the others are those of `before`. The scaled diagonal of column `j`
    /// itself is new where `scaled` is given.
    pub open spec fn stops(
        &self,
        src: spec_fn(int, int) -> T,
        before: Self,
        j: int,
        scaled: Option<T>,
    ) -> bool {
        &&& forall|k: int|
            0 <= k < j ==> #[trigger] column_filled(
                self.pattern,
                self.omega,
                src,
                self.scaled_diag@,
                self.l_values@,
                self.u_values@,
                k,
            )
        &&& self.scaled_diag@[j] == (match scaled {
            Some(x) => x,
            None => before.scaled_diag@[j],
        })
        &&& forall|k: int|
            j < k < self.pattern.dim ==> #[trigger] self.scaled_diag@[k] == before.scaled_diag@[k]
        &&& retained(self.pattern.l, before.l_values@, self.l_values@, j)
        &&& retained(self.pattern.u, before.u_values@, self.u_values@, j)
    }

    /// What a failed refactorisation against `a` leaves of `before`: nothing has
    /// changed where the shape disagrees; otherwise the columns before the first
    /// that cannot be taken over are new. Where that column has a usable
    /// diagonal in its place, its scaled diagonal is new, too.
    pub open spec fn fails_from(&self, before: Self, a: CscRef<'_, T>) -> bool {
        let s = before.pattern;
        if a.pattern.nrows != s.dim || a.pattern.ncols != s.dim {
            *self == before
        } else {
            exists|j: int| #[trigger]
                stuck_at(s, a, j) && self.stops(
                    source(s, a),
                    before,
                    j,
                    if diagonal_in_place(s, *a.pattern, j) && !vanishes(diagonal_value(s, a, j)) {
                        Some(
                            T::embed(T::tuned(relaxation(before.omega))).times(diagonal_value(s, a, j)),
                        )
                    } else {
                        None
                    },
                )
        }
    }

    /// Build an SSOR preconditioner from a CSC matrix `A` and a relaxation
    /// factor.
    ///
    /// # Errors
    ///
    /// - [`SsorError::InvalidOmega`] if `omega` is outside `(0, 2)`.
    /// - [`SsorError::NonSquareMatrix`], [`SsorError::MissingDiagonal`] or
    ///   [`SsorError::UnsortedRowIndices`] if `A`'s pattern is unusable.
    /// - [`SsorError::ZeroDiagonal`] for the first zero on the diagonal.
    pub fn try_new(a: CscRef<'_, T>, params: SsorParams<T::Tuning>) -> (r: Result<Self, SsorError>)
        requires
            a.wf(),
        ensures
            r is Ok <==> omega_ok(params.omega) && splittable(*a.pattern) && forall|j: int|
                0 <= j < a.pattern.ncols ==> !vanishes(#[trigger] a.entry(j, j)),
            r matches Ok(m) ==> {
                &&& m.wf()
                &&& m.pattern.describes(*a.pattern)
                &&& m.omega == params.omega
                &&& m.splits(entries(a))
            },
            r matches Err(e) ==> match e {
                SsorError::InvalidOmega => !omega_ok(params.omega),
                SsorError::ZeroDiagonal { col } => {
                    &&& omega_ok(params.omega)
                    &&& splittable(*a.pattern)
                    &&& col < a.pattern.ncols
                    &&& vanishes(a.entry(col as int, col as int))
                    &&& forall|j: int| 0 <= j < col ==> !vanishes(#[trigger] a.entry(j, j))
                },
                SsorError::PatternMismatch => false,
                _ => omega_ok(params.omega) && exists|d: DiagError| #[trigger]
                    diag_error_of(*a.pattern, d) && e == ssor_error_of(d),
            },
    {
        if !omega_in_range(&params.omega) {
            return Err(SsorError::InvalidOmega);
        }
        let pattern: SymbolicIlu0 = match SymbolicIlu0::try_new(a.pattern) {
            Ok(s) => s,
            Err(e) => {
                let ghost d = choose|d: DiagError| #[trigger]
                    diag_error_of(*a.pattern, d) && e == ilu0_error_of(d);
                assert(diag_error_of(*a.pattern, d));
                return Err(
                    match e {
                        Ilu0Error::NonSquareMatrix { nrows, ncols } => SsorError::NonSquareMatrix {
                            nrows,
                            ncols,
                        },
                        Ilu0Error::MissingDiagonal { col } => SsorError::MissingDiagonal { col },
                        Ilu0Error::UnsortedRowIndices { col } => SsorError::UnsortedRowIndices {
                            col,
                        },
                        Ilu0Error::PatternMismatch => SsorError::PatternMismatch,
                        Ilu0Error::ZeroPivot { col } => SsorError::ZeroDiagonal { col },
                    },
                );
            },
        };
        let n: usize = pattern.dim;
        let l_values: Vec<T> = zeros(pattern.l_nnz());
        let u_values: Vec<T> = zeros(pattern.u_nnz());
        let mut me: Ssor<T> = Ssor {
            pattern,
            omega: params.omega,
            scaled_diag: zeros(n),
            l_values,
            u_values,
        };
        proof {
            lemma_source_is_entry(pattern, a);
            lemma_describes_matches(pattern, *a.pattern);
            assert forall|j: int| 0 <= j < n implies #[trigger] diagonal_value(pattern, a, j)
                == a.entry(j, j) by {
                lemma_diagonal_value(pattern, a, j);
            }
        }
        match me.fill_values(a) {
            Ok(_) => {
                proof {
                    assert forall|j: int| 0 <= j < n implies !vanishes(#[trigger] a.entry(j, j)) by {
                        assert(column_ok(pattern, a, j));
                        assert(diagonal_value(pattern, a, j) == a.entry(j, j));
                    }
                    lemma_splits_agree(me, source(pattern, a), entries(a));
                }
                Ok(me)
            },
            Err(e) => {
                proof {
                    assert(e is ZeroDiagonal);
                    let col = e->ZeroDiagonal_col as int;
                    assert(diagonal_value(pattern, a, col) == a.entry(col, col));
                    assert forall|j: int| 0 <= j < col implies !vanishes(
                        #[trigger] a.entry(j, j),
                    ) by {
                        assert(column_ok(pattern, a, j));
                        assert(diagonal_value(pattern, a, j) == a.entry(j, j));
                    }
                }
                Err(e)
            },
        }
    }

    /// Refactorise against a new matrix with the same sparsity pattern.
    ///
    /// Allocates nothing. Where it fails, the columns before the one at fault are
    /// new.
    ///
    /// # Errors
    ///
    /// - [`SsorError::PatternMismatch`] if `a`'s shape or column structure
    ///   disagrees with the stored pattern.
    /// - [`SsorError::ZeroDiagonal`] if a diagonal entry is zero.
    pub fn refactorize(&mut self, a: CscRef<'_, T>) -> (r: Result<(), SsorError>)
        requires
            old(self).wf(),
            a.wf(),
        ensures
            final(self).wf(),
            final(self).pattern == old(self).pattern,
            final(self).omega == old(self).omega,
            r is Ok <==> a.pattern.nrows == old(self).pattern.dim && a.pattern.ncols == old(
                self,
            ).pattern.dim && columns_ok(old(self).pattern, a, old(self).pattern.dim as int),
            r is Ok ==> final(self).splits(source(old(self).pattern, a)),
            r matches Err(e) ==> fill_error(old(self).pattern, a, e) && final(self).fails_from(
                *old(self),
                a,
            ),
    {
        self.fill_values(a)
    }

    /// Fills `scaled_diag`, `l_values` and `u_values` from `A` against the
    /// already-built pattern.
    fn fill_values(&mut self, a: CscRef<'_, T>) -> (r: Result<(), SsorError>)
        requires
            old(self).wf(),
            a.wf(),
        ensures
            final(self).wf(),
            final(self).pattern == old(self).pattern,
            final(self).omega == old(self).omega,
            r is Ok <==> a.pattern.nrows == old(self).pattern.dim && a.pattern.ncols == old(
                self,
            ).pattern.dim && columns_ok(old(self).pattern, a, old(self).pattern.dim as int),
            r is Ok ==> final(self).splits(source(old(self).pattern, a)),
            r matches Err(e) ==> fill_error(old(self).pattern, a, e) && final(self).fails_from(
                *old(self),
                a,
            ),
    {
        let n: usize = self.pattern.dim;
        if a.pattern.nrows != n || a.pattern.ncols != n {
            return Err(SsorError::PatternMismatch);
        }
        let ghost s = self.pattern;
        let ghost w = self.omega;
        let ghost src = source(s, a);
        let two: T::Tuning = T::Tuning::from_ratio(2, 1);
        let omega: T = T::from_real(&T::from_tuning(&self.omega));
        let scale: T = T::from_real(&T::from_tuning(&self.omega.mul(&two.sub(&self.omega))));
        let mut j: usize = 0;
        while j < n
            invariant
                n == s.dim,
                self.pattern == s,
                self.omega == w,
                s == old(self).pattern,
                w == old(self).omega,
                self.wf(),
                a.wf(),
                a.pattern.nrows == n,
                a.pattern.ncols == n,
                src == source(s, a),
                omega == T::embed(T::tuned(w)),
                scale == T::embed(T::tuned(relaxation(w))),
                j <= n,
                columns_ok(s, a, j as int),
                forall|k: int|
                    0 <= k < j ==> #[trigger] column_filled(
                        s,
                        w,
                        src,
                        self.scaled_diag@,
                        self.l_values@,
                        self.u_values@,
                        k,
                    ),
                forall|k: int|
                    j <= k < n ==> #[trigger] self.scaled_diag@[k] == old(self).scaled_diag@[k],
                retained(s.l, old(self).l_values@, self.l_values@, j as int),
                retained(s.u, old(self).u_values@, self.u_values@, j as int),
            decreases n - j,
        {
            let ghost jj = j as int;
            let ghost sd0 = self.scaled_diag@;
            let ghost lv0 = self.l_values@;
            let ghost uv0 = self.u_values@;
            let a_start: usize = a.pattern.col_ptr[j];
            let a_end: usize = a.pattern.col_ptr[j + 1];
            let d: usize = self.pattern.diag_pos[j];
            proof {
                a.pattern.lemma_col_bounds(jj);
                s.l.lemma_col_bounds(jj);
                s.u.lemma_col_bounds(jj);
                assert(s.u.end(jj) - s.u.start(jj) == s.diag_pos@[jj] + 1);
                assert(s.l.start(jj) < s.l.end(jj));
            }
            if d >= a_end - a_start || a.pattern.row_idx[a_start + d] != j {
                assert(!column_matches(s, *a.pattern, jj));
                assert(stuck_at(s, a, jj));
                return Err(SsorError::PatternMismatch);
            }
            let diag_val: T = a.values[a_start + d].copy();
            if diag_val.abs().is_zero() {
                assert(stuck_at(s, a, jj));
                return Err(SsorError::ZeroDiagonal { col: j });
            }
            let sd: T = scale.mul(&diag_val);
            self.scaled_diag.set(j, sd);
            let l_start: usize = self.pattern.l.col_ptr[j];
            let l_end: usize = self.pattern.l.col_ptr[j + 1];
            if l_end - l_start != a_end - a_start - d {
                proof {
                    assert(!column_matches(s, *a.pattern, jj));
                    assert(stuck_at(s, a, jj));
                    assert forall|k: int| 0 <= k < j implies #[trigger] column_filled(
                        s,
                        w,
                        src,
                        self.scaled_diag@,
                        lv0,
                        uv0,
                        k,
                    ) by {
                        assert(column_filled(s, w, src, sd0, lv0, uv0, k));
                    }
                }
                return Err(SsorError::PatternMismatch);
            }
            assert(column_ok(s, a, jj));
            fill_lower(&self.pattern, &omega, a, j, &mut self.l_values);
            fill_upper(&self.pattern, &omega, a, j, &mut self.u_values);
            proof {
                lemma_source_diagonal(s, a, jj);
                lemma_retained_past(s.l, old(self).l_values@, lv0, self.l_values@, jj);
                lemma_retained_past(s.u, old(self).u_values@, uv0, self.u_values@, jj);
                assert forall|k: int| 0 <= k < j + 1 implies #[trigger] column_filled(
                    s,
                    w,
                    src,
                    self.scaled_diag@,
                    self.l_values@,
                    self.u_values@,
                    k,
                ) by {
                    if k < j {
                        assert(column_filled(s, w, src, sd0, lv0, uv0, k));
                        s.l.lemma_col_bounds(k);
                        s.u.lemma_col_bounds(k);
                        assert forall|p: int| #[trigger] s.l.in_col(p, k) implies self.l_values@[p]
                            == lv0[p] by {
                            if s.l.in_col(p, jj) {
                                s.l.lemma_col_unique(p, jj, k);
                            }
                        }
                        assert forall|p: int| #[trigger] s.u.in_col(p, k) implies self.u_values@[p]
                            == uv0[p] by {
                            if s.u.in_col(p, jj) {
                                s.u.lemma_col_unique(p, jj, k);
                            }
                        }
                    }
                }
            }
            j += 1;
        }
        Ok(())
    }

    /// Dimension `n` of the preconditioner.
    pub fn dim(&self) -> (n: usize)
        ensures
            n == self.pattern.dim,
    {
        self.pattern.dim
    }

    /// The relaxation factor `w` this preconditioner was built with.
    pub fn omega(&self) -> (w: &T::Tuning)
        ensures
            *w == self.omega,
    {
        &self.omega
    }

    /// View of `(D + w L)`: lower triangular, diagonal stored first per column.
    pub fn l_view(&self) -> (r: CscRef<'_, T>)
        ensures
            r@ == self.l_model(),
            self.wf() ==> r.wf(),
    {
        CscRef { pattern: &self.pattern.l, values: self.l_values.as_slice() }
    }

    /// View of `(D + w U)`: upper triangular, diagonal stored last per column.
    pub fn u_view(&self) -> (r: CscRef<'_, T>)
        ensures
            r@ == self.u_model(),
            self.wf() ==> r.wf(),
    {
        CscRef { pattern: &self.pattern.u, values: self.u_values.as_slice() }
    }
}

/// The value expected on the diagonal is the source value there.
proof fn lemma_source_diagonal<T>(s: SymbolicIlu0, a: CscRef<'_, T>, j: int)
    requires
        s.wf(),
        a.wf(),
        0 <= j < s.dim,
    ensures
        source(s, a)(j, j) == diagonal_value(s, a, j),
{
    s.u.lemma_col_bounds(j);
    assert(s.u.sorted_col(j));
    assert(s.u.end(j) - s.u.start(j) == s.diag_pos@[j] + 1);
    assert(s.u.start(j) < s.u.end(j) && s.u.row_idx@[s.u.end(j) - 1] == j);
    s.u.lemma_find_at(s.u.end(j) - 1, j);
}

/// For the matrix that the pattern was built from, the value expected on the
/// diagonal is the diagonal entry.
pub proof fn lemma_diagonal_value<T>(s: SymbolicIlu0, a: CscRef<'_, T>, j: int)
    requires
        a.wf(),
        splittable(*a.pattern),
        s.describes(*a.pattern),
        0 <= j < s.dim,
    ensures
        diagonal_value(s, a, j) == a.entry(j, j),
        column_matches(s, *a.pattern, j),
{
    lemma_describes_matches(s, *a.pattern);
    let p = *a.pattern;
    let d = s.diag_pos@[j] as int;
    assert(p.start(j) + s.diag_pos@[j] < p.end(j) && p.row_idx@[p.start(j) + d] == j);
    assert(crate::util::diag_split::diag_col_ok(p, j));
    p.lemma_col_bounds(j);
    p.lemma_find_at(p.start(j) + d, j);
    assert(column_matches(s, p, j));
}

/// Sources that agree on the stored entries give the same factors.
pub proof fn lemma_splits_agree<T: Scalar>(
    m: Ssor<T>,
    a: spec_fn(int, int) -> T,
    b: spec_fn(int, int) -> T,
)
    requires
        m.wf(),
        m.splits(a),
        forall|i: int, j: int| #[trigger]
            lu_has(m.pattern.l, m.pattern.u)(i, j) ==> a(i, j) == b(i, j),
    ensures
        m.splits(b),
{
    let s = m.pattern;
    assert forall|j: int| 0 <= j < s.dim implies #[trigger] column_filled(
        s,
        m.omega,
        b,
        m.scaled_diag@,
        m.l_values@,
        m.u_values@,
        j,
    ) by {
        assert(column_filled(s, m.omega, a, m.scaled_diag@, m.l_values@, m.u_values@, j));
        s.l.lemma_col_bounds(j);
        s.u.lemma_col_bounds(j);
        assert(s.u.start(j) < s.u.end(j) && s.u.row_idx@[s.u.end(j) - 1] == j);
        assert(s.u.in_col(s.u.end(j) - 1, j));
        assert(s.u.has(j, j));
        assert(lu_has(s.l, s.u)(j, j));
        assert(s.l.sorted_col(j));
        assert(s.u.sorted_col(j));
        assert(s.l.start(j) < s.l.end(j) && s.l.row_idx@[s.l.start(j)] == j);
        assert forall|p: int| #[trigger] s.l.in_col(p, j) implies a(s.l.row_idx@[p] as int, j) == b(
            s.l.row_idx@[p] as int,
            j,
        ) by {
            assert(s.l.has(s.l.row_idx@[p] as int, j));
            assert(lu_has(s.l, s.u)(s.l.row_idx@[p] as int, j));
        }
        assert forall|p: int| #[trigger] s.u.in_col(p, j) implies a(s.u.row_idx@[p] as int, j) == b(
            s.u.row_idx@[p] as int,
            j,
        ) by {
            assert(s.u.has(s.u.row_idx@[p] as int, j));
            assert(lu_has(s.l, s.u)(s.u.row_idx@[p] as int, j));
        }
    }
}

/// Fills column `j` of `(D + w L)`.
fn fill_lower<T: Scalar>(s: &SymbolicIlu0, omega: &T, a: CscRef<'_, T>, j: usize, lv: &mut Vec<T>)
    requires
        s.wf(),
        a.wf(),
        a.pattern.ncols == s.dim,
        j < s.dim,
        column_matches(*s, *a.pattern, j as int),
        old(lv)@.len() == s.l.row_idx@.len(),
    ensures
        final(lv)@.len() == old(lv)@.len(),
        forall|p: int|
            0 <= p < final(lv)@.len() && !s.l.in_col(p, j as int) ==> #[trigger] final(lv)@[p]
                == old(lv)@[p],
        forall|p: int| #[trigger]
            s.l.in_col(p, j as int) ==> final(lv)@[p] == if p == s.l.start(j as int) {
                source(*s, a)(j as int, j as int)
            } else {
                omega.times(source(*s, a)(s.l.row_idx@[p] as int, j as int))
            },
{
    let ghost jj = j as int;
    let ghost lv0 = lv@;
    let ghost src = source(*s, a);
    let a_start: usize = a.pattern.col_ptr[j];
    let a_end: usize = a.pattern.col_ptr[j + 1];
    let d: usize = s.diag_pos[j];
    let l_start: usize = s.l.col_ptr[j];
    let l_end: usize = s.l.col_ptr[j + 1];
    proof {
        a.pattern.lemma_col_bounds(jj);
        s.l.lemma_col_bounds(jj);
        lemma_source_diagonal(*s, a, jj);
        assert(s.l.start(jj) < s.l.end(jj) && s.l.row_idx@[s.l.start(jj)] == jj);
    }
    let dv: T = a.values[a_start + d].copy();
    lv.set(l_start, dv);
    let len: usize = l_end - l_start;
    let mut k: usize = 1;
    while k < len
        invariant
            jj == j,
            j < s.dim,
            s.wf(),
            a.wf(),
            src == source(*s, a),
            d == s.diag_pos@[jj],
            a_start == a.pattern.start(jj),
            a_start + d + len <= a.values@.len(),
            l_start == s.l.start(jj),
            l_start + len == s.l.end(jj),
            s.l.end(jj) <= s.l.row_idx@.len(),
            1 <= k <= len,
            lv@.len() == s.l.row_idx@.len(),
            lv@[l_start as int] == src(jj, jj),
            forall|p: int|
                0 <= p < lv@.len() && !s.l.in_col(p, jj) ==> #[trigger] lv@[p] == lv0[p],
            forall|p: int|
                l_start < p < l_start + k ==> #[trigger] lv@[p] == omega.times(
                    src(s.l.row_idx@[p] as int, jj),
                ),
        decreases len - k,
    {
        proof {
            assert(s.l.in_col(l_start + k, jj));
            assert(s.l.sorted_col(jj));
            s.l.lemma_find_at(l_start + k, jj);
            assert(s.l.start(jj) < s.l.end(jj) && s.l.row_idx@[s.l.start(jj)] == jj);
            assert(s.l.row_idx@[l_start as int] < s.l.row_idx@[l_start + k]);
        }
        let x: T = omega.mul(&a.values[a_start + d + k]);
        lv.set(l_start + k, x);
        k += 1;
    }
}

/// Fills column `j` of `(D + w U)`.
fn fill_upper<T: Scalar>(s: &SymbolicIlu0, omega: &T, a: CscRef<'_, T>, j: usize, uv: &mut Vec<T>)
    requires
        s.wf(),
        a.wf(),
        a.pattern.ncols == s.dim,
        j < s.dim,
        column_matches(*s, *a.pattern, j as int),
        old(uv)@.len() == s.u.row_idx@.len(),
    ensures
        final(uv)@.len() == old(uv)@.len(),
        forall|p: int|
            0 <= p < final(uv)@.len() && !s.u.in_col(p, j as int) ==> #[trigger] final(uv)@[p]
                == old(uv)@[p],
        forall|p: int| #[trigger]
            s.u.in_col(p, j as int) ==> final(uv)@[p] == if p == s.u.end(j as int) - 1 {
                source(*s, a)(j as int, j as int)
            } else {
                omega.times(source(*s, a)(s.u.row_idx@[p] as int, j as int))
            },
{
    let ghost jj = j as int;
    let ghost uv0 = uv@;
    let ghost src = source(*s, a);
    let a_start: usize = a.pattern.col_ptr[j];
    let d: usize = s.diag_pos[j];
    let u_start: usize = s.u.col_ptr[j];
    let u_end: usize = s.u.col_ptr[j + 1];
    proof {
        a.pattern.lemma_col_bounds(jj);
        s.u.lemma_col_bounds(jj);
        lemma_source_diagonal(*s, a, jj);
        assert(s.u.end(jj) - s.u.start(jj) == s.diag_pos@[jj] + 1);
        assert(s.u.start(jj) < s.u.end(jj) && s.u.row_idx@[s.u.end(jj) - 1] == jj);
    }
    let mut k: usize = 0;
    while k < d
        invariant
            jj == j,
            j < s.dim,
            s.wf(),
            a.wf(),
            src == source(*s, a),
            d == s.diag_pos@[jj],
            a_start == a.pattern.start(jj),
            a_start + d < a.values@.len(),
            u_start == s.u.start(jj),
            u_start + d + 1 == s.u.end(jj),
            s.u.end(jj) <= s.u.row_idx@.len(),
            k <= d,
            uv@.len() == s.u.row_idx@.len(),
            forall|p: int|
                0 <= p < uv@.len() && !s.u.in_col(p, jj) ==> #[trigger] uv@[p] == uv0[p],
            forall|p: int|
                u_start <= p < u_start + k ==> #[trigger] uv@[p] == omega.times(
                    src(s.u.row_idx@[p] as int, jj),
                ),
        decreases d - k,
    {
        proof {
            assert(s.u.in_col(u_start + k, jj));
            assert(s.u.sorted_col(jj));
            s.u.lemma_find_at(u_start + k, jj);
            assert(s.u.start(jj) < s.u.end(jj) && s.u.row_idx@[s.u.end(jj) - 1] == jj);
            assert(s.u.row_idx@[u_start + k] < s.u.row_idx@[s.u.end(jj) - 1]);
        }
        let x: T = omega.mul(&a.values[a_start + k]);
        uv.set(u_start + k, x);
        k += 1;
    }
    let dv: T = a.values[a_start + d].copy();
    uv.set(u_end - 1, dv);
}

} // verus!
