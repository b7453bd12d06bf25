//! What the parameters of the threshold Cholesky factorisation decide, and when it
//! succeeds.
use vstd::prelude::*;

use super::dropping::{left_over, lemma_left_over};
use super::numeric::{built, col_maps, column_budget, column_done, kept_rows, updated, Ict};
use super::order::update_seq;
use super::{FillControl, IctError, IctParams, RowNorm};
use crate::reading::{reads_nearest, reads_ratios, reads_reals, within_half};
use crate::scalar::{exact_conjugation, exact_field, exact_negation, RealScalar, Scalar};
use crate::sparse::CscRef;

verus! {

/// No column of `L` stores more than its budget below the diagonal.
pub proof fn law_columns_fit<T: Scalar>(f: Ict<T>, a: CscRef<'_, T>, j: int)
    requires
        f.wf(),
        f.dim == a.pattern.ncols,
        f.factors(a),
        0 <= j < f.dim,
    ensures
        col_maps(f.l, f.l_values@)[j].dom().finite(),
        col_maps(f.l, f.l_values@)[j].dom().len() <= 1 + column_budget(
            f.params,
            a.pattern.row_idx@.len(),
            a.pattern.ncols as nat,
        ),
{
    let cols = col_maps(f.l, f.l_values@);
    assert(column_done(a, f.params, cols, j));
    let col = updated(a, cols, update_seq(cols, f.dim as int, j), j);
    let kept = kept_rows(cols[j], col, j);
    assert(cols[j].dom().contains(j));
    assert(cols[j].dom() =~= kept.dom().insert(j));
}

/// A factorisation succeeds only with positive pivots: what is left on the
/// diagonal has a positive real part in every column.
pub proof fn law_pivots_are_positive<T: Scalar>(
    v: spec_fn(T::Real) -> real,
    f: Ict<T>,
    a: CscRef<'_, T>,
    j: int,
)
    requires
        exact_field::<T>(),
        exact_conjugation::<T>(),
        exact_negation::<T>(),
        reads_reals(v),
        a.wf(),
        f.wf(),
        f.dim == a.pattern.ncols,
        f.factors(a),
        0 <= j < f.dim,
    ensures
        0real < v(left_over(f, a, j, j).real_part()),
{
    assert(column_done(a, f.params, col_maps(f.l, f.l_values@), j));
    lemma_left_over(f, a, j, j);
    reveal(reads_reals);
}

proof fn lemma_cancels(x: real, y: real, d: real)
    by (nonlinear_arith)
    requires
        d > 0real,
        x * d == y * d,
    ensures
        x == y,
{
}

/// The budget of a column is the number given, or the given multiple `x` of the
/// mean number of entries in a column, rounded, and at least one.
pub proof fn law_column_budget<R: RealScalar>(
    w: spec_fn(R) -> real,
    params: IctParams<R>,
    nnz: nat,
    n: nat,
    x: real,
)
    requires
        reads_reals(w),
        reads_ratios(w),
        reads_nearest(w),
        0 < n <= u64::MAX,
        nnz <= u64::MAX,
        params.fill matches FillControl::Factor(f) ==> x * (n as real) == w(f) * (nnz as real),
        0real <= x <= (usize::MAX as real),
    ensures
        match params.fill {
            FillControl::PerRow(p) => column_budget(params, nnz, n) == p,
            FillControl::Factor(_) => if within_half(0, x) {
                column_budget(params, nnz, n) == 1
            } else {
                column_budget(params, nnz, n) >= 1 && within_half(
                    column_budget(params, nnz, n) as int,
                    x,
                )
            },
        },
{
    if let FillControl::Factor(f) = params.fill {
        let top = f.times(R::ratio(nnz as u64, 1));
        let den = R::ratio(n as u64, 1);
        let d = n as real;
        assert(w(den) == d && w(R::ratio(nnz as u64, 1)) == (nnz as real)) by {
            reveal(reads_ratios);
            assert(w(den) * (1u64 as real) == ((n as u64) as real));
            assert(w(R::ratio(nnz as u64, 1)) * (1u64 as real) == ((nnz as u64) as real));
        }
        assert(w(top) == w(f) * (nnz as real) && w(top.over(den)) * w(den) == w(top)) by {
            reveal(reads_reals);
        }
        lemma_cancels(x, w(top.over(den)), d);
        reveal(reads_nearest);
        assert(within_half(top.over(den).nearest() as int, x));
    }
}

/// The parameters are refused exactly where the drop tolerance is negative, or
/// where the fill factor is not positive, and where one of them is not finite.
pub proof fn law_parameters<T: Scalar>(
    w: spec_fn(T::Tuning) -> real,
    a: CscRef<'_, T>,
    params: IctParams<T::Tuning>,
    r: Result<Ict<T>, IctError>,
)
    requires
        reads_reals(w),
        built(a, params, r),
    ensures
        ({
            let drop_ok = params.drop_tol.is_finite_spec() && 0real <= w(params.drop_tol);
            let fill_ok = match params.fill {
                FillControl::PerRow(_) => true,
                FillControl::Factor(f) => f.is_finite_spec() && 0real < w(f),
            };
            &&& r == Err::<Ict<T>, IctError>(IctError::InvalidDropTol) <==> !drop_ok
            &&& r == Err::<Ict<T>, IctError>(IctError::InvalidFillControl) <==> drop_ok && !fill_ok
            &&& r is Ok ==> drop_ok && fill_ok
        }),
        r is Ok ==> a.pattern.nrows == a.pattern.ncols,
{
    reveal(reads_reals);
}

/// The parameters used where none are given: a drop tolerance of a thousandth in
/// the Euclidean norm, and a fill factor of five.
pub proof fn law_default_parameters<R: RealScalar>(w: spec_fn(R) -> real, params: IctParams<R>)
    requires
        reads_ratios(w),
        params.is_default(),
    ensures
        1000real * w(params.drop_tol) == 1real,
        params.fill matches FillControl::Factor(f) && w(f) == 5real,
        params.norm == RowNorm::Two,
{
    reveal(reads_ratios);
    assert(w(R::ratio(1, 1000)) * (1000u64 as real) == (1u64 as real));
    assert(w(R::ratio(5, 1)) * (1u64 as real) == (5u64 as real));
}

} // verus!
