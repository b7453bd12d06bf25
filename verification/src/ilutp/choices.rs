//! What the parameters of the threshold factorisation decide: its pivots and the
//! size of its rows.
use vstd::prelude::*;

use super::dropping::lemma_upper_stored;
use super::laws::lemma_open_iff;
use super::numeric::{
    budget, built, competes, eliminated, mag_or_null, perm_before, pivoting, row_done, unsurpassed,
    Ilutp,
};
use super::{FillControl, IlutpError, IlutpParams, RowNorm};
use crate::lengths::lemma_not_less;
use crate::lu::dense_entry;
use crate::poly::differences::{lemma_associates, lemma_commutes};
use crate::reading::{
    reads_magnitudes, reads_nearest, reads_ratios, reads_reals, reads_tuning, within_half,
};
use crate::scalar::{RealScalar, Scalar};
use crate::sparse::CscRef;

verus! {

/// Where pivoting is on, nothing that row `i` of `U` stores is larger than its
/// pivot.
pub proof fn law_pivot_is_largest<T: Scalar>(
    v: spec_fn(T::Real) -> real,
    w: spec_fn(T::Tuning) -> real,
    f: Ilutp<T>,
    a: CscRef<'_, T>,
    i: int,
    k: int,
)
    requires
        reads_reals(v),
        reads_magnitudes::<T>(v),
        reads_reals(w),
        reads_ratios(w),
        reads_tuning::<T>(v, w),
        f.wf(),
        f.n == a.pattern.ncols,
        f.factors(a),
        0real < w(f.params.pivot_tol),
        0 <= i < f.n,
        0 <= k < f.n,
    ensures
        v(dense_entry(f.u_model(), i, k).magnitude()) <= v(
            dense_entry(f.u_model(), i, i).magnitude(),
        ),
{
    let n = f.n as int;
    let piv = f.perm@;
    let u = f.u_rows();
    let c = piv[k] as int;
    let q = piv[i] as int;
    let r = eliminated(a, f.params, piv, u, i);
    let d = perm_before(piv, n, i)[i] as int;
    assert(row_done(a, f.params, piv, u, f.l_rows(), i));
    lemma_upper_stored(f, a, i, k);
    lemma_upper_stored(f, a, i, i);
    lemma_open_iff(piv, f.perm_inv@, n, i, k);
    let tol = T::tuned(f.params.pivot_tol);
    assert(v(tol) == w(f.params.pivot_tol)) by {
        reveal(reads_tuning);
    }
    assert(0real < v(tol) <= 1real && T::Tuning::null().below(f.params.pivot_tol)) by {
        reveal(reads_reals);
        reveal(reads_ratios);
        assert(w(T::Tuning::ratio(1, 1)) * (1u64 as real) == (1u64 as real));
    }
    assert(pivoting::<T>(f.params) == Some(tol));
    let m = v(mag_or_null(r(q)));
    let dm = mag_or_null(r(d));
    assert(0real <= v(dm)) by {
        reveal(reads_magnitudes);
        reveal(reads_reals);
    }
    assert(v(tol.times(dm)) <= v(dm)) by {
        reveal(reads_reals);
        lemma_commutes(v(tol), v(dm));
        lemma_not_less(v(dm), v(tol), 1real);
        assert(v(dm) * 1real == v(dm)) by (nonlinear_arith);
    }
    reveal(reads_reals);
    reveal(reads_magnitudes);
    if f.u.has(i, k) && k != i {
        assert(c != q);
        if c == d {
            assert(v(dm) < m);
        } else {
            assert(competes(r, piv, n, i, d, c));
            if q == d && !unsurpassed(r, piv, n, i, d, dm) {
                let b = choose|b: int|
                    {
                        &&& #[trigger] competes(r, piv, n, i, d, b)
                        &&& dm.below(mag_or_null(r(b)))
                        &&& unsurpassed(r, piv, n, i, d, mag_or_null(r(b)))
                        &&& !tol.times(dm).below(mag_or_null(r(b)))
                    };
                assert(v(mag_or_null(r(b))) <= v(tol.times(dm)));
            }
        }
    }
}

/// A row gives up the column at its own place only for a larger entry: what it
/// still stores there is smaller than its pivot.
pub proof fn law_exchange_is_for_larger<T: Scalar>(
    v: spec_fn(T::Real) -> real,
    f: Ilutp<T>,
    a: CscRef<'_, T>,
    i: int,
    k: int,
)
    requires
        reads_reals(v),
        f.wf(),
        f.n == a.pattern.ncols,
        f.factors(a),
        0 <= i < f.n,
        0 <= k < f.n,
        k != i,
        f.perm@[k] == perm_before(f.perm@, f.n as int, i)[i],
        f.u.has(i, k),
    ensures
        v(dense_entry(f.u_model(), i, k).magnitude()) < v(
            dense_entry(f.u_model(), i, i).magnitude(),
        ),
{
    assert(row_done(a, f.params, f.perm@, f.u_rows(), f.l_rows(), i));
    lemma_upper_stored(f, a, i, k);
    lemma_upper_stored(f, a, i, i);
    assert(f.perm_inv@[f.perm@[k] as int] == k);
    assert(f.perm_inv@[f.perm@[i] as int] == i);
    reveal(reads_reals);
}

/// No row of `L` or of `U` stores more than its budget beside the diagonal.
pub proof fn law_rows_fit<T: Scalar>(f: Ilutp<T>, a: CscRef<'_, T>, i: int)
    requires
        f.wf(),
        f.n == a.pattern.ncols,
        f.factors(a),
        0 <= i < f.n,
    ensures
        ({
            let p = budget(f.params, a.pattern.row_idx@.len(), a.pattern.ncols as nat);
            &&& f.l_rows()[i].dom().finite()
            &&& f.l_rows()[i].dom().len() <= p
            &&& f.u_rows()[i].dom().finite()
            &&& f.u_rows()[i].dom().len() <= p + 1
        }),
{
    assert(row_done(a, f.params, f.perm@, f.u_rows(), f.l_rows(), i));
    let q = f.perm@[i] as int;
    let row = f.u_rows()[i].remove(q);
    assert(f.u_rows()[i].dom() =~= row.dom().insert(q));
}

proof fn lemma_cancels(x: real, y: real, d: real)
    by (nonlinear_arith)
    requires
        d > 0real,
        x * d == y * d,
    ensures
        x == y,
{
}

/// The budget of a row is the number given, or the given multiple `x` of the mean
/// number of entries in a row, rounded, and at least one.
pub proof fn law_budget<R: RealScalar>(
    w: spec_fn(R) -> real,
    params: IlutpParams<R>,
    nnz: nat,
    n: nat,
    x: real,
)
    requires
        reads_reals(w),
        reads_ratios(w),
        reads_nearest(w),
        0 < n <= u64::MAX,
        nnz <= u64::MAX,
        params.fill matches FillControl::Factor(f) ==> x * (n as real) == w(f) * (nnz as real),
        0real <= x <= (usize::MAX as real),
    ensures
        match params.fill {
            FillControl::PerRow(p) => budget(params, nnz, n) == p,
            FillControl::Factor(_) => if within_half(0, x) {
                budget(params, nnz, n) == 1
            } else {
                budget(params, nnz, n) >= 1 && within_half(budget(params, nnz, n) as int, x)
            },
        },
{
    if let FillControl::Factor(f) = params.fill {
        let q = R::ratio(nnz as u64, n as u64);
        let d = n as real;
        assert(w(q) * ((n as u64) as real) == ((nnz as u64) as real)) by {
            reveal(reads_ratios);
        }
        assert(w(q) * d == (nnz as real));
        lemma_associates(w(f), w(q), d);
        lemma_cancels(x, w(f) * w(q), d);
        assert(w(f.times(q)) == x) by {
            reveal(reads_reals);
        }
        reveal(reads_nearest);
        assert(within_half(f.times(q).nearest() as int, x));
        lemma_halves(f.times(q).nearest() as int, x);
    }
}

/// A number at most a half away from zero is at most a half away from zero and one
/// only.
proof fn lemma_halves(k: int, x: real)
    requires
        k >= 0,
        within_half(k, x),
    ensures
        within_half(0, x) ==> k <= 1,
        !within_half(0, x) && 0real <= x ==> k >= 1,
{
}

/// The parameters are refused exactly where the drop tolerance is negative, where
/// the pivot tolerance is not between zero and one, or where the fill factor is
/// not positive, and where one of them is not finite.
pub proof fn law_parameters<T: Scalar>(
    w: spec_fn(T::Tuning) -> real,
    a: CscRef<'_, T>,
    params: IlutpParams<T::Tuning>,
    r: Result<Ilutp<T>, IlutpError>,
)
    requires
        reads_reals(w),
        reads_ratios(w),
        built(a, params, r),
    ensures
        ({
            let drop_ok = params.drop_tol.is_finite_spec() && 0real <= w(params.drop_tol);
            let pivot_ok = params.pivot_tol.is_finite_spec() && 0real <= w(params.pivot_tol)
                <= 1real;
            let fill_ok = match params.fill {
                FillControl::PerRow(_) => true,
                FillControl::Factor(f) => f.is_finite_spec() && 0real < w(f),
            };
            &&& r == Err::<Ilutp<T>, IlutpError>(IlutpError::InvalidDropTol) <==> !drop_ok
            &&& r == Err::<Ilutp<T>, IlutpError>(IlutpError::InvalidPivotTol) <==> drop_ok
                && !pivot_ok
            &&& r == Err::<Ilutp<T>, IlutpError>(IlutpError::InvalidFillControl) <==> drop_ok
                && pivot_ok && !fill_ok
            &&& r is Ok ==> drop_ok && pivot_ok && fill_ok
        }),
        r is Ok ==> a.pattern.nrows == a.pattern.ncols,
{
    reveal(reads_reals);
    reveal(reads_ratios);
    assert(w(T::Tuning::ratio(1, 1)) * (1u64 as real) == (1u64 as real));
}

/// The parameters used where none are given: a drop tolerance of a thousandth in
/// the Euclidean norm, a fill factor of five and a pivot tolerance of a tenth.
pub proof fn law_default_parameters<R: RealScalar>(w: spec_fn(R) -> real, params: IlutpParams<R>)
    requires
        reads_ratios(w),
        params.is_default(),
    ensures
        1000real * w(params.drop_tol) == 1real,
        params.fill matches FillControl::Factor(f) && w(f) == 5real,
        10real * w(params.pivot_tol) == 1real,
        params.norm == RowNorm::Two,
{
    reveal(reads_ratios);
    assert(w(R::ratio(1, 1000)) * (1000u64 as real) == (1u64 as real));
    assert(w(R::ratio(5, 1)) * (1u64 as real) == (5u64 as real));
    assert(w(R::ratio(1, 10)) * (10u64 as real) == (1u64 as real));
}

} // verus!
