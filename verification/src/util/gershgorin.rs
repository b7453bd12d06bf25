//! The Gershgorin interval brackets the spectrum.
use super::spd_bounds::{centre, disc_hi, disc_lo, highest, lowest, radius};
use crate::linalg::{law_spmv, spmv};
use crate::lu::dense_entry;
use crate::reading::{
    abs_real, is_greatest, is_least, reads_magnitudes, reads_reals, real_sum,
};
use crate::scalar::{
    exact_field, is_real, lemma_minus_undoes_plus, lemma_null_is_neutral, lemma_plus_associates,
    lemma_plus_cancels, lemma_plus_commutes, lemma_times_distributes, RealScalar, Scalar,
};
use crate::sparse::CscModel;
use crate::sums::{lemma_matvec_sum, lemma_sum_equal, sum};
use vstd::prelude::*;

verus! {

/// The magnitude of the off-diagonal entry `(i, j)`, zero on the diagonal.
pub open spec fn off_magnitude<T: Scalar>(
    v: spec_fn(T::Real) -> real,
    a: CscModel<T>,
    i: int,
) -> spec_fn(int) -> real {
    |j: int|
        if j == i {
            0real
        } else {
            v(dense_entry(a, i, j).magnitude())
        }
}

/// Where the discs end below: the real part of the diagonal entry of row `i`, less
/// the magnitudes of the other entries of the row.
pub open spec fn disc_bottoms<T: Scalar>(
    v: spec_fn(T::Real) -> real,
    a: CscModel<T>,
) -> spec_fn(int) -> real {
    |i: int| diag_real(v, a, i) - real_sum(off_magnitude(v, a, i), a.pattern.ncols as int)
}

/// Where the discs end above: the real part of the diagonal entry of row `i`, plus
/// the magnitudes of the other entries of the row.
pub open spec fn disc_tops<T: Scalar>(
    v: spec_fn(T::Real) -> real,
    a: CscModel<T>,
) -> spec_fn(int) -> real {
    |i: int| diag_real(v, a, i) + real_sum(off_magnitude(v, a, i), a.pattern.ncols as int)
}

/// The real part of the diagonal entry `i`, zero where there is none.
pub open spec fn diag_real<T: Scalar>(
    v: spec_fn(T::Real) -> real,
    a: CscModel<T>,
    i: int,
) -> real {
    if a.pattern.has(i, i) {
        v(a.entry(i, i).real_part())
    } else {
        0real
    }
}

/// The radius and the centre, position by position within column `j`.
proof fn lemma_disc_column<T: Scalar>(
    v: spec_fn(T::Real) -> real,
    a: CscModel<T>,
    i: int,
    j: int,
    p: int,
)
    requires
        reads_reals(v),
        reads_magnitudes::<T>(v),
        a.wf(),
        a.pattern.nrows == a.pattern.ncols,
        a.pattern.sorted(),
        0 <= i < a.pattern.nrows,
        0 <= j < a.pattern.ncols,
        a.pattern.start(j) <= p <= a.pattern.end(j),
    ensures
        ({
            let q = a.pattern.find(i, j);
            let seen = a.pattern.has(i, j) && q < p;
            &&& v(radius(a, i, p)) == v(radius(a, i, a.pattern.start(j))) + if seen && i != j {
                v(a.values[q].magnitude())
            } else {
                0real
            }
            &&& centre(a, i, p) == if seen && i == j {
                a.values[q].real_part()
            } else {
                centre(a, i, a.pattern.start(j))
            }
        }),
    decreases p,
{
    let pat = a.pattern;
    pat.lemma_col_bounds(j);
    if pat.has(i, j) {
        pat.lemma_find(i, j);
    }
    if p > pat.start(j) {
        lemma_disc_column(v, a, i, j, p - 1);
        assert(pat.in_col(p - 1, j));
        if pat.in_col(p - 1, i) {
            pat.lemma_col_unique(p - 1, i, j);
        }
        assert(pat.sorted_col(j));
        if pat.row_idx@[p - 1] == i {
            pat.lemma_find_at(p - 1, j);
        } else if pat.has(i, j) {
            assert(pat.find(i, j) != p - 1);
        }
        reveal(reads_reals);
    }
}

/// The radius and the centre, column by column.
proof fn lemma_disc<T: Scalar>(v: spec_fn(T::Real) -> real, a: CscModel<T>, i: int, k: int)
    requires
        reads_reals(v),
        reads_magnitudes::<T>(v),
        a.wf(),
        a.pattern.nrows == a.pattern.ncols,
        a.pattern.sorted(),
        0 <= i < a.pattern.nrows,
        0 <= k <= a.pattern.ncols,
    ensures
        v(radius(a, i, a.pattern.col_ptr@[k] as int)) == real_sum(off_magnitude(v, a, i), k),
        centre(a, i, a.pattern.col_ptr@[k] as int) == if i < k && a.pattern.has(i, i) {
            a.entry(i, i).real_part()
        } else {
            T::Real::null()
        },
    decreases k,
{
    reveal(reads_reals);
    reveal(reads_magnitudes);
    if k > 0 {
        lemma_disc(v, a, i, k - 1);
        a.pattern.lemma_col_bounds(k - 1);
        lemma_disc_column(v, a, i, k - 1, a.pattern.end(k - 1));
        if a.pattern.has(i, k - 1) {
            a.pattern.lemma_find(i, k - 1);
        }
    }
}

/// The magnitude of a sum is at most the sum of the magnitudes.
proof fn lemma_triangle<T: Scalar>(
    v: spec_fn(T::Real) -> real,
    f: spec_fn(int) -> T,
    g: spec_fn(int) -> real,
    k: int,
)
    requires
        reads_magnitudes::<T>(v),
        forall|j: int| 0 <= j < k ==> v(#[trigger] f(j).magnitude()) <= g(j),
    ensures
        v(sum(f, k).magnitude()) <= real_sum(g, k),
    decreases k,
{
    reveal(reads_magnitudes);
    if k > 0 {
        lemma_triangle(v, f, g, k - 1);
        assert(v(f(k - 1).magnitude()) <= g(k - 1));
    }
}

/// A common factor leaves a sum.
pub proof fn lemma_real_sum_times(f: spec_fn(int) -> real, c: real, k: int)
    ensures
        real_sum(|j: int| f(j) * c, k) == real_sum(f, k) * c,
    decreases k,
{
    if k > 0 {
        lemma_real_sum_times(f, c, k - 1);
        let s = real_sum(f, k - 1);
        let x = f(k - 1);
        assert((s + x) * c == s * c + x * c) by (nonlinear_arith);
    } else {
        assert(0real * c == 0real) by (nonlinear_arith);
    }
}

/// A place where the magnitude is largest.
proof fn lemma_largest<T: Scalar>(v: spec_fn(T::Real) -> real, x: Seq<T>, k: int) -> (i: int)
    requires
        0 < k <= x.len(),
    ensures
        0 <= i < k,
        forall|j: int| 0 <= j < k ==> v(#[trigger] x[j].magnitude()) <= v(x[i].magnitude()),
    decreases k,
{
    if k == 1 {
        0
    } else {
        let i = lemma_largest(v, x, k - 1);
        if v(x[i].magnitude()) < v(x[k - 1].magnitude()) {
            k - 1
        } else {
            i
        }
    }
}

/// The ends of every disc lie within the interval.
proof fn lemma_extremes<T: Scalar>(v: spec_fn(T::Real) -> real, a: CscModel<T>, i: int, k: int)
    requires
        reads_reals(v),
        0 <= i < k,
    ensures
        v(lowest(a, k)) <= v(disc_lo(a, i)),
        v(disc_hi(a, i)) <= v(highest(a, k)),
    decreases k,
{
    reveal(reads_reals);
    if i < k - 1 {
        lemma_extremes(v, a, i, k - 1);
    }
}

/// Some disc reaches each end of the interval.
proof fn lemma_attained<T: Scalar>(a: CscModel<T>, k: int) -> (r: (int, int))
    requires
        0 < k,
    ensures
        0 <= r.0 < k,
        0 <= r.1 < k,
        lowest(a, k) == disc_lo(a, r.0),
        highest(a, k) == disc_hi(a, r.1),
    decreases k,
{
    if k == 1 {
        (0, 0)
    } else {
        let (lo, hi) = lemma_attained(a, k - 1);
        let lo1: int = if disc_lo(a, k - 1).below(lowest(a, k - 1)) {
            k - 1
        } else {
            lo
        };
        let hi1: int = if highest(a, k - 1).below(disc_hi(a, k - 1)) {
            k - 1
        } else {
            hi
        };
        (lo1, hi1)
    }
}

/// The Gershgorin interval reaches from the lowest end of a disc to the highest:
/// its ends are the least and the greatest of `Re a_ii` less, or plus, the sum of
/// `|a_ij|` over the other columns.
pub proof fn law_gershgorin_interval<T: Scalar>(v: spec_fn(T::Real) -> real, a: CscModel<T>)
    requires
        reads_reals(v),
        reads_magnitudes::<T>(v),
        a.wf(),
        a.pattern.nrows == a.pattern.ncols,
        a.pattern.sorted(),
        a.pattern.nrows > 0,
    ensures
        is_least(disc_bottoms(v, a), a.pattern.nrows as int, v(lowest(a, a.pattern.nrows as int))),
        is_greatest(disc_tops(v, a), a.pattern.nrows as int, v(highest(a, a.pattern.nrows as int))),
{
    let n = a.pattern.nrows as int;
    let bottoms = disc_bottoms(v, a);
    let tops = disc_tops(v, a);
    let (lo, hi) = lemma_attained(a, n);
    assert forall|i: int| 0 <= i < n implies #[trigger] bottoms(i) == v(disc_lo(a, i)) && tops(i)
        == v(disc_hi(a, i)) by {
        lemma_disc(v, a, i, n);
        reveal(reads_reals);
        assert(a.pattern.col_ptr@[n] == a.values.len());
    }
    assert forall|i: int| 0 <= i < n implies v(lowest(a, n)) <= #[trigger] bottoms(i) by {
        lemma_extremes(v, a, i, n);
    }
    assert forall|i: int| 0 <= i < n implies #[trigger] tops(i) <= v(highest(a, n)) by {
        lemma_extremes(v, a, i, n);
        assert(bottoms(i) == v(disc_lo(a, i)));
    }
    assert(v(lowest(a, n)) == bottoms(lo));
    assert(bottoms(hi) == v(disc_lo(a, hi)));
    assert(v(highest(a, n)) == tops(hi));
}

/// `sum` without one of its terms.
proof fn lemma_sum_split<T: Scalar>(f: spec_fn(int) -> T, g: spec_fn(int) -> T, k: int, at: int)
    requires
        exact_field::<T>(),
        0 <= at < k,
        g(at) == T::null(),
        forall|j: int| 0 <= j < k && j != at ==> #[trigger] g(j) == f(j),
    ensures
        sum(f, k) == f(at).plus(sum(g, k)),
    decreases k,
{
    if k - 1 == at {
        lemma_sum_equal(g, f, at);
        lemma_plus_commutes(sum(f, at), f(at));
        lemma_null_is_neutral(sum(g, at));
    } else {
        lemma_sum_split(f, g, k - 1, at);
        assert(g(k - 1) == f(k - 1));
        lemma_plus_associates(f(at), sum(g, k - 1), g(k - 1));
    }
}

/// For a matrix with a real diagonal, every eigenvalue that is real, as every one
/// of a Hermitian matrix is, lies in the Gershgorin interval.
pub proof fn law_gershgorin_brackets<T: Scalar>(
    v: spec_fn(T::Real) -> real,
    a: CscModel<T>,
    lambda: T::Real,
    x: Seq<T>,
)
    requires
        exact_field::<T>(),
        reads_reals(v),
        reads_magnitudes::<T>(v),
        a.wf(),
        a.pattern.nrows == a.pattern.ncols,
        a.pattern.sorted(),
        x.len() == a.pattern.ncols,
        exists|j: int| 0 <= j < x.len() && #[trigger] x[j] != T::null(),
        forall|j: int|
            0 <= j < x.len() ==> spmv(a, false, x, x.len() as int)[j] == T::embed(lambda).times(
                #[trigger] x[j],
            ),
        forall|j: int|
            0 <= j < x.len() && #[trigger] a.pattern.has(j, j) ==> is_real(a.entry(j, j)),
    ensures
        v(lowest(a, a.pattern.nrows as int)) <= v(lambda) <= v(
            highest(a, a.pattern.nrows as int),
        ),
{
    let n = x.len() as int;
    let nz = choose|j: int| 0 <= j < x.len() && #[trigger] x[j] != T::null();
    let i = lemma_largest(v, x, n);
    let m = v(x[i].magnitude());
    assert(0real < m) by {
        reveal(reads_magnitudes);
        assert(v(x[nz].magnitude()) <= m);
        assert(v(x[nz].magnitude()) != 0real);
    }
    let f = |j: int| dense_entry(a, i, j).times(x[j]);
    let off = |j: int|
        if j == i {
            T::null()
        } else {
            f(j)
        };
    law_spmv(a, x, n, i);
    lemma_matvec_sum(a, x, i, n);
    lemma_sum_split(f, off, n, i);
    let d = if a.pattern.has(i, i) {
        a.entry(i, i).real_part()
    } else {
        T::Real::null()
    };
    assert(T::embed(d) == dense_entry(a, i, i)) by {
        reveal(reads_reals);
        reveal(reads_magnitudes);
        assert(v(T::embed(T::Real::null()).magnitude()) == 0real);
    }
    let rest = sum(off, n);
    assert(sum(f, n) == T::embed(lambda).times(x[i]));
    let gap = T::embed(lambda).minus(T::embed(d));
    assert(gap.times(x[i]) == rest) by {
        lemma_minus_undoes_plus(T::embed(lambda), T::embed(d));
        lemma_times_distributes(gap, T::embed(d), x[i]);
        lemma_plus_commutes(f(i), rest);
        lemma_plus_cancels(gap.times(x[i]), rest, f(i));
    }
    let mags = off_magnitude(v, a, i);
    let bound = |j: int| mags(j) * m;
    assert forall|j: int| 0 <= j < n implies v(#[trigger] off(j).magnitude()) <= bound(j) by {
        reveal(reads_magnitudes);
        let e = v(dense_entry(a, i, j).magnitude());
        let y = v(x[j].magnitude());
        assert(y <= m);
        if j == i {
            assert(0real * m == 0real) by (nonlinear_arith);
        } else {
            assert(e * y <= e * m) by (nonlinear_arith)
                requires
                    0real <= e,
                    y <= m,
            ;
        }
    }
    lemma_triangle(v, off, bound, n);
    lemma_real_sum_times(mags, m, n);
    lemma_disc(v, a, i, n);
    let r = v(radius(a, i, a.values.len() as int));
    assert(a.pattern.col_ptr@[n] == a.values.len());
    assert(v(rest.magnitude()) <= r * m);
    let w = abs_real(v(lambda) - v(d));
    assert(w * m <= r * m) by {
        reveal(reads_reals);
        reveal(reads_magnitudes);
        assert(T::embed(lambda.minus(d)) == gap);
        assert(v(gap.magnitude()) == w);
        assert(v(gap.times(x[i]).magnitude()) == v(gap.magnitude()) * v(x[i].magnitude()));
    }
    assert(w <= r) by (nonlinear_arith)
        requires
            w * m <= r * m,
            0real < m,
    ;
    lemma_extremes(v, a, i, n);
    reveal(reads_reals);
    assert(centre(a, i, a.values.len() as int) == d);
    assert(v(disc_lo(a, i)) == v(d) - r);
    assert(v(disc_hi(a, i)) == v(d) + r);
}

} // verus!
