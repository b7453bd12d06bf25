//! Lengths of rows and columns, read as real numbers.
use crate::ilutp::RowNorm;
use crate::reading::real_sum;
use vstd::prelude::*;

verus! {

/// The squares of the values of `f`.
pub open spec fn squares(f: spec_fn(int) -> real) -> spec_fn(int) -> real {
    |k: int| f(k) * f(k)
}

/// `x` is the length of the vector whose first `n` entries have the magnitudes
/// `mags`: their sum, or the root of the sum of their squares.
pub open spec fn is_length(norm: RowNorm, mags: spec_fn(int) -> real, n: int, x: real) -> bool {
    match norm {
        RowNorm::One => x == real_sum(mags, n),
        RowNorm::Two => 0real <= x && x * x == real_sum(squares(mags), n),
    }
}

proof fn lemma_square_not_negative(x: real)
    by (nonlinear_arith)
    ensures
        x * x >= 0real,
{
}

proof fn lemma_grows(h: real, a: real, b: real)
    by (nonlinear_arith)
    requires
        h > 0real,
        a < b,
    ensures
        h * a < h * b,
{
}

/// A product grows with its second factor.
pub proof fn lemma_not_less(h: real, a: real, b: real)
    by (nonlinear_arith)
    requires
        h >= 0real,
        a <= b,
    ensures
        h * a <= h * b,
{
}

/// Larger numbers have larger squares.
proof fn lemma_square_grows(x: real, y: real)
    requires
        0real <= x < y,
    ensures
        x * x < y * y,
{
    lemma_not_less(x, x, y);
    lemma_grows(y, x, y);
    assert(x * y == y * x) by (nonlinear_arith);
}

/// A number that is not negative is given by its square.
pub proof fn lemma_root_unique(x: real, y: real)
    requires
        0real <= x,
        0real <= y,
        x * x == y * y,
    ensures
        x == y,
{
    if x < y {
        lemma_square_grows(x, y);
    }
    if y < x {
        lemma_square_grows(y, x);
    }
}

/// A sum of terms that are not negative is not negative.
pub proof fn lemma_real_sum_not_negative(f: spec_fn(int) -> real, k: int)
    requires
        forall|j: int| 0 <= j < k ==> 0real <= #[trigger] f(j),
    ensures
        0real <= real_sum(f, k),
    decreases k,
{
    if k > 0 {
        lemma_real_sum_not_negative(f, k - 1);
        assert(0real <= f(k - 1));
    }
}

/// The squares add up to something that is not negative.
pub proof fn lemma_squares_not_negative(f: spec_fn(int) -> real, k: int)
    ensures
        0real <= real_sum(squares(f), k),
{
    assert forall|j: int| 0 <= j < k implies 0real <= #[trigger] squares(f)(j) by {
        lemma_square_not_negative(f(j));
    }
    lemma_real_sum_not_negative(squares(f), k);
}

/// A vector has one length.
pub proof fn lemma_length_unique(
    norm: RowNorm,
    mags: spec_fn(int) -> real,
    n: int,
    x: real,
    y: real,
)
    requires
        is_length(norm, mags, n, x),
        is_length(norm, mags, n, y),
    ensures
        x == y,
{
    if norm is Two {
        lemma_root_unique(x, y);
    }
}

/// Equal terms have equal sums.
pub proof fn lemma_real_sum_equal(f: spec_fn(int) -> real, g: spec_fn(int) -> real, k: int)
    requires
        forall|j: int| 0 <= j < k ==> #[trigger] f(j) == g(j),
    ensures
        real_sum(f, k) == real_sum(g, k),
    decreases k,
{
    if k > 0 {
        lemma_real_sum_equal(f, g, k - 1);
        assert(f(k - 1) == g(k - 1));
    }
}

/// Leaving out one term takes it away from the sum.
proof fn lemma_real_sum_without(f: spec_fn(int) -> real, g: spec_fn(int) -> real, n: int, at: int)
    requires
        0 <= at < n,
        g(at) == 0real,
        forall|j: int| 0 <= j < n && j != at ==> #[trigger] g(j) == f(j),
    ensures
        real_sum(f, n) == real_sum(g, n) + f(at),
    decreases n,
{
    if at == n - 1 {
        lemma_real_sum_equal(g, f, n - 1);
    } else {
        lemma_real_sum_without(f, g, n - 1, at);
        assert(g(n - 1) == f(n - 1));
    }
}

/// A sum over a list without repetitions is the sum over all places, where `f` is
/// zero off the list.
pub proof fn lemma_real_sum_listed(f: spec_fn(int) -> real, list: Seq<int>, n: int)
    requires
        list.no_duplicates(),
        forall|k: int| #[trigger] list.contains(k) ==> 0 <= k < n,
        forall|k: int| 0 <= k < n && !list.contains(k) ==> #[trigger] f(k) == 0real,
    ensures
        real_sum(|s: int| f(list[s]), list.len() as int) == real_sum(f, n),
    decreases list.len(),
{
    let by_place = |s: int| f(list[s]);
    if list.len() == 0 {
        let none = |k: int| 0real;
        assert forall|k: int| 0 <= k < n implies #[trigger] f(k) == none(k) by {
            assert(!list.contains(k));
        }
        lemma_real_sum_equal(f, none, n);
        lemma_real_sum_none(none, n);
    } else {
        let last = list.last();
        let rest = list.drop_last();
        assert(list.contains(last));
        let g = |k: int|
            if k == last {
                0real
            } else {
                f(k)
            };
        assert forall|k: int| #[trigger] rest.contains(k) implies 0 <= k < n && k != last by {
            let t = rest.index_of(k);
            assert(list[t] == k);
            assert(list.contains(k));
        }
        assert forall|k: int| 0 <= k < n && !rest.contains(k) implies #[trigger] g(k) == 0real by {
            if k != last && list.contains(k) {
                let t = list.index_of(k);
                assert(rest[t] == k);
            }
        }
        lemma_real_sum_listed(g, rest, n);
        lemma_real_sum_without(f, g, n, last);
        let short = |s: int| g(rest[s]);
        assert forall|s: int| 0 <= s < rest.len() implies #[trigger] short(s) == by_place(s) by {
            assert(list[s] != list[list.len() - 1]);
        }
        lemma_real_sum_equal(short, by_place, rest.len() as int);
    }
}

/// Zeros add up to zero.
proof fn lemma_real_sum_none(f: spec_fn(int) -> real, n: int)
    requires
        forall|k: int| 0 <= k < n ==> #[trigger] f(k) == 0real,
    ensures
        real_sum(f, n) == 0real,
    decreases n,
{
    if n > 0 {
        lemma_real_sum_none(f, n - 1);
        assert(f(n - 1) == 0real);
    }
}

} // verus!
