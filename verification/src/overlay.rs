//! Reading a sparse column into a dense one.
use vstd::prelude::*;

use crate::lu::dense_entry;
use crate::scalar::Scalar;
use crate::sparse::CscRef;

verus! {

/// The value that `(i, j)` has after the positions of column `j` before `p`
/// have been written over zero, in order.
pub open spec fn overlaid<T: Scalar>(a: CscRef<'_, T>, i: int, j: int, p: int) -> T
    decreases p - a.pattern.start(j),
{
    if p <= a.pattern.start(j) {
        T::null()
    } else if a.pattern.row_idx@[p - 1] == i {
        a.values@[p - 1]
    } else {
        overlaid(a, i, j, p - 1)
    }
}

/// The values of `a`, zero where nothing is stored; where an entry is stored
/// more than once, the last value counts.
pub open spec fn overlay<T: Scalar>(a: CscRef<'_, T>) -> spec_fn(int, int) -> T {
    |i: int, j: int| overlaid(a, i, j, a.pattern.end(j))
}

/// The entries of `a`, zero where nothing is stored.
pub open spec fn dense<T: Scalar>(a: CscRef<'_, T>) -> spec_fn(int, int) -> T {
    |i: int, j: int| dense_entry(a@, i, j)
}

/// Without repeated entries the overlay is the matrix itself.
pub proof fn lemma_overlay_is_dense<T: Scalar>(a: CscRef<'_, T>, i: int, j: int)
    requires
        a.wf(),
        0 <= j < a.pattern.ncols,
        a.pattern.sorted_col(j),
    ensures
        overlay(a)(i, j) == dense_entry(a@, i, j),
{
    a.pattern.lemma_col_bounds(j);
    lemma_overlaid_prefix(a, i, j, a.pattern.end(j));
    if a.pattern.has(i, j) {
        a.pattern.lemma_find(i, j);
    }
}

proof fn lemma_overlaid_prefix<T: Scalar>(a: CscRef<'_, T>, i: int, j: int, p: int)
    requires
        a.wf(),
        0 <= j < a.pattern.ncols,
        a.pattern.sorted_col(j),
        a.pattern.start(j) <= p <= a.pattern.end(j),
    ensures
        a.pattern.has(i, j) && a.pattern.find(i, j) < p ==> overlaid(a, i, j, p) == a.entry(i, j),
        !(a.pattern.has(i, j) && a.pattern.find(i, j) < p) ==> overlaid(a, i, j, p) == T::null(),
    decreases p,
{
    if p > a.pattern.start(j) {
        lemma_overlaid_prefix(a, i, j, p - 1);
        if a.pattern.row_idx@[p - 1] == i {
            assert(a.pattern.in_col(p - 1, j));
            a.pattern.lemma_find_at(p - 1, j);
        } else if a.pattern.has(i, j) {
            a.pattern.lemma_find(i, j);
        }
    } else if a.pattern.has(i, j) {
        a.pattern.lemma_find(i, j);
    }
}

/// Where nothing is stored the overlay is zero.
pub proof fn lemma_overlay_absent<T: Scalar>(a: CscRef<'_, T>, i: int, j: int, p: int)
    requires
        p <= a.pattern.end(j),
        !a.pattern.has(i, j),
    ensures
        overlaid(a, i, j, p) == T::null(),
    decreases p - a.pattern.start(j),
{
    if p > a.pattern.start(j) {
        assert(a.pattern.in_col(p - 1, j));
        lemma_overlay_absent(a, i, j, p - 1);
    }
}

} // verus!
