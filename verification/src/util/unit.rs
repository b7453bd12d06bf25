//! Unit vectors as dense columns.
use crate::dense::Mat;
use crate::scalar::Scalar;
use vstd::prelude::*;

verus! {

/// `e` is the unit vector `e_k`, restricted to `rows`.
pub open spec fn is_unit_column<T: Scalar>(rows: Seq<usize>, k: int, e: Mat<T>) -> bool {
    &&& e.wf()
    &&& e.nrows == rows.len()
    &&& e.ncols == 1
    &&& forall|r: int|
        0 <= r < rows.len() ==> #[trigger] e.at(r, 0) == if rows[r] == k {
            T::unit()
        } else {
            T::null()
        }
}

/// The unit vector `e_k`, restricted to `rows`.
pub fn unit_column<T: Scalar>(rows: &Vec<usize>, k: usize) -> (e: Mat<T>)
    ensures
        is_unit_column(rows@, k as int, e),
{
    let n: usize = rows.len();
    let mut e: Mat<T> = Mat::zeros(n, 1);
    let mut r: usize = 0;
    while r < n
        invariant
            n == rows@.len(),
            e.wf(),
            e.nrows == n,
            e.ncols == 1,
            r <= n,
            forall|x: int|
                0 <= x < r ==> #[trigger] e.col(0)[x] == if rows@[x] == k {
                    T::unit()
                } else {
                    T::null()
                },
            forall|x: int| r <= x < n ==> #[trigger] e.col(0)[x] == T::null(),
        decreases n - r,
    {
        if rows[r] == k {
            e.set(r, 0, T::one());
        }
        r += 1;
    }
    assert forall|x: int| 0 <= x < n implies #[trigger] e.at(x, 0) == if rows@[x] == k {
        T::unit()
    } else {
        T::null()
    } by {
        assert(e.col(0)[x] == e.at(x, 0));
    }
    e
}

} // verus!
