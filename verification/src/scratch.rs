//! How much scratch memory an apply asks for.
use crate::scalar::Scalar;
use vstd::layout::{align_of, size_of};
use vstd::prelude::*;

verus! {

/// A scratch memory requirement. An alignment of zero marks a requirement
/// whose size does not fit in `usize`.
#[derive(Debug, Clone, Copy, PartialEq, Eq)]
pub struct Scratch {
    pub bytes: usize,
    pub align: usize,
}

/// Room for `n` elements of type `T`, or the mark of an overflow.
pub open spec fn scratch_for<T>(n: nat) -> Scratch {
    if n * size_of::<T>() <= usize::MAX {
        Scratch { bytes: (n * size_of::<T>()) as usize, align: align_of::<T>() as usize }
    } else {
        Scratch { bytes: 0, align: 0 }
    }
}

/// `dyn_stack::StackReq::new`, read back by `size_bytes` and `align_bytes`:
/// room for `n` elements of type `T`, aligned as `T` is; where that many bytes
/// do not fit in `usize`, no bytes with an alignment of zero.
#[verifier::external_body]
fn stack_req<T>(n: usize) -> (r: (usize, usize))
    ensures
        (Scratch { bytes: r.0, align: r.1 }) == scratch_for::<T>(n as nat),
{
    let req = dyn_stack::StackReq::new::<T>(n);
    (req.size_bytes(), req.align_bytes())
}

/// Room for `n` and for `m` elements of type `T` at once, or the mark of an
/// overflow.
pub open spec fn scratch_for_both<T>(n: nat, m: nat) -> Scratch {
    if (n + m) * size_of::<T>() <= usize::MAX {
        Scratch { bytes: ((n + m) * size_of::<T>()) as usize, align: align_of::<T>() as usize }
    } else {
        Scratch { bytes: 0, align: 0 }
    }
}

/// `dyn_stack::StackReq::and` of the requirements for `n` and for `m` elements
/// of type `T`: both sizes are multiples of the alignment of `T`, so their sum
/// is asked for, with that alignment; where it does not fit in `usize`, no bytes
/// with an alignment of zero.
#[verifier::external_body]
fn stack_req_both<T>(n: usize, m: usize) -> (r: (usize, usize))
    ensures
        (Scratch { bytes: r.0, align: r.1 }) == scratch_for_both::<T>(n as nat, m as nat),
{
    let req = dyn_stack::StackReq::new::<T>(n).and(dyn_stack::StackReq::new::<T>(m));
    (req.size_bytes(), req.align_bytes())
}

impl Scratch {
    /// No memory.
    pub fn empty() -> (r: Self)
        ensures
            r == (Scratch { bytes: 0, align: 1 }),
    {
        Scratch { bytes: 0, align: 1 }
    }

    /// Room for `n` scalars.
    pub fn elements<T: Scalar>(n: usize) -> (r: Self)
        ensures
            r == scratch_for::<T>(n as nat),
    {
        let (bytes, align): (usize, usize) = stack_req::<T>(n);
        Scratch { bytes, align }
    }

    /// Room for two buffers of scalars at once.
    pub fn both<T: Scalar>(n: usize, m: usize) -> (r: Self)
        ensures
            r == scratch_for_both::<T>(n as nat, m as nat),
    {
        let (bytes, align): (usize, usize) = stack_req_both::<T>(n, m);
        Scratch { bytes, align }
    }
}

} // verus!
