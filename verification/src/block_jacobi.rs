//! Block-Jacobi preconditioner.
//!
//! `M = blkdiag(A_1, ..., A_p)` where each `A_k` is the dense diagonal block
//! `A[off_k..off_{k+1}, off_k..off_{k+1}]` of the source matrix. Each block is
//! factored with partial-pivoted LU once at construction; subsequent applies
//! are dense solves with the factors.
//!
//! The dense kernels are passed in: `lu` factors a block, and `solve` solves
//! with its factor. Everything else (the partition, the packed storage, which
//! rows meet which block) is decided here.
use crate::dense::Mat;
use crate::inverse::dense_times;
use crate::op::Op;
use crate::scalar::{
    exact_field, lemma_null_absorbs, lemma_times_commutes, vanishes, zeros, RealScalar, Scalar,
};
use crate::sums::{lemma_sum_equal, lemma_sum_window, sum};
use crate::util::text::{decimal, not_square, not_square_text, number, phrase, with_number};
use vstd::prelude::*;
use vstd::slice::slice_subrange;

verus! {

/// Why a [`BlockJacobiPrecond`] could not be built.
#[derive(Debug, Clone, Copy, PartialEq, Eq)]
pub enum BlockJacobiError {
    /// The source matrix was not square.
    NonSquareMatrix { nrows: usize, ncols: usize },
    /// Less than two offsets were supplied (need at least one block).
    EmptyBlocks,
    /// The first offset must be `0`.
    BlockOffsetsMustStartAtZero { first: usize },
    /// The last offset must equal the matrix dimension.
    BlockOffsetsMustEndAtDim { last: usize, dim: usize },
    /// Offsets must be strictly increasing: blocks of size 0 are rejected.
    BlockOffsetsNotStrictlyIncreasing { index: usize, prev: usize, curr: usize },
    /// One of the diagonal blocks was singular (numerically rank-deficient).
    SingularBlock { block_index: usize },
}

impl BlockJacobiError {
    /// What the error says.
    pub open spec fn text(self) -> Seq<char> {
        match self {
            BlockJacobiError::NonSquareMatrix { nrows, ncols } => not_square(nrows, ncols),
            BlockJacobiError::EmptyBlocks => "at least one block is required"@,
            BlockJacobiError::BlockOffsetsMustStartAtZero { first } => with_number(
                "block offsets must start at 0 but start at "@,
                first,
                ""@,
            ),
            BlockJacobiError::BlockOffsetsMustEndAtDim { last, dim } => with_number(
                "block offsets must end at the matrix dimension "@,
                dim,
                " but end at "@,
            ) + decimal(last as nat),
            BlockJacobiError::BlockOffsetsNotStrictlyIncreasing { index, prev, curr } => {
                with_number(
                    "block offsets must be strictly increasing: offset["@,
                    index,
                    "]="@,
                ) + with_number(""@, curr, " <= offset["@) + with_number(
                    ""@,
                    (index - 1) as usize,
                    "]="@,
                ) + decimal(prev as nat)
            },
            BlockJacobiError::SingularBlock { block_index } => with_number(
                "diagonal block "@,
                block_index,
                " is singular"@,
            ),
        }
    }

    /// What the error says. An offset can only be compared with the one before it,
    /// so the index of an offset out of order is at least one.
    pub fn message(&self) -> (r: String)
        requires
            *self matches BlockJacobiError::BlockOffsetsNotStrictlyIncreasing { index, .. } ==> index
                >= 1,
        ensures
            r@ == self.text(),
    {
        match self {
            BlockJacobiError::NonSquareMatrix { nrows, ncols } => not_square_text(*nrows, *ncols),
            BlockJacobiError::EmptyBlocks => "at least one block is required".to_owned(),
            BlockJacobiError::BlockOffsetsMustStartAtZero { first } => phrase(
                "block offsets must start at 0 but start at ",
                *first,
                "",
            ),
            BlockJacobiError::BlockOffsetsMustEndAtDim { last, dim } => phrase(
                "block offsets must end at the matrix dimension ",
                *dim,
                " but end at ",
            ).concat(number(*last).as_str()),
            BlockJacobiError::BlockOffsetsNotStrictlyIncreasing { index, prev, curr } => phrase(
                "block offsets must be strictly increasing: offset[",
                *index,
                "]=",
            ).concat(phrase("", *curr, " <= offset[").as_str()).concat(
                phrase("", *index - 1, "]=").as_str(),
            ).concat(number(*prev).as_str()),
            BlockJacobiError::SingularBlock { block_index } => phrase(
                "diagonal block ",
                *block_index,
                " is singular",
            ),
        }
    }
}

/// The LU factor of one block: the packed `L` and `U`, and the row permutation
/// with its inverse.
#[derive(Debug, Clone)]
pub struct BlockFactor<T> {
    pub lu: Mat<T>,
    pub perm_fwd: Vec<usize>,
    pub perm_inv: Vec<usize>,
}

/// Block-Jacobi preconditioner: `M^{-1} y = blkdiag(A_k^{-1}) y`.
///
/// All LU factors are packed one after another in column-major order into one
/// buffer, and the permutations into two buffers of total length `n`.
#[derive(Debug, Clone)]
pub struct BlockJacobiPrecond<T> {
    pub n: usize,
    pub block_offsets: Vec<usize>,
    pub factor_offsets: Vec<usize>,
    pub factors: Vec<T>,
    pub perm_fwd: Vec<usize>,
    pub perm_inv: Vec<usize>,
    pub max_block_size: usize,
}

/// The first `k` steps of `offsets` go up.
pub open spec fn increasing_upto(offsets: Seq<usize>, k: int) -> bool {
    forall|i: int, j: int| 0 <= i < j <= k ==> #[trigger] offsets[i] < #[trigger] offsets[j]
}

/// `offsets` partitions `0 .. n` into non-empty blocks.
pub open spec fn partitions(offsets: Seq<usize>, n: int) -> bool {
    &&& offsets.len() >= 2
    &&& offsets[0] == 0
    &&& offsets.last() == n
    &&& increasing_upto(offsets, offsets.len() - 1)
}

/// The size of block `k`.
pub open spec fn block_size(offsets: Seq<usize>, k: int) -> int {
    offsets[k + 1] - offsets[k]
}

/// The factor of block `k` takes the square of its size.
pub open spec fn packed(offsets: Seq<usize>, fo: Seq<usize>, k: int) -> bool {
    fo[k + 1] == fo[k] + block_size(offsets, k) * block_size(offsets, k)
}

/// `b` is the diagonal block of `a` between the offsets of block `k`.
pub open spec fn is_block<T>(a: Mat<T>, offsets: Seq<usize>, k: int, b: Mat<T>) -> bool {
    &&& b.wf()
    &&& b.nrows == block_size(offsets, k)
    &&& b.ncols == block_size(offsets, k)
    &&& forall|i: int, j: int|
        0 <= i < b.nrows && 0 <= j < b.ncols ==> #[trigger] b.at(i, j) == a.at(
            offsets[k] + i,
            offsets[k] + j,
        )
}

/// The factor has the shape of a block of size `size`.
pub open spec fn factor_ok<T>(f: BlockFactor<T>, size: int) -> bool {
    &&& f.lu.wf()
    &&& f.lu.nrows == size
    &&& f.lu.ncols == size
    &&& f.perm_fwd@.len() == size
    &&& f.perm_inv@.len() == size
}

/// The diagonal of `U` has a zero.
pub open spec fn has_zero_pivot<T: Scalar>(lu: Mat<T>) -> bool {
    exists|i: int| 0 <= i < lu.nrows && vanishes(#[trigger] lu.at(i, i))
}

/// `lu` accepts every square block and returns a factor of its shape.
pub open spec fn factors_blocks<T, F: Fn(&Mat<T>) -> BlockFactor<T>>(lu: F) -> bool {
    &&& forall|b: Mat<T>|
        b.wf() && b.nrows == b.ncols ==> #[trigger] call_requires(lu, (&b,))
    &&& forall|b: Mat<T>, f: BlockFactor<T>|
        b.wf() && b.nrows == b.ncols && #[trigger] call_ensures(lu, (&b,), f) ==> factor_ok(
            f,
            b.nrows as int,
        )
}

/// `f` is a factor that `lu` gave for block `k` of `a`.
pub open spec fn factor_of<T, F: Fn(&Mat<T>) -> BlockFactor<T>>(
    lu: F,
    a: Mat<T>,
    offsets: Seq<usize>,
    k: int,
    f: BlockFactor<T>,
) -> bool {
    exists|b: Mat<T>| is_block(a, offsets, k, b) && #[trigger] call_ensures(lu, (&b,), f)
}

impl<T> BlockJacobiPrecond<T> {
    pub open spec fn wf(&self) -> bool {
        &&& partitions(self.block_offsets@, self.n as int)
        &&& self.factor_offsets@.len() == self.block_offsets@.len()
        &&& self.factor_offsets@[0] == 0
        &&& self.factor_offsets@.last() == self.factors@.len()
        &&& forall|k: int|
            0 <= k < self.blocks() ==> #[trigger] packed(
                self.block_offsets@,
                self.factor_offsets@,
                k,
            )
        &&& self.perm_fwd@.len() == self.n
        &&& self.perm_inv@.len() == self.n
        &&& is_largest(self.block_offsets@, self.blocks(), self.max_block_size as int)
    }

    /// The number of blocks.
    pub open spec fn blocks(&self) -> int {
        self.block_offsets@.len() - 1
    }

    /// Block `k` keeps the factor `f`.
    pub open spec fn keeps(&self, k: int, f: BlockFactor<T>) -> bool {
        let s = self.block_offsets@[k] as int;
        let e = self.block_offsets@[k + 1] as int;
        &&& f.lu.nrows == e - s
        &&& f.lu.ncols == e - s
        &&& f.lu.data@ == self.factors@.subrange(
            self.factor_offsets@[k] as int,
            self.factor_offsets@[k + 1] as int,
        )
        &&& f.perm_fwd@ == self.perm_fwd@.subrange(s, e)
        &&& f.perm_inv@ == self.perm_inv@.subrange(s, e)
    }

    /// Dimension `n` of the preconditioner (sum of block sizes).
    pub fn dim(&self) -> (r: usize)
        ensures
            r == self.n,
    {
        self.n
    }

    /// `true` if the preconditioner has dimension zero.
    pub fn is_empty(&self) -> (r: bool)
        ensures
            r == (self.n == 0),
    {
        self.n == 0
    }

    /// Number of diagonal blocks.
    pub fn block_count(&self) -> (r: usize)
        ensures
            self.block_offsets@.len() > 0 ==> r == self.blocks(),
            self.block_offsets@.len() == 0 ==> r == 0,
    {
        let len: usize = self.block_offsets.len();
        if len > 0 {
            len - 1
        } else {
            0
        }
    }

    /// Slice of length `block_count() + 1` giving the row/column offsets of each
    /// block.
    pub fn block_offsets(&self) -> (r: &[usize])
        ensures
            r@ == self.block_offsets@,
    {
        self.block_offsets.as_slice()
    }

    /// Size of the largest block.
    pub fn max_block_size(&self) -> (r: usize)
        ensures
            r == self.max_block_size,
            self.wf() ==> is_largest(self.block_offsets@, self.blocks(), r as int),
    {
        self.max_block_size
    }
}

/// `m` is the size of a largest block among the first `k`, and zero where there
/// is none.
pub open spec fn is_largest(offsets: Seq<usize>, k: int, m: int) -> bool {
    &&& m >= 0
    &&& forall|b: int| 0 <= b < k ==> #[trigger] block_size(offsets, b) <= m
    &&& k > 0 ==> exists|b: int| 0 <= b < k && #[trigger] block_size(offsets, b) == m
}

/// What is wrong with `offsets` as a partition of `0 .. n`, if anything is.
pub open spec fn partition_error(offsets: Seq<usize>, n: usize, e: BlockJacobiError) -> bool {
    if offsets.len() < 2 {
        e is EmptyBlocks
    } else if offsets[0] != 0 {
        e == BlockJacobiError::BlockOffsetsMustStartAtZero { first: offsets[0] }
    } else if offsets.last() != n {
        e == BlockJacobiError::BlockOffsetsMustEndAtDim { last: offsets.last(), dim: n }
    } else {
        &&& e matches BlockJacobiError::BlockOffsetsNotStrictlyIncreasing { index, prev, curr }
        &&& 1 <= index < offsets.len()
        &&& increasing_upto(offsets, index - 1)
        &&& prev == offsets[index - 1]
        &&& curr == offsets[index as int]
        &&& curr <= prev
    }
}

/// Checks that `offsets` partitions `0 .. n`.
fn check_partition(offsets: &[usize], n: usize) -> (r: Result<(), BlockJacobiError>)
    ensures
        r is Ok <==> partitions(offsets@, n as int),
        r matches Err(e) ==> partition_error(offsets@, n, e),
{
    let len: usize = offsets.len();
    if len < 2 {
        return Err(BlockJacobiError::EmptyBlocks);
    }
    if offsets[0] != 0 {
        return Err(BlockJacobiError::BlockOffsetsMustStartAtZero { first: offsets[0] });
    }
    if offsets[len - 1] != n {
        return Err(BlockJacobiError::BlockOffsetsMustEndAtDim { last: offsets[len - 1], dim: n });
    }
    let mut i: usize = 1;
    while i < len
        invariant
            len == offsets@.len(),
            1 <= i <= len,
            offsets@[0] == 0,
            offsets@.last() == n,
            increasing_upto(offsets@, i - 1),
        decreases len - i,
    {
        if offsets[i] <= offsets[i - 1] {
            assert(!increasing_upto(offsets@, len - 1)) by {
                assert(offsets@[i as int] <= offsets@[i - 1]);
            }
            return Err(
                BlockJacobiError::BlockOffsetsNotStrictlyIncreasing {
                    index: i,
                    prev: offsets[i - 1],
                    curr: offsets[i],
                },
            );
        }
        i += 1;
    }
    Ok(())
}

/// Squares of non-negative numbers add up to at most the square of the sum.
proof fn lemma_square_of_sum(a: int, b: int)
    requires
        0 <= a,
        0 <= b,
    ensures
        0 <= a * a,
        0 <= b * b,
        a * a + b * b <= (a + b) * (a + b),
{
    assert(0 <= a * a && 0 <= b * b && a * a + b * b <= (a + b) * (a + b)) by (nonlinear_arith)
        requires
            0 <= a,
            0 <= b,
    ;
}

/// A square grows with its side.
proof fn lemma_square_mono(a: int, b: int)
    requires
        0 <= a <= b,
    ensures
        a * a <= b * b,
{
    assert(a * a <= b * b) by (nonlinear_arith)
        requires
            0 <= a <= b,
    ;
}

/// Where the factor of each block starts, and the size of the largest block.
fn factor_layout(offsets: &[usize], n: usize) -> (r: (Vec<usize>, usize))
    requires
        partitions(offsets@, n as int),
        n * n <= usize::MAX,
    ensures
        r.0@.len() == offsets@.len(),
        r.0@[0] == 0,
        forall|k: int| 0 <= k < offsets@.len() - 1 ==> #[trigger] packed(offsets@, r.0@, k),
        is_largest(offsets@, offsets@.len() - 1, r.1 as int),
{
    let nblocks: usize = offsets.len() - 1;
    let mut factor_offsets: Vec<usize> = Vec::with_capacity(nblocks + 1);
    factor_offsets.push(0);
    let mut total: usize = 0;
    let mut max_size: usize = 0;
    let mut i: usize = 0;
    while i < nblocks
        invariant
            partitions(offsets@, n as int),
            n * n <= usize::MAX,
            nblocks == offsets@.len() - 1,
            i <= nblocks,
            factor_offsets@.len() == i + 1,
            factor_offsets@[0] == 0,
            factor_offsets@[i as int] == total,
            total <= offsets@[i as int] * offsets@[i as int],
            forall|k: int| 0 <= k < i ==> #[trigger] packed(offsets@, factor_offsets@, k),
            is_largest(offsets@, i as int, max_size as int),
            i == 0 ==> max_size == 0,
        decreases nblocks - i,
    {
        let ghost m0 = max_size as int;
        assert(offsets@[i as int] < offsets@[i + 1]);
        let size: usize = offsets[i + 1] - offsets[i];
        proof {
            lemma_square_of_sum(offsets@[i as int] as int, size as int);
            if i + 1 < nblocks {
                assert(offsets@[i + 1] < offsets@[nblocks as int]);
            }
            assert(offsets@[i + 1] <= offsets@.last());
            lemma_square_mono(offsets@[i + 1] as int, n as int);
            assert(size == block_size(offsets@, i as int));
        }
        if size > max_size {
            max_size = size;
        }
        total = total + size * size;
        let ghost fo0 = factor_offsets@;
        factor_offsets.push(total);
        proof {
            assert forall|k: int| 0 <= k < i + 1 implies #[trigger] packed(
                offsets@,
                factor_offsets@,
                k,
            ) by {
                if k < i {
                    assert(packed(offsets@, fo0, k));
                }
            }
            assert forall|b: int| 0 <= b < i + 1 implies #[trigger] block_size(offsets@, b)
                <= max_size by {
                if b < i {
                    assert(block_size(offsets@, b) <= m0);
                }
            }
            if size > m0 {
                assert(block_size(offsets@, i as int) == max_size);
            } else {
                if i > 0 {
                    let b = choose|b: int| 0 <= b < i && #[trigger] block_size(offsets@, b) == m0;
                    assert(block_size(offsets@, b) == max_size);
                } else {
                    assert(block_size(offsets@, 0) == max_size);
                }
            }
        }
        i += 1;
    }
    (factor_offsets, max_size)
}

/// The diagonal block of `a` that starts at `start`.
fn copy_block<T: Scalar>(a: &Mat<T>, offsets: &[usize], k: usize) -> (b: Mat<T>)
    requires
        a.wf(),
        a.nrows == a.ncols,
        partitions(offsets@, a.nrows as int),
        k < offsets@.len() - 1,
    ensures
        is_block(*a, offsets@, k as int, b),
{
    let n: usize = a.nrows;
    let len: usize = a.data.len();
    let ghost kk = k as int;
    proof {
        assert(offsets@[kk] < offsets@[kk + 1]);
        if kk + 1 < offsets@.len() - 1 {
            assert(offsets@[kk + 1] < offsets@[offsets@.len() - 1]);
        }
        assert(offsets@[kk + 1] <= n);
    }
    let start: usize = offsets[k];
    let size: usize = offsets[k + 1] - start;
    proof {
        lemma_square_mono(size as int, n as int);
        assert(size * size <= len);
    }
    let mut b: Mat<T> = Mat::zeros(size, size);
    let mut j: usize = 0;
    while j < size
        invariant
            a.wf(),
            a.nrows == n,
            a.ncols == n,
            start + size <= n,
            b.wf(),
            b.nrows == size,
            b.ncols == size,
            j <= size,
            forall|c: int, i: int|
                0 <= c < j && 0 <= i < size ==> #[trigger] b.col(c)[i] == a.at(
                    start + i,
                    start + c,
                ),
        decreases size - j,
    {
        let mut i: usize = 0;
        let ghost b0 = b;
        while i < size
            invariant
                a.wf(),
                a.nrows == n,
                a.ncols == n,
                start + size <= n,
                b.wf(),
                b.nrows == size,
                b.ncols == size,
                j < size,
                i <= size,
                b0.ncols == size,
                forall|c: int| 0 <= c < size && c != j ==> #[trigger] b.col(c) == b0.col(c),
                forall|r: int|
                    0 <= r < i ==> #[trigger] b.col(j as int)[r] == a.at(start + r, start + j),
            decreases size - i,
        {
            let x: T = a.get(start + i, start + j).copy();
            b.set(i, j, x);
            i += 1;
        }
        assert forall|c: int, i: int| 0 <= c < j + 1 && 0 <= i < size implies #[trigger] b.col(
            c,
        )[i] == a.at(start + i, start + c) by {
            if c < j {
                assert(b.col(c) == b0.col(c));
                assert(b0.col(c)[i] == a.at(start + i, start + c));
            }
        }
        j += 1;
    }
    assert forall|i: int, c: int| 0 <= i < size && 0 <= c < size implies #[trigger] b.at(i, c)
        == a.at(start + i, start + c) by {
        assert(b.col(c)[i] == b.at(i, c));
    }
    b
}

/// Whether the diagonal of `U` has a zero.
pub fn zero_pivot<T: Scalar>(lu: &Mat<T>) -> (r: bool)
    requires
        lu.wf(),
        lu.nrows == lu.ncols,
    ensures
        r == has_zero_pivot(*lu),
{
    let size: usize = lu.nrows;
    let mut i: usize = 0;
    while i < size
        invariant
            lu.wf(),
            lu.nrows == size,
            lu.ncols == size,
            i <= size,
            forall|k: int| 0 <= k < i ==> !vanishes(#[trigger] lu.at(k, k)),
        decreases size - i,
    {
        if lu.get(i, i).abs().is_zero() {
            assert(vanishes(lu.at(i as int, i as int)));
            return true;
        }
        i += 1;
    }
    false
}

/// Overwrites `dst` from position `at` on with `src`.
fn write_at<T: Scalar>(dst: &mut Vec<T>, at: usize, src: &Vec<T>)
    requires
        at + src@.len() <= old(dst)@.len(),
    ensures
        final(dst)@.len() == old(dst)@.len(),
        final(dst)@.subrange(at as int, at + src@.len()) == src@,
        forall|p: int|
            0 <= p < at || at + src@.len() <= p < final(dst)@.len() ==> #[trigger] final(dst)@[p]
                == old(dst)@[p],
{
    let len: usize = src.len();
    let total: usize = dst.len();
    let mut k: usize = 0;
    while k < len
        invariant
            k <= len,
            len == src@.len(),
            total == dst@.len(),
            at + len <= total,
            dst@.len() == old(dst)@.len(),
            forall|p: int| at <= p < at + k ==> #[trigger] dst@[p] == src@[p - at],
            forall|p: int|
                0 <= p < at || at + k <= p < dst@.len() ==> #[trigger] dst@[p] == old(dst)@[p],
        decreases len - k,
    {
        let x: T = src[k].copy();
        dst.set(at + k, x);
        k += 1;
    }
    assert(dst@.subrange(at as int, at + len) =~= src@);
}

/// Overwrites `dst` from position `at` on with `src`.
fn write_indices_at(dst: &mut Vec<usize>, at: usize, src: &Vec<usize>)
    requires
        at + src@.len() <= old(dst)@.len(),
    ensures
        final(dst)@.len() == old(dst)@.len(),
        final(dst)@.subrange(at as int, at + src@.len()) == src@,
        forall|p: int|
            0 <= p < at || at + src@.len() <= p < final(dst)@.len() ==> #[trigger] final(dst)@[p]
                == old(dst)@[p],
{
    let len: usize = src.len();
    let total: usize = dst.len();
    let mut k: usize = 0;
    while k < len
        invariant
            k <= len,
            len == src@.len(),
            total == dst@.len(),
            at + len <= total,
            dst@.len() == old(dst)@.len(),
            forall|p: int| at <= p < at + k ==> #[trigger] dst@[p] == src@[p - at],
            forall|p: int|
                0 <= p < at || at + k <= p < dst@.len() ==> #[trigger] dst@[p] == old(dst)@[p],
        decreases len - k,
    {
        let x: usize = src[k];
        dst.set(at + k, x);
        k += 1;
    }
    assert(dst@.subrange(at as int, at + len) =~= src@);
}

/// Factor offsets go up.
proof fn lemma_factor_offsets(offsets: Seq<usize>, fo: Seq<usize>, i: int, j: int)
    requires
        fo.len() == offsets.len(),
        forall|k: int| 0 <= k < offsets.len() - 1 ==> #[trigger] packed(offsets, fo, k),
        0 <= i <= j < fo.len(),
    ensures
        fo[i] <= fo[j],
    decreases j - i,
{
    if i < j {
        lemma_factor_offsets(offsets, fo, i, j - 1);
        let s = block_size(offsets, j - 1);
        assert(packed(offsets, fo, j - 1));
        assert(s * s >= 0) by (nonlinear_arith);
    }
}

/// `lu` gave a factor of block `k` of `a` that has a zero pivot, or that has
/// none.
pub open spec fn factored_to<T: Scalar, F: Fn(&Mat<T>) -> BlockFactor<T>>(
    lu: F,
    a: Mat<T>,
    offsets: Seq<usize>,
    k: int,
    singular: bool,
) -> bool {
    exists|f: BlockFactor<T>| #[trigger]
        factor_of(lu, a, offsets, k, f) && has_zero_pivot(f.lu) == singular
}

/// Block `k` of `m` keeps a factor that `lu` gave for block `k` of `a`.
pub open spec fn block_done<T: Scalar, F: Fn(&Mat<T>) -> BlockFactor<T>>(
    lu: F,
    a: Mat<T>,
    offsets: Seq<usize>,
    m: BlockJacobiPrecond<T>,
    k: int,
) -> bool {
    exists|f: BlockFactor<T>|
        {
            &&& #[trigger] factor_of(lu, a, offsets, k, f)
            &&& m.keeps(k, f)
            &&& !has_zero_pivot(f.lu)
        }
}

/// What [`BlockJacobiPrecond::try_new`] returns.
pub open spec fn built<T: Scalar, F: Fn(&Mat<T>) -> BlockFactor<T>>(
    lu: F,
    a: Mat<T>,
    offsets: Seq<usize>,
    r: Result<BlockJacobiPrecond<T>, BlockJacobiError>,
) -> bool {
    match r {
        Ok(m) => {
            &&& a.nrows == a.ncols
            &&& m.wf()
            &&& m.n == a.nrows
            &&& m.block_offsets@ == offsets
            &&& forall|k: int|
                0 <= k < m.blocks() ==> #[trigger] block_done(
                    lu,
                    a,
                    offsets,
                    m,
                    k,
                )
        },
        Err(e) => if a.nrows != a.ncols {
            e == BlockJacobiError::NonSquareMatrix { nrows: a.nrows, ncols: a.ncols }
        } else if !partitions(offsets, a.nrows as int) {
            partition_error(offsets, a.nrows, e)
        } else {
            &&& e matches BlockJacobiError::SingularBlock { block_index }
            &&& block_index < offsets.len() - 1
            &&& factored_to(lu, a, offsets, block_index as int, true)
            &&& forall|k: int|
                0 <= k < block_index ==> #[trigger] factored_to(
                    lu,
                    a,
                    offsets,
                    k,
                    false,
                )
        },
    }
}

impl<T: Scalar> BlockJacobiPrecond<T> {
    /// Build a block-Jacobi preconditioner from `a` and a block partition.
    ///
    /// `block_offsets` must start at `0`, be strictly increasing, and end at
    /// `a.nrows`. `lu` factors one block.
    ///
    /// # Errors
    ///
    /// [`BlockJacobiError::NonSquareMatrix`] if `a` is not square, validation
    /// errors for ill-formed `block_offsets`, and
    /// [`BlockJacobiError::SingularBlock`] for the first block whose factor has
    /// a zero on the diagonal of `U`.
    pub fn try_new<F: Fn(&Mat<T>) -> BlockFactor<T>>(
        a: &Mat<T>,
        block_offsets: &[usize],
        lu: F,
    ) -> (r: Result<Self, BlockJacobiError>)
        requires
            a.wf(),
            factors_blocks(lu),
        ensures
            built(lu, *a, block_offsets@, r),
    {
        if a.nrows != a.ncols {
            return Err(BlockJacobiError::NonSquareMatrix { nrows: a.nrows, ncols: a.ncols });
        }
        let n: usize = a.nrows;
        let len: usize = a.data.len();
        match check_partition(block_offsets, n) {
            Ok(_) => {},
            Err(e) => {
                return Err(e);
            },
        }
        let ghost off = block_offsets@;
        let nblocks: usize = block_offsets.len() - 1;
        assert(n * n == len);
        let (factor_offsets, max_block_size): (Vec<usize>, usize) = factor_layout(
            block_offsets,
            n,
        );
        let ghost fo = factor_offsets@;
        let total: usize = factor_offsets[nblocks];
        let mut offsets: Vec<usize> = Vec::with_capacity(block_offsets.len());
        let mut i: usize = 0;
        while i < block_offsets.len()
            invariant
                i <= block_offsets@.len(),
                offsets@.len() == i,
                forall|p: int| 0 <= p < i ==> #[trigger] offsets@[p] == block_offsets@[p],
            decreases block_offsets.len() - i,
        {
            offsets.push(block_offsets[i]);
            i += 1;
        }
        assert(offsets@ =~= off);
        let mut m: BlockJacobiPrecond<T> = BlockJacobiPrecond {
            n,
            block_offsets: offsets,
            factor_offsets,
            factors: zeros(total),
            perm_fwd: vec![0; n],
            perm_inv: vec![0; n],
            max_block_size,
        };
        let mut k: usize = 0;
        while k < nblocks
            invariant
                a.wf(),
                a.nrows == n,
                a.ncols == n,
                factors_blocks(lu),
                off == block_offsets@,
                partitions(off, n as int),
                nblocks == off.len() - 1,
                m.wf(),
                m.n == n,
                m.block_offsets@ == off,
                m.factor_offsets@ == fo,
                k <= nblocks,
                forall|b: int| 0 <= b < k ==> #[trigger] block_done(lu, *a, off, m, b),
                forall|b: int| 0 <= b < k ==> #[trigger] factored_to(lu, *a, off, b, false),
            decreases nblocks - k,
        {
            let ghost kk = k as int;
            let block: Mat<T> = copy_block(a, block_offsets, k);
            let f: BlockFactor<T> = lu(&block);
            let ghost m0 = m;
            proof {
                assert(factor_of(lu, *a, off, kk, f));
                assert(factor_ok(f, block.nrows as int));
                lemma_factor_offsets(off, fo, kk + 1, nblocks as int);
                assert(packed(off, fo, kk));
                assert(off[kk] < off[kk + 1]);
                if kk + 1 < nblocks {
                    assert(off[kk + 1] < off[nblocks as int]);
                }
            }
            if zero_pivot(&f.lu) {
                assert(factored_to(lu, *a, off, kk, true));
                return Err(BlockJacobiError::SingularBlock { block_index: k });
            }
            let at: usize = m.factor_offsets[k];
            let start: usize = m.block_offsets[k];
            write_at(&mut m.factors, at, &f.lu.data);
            write_indices_at(&mut m.perm_fwd, start, &f.perm_fwd);
            write_indices_at(&mut m.perm_inv, start, &f.perm_inv);
            proof {
                assert(m.wf());
                assert(m.keeps(kk, f));
                assert forall|b: int| 0 <= b < k + 1 implies #[trigger] block_done(
                    lu,
                    *a,
                    off,
                    m,
                    b,
                ) by {
                    if b < k {
                        assert(block_done(lu, *a, off, m0, b));
                        let g = choose|g: BlockFactor<T>|
                            {
                                &&& #[trigger] factor_of(lu, *a, off, b, g)
                                &&& m0.keeps(b, g)
                                &&& !has_zero_pivot(g.lu)
                            };
                        lemma_factor_offsets(off, fo, b, b + 1);
                        lemma_factor_offsets(off, fo, b + 1, kk);
                        assert(off[b] < off[b + 1]);
                        if b + 1 < kk {
                            assert(off[b + 1] < off[kk]);
                        }
                        assert(m.factors@.subrange(fo[b] as int, fo[b + 1] as int)
                            =~= m0.factors@.subrange(fo[b] as int, fo[b + 1] as int));
                        assert(m.perm_fwd@.subrange(off[b] as int, off[b + 1] as int)
                            =~= m0.perm_fwd@.subrange(off[b] as int, off[b + 1] as int));
                        assert(m.perm_inv@.subrange(off[b] as int, off[b + 1] as int)
                            =~= m0.perm_inv@.subrange(off[b] as int, off[b + 1] as int));
                        assert(m.keeps(b, g));
                        assert(factor_of(lu, *a, off, b, g));
                    } else {
                        assert(factor_of(lu, *a, off, kk, f));
                    }
                }
                assert(factored_to(lu, *a, off, kk, false));
            }
            k += 1;
        }
        Ok(m)
    }
}

/// `solve` accepts the factor of every block with every right-hand side of its
/// height, and keeps the shape of the right-hand side.
pub open spec fn solves_blocks<
    T,
    S: Fn(&Mat<T>, &[usize], &[usize], Op, &Mat<T>) -> Mat<T>,
>(solve: S) -> bool {
    &&& forall|lu: Mat<T>, fwd: &[usize], inv: &[usize], op: Op, b: Mat<T>|
        lu.wf() && lu.nrows == lu.ncols && fwd@.len() == lu.nrows && inv@.len() == lu.nrows
            && b.wf() && b.nrows == lu.nrows ==> #[trigger] call_requires(
            solve,
            (&lu, fwd, inv, op, &b),
        )
    &&& forall|lu: Mat<T>, fwd: &[usize], inv: &[usize], op: Op, b: Mat<T>, x: Mat<T>|
        b.wf() && #[trigger] call_ensures(solve, (&lu, fwd, inv, op, &b), x) ==> x.wf() && x.nrows
            == b.nrows && x.ncols == b.ncols
}

/// `b` holds the rows of `x` that belong to block `k`.
pub open spec fn is_rows<T>(x: Mat<T>, offsets: Seq<usize>, k: int, b: Mat<T>) -> bool {
    &&& b.wf()
    &&& b.nrows == block_size(offsets, k)
    &&& b.ncols == x.ncols
    &&& forall|i: int, c: int|
        0 <= i < b.nrows && 0 <= c < b.ncols ==> #[trigger] b.at(i, c) == x.at(offsets[k] + i, c)
}

/// The rows of `y` that belong to block `k` are what `solve` made of the rows of
/// `x`, given the factor that `m` keeps for the block.
pub open spec fn block_solved<
    T,
    S: Fn(&Mat<T>, &[usize], &[usize], Op, &Mat<T>) -> Mat<T>,
>(solve: S, m: BlockJacobiPrecond<T>, op: Op, x: Mat<T>, y: Mat<T>, k: int) -> bool {
    let s = m.block_offsets@[k] as int;
    let e = m.block_offsets@[k + 1] as int;
    exists|lu: Mat<T>, fwd: &[usize], inv: &[usize], b: Mat<T>, z: Mat<T>|
        {
            &&& lu.nrows == e - s
            &&& lu.ncols == e - s
            &&& lu.data@ == m.factors@.subrange(
                m.factor_offsets@[k] as int,
                m.factor_offsets@[k + 1] as int,
            )
            &&& fwd@ == m.perm_fwd@.subrange(s, e)
            &&& inv@ == m.perm_inv@.subrange(s, e)
            &&& is_rows(x, m.block_offsets@, k, b)
            &&& #[trigger] call_ensures(solve, (&lu, fwd, inv, op, &b), z)
            &&& is_rows(y, m.block_offsets@, k, z)
        }
}

/// The factor of block `k` as a matrix.
fn unpack_factor<T: Scalar>(m: &BlockJacobiPrecond<T>, k: usize) -> (lu: Mat<T>)
    requires
        m.wf(),
        k < m.blocks(),
    ensures
        lu.wf(),
        lu.nrows == block_size(m.block_offsets@, k as int),
        lu.ncols == block_size(m.block_offsets@, k as int),
        lu.data@ == m.factors@.subrange(
            m.factor_offsets@[k as int] as int,
            m.factor_offsets@[k + 1] as int,
        ),
{
    let ghost kk = k as int;
    proof {
        lemma_factor_offsets(m.block_offsets@, m.factor_offsets@, kk, kk + 1);
        lemma_factor_offsets(m.block_offsets@, m.factor_offsets@, kk + 1, m.blocks());
        assert(m.block_offsets@[kk] < m.block_offsets@[kk + 1]);
        assert(packed(m.block_offsets@, m.factor_offsets@, kk));
    }
    let len: usize = m.factor_offsets.len();
    assert(k + 1 < len);
    let s: usize = m.factor_offsets[k];
    let e: usize = m.factor_offsets[k + 1];
    let size: usize = m.block_offsets[k + 1] - m.block_offsets[k];
    let mut data: Vec<T> = Vec::with_capacity(e - s);
    let mut p: usize = s;
    while p < e
        invariant
            s <= p <= e,
            e <= m.factors@.len(),
            data@.len() == p - s,
            forall|q: int| 0 <= q < p - s ==> #[trigger] data@[q] == m.factors@[s + q],
        decreases e - p,
    {
        data.push(m.factors[p].copy());
        p += 1;
    }
    assert(data@ =~= m.factors@.subrange(s as int, e as int));
    Mat { nrows: size, ncols: size, data }
}

/// The rows `start .. start + size` of `x`.
fn copy_rows<T: Scalar>(x: &Mat<T>, start: usize, size: usize) -> (b: Mat<T>)
    requires
        x.wf(),
        start + size <= x.nrows,
    ensures
        b.wf(),
        b.nrows == size,
        b.ncols == x.ncols,
        forall|i: int, c: int|
            0 <= i < size && 0 <= c < x.ncols ==> #[trigger] b.at(i, c) == x.at(start + i, c),
{
    let len: usize = x.data.len();
    let ncols: usize = x.ncols;
    assert(size * ncols <= x.nrows * ncols) by (nonlinear_arith)
        requires
            size <= x.nrows,
            0 <= ncols,
    ;
    let mut b: Mat<T> = Mat::zeros(size, ncols);
    let mut c: usize = 0;
    while c < ncols
        invariant
            x.wf(),
            x.ncols == ncols,
            start + size <= x.nrows,
            b.wf(),
            b.nrows == size,
            b.ncols == ncols,
            c <= ncols,
            forall|d: int, i: int|
                0 <= d < c && 0 <= i < size ==> #[trigger] b.col(d)[i] == x.at(start + i, d),
        decreases ncols - c,
    {
        let ghost b0 = b;
        let mut i: usize = 0;
        while i < size
            invariant
                x.wf(),
                x.ncols == ncols,
                start + size <= x.nrows,
                b.wf(),
                b.nrows == size,
                b.ncols == ncols,
                c < ncols,
                i <= size,
                forall|d: int| 0 <= d < ncols && d != c ==> #[trigger] b.col(d) == b0.col(d),
                forall|r: int|
                    0 <= r < i ==> #[trigger] b.col(c as int)[r] == x.at(start + r, c as int),
            decreases size - i,
        {
            let v: T = x.get(start + i, c).copy();
            b.set(i, c, v);
            i += 1;
        }
        assert forall|d: int, i: int| 0 <= d < c + 1 && 0 <= i < size implies #[trigger] b.col(
            d,
        )[i] == x.at(start + i, d) by {
            if d < c {
                assert(b.col(d) == b0.col(d));
                assert(b0.col(d)[i] == x.at(start + i, d));
            }
        }
        c += 1;
    }
    assert forall|i: int, d: int| 0 <= i < size && 0 <= d < ncols implies #[trigger] b.at(i, d)
        == x.at(start + i, d) by {
        assert(b.col(d)[i] == b.at(i, d));
    }
    b
}

/// Overwrites the rows of `x` from `start` on with `b`.
fn write_rows<T: Scalar>(x: &mut Mat<T>, start: usize, b: &Mat<T>)
    requires
        old(x).wf(),
        b.wf(),
        start + b.nrows <= old(x).nrows,
        b.ncols == old(x).ncols,
    ensures
        final(x).wf(),
        final(x).nrows == old(x).nrows,
        final(x).ncols == old(x).ncols,
        forall|r: int, c: int|
            0 <= r < old(x).nrows && 0 <= c < old(x).ncols ==> #[trigger] final(x).at(r, c) == if start
                <= r < start + b.nrows {
                b.at(r - start, c)
            } else {
                old(x).at(r, c)
            },
{
    let ghost x0 = *x;
    let size: usize = b.nrows;
    let ncols: usize = b.ncols;
    let mut c: usize = 0;
    while c < ncols
        invariant
            b.wf(),
            b.nrows == size,
            b.ncols == ncols,
            start + size <= x0.nrows,
            x0.ncols == ncols,
            x.wf(),
            x.nrows == x0.nrows,
            x.ncols == x0.ncols,
            c <= ncols,
            forall|d: int, r: int|
                0 <= d < c && 0 <= r < x0.nrows ==> #[trigger] x.col(d)[r] == if start <= r < start
                    + size {
                    b.at(r - start, d)
                } else {
                    x0.at(r, d)
                },
            forall|d: int| c <= d < ncols ==> #[trigger] x.col(d) == x0.col(d),
        decreases ncols - c,
    {
        let ghost x1 = *x;
        let mut i: usize = 0;
        while i < size
            invariant
                b.wf(),
                b.nrows == size,
                b.ncols == ncols,
                start + size <= x0.nrows,
                x0.ncols == ncols,
                x.wf(),
                x.nrows == x0.nrows,
                x.ncols == x0.ncols,
                c < ncols,
                i <= size,
                x1.col(c as int) == x0.col(c as int),
                forall|d: int| 0 <= d < ncols && d != c ==> #[trigger] x.col(d) == x1.col(d),
                forall|r: int|
                    0 <= r < x0.nrows ==> #[trigger] x.col(c as int)[r] == if start <= r < start
                        + i {
                        b.at(r - start, c as int)
                    } else {
                        x0.col(c as int)[r]
                    },
            decreases size - i,
        {
            let v: T = b.get(i, c).copy();
            x.set(start + i, c, v);
            i += 1;
        }
        assert forall|d: int, r: int| 0 <= d < c + 1 && 0 <= r < x0.nrows implies #[trigger] x.col(
            d,
        )[r] == if start <= r < start + size {
            b.at(r - start, d)
        } else {
            x0.at(r, d)
        } by {
            if d < c {
                assert(x.col(d) == x1.col(d));
                assert(x1.col(d)[r] == if start <= r < start + size {
                    b.at(r - start, d)
                } else {
                    x0.at(r, d)
                });
            }
        }
        c += 1;
    }
    assert forall|r: int, d: int| 0 <= r < x0.nrows && 0 <= d < ncols implies #[trigger] x.at(r, d)
        == if start <= r < start + size {
        b.at(r - start, d)
    } else {
        x0.at(r, d)
    } by {
        assert(x.col(d)[r] == x.at(r, d));
    }
}

impl<T: Scalar> BlockJacobiPrecond<T> {
    /// Applies `op` of `blkdiag(A_k^{-1})` to every column of `rhs`: each block
    /// of rows is handed to `solve` with the factor of its block.
    pub fn apply_in_place<S: Fn(&Mat<T>, &[usize], &[usize], Op, &Mat<T>) -> Mat<T>>(
        &self,
        op: Op,
        rhs: &mut Mat<T>,
        solve: S,
    )
        requires
            self.wf(),
            solves_blocks(solve),
            old(rhs).wf(),
            old(rhs).nrows == self.n,
        ensures
            final(rhs).wf(),
            final(rhs).nrows == old(rhs).nrows,
            final(rhs).ncols == old(rhs).ncols,
            forall|k: int|
                0 <= k < self.blocks() ==> #[trigger] block_solved(
                    solve,
                    *self,
                    op,
                    *old(rhs),
                    *final(rhs),
                    k,
                ),
    {
        let ghost x0 = *rhs;
        let ghost off = self.block_offsets@;
        let nblocks: usize = self.block_count();
        let mut k: usize = 0;
        while k < nblocks
            invariant
                self.wf(),
                solves_blocks(solve),
                off == self.block_offsets@,
                nblocks == self.blocks(),
                x0.nrows == self.n,
                rhs.wf(),
                rhs.nrows == x0.nrows,
                rhs.ncols == x0.ncols,
                k <= nblocks,
                forall|b: int|
                    0 <= b < k ==> #[trigger] block_solved(solve, *self, op, x0, *rhs, b),
                forall|r: int, c: int|
                    off[k as int] <= r < x0.nrows && 0 <= c < x0.ncols ==> #[trigger] rhs.at(r, c)
                        == x0.at(r, c),
            decreases nblocks - k,
        {
            let ghost kk = k as int;
            let ghost x1 = *rhs;
            proof {
                assert(off[kk] < off[kk + 1]);
                if kk + 1 < nblocks {
                    assert(off[kk + 1] < off[nblocks as int]);
                }
            }
            let start: usize = self.block_offsets[k];
            let end: usize = self.block_offsets[k + 1];
            let lu: Mat<T> = unpack_factor(self, k);
            let fwd: &[usize] = slice_subrange(self.perm_fwd.as_slice(), start, end);
            let inv: &[usize] = slice_subrange(self.perm_inv.as_slice(), start, end);
            let b: Mat<T> = copy_rows(rhs, start, end - start);
            let z: Mat<T> = solve(&lu, fwd, inv, op, &b);
            write_rows(rhs, start, &z);
            proof {
                assert(is_rows(x0, off, kk, b));
                assert(is_rows(*rhs, off, kk, z));
                assert(block_solved(solve, *self, op, x0, *rhs, kk));
                assert forall|d: int| 0 <= d < k implies #[trigger] block_solved(
                    solve,
                    *self,
                    op,
                    x0,
                    *rhs,
                    d,
                ) by {
                    assert(block_solved(solve, *self, op, x0, x1, d));
                    lemma_solved_stays(solve, *self, op, x0, x1, *rhs, d, kk);
                }
            }
            k += 1;
        }
    }

    /// Writes the result of applying `op` to `rhs` into `out`.
    pub fn apply<S: Fn(&Mat<T>, &[usize], &[usize], Op, &Mat<T>) -> Mat<T>>(
        &self,
        op: Op,
        out: &mut Mat<T>,
        rhs: &Mat<T>,
        solve: S,
    )
        requires
            self.wf(),
            solves_blocks(solve),
            old(out).wf(),
            rhs.wf(),
            rhs.nrows == self.n,
            old(out).nrows == rhs.nrows,
            old(out).ncols == rhs.ncols,
        ensures
            final(out).wf(),
            final(out).nrows == rhs.nrows,
            final(out).ncols == rhs.ncols,
            forall|k: int|
                0 <= k < self.blocks() ==> #[trigger] block_solved(
                    solve,
                    *self,
                    op,
                    *rhs,
                    *final(out),
                    k,
                ),
    {
        out.copy_from(rhs);
        let ghost x0 = *out;
        self.apply_in_place(op, out, solve);
        proof {
            assert forall|k: int| 0 <= k < self.blocks() implies #[trigger] block_solved(
                solve,
                *self,
                op,
                *rhs,
                *out,
                k,
            ) by {
                assert(block_solved(solve, *self, op, x0, *out, k));
                lemma_solved_agree(solve, *self, op, x0, *rhs, *out, k);
            }
        }
    }
}

/// A solved block stays solved while later rows change.
proof fn lemma_solved_stays<
    T: Scalar,
    S: Fn(&Mat<T>, &[usize], &[usize], Op, &Mat<T>) -> Mat<T>,
>(solve: S, m: BlockJacobiPrecond<T>, op: Op, x: Mat<T>, y: Mat<T>, y2: Mat<T>, d: int, k: int)
    requires
        m.wf(),
        0 <= d < k < m.blocks(),
        block_solved(solve, m, op, x, y, d),
        y.nrows == m.n,
        y2.nrows == y.nrows,
        y2.ncols == y.ncols,
        forall|r: int, c: int|
            0 <= r < m.block_offsets@[k] && 0 <= c < y.ncols ==> #[trigger] y2.at(r, c) == y.at(
                r,
                c,
            ),
    ensures
        block_solved(solve, m, op, x, y2, d),
{
    let off = m.block_offsets@;
    let s = off[d] as int;
    let e = off[d + 1] as int;
    let (lu, fwd, inv, b, z) = choose|
        lu: Mat<T>,
        fwd: &[usize],
        inv: &[usize],
        b: Mat<T>,
        z: Mat<T>,
    |
        {
            &&& lu.nrows == e - s
            &&& lu.ncols == e - s
            &&& lu.data@ == m.factors@.subrange(
                m.factor_offsets@[d] as int,
                m.factor_offsets@[d + 1] as int,
            )
            &&& fwd@ == m.perm_fwd@.subrange(s, e)
            &&& inv@ == m.perm_inv@.subrange(s, e)
            &&& is_rows(x, off, d, b)
            &&& #[trigger] call_ensures(solve, (&lu, fwd, inv, op, &b), z)
            &&& is_rows(y, off, d, z)
        };
    assert(off[d] < off[d + 1]);
    if d + 1 < k {
        assert(off[d + 1] < off[k]);
    }
    assert(is_rows(y2, off, d, z));
    assert(call_ensures(solve, (&lu, fwd, inv, op, &b), z));
}

/// Which buffer held the right-hand side does not matter.
proof fn lemma_solved_agree<
    T: Scalar,
    S: Fn(&Mat<T>, &[usize], &[usize], Op, &Mat<T>) -> Mat<T>,
>(solve: S, m: BlockJacobiPrecond<T>, op: Op, x: Mat<T>, x2: Mat<T>, y: Mat<T>, k: int)
    requires
        m.wf(),
        0 <= k < m.blocks(),
        block_solved(solve, m, op, x, y, k),
        x.nrows == m.n,
        x2.nrows == x.nrows,
        x2.ncols == x.ncols,
        x2.data@ == x.data@,
    ensures
        block_solved(solve, m, op, x2, y, k),
{
    let off = m.block_offsets@;
    let s = off[k] as int;
    let e = off[k + 1] as int;
    let (lu, fwd, inv, b, z) = choose|
        lu: Mat<T>,
        fwd: &[usize],
        inv: &[usize],
        b: Mat<T>,
        z: Mat<T>,
    |
        {
            &&& lu.nrows == e - s
            &&& lu.ncols == e - s
            &&& lu.data@ == m.factors@.subrange(
                m.factor_offsets@[k] as int,
                m.factor_offsets@[k + 1] as int,
            )
            &&& fwd@ == m.perm_fwd@.subrange(s, e)
            &&& inv@ == m.perm_inv@.subrange(s, e)
            &&& is_rows(x, off, k, b)
            &&& #[trigger] call_ensures(solve, (&lu, fwd, inv, op, &b), z)
            &&& is_rows(y, off, k, z)
        };
    assert forall|i: int, c: int| 0 <= i < b.nrows && 0 <= c < b.ncols implies #[trigger] b.at(i, c)
        == x2.at(off[k] + i, c) by {
        assert(x2.at(off[k] + i, c) == x.at(off[k] + i, c));
    }
    assert(is_rows(x2, off, k, b));
    assert(call_ensures(solve, (&lu, fwd, inv, op, &b), z));
}

/// `b z = r`, column by column.
pub open spec fn solves<T: Scalar>(b: Mat<T>, z: Mat<T>, r: Mat<T>) -> bool {
    forall|i: int, c: int|
        0 <= i < b.nrows && 0 <= c < r.ncols ==> sum(
            |j: int| b.at(i, j).times(z.at(j, c)),
            b.ncols as int,
        ) == #[trigger] r.at(i, c)
}

/// Solving with a factor that `lu` gave for a block, and that has no zero pivot,
/// solves with the block.
pub open spec fn kernels_exact<
    T: Scalar,
    F: Fn(&Mat<T>) -> BlockFactor<T>,
    S: Fn(&Mat<T>, &[usize], &[usize], Op, &Mat<T>) -> Mat<T>,
>(lu: F, solve: S) -> bool {
    forall|
        b: Mat<T>,
        f: BlockFactor<T>,
        m: Mat<T>,
        fwd: &[usize],
        inv: &[usize],
        r: Mat<T>,
        z: Mat<T>,
    |
        {
            &&& #[trigger] call_ensures(lu, (&b,), f)
            &&& !has_zero_pivot(f.lu)
            &&& m.nrows == f.lu.nrows
            &&& m.ncols == f.lu.ncols
            &&& m.data@ == f.lu.data@
            &&& fwd@ == f.perm_fwd@
            &&& inv@ == f.perm_inv@
            &&& r.nrows == b.nrows
            &&& #[trigger] call_ensures(solve, (&m, fwd, inv, Op::Apply, &r), z)
        } ==> solves(b, z, r)
}

/// Row `i` lies in block `k`.
pub open spec fn in_block(offsets: Seq<usize>, k: int, i: int) -> bool {
    0 <= k < offsets.len() - 1 && offsets[k] <= i < offsets[k + 1]
}

/// `a` has nothing outside its diagonal blocks.
pub open spec fn block_diagonal<T: Scalar>(a: Mat<T>, offsets: Seq<usize>) -> bool {
    forall|i: int, j: int, k: int|
        0 <= j < a.ncols && #[trigger] in_block(offsets, k, i) && !in_block(offsets, k, j)
            ==> #[trigger] a.at(i, j) == T::null()
}

/// The entries of a dense matrix, as a function.
pub open spec fn mat_entries<T>(a: Mat<T>) -> spec_fn(int, int) -> T {
    |i: int, j: int| a.at(i, j)
}

/// Every row lies in some block.
pub proof fn lemma_some_block(offsets: Seq<usize>, n: int, i: int, k: int) -> (b: int)
    requires
        partitions(offsets, n),
        0 <= k < offsets.len(),
        0 <= i < offsets[k],
    ensures
        in_block(offsets, b, i),
    decreases k,
{
    if i >= offsets[k - 1] {
        k - 1
    } else {
        lemma_some_block(offsets, n, i, k - 1)
    }
}

/// With exact kernels, block-Jacobi inverts a block-diagonal matrix whose blocks
/// it was built from: `A (M^{-1} x) = x`, for every right-hand side.
pub proof fn law_inverts_block_diagonal<
    T: Scalar,
    F: Fn(&Mat<T>) -> BlockFactor<T>,
    S: Fn(&Mat<T>, &[usize], &[usize], Op, &Mat<T>) -> Mat<T>,
>(lu: F, solve: S, a: Mat<T>, m: BlockJacobiPrecond<T>, x: Mat<T>, y: Mat<T>, c: int)
    requires
        exact_field::<T>(),
        kernels_exact(lu, solve),
        a.wf(),
        a.nrows == a.ncols,
        m.wf(),
        m.n == a.nrows,
        block_diagonal(a, m.block_offsets@),
        forall|k: int|
            0 <= k < m.blocks() ==> #[trigger] block_done(lu, a, m.block_offsets@, m, k),
        x.wf(),
        x.nrows == m.n,
        y.wf(),
        y.nrows == m.n,
        y.ncols == x.ncols,
        forall|k: int|
            0 <= k < m.blocks() ==> #[trigger] block_solved(solve, m, Op::Apply, x, y, k),
        0 <= c < x.ncols,
    ensures
        dense_times(mat_entries(a), y.col(c)) == x.col(c),
{
    let off = m.block_offsets@;
    let n = m.n as int;
    assert forall|i: int| 0 <= i < n implies #[trigger] dense_times(mat_entries(a), y.col(c))[i]
        == x.col(c)[i] by {
        let k = lemma_some_block(off, n, i, off.len() - 1);
        let s = off[k] as int;
        let e = off[k + 1] as int;
        let f = |j: int| mat_entries(a)(i, j).times(y.col(c)[j]);
        assert(e <= n) by {
            if k + 1 < off.len() - 1 {
                assert(off[k + 1] < off[off.len() - 1]);
            }
        }
        assert forall|j: int| 0 <= j < n && !(s <= j < e) implies #[trigger] f(j) == T::null() by {
            assert(in_block(off, k, i) && !in_block(off, k, j));
            assert(a.at(i, j) == T::null());
            lemma_times_commutes(T::null(), y.col(c)[j]);
            lemma_null_absorbs(y.col(c)[j]);
        }
        lemma_sum_window(f, s, e, n);
        assert(block_done(lu, a, off, m, k));
        let fac = choose|fac: BlockFactor<T>|
            {
                &&& #[trigger] factor_of(lu, a, off, k, fac)
                &&& m.keeps(k, fac)
                &&& !has_zero_pivot(fac.lu)
            };
        assert(factor_of(lu, a, off, k, fac));
        let b = choose|b: Mat<T>| is_block(a, off, k, b) && #[trigger] call_ensures(
            lu,
            (&b,),
            fac,
        );
        assert(block_solved(solve, m, Op::Apply, x, y, k));
        let (lk, fwd, inv, r, z) = choose|
            lk: Mat<T>,
            fwd: &[usize],
            inv: &[usize],
            r: Mat<T>,
            z: Mat<T>,
        |
            {
                &&& lk.nrows == e - s
                &&& lk.ncols == e - s
                &&& lk.data@ == m.factors@.subrange(
                    m.factor_offsets@[k] as int,
                    m.factor_offsets@[k + 1] as int,
                )
                &&& fwd@ == m.perm_fwd@.subrange(s, e)
                &&& inv@ == m.perm_inv@.subrange(s, e)
                &&& is_rows(x, off, k, r)
                &&& #[trigger] call_ensures(solve, (&lk, fwd, inv, Op::Apply, &r), z)
                &&& is_rows(y, off, k, z)
            };
        assert(call_ensures(solve, (&lk, fwd, inv, Op::Apply, &r), z));
        assert(solves(b, z, r));
        let g = |j: int| b.at(i - s, j).times(z.at(j, c));
        assert(sum(g, e - s) == r.at(i - s, c));
        let h = |t: int| f(s + t);
        assert forall|t: int| 0 <= t < e - s implies #[trigger] h(t) == g(t) by {
            assert(b.at(i - s, t) == a.at(s + (i - s), s + t));
            assert(z.at(t, c) == y.at(s + t, c));
            assert(y.col(c)[s + t] == y.at(s + t, c));
        }
        lemma_sum_equal(h, g, e - s);
        assert(r.at(i - s, c) == x.at(s + (i - s), c));
        assert(x.col(c)[i] == x.at(i, c));
    }
    assert(dense_times(mat_entries(a), y.col(c)) =~= x.col(c));
}

/// With exact kernels, applying block-Jacobi to `A v` recovers `v`, where `A` is
/// block-diagonal and maps no two vectors to one.
pub proof fn law_recovers_block_diagonal<
    T: Scalar,
    F: Fn(&Mat<T>) -> BlockFactor<T>,
    S: Fn(&Mat<T>, &[usize], &[usize], Op, &Mat<T>) -> Mat<T>,
>(lu: F, solve: S, a: Mat<T>, m: BlockJacobiPrecond<T>, v: Seq<T>, x: Mat<T>, y: Mat<T>, c: int)
    requires
        exact_field::<T>(),
        kernels_exact(lu, solve),
        a.wf(),
        a.nrows == a.ncols,
        m.wf(),
        m.n == a.nrows,
        block_diagonal(a, m.block_offsets@),
        forall|u: Seq<T>, w: Seq<T>|
            u.len() == w.len() == a.nrows && #[trigger] dense_times(mat_entries(a), u)
                == #[trigger] dense_times(mat_entries(a), w) ==> u == w,
        forall|k: int|
            0 <= k < m.blocks() ==> #[trigger] block_done(lu, a, m.block_offsets@, m, k),
        x.wf(),
        x.nrows == m.n,
        y.wf(),
        y.nrows == m.n,
        y.ncols == x.ncols,
        forall|k: int|
            0 <= k < m.blocks() ==> #[trigger] block_solved(solve, m, Op::Apply, x, y, k),
        0 <= c < x.ncols,
        v.len() == a.nrows,
        x.col(c) == dense_times(mat_entries(a), v),
    ensures
        y.col(c) == v,
{
    law_inverts_block_diagonal(lu, solve, a, m, x, y, c);
}

/// Offsets are accepted exactly where they start at zero, end at the dimension and
/// ascend strictly, and then every row lies in exactly one block.
pub proof fn law_partitions(offsets: Seq<usize>, n: int, i: int)
    requires
        0 <= i < n,
    ensures
        partitions(offsets, n) <==> offsets.len() >= 2 && offsets[0] == 0 && offsets[offsets.len()
            - 1] == n && forall|k: int|
            0 <= k < offsets.len() - 1 ==> (#[trigger] offsets[k]) < offsets[k + 1],
        partitions(offsets, n) ==> exists|k: int| #[trigger] in_block(offsets, k, i),
        partitions(offsets, n) ==> forall|k: int, m: int| #[trigger]
            in_block(offsets, k, i) && #[trigger] in_block(offsets, m, i) ==> k == m,
{
    if offsets.len() >= 2 && offsets[0] == 0 && offsets[offsets.len() - 1] == n && forall|k: int|
        0 <= k < offsets.len() - 1 ==> (#[trigger] offsets[k]) < offsets[k + 1] {
        lemma_steps_ascend(offsets, offsets.len() - 1);
    }
    if partitions(offsets, n) {
        let k = lemma_some_block(offsets, n, i, offsets.len() - 1);
        assert(in_block(offsets, k, i));
        assert forall|x: int| 0 <= x < offsets.len() - 1 implies (#[trigger] offsets[x])
            < offsets[x + 1] by {}
        assert forall|x: int, m: int| #[trigger]
            in_block(offsets, x, i) && #[trigger] in_block(offsets, m, i) implies x == m by {
            if x < m && x + 1 < m {
                assert(offsets[x + 1] < offsets[m]);
            }
            if m < x && m + 1 < x {
                assert(offsets[m + 1] < offsets[x]);
            }
        }
    }
}

/// Offsets that ascend step by step ascend.
proof fn lemma_steps_ascend(offsets: Seq<usize>, m: int)
    requires
        0 <= m < offsets.len(),
        forall|k: int| 0 <= k < offsets.len() - 1 ==> (#[trigger] offsets[k]) < offsets[k + 1],
    ensures
        increasing_upto(offsets, m),
    decreases m,
{
    if m > 0 {
        lemma_steps_ascend(offsets, m - 1);
        assert(offsets[m - 1] < offsets[m - 1 + 1]);
    }
}

/// No block of a preconditioner that was built has a zero on the diagonal of its
/// factor; the factor of the block that an error names has one.
pub proof fn law_blocks_have_pivots<T: Scalar, F: Fn(&Mat<T>) -> BlockFactor<T>>(
    lu: F,
    a: Mat<T>,
    offsets: Seq<usize>,
    r: Result<BlockJacobiPrecond<T>, BlockJacobiError>,
    k: int,
    t: int,
)
    requires
        a.nrows == a.ncols,
        partitions(offsets, a.nrows as int),
        built(lu, a, offsets, r),
        0 <= k < offsets.len() - 1,
        0 <= t < block_size(offsets, k),
    ensures
        r matches Ok(m) ==> m.block_offsets@ == offsets && exists|f: BlockFactor<T>| #[trigger]
            factor_of(lu, a, offsets, k, f) && m.keeps(k, f) && !vanishes(f.lu.at(t, t)),
        r matches Err(e) ==> e matches BlockJacobiError::SingularBlock { block_index } && (k
            == block_index ==> exists|f: BlockFactor<T>, i: int| #[trigger]
            factor_of(lu, a, offsets, k, f) && 0 <= i < f.lu.nrows && vanishes(
                #[trigger] f.lu.at(i, i),
            )),
{
    match r {
        Ok(m) => {
            assert(block_done(lu, a, offsets, m, k));
            let f = choose|f: BlockFactor<T>|
                {
                    &&& #[trigger] factor_of(lu, a, offsets, k, f)
                    &&& m.keeps(k, f)
                    &&& !has_zero_pivot(f.lu)
                };
            assert(!vanishes(f.lu.at(t, t)));
        },
        Err(e) => {
            assert(factored_to(lu, a, offsets, e->block_index as int, true));
        },
    }
}

} // verus!
