//! Fixed-point numbers as matrix entries.
//!
//! A [`Fixed`] counts units of `2^-32`. Products, quotients and roots are
//! truncated towards zero, and every operation saturates at the ends of the
//! range, so results are the same on every machine.
use crate::scalar::{RealScalar, Scalar};
use vstd::prelude::*;

verus! {

/// The number of units in one.
pub const ONE: u64 = 4294967296;

/// A fixed-point number: `raw` units of `2^-32`.
#[derive(Debug, Clone, Copy, PartialEq, Eq, PartialOrd, Ord, Hash)]
pub struct Fixed {
    pub raw: i64,
}

/// `x`, moved to the nearest end of the range where it does not fit.
pub open spec fn saturated(x: int) -> Fixed {
    if x > i64::MAX {
        Fixed { raw: i64::MAX }
    } else if x < i64::MIN {
        Fixed { raw: i64::MIN }
    } else {
        Fixed { raw: x as i64 }
    }
}

pub open spec fn abs(x: int) -> int {
    if x < 0 {
        -x
    } else {
        x
    }
}

/// `m` with a minus sign where `negative` is set.
pub open spec fn signed(negative: bool, m: int) -> int {
    if negative {
        -m
    } else {
        m
    }
}

/// `r` is the square root of `n`, rounded down.
pub open spec fn is_root(n: int, r: int) -> bool {
    0 <= r && r * r <= n < (r + 1) * (r + 1)
}

/// The square root of `n`, rounded down.
pub open spec fn root_of(n: int) -> int {
    choose|r: int| is_root(n, r)
}

/// A number has one square root, rounded down.
proof fn lemma_root_unique(n: int, r: int, s: int)
    requires
        is_root(n, r),
        is_root(n, s),
    ensures
        r == s,
{
    if r < s {
        assert((r + 1) * (r + 1) <= s * s) by (nonlinear_arith)
            requires
                0 <= r,
                r + 1 <= s,
        ;
    } else if s < r {
        assert((s + 1) * (s + 1) <= r * r) by (nonlinear_arith)
            requires
                0 <= s,
                s + 1 <= r,
        ;
    }
}

impl Fixed {
    pub open spec fn value(self) -> int {
        self.raw as int
    }

    /// The number that is `x` units, saturated.
    fn clamp(x: i128) -> (r: Self)
        ensures
            r == saturated(x as int),
    {
        if x > i64::MAX as i128 {
            Fixed { raw: i64::MAX }
        } else if x < i64::MIN as i128 {
            Fixed { raw: i64::MIN }
        } else {
            Fixed { raw: x as i64 }
        }
    }

    /// The number of units, without the sign.
    fn units(&self) -> (r: u128)
        ensures
            r == abs(self.value()),
            r <= 0x8000_0000_0000_0000,
    {
        if self.raw < 0 {
            let x: i128 = self.raw as i128;
            (-x) as u128
        } else {
            self.raw as u128
        }
    }

    /// `m` units with a sign, saturated.
    fn with_sign(negative: bool, m: u128) -> (r: Self)
        ensures
            r == saturated(signed(negative, m as int)),
    {
        if m > 0x8000_0000_0000_0000 {
            if negative {
                Fixed { raw: i64::MIN }
            } else {
                Fixed { raw: i64::MAX }
            }
        } else {
            let x: i128 = m as i128;
            if negative {
                Self::clamp(-x)
            } else {
                Self::clamp(x)
            }
        }
    }
}

/// The square root of `n`, rounded down.
fn floor_root(n: u128) -> (r: u128)
    requires
        n <= 0x8000_0000_0000_0000_0000_0000,
    ensures
        is_root(n as int, r as int),
        r < 0x1_0000_0000_0000,
{
    let mut lo: u128 = 0;
    let mut hi: u128 = 0x1_0000_0000_0000;
    while hi - lo > 1
        invariant
            lo < hi <= 0x1_0000_0000_0000,
            lo * lo <= n < hi * hi,
        decreases hi - lo,
    {
        let mid: u128 = lo + (hi - lo) / 2;
        assert(mid * mid <= 0x1_0000_0000_0000 * 0x1_0000_0000_0000) by (nonlinear_arith)
            requires
                mid <= 0x1_0000_0000_0000,
        ;
        if mid * mid <= n {
            lo = mid;
        } else {
            hi = mid;
        }
    }
    lo
}

impl RealScalar for Fixed {
    open spec fn null() -> Self {
        Fixed { raw: 0 }
    }

    open spec fn plus(self, other: Self) -> Self {
        saturated(self.value() + other.value())
    }

    open spec fn minus(self, other: Self) -> Self {
        saturated(self.value() - other.value())
    }

    open spec fn times(self, other: Self) -> Self {
        saturated(
            signed(
                (self.value() < 0) != (other.value() < 0),
                (abs(self.value()) * abs(other.value())) / (ONE as int),
            ),
        )
    }

    open spec fn over(self, other: Self) -> Self {
        if other.value() == 0 {
            if self.value() == 0 {
                Fixed { raw: 0 }
            } else if self.value() < 0 {
                Fixed { raw: i64::MIN }
            } else {
                Fixed { raw: i64::MAX }
            }
        } else {
            saturated(
                signed(
                    (self.value() < 0) != (other.value() < 0),
                    (abs(self.value()) * ONE as int) / abs(other.value()),
                ),
            )
        }
    }

    open spec fn reciprocal(self) -> Self {
        RealScalar::over(Fixed { raw: ONE as i64 }, self)
    }

    open spec fn root(self) -> Self {
        if self.value() <= 0 {
            Fixed { raw: 0 }
        } else {
            saturated(root_of(self.value() * ONE as int))
        }
    }

    open spec fn magnitude(self) -> Self {
        saturated(abs(self.value()))
    }

    open spec fn below(self, other: Self) -> bool {
        self.value() < other.value()
    }

    open spec fn at_most(self, other: Self) -> bool {
        self.value() <= other.value()
    }

    open spec fn is_null(self) -> bool {
        self.value() == 0
    }

    open spec fn is_finite_spec(self) -> bool {
        true
    }

    open spec fn ratio(num: u64, den: u64) -> Self {
        saturated((num * ONE as int) / (den as int))
    }

    open spec fn nearest(self) -> usize {
        if self.value() <= 0 {
            0
        } else {
            ((self.value() + ONE as int / 2) / (ONE as int)) as usize
        }
    }

    proof fn below_irreflexive(a: Self) {
    }

    proof fn below_transitive(a: Self, b: Self, c: Self) {
    }

    fn copy(&self) -> (r: Self) {
        *self
    }

    fn zero() -> (r: Self) {
        Fixed { raw: 0 }
    }

    fn add(&self, other: &Self) -> (r: Self) {
        Self::clamp(self.raw as i128 + other.raw as i128)
    }

    fn sub(&self, other: &Self) -> (r: Self) {
        Self::clamp(self.raw as i128 - other.raw as i128)
    }

    fn mul(&self, other: &Self) -> (r: Self) {
        let a: u128 = self.units();
        let b: u128 = other.units();
        assert(a * b <= 0x8000_0000_0000_0000 * 0x8000_0000_0000_0000) by (nonlinear_arith)
            requires
                a <= 0x8000_0000_0000_0000,
                b <= 0x8000_0000_0000_0000,
        ;
        Self::with_sign((self.raw < 0) != (other.raw < 0), a * b / ONE as u128)
    }

    fn div(&self, other: &Self) -> (r: Self) {
        if other.raw == 0 {
            if self.raw == 0 {
                Fixed { raw: 0 }
            } else if self.raw < 0 {
                Fixed { raw: i64::MIN }
            } else {
                Fixed { raw: i64::MAX }
            }
        } else {
            let a: u128 = self.units();
            let b: u128 = other.units();
            let one: u128 = ONE as u128;
            assert(a * one <= 0x8000_0000_0000_0000 * 0x1_0000_0000) by (nonlinear_arith)
                requires
                    a <= 0x8000_0000_0000_0000,
                    one == 0x1_0000_0000,
            ;
            let n: u128 = a * one;
            Self::with_sign((self.raw < 0) != (other.raw < 0), n / b)
        }
    }

    fn recip(&self) -> (r: Self) {
        RealScalar::div(&Fixed { raw: ONE as i64 }, self)
    }

    fn sqrt(&self) -> (r: Self) {
        if self.raw <= 0 {
            Fixed { raw: 0 }
        } else {
            let n: u128 = self.units() * ONE as u128;
            let r: u128 = floor_root(n);
            proof {
                assert(n == self.value() * ONE as int);
                assert(is_root(n as int, r as int));
                lemma_root_unique(n as int, r as int, root_of(n as int));
            }
            Self::with_sign(false, r)
        }
    }

    fn abs(&self) -> (r: Self) {
        let a: u128 = self.units();
        Self::with_sign(false, a)
    }

    fn lt(&self, other: &Self) -> (b: bool) {
        self.raw < other.raw
    }

    fn le(&self, other: &Self) -> (b: bool) {
        self.raw <= other.raw
    }

    fn is_zero(&self) -> (b: bool) {
        self.raw == 0
    }

    fn is_finite(&self) -> (b: bool) {
        true
    }

    fn from_ratio(num: u64, den: u64) -> (r: Self) {
        let n: u128 = num as u128 * ONE as u128;
        Self::with_sign(false, n / den as u128)
    }

    fn round_to_usize(&self) -> (r: usize) {
        if self.raw <= 0 {
            0
        } else {
            let x: u128 = self.raw as u128 + ONE as u128 / 2;
            let q: u128 = x / ONE as u128;
            q as usize
        }
    }
}

impl Scalar for Fixed {
    type Real = Fixed;

    type Tuning = Fixed;

    open spec fn null() -> Self {
        Fixed { raw: 0 }
    }

    open spec fn unit() -> Self {
        Fixed { raw: ONE as i64 }
    }

    open spec fn plus(self, other: Self) -> Self {
        RealScalar::plus(self, other)
    }

    open spec fn minus(self, other: Self) -> Self {
        RealScalar::minus(self, other)
    }

    open spec fn times(self, other: Self) -> Self {
        RealScalar::times(self, other)
    }

    open spec fn negated(self) -> Self {
        saturated(-self.value())
    }

    open spec fn reciprocal(self) -> Self {
        RealScalar::reciprocal(self)
    }

    open spec fn conjugate(self) -> Self {
        self
    }

    open spec fn real_part(self) -> Fixed {
        self
    }

    open spec fn embed(r: Fixed) -> Self {
        r
    }

    open spec fn magnitude(self) -> Fixed {
        RealScalar::magnitude(self)
    }

    open spec fn magnitude_squared(self) -> Fixed {
        RealScalar::times(self, self)
    }

    open spec fn scaled(self, r: Fixed) -> Self {
        RealScalar::times(self, r)
    }

    open spec fn tuned(p: Fixed) -> Fixed {
        p
    }

    fn copy(&self) -> (r: Self) {
        *self
    }

    fn zero() -> (r: Self) {
        Fixed { raw: 0 }
    }

    fn one() -> (r: Self) {
        Fixed { raw: ONE as i64 }
    }

    fn add(&self, other: &Self) -> (r: Self) {
        RealScalar::add(self, other)
    }

    fn sub(&self, other: &Self) -> (r: Self) {
        RealScalar::sub(self, other)
    }

    fn mul(&self, other: &Self) -> (r: Self) {
        RealScalar::mul(self, other)
    }

    fn neg(&self) -> (r: Self) {
        Self::clamp(-(self.raw as i128))
    }

    fn recip(&self) -> (r: Self) {
        RealScalar::recip(self)
    }

    fn conj(&self) -> (r: Self) {
        *self
    }

    fn re(&self) -> (r: Fixed) {
        *self
    }

    fn from_real(r: &Fixed) -> (t: Self) {
        *r
    }

    fn abs(&self) -> (r: Fixed) {
        RealScalar::abs(self)
    }

    fn abs2(&self) -> (r: Fixed) {
        RealScalar::mul(self, self)
    }

    fn mul_real(&self, r: &Fixed) -> (t: Self) {
        RealScalar::mul(self, r)
    }

    fn from_tuning(p: &Fixed) -> (r: Fixed) {
        *p
    }
}

} // verus!
