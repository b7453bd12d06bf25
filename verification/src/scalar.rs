//! The scalars that every factorisation in this crate computes with.
//!
//! Verus reasons about integers, not about floating point, so the arithmetic
//! of a matrix entry is kept abstract here. A scalar type names its operations
//! twice: once as spec functions, which contracts speak of, and once as
//! executable functions that return what the spec functions say. Nothing is
//! said of rounding: `plus` need not be associative, `times` need not
//! distribute. A contract written over these names therefore fixes the result
//! *and* the order in which it is computed.
//!
//! Laws that only hold in exact arithmetic ask for it by name: see
//! [`exact_field`].
use vstd::prelude::*;

verus! {

/// A real scalar: the magnitudes, thresholds and norms.
///
/// `below` is `<` and `at_most` is `<=`. They are not assumed to be each
/// other's negation, so a type with unordered values (a NaN) fits.
pub trait RealScalar: Sized {
    spec fn null() -> Self;

    spec fn plus(self, other: Self) -> Self;

    spec fn minus(self, other: Self) -> Self;

    spec fn times(self, other: Self) -> Self;

    spec fn over(self, other: Self) -> Self;

    spec fn reciprocal(self) -> Self;

    spec fn root(self) -> Self;

    spec fn magnitude(self) -> Self;

    spec fn below(self, other: Self) -> bool;

    spec fn at_most(self, other: Self) -> bool;

    spec fn is_null(self) -> bool;

    spec fn is_finite_spec(self) -> bool;

    spec fn ratio(num: u64, den: u64) -> Self;

    spec fn nearest(self) -> usize;

    /// No value is below itself.
    proof fn below_irreflexive(a: Self)
        ensures
            !a.below(a),
    ;

    /// `below` is transitive.
    proof fn below_transitive(a: Self, b: Self, c: Self)
        requires
            a.below(b),
            b.below(c),
        ensures
            a.below(c),
    ;

    fn copy(&self) -> (r: Self)
        ensures
            r == *self,
    ;

    fn zero() -> (r: Self)
        ensures
            r == Self::null(),
    ;

    fn add(&self, other: &Self) -> (r: Self)
        ensures
            r == self.plus(*other),
    ;

    fn sub(&self, other: &Self) -> (r: Self)
        ensures
            r == self.minus(*other),
    ;

    fn mul(&self, other: &Self) -> (r: Self)
        ensures
            r == self.times(*other),
    ;

    fn div(&self, other: &Self) -> (r: Self)
        ensures
            r == self.over(*other),
    ;

    fn recip(&self) -> (r: Self)
        ensures
            r == self.reciprocal(),
    ;

    fn sqrt(&self) -> (r: Self)
        ensures
            r == self.root(),
    ;

    fn abs(&self) -> (r: Self)
        ensures
            r == self.magnitude(),
    ;

    fn lt(&self, other: &Self) -> (b: bool)
        ensures
            b == self.below(*other),
    ;

    fn le(&self, other: &Self) -> (b: bool)
        ensures
            b == self.at_most(*other),
    ;

    /// Whether the value equals zero.
    fn is_zero(&self) -> (b: bool)
        ensures
            b == self.is_null(),
    ;

    fn is_finite(&self) -> (b: bool)
        ensures
            b == self.is_finite_spec(),
    ;

    /// The scalar nearest to `num / den`.
    fn from_ratio(num: u64, den: u64) -> (r: Self)
        requires
            den > 0,
        ensures
            r == Self::ratio(num, den),
    ;

    /// The integer nearest to the value, clamped to the range of `usize`.
    fn round_to_usize(&self) -> (r: usize)
        ensures
            r == self.nearest(),
    ;
}

/// A matrix entry: a real or complex scalar.
///
/// Tuning parameters (tolerances, damping factors, bounds) are checked and combined
/// in a type of their own, which need not be the real type of the entries: a single
/// precision matrix takes parameters in double precision. They are converted where
/// they meet the entries.
pub trait Scalar: Sized {
    type Real: RealScalar;

    type Tuning: RealScalar;

    spec fn null() -> Self;

    spec fn unit() -> Self;

    spec fn plus(self, other: Self) -> Self;

    spec fn minus(self, other: Self) -> Self;

    spec fn times(self, other: Self) -> Self;

    spec fn negated(self) -> Self;

    spec fn reciprocal(self) -> Self;

    spec fn conjugate(self) -> Self;

    spec fn real_part(self) -> Self::Real;

    spec fn embed(r: Self::Real) -> Self;

    spec fn magnitude(self) -> Self::Real;

    spec fn magnitude_squared(self) -> Self::Real;

    spec fn scaled(self, r: Self::Real) -> Self;

    spec fn tuned(p: Self::Tuning) -> Self::Real;

    fn copy(&self) -> (r: Self)
        ensures
            r == *self,
    ;

    fn zero() -> (r: Self)
        ensures
            r == Self::null(),
    ;

    fn one() -> (r: Self)
        ensures
            r == Self::unit(),
    ;

    fn add(&self, other: &Self) -> (r: Self)
        ensures
            r == self.plus(*other),
    ;

    fn sub(&self, other: &Self) -> (r: Self)
        ensures
            r == self.minus(*other),
    ;

    fn mul(&self, other: &Self) -> (r: Self)
        ensures
            r == self.times(*other),
    ;

    fn neg(&self) -> (r: Self)
        ensures
            r == self.negated(),
    ;

    fn recip(&self) -> (r: Self)
        ensures
            r == self.reciprocal(),
    ;

    fn conj(&self) -> (r: Self)
        ensures
            r == self.conjugate(),
    ;

    fn re(&self) -> (r: Self::Real)
        ensures
            r == self.real_part(),
    ;

    fn from_real(r: &Self::Real) -> (t: Self)
        ensures
            t == Self::embed(*r),
    ;

    fn abs(&self) -> (r: Self::Real)
        ensures
            r == self.magnitude(),
    ;

    fn abs2(&self) -> (r: Self::Real)
        ensures
            r == self.magnitude_squared(),
    ;

    fn mul_real(&self, r: &Self::Real) -> (t: Self)
        ensures
            t == self.scaled(*r),
    ;

    /// The real scalar that a tuning parameter stands for.
    fn from_tuning(p: &Self::Tuning) -> (r: Self::Real)
        ensures
            r == Self::tuned(*p),
    ;
}

/// Whether a scalar counts as zero when it is to be inverted: its magnitude
/// equals zero.
pub open spec fn vanishes<T: Scalar>(a: T) -> bool {
    a.magnitude().is_null()
}

/// `a`, conjugated when `conj` is set.
pub open spec fn conj_if<T: Scalar>(conj: bool, a: T) -> T {
    if conj {
        a.conjugate()
    } else {
        a
    }
}

/// Conjugates `a` when `conj` is set, and copies it otherwise.
pub fn apply_conj<T: Scalar>(conj: bool, a: &T) -> (r: T)
    ensures
        r == conj_if(conj, *a),
{
    if conj {
        a.conj()
    } else {
        a.copy()
    }
}

/// A vector of `n` zeros.
pub fn zeros<T: Scalar>(n: usize) -> (v: Vec<T>)
    ensures
        v.len() == n,
        forall|i: int| 0 <= i < n ==> #[trigger] v@[i] == T::null(),
{
    let mut v: Vec<T> = Vec::with_capacity(n);
    let mut i: usize = 0;
    while i < n
        invariant
            i <= n,
            v.len() == i,
            forall|k: int| 0 <= k < i ==> #[trigger] v@[k] == T::null(),
        decreases n - i,
    {
        v.push(T::zero());
        i += 1;
    }
    v
}

/// Exact arithmetic: the operations of `T` form a commutative ring in which
/// every entry that does not [vanish](vanishes) has an inverse.
///
/// Rounded arithmetic does not satisfy this. Laws about products of factors
/// hold for scalars that do.
pub open spec fn exact_field<T: Scalar>() -> bool {
    &&& plus_associates::<T>()
    &&& plus_commutes::<T>()
    &&& null_is_neutral::<T>()
    &&& minus_undoes_plus::<T>()
    &&& times_associates::<T>()
    &&& times_commutes::<T>()
    &&& unit_is_neutral::<T>()
    &&& null_absorbs::<T>()
    &&& times_distributes::<T>()
    &&& reciprocal_inverts::<T>()
}

/// Addition associates.
#[verifier::opaque]
pub open spec fn plus_associates<T: Scalar>() -> bool {
    forall|a: T, b: T, c: T| #[trigger] a.plus(b).plus(c) == a.plus(b.plus(c))
}

/// Addition commutes.
#[verifier::opaque]
pub open spec fn plus_commutes<T: Scalar>() -> bool {
    forall|a: T, b: T| #[trigger] a.plus(b) == b.plus(a)
}

/// Adding zero changes nothing.
#[verifier::opaque]
pub open spec fn null_is_neutral<T: Scalar>() -> bool {
    forall|a: T| #[trigger] a.plus(T::null()) == a
}

/// Adding back what was subtracted changes nothing.
#[verifier::opaque]
pub open spec fn minus_undoes_plus<T: Scalar>() -> bool {
    forall|a: T, b: T| #[trigger] a.minus(b).plus(b) == a
}

/// Multiplication associates.
#[verifier::opaque]
pub open spec fn times_associates<T: Scalar>() -> bool {
    forall|a: T, b: T, c: T| #[trigger] a.times(b).times(c) == a.times(b.times(c))
}

/// Multiplication commutes.
#[verifier::opaque]
pub open spec fn times_commutes<T: Scalar>() -> bool {
    forall|a: T, b: T| #[trigger] a.times(b) == b.times(a)
}

/// Multiplying by one changes nothing.
#[verifier::opaque]
pub open spec fn unit_is_neutral<T: Scalar>() -> bool {
    forall|a: T| #[trigger] a.times(T::unit()) == a
}

/// A multiple of zero is zero.
#[verifier::opaque]
pub open spec fn null_absorbs<T: Scalar>() -> bool {
    forall|a: T| #[trigger] a.times(T::null()) == T::null()
}

/// Multiplication distributes over addition.
#[verifier::opaque]
pub open spec fn times_distributes<T: Scalar>() -> bool {
    forall|a: T, b: T, c: T| #[trigger] a.plus(b).times(c) == a.times(c).plus(b.times(c))
}

/// The reciprocal of what does not [vanish](vanishes) is its inverse.
#[verifier::opaque]
pub open spec fn reciprocal_inverts<T: Scalar>() -> bool {
    forall|a: T| !vanishes(a) ==> #[trigger] a.reciprocal().times(a) == T::unit()
}

pub proof fn lemma_plus_associates<T: Scalar>(a: T, b: T, c: T)
    requires
        exact_field::<T>(),
    ensures
        a.plus(b).plus(c) == a.plus(b.plus(c)),
{
    reveal(plus_associates);
}

pub proof fn lemma_plus_commutes<T: Scalar>(a: T, b: T)
    requires
        exact_field::<T>(),
    ensures
        a.plus(b) == b.plus(a),
{
    reveal(plus_commutes);
}

pub proof fn lemma_null_is_neutral<T: Scalar>(a: T)
    requires
        exact_field::<T>(),
    ensures
        a.plus(T::null()) == a,
{
    reveal(null_is_neutral);
}

pub proof fn lemma_minus_undoes_plus<T: Scalar>(a: T, b: T)
    requires
        exact_field::<T>(),
    ensures
        a.minus(b).plus(b) == a,
{
    reveal(minus_undoes_plus);
}

pub proof fn lemma_times_associates<T: Scalar>(a: T, b: T, c: T)
    requires
        exact_field::<T>(),
    ensures
        a.times(b).times(c) == a.times(b.times(c)),
{
    reveal(times_associates);
}

pub proof fn lemma_times_commutes<T: Scalar>(a: T, b: T)
    requires
        exact_field::<T>(),
    ensures
        a.times(b) == b.times(a),
{
    reveal(times_commutes);
}

pub proof fn lemma_unit_is_neutral<T: Scalar>(a: T)
    requires
        exact_field::<T>(),
    ensures
        a.times(T::unit()) == a,
{
    reveal(unit_is_neutral);
}

pub proof fn lemma_null_absorbs<T: Scalar>(a: T)
    requires
        exact_field::<T>(),
    ensures
        a.times(T::null()) == T::null(),
{
    reveal(null_absorbs);
}

pub proof fn lemma_times_distributes<T: Scalar>(a: T, b: T, c: T)
    requires
        exact_field::<T>(),
    ensures
        a.plus(b).times(c) == a.times(c).plus(b.times(c)),
{
    reveal(times_distributes);
}

pub proof fn lemma_reciprocal_inverts<T: Scalar>(a: T)
    requires
        exact_field::<T>(),
        !vanishes(a),
    ensures
        a.reciprocal().times(a) == T::unit(),
{
    reveal(reciprocal_inverts);
}

/// `a` has no imaginary part.
pub open spec fn is_real<T: Scalar>(a: T) -> bool {
    T::embed(a.real_part()) == a
}

/// Exact conjugation and roots: conjugation fixes real scalars, `a * conj(a)`
/// and differences of real scalars are real, and the root of a positive real
/// squares to it.
#[verifier::opaque]
pub open spec fn exact_roots<T: Scalar>() -> bool {
    &&& T::null().conjugate() == T::null()
    &&& forall|r: T::Real| #[trigger] T::embed(r).conjugate() == T::embed(r)
    &&& forall|a: T| is_real(#[trigger] a.times(a.conjugate()))
    &&& forall|a: T, b: T| is_real(a) && is_real(b) ==> is_real(#[trigger] a.minus(b))
    &&& forall|r: T::Real|
        T::Real::null().below(r) ==> !vanishes(T::embed(#[trigger] r.root())) && T::embed(
            r.root(),
        ).times(T::embed(r.root())) == T::embed(r)
}

pub proof fn lemma_null_conjugate<T: Scalar>()
    requires
        exact_roots::<T>(),
    ensures
        T::null().conjugate() == T::null(),
{
    reveal(exact_roots);
}

pub proof fn lemma_embed_conjugate<T: Scalar>(r: T::Real)
    requires
        exact_roots::<T>(),
    ensures
        T::embed(r).conjugate() == T::embed(r),
{
    reveal(exact_roots);
}

pub proof fn lemma_square_is_real<T: Scalar>(a: T)
    requires
        exact_roots::<T>(),
    ensures
        is_real(a.times(a.conjugate())),
{
    reveal(exact_roots);
}

pub proof fn lemma_minus_is_real<T: Scalar>(a: T, b: T)
    requires
        exact_roots::<T>(),
        is_real(a),
        is_real(b),
    ensures
        is_real(a.minus(b)),
{
    reveal(exact_roots);
}

pub proof fn lemma_root_squares<T: Scalar>(r: T::Real)
    requires
        exact_roots::<T>(),
        T::Real::null().below(r),
    ensures
        !vanishes(T::embed(r.root())),
        T::embed(r.root()).times(T::embed(r.root())) == T::embed(r),
{
    reveal(exact_roots);
}

/// Exact conjugation: an involution that respects sums, products, zero and one.
#[verifier::opaque]
pub open spec fn exact_conjugation<T: Scalar>() -> bool {
    &&& T::null().conjugate() == T::null()
    &&& T::unit().conjugate() == T::unit()
    &&& forall|a: T| #[trigger] a.conjugate().conjugate() == a
    &&& forall|a: T, b: T| #[trigger] a.plus(b).conjugate() == a.conjugate().plus(b.conjugate())
    &&& forall|a: T, b: T| #[trigger] a.times(b).conjugate() == a.conjugate().times(b.conjugate())
}

/// The reciprocal of an entry stays its inverse under conjugation.
pub proof fn lemma_conj_if_inverts<T: Scalar>(conj: bool, a: T)
    requires
        exact_field::<T>(),
        exact_conjugation::<T>(),
        !vanishes(a),
    ensures
        conj_if(conj, a.reciprocal()).times(conj_if(conj, a)) == T::unit(),
        conj_if(conj, T::unit()) == T::unit(),
{
    reveal(exact_conjugation);
    lemma_reciprocal_inverts(a);
    assert(a.reciprocal().times(a).conjugate() == a.reciprocal().conjugate().times(a.conjugate()));
}

/// Equal sums with an equal second term have an equal first term.
pub proof fn lemma_plus_cancels<T: Scalar>(a: T, b: T, c: T)
    requires
        exact_field::<T>(),
        a.plus(c) == b.plus(c),
    ensures
        a == b,
{
    let n = T::null().minus(c);
    lemma_minus_undoes_plus(T::null(), c);
    lemma_plus_commutes(n, c);
    lemma_plus_associates(a, c, n);
    lemma_plus_associates(b, c, n);
    lemma_null_is_neutral(a);
    lemma_null_is_neutral(b);
}

/// Equal multiples of an entry that does not vanish have equal factors.
pub proof fn lemma_times_cancels<T: Scalar>(d: T, a: T, b: T)
    requires
        exact_field::<T>(),
        !vanishes(d),
        d.times(a) == d.times(b),
    ensures
        a == b,
{
    let r = d.reciprocal();
    lemma_reciprocal_inverts(d);
    lemma_times_associates(r, d, a);
    lemma_times_associates(r, d, b);
    lemma_times_commutes(T::unit(), a);
    lemma_times_commutes(T::unit(), b);
    lemma_unit_is_neutral(a);
    lemma_unit_is_neutral(b);
}

/// `(a + b) + (c + d) = (a + c) + (b + d)`.
pub proof fn lemma_plus_exchange<T: Scalar>(a: T, b: T, c: T, d: T)
    requires
        exact_field::<T>(),
    ensures
        a.plus(b).plus(c.plus(d)) == a.plus(c).plus(b.plus(d)),
{
    lemma_plus_associates(a, b, c.plus(d));
    lemma_plus_associates(b, c, d);
    lemma_plus_commutes(b, c);
    lemma_plus_associates(c, b, d);
    lemma_plus_associates(a, c, b.plus(d));
}

/// `c * (a + b) = c * a + c * b`.
pub proof fn lemma_times_distributes_left<T: Scalar>(c: T, a: T, b: T)
    requires
        exact_field::<T>(),
    ensures
        c.times(a.plus(b)) == c.times(a).plus(c.times(b)),
{
    lemma_times_commutes(c, a.plus(b));
    lemma_times_distributes(a, b, c);
    lemma_times_commutes(a, c);
    lemma_times_commutes(b, c);
}

/// `(a + b) - c = a + (b - c)`.
pub proof fn lemma_minus_associates<T: Scalar>(a: T, b: T, c: T)
    requires
        exact_field::<T>(),
    ensures
        a.plus(b).minus(c) == a.plus(b.minus(c)),
{
    lemma_minus_undoes_plus(a.plus(b), c);
    lemma_plus_associates(a, b.minus(c), c);
    lemma_minus_undoes_plus(b, c);
    lemma_plus_cancels(a.plus(b).minus(c), a.plus(b.minus(c)), c);
}

/// `(a + b) - (c + d) = (a - c) + (b - d)`.
pub proof fn lemma_minus_exchange<T: Scalar>(a: T, b: T, c: T, d: T)
    requires
        exact_field::<T>(),
    ensures
        a.plus(b).minus(c.plus(d)) == a.minus(c).plus(b.minus(d)),
{
    let x = a.minus(c).plus(b.minus(d));
    lemma_plus_exchange(a.minus(c), b.minus(d), c, d);
    lemma_minus_undoes_plus(a, c);
    lemma_minus_undoes_plus(b, d);
    lemma_minus_undoes_plus(a.plus(b), c.plus(d));
    lemma_plus_cancels(a.plus(b).minus(c.plus(d)), x, c.plus(d));
}

/// What conjugation fixes is real.
pub open spec fn conjugation_fixes_reals<T: Scalar>() -> bool {
    forall|a: T| #[trigger] a.conjugate() == a ==> is_real(a)
}

/// Negating is subtracting from zero.
pub open spec fn exact_negation<T: Scalar>() -> bool {
    forall|a: T| #[trigger] a.negated() == T::null().minus(a)
}

/// Multiplying by zero gives zero, and no magnitude is negative.
pub open spec fn exact_magnitudes<T: Scalar>() -> bool {
    &&& forall|r: T::Real| #[trigger] T::Real::null().times(r) == T::Real::null()
    &&& forall|x: T|
        T::Real::null().at_most(#[trigger] x.magnitude()) && !x.magnitude().below(T::Real::null())
}

/// A tuning parameter of zero stands for zero.
pub open spec fn exact_tuning<T: Scalar>() -> bool {
    T::tuned(T::Tuning::null()) == T::Real::null()
}

} // verus!
