//! What the power estimate is.
use super::gershgorin::lemma_real_sum_times;
use super::spd_bounds::{
    norm, normalized, power_estimate, power_state, power_step, real_dot_spec, start_vector,
    stretched, PowerState,
};
use crate::forms::{law_product_is_dense, sparse_entries};
use crate::inverse::dense_times;
use crate::lengths::{lemma_not_less, lemma_real_sum_equal, lemma_real_sum_not_negative};
use crate::linalg::spmv;
use crate::op::Op;
use crate::poly::alternation::lemma_both_positive;
use crate::poly::differences::{lemma_associates, lemma_commutes, lemma_neutral};
use crate::reading::{
    abs_real, reads_absolutes, reads_magnitudes, reads_parts, reads_ratios, reads_reals,
    reads_roots, real_sum,
};
use crate::scalar::{
    exact_conjugation, exact_field, lemma_null_absorbs, lemma_times_associates,
    lemma_times_commutes, RealScalar, Scalar,
};
use crate::sparse::CscModel;
use crate::sums::{lemma_sum_equal, lemma_sum_null, lemma_sum_times, sum};
use vstd::prelude::*;

verus! {

/// `A^k x`, where entry `i` of `x` is `1 + (i mod 7) / 2`.
pub open spec fn iterate<T: Scalar>(a: CscModel<T>, k: int) -> Seq<T>
    decreases k,
{
    if k <= 0 {
        start_vector::<T>(a.pattern.nrows as nat)
    } else {
        dense_times(sparse_entries(a), iterate(a, k - 1))
    }
}

/// The real parts of `conj(y_i) z_i`.
pub open spec fn dot_terms<T: Scalar>(
    v: spec_fn(T::Real) -> real,
    y: Seq<T>,
    z: Seq<T>,
) -> spec_fn(int) -> real {
    |i: int| v(y[i].conjugate().times(z[i]).real_part())
}

/// The squared magnitudes of `y`.
pub open spec fn square_terms<T: Scalar>(
    v: spec_fn(T::Real) -> real,
    y: Seq<T>,
) -> spec_fn(int) -> real {
    |i: int| v(y[i].magnitude()) * v(y[i].magnitude())
}

/// Every entry of `y` is zero.
pub open spec fn is_zero_vector<T: Scalar>(y: Seq<T>) -> bool {
    forall|i: int| 0 <= i < y.len() ==> #[trigger] y[i] == T::null()
}

/// The scalar product as a sum.
proof fn lemma_dot_reads<T: Scalar>(v: spec_fn(T::Real) -> real, x: Seq<T>, y: Seq<T>, k: int)
    requires
        reads_reals(v),
        0 <= k,
    ensures
        v(real_dot_spec(x, y, k)) == real_sum(dot_terms(v, x, y), k),
    decreases k,
{
    reveal(reads_reals);
    if k > 0 {
        lemma_dot_reads(v, x, y, k - 1);
    }
}

/// `x` is `y` times the real scalar `r`.
pub open spec fn is_multiple<T: Scalar>(r: T::Real, y: Seq<T>, x: Seq<T>) -> bool {
    &&& x.len() == y.len()
    &&& forall|i: int| 0 <= i < x.len() ==> #[trigger] x[i] == T::embed(r).times(y[i])
}

/// A scalar product of multiples is the multiple of the scalar product.
proof fn lemma_dot_multiples<T: Scalar>(
    v: spec_fn(T::Real) -> real,
    r: T::Real,
    y: Seq<T>,
    x: Seq<T>,
    z: Seq<T>,
    u: Seq<T>,
)
    requires
        exact_field::<T>(),
        exact_conjugation::<T>(),
        reads_reals(v),
        reads_parts::<T>(v),
        is_multiple(r, y, x),
        is_multiple(r, z, u),
        y.len() == z.len(),
    ensures
        real_sum(dot_terms(v, x, u), x.len() as int) == real_sum(dot_terms(v, y, z), x.len() as int)
            * (v(r) * v(r)),
{
    let n = x.len() as int;
    let c = v(r) * v(r);
    let f = dot_terms(v, y, z);
    let g = dot_terms(v, x, u);
    let h = |i: int| f(i) * c;
    let e = T::embed(r);
    assert forall|i: int| 0 <= i < n implies #[trigger] g(i) == h(i) by {
        let p = y[i].conjugate();
        let q = z[i];
        assert(x[i] == e.times(y[i]));
        assert(u[i] == e.times(q));
        assert(x[i].conjugate() == e.times(p)) by {
            reveal(exact_conjugation);
            reveal(reads_parts);
        }
        lemma_times_associates(e, p, e.times(q));
        lemma_times_associates(p, e, q);
        lemma_times_commutes(p, e);
        lemma_times_associates(e, p, q);
        assert(e.times(p).times(e.times(q)) == e.times(e.times(p.times(q))));
        let s = v(p.times(q).real_part());
        assert(g(i) == v(r) * (v(r) * s)) by {
            reveal(reads_parts);
        }
        lemma_associates(v(r), v(r), s);
        lemma_commutes(c, s);
    }
    lemma_real_sum_equal(g, h, n);
    lemma_real_sum_times(f, c, n);
}

/// The scalar product of a vector with itself sums its squared magnitudes.
proof fn lemma_dot_squares<T: Scalar>(v: spec_fn(T::Real) -> real, y: Seq<T>)
    requires
        reads_parts::<T>(v),
    ensures
        real_sum(dot_terms(v, y, y), y.len() as int) == real_sum(
            square_terms(v, y),
            y.len() as int,
        ),
        0real <= real_sum(square_terms(v, y), y.len() as int),
{
    reveal(reads_parts);
    let f = square_terms(v, y);
    assert forall|i: int| 0 <= i < y.len() implies 0real <= #[trigger] f(i) by {
        let m = v(y[i].magnitude());
        assert(0real <= m * m) by (nonlinear_arith);
    }
    lemma_real_sum_not_negative(f, y.len() as int);
    lemma_real_sum_equal(dot_terms(v, y, y), f, y.len() as int);
}

/// A term is at most the sum, where no term is negative.
proof fn lemma_term_at_most(f: spec_fn(int) -> real, k: int, i: int)
    requires
        forall|j: int| 0 <= j < k ==> 0real <= #[trigger] f(j),
        0 <= i < k,
    ensures
        f(i) <= real_sum(f, k),
    decreases k,
{
    assert(0real <= f(k - 1));
    lemma_real_sum_not_negative(f, k - 1);
    if i < k - 1 {
        lemma_term_at_most(f, k - 1, i);
    }
}

proof fn lemma_square_zero(m: real)
    by (nonlinear_arith)
    requires
        m * m <= 0real,
    ensures
        m == 0real,
{
}

/// Only the zero vector has no length.
proof fn lemma_no_length<T: Scalar>(v: spec_fn(T::Real) -> real, y: Seq<T>)
    requires
        reads_magnitudes::<T>(v),
    ensures
        real_sum(square_terms(v, y), y.len() as int) == 0real <==> is_zero_vector(y),
{
    let f = square_terms(v, y);
    let n = y.len() as int;
    assert forall|i: int| 0 <= i < n implies 0real <= #[trigger] f(i) by {
        let m = v(y[i].magnitude());
        assert(0real <= m * m) by (nonlinear_arith);
    }
    if real_sum(f, n) == 0real {
        assert forall|i: int| 0 <= i < n implies #[trigger] y[i] == T::null() by {
            lemma_term_at_most(f, n, i);
            lemma_square_zero(v(y[i].magnitude()));
            reveal(reads_magnitudes);
        }
    }
    if is_zero_vector(y) {
        let none = |i: int| 0real;
        assert forall|i: int| 0 <= i < n implies #[trigger] f(i) == none(i) by {
            assert(y[i] == T::null());
            reveal(reads_magnitudes);
            lemma_neutral(0real);
        }
        lemma_real_sum_equal(f, none, n);
        lemma_zeros(none, n);
    }
}

proof fn lemma_zeros(f: spec_fn(int) -> real, n: int)
    requires
        forall|i: int| 0 <= i < n ==> #[trigger] f(i) == 0real,
    ensures
        real_sum(f, n) == 0real,
    decreases n,
{
    if n > 0 {
        lemma_zeros(f, n - 1);
        assert(f(n - 1) == 0real);
    }
}

/// The scalar product with the zero vector is zero, from either side.
proof fn lemma_dot_zero<T: Scalar>(v: spec_fn(T::Real) -> real, y: Seq<T>, z: Seq<T>)
    requires
        exact_field::<T>(),
        exact_conjugation::<T>(),
        reads_magnitudes::<T>(v),
        reads_parts::<T>(v),
        y.len() == z.len(),
        is_zero_vector(y) || is_zero_vector(z),
    ensures
        real_sum(dot_terms(v, y, z), y.len() as int) == 0real,
{
    let f = dot_terms(v, y, z);
    assert(v(T::null().real_part()) == 0real) by {
        reveal(reads_parts);
        reveal(reads_magnitudes);
        reveal(exact_conjugation);
        lemma_null_absorbs(T::null());
        lemma_neutral(0real);
        assert(v(T::null().conjugate().times(T::null()).real_part()) == v(T::null().magnitude())
            * v(T::null().magnitude()));
    }
    assert forall|i: int| 0 <= i < y.len() implies #[trigger] f(i) == 0real by {
        if is_zero_vector(y) {
            assert(y[i] == T::null());
            reveal(exact_conjugation);
            lemma_times_commutes(T::null(), z[i]);
            lemma_null_absorbs(z[i]);
        } else {
            assert(z[i] == T::null());
            lemma_null_absorbs(y[i].conjugate());
        }
    }
    lemma_zeros(f, y.len() as int);
}

/// The image of a multiple is the multiple of the image.
proof fn lemma_image_multiple<T: Scalar>(a: CscModel<T>, r: T::Real, y: Seq<T>, x: Seq<T>)
    requires
        exact_field::<T>(),
        exact_conjugation::<T>(),
        a.wf(),
        a.pattern.nrows == a.pattern.ncols,
        a.pattern.sorted(),
        is_multiple(r, y, x),
        x.len() == a.pattern.ncols,
    ensures
        is_multiple(
            r,
            dense_times(sparse_entries(a), y),
            spmv(a, false, x, a.pattern.ncols as int),
        ),
{
    let n = x.len() as int;
    law_product_is_dense(a, Op::Apply, x);
    let e = sparse_entries(a);
    let image = spmv(a, false, x, n);
    assert(image == dense_times(e, x));
    let c = T::embed(r);
    assert forall|i: int| 0 <= i < n implies #[trigger] image[i] == c.times(
        dense_times(e, y)[i],
    ) by {
        let f = |j: int| e(i, j).times(y[j]);
        let g = |j: int| e(i, j).times(x[j]);
        let h = |j: int| f(j).times(c);
        assert forall|j: int| 0 <= j < n implies #[trigger] g(j) == h(j) by {
            assert(x[j] == c.times(y[j]));
            lemma_times_associates(e(i, j), c, y[j]);
            lemma_times_commutes(e(i, j), c);
            lemma_times_associates(c, e(i, j), y[j]);
            lemma_times_commutes(c, f(j));
        }
        lemma_sum_equal(g, h, n);
        lemma_sum_times(f, c, n);
        lemma_sum_equal(h, |j: int| f(j).times(c), n);
        lemma_times_commutes(c, sum(f, n));
    }
}

/// The reciprocal of the length of a multiple, times the factor, is the reciprocal
/// of the length: `c m = 1` and `m^2 = r^2 s` give `(c r)^2 s = 1`.
proof fn lemma_unit_length(c: real, m: real, r: real, s: real)
    requires
        c * m == 1real,
        m * m == s * (r * r),
    ensures
        s * ((c * r) * (c * r)) == 1real,
{
    let cr = c * r;
    lemma_associates(c, r, cr);
    lemma_associates(r, c, r);
    lemma_commutes(r, c);
    lemma_associates(c, r, r);
    // cr * cr == c * (r * (c * r)) == c * (c * (r * r))
    assert(cr * cr == c * (c * (r * r)));
    lemma_commutes(s, c * (c * (r * r)));
    lemma_associates(c, c * (r * r), s);
    lemma_associates(c, r * r, s);
    lemma_commutes(r * r, s);
    // s * (cr * cr) == c * (c * (m * m))
    assert(s * (cr * cr) == c * (c * (m * m)));
    lemma_associates(c, m, m);
    assert(c * (m * m) == m) by {
        lemma_neutral(m);
        lemma_commutes(1real, m);
    }
}

/// A vector divided by its length, where it has one.
proof fn lemma_divided<T: Scalar>(
    v: spec_fn(T::Real) -> real,
    r: T::Real,
    y: Seq<T>,
    x: Seq<T>,
) -> (q: T::Real)
    requires
        exact_field::<T>(),
        exact_conjugation::<T>(),
        reads_reals(v),
        reads_roots(v),
        reads_magnitudes::<T>(v),
        reads_parts::<T>(v),
        is_multiple(r, y, x),
        0real < v(r),
    ensures
        norm(x).is_null() <==> is_zero_vector(y),
        !norm(x).is_null() ==> is_multiple(q, y, stretched(x, norm(x).reciprocal())) && 0real < v(q)
            && real_sum(square_terms(v, y), y.len() as int) * (v(q) * v(q)) == 1real,
{
    let n = x.len() as int;
    let s = real_sum(square_terms(v, y), n);
    let m = v(norm(x));
    let d = real_dot_spec(x, x, n);
    let c = norm(x).reciprocal();
    let q = c.times(r);
    lemma_dot_reads(v, x, x, n);
    lemma_dot_multiples(v, r, y, x, y, x);
    lemma_dot_squares(v, x);
    lemma_dot_squares(v, y);
    lemma_no_length(v, y);
    assert(v(d) == s * (v(r) * v(r)));
    assert(0real <= m && m * m == v(d)) by {
        reveal(reads_roots);
    }
    lemma_both_positive(v(r), v(r));
    if s == 0real {
        lemma_neutral(v(r) * v(r));
        lemma_square_zero(m);
    } else {
        lemma_both_positive(s, v(r) * v(r));
        if m == 0real {
            lemma_neutral(m);
        }
    }
    assert(norm(x).is_null() <==> m == 0real) by {
        reveal(reads_reals);
    }
    if m != 0real {
        assert(v(c) * m == 1real && v(q) == v(c) * v(r)) by {
            reveal(reads_reals);
        }
        lemma_unit_length(v(c), m, v(r), s);
        lemma_quotient_positive(v(c), m);
        lemma_both_positive(v(c), v(r));
        let w = stretched(x, c);
        assert forall|i: int| 0 <= i < w.len() implies #[trigger] w[i] == T::embed(q).times(y[i]) by {
            reveal(reads_parts);
            assert(x[i] == T::embed(r).times(y[i]));
            assert(x[i].scaled(c) == T::embed(c).times(x[i]));
            assert(T::embed(c.times(r)) == T::embed(c).times(T::embed(r)));
            lemma_times_associates(T::embed(c), T::embed(r), y[i]);
        }
    }
    q
}

proof fn lemma_quotient_positive(c: real, m: real)
    by (nonlinear_arith)
    requires
        c * m == 1real,
        0real <= m,
    ensures
        0real < c,
{
}

/// The entries of the start vector are positive.
proof fn lemma_start<T: Scalar>(v: spec_fn(T::Real) -> real, n: nat, i: int)
    requires
        reads_reals(v),
        reads_ratios(v),
        reads_magnitudes::<T>(v),
        0 <= i < n,
    ensures
        start_vector::<T>(n)[i] != T::null(),
        2real * v(start_vector::<T>(n)[i].magnitude()) == 2real + ((i % 7) as real),
{
    let k = (2 + i % 7) as u64;
    let q = T::Real::ratio(k, 2);
    assert(v(q) * (2u64 as real) == (k as real)) by {
        reveal(reads_ratios);
    }
    assert((k as real) == 2real + ((i % 7) as real));
    reveal(reads_magnitudes);
    assert(v(T::embed(q).magnitude()) == abs_real(v(q)));
    assert(v(T::null().magnitude()) == 0real);
}

/// Iterating keeps the length of the vector.
proof fn lemma_iterate_len<T: Scalar>(a: CscModel<T>, k: int)
    ensures
        iterate(a, k).len() == a.pattern.nrows,
    decreases k,
{
    if k > 0 {
        lemma_iterate_len(a, k - 1);
    }
}

/// The image of the zero vector.
proof fn lemma_zero_image<T: Scalar>(e: spec_fn(int, int) -> T, y: Seq<T>)
    requires
        exact_field::<T>(),
        is_zero_vector(y),
    ensures
        is_zero_vector(dense_times(e, y)),
{
    assert forall|i: int| 0 <= i < y.len() implies #[trigger] dense_times(e, y)[i] == T::null() by {
        let f = |j: int| e(i, j).times(y[j]);
        assert forall|j: int| 0 <= j < y.len() implies #[trigger] f(j) == T::null() by {
            lemma_null_absorbs(e(i, j));
        }
        lemma_sum_null(f, y.len() as int);
    }
}

/// One step, from an iterate that is a multiple of `y`.
proof fn lemma_step<T: Scalar>(
    v: spec_fn(T::Real) -> real,
    a: CscModel<T>,
    s: PowerState<T>,
    y: Seq<T>,
    r: T::Real,
) -> (q: T::Real)
    requires
        exact_field::<T>(),
        exact_conjugation::<T>(),
        reads_reals(v),
        reads_roots(v),
        reads_magnitudes::<T>(v),
        reads_parts::<T>(v),
        a.wf(),
        a.pattern.nrows == a.pattern.ncols,
        a.pattern.sorted(),
        y.len() == a.pattern.ncols,
        !s.stopped,
        is_multiple(r, y, s.x),
        0real < v(r),
        real_sum(square_terms(v, y), y.len() as int) * (v(r) * v(r)) == 1real,
    ensures
        ({
            let z = dense_times(sparse_entries(a), y);
            let t = power_step(a, s);
            let n = y.len() as int;
            &&& v(t.lambda) * real_sum(square_terms(v, y), n) == real_sum(dot_terms(v, y, z), n)
            &&& t.stopped ==> is_zero_vector(z)
            &&& !t.stopped ==> is_multiple(q, z, t.x) && 0real < v(q) && real_sum(
                square_terms(v, z),
                n,
            ) * (v(q) * v(q)) == 1real
        }),
{
    let n = y.len() as int;
    let z = dense_times(sparse_entries(a), y);
    let image = spmv(a, false, s.x, a.pattern.ncols as int);
    lemma_image_multiple(a, r, y, s.x);
    lemma_dot_reads(v, s.x, image, n);
    lemma_dot_multiples(v, r, y, s.x, z, image);
    let t = power_step(a, s);
    let ray = real_sum(dot_terms(v, y, z), n);
    let c = v(r) * v(r);
    let sq = real_sum(square_terms(v, y), n);
    assert(v(t.lambda) == ray * c);
    lemma_associates(ray, c, sq);
    lemma_commutes(c, sq);
    lemma_neutral(ray);
    lemma_divided(v, r, z, image)
}

/// Where the iteration stands after `k` steps.
proof fn lemma_state<T: Scalar>(v: spec_fn(T::Real) -> real, a: CscModel<T>, k: int) -> (r: T::Real)
    requires
        exact_field::<T>(),
        exact_conjugation::<T>(),
        reads_reals(v),
        reads_ratios(v),
        reads_roots(v),
        reads_magnitudes::<T>(v),
        reads_parts::<T>(v),
        a.wf(),
        a.pattern.nrows == a.pattern.ncols,
        a.pattern.sorted(),
        a.pattern.nrows > 0,
        0 <= k,
    ensures
        ({
            let s = power_state(a, k);
            let y = iterate(a, k);
            let n = y.len() as int;
            let last = iterate(a, k - 1);
            &&& s.stopped ==> is_zero_vector(y)
            &&& s.stopped ==> k > 0 && v(s.lambda) == 0real
            &&& !s.stopped ==> is_multiple(r, y, s.x) && 0real < v(r) && real_sum(
                square_terms(v, y),
                n,
            ) * (v(r) * v(r)) == 1real
            &&& k > 0 ==> v(s.lambda) * real_sum(square_terms(v, last), n) == real_sum(
                dot_terms(v, last, y),
                n,
            )
            &&& k > 0 && is_zero_vector(last) ==> v(s.lambda) == 0real
        }),
    decreases k,
{
    lemma_iterate_len(a, k);
    lemma_iterate_len(a, k - 1);
    let y = iterate(a, k);
    let n = y.len() as int;
    if k <= 0 {
        lemma_start::<T>(v, n as nat, 0);
        assert(!is_zero_vector(y));
        lemma_first(v, y)
    } else {
        let r0 = lemma_state(v, a, k - 1);
        let s = power_state(a, k - 1);
        let last = iterate(a, k - 1);
        lemma_no_length(v, last);
        if s.stopped {
            lemma_zero_image(sparse_entries(a), last);
            lemma_dot_zero(v, last, y);
            lemma_neutral(v(s.lambda));
            r0
        } else {
            if is_zero_vector(last) {
                lemma_neutral(v(r0) * v(r0));
            }
            let q = lemma_step(v, a, s, last, r0);
            let t = power_state(a, k);
            if t.stopped {
                lemma_dot_zero(v, last, y);
                lemma_nothing(v(t.lambda), real_sum(square_terms(v, last), n));
            }
            q
        }
    }
}

proof fn lemma_nothing(x: real, s: real)
    by (nonlinear_arith)
    requires
        x * s == 0real,
        s != 0real,
    ensures
        x == 0real,
{
}

/// The start vector, divided by its length.
proof fn lemma_first<T: Scalar>(v: spec_fn(T::Real) -> real, y: Seq<T>) -> (r: T::Real)
    requires
        exact_field::<T>(),
        exact_conjugation::<T>(),
        reads_reals(v),
        reads_roots(v),
        reads_magnitudes::<T>(v),
        reads_parts::<T>(v),
        !is_zero_vector(y),
    ensures
        is_multiple(r, y, normalized(y)),
        0real < v(r),
        real_sum(square_terms(v, y), y.len() as int) * (v(r) * v(r)) == 1real,
{
    let n = y.len() as int;
    let s = real_sum(square_terms(v, y), n);
    let m = v(norm(y));
    let c = norm(y).reciprocal();
    lemma_dot_reads(v, y, y, n);
    lemma_dot_squares(v, y);
    lemma_no_length(v, y);
    assert(0real <= m && m * m == s) by {
        reveal(reads_roots);
    }
    if m == 0real {
        lemma_neutral(m);
    }
    assert(!norm(y).is_null() && v(c) * m == 1real) by {
        reveal(reads_reals);
    }
    lemma_neutral(s);
    lemma_neutral(1real);
    lemma_unit_length(v(c), m, 1real, s);
    lemma_neutral(v(c));
    lemma_quotient_positive(v(c), m);
    let x = normalized(y);
    assert forall|i: int| 0 <= i < x.len() implies #[trigger] x[i] == T::embed(c).times(y[i]) by {
        reveal(reads_parts);
    }
    c
}

proof fn lemma_abs_times(x: real, s: real, y: real)
    requires
        0real <= s,
        x * s == y,
    ensures
        abs_real(x) * s == abs_real(y),
{
    if x < 0real {
        assert((0real - x) * s == 0real - x * s) by (nonlinear_arith);
        lemma_not_less(s, x, 0real);
        lemma_commutes(s, x);
        lemma_neutral(s);
    } else {
        lemma_not_less(s, 0real, x);
        lemma_commutes(s, x);
        lemma_neutral(s);
    }
}

/// The power estimate after `k` steps is the absolute value of the Rayleigh
/// quotient of `y = A^{k-1} x`, where entry `i` of `x` is `1 + (i mod 7) / 2`:
/// times `y^H y` it is `|Re(y^H A y)|`. It is zero where `y` is.
pub proof fn law_power_estimate<T: Scalar>(v: spec_fn(T::Real) -> real, a: CscModel<T>, k: int)
    requires
        exact_field::<T>(),
        exact_conjugation::<T>(),
        reads_reals(v),
        reads_absolutes(v),
        reads_ratios(v),
        reads_roots(v),
        reads_magnitudes::<T>(v),
        reads_parts::<T>(v),
        a.wf(),
        a.pattern.nrows == a.pattern.ncols,
        a.pattern.sorted(),
        a.pattern.nrows > 0,
        1 <= k,
    ensures
        ({
            let n = a.pattern.nrows as int;
            let y = iterate(a, k - 1);
            &&& v(power_estimate(a, k)) * real_sum(square_terms(v, y), n) == abs_real(
                real_sum(dot_terms(v, y, dense_times(sparse_entries(a), y)), n),
            )
            &&& is_zero_vector(y) ==> v(power_estimate(a, k)) == 0real
        }),
        forall|i: int|
            0 <= i < a.pattern.nrows ==> 2real * v(#[trigger] iterate(a, 0)[i].magnitude()) == 2real
                + ((i % 7) as real),
{
    let n = a.pattern.nrows as int;
    let y = iterate(a, k - 1);
    lemma_iterate_len(a, k);
    lemma_iterate_len(a, k - 1);
    let r = lemma_state(v, a, k);
    let x = v(power_state(a, k).lambda);
    lemma_dot_squares(v, y);
    lemma_abs_times(
        x,
        real_sum(square_terms(v, y), n),
        real_sum(dot_terms(v, y, dense_times(sparse_entries(a), y)), n),
    );
    reveal(reads_absolutes);
    assert forall|i: int| 0 <= i < a.pattern.nrows implies 2real * v(
        #[trigger] iterate(a, 0)[i].magnitude(),
    ) == 2real + ((i % 7) as real) by {
        lemma_start::<T>(v, n as nat, i);
    }
}

} // verus!
