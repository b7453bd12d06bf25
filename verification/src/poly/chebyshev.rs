//! The Chebyshev polynomials on the real line: how small they stay on `[-1, 1]`,
//! how fast they grow beyond, and where they alternate.
use vstd::prelude::*;

verus! {

/// The Chebyshev polynomial of the first kind, of degree `k`.
pub open spec fn cheb(x: real, k: int) -> real
    decreases k,
{
    if k <= 0 {
        1real
    } else if k == 1 {
        x
    } else {
        2real * (x * cheb(x, k - 1)) - cheb(x, k - 2)
    }
}

/// The Chebyshev polynomial of the second kind, of degree `k`; zero for `k < 0`.
pub open spec fn second(x: real, k: int) -> real
    decreases k,
{
    if k < 0 {
        0real
    } else if k == 0 {
        1real
    } else if k == 1 {
        2real * (x * 1real) - 0real
    } else {
        2real * (x * second(x, k - 1)) - second(x, k - 2)
    }
}

/// One for even `k`, minus one for odd `k`.
pub open spec fn alternating(k: int) -> real {
    if k % 2 == 0 {
        1real
    } else {
        -1real
    }
}

proof fn lemma_pell_identity(x: real, w: real, z: real)
    by (nonlinear_arith)
    ensures
        ({
            let u = 2real * (x * w) - z;
            u * u - 2real * (x * (u * w)) + w * w == w * w - 2real * (x * (w * z)) + z * z
        }),
{
}

proof fn lemma_next_identity(x: real, u: real, w: real)
    by (nonlinear_arith)
    ensures
        u * u - (2real * (x * u) - w) * w == u * u - 2real * (x * (u * w)) + w * w,
{
}

proof fn lemma_square_identity(x: real, u: real, w: real)
    by (nonlinear_arith)
    ensures
        (x * u - w) * (x * u - w) + (1real - x * x) * (u * u) == u * u - 2real * (x * (u * w)) + w
            * w,
{
}

pub proof fn lemma_one_identity(x: real)
    by (nonlinear_arith)
    ensures
        x * 1real == x,
        1real * x == x,
        x * 0real == 0real,
        0real * x == 0real,
{
}

/// `U_k^2 - 2 x U_k U_(k-1) + U_(k-1)^2 = 1`, and `U_k^2 - U_(k+1) U_(k-1) = 1`.
pub proof fn lemma_pell(x: real, k: int)
    requires
        k >= 0,
    ensures
        second(x, k) * second(x, k) - 2real * (x * (second(x, k) * second(x, k - 1))) + second(
            x,
            k - 1,
        ) * second(x, k - 1) == 1real,
        second(x, k) * second(x, k) - second(x, k + 1) * second(x, k - 1) == 1real,
    decreases k,
{
    let u = second(x, k);
    let w = second(x, k - 1);
    lemma_one_identity(1real);
    lemma_one_identity(x);
    if k == 0 {
        assert(u == 1real && w == 0real);
        lemma_one_identity(0real);
    } else {
        lemma_pell(x, k - 1);
        let z = second(x, k - 2);
        assert(u == 2real * (x * w) - z);
        lemma_pell_identity(x, w, z);
    }
    lemma_next_identity(x, u, w);
    assert(second(x, k + 1) == 2real * (x * u) - w);
}

proof fn lemma_first_identity(x: real, u2: real, u3: real, u4: real)
    by (nonlinear_arith)
    ensures
        ({
            let u1 = 2real * (x * u2) - u3;
            2real * (x * (x * u2 - u3)) - (x * u3 - u4) == x * u1 - (2real * (x * u3) - u4)
        }),
{
}

/// `T_k = x U_(k-1) - U_(k-2)`.
pub proof fn lemma_first_by_second(x: real, k: int)
    requires
        k >= 1,
    ensures
        cheb(x, k) == x * second(x, k - 1) - second(x, k - 2),
    decreases k,
{
    lemma_one_identity(x);
    if k == 1 {
        assert(second(x, 0) == 1real && second(x, -1) == 0real);
    } else if k == 2 {
        let y = 2real * x;
        assert(second(x, 1) == y);
        assert(second(x, 0) == 1real);
        assert(cheb(x, 1) == x && cheb(x, 0) == 1real);
        assert(2real * (x * x) == x * y) by (nonlinear_arith)
            requires
                y == 2real * x,
        ;
    } else if k > 2 {
        lemma_first_by_second(x, k - 1);
        lemma_first_by_second(x, k - 2);
        let u2 = second(x, k - 2);
        let u3 = second(x, k - 3);
        let u4 = second(x, k - 4);
        lemma_first_identity(x, u2, u3, u4);
        assert(second(x, k - 1) == 2real * (x * u2) - u3);
        assert(u2 == 2real * (x * u3) - u4) by {
            if k == 3 {
                assert(u3 == 1real && u4 == 0real);
            }
        }
        assert(cheb(x, k) == 2real * (x * cheb(x, k - 1)) - cheb(x, k - 2));
        assert(cheb(x, k - 1) == x * u2 - u3);
        assert(cheb(x, k - 2) == x * u3 - u4);
    }
}

/// `T_k^2 + (1 - x^2) U_(k-1)^2 = 1`.
pub proof fn law_first_and_second(x: real, k: int)
    requires
        k >= 0,
    ensures
        cheb(x, k) * cheb(x, k) + (1real - x * x) * (second(x, k - 1) * second(x, k - 1)) == 1real,
{
    if k == 0 {
        lemma_one_identity(1real);
        lemma_one_identity(0real);
        lemma_one_identity(1real - x * x);
    } else {
        lemma_first_by_second(x, k);
        lemma_pell(x, k - 1);
        lemma_square_identity(x, second(x, k - 1), second(x, k - 2));
    }
}

proof fn lemma_square_positive(x: real)
    by (nonlinear_arith)
    ensures
        x * x >= 0real,
{
}

pub proof fn lemma_product_positive(x: real, y: real)
    by (nonlinear_arith)
    requires
        x >= 0real,
        y >= 0real,
    ensures
        x * y >= 0real,
{
}

proof fn lemma_unit_square(x: real)
    by (nonlinear_arith)
    requires
        -1real <= x <= 1real,
    ensures
        x * x <= 1real,
{
}

proof fn lemma_small_square(t: real)
    by (nonlinear_arith)
    requires
        t * t <= 1real,
    ensures
        -1real <= t <= 1real,
{
}

/// On `[-1, 1]` the Chebyshev polynomials stay within `[-1, 1]`.
pub proof fn law_bounded_inside(x: real, k: int)
    requires
        -1real <= x <= 1real,
        k >= 0,
    ensures
        -1real <= cheb(x, k) <= 1real,
{
    law_first_and_second(x, k);
    let u = second(x, k - 1);
    lemma_square_positive(u);
    lemma_unit_square(x);
    lemma_product_positive(1real - x * x, u * u);
    lemma_small_square(cheb(x, k));
}

proof fn lemma_growth(s: real, b: real)
    by (nonlinear_arith)
    requires
        s >= 1real,
        b >= 1real,
    ensures
        s * b >= b,
{
}

/// From one on the Chebyshev polynomials do not fall with the degree.
pub proof fn law_grows_outside(s: real, k: int)
    requires
        s >= 1real,
        k >= 0,
    ensures
        1real <= cheb(s, k) <= cheb(s, k + 1),
    decreases k,
{
    if k > 0 {
        law_grows_outside(s, k - 1);
        lemma_growth(s, cheb(s, k));
    }
}

/// `T_k(-1) = (-1)^k`.
pub proof fn lemma_at_minus_one(k: int)
    requires
        k >= 0,
    ensures
        cheb(-1real, k) == alternating(k),
    decreases k,
{
    if k >= 2 {
        lemma_at_minus_one(k - 1);
        lemma_at_minus_one(k - 2);
        let a = cheb(-1real, k - 1);
        assert((-1real) * a == -a) by (nonlinear_arith);
    }
}

proof fn lemma_product_identity(x: real, ta: real, b1: real, b2: real, p1: real, p2: real)
    by (nonlinear_arith)
    ensures
        ({
            let m1 = 2real * (ta * b1) - p1;
            let m2 = 2real * (ta * b2) - p2;
            let m0 = 2real * (x * m1) - m2;
            (2real * (x * p1) - p2) + m0 == 2real * (ta * (2real * (x * b1) - b2))
        }),
{
}

/// `T_(a+b) + T_(a-b) = 2 T_a T_b`.
proof fn lemma_product(x: real, a: int, b: int)
    requires
        0 <= b <= a,
    ensures
        cheb(x, a + b) + cheb(x, a - b) == 2real * (cheb(x, a) * cheb(x, b)),
    decreases b,
{
    let ta = cheb(x, a);
    lemma_one_identity(ta);
    if b == 1 {
        assert(x * ta == ta * x) by (nonlinear_arith);
        lemma_one_identity(x);
    } else if b > 1 {
        lemma_product(x, a, b - 1);
        lemma_product(x, a, b - 2);
        let p1 = cheb(x, a + b - 1);
        let p2 = cheb(x, a + b - 2);
        let b1 = cheb(x, b - 1);
        let b2 = cheb(x, b - 2);
        assert(a + (b - 1) == a + b - 1 && a - (b - 1) == a - b + 1);
        assert(a + (b - 2) == a + b - 2 && a - (b - 2) == a - b + 2);
        let m1 = cheb(x, a - b + 1);
        let m2 = cheb(x, a - b + 2);
        assert(m1 == 2real * (ta * b1) - p1);
        assert(m2 == 2real * (ta * b2) - p2);
        assert(m2 == 2real * (x * m1) - cheb(x, a - b));
        lemma_product_identity(x, ta, b1, b2, p1, p2);
    }
}

/// `T_m(T_k(x)) = T_(mk)(x)`.
pub proof fn lemma_compose(x: real, m: int, k: int)
    requires
        m >= 0,
        k >= 0,
    ensures
        cheb(cheb(x, k), m) == cheb(x, m * k),
    decreases m,
{
    let y = cheb(x, k);
    if m == 0 {
        assert(0 * k == 0) by (nonlinear_arith);
    } else if m == 1 {
        assert(1 * k == k) by (nonlinear_arith);
    } else {
        lemma_compose(x, m - 1, k);
        lemma_compose(x, m - 2, k);
        let a = (m - 1) * k;
        assert(a + k == m * k && a - k == (m - 2) * k && 0 <= k <= a) by (nonlinear_arith)
            requires
                a == (m - 1) * k,
                m >= 2,
                k >= 0,
        ;
        lemma_product(x, a, k);
        let t = cheb(x, a);
        assert(y * t == t * y) by (nonlinear_arith);
    }
}

proof fn lemma_descent_identity(x: real, w: real, z: real)
    by (nonlinear_arith)
    ensures
        ({
            let u = 2real * (x * w) - z;
            (x * w - z) - (x * u - w) == (1real - x) * (u + w)
        }),
{
}

/// `T_k - T_(k+1) = (1 - x) (U_k + U_(k-1))`.
pub proof fn lemma_descent(x: real, k: int)
    requires
        k >= 0,
    ensures
        cheb(x, k) - cheb(x, k + 1) == (1real - x) * (second(x, k) + second(x, k - 1)),
{
    lemma_one_identity(x);
    if k == 0 {
        lemma_one_identity(1real - x);
        assert(second(x, 0) + second(x, -1) == 1real);
    } else {
        lemma_first_by_second(x, k);
        lemma_first_by_second(x, k + 1);
        lemma_descent_identity(x, second(x, k - 1), second(x, k - 2));
    }
}

} // verus!
