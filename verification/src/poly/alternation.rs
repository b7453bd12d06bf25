//! The points at which a Chebyshev polynomial alternates between one and minus one,
//! as closely as desired.
use super::chebyshev::{
    alternating, cheb, law_bounded_inside, lemma_at_minus_one, lemma_compose, lemma_descent,
    lemma_first_by_second, lemma_one_identity, lemma_pell, lemma_product_positive, second,
};
use vstd::prelude::*;

verus! {

/// How steep `T_k` is on `[-1, 1]` at most.
spec fn slope(k: int) -> real
    decreases k,
{
    if k <= 0 {
        0real
    } else if k == 1 {
        1real
    } else {
        2real + 2real * slope(k - 1) + slope(k - 2)
    }
}

/// How large `U_k` is on `[0, 1]` at most.
spec fn height(k: int) -> real
    decreases k,
{
    if k < 0 {
        0real
    } else if k == 0 {
        1real
    } else if k == 1 {
        2real
    } else {
        2real * height(k - 1) + height(k - 2)
    }
}

/// How steep `U_k` is on `[0, 1]` at most.
spec fn steepness(k: int) -> real
    decreases k,
{
    if k <= 0 {
        0real
    } else if k == 1 {
        2real
    } else {
        2real * height(k - 1) + 2real * steepness(k - 1) + steepness(k - 2)
    }
}

proof fn lemma_slope_grows(k: int, n: int)
    requires
        k <= n,
    ensures
        0real <= slope(k) <= slope(n),
    decreases n,
{
    if n > 1 {
        lemma_slope_grows(n - 2, n - 1);
        if k < n {
            lemma_slope_grows(k, n - 1);
        } else {
            lemma_slope_grows(n - 1, n - 1);
        }
    }
}

proof fn lemma_height_positive(k: int)
    ensures
        0real <= height(k),
    decreases k,
{
    if k > 1 {
        lemma_height_positive(k - 1);
        lemma_height_positive(k - 2);
    }
}

proof fn lemma_steepness_grows(k: int, n: int)
    requires
        k <= n,
    ensures
        0real <= steepness(k) <= steepness(n),
    decreases n,
{
    if n > 1 {
        lemma_height_positive(n - 1);
        lemma_steepness_grows(n - 2, n - 1);
        if k < n {
            lemma_steepness_grows(k, n - 1);
        } else {
            lemma_steepness_grows(n - 1, n - 1);
        }
    }
}

proof fn lemma_difference_identity(x: real, y: real, a: real, b: real)
    by (nonlinear_arith)
    ensures
        x * a - y * b == (x - y) * a + y * (a - b),
{
}

pub proof fn lemma_scaled_bound(h: real, a: real, b: real)
    by (nonlinear_arith)
    requires
        h >= 0real,
        -b <= a <= b,
    ensures
        -(b * h) <= h * a <= b * h,
{
}

proof fn lemma_shrunk_bound(y: real, e: real, b: real)
    by (nonlinear_arith)
    requires
        -1real <= y <= 1real,
        -b <= e <= b,
    ensures
        -b <= y * e <= b,
{
}

proof fn lemma_sum_identity(p: real, q: real, r: real, h: real)
    by (nonlinear_arith)
    ensures
        (2real * p + 2real * q + r) * h == 2real * (p * h) + 2real * (q * h) + r * h,
{
}

/// `T_k` changes by at most its slope times the distance.
proof fn lemma_first_changes(x: real, y: real, k: int)
    requires
        -1real <= y <= x <= 1real,
        k >= 0,
    ensures
        -(slope(k) * (x - y)) <= cheb(x, k) - cheb(y, k) <= slope(k) * (x - y),
    decreases k,
{
    let h = x - y;
    lemma_one_identity(h);
    if k >= 2 {
        lemma_first_changes(x, y, k - 1);
        lemma_first_changes(x, y, k - 2);
        let a = cheb(x, k - 1);
        let b = cheb(y, k - 1);
        law_bounded_inside(x, k - 1);
        lemma_difference_identity(x, y, a, b);
        lemma_scaled_bound(h, a, 1real);
        lemma_shrunk_bound(y, a - b, slope(k - 1) * h);
        lemma_sum_identity(1real, slope(k - 1), slope(k - 2), h);
    }
}

/// `U_k` stays within its height on `[0, 1]`.
proof fn lemma_second_bounded(x: real, k: int)
    requires
        0real <= x <= 1real,
    ensures
        -height(k) <= second(x, k) <= height(k),
    decreases k,
{
    lemma_one_identity(x);
    if k >= 2 {
        lemma_second_bounded(x, k - 1);
        lemma_second_bounded(x, k - 2);
        lemma_shrunk_bound(x, second(x, k - 1), height(k - 1));
    }
}

/// `U_k` changes by at most its steepness times the distance.
proof fn lemma_second_changes(x: real, y: real, k: int)
    requires
        0real <= y <= x <= 1real,
    ensures
        -(steepness(k) * (x - y)) <= second(x, k) - second(y, k) <= steepness(k) * (x - y),
    decreases k,
{
    let h = x - y;
    lemma_one_identity(h);
    lemma_one_identity(x);
    lemma_one_identity(y);
    if k >= 2 {
        lemma_second_changes(x, y, k - 1);
        lemma_second_changes(x, y, k - 2);
        let a = second(x, k - 1);
        let b = second(y, k - 1);
        lemma_second_bounded(x, k - 1);
        lemma_difference_identity(x, y, a, b);
        lemma_scaled_bound(h, a, height(k - 1));
        lemma_shrunk_bound(y, a - b, steepness(k - 1) * h);
        lemma_sum_identity(height(k - 1), steepness(k - 1), steepness(k - 2), h);
    }
}

/// All of `U_0, ..., U_n` are positive at `x`.
spec fn rising(x: real, n: int) -> bool {
    forall|k: int| 0 <= k <= n ==> #[trigger] second(x, k) > 0real
}

/// Two to the power of `t`.
spec fn doubled(t: int) -> real
    decreases t,
{
    if t <= 0 {
        1real
    } else {
        2real * doubled(t - 1)
    }
}

proof fn lemma_doubled(t: int)
    requires
        t >= 0,
    ensures
        doubled(t) >= (t as real) + 1real,
    decreases t,
{
    if t > 0 {
        lemma_doubled(t - 1);
    }
}

/// Halves an interval `t` times, so that its right end stays where all are
/// positive, and its left end where one is not.
proof fn lemma_bisect(l: real, r: real, n: int, t: int) -> (p: (real, real))
    requires
        0real <= l < r <= 1real,
        !rising(l, n),
        rising(r, n),
        t >= 0,
    ensures
        0real <= p.0 < p.1 <= 1real,
        !rising(p.0, n),
        rising(p.1, n),
        (p.1 - p.0) * doubled(t) == r - l,
    decreases t,
{
    if t == 0 {
        lemma_one_identity(r - l);
        (l, r)
    } else {
        let m = (l + r) / 2real;
        let p = if rising(m, n) {
            lemma_bisect(l, m, n, t - 1)
        } else {
            lemma_bisect(m, r, n, t - 1)
        };
        let w = p.1 - p.0;
        let d = doubled(t - 1);
        assert(w * (2real * d) == 2real * (w * d)) by (nonlinear_arith);
        p
    }
}

/// `U_k(1) = k + 1`, and `U_1(0) = 0`.
proof fn lemma_ends(k: int)
    requires
        k >= 0,
    ensures
        second(1real, k) == (k as real) + 1real,
        second(0real, 1) == 0real,
    decreases k,
{
    lemma_one_identity(1real);
    lemma_one_identity(0real);
    if k >= 2 {
        lemma_ends(k - 1);
        lemma_ends(k - 2);
        lemma_one_identity(second(1real, k - 1));
    }
}

proof fn lemma_scaled_small(m: real, e: real, d: real, w: real)
    by (nonlinear_arith)
    requires
        m <= e * d,
        w > 0real,
        w * d == 1real,
    ensures
        m * w <= e,
{
    assert(m * w <= (e * d) * w);
    assert((e * d) * w == e * (w * d));
}

proof fn lemma_quotient(m: real, e: real)
    by (nonlinear_arith)
    requires
        e > 0real,
    ensures
        (m / e) * e == m,
{
}

proof fn lemma_quotient_positive(m: real, e: real)
    by (nonlinear_arith)
    requires
        e > 0real,
        m >= 0real,
    ensures
        m / e >= 0real,
{
}

proof fn lemma_scaled_order(q: real, d: real, e: real)
    by (nonlinear_arith)
    requires
        q <= d,
        e > 0real,
    ensures
        q * e <= e * d,
{
}

pub proof fn lemma_both_positive(a: real, b: real)
    by (nonlinear_arith)
    requires
        a > 0real,
        b > 0real,
    ensures
        a * b > 0real,
{
}

proof fn lemma_below_one(u: real)
    by (nonlinear_arith)
    requires
        0real < u < 1real,
    ensures
        u * u < 1real,
{
}

/// There is a point at which `U_n` has come down close to zero and all before it
/// are still positive.
proof fn lemma_near_root(n: int, e: real) -> (c: real)
    requires
        n >= 1,
        0real < e < 1real,
    ensures
        0real <= c < 1real,
        rising(c, n),
        second(c, n) <= e,
{
    let m = steepness(n);
    lemma_steepness_grows(n, n);
    let q = m / e;
    lemma_quotient(m, e);
    lemma_quotient_positive(m, e);
    let t = q.floor() + 1;
    assert(t >= 0);
    lemma_doubled(t);
    let d = doubled(t);
    assert(q <= d);
    lemma_scaled_order(q, d, e);
    assert(!rising(0real, n)) by {
        lemma_ends(1);
        assert(second(0real, 1) == 0real);
    }
    assert(rising(1real, n)) by {
        assert forall|k: int| 0 <= k <= n implies #[trigger] second(1real, k) > 0real by {
            lemma_ends(k);
        }
    }
    let p = lemma_bisect(0real, 1real, n, t);
    let l = p.0;
    let c = p.1;
    let w = c - l;
    lemma_scaled_small(m, e, d, w);
    let k = choose|k: int| 0 <= k <= n && !(#[trigger] second(l, k) > 0real);
    assert(0 <= k <= n && !(second(l, k) > 0real));
    let u = second(c, k);
    lemma_second_changes(c, l, k);
    lemma_steepness_grows(k, n);
    lemma_scaled_bound(w, steepness(n) - steepness(k), steepness(n) - steepness(k));
    assert(w * (m - steepness(k)) == m * w - steepness(k) * w) by (nonlinear_arith);
    lemma_product_positive(m - steepness(k), w);
    lemma_product_positive(w, m - steepness(k));
    assert(steepness(k) * w <= m * w);
    assert(u <= e);
    if k < n {
        assert(k != 0) by {
            assert(second(l, 0) == 1real);
        }
        lemma_pell(c, k);
        assert(second(c, k + 1) > 0real);
        assert(second(c, k - 1) > 0real);
        lemma_both_positive(second(c, k + 1), second(c, k - 1));
        assert(u > 0real);
        lemma_below_one(u);
    }
    assert(k == n);
    lemma_ends(n);
    c
}

proof fn lemma_close_to_one(w: real, e: real)
    by (nonlinear_arith)
    requires
        w > 0real,
        0real < e < 1real,
        w * w >= 1real - e * e,
    ensures
        w >= 1real - e,
{
}

proof fn lemma_square_order(u: real, e: real)
    by (nonlinear_arith)
    requires
        0real <= u <= e,
    ensures
        u * u <= e * e,
{
}

/// There is a point up to which the Chebyshev polynomials descend from one, until
/// `T_d` comes close to minus one.
proof fn lemma_first_minimum(d: int, eps: real) -> (c: real)
    requires
        d >= 1,
        0real < eps < 1real,
    ensures
        -1real <= c < 1real,
        forall|k: int| 0 <= k < d ==> #[trigger] second(c, k) + second(c, k - 1) > 0real,
        -1real <= cheb(c, d) <= -1real + eps,
{
    if d == 1 {
        assert forall|k: int| 0 <= k < d implies #[trigger] second(-1real, k) + second(
            -1real,
            k - 1,
        ) > 0real by {}
        -1real
    } else {
        let n = d - 1;
        let e = eps / 2real;
        let c = lemma_near_root(n, e);
        let u = second(c, n);
        let w = second(c, n - 1);
        assert(u > 0real);
        assert(w > 0real);
        lemma_pell(c, n);
        lemma_first_by_second(c, d);
        lemma_product_positive(u, w);
        lemma_product_positive(c, u * w);
        lemma_square_order(u, e);
        lemma_close_to_one(w, e);
        lemma_scaled_bound(u, c, 1real);
        lemma_one_identity(u);
        assert(c * u == u * c) by (nonlinear_arith);
        law_bounded_inside(c, d);
        assert forall|k: int| 0 <= k < d implies #[trigger] second(c, k) + second(c, k - 1)
            > 0real by {
            assert(second(c, k) > 0real);
            if k > 0 {
                assert(second(c, k - 1) > 0real);
            }
        }
        c
    }
}

/// `T_d` alternates at `d + 1` points of `[-1, 1]`, and comes as close to one and
/// minus one there as desired.
pub proof fn lemma_alternation(d: int, eta: real) -> (y: Seq<real>)
    requires
        d >= 1,
        0real < eta < 1real,
    ensures
        y.len() == d + 1,
        forall|k: int| 0 <= k <= d ==> -1real <= #[trigger] y[k] <= 1real,
        forall|k: int| 0 <= k < d ==> #[trigger] y[k] > y[k + 1],
        forall|k: int| 0 <= k <= d ==> alternating(k) * cheb(#[trigger] y[k], d) >= 1real - eta,
{
    let s = slope(d);
    lemma_slope_grows(d, d);
    let b = s + 1real;
    let eps = eta / b;
    lemma_quotient(eta, b);
    lemma_quotient_small(eta, b);
    let c = lemma_first_minimum(d, eps);
    let t = cheb(c, d);
    let y = Seq::new((d + 1) as nat, |k: int| cheb(c, k));
    assert forall|k: int| 0 <= k <= d implies -1real <= #[trigger] y[k] <= 1real by {
        law_bounded_inside(c, k);
    }
    assert forall|k: int| 0 <= k < d implies #[trigger] y[k] > y[k + 1] by {
        lemma_descent(c, k);
        lemma_both_positive(1real - c, second(c, k) + second(c, k - 1));
    }
    assert forall|k: int| 0 <= k <= d implies alternating(k) * cheb(#[trigger] y[k], d) >= 1real
        - eta by {
        lemma_compose(c, d, k);
        lemma_compose(c, k, d);
        assert(d * k == k * d) by (nonlinear_arith);
        let x = cheb(t, k);
        assert(cheb(y[k], d) == x);
        lemma_first_changes(t, -1real, k);
        lemma_at_minus_one(k);
        lemma_slope_grows(k, d);
        let h = t - (-1real);
        let g = slope(k);
        lemma_product_order(g, h, b, eps);
        assert(b * eps == eta) by (nonlinear_arith)
            requires
                eps * b == eta,
        ;
        if k % 2 == 0 {
            lemma_one_identity(x);
        } else {
            assert((-1real) * x == -x) by (nonlinear_arith);
        }
    }
    y
}

proof fn lemma_quotient_small(m: real, b: real)
    by (nonlinear_arith)
    requires
        b >= 1real,
        0real < m < 1real,
    ensures
        0real < m / b < 1real,
{
    let q = m / b;
    assert(q * b == m);
    assert(q > 0real);
    assert(q <= m);
}

proof fn lemma_product_order(g: real, h: real, b: real, e: real)
    by (nonlinear_arith)
    requires
        0real <= g <= b,
        0real <= h <= e,
    ensures
        g * h <= b * e,
{
    assert(g * h <= b * h);
    assert(b * h <= b * e);
}

} // verus!
