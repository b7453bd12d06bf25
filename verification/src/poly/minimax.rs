//! No polynomial of the same degree that is one at zero stays smaller over an
//! interval than the Chebyshev polynomial does.
//!
//! Divided differences tell: those of a polynomial vanish beyond its degree, and
//! those of values that alternate do not.
use super::alternation::{lemma_alternation, lemma_both_positive, lemma_scaled_bound};
use super::chebyshev::{alternating, cheb, law_bounded_inside, law_grows_outside};
use super::differences::{
    ascend, divided, flat, inverse, lemma_associates, lemma_commutes, lemma_distributes_minus,
    lemma_flat_combines, lemma_flat_constant, lemma_flat_more, lemma_flat_shifts, lemma_inverse,
    lemma_inverse_positive, lemma_negates, lemma_neutral,
};
use vstd::prelude::*;

verus! {

/// The polynomial with the coefficients `p`, lowest first, at `t`.
pub open spec fn poly_value(p: Seq<real>, t: real) -> real
    decreases p.len(),
{
    if p.len() == 0 {
        0real
    } else {
        p[0] + t * poly_value(p.drop_first(), t)
    }
}

/// A polynomial is flat beyond its degree.
proof fn lemma_flat_poly(p: Seq<real>, x: spec_fn(int) -> real, m: int, top: int)
    requires
        ascend(x, top),
        p.len() <= m + 1,
        0 <= m,
    ensures
        flat(|t: real| poly_value(p, t), x, m, top),
    decreases p.len(),
{
    let f = |t: real| poly_value(p, t);
    if p.len() == 0 {
        assert forall|t: real| #[trigger] f(t) == 0real by {}
        lemma_flat_constant(f, 0real, x, m, top);
    } else {
        let q = p.drop_first();
        let g = |t: real| poly_value(q, t);
        let first = p[0];
        if m == 0 {
            assert(q.len() == 0);
            assert forall|t: real| #[trigger] f(t) == first by {
                assert(poly_value(q, t) == 0real);
                lemma_neutral(t);
            }
            lemma_flat_constant(f, first, x, 0, top);
        } else {
            let s = |t: real| t * g(t);
            let c = |t: real| first;
            lemma_flat_constant(c, first, x, m, top);
            lemma_flat_poly(q, x, m - 1, top);
            lemma_flat_shifts(g, s, x, m - 1, top);
            assert forall|t: real| #[trigger] f(t) == 1real * c(t) + 1real * s(t) by {}
            lemma_flat_combines(c, s, f, 1real, 1real, x, m, top);
        }
    }
}

/// `((th - t) i) c` taken apart.
proof fn lemma_affine(th: real, t: real, i: real, c: real)
    ensures
        ((th - t) * i) * c == (th * i) * c + (-i) * (t * c),
{
    let u = th * i;
    let w = i * t;
    lemma_commutes(th - t, i);
    lemma_distributes_minus(i, th, t);
    lemma_commutes(i, th);
    assert((th - t) * i == u - w);
    lemma_commutes(u - w, c);
    lemma_distributes_minus(c, u, w);
    lemma_commutes(c, u);
    lemma_commutes(c, w);
    lemma_associates(i, t, c);
    lemma_negates(i, t * c);
}

/// The Chebyshev polynomial of degree `k`, taken at `(th - t) i`, is flat beyond
/// its degree.
proof fn lemma_flat_cheb(th: real, i: real, k: int, x: spec_fn(int) -> real, top: int)
    requires
        ascend(x, top),
        k >= 0,
    ensures
        flat(|t: real| cheb((th - t) * i, k), x, k, top),
    decreases k,
{
    let f = |t: real| cheb((th - t) * i, k);
    if k == 0 {
        assert forall|t: real| #[trigger] f(t) == 1real by {}
        lemma_flat_constant(f, 1real, x, 0, top);
    } else if k == 1 {
        let c = |t: real| 1real;
        let s = |t: real| t * c(t);
        lemma_flat_constant(c, 1real, x, 0, top);
        lemma_flat_shifts(c, s, x, 0, top);
        lemma_flat_more(c, x, 0, 1, top);
        let u = th * i;
        let w = -i;
        assert forall|t: real| #[trigger] f(t) == u * c(t) + w * s(t) by {
            lemma_affine(th, t, i, 1real);
            lemma_neutral((th - t) * i);
        }
        lemma_flat_combines(c, s, f, u, w, x, 1, top);
    } else {
        lemma_flat_cheb(th, i, k - 1, x, top);
        lemma_flat_cheb(th, i, k - 2, x, top);
        let c = |t: real| cheb((th - t) * i, k - 1);
        let e = |t: real| cheb((th - t) * i, k - 2);
        let s = |t: real| t * c(t);
        let u = th * i;
        let w = -i;
        let g = |t: real| u * c(t) + w * s(t);
        lemma_flat_shifts(c, s, x, k - 1, top);
        lemma_flat_more(c, x, k - 1, k, top);
        lemma_flat_more(e, x, k - 2, k, top);
        lemma_flat_combines(c, s, g, u, w, x, k, top);
        assert forall|t: real| #[trigger] f(t) == 2real * g(t) + (-1real) * e(t) by {
            lemma_affine(th, t, i, c(t));
            let y = (th - t) * i;
            assert(cheb(y, k) == 2real * (y * cheb(y, k - 1)) - cheb(y, k - 2));
        }
        lemma_flat_combines(g, e, f, 2real, -1real, x, k, top);
    }
}

/// `v` has the sign of `(-1)^k`.
spec fn signed(v: real, k: int) -> bool {
    if k % 2 == 0 {
        v > 0real
    } else {
        v < 0real
    }
}

/// A difference of signed values keeps the sign of the first.
proof fn lemma_signed_difference(a: real, b: real, i: real, k: int)
    requires
        signed(a, k),
        signed(b, k - 1) || b == 0real,
        i > 0real,
    ensures
        signed((a - b) * i, k),
{
    let n = a - b;
    if k % 2 == 0 {
        assert((k - 1) % 2 != 0);
        lemma_both_positive(n, i);
    } else {
        assert((k - 1) % 2 == 0);
        lemma_both_positive(-n, i);
        lemma_negates(n, i);
    }
}

/// The divided differences of values that alternate after a zero do not vanish.
proof fn lemma_alternating_differences(
    f: spec_fn(real) -> real,
    x: spec_fn(int) -> real,
    k: int,
    j: int,
    top: int,
)
    requires
        ascend(x, top),
        f(x(0)) == 0real,
        forall|i: int| 1 <= i <= top ==> signed(f(#[trigger] x(i)), i - 1),
        0 <= k,
        0 <= j,
        k + j <= top,
        k + j >= 1,
    ensures
        signed(divided(f, x, k, j), k + j - 1),
    decreases j,
{
    if j == 0 {
        assert(signed(f(x(k)), k - 1));
    } else {
        lemma_alternating_differences(f, x, k + 1, j - 1, top);
        let a = divided(f, x, k + 1, j - 1);
        let b = divided(f, x, k, j - 1);
        if k + j - 1 >= 1 {
            lemma_alternating_differences(f, x, k, j - 1, top);
        } else {
            assert(k == 0 && j == 1);
            assert(b == f(x(0)));
        }
        let d = x(k + j) - x(k);
        assert(x(k) < x(k + j));
        lemma_inverse(d);
        lemma_inverse_positive(inverse(d), d);
        lemma_signed_difference(a, b, inverse(d), k + j - 1);
    }
}

/// Steps that descend lead down.
proof fn lemma_descending(y: Seq<real>, a: int, b: int)
    requires
        0 <= a < b < y.len(),
        forall|k: int| 0 <= k < y.len() - 1 ==> #[trigger] y[k] > y[k + 1],
    ensures
        y[a] > y[b],
    decreases b - a,
{
    assert(y[b - 1] > y[b - 1 + 1]);
    if a < b - 1 {
        lemma_descending(y, a, b - 1);
    }
}

/// A point of the interval and its place.
proof fn lemma_point(th: real, de: real, i: real, y: real)
    requires
        de > 0real,
        i * de == 1real,
        -1real <= y <= 1real,
    ensures
        (th - (th - de * y)) * i == y,
        th - de <= th - de * y <= th + de,
{
    lemma_scaled_bound(de, y, 1real);
    lemma_neutral(de);
    lemma_commutes(1real, de);
    let z = de * y;
    assert(th - (th - z) == z);
    lemma_commutes(z, i);
    lemma_associates(i, de, y);
    lemma_commutes(1real, y);
    lemma_neutral(y);
}

/// The Chebyshev polynomial is the best: a polynomial of degree at most `d` that is
/// one at zero does not stay below `1 / T_d(theta / delta)` over `[lo, hi]`, with
/// the centre `theta` and the half width `delta`.
pub proof fn law_no_residual_is_smaller(lo: real, hi: real, d: int, p: Seq<real>, m: real)
    requires
        0real < lo < hi,
        d >= 1,
        p.len() <= d + 1,
        poly_value(p, 0real) == 1real,
        forall|t: real| lo <= t <= hi ==> -m <= #[trigger] poly_value(p, t) <= m,
    ensures
        m * cheb(((lo + hi) / 2real) * inverse((hi - lo) / 2real), d) >= 1real,
{
    let th = (lo + hi) / 2real;
    let de = (hi - lo) / 2real;
    let i = inverse(de);
    lemma_inverse(de);
    lemma_inverse_positive(i, de);
    assert(th - de == lo && th + de == hi);
    let sigma = th * i;
    assert(sigma >= 1real) by {
        lemma_both_positive(th - de, i);
        lemma_commutes(th - de, i);
        lemma_distributes_minus(i, th, de);
        lemma_commutes(i, th);
    }
    law_grows_outside(sigma, d);
    let s = cheb(sigma, d);
    if m * s < 1real {
        assert(-m <= poly_value(p, lo) <= m);
        lemma_scaled_bound(s, 0real, m);
        assert(m * s >= 0real) by {
            lemma_neutral(s);
        }
        let eta = (1real - m * s) / 2real;
        let y = lemma_alternation(d, eta);
        let top = d + 1;
        let x = |k: int|
            if k <= 0 {
                0real
            } else {
                th - de * y[k - 1]
            };
        assert forall|a: int, b: int| 0 <= a < b <= top implies #[trigger] x(a) < #[trigger] x(b) by {
            lemma_point(th, de, i, y[b - 1]);
            if a > 0 {
                lemma_descending(y, a - 1, b - 1);
                lemma_both_positive(de, y[a - 1] - y[b - 1]);
                lemma_distributes_minus(de, y[a - 1], y[b - 1]);
            }
        }
        assert(ascend(x, top));
        let c = |t: real| cheb((th - t) * i, d);
        let q = |t: real| poly_value(p, t);
        let w = -s;
        let r = |t: real| 1real * c(t) + w * q(t);
        lemma_flat_cheb(th, i, d, x, top);
        lemma_flat_poly(p, x, d, top);
        lemma_flat_combines(c, q, r, 1real, w, x, d, top);
        assert(r(x(0)) == 0real) by {
            assert(th - 0real == th);
            assert(c(0real) == s);
            assert(q(0real) == 1real);
            lemma_neutral(w);
        }
        assert forall|k: int| 1 <= k <= top implies signed(r(#[trigger] x(k)), k - 1) by {
            let z = y[k - 1];
            lemma_point(th, de, i, z);
            let t = x(k);
            assert(t == th - de * z);
            assert(c(t) == cheb(z, d));
            let v = poly_value(p, t);
            assert(-m <= v <= m);
            lemma_scaled_bound(s, v, m);
            lemma_negates(s, v);
            assert(r(t) == cheb(z, d) - s * v);
            let u = cheb(z, d);
            assert(alternating(k - 1) * u >= 1real - eta);
            if (k - 1) % 2 == 0 {
                lemma_neutral(u);
                lemma_commutes(1real, u);
                assert(alternating(k - 1) == 1real);
            } else {
                lemma_negates(1real, u);
                lemma_neutral(u);
                lemma_commutes(1real, u);
                assert(alternating(k - 1) == -1real);
            }
        }
        lemma_alternating_differences(r, x, 0, top, top);
        assert(divided(r, x, 0, top) == 0real) by {
            reveal(flat);
        }
    }
}

/// Over `[lo, hi]` the shifted Chebyshev polynomial stays within one, and at zero it
/// is `T_d(theta / delta)`, at least one: divided by that value it is one at zero
/// and stays within `1 / T_d(theta / delta)`.
pub proof fn law_chebyshev_attains(lo: real, hi: real, d: int, t: real)
    requires
        0real < lo < hi,
        d >= 0,
        lo <= t <= hi,
    ensures
        ({
            let theta = (lo + hi) / 2real;
            let i = inverse((hi - lo) / 2real);
            &&& -1real <= cheb((theta - t) * i, d) <= 1real
            &&& cheb((theta - 0real) * i, d) == cheb(theta * i, d)
            &&& cheb(theta * i, d) >= 1real
        }),
{
    let th = (lo + hi) / 2real;
    let de = (hi - lo) / 2real;
    let i = inverse(de);
    lemma_inverse(de);
    lemma_inverse_positive(i, de);
    lemma_scaled_bound(i, th - t, de);
    lemma_commutes(i, th - t);
    lemma_commutes(de, i);
    law_bounded_inside((th - t) * i, d);
    lemma_both_positive(th - de, i);
    lemma_commutes(th - de, i);
    lemma_distributes_minus(i, th, de);
    lemma_commutes(i, th);
    law_grows_outside(th * i, d);
    assert(th - 0real == th);
}

/// The coefficients with their signs turned.
spec fn turned(q: Seq<real>) -> Seq<real> {
    Seq::new(q.len(), |k: int| -q[k])
}

proof fn lemma_turned(q: Seq<real>, t: real)
    ensures
        poly_value(turned(q), t) == -poly_value(q, t),
    decreases q.len(),
{
    if q.len() > 0 {
        let r = q.drop_first();
        lemma_turned(r, t);
        assert(turned(q).drop_first() =~= turned(r));
        lemma_commutes(t, -poly_value(r, t));
        lemma_negates(poly_value(r, t), t);
        lemma_commutes(t, poly_value(r, t));
    }
}

/// No polynomial `q` of degree below `d` makes `|1 - t q(t)|` smaller than
/// `1 / T_d(theta / delta)` all over `[lo, hi]`.
pub proof fn law_no_polynomial_does_better(lo: real, hi: real, d: int, q: Seq<real>, m: real)
    requires
        0real < lo < hi,
        d >= 1,
        q.len() <= d,
        forall|t: real|
            lo <= t <= hi ==> -m <= 1real - t * (#[trigger] poly_value(q, t)) <= m,
    ensures
        m * cheb(((lo + hi) / 2real) * inverse((hi - lo) / 2real), d) >= 1real,
{
    let p = seq![1real] + turned(q);
    assert(p.drop_first() =~= turned(q));
    assert forall|t: real| #[trigger] poly_value(p, t) == 1real - t * poly_value(q, t) by {
        lemma_turned(q, t);
        lemma_commutes(t, -poly_value(q, t));
        lemma_negates(poly_value(q, t), t);
        lemma_commutes(t, poly_value(q, t));
    }
    assert(poly_value(p, 0real) == 1real) by {
        lemma_neutral(poly_value(q, 0real));
    }
    law_no_residual_is_smaller(lo, hi, d, p, m);
}

} // verus!
