//! Divided differences: those of a polynomial vanish beyond its degree.
use vstd::prelude::*;

verus! {

/// `1 / d`.
pub open spec fn inverse(d: real) -> real {
    1real / d
}

/// The divided difference of order `j` of `f` at the points from `x(k)` on.
pub open spec fn divided(
    f: spec_fn(real) -> real,
    x: spec_fn(int) -> real,
    k: int,
    j: int,
) -> real
    decreases j,
{
    if j <= 0 {
        f(x(k))
    } else {
        (divided(f, x, k + 1, j - 1) - divided(f, x, k, j - 1)) * inverse(x(k + j) - x(k))
    }
}

/// The points `x(0), ..., x(top)` ascend.
pub open spec fn ascend(x: spec_fn(int) -> real, top: int) -> bool {
    forall|a: int, b: int| 0 <= a < b <= top ==> #[trigger] x(a) < #[trigger] x(b)
}

/// Every divided difference of an order above `m` vanishes.
#[verifier::opaque]
pub open spec fn flat(
    f: spec_fn(real) -> real,
    x: spec_fn(int) -> real,
    m: int,
    top: int,
) -> bool {
    forall|k: int, j: int|
        0 <= k && m < j && k + j <= top ==> #[trigger] divided(f, x, k, j) == 0real
}

pub proof fn lemma_inverse(d: real)
    by (nonlinear_arith)
    requires
        d > 0real,
    ensures
        (1real / d) * d == 1real,
{
}

pub proof fn lemma_inverse_positive(i: real, d: real)
    by (nonlinear_arith)
    requires
        d > 0real,
        i * d == 1real,
    ensures
        i > 0real,
{
}

pub proof fn lemma_distributes(a: real, b: real, c: real)
    by (nonlinear_arith)
    ensures
        a * (b + c) == a * b + a * c,
{
}

pub proof fn lemma_distributes_minus(a: real, b: real, c: real)
    by (nonlinear_arith)
    ensures
        a * (b - c) == a * b - a * c,
{
}

pub proof fn lemma_associates(a: real, b: real, c: real)
    by (nonlinear_arith)
    ensures
        (a * b) * c == a * (b * c),
{
}

pub proof fn lemma_commutes(a: real, b: real)
    by (nonlinear_arith)
    ensures
        a * b == b * a,
{
}

pub proof fn lemma_negates(a: real, b: real)
    by (nonlinear_arith)
    ensures
        (-a) * b == -(a * b),
{
}

pub proof fn lemma_neutral(a: real)
    by (nonlinear_arith)
    ensures
        a * 1real == a,
        a * 0real == 0real,
        0real * a == 0real,
{
}

/// `(a f1 + b g1 - a f0 - b g0) i` taken apart.
proof fn lemma_combined(
    a: real,
    b: real,
    f1: real,
    f0: real,
    g1: real,
    g0: real,
    i: real,
)
    ensures
        ((a * f1 + b * g1) - (a * f0 + b * g0)) * i == a * ((f1 - f0) * i) + b * ((g1 - g0) * i),
{
    let x = f1 - f0;
    let y = g1 - g0;
    lemma_distributes_minus(a, f1, f0);
    lemma_distributes_minus(b, g1, g0);
    let n = (a * f1 + b * g1) - (a * f0 + b * g0);
    let p = a * x;
    let q = b * y;
    assert(n == p + q);
    lemma_commutes(n, i);
    lemma_distributes(i, p, q);
    lemma_commutes(i, p);
    lemma_commutes(i, q);
    lemma_associates(a, x, i);
    lemma_associates(b, y, i);
    assert(i * n == i * (p + q));
}

/// Divided differences are linear.
proof fn lemma_divided_combines(
    f: spec_fn(real) -> real,
    g: spec_fn(real) -> real,
    h: spec_fn(real) -> real,
    a: real,
    b: real,
    x: spec_fn(int) -> real,
    k: int,
    j: int,
)
    requires
        0 <= j,
        forall|t: real| #[trigger] h(t) == a * f(t) + b * g(t),
    ensures
        divided(h, x, k, j) == a * divided(f, x, k, j) + b * divided(g, x, k, j),
    decreases j,
{
    if j > 0 {
        lemma_divided_combines(f, g, h, a, b, x, k + 1, j - 1);
        lemma_divided_combines(f, g, h, a, b, x, k, j - 1);
        lemma_combined(
            a,
            b,
            divided(f, x, k + 1, j - 1),
            divided(f, x, k, j - 1),
            divided(g, x, k + 1, j - 1),
            divided(g, x, k, j - 1),
            inverse(x(k + j) - x(k)),
        );
    } else {
        assert(h(x(k)) == a * f(x(k)) + b * g(x(k)));
    }
}

pub proof fn lemma_flat_combines(
    f: spec_fn(real) -> real,
    g: spec_fn(real) -> real,
    h: spec_fn(real) -> real,
    a: real,
    b: real,
    x: spec_fn(int) -> real,
    m: int,
    top: int,
)
    requires
        0 <= m,
        flat(f, x, m, top),
        flat(g, x, m, top),
        forall|t: real| #[trigger] h(t) == a * f(t) + b * g(t),
    ensures
        flat(h, x, m, top),
{
    reveal(flat);
    assert forall|k: int, j: int| 0 <= k && m < j && k + j <= top implies #[trigger] divided(
        h,
        x,
        k,
        j,
    ) == 0real by {
        lemma_divided_combines(f, g, h, a, b, x, k, j);
        assert(divided(f, x, k, j) == 0real);
        assert(divided(g, x, k, j) == 0real);
        lemma_neutral(a);
        lemma_neutral(b);
    }
}

/// `(x0 p + f1 d) i`, where `i d = 1`.
proof fn lemma_shifted(x0: real, p: real, f1: real, d: real, i: real)
    requires
        i * d == 1real,
    ensures
        (x0 * p + f1 * d) * i == x0 * (p * i) + f1,
{
    let u = x0 * p;
    let w = f1 * d;
    lemma_commutes(u + w, i);
    lemma_distributes(i, u, w);
    lemma_commutes(i, u);
    lemma_commutes(i, w);
    lemma_associates(x0, p, i);
    lemma_associates(f1, d, i);
    lemma_commutes(d, i);
    lemma_neutral(f1);
    assert(i * (u + w) == u * i + w * i);
    assert(w * i == f1 * (d * i));
    assert(d * i == 1real);
}

/// The divided differences of `t f(t)`.
proof fn lemma_divided_shifts(
    f: spec_fn(real) -> real,
    h: spec_fn(real) -> real,
    x: spec_fn(int) -> real,
    k: int,
    j: int,
    top: int,
)
    requires
        ascend(x, top),
        0 <= k,
        1 <= j,
        k + j <= top,
        forall|t: real| #[trigger] h(t) == t * f(t),
    ensures
        divided(h, x, k, j) == x(k) * divided(f, x, k, j) + divided(f, x, k + 1, j - 1),
    decreases j,
{
    let x0 = x(k);
    let x1 = x(k + 1);
    let xj = x(k + j);
    assert(x0 < xj);
    let d = xj - x0;
    let i = inverse(d);
    lemma_inverse(d);
    let a = divided(f, x, k + 1, j - 1);
    let b = divided(f, x, k, j - 1);
    lemma_shifted(x0, a - b, a, d, i);
    lemma_distributes_minus(x0, a, b);
    lemma_distributes_minus(a, xj, x0);
    lemma_commutes(a, x0);
    lemma_commutes(a, xj);
    let p = divided(h, x, k + 1, j - 1);
    let q = divided(h, x, k, j - 1);
    if j == 1 {
        assert(p == x1 * a);
        assert(q == x0 * b);
        assert(x1 == xj);
    } else {
        lemma_divided_shifts(f, h, x, k + 1, j - 1, top);
        lemma_divided_shifts(f, h, x, k, j - 1, top);
        let e = xj - x1;
        assert(x1 < xj);
        let c1 = divided(f, x, k + 2, j - 2);
        let c0 = divided(f, x, k + 1, j - 2);
        lemma_inverse(e);
        lemma_associates(c1 - c0, inverse(e), e);
        lemma_neutral(c1 - c0);
        assert(x(k + 1 + (j - 1)) == xj);
        assert(a == (c1 - c0) * inverse(e));
        assert(a * e == c1 - c0);
        lemma_distributes_minus(a, xj, x1);
        lemma_commutes(a, x1);
        assert(p == x1 * a + c1);
        assert(q == x0 * b + c0);
    }
    assert(p - q == x0 * (a - b) + a * d);
}

pub proof fn lemma_flat_shifts(
    f: spec_fn(real) -> real,
    h: spec_fn(real) -> real,
    x: spec_fn(int) -> real,
    m: int,
    top: int,
)
    requires
        ascend(x, top),
        0 <= m,
        flat(f, x, m, top),
        forall|t: real| #[trigger] h(t) == t * f(t),
    ensures
        flat(h, x, m + 1, top),
{
    reveal(flat);
    assert forall|k: int, j: int| 0 <= k && m + 1 < j && k + j <= top implies #[trigger] divided(
        h,
        x,
        k,
        j,
    ) == 0real by {
        lemma_divided_shifts(f, h, x, k, j, top);
        assert(divided(f, x, k, j) == 0real);
        assert(divided(f, x, k + 1, j - 1) == 0real);
        lemma_neutral(x(k));
    }
}

proof fn lemma_constant_vanishes(
    f: spec_fn(real) -> real,
    c: real,
    x: spec_fn(int) -> real,
    k: int,
    j: int,
)
    requires
        forall|t: real| #[trigger] f(t) == c,
        0 < j,
    ensures
        divided(f, x, k, j) == 0real,
    decreases j,
{
    lemma_neutral(inverse(x(k + j) - x(k)));
    if j == 1 {
        assert(divided(f, x, k + 1, 0) == c);
        assert(divided(f, x, k, 0) == c);
    } else {
        lemma_constant_vanishes(f, c, x, k + 1, j - 1);
        lemma_constant_vanishes(f, c, x, k, j - 1);
    }
}

pub proof fn lemma_flat_constant(
    f: spec_fn(real) -> real,
    c: real,
    x: spec_fn(int) -> real,
    m: int,
    top: int,
)
    requires
        forall|t: real| #[trigger] f(t) == c,
        0 <= m,
    ensures
        flat(f, x, m, top),
{
    reveal(flat);
    assert forall|k: int, j: int| 0 <= k && m < j && k + j <= top implies #[trigger] divided(
        f,
        x,
        k,
        j,
    ) == 0real by {
        lemma_constant_vanishes(f, c, x, k, j);
    }
}

pub proof fn lemma_flat_more(
    f: spec_fn(real) -> real,
    x: spec_fn(int) -> real,
    m: int,
    m2: int,
    top: int,
)
    requires
        flat(f, x, m, top),
        m <= m2,
    ensures
        flat(f, x, m2, top),
{
    reveal(flat);
}

} // verus!
