//! What scaling the entries does to comparisons and choices.
use crate::ilutp::numeric::ranked;
use crate::poly::differences::{lemma_associates, lemma_commutes};
use crate::reading::{reads_magnitudes, reads_reals};
use crate::scalar::{
    exact_field, lemma_reciprocal_inverts, lemma_times_associates, lemma_times_commutes,
    lemma_unit_is_neutral, vanishes, RealScalar, Scalar,
};
use crate::util::select::{first_largest, lemma_first_largest, top};
use vstd::prelude::*;

verus! {

/// `y` is there where `x` is, and then is `x` times `s`.
pub open spec fn grown<T: Scalar>(s: T, x: Option<T>, y: Option<T>) -> bool {
    match x {
        Some(z) => y == Some(s.times(z)),
        None => y is None,
    }
}

/// `y` stores what `x` stores, times `e`.
pub open spec fn grown_column<T: Scalar>(e: T, x: Map<int, T>, y: Map<int, T>) -> bool {
    &&& x.dom() == y.dom()
    &&& forall|i: int| #[trigger] x.dom().contains(i) ==> y[i] == e.times(x[i])
}

/// `(e x) (e y) = e^2 (x y)`.
pub proof fn lemma_square_out<T: Scalar>(e: T, x: T, y: T)
    requires
        exact_field::<T>(),
    ensures
        e.times(x).times(e.times(y)) == e.times(e).times(x.times(y)),
{
    lemma_times_associates(e, x, e.times(y));
    lemma_times_associates(x, e, y);
    lemma_times_commutes(x, e);
    lemma_times_associates(e, x, y);
    lemma_times_associates(e, e, x.times(y));
}

/// `b` ranks what `a` ranks, by magnitudes `c` times as large.
pub open spec fn ranks_alike<R: RealScalar>(
    v: spec_fn(R) -> real,
    c: real,
    a: Seq<(R, usize)>,
    b: Seq<(R, usize)>,
) -> bool {
    &&& a.len() == b.len()
    &&& forall|k: int|
        0 <= k < a.len() ==> (#[trigger] b[k]).1 == a[k].1 && v(b[k].0) == c * v(a[k].0)
}

pub proof fn lemma_compares(c: real, x: real, y: real)
    by (nonlinear_arith)
    requires
        0real < c,
    ensures
        x < y <==> c * x < c * y,
{
}

pub proof fn lemma_largest_alike<R: RealScalar>(
    v: spec_fn(R) -> real,
    c: real,
    a: Seq<(R, usize)>,
    b: Seq<(R, usize)>,
    t: int,
)
    requires
        reads_reals(v),
        0real < c,
        ranks_alike(v, c, a, b),
        t <= a.len(),
    ensures
        first_largest(a, t) == first_largest(b, t),
    decreases t,
{
    if t > 1 {
        lemma_largest_alike(v, c, a, b, t - 1);
        lemma_first_largest(a, t - 1);
        let x = first_largest(a, t - 1);
        assert(v(b[x].0) == c * v(a[x].0));
        assert(v(b[t - 1].0) == c * v(a[t - 1].0));
        lemma_compares(c, v(a[x].0), v(a[t - 1].0));
        reveal(reads_reals);
    }
}

/// The same entries are kept.
pub proof fn lemma_top_alike<R: RealScalar>(
    v: spec_fn(R) -> real,
    c: real,
    a: Seq<(R, usize)>,
    b: Seq<(R, usize)>,
    p: nat,
)
    requires
        reads_reals(v),
        0real < c,
        ranks_alike(v, c, a, b),
    ensures
        ranks_alike(v, c, top(a, p), top(b, p)),
    decreases p,
{
    if p > 0 && a.len() > 0 {
        let n = a.len() as int;
        lemma_largest_alike(v, c, a, b, n);
        lemma_first_largest(a, n);
        let x = first_largest(a, n);
        let a1 = a.remove(x);
        let b1 = b.remove(x);
        assert forall|k: int| 0 <= k < a1.len() implies (#[trigger] b1[k]).1 == a1[k].1 && v(b1[k].0)
            == c * v(a1[k].0) by {
            let k0 = if k < x {
                k
            } else {
                k + 1
            };
            assert(b[k0].1 == a[k0].1 && v(b[k0].0) == c * v(a[k0].0));
        }
        lemma_top_alike(v, c, a1, b1, (p - 1) as nat);
        let rest = top(a1, (p - 1) as nat);
        let rest2 = top(b1, (p - 1) as nat);
        assert(b[x].1 == a[x].1 && v(b[x].0) == c * v(a[x].0));
        assert forall|k: int| 0 <= k < top(a, p).len() implies (#[trigger] top(b, p)[k]).1 == top(
            a,
            p,
        )[k].1 && v(top(b, p)[k].0) == c * v(top(a, p)[k].0) by {
            if k > 0 {
                assert(rest2[k - 1].1 == rest[k - 1].1);
            }
        }
    }
}

/// Scaled candidates are ranked alike.
pub proof fn lemma_ranked_alike<T: Scalar>(
    v: spec_fn(T::Real) -> real,
    s: T,
    c1: spec_fn(int) -> Option<T>,
    c2: spec_fn(int) -> Option<T>,
    order: Seq<usize>,
)
    requires
        reads_magnitudes::<T>(v),
        forall|k: int| 0 <= k < order.len() ==> grown(
            s,
            c1((#[trigger] order[k]) as int),
            c2(order[k] as int),
        ),
    ensures
        ranks_alike(v, v(s.magnitude()), ranked(c1, order), ranked(c2, order)),
    decreases order.len(),
{
    if order.len() > 0 {
        let o1 = order.drop_last();
        assert forall|k: int| 0 <= k < o1.len() implies grown(
            s,
            c1((#[trigger] o1[k]) as int),
            c2(o1[k] as int),
        ) by {
            assert(o1[k] == order[k]);
        }
        lemma_ranked_alike(v, s, c1, c2, o1);
        let last = order[order.len() - 1];
        assert(grown(s, c1(last as int), c2(last as int)));
        reveal(reads_magnitudes);
    }
}

pub proof fn lemma_square_scaled(c: real, m: real)
    ensures
        (c * m) * (c * m) == (m * m) * (c * c),
{
    lemma_associates(c, m, c * m);
    lemma_associates(m, c, m);
    lemma_commutes(m, c);
    lemma_associates(c, m, m);
    lemma_associates(c, c, m * m);
    lemma_commutes(c * c, m * m);
}

/// An entry divided by the diagonal, both scaled.
pub proof fn lemma_grown_quotient<T: Scalar>(e: T, x: T, p: T)
    requires
        exact_field::<T>(),
        !vanishes(p),
        !vanishes(e.times(p)),
    ensures
        e.times(e).times(x).times(e.times(p).reciprocal()) == e.times(x.times(p.reciprocal())),
{
    let y = x.times(p.reciprocal());
    let q = e.times(p);
    lemma_times_associates(x, p.reciprocal(), p);
    lemma_reciprocal_inverts(p);
    lemma_unit_is_neutral(x);
    assert(y.times(p) == x);
    lemma_square_out(e, y, p);
    assert(e.times(y).times(q) == e.times(e).times(x));
    lemma_times_associates(e.times(y), q, q.reciprocal());
    lemma_times_commutes(q, q.reciprocal());
    lemma_reciprocal_inverts(q);
    lemma_unit_is_neutral(e.times(y));
}

} // verus!
