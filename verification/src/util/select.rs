//! Keeping the entries of largest magnitude.
use vstd::multiset::Multiset;
use vstd::prelude::*;

use crate::reading::reads_reals;
use crate::scalar::RealScalar;

verus! {

/// `kept` and `dropped` make up `all`, and nothing dropped exceeds anything
/// kept.
pub open spec fn top_split<R: RealScalar>(
    all: Seq<(R, usize)>,
    kept: Seq<(R, usize)>,
    dropped: Seq<(R, usize)>,
) -> bool {
    &&& kept.to_multiset().add(dropped.to_multiset()) == all.to_multiset()
    &&& forall|a: int, b: int|
        0 <= a < kept.len() && 0 <= b < dropped.len() ==> !(#[trigger] kept[a]).0.below(
            (#[trigger] dropped[b]).0,
        )
}

/// The position of the largest of the first `t` entries, the first of them where
/// several are largest: a later entry is taken only where it exceeds the one
/// taken before.
pub open spec fn first_largest<R: RealScalar>(sel: Seq<(R, usize)>, t: int) -> int
    decreases t,
{
    if t <= 1 {
        0
    } else {
        let b = first_largest(sel, t - 1);
        if sel[b].0.below(sel[t - 1].0) {
            t - 1
        } else {
            b
        }
    }
}

/// The `p` largest entries, largest first; of equal ones the first comes first.
pub open spec fn top<R: RealScalar>(sel: Seq<(R, usize)>, p: nat) -> Seq<(R, usize)>
    decreases p,
{
    if p == 0 || sel.len() == 0 {
        Seq::empty()
    } else {
        let b = first_largest(sel, sel.len() as int);
        seq![sel[b]] + top(sel.remove(b), (p - 1) as nat)
    }
}

pub proof fn lemma_first_largest<R: RealScalar>(sel: Seq<(R, usize)>, t: int)
    requires
        1 <= t <= sel.len(),
    ensures
        0 <= first_largest(sel, t) < t,
    decreases t,
{
    if t > 1 {
        lemma_first_largest(sel, t - 1);
    }
}

/// What is kept was there.
pub proof fn lemma_top_from<R: RealScalar>(sel: Seq<(R, usize)>, p: nat, t: int)
    requires
        0 <= t < top(sel, p).len(),
    ensures
        sel.contains(top(sel, p)[t]),
    decreases p,
{
    if p > 0 && sel.len() > 0 {
        let n = sel.len() as int;
        lemma_first_largest(sel, n);
        let b = first_largest(sel, n);
        let rest = sel.remove(b);
        if t > 0 {
            lemma_top_from(rest, (p - 1) as nat, t - 1);
            let k = choose|k: int| 0 <= k < rest.len() && rest[k] == top(sel, p)[t];
            let k0 = if k < b {
                k
            } else {
                k + 1
            };
            assert(sel[k0] == top(sel, p)[t]);
        } else {
            assert(sel[b] == top(sel, p)[t]);
        }
    }
}

/// The choice goes by magnitude alone: renaming the entries renames those kept.
pub proof fn lemma_top_renamed<R: RealScalar>(
    a: Seq<(R, usize)>,
    b: Seq<(R, usize)>,
    name: spec_fn(usize) -> usize,
    p: nat,
)
    requires
        a.len() == b.len(),
        forall|k: int| 0 <= k < a.len() ==> #[trigger] b[k] == (a[k].0, name(a[k].1)),
    ensures
        top(a, p).len() == top(b, p).len(),
        forall|k: int|
            0 <= k < top(a, p).len() ==> #[trigger] top(b, p)[k] == (
                top(a, p)[k].0,
                name(top(a, p)[k].1),
            ),
    decreases p,
{
    if p > 0 && a.len() > 0 {
        let n = a.len() as int;
        lemma_largest_renamed(a, b, name, n);
        lemma_first_largest(a, n);
        let c = first_largest(a, n);
        let a1 = a.remove(c);
        let b1 = b.remove(c);
        assert forall|k: int| 0 <= k < a1.len() implies #[trigger] b1[k] == (
            a1[k].0,
            name(a1[k].1),
        ) by {
            let k0 = if k < c {
                k
            } else {
                k + 1
            };
            assert(b[k0] == (a[k0].0, name(a[k0].1)));
        }
        lemma_top_renamed(a1, b1, name, (p - 1) as nat);
        assert forall|k: int| 0 <= k < top(a, p).len() implies #[trigger] top(b, p)[k] == (
            top(a, p)[k].0,
            name(top(a, p)[k].1),
        ) by {
            if k > 0 {
                assert(top(b1, (p - 1) as nat)[k - 1] == (
                    top(a1, (p - 1) as nat)[k - 1].0,
                    name(top(a1, (p - 1) as nat)[k - 1].1),
                ));
            } else {
                assert(b[c] == (a[c].0, name(a[c].1)));
            }
        }
    }
}

proof fn lemma_largest_renamed<R: RealScalar>(
    a: Seq<(R, usize)>,
    b: Seq<(R, usize)>,
    name: spec_fn(usize) -> usize,
    t: int,
)
    requires
        t <= a.len(),
        a.len() == b.len(),
        forall|k: int| 0 <= k < a.len() ==> #[trigger] b[k] == (a[k].0, name(a[k].1)),
    ensures
        first_largest(a, t) == first_largest(b, t),
    decreases t,
{
    if t > 1 {
        lemma_largest_renamed(a, b, name, t - 1);
        lemma_first_largest(a, t - 1);
        let c = first_largest(a, t - 1);
        assert(b[c] == (a[c].0, name(a[c].1)));
        assert(b[t - 1] == (a[t - 1].0, name(a[t - 1].1)));
    }
}

/// The position of the first of the largest entries of `sel`.
fn find_largest<R: RealScalar>(sel: &Vec<(R, usize)>) -> (r: usize)
    requires
        sel@.len() > 0,
    ensures
        r < sel@.len(),
        r == first_largest(sel@, sel@.len() as int),
        forall|b: int| 0 <= b < sel@.len() ==> !sel@[r as int].0.below((#[trigger] sel@[b]).0),
{
    let mut best: usize = 0;
    let mut t: usize = 1;
    proof {
        R::below_irreflexive(sel@[0].0);
    }
    while t < sel.len()
        invariant
            1 <= t <= sel@.len(),
            best < t,
            best == first_largest(sel@, t as int),
            forall|b: int| 0 <= b < t ==> !sel@[best as int].0.below((#[trigger] sel@[b]).0),
        decreases sel.len() - t,
    {
        if sel[best].0.lt(&sel[t].0) {
            proof {
                assert forall|b: int| 0 <= b < t + 1 implies !sel@[t as int].0.below(
                    (#[trigger] sel@[b]).0,
                ) by {
                    R::below_irreflexive(sel@[t as int].0);
                    if sel@[t as int].0.below(sel@[b].0) {
                        R::below_transitive(sel@[best as int].0, sel@[t as int].0, sel@[b].0);
                    }
                }
            }
            best = t;
        }
        t += 1;
    }
    best
}

/// Keeps the `p` entries of largest magnitude of `sel` (all of them, if there
/// are fewer), then sorts them by position, ascending. Among equal entries those
/// that come first are kept.
pub fn select_topk<R: RealScalar>(sel: &mut Vec<(R, usize)>, p: usize)
    ensures
        final(sel)@.len() == if old(sel)@.len() > p {
            p as nat
        } else {
            old(sel)@.len()
        },
        exists|dropped: Seq<(R, usize)>| #[trigger] top_split(old(sel)@, final(sel)@, dropped),
        forall|e: (R, usize)| #[trigger]
            final(sel)@.contains(e) <==> top(old(sel)@, p as nat).contains(e),
        forall|a: int, b: int|
            0 <= a < b < final(sel)@.len() ==> (#[trigger] final(sel)@[a]).1 <= (
            #[trigger] final(sel)@[b]).1,
{
    let ghost all = sel@;
    let mut kept: Vec<(R, usize)> = Vec::new();
    proof {
        broadcast use vstd::seq_lib::group_to_multiset_ensures;
        assert(kept@.to_multiset() =~= Multiset::empty());
        assert(kept@.to_multiset().add(sel@.to_multiset()) =~= all.to_multiset());
    }
    while kept.len() < p && sel.len() > 0
        invariant
            kept@.len() + sel@.len() == all.len(),
            kept@.len() <= p,
            top_split(all, kept@, sel@),
            top(all, p as nat) == kept@ + top(sel@, (p - kept@.len()) as nat),
        decreases sel.len(),
    {
        let b: usize = find_largest(sel);
        let ghost sel0 = sel@;
        let ghost kept0 = kept@;
        let e: (R, usize) = sel.remove(b);
        kept.push(e);
        proof {
            broadcast use vstd::seq_lib::group_to_multiset_ensures;
            assert(sel0.contains(sel0[b as int]));
            assert(sel@.to_multiset() == sel0.to_multiset().remove(e));
            assert(kept@.to_multiset() == kept0.to_multiset().insert(e));
            assert(kept@.to_multiset().add(sel@.to_multiset()) =~= kept0.to_multiset().add(
                sel0.to_multiset(),
            ));
            assert forall|x: int, y: int|
                0 <= x < kept@.len() && 0 <= y < sel@.len() implies !(#[trigger] kept@[x]).0.below(
                (#[trigger] sel@[y]).0,
            ) by {
                let y0 = if y < b {
                    y
                } else {
                    y + 1
                };
                assert(sel@[y] == sel0[y0]);
                if x < kept0.len() {
                    assert(kept@[x] == kept0[x]);
                }
            }
            let rest = (p - kept0.len()) as nat;
            assert(top(sel0, rest) == seq![e] + top(sel@, (rest - 1) as nat));
            assert(top(all, p as nat) =~= kept@ + top(sel@, (p - kept@.len()) as nat));
        }
    }
    assert(top(all, p as nat) =~= kept@);
    let ghost dropped = sel@;
    let ghost largest = kept@;
    let mut sorted: Vec<(R, usize)> = Vec::new();
    proof {
        broadcast use vstd::seq_lib::group_to_multiset_ensures;
        assert(sorted@.to_multiset() =~= Multiset::empty());
        assert(sorted@.to_multiset().add(kept@.to_multiset()) =~= largest.to_multiset());
    }
    while kept.len() > 0
        invariant
            sorted@.len() + kept@.len() == largest.len(),
            sorted@.to_multiset().add(kept@.to_multiset()) == largest.to_multiset(),
            forall|a: int, b: int|
                0 <= a < b < sorted@.len() ==> (#[trigger] sorted@[a]).1 <= (
                #[trigger] sorted@[b]).1,
            forall|a: int, b: int|
                0 <= a < sorted@.len() && 0 <= b < kept@.len() ==> (#[trigger] sorted@[a]).1 <= (
                #[trigger] kept@[b]).1,
        decreases kept.len(),
    {
        let mut m: usize = 0;
        let mut t: usize = 1;
        while t < kept.len()
            invariant
                1 <= t <= kept@.len(),
                m < t,
                forall|b: int| 0 <= b < t ==> kept@[m as int].1 <= (#[trigger] kept@[b]).1,
            decreases kept.len() - t,
        {
            if kept[t].1 < kept[m].1 {
                m = t;
            }
            t += 1;
        }
        let ghost kept0 = kept@;
        let ghost sorted0 = sorted@;
        let e: (R, usize) = kept.remove(m);
        sorted.push(e);
        proof {
            broadcast use vstd::seq_lib::group_to_multiset_ensures;
            assert(kept0.contains(kept0[m as int]));
            assert(kept@.to_multiset() == kept0.to_multiset().remove(e));
            assert(sorted@.to_multiset().add(kept@.to_multiset()) =~= sorted0.to_multiset().add(
                kept0.to_multiset(),
            ));
            assert forall|a: int, b: int|
                0 <= a < sorted@.len() && 0 <= b < kept@.len() implies (#[trigger] sorted@[a]).1
                <= (#[trigger] kept@[b]).1 by {
                let b0 = if b < m {
                    b
                } else {
                    b + 1
                };
                assert(kept@[b] == kept0[b0]);
                if a < sorted0.len() {
                    assert(sorted@[a] == sorted0[a]);
                }
            }
            assert forall|a: int, b: int|
                0 <= a < b < sorted@.len() implies (#[trigger] sorted@[a]).1 <= (
            #[trigger] sorted@[b]).1 by {
                assert(sorted@[a] == sorted0[a]);
                if b < sorted0.len() {
                    assert(sorted@[b] == sorted0[b]);
                } else {
                    assert(sorted@[b] == kept0[m as int]);
                }
            }
        }
    }
    proof {
        broadcast use vstd::seq_lib::group_to_multiset_ensures;
        assert(kept@.to_multiset() =~= Multiset::empty());
        assert(sorted@.to_multiset().add(kept@.to_multiset()) =~= sorted@.to_multiset());
        assert forall|a: int, b: int|
            0 <= a < sorted@.len() && 0 <= b < dropped.len() implies !(#[trigger] sorted@[a]).0.below(
            (#[trigger] dropped[b]).0,
        ) by {
            assert(sorted@.contains(sorted@[a]));
            assert(sorted@.to_multiset().count(sorted@[a]) > 0);
            assert(largest.contains(sorted@[a]));
            let x = choose|x: int| 0 <= x < largest.len() && largest[x] == sorted@[a];
            assert(!largest[x].0.below(dropped[b].0));
        }
        assert(top_split(all, sorted@, dropped));
        assert forall|e: (R, usize)| #[trigger] sorted@.contains(e) <==> largest.contains(e) by {
            assert(sorted@.contains(e) <==> sorted@.to_multiset().count(e) > 0);
            assert(largest.contains(e) <==> largest.to_multiset().count(e) > 0);
        }
    }
    *sel = sorted;
}

/// An entry of `all` was either kept or dropped.
pub proof fn lemma_top_member<R: RealScalar>(
    all: Seq<(R, usize)>,
    kept: Seq<(R, usize)>,
    dropped: Seq<(R, usize)>,
    e: (R, usize),
)
    requires
        top_split(all, kept, dropped),
    ensures
        all.contains(e) <==> kept.contains(e) || dropped.contains(e),
        all.len() == kept.len() + dropped.len(),
{
    broadcast use vstd::seq_lib::group_to_multiset_ensures;

    let k = kept.to_multiset();
    let d = dropped.to_multiset();
    assert(k.add(d).count(e) == k.count(e) + d.count(e));
    assert(all.to_multiset().count(e) == k.count(e) + d.count(e));
    assert(all.contains(e) <==> all.to_multiset().count(e) > 0);
    assert(kept.contains(e) <==> k.count(e) > 0);
    assert(dropped.contains(e) <==> d.count(e) > 0);
    assert(k.add(d).len() == k.len() + d.len());
}

/// If no entry of `all` repeats, none was kept twice, or both kept and dropped.
pub proof fn lemma_top_distinct<R: RealScalar>(
    all: Seq<(R, usize)>,
    kept: Seq<(R, usize)>,
    dropped: Seq<(R, usize)>,
)
    requires
        top_split(all, kept, dropped),
        all.no_duplicates(),
    ensures
        kept.no_duplicates(),
        forall|e: (R, usize)| #[trigger] kept.contains(e) ==> !dropped.contains(e),
{
    broadcast use vstd::seq_lib::group_to_multiset_ensures;

    let k = kept.to_multiset();
    let d = dropped.to_multiset();
    all.lemma_multiset_has_no_duplicates();
    assert forall|e: (R, usize)| k.count(e) + #[trigger] d.count(e) <= 1 by {
        assert(k.add(d).count(e) == k.count(e) + d.count(e));
        if all.to_multiset().contains(e) {
            assert(all.to_multiset().count(e) == 1);
        }
    }
    assert forall|e: (R, usize)| #[trigger] k.contains(e) implies k.count(e) == 1 by {
        assert(k.count(e) + d.count(e) <= 1);
    }
    kept.lemma_multiset_has_no_duplicates_conv();
    assert forall|e: (R, usize)| #[trigger] kept.contains(e) implies !dropped.contains(e) by {
        assert(k.count(e) + d.count(e) <= 1);
        assert(kept.contains(e) <==> k.count(e) > 0);
        assert(dropped.contains(e) <==> d.count(e) > 0);
    }
}

/// Everything before the first largest entry is smaller than it, and nothing is
/// larger.
proof fn lemma_before_largest<R: RealScalar>(
    v: spec_fn(R) -> real,
    sel: Seq<(R, usize)>,
    t: int,
    k: int,
)
    requires
        reads_reals(v),
        0 <= k < t <= sel.len(),
    ensures
        0 <= first_largest(sel, t) < t,
        v(sel[k].0) <= v(sel[first_largest(sel, t)].0),
        k < first_largest(sel, t) ==> v(sel[k].0) < v(sel[first_largest(sel, t)].0),
    decreases t,
{
    lemma_first_largest(sel, t);
    reveal(reads_reals);
    if t > 1 {
        if k < t - 1 {
            lemma_before_largest(v, sel, t - 1, k);
        } else {
            lemma_first_largest(sel, t - 1);
        }
    }
}

/// An entry that is kept stands somewhere where everything before it that is not
/// kept is smaller: of equal entries, those that come first are kept.
pub proof fn lemma_top_prefers_first<R: RealScalar>(
    v: spec_fn(R) -> real,
    sel: Seq<(R, usize)>,
    p: nat,
    name: usize,
) -> (i: int)
    requires
        reads_reals(v),
        exists|t: int| 0 <= t < top(sel, p).len() && (#[trigger] top(sel, p)[t]).1 == name,
    ensures
        0 <= i < sel.len(),
        sel[i].1 == name,
        forall|j: int|
            0 <= j < i && (forall|t: int|
                0 <= t < top(sel, p).len() ==> (#[trigger] top(sel, p)[t]).1 != sel[j].1) ==> v(
                (#[trigger] sel[j]).0,
            ) < v(sel[i].0),
    decreases p,
{
    let n = sel.len() as int;
    let all = top(sel, p);
    lemma_first_largest(sel, n);
    let b = first_largest(sel, n);
    let rest = sel.remove(b);
    let tail = top(rest, (p - 1) as nat);
    assert(all[0] == sel[b]);
    assert forall|t: int| 0 <= t < tail.len() implies #[trigger] tail[t] == all[t + 1] by {}
    if sel[b].1 == name {
        assert forall|j: int| 0 <= j < b implies v((#[trigger] sel[j]).0) < v(sel[b].0) by {
            lemma_before_largest(v, sel, n, j);
        }
        b
    } else {
        let t0 = choose|t: int| 0 <= t < all.len() && (#[trigger] all[t]).1 == name;
        assert(tail[t0 - 1].1 == name);
        let i1 = lemma_top_prefers_first(v, rest, (p - 1) as nat, name);
        let i = if i1 < b {
            i1
        } else {
            i1 + 1
        };
        assert(sel[i] == rest[i1]);
        assert forall|j: int|
            0 <= j < i && (forall|t: int|
                0 <= t < all.len() ==> (#[trigger] all[t]).1 != sel[j].1) implies v(
            (#[trigger] sel[j]).0,
        ) < v(sel[i].0) by {
            assert(j != b);
            let j1 = if j < b {
                j
            } else {
                j - 1
            };
            assert(rest[j1] == sel[j]);
            assert forall|t: int| 0 <= t < tail.len() implies (#[trigger] tail[t]).1
                != rest[j1].1 by {
                assert(tail[t] == all[t + 1]);
            }
        }
        i
    }
}

} // verus!
