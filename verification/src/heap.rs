//! A binary min-heap of indices, and the sort that comes with it.
use vstd::prelude::*;
use vstd::multiset::Multiset;

verus! {

/// The entry at `c` is not smaller than its parent.
pub open spec fn heap_edge(h: Seq<usize>, c: int) -> bool {
    h[(c - 1) / 2] <= h[c]
}

/// Every entry is at least as large as its parent.
pub open spec fn is_heap(h: Seq<usize>) -> bool {
    forall|c: int| 0 < c < h.len() ==> #[trigger] heap_edge(h, c)
}

proof fn lemma_root_is_min(h: Seq<usize>, k: int)
    requires
        is_heap(h),
        0 <= k < h.len(),
    ensures
        h[0] <= h[k],
    decreases k,
{
    if k > 0 {
        assert(heap_edge(h, k));
        lemma_root_is_min(h, (k - 1) / 2);
    }
}

fn swap_entries(h: &mut Vec<usize>, a: usize, b: usize)
    requires
        a < old(h)@.len(),
        b < old(h)@.len(),
    ensures
        final(h)@ == old(h)@.update(a as int, old(h)@[b as int]).update(
            b as int,
            old(h)@[a as int],
        ),
        final(h)@.to_multiset() == old(h)@.to_multiset(),
{
    let ghost h0 = h@;
    let x: usize = h[a];
    let y: usize = h[b];
    h.set(a, y);
    let ghost h1 = h@;
    h.set(b, x);
    proof {
        broadcast use vstd::seq_lib::group_to_multiset_ensures;
        vstd::seq_lib::to_multiset_update(h0, a as int, y);
        vstd::seq_lib::to_multiset_update(h1, b as int, x);
        assert(h0.contains(h0[b as int]));
        assert(h0.contains(h0[a as int]));
        if a == b {
            assert(h@ =~= h0);
        }
        assert(h@.to_multiset() =~= h0.to_multiset());
    }
}

/// Membership follows the multiset of entries.
proof fn lemma_contains(h: Seq<usize>, g: Seq<usize>)
    ensures
        h.to_multiset() == g.to_multiset() ==> forall|x: usize| h.contains(x) <==> g.contains(x),
{
    broadcast use vstd::seq_lib::group_to_multiset_ensures;

    if h.to_multiset() == g.to_multiset() {
        assert forall|x: usize| h.contains(x) <==> g.contains(x) by {
            assert(h.contains(x) <==> h.to_multiset().count(x) > 0);
            assert(g.contains(x) <==> g.to_multiset().count(x) > 0);
        }
    }
}

/// Pushes `x` onto the min-heap `h`.
pub fn heap_push(h: &mut Vec<usize>, x: usize)
    requires
        is_heap(old(h)@),
    ensures
        is_heap(final(h)@),
        final(h)@.to_multiset() == old(h)@.to_multiset().insert(x),
        final(h)@.len() == old(h)@.len() + 1,
        forall|y: usize| #[trigger] final(h)@.contains(y) <==> old(h)@.contains(y) || y == x,
        old(h)@.no_duplicates() && !old(h)@.contains(x) ==> final(h)@.no_duplicates(),
{
    let ghost h0 = h@;
    h.push(x);
    let ghost hp = h@;
    proof {
        broadcast use vstd::seq_lib::group_to_multiset_ensures;
    }
    let mut c: usize = h.len() - 1;
    proof {
        assert forall|d: int| 0 < d < h@.len() && d != c implies #[trigger] heap_edge(h@, d) by {
            assert(heap_edge(h0, d));
        }
    }
    while c > 0
        invariant_except_break
            c < h@.len(),
            h@.len() == hp.len(),
            h@.to_multiset() == hp.to_multiset(),
            forall|d: int| 0 < d < h@.len() && d != c ==> #[trigger] heap_edge(h@, d),
            forall|d: int|
                0 < d < h@.len() && (d - 1) / 2 == c && c > 0 && #[trigger] heap_edge(h@, d)
                    ==> h@[(c - 1) / 2] <= h@[d],
        ensures
            is_heap(h@),
            h@.to_multiset() == hp.to_multiset(),
            h@.len() == hp.len(),
        decreases c,
    {
        let parent: usize = (c - 1) / 2;
        if h[parent] <= h[c] {
            assert(heap_edge(h@, c as int));
            break;
        }
        let ghost g = h@;
        swap_entries(h, parent, c);
        proof {
            assert forall|d: int| 0 < d < h@.len() && d != parent implies #[trigger] heap_edge(h@, d) by {
                if d != c {
                    assert(heap_edge(g, d));
                    if (d - 1) / 2 == c {
                    } else if (d - 1) / 2 == parent {
                    }
                }
            }
            assert forall|d: int|
                0 < d < h@.len() && (d - 1) / 2 == parent && parent > 0 && #[trigger] heap_edge(
                    h@,
                    d,
                ) implies h@[(parent - 1) / 2] <= h@[d] by {
                assert(heap_edge(g, parent as int));
                if d != c {
                    assert(heap_edge(g, d));
                }
            }
        }
        c = parent;
    }
    proof {
        broadcast use vstd::seq_lib::group_to_multiset_ensures;
        assert(h@.to_multiset() == h0.to_multiset().insert(x));
        lemma_contains(h@, hp);
        assert forall|y: usize| #[trigger] h@.contains(y) <==> h0.contains(y) || y == x by {
            assert(hp.contains(y) <==> h0.contains(y) || y == x) by {
                if h0.contains(y) {
                    let k = choose|k: int| 0 <= k < h0.len() && h0[k] == y;
                    assert(hp[k] == y);
                }
                assert(hp[hp.len() - 1] == x);
            }
        }
        if h0.no_duplicates() && !h0.contains(x) {
            assert(hp.no_duplicates());
            hp.lemma_multiset_has_no_duplicates();
            h@.lemma_multiset_has_no_duplicates_conv();
        }
    }
}

/// Pops the smallest entry of the min-heap `h`.
pub fn heap_pop_min(h: &mut Vec<usize>) -> (r: Option<usize>)
    requires
        is_heap(old(h)@),
    ensures
        is_heap(final(h)@),
        r is None <==> old(h)@.len() == 0,
        r is None ==> final(h)@ == old(h)@,
        r matches Some(x) ==> {
            &&& old(h)@.contains(x)
            &&& forall|y: usize| #[trigger] old(h)@.contains(y) ==> x <= y
            &&& final(h)@.to_multiset() == old(h)@.to_multiset().remove(x)
            &&& final(h)@.len() == old(h)@.len() - 1
            &&& forall|y: usize| #[trigger] final(h)@.contains(y) ==> old(h)@.contains(y)
            &&& forall|y: usize| old(h)@.contains(y) && y != x ==> #[trigger] final(h)@.contains(y)
            &&& old(h)@.no_duplicates() ==> final(h)@.no_duplicates() && !final(h)@.contains(x)
        },
{
    let ghost h0 = h@;
    let len: usize = h.len();
    if len == 0 {
        return None;
    }
    swap_entries(h, 0, len - 1);
    let ghost hs = h@;
    let min: usize = h.pop().unwrap();
    let ghost hp = h@;
    let len: usize = h.len();
    let mut c: usize = 0;
    proof {
        assert(hs =~= hp.push(min));
        broadcast use vstd::seq_lib::group_to_multiset_ensures;
        assert(hs.to_multiset() == hp.to_multiset().insert(min));
        assert(hp.to_multiset() =~= hs.to_multiset().remove(min));
        assert forall|d: int| 0 < d < h@.len() && (d - 1) / 2 != c implies #[trigger] heap_edge(h@, d) by {
            assert(heap_edge(h0, d));
        }
    }
    loop
        invariant_except_break
            len == h@.len(),
            len == hp.len(),
            len > 0 ==> c < len,
            len == 0 ==> c == 0,
            h@.to_multiset() == hp.to_multiset(),
            forall|d: int| 0 < d < h@.len() && (d - 1) / 2 != c ==> #[trigger] heap_edge(h@, d),
            forall|d: int|
                0 < d < h@.len() && (d - 1) / 2 == c && c > 0 ==> h@[(c - 1) / 2] <= #[trigger] h@[d],
        ensures
            is_heap(h@),
            h@.to_multiset() == hp.to_multiset(),
            h@.len() == hp.len(),
        decreases len - c,
    {
        if c >= len / 2 {
            break;
        }
        let l: usize = 2 * c + 1;
        let mut m: usize = c;
        if h[l] < h[m] {
            m = l;
        }
        if l + 1 < len && h[l + 1] < h[m] {
            m = l + 1;
        }
        if m == c {
            proof {
                assert forall|d: int| 0 < d < h@.len() implies #[trigger] heap_edge(h@, d) by {
                    if (d - 1) / 2 == c {
                        assert(d == l || d == l + 1);
                    }
                }
            }
            break;
        }
        let ghost g = h@;
        swap_entries(h, c, m);
        proof {
            assert((m - 1) / 2 == c);
            assert forall|d: int| 0 < d < h@.len() && (d - 1) / 2 != m implies #[trigger] heap_edge(h@, d) by {
                if (d - 1) / 2 == c {
                    assert(d == l || d == l + 1);
                } else {
                    assert(heap_edge(g, d));
                }
            }
            assert forall|d: int| 0 < d < h@.len() && (d - 1) / 2 == m && m > 0 implies h@[(m - 1)
                / 2] <= #[trigger] h@[d] by {
                assert(heap_edge(g, d));
            }
        }
        c = m;
    }
    proof {
        broadcast use vstd::seq_lib::group_to_multiset_ensures;
        assert(min == h0[0]);
        assert forall|y: usize| #[trigger] h0.contains(y) implies min <= y by {
            let k = choose|k: int| 0 <= k < h0.len() && h0[k] == y;
            lemma_root_is_min(h0, k);
        }
        lemma_contains(h@, hp);
        assert forall|y: usize| #[trigger] h@.contains(y) implies h0.contains(y) by {
            assert(h0.to_multiset().count(y) >= hp.to_multiset().count(y));
        }
        assert forall|y: usize| h0.contains(y) && y != min implies #[trigger] h@.contains(y) by {
            assert(h@.to_multiset().count(y) == h0.to_multiset().count(y));
        }
        if h0.no_duplicates() {
            h0.lemma_multiset_has_no_duplicates();
            assert(h@.to_multiset() == h0.to_multiset().remove(min));
            assert(h0.to_multiset().contains(min));
            assert(h@.to_multiset().count(min) == 0);
            assert forall|y: usize| h@.to_multiset().contains(y) implies h@.to_multiset().count(y) == 1 by {
                assert(h0.to_multiset().contains(y));
            }
            h@.lemma_multiset_has_no_duplicates_conv();
        }
    }
    Some(min)
}

/// Sorts the entries of `v` in ascending order.
pub fn sort_ascending(v: &mut Vec<usize>)
    ensures
        final(v)@.to_multiset() == old(v)@.to_multiset(),
        final(v)@.len() == old(v)@.len(),
        forall|x: usize| #[trigger] final(v)@.contains(x) <==> old(v)@.contains(x),
        forall|p: int, q: int|
            0 <= p < q < final(v)@.len() ==> #[trigger] final(v)@[p] <= #[trigger] final(v)@[q],
        old(v)@.no_duplicates() ==> forall|p: int, q: int|
            0 <= p < q < final(v)@.len() ==> #[trigger] final(v)@[p] < #[trigger] final(v)@[q],
{
    let ghost v0 = v@;
    let mut heap: Vec<usize> = Vec::with_capacity(v.len());
    let mut k: usize = 0;
    proof {
        broadcast use vstd::seq_lib::group_to_multiset_ensures;
        assert(heap@.to_multiset() =~= Multiset::empty());
        assert(v0.take(0).to_multiset() =~= Multiset::empty());
    }
    while k < v.len()
        invariant
            k <= v@.len(),
            v@ == v0,
            is_heap(heap@),
            heap@.len() == k,
            heap@.to_multiset() == v0.take(k as int).to_multiset(),
        decreases v.len() - k,
    {
        proof {
            broadcast use vstd::seq_lib::group_to_multiset_ensures;
            assert(v0.take(k + 1) =~= v0.take(k as int).push(v0[k as int]));
        }
        heap_push(&mut heap, v[k]);
        k += 1;
    }
    proof {
        assert(v0.take(k as int) =~= v0);
    }
    v.clear();
    proof {
        broadcast use vstd::seq_lib::group_to_multiset_ensures;
        assert(v@.to_multiset() =~= Multiset::empty());
        assert(v@.to_multiset().add(heap@.to_multiset()) =~= v0.to_multiset());
    }
    while heap.len() > 0
        invariant
            is_heap(heap@),
            v@.len() + heap@.len() == v0.len(),
            v@.to_multiset().add(heap@.to_multiset()) == v0.to_multiset(),
            forall|p: int, q: int|
                0 <= p < q < v@.len() ==> #[trigger] v@[p] <= #[trigger] v@[q],
            forall|p: int, x: usize|
                0 <= p < v@.len() && #[trigger] heap@.contains(x) ==> #[trigger] v@[p] <= x,
        decreases heap.len(),
    {
        let ghost g = heap@;
        let ghost w = v@;
        let x: usize = heap_pop_min(&mut heap).unwrap();
        v.push(x);
        proof {
            broadcast use vstd::seq_lib::group_to_multiset_ensures;
            assert(g.contains(x));
            assert(g.to_multiset().count(x) > 0);
            assert(v@.to_multiset().add(heap@.to_multiset()) =~= w.to_multiset().add(
                g.to_multiset(),
            ));
            assert forall|p: int, q: int| 0 <= p < q < v@.len() implies #[trigger] v@[p]
                <= #[trigger] v@[q] by {
                if q == w.len() {
                    assert(w[p] <= x);
                }
            }
            assert forall|p: int, y: usize| 0 <= p < v@.len() && #[trigger] heap@.contains(y) implies #[trigger] v@[p] <= y by {
                assert(g.contains(y));
                if p < w.len() {
                    assert(w[p] <= y);
                }
            }
        }
    }
    proof {
        broadcast use vstd::seq_lib::group_to_multiset_ensures;
        assert(heap@.to_multiset() =~= Multiset::empty());
        assert(v@.to_multiset() =~= v0.to_multiset());
        lemma_contains(v@, v0);
        if v0.no_duplicates() {
            v0.lemma_multiset_has_no_duplicates();
            v@.lemma_multiset_has_no_duplicates_conv();
        }
    }
}

} // verus!
