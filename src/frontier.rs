use vstd::prelude::*;

verus! {

broadcast use vstd::seq_lib::group_to_multiset_ensures;

pub open spec fn parent(i: int) -> int {
    (i - 1) / 2
}

/// Each entry ranks no lower than the entry above it in the binary tree laid out in `h`.
pub closed spec fn is_heap(h: Seq<(u128, usize)>) -> bool {
    forall|i: int| 0 < i < h.len() ==> h[parent(i)].0 <= #[trigger] h[i].0
}

/// The heap order holds on every edge of the tree except the one above `pos`, and the entry
/// above `pos` ranks no higher than the entries below `pos`.
spec fn heap_but_above(h: Seq<(u128, usize)>, pos: int) -> bool {
    &&& forall|i: int| 0 < i < h.len() && i != pos ==> h[parent(i)].0 <= #[trigger] h[i].0
    &&& pos > 0 ==> forall|c: int|
        0 < c < h.len() && parent(c) == pos ==> h[parent(pos)].0 <= #[trigger] h[c].0
}

/// The heap order holds on every edge of the tree except those below `pos`, and the entry
/// above `pos` ranks no higher than the entries below `pos`.
spec fn heap_but_below(h: Seq<(u128, usize)>, pos: int) -> bool {
    &&& forall|i: int| 0 < i < h.len() && parent(i) != pos ==> h[parent(i)].0 <= #[trigger] h[i].0
    &&& pos > 0 ==> forall|c: int|
        0 < c < h.len() && parent(c) == pos ==> h[parent(pos)].0 <= #[trigger] h[c].0
}

spec fn swapped(h: Seq<(u128, usize)>, a: int, b: int) -> Seq<(u128, usize)> {
    h.update(a, h[b]).update(b, h[a])
}

proof fn lemma_swap_multiset(h: Seq<(u128, usize)>, a: int, b: int)
    requires
        0 <= a < h.len(),
        0 <= b < h.len(),
    ensures
        swapped(h, a, b).to_multiset() == h.to_multiset(),
{
    broadcast use vstd::seq_lib::to_multiset_update;
    broadcast use vstd::multiset::group_multiset_axioms;

    let h1 = h.update(a, h[b]);
    assert(h1.to_multiset() == h.to_multiset().insert(h[b]).remove(h[a]));
    assert(h1[b] == h[b]);
    assert(swapped(h, a, b).to_multiset() == h1.to_multiset().insert(h[a]).remove(h1[b]));
    assert(swapped(h, a, b).to_multiset() =~= h.to_multiset());
}

/// No entries make a heap.
pub proof fn lemma_empty_heap()
    ensures
        is_heap(Seq::<(u128, usize)>::empty()),
{
}

/// The top of a heap ranks no higher than any entry.
proof fn lemma_top_is_least(h: Seq<(u128, usize)>, i: int)
    requires
        is_heap(h),
        0 <= i < h.len(),
    ensures
        h[0].0 <= h[i].0,
    decreases i,
{
    if i > 0 {
        lemma_top_is_least(h, parent(i));
    }
}

/// What a multiset holds after one entry is added or taken out.
proof fn lemma_contains_after(
    a: Seq<(u128, usize)>,
    b: Seq<(u128, usize)>,
    x: (u128, usize),
    added: bool,
)
    requires
        added ==> b.to_multiset() == a.to_multiset().insert(x),
        !added ==> b.to_multiset() == a.to_multiset().remove(x) && a.contains(x),
    ensures
        added ==> forall|e: (u128, usize)| #[trigger] b.contains(e) <==> (a.contains(e) || e == x),
        !added ==> forall|e: (u128, usize)| #[trigger] b.contains(e) ==> a.contains(e),
        !added ==> forall|e: (u128, usize)| a.contains(e) && e != x ==> #[trigger] b.contains(e),
{
    broadcast use vstd::multiset::group_multiset_axioms;

    a.to_multiset_ensures();
    b.to_multiset_ensures();
    if added {
        assert forall|e: (u128, usize)| #[trigger] b.contains(e) <==> (a.contains(e) || e == x) by {
            assert(b.to_multiset().count(e) == a.to_multiset().count(e) + if e == x {
                1int
            } else {
                0
            });
            assert(b.contains(e) <==> b.to_multiset().count(e) > 0);
            assert(a.contains(e) <==> a.to_multiset().count(e) > 0);
        }
    } else {
        assert forall|e: (u128, usize)| #[trigger] b.contains(e) implies a.contains(e) by {
            assert(b.to_multiset().count(e) > 0);
            assert(a.to_multiset().count(e) > 0);
        }
        assert forall|e: (u128, usize)| a.contains(e) && e != x implies #[trigger] b.contains(e) by {
            assert(a.to_multiset().count(e) > 0);
            assert(b.to_multiset().count(e) == a.to_multiset().count(e));
        }
    }
}

/// Adds `x` to the heap `h`.
pub fn heap_push(h: &mut Vec<(u128, usize)>, x: (u128, usize))
    requires
        is_heap(old(h)@),
    ensures
        is_heap(final(h)@),
        final(h)@.len() == old(h)@.len() + 1,
        forall|e: (u128, usize)| #[trigger] final(h)@.contains(e) <==> (old(h)@.contains(e) || e == x),
{
    let ghost start = h@;
    h.push(x);
    proof {
        assert(h@.to_multiset() == start.to_multiset().insert(x));
    }
    let mut pos: usize = h.len() - 1;
    while pos > 0 && h[(pos - 1) / 2].0 > h[pos].0
        invariant
            pos < h@.len(),
            h@.len() == start.len() + 1,
            heap_but_above(h@, pos as int),
            h@.to_multiset() == start.to_multiset().insert(x),
        decreases pos,
    {
        let p = (pos - 1) / 2;
        let ghost before = h@;
        let a = h[p];
        let b = h[pos];
        h.set(p, b);
        h.set(pos, a);
        proof {
            assert(h@ == swapped(before, p as int, pos as int));
            lemma_swap_multiset(before, p as int, pos as int);
        }
        pos = p;
    }
    proof {
        lemma_contains_after(start, h@, x, true);
    }
}

/// Takes out an entry of least rank from the heap `h`.
pub fn pop_min(h: &mut Vec<(u128, usize)>) -> (r: (u128, usize))
    requires
        old(h)@.len() > 0,
        is_heap(old(h)@),
    ensures
        is_heap(final(h)@),
        old(h)@.contains(r),
        final(h)@.len() == old(h)@.len() - 1,
        forall|e: (u128, usize)| final(h)@.contains(e) ==> old(h)@.contains(e),
        forall|e: (u128, usize)| old(h)@.contains(e) && e != r ==> final(h)@.contains(e),
        forall|e: (u128, usize)| old(h)@.contains(e) ==> r.0 <= e.0,
{
    let ghost start = h@;
    let n = h.len();
    let r = h[0];
    proof {
        assert(start.contains(r)) by {
            assert(start[0] == r);
        }
        assert forall|e: (u128, usize)| start.contains(e) implies r.0 <= e.0 by {
            let k = choose|k: int| 0 <= k < start.len() && start[k] == e;
            lemma_top_is_least(start, k);
        }
    }
    let last = h[n - 1];
    h.set(0, last);
    proof {
        lemma_swap_multiset(start, 0, n - 1);
        assert(h@ == start.update(0, start[n - 1]));
    }
    let ghost moved = h@;
    h.pop();
    proof {
        assert(moved =~= h@.push(last));
        broadcast use vstd::seq_lib::to_multiset_update;
        broadcast use vstd::multiset::group_multiset_axioms;

        assert(moved.to_multiset() == start.to_multiset().insert(last).remove(r));
        assert(moved.to_multiset() == h@.to_multiset().insert(last));
        assert(h@.to_multiset() =~= start.to_multiset().remove(r));
        assert(heap_but_below(h@, 0)) by {
            assert forall|i: int| 0 < i < h@.len() && parent(i) != 0 implies h@[parent(i)].0
                <= #[trigger] h@[i].0 by {
                assert(h@[i] == start[i]);
                assert(h@[parent(i)] == start[parent(i)]);
            }
        }
    }
    let len = h.len();
    let mut pos: usize = 0;
    loop
        invariant
            len == h@.len(),
            pos < len || len == 0,
            heap_but_below(h@, pos as int),
            h@.to_multiset() == start.to_multiset().remove(r),
        ensures
            is_heap(h@),
            h@.to_multiset() == start.to_multiset().remove(r),
            len == h@.len(),
        decreases len - pos,
    {
        if len == 0 || pos >= len / 2 {
            proof {
                assert forall|i: int| 0 < i < h@.len() implies h@[parent(i)].0
                    <= #[trigger] h@[i].0 by {
                    if parent(i) == pos {
                        assert(i >= 2 * pos + 1);
                    }
                }
            }
            break ;
        }
        let left = 2 * pos + 1;
        let right = 2 * pos + 2;
        let mut m = left;
        if right < len && h[right].0 < h[left].0 {
            m = right;
        }
        if h[pos].0 <= h[m].0 {
            proof {
                assert forall|i: int| 0 < i < h@.len() implies h@[parent(i)].0
                    <= #[trigger] h@[i].0 by {
                    if parent(i) == pos {
                        assert(i == left || i == right);
                    }
                }
            }
            break ;
        }
        let ghost before = h@;
        let a = h[pos];
        let b = h[m];
        h.set(pos, b);
        h.set(m, a);
        proof {
            assert(h@ == swapped(before, pos as int, m as int));
            lemma_swap_multiset(before, pos as int, m as int);
            assert(parent(left as int) == pos);
            assert(parent(right as int) == pos);
            assert(parent(m as int) == pos);
            assert forall|c: int| 0 < c < h@.len() && parent(c) == pos implies before[m as int].0
                <= #[trigger] before[c].0 by {
                assert(c == left || c == right);
            }
        }
        pos = m;
    }
    proof {
        lemma_contains_after(start, h@, r, false);
    }
    r
}

} // verus!
