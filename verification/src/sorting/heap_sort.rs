use vstd::prelude::*;
use crate::sorting::helper::ge_all;
use crate::sorting::order::{ge, le, lemma_total_order, lt, total_order};
use crate::sorting::permutation::{
    is_sort_of, lemma_same_elements_bounds, lemma_same_elements_within, lemma_swap_same_elements,
    same_elements, swapped,
};

verus! {

/// `c` is the position of one of the two children of the node at `p`.
pub open spec fn is_child(c: int, p: int) -> bool {
    c == 2 * p + 1 || c == 2 * p + 2
}

/// Within `s[..=end]`, every node at `start` or later is `>=` each of its
/// children.
pub open spec fn heap_between<T: Ord>(s: Seq<T>, start: int, end: int) -> bool {
    forall|p: int, c: int|
        #![trigger s[p], s[c]]
        start <= p && 0 <= p && c <= end && c < s.len() && is_child(c, p) ==> le(s[c], s[p])
}

/// `s` is a max-heap: every node is `>=` each of its children.
pub open spec fn heap<T: Ord>(s: Seq<T>) -> bool {
    heap_between(s, 0, s.len() - 1)
}

/// Every element but the one at `m` or later is `<=` every element at `m` or
/// later, and those are in nondecreasing order.
spec fn settled_from<T: Ord>(s: Seq<T>, m: int) -> bool {
    forall|a: int, b: int| #![trigger s[a], s[b]] 0 <= a < b < s.len() && m <= b ==> le(s[a], s[b])
}

/// In a heap no element is greater than the first.
pub proof fn lemma_heap_root_is_greatest<T: Ord>(s: Seq<T>, end: int, k: int)
    requires
        total_order::<T>(),
        heap_between(s, 0, end),
        0 <= k <= end < s.len(),
    ensures
        le(s[k], s[0]),
    decreases k,
{
    lemma_total_order::<T>();
    if k > 0 {
        let p = (k - 1) / 2;
        assert(is_child(k, p));
        assert(le(s[k], s[p]));
        lemma_heap_root_is_greatest(s, end, p);
    }
}

/// Returns `true` iff `arr` is a max-heap.
pub fn is_heap<T: Ord>(arr: &[T]) -> (b: bool)
    ensures
        total_order::<T>() ==> b == heap(arr@),
{
    let mut i: usize = 1;
    while i < arr.len()
        invariant
            1 <= i,
            total_order::<T>() ==> forall|p: int, c: int|
                #![trigger arr@[p], arr@[c]]
                0 <= p && c < i && c < arr@.len() && is_child(c, p) ==> le(arr@[c], arr@[p]),
        decreases arr.len() - i,
    {
        let parent = (i - 1) / 2;
        proof {
            if total_order::<T>() {
                lemma_total_order::<T>();
                assert(is_child(i as int, parent as int));
            }
        }
        if arr[parent] < arr[i] {
            proof {
                if total_order::<T>() {
                    assert(!le(arr@[i as int], arr@[parent as int]));
                }
            }
            return false;
        }
        proof {
            if total_order::<T>() {
                assert(le(arr@[i as int], arr@[parent as int]));
                assert forall|p: int, c: int|
                    #![trigger arr@[p], arr@[c]]
                    0 <= p && c < i + 1 && c < arr@.len() && is_child(c, p) implies le(
                    arr@[c],
                    arr@[p],
                ) by {
                    if c == i {
                        assert(p == parent);
                    }
                }
            }
        }
        i += 1;
    }
    true
}

/// The node at `q` is `root` or one of its descendants.
#[verifier::opaque]
pub open spec fn in_subtree(q: int, root: int) -> bool
    decreases q,
{
    q == root || (q > root && q >= 1 && in_subtree((q - 1) / 2, root))
}

/// Within `s[..=end]`, every descendant of `root` is `>=` each of its
/// children.
pub open spec fn heap_below<T: Ord>(s: Seq<T>, root: int, end: int) -> bool {
    forall|q: int, c: int|
        #![trigger s[q], s[c]]
        in_subtree(q, root) && q != root && 0 <= q && c <= end && c < s.len() && is_child(c, q)
            ==> le(s[c], s[q])
}

/// Within `s[..=end]`, `root` and every descendant of it is `>=` each of its
/// children.
pub open spec fn heap_under<T: Ord>(s: Seq<T>, root: int, end: int) -> bool {
    forall|q: int, c: int|
        #![trigger s[q], s[c]]
        in_subtree(q, root) && 0 <= q && c <= end && c < s.len() && is_child(c, q) ==> le(
            s[c],
            s[q],
        )
}

/// What sifting the node at `p` down within `s[..=end]` leaves: as long as the
/// node has a child in `s[..=end]` and is less than the greater of its
/// children (the left one where they compare equal), it is exchanged with
/// that child and followed there.
#[verifier::opaque]
pub open spec fn sifted<T: Ord>(s: Seq<T>, p: int, end: int) -> Seq<T>
    decreases end - p,
{
    let l = 2 * p + 1;
    if p < 0 || l > end || end >= s.len() {
        s
    } else {
        let c = if l + 1 <= end && lt(s[l], s[l + 1]) {
            l + 1
        } else {
            l
        };
        if ge(s[p], s[c]) {
            s
        } else {
            sifted(swapped(s, p, c), c, end)
        }
    }
}

/// A node is in its own subtree, its children are in every subtree that it
/// is in, and the other nodes of a subtree stand behind its root, below their
/// parents.
pub proof fn lemma_subtree(q: int, root: int)
    ensures
        in_subtree(root, root),
        in_subtree(q, root) ==> q >= root,
        in_subtree(q, root) && q >= 0 ==> in_subtree(2 * q + 1, root) && in_subtree(
            2 * q + 2,
            root,
        ),
        in_subtree(q, root) && q != root ==> q >= 1 && in_subtree((q - 1) / 2, root),
{
    reveal(in_subtree);
    if in_subtree(q, root) && q >= 0 {
        assert((2 * q + 1 - 1) / 2 == q);
        assert((2 * q + 2 - 1) / 2 == q);
    }
}

/// One step of `sifted`.
pub proof fn lemma_sifted_step<T: Ord>(s: Seq<T>, p: int, end: int)
    ensures
        p < 0 || 2 * p + 1 > end || end >= s.len() ==> sifted(s, p, end) == s,
        0 <= p && 2 * p + 1 <= end < s.len() ==> sifted(s, p, end) == ({
            let l = 2 * p + 1;
            let c = if l + 1 <= end && lt(s[l], s[l + 1]) {
                l + 1
            } else {
                l
            };
            if ge(s[p], s[c]) {
                s
            } else {
                sifted(swapped(s, p, c), c, end)
            }
        }),
{
    reveal(sifted);
}

/// A heap behind `start` is a heap below `start`.
proof fn lemma_heap_below_from_between<T: Ord>(s: Seq<T>, start: int, end: int)
    requires
        heap_between(s, start + 1, end),
    ensures
        heap_below(s, start, end),
{
    assert forall|q: int, c: int|
        #![trigger s[q], s[c]]
        in_subtree(q, start) && q != start && 0 <= q && c <= end && c < s.len() && is_child(
            c,
            q,
        ) implies le(s[c], s[q]) by {
        lemma_subtree(q, start);
    }
}

/// Where only the subtree of `start` has changed and is a heap now, a heap
/// behind `start` has become a heap from `start` on.
proof fn lemma_heap_from_subtree<T: Ord>(before: Seq<T>, after: Seq<T>, start: int, end: int)
    requires
        0 <= start <= end < before.len(),
        after.len() == before.len(),
        forall|q: int|
            0 <= q < before.len() && !(in_subtree(q, start) && q <= end) ==> after[q] == before[q],
        heap_under(after, start, end),
        heap_between(before, start + 1, end),
    ensures
        heap_between(after, start, end),
{
    assert forall|q: int, c: int|
        #![trigger after[q], after[c]]
        start <= q && 0 <= q && c <= end && c < after.len() && is_child(c, q) implies le(
        after[c],
        after[q],
    ) by {
        if !in_subtree(q, start) {
            lemma_subtree(c, start);
            assert((c - 1) / 2 == q);
            assert(!in_subtree(c, start));
            assert(le(before[c], before[q]));
        }
    }
}

/// Sifts the node at `start` down within `arr[..=end]`: as long as it has a
/// child there and is less than the greater of its children, it is exchanged
/// with that child. Only `start` and its descendants in `arr[..=end]` change,
/// and only in the order of their elements; where every descendant of `start`
/// is `>=` its children, afterwards `start` is so too. The test for a child is
/// written so that no position is computed that could overflow.
pub fn sift_down<T: Ord>(arr: &mut [T], start: usize, end: usize)
    requires
        start <= end < old(arr)@.len(),
    ensures
        final(arr)@.len() == old(arr)@.len(),
        forall|q: int|
            0 <= q < old(arr)@.len() && !(in_subtree(q, start as int) && q <= end)
                ==> final(arr)@[q] == old(arr)@[q],
        forall|q: int|
            0 <= q < start || end < q < old(arr)@.len() ==> final(arr)@[q] == old(arr)@[q],
        total_order::<T>() ==> final(arr)@ == sifted(old(arr)@, start as int, end as int),
        total_order::<T>() ==> same_elements(
            final(arr)@.subrange(start as int, end + 1),
            old(arr)@.subrange(start as int, end + 1),
        ),
        total_order::<T>() && heap_below(old(arr)@, start as int, end as int) ==> heap_under(
            final(arr)@,
            start as int,
            end as int,
        ),
        total_order::<T>() && heap_between(old(arr)@, start + 1, end as int) ==> heap_between(
            final(arr)@,
            start as int,
            end as int,
        ),
{
    let ghost lawful = total_order::<T>();
    let ghost heapy = total_order::<T>() && heap_below(old(arr)@, start as int, end as int);
    let n = arr.len();
    let mut parent = start;
    proof {
        lemma_subtree(start as int, start as int);
        if lawful && heap_between(old(arr)@, start + 1, end as int) {
            lemma_heap_below_from_between(old(arr)@, start as int, end as int);
        }
    }
    // the node at `parent` has a child in `arr[..=end]` as long as 2 * parent < end
    while parent < end - parent
        invariant
            arr@.len() == n,
            n == old(arr)@.len(),
            start <= parent <= end < n,
            in_subtree(parent as int, start as int),
            lawful == total_order::<T>(),
            heapy == (total_order::<T>() && heap_below(old(arr)@, start as int, end as int)),
            forall|q: int|
                0 <= q < n && !(in_subtree(q, start as int) && q <= end) ==> arr@[q] == old(arr)@[q],
            forall|q: int| 0 <= q < start || end < q < n ==> arr@[q] == old(arr)@[q],
            lawful ==> sifted(arr@, parent as int, end as int) == sifted(
                old(arr)@,
                start as int,
                end as int,
            ),
            lawful ==> same_elements(
                arr@.subrange(start as int, end + 1),
                old(arr)@.subrange(start as int, end + 1),
            ),
            heapy ==> forall|q: int, c: int|
                #![trigger arr@[q], arr@[c]]
                in_subtree(q, start as int) && start <= q && q != parent && c <= end && is_child(
                    c,
                    q,
                ) ==> le(arr@[c], arr@[q]),
            heapy ==> forall|g: int, c: int|
                #![trigger arr@[g], arr@[c]]
                in_subtree(g, start as int) && start <= g && is_child(parent as int, g) && c <= end
                    && is_child(c, parent as int) ==> le(arr@[c], arr@[g]),
        decreases end - parent,
    {
        let mut child = parent * 2 + 1;
        let ghost before = arr@;
        proof {
            if lawful {
                lemma_total_order::<T>();
            }
            lemma_subtree(parent as int, start as int);
            lemma_sifted_step(before, parent as int, end as int);
        }
        // Pick the child with larger value
        if child + 1 <= end && arr[child] < arr[child + 1] {
            child += 1;
        }
        if arr[parent] >= arr[child] {
            proof {
                if lawful {
                    assert(sifted(before, parent as int, end as int) == before);
                }
                if heapy {
                    assert forall|q: int, c: int|
                        #![trigger arr@[q], arr@[c]]
                        in_subtree(q, start as int) && 0 <= q && c <= end && c < arr@.len()
                            && is_child(c, q) implies le(arr@[c], arr@[q]) by {
                        lemma_subtree(q, start as int);
                        if q == parent {
                            if c != child {
                                assert(le(arr@[c], arr@[child as int]));
                            }
                        }
                    }
                }
                if lawful && heap_between(old(arr)@, start + 1, end as int) {
                    lemma_heap_below_from_between(old(arr)@, start as int, end as int);
                    lemma_heap_from_subtree(old(arr)@, arr@, start as int, end as int);
                }
            }
            return ;  // we are done
        }
        arr.swap(parent, child);
        proof {
            if lawful {
                assert(arr@ == swapped(before, parent as int, child as int));
                assert(sifted(before, parent as int, end as int) == sifted(
                    arr@,
                    child as int,
                    end as int,
                ));
                let r = before.subrange(start as int, end + 1);
                assert(arr@.subrange(start as int, end + 1) =~= swapped(
                    r,
                    parent - start,
                    child - start,
                ));
                lemma_swap_same_elements(r, parent - start, child - start);
            }
            if heapy {
                assert forall|q: int, c: int|
                    #![trigger arr@[q], arr@[c]]
                    in_subtree(q, start as int) && start <= q && q != child && c <= end && is_child(
                        c,
                        q,
                    ) implies le(arr@[c], arr@[q]) by {
                    if q == parent {
                        if c == child {
                            assert(le(before[parent as int], before[child as int]));
                        } else {
                            assert(le(before[c], before[child as int]));
                        }
                    } else if c == parent {
                        assert(le(before[child as int], before[q]));
                    } else {
                        assert(le(before[c], before[q]));
                    }
                }
                assert forall|g: int, c: int|
                    #![trigger arr@[g], arr@[c]]
                    in_subtree(g, start as int) && start <= g && is_child(child as int, g) && c <= end
                        && is_child(c, child as int) implies le(arr@[c], arr@[g]) by {
                    assert(g == parent);
                    assert(le(before[c], before[child as int]));
                }
            }
        }
        parent = child;
    }
    proof {
        lemma_sifted_step(arr@, parent as int, end as int);
        if lawful && heap_between(old(arr)@, start + 1, end as int) {
            lemma_heap_below_from_between(old(arr)@, start as int, end as int);
        }
        if heapy {
            assert forall|q: int, c: int|
                #![trigger arr@[q], arr@[c]]
                in_subtree(q, start as int) && 0 <= q && c <= end && c < arr@.len() && is_child(
                    c,
                    q,
                ) implies le(arr@[c], arr@[q]) by {
                lemma_subtree(q, start as int);
                assert(q != parent);
            }
        }
        if lawful && heap_between(old(arr)@, start + 1, end as int) {
            lemma_heap_from_subtree(old(arr)@, arr@, start as int, end as int);
        }
    }
}

/// Heap Sort
///
/// Sorts `arr` in place into nondecreasing order: it makes `arr` a max-heap,
/// then exchanges the first element with the last of the heap and restores
/// the heap without it, until the heap is one element. Elements that compare
/// equal may change their order.
///
/// Time: O(n log n) in every case. Space: O(1). Not stable.
///
/// The result is guaranteed where the order of `T` is total;
/// the length of `arr` stays as it is in any case.
pub fn sort<T: Ord>(arr: &mut [T])
    ensures
        final(arr)@.len() == old(arr)@.len(),
        total_order::<T>() ==> is_sort_of(final(arr)@, old(arr)@),
{
    let ghost lawful = total_order::<T>();
    let n = arr.len();
    // First heapify arr
    let mut i: usize = n / 2;
    while i > 0
        invariant
            arr@.len() == n,
            i <= n / 2,
            lawful == total_order::<T>(),
            lawful ==> same_elements(arr@, old(arr)@),
            lawful ==> heap_between(arr@, i as int, n - 1),
        decreases i,
    {
        i -= 1;
        let ghost before = arr@;
        sift_down(arr, i, n - 1);
        proof {
            if lawful {
                lemma_same_elements_within(arr@, before, i as int, n as int);
            }
        }
    }

    // Now swap largest with end element and sift down
    let mut i: usize = n;
    while i > 1
        invariant
            arr@.len() == n,
            i <= n,
            lawful == total_order::<T>(),
            lawful ==> same_elements(arr@, old(arr)@),
            lawful ==> heap_between(arr@, 0, i - 1),
            lawful ==> settled_from(arr@, i as int),
        decreases i,
    {
        i -= 1;
        let ghost heaped = arr@;
        arr.swap(0, i);
        let ghost swapped_out = arr@;
        sift_down(arr, 0, i - 1);
        proof {
            if lawful {
                lemma_total_order::<T>();
                assert(swapped_out == swapped(heaped, 0, i as int));
                lemma_swap_same_elements(heaped, 0, i as int);
                lemma_same_elements_within(arr@, swapped_out, 0, i as int);
                let top = heaped[0];
                assert forall|k: int| 0 <= k <= i implies le(#[trigger] heaped[k], top) by {
                    lemma_heap_root_is_greatest(heaped, i as int, k);
                }
                let low = swapped_out.subrange(0, i as int);
                let low2 = arr@.subrange(0, i as int);
                assert forall|b: int| i <= b < n implies ge_all(#[trigger] arr@[b], low2) by {
                    let x = arr@[b];
                    assert(x == swapped_out[b]);
                    assert forall|k: int| 0 <= k < low.len() implies le(#[trigger] low[k], x) by {
                        if b == i {
                            if k == 0 {
                                assert(le(heaped[i as int], top));
                            } else {
                                assert(le(heaped[k], top));
                            }
                        } else {
                            if k == 0 {
                                assert(le(heaped[i as int], heaped[b]));
                            } else {
                                assert(le(heaped[k], heaped[b]));
                            }
                        }
                    }
                    lemma_same_elements_bounds(low2, low, x);
                }
                assert forall|a: int, b: int|
                    #![trigger arr@[a], arr@[b]]
                    0 <= a < b < n && i <= b implies le(arr@[a], arr@[b]) by {
                    if a < i {
                        assert(ge_all(arr@[b], low2));
                        assert(le(low2[a], arr@[b]));
                    } else if a == i {
                        assert(le(top, heaped[b]));
                    } else {
                        assert(le(heaped[a], heaped[b]));
                    }
                }
            }
        }
    }
}

} // verus!
