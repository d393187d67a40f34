use vstd::prelude::*;
use vstd::seq_lib::*;
use crate::sorting::helper::{ge_all, le_all, lt_all};
use crate::sorting::order::{le, lemma_total_order, lt, total_order};
use crate::sorting::permutation::{
    is_sort_of, lemma_same_elements_bounds, lemma_swap_same_elements, same_elements, swapped,
};
use crate::sorting::slices::faithful_clone;

verus! {

/// What the two cursors leave of `s`, and where they meet. The cursor `left`
/// steps over an element that is `<=` the pivot; any other element is
/// exchanged with the one just before `right`, and `right` steps back.
#[verifier::opaque]
pub open spec fn scanned<T: Ord>(s: Seq<T>, pivot: T, left: int, right: int) -> (Seq<T>, int)
    decreases right - left,
{
    if left < 0 || left >= right || right > s.len() {
        (s, left)
    } else if le(s[left], pivot) {
        scanned(s, pivot, left + 1, right)
    } else {
        scanned(swapped(s, left, right - 1), pivot, left, right - 1)
    }
}

/// One step of `scanned`.
pub proof fn lemma_scanned_step<T: Ord>(s: Seq<T>, pivot: T, left: int, right: int)
    ensures
        left < 0 || left >= right || right > s.len() ==> scanned(s, pivot, left, right) == (
            s,
            left,
        ),
        0 <= left < right <= s.len() && le(s[left], pivot) ==> scanned(s, pivot, left, right)
            == scanned(s, pivot, left + 1, right),
        0 <= left < right <= s.len() && !le(s[left], pivot) ==> scanned(s, pivot, left, right)
            == scanned(swapped(s, left, right - 1), pivot, left, right - 1),
{
    reveal(scanned);
}

/// What partitioning `s` by the element at `pi` leaves, and where the pivot
/// comes to rest: the pivot is exchanged to the front, the cursors scan the
/// rest from position 1 and from the end, and the pivot is exchanged with the
/// element just before the place where they meet.
pub open spec fn partitioned<T: Ord>(s: Seq<T>, pi: int) -> (Seq<T>, int) {
    let met = scanned(swapped(s, 0, pi), s[pi], 1, s.len() as int);
    (swapped(met.0, 0, met.1 - 1), met.1 - 1)
}

/// Partitions `arr` by the element at `pi`, the pivot, and returns the position
/// where the pivot comes to rest: no element before it is greater than the
/// pivot, and every element behind it is.
pub fn partition<T: Ord + Clone>(arr: &mut [T], pi: usize) -> (ret: usize)
    requires
        pi < old(arr)@.len(),
    ensures
        final(arr)@.len() == old(arr)@.len(),
        ret < old(arr)@.len(),
        total_order::<T>() && faithful_clone::<T>() ==> (final(arr)@, ret as int) == partitioned(
            old(arr)@,
            pi as int,
        ),
        total_order::<T>() && faithful_clone::<T>() ==> {
            &&& same_elements(final(arr)@, old(arr)@)
            &&& final(arr)@[ret as int] == old(arr)@[pi as int]
            &&& ge_all(final(arr)@[ret as int], final(arr)@.subrange(0, ret as int))
            &&& le_all(
                final(arr)@[ret as int],
                final(arr)@.subrange(ret as int, final(arr)@.len() as int),
            )
            &&& lt_all(
                final(arr)@[ret as int],
                final(arr)@.subrange(ret + 1, final(arr)@.len() as int),
            )
        },
{
    let ghost lawful = total_order::<T>() && faithful_clone::<T>();
    let pivot = arr[pi].clone();
    let n = arr.len();
    proof {
        if lawful {
            assert(cloned(arr@[pi as int], pivot));
            lemma_swap_same_elements(arr@, 0, pi as int);
        }
    }
    arr.swap(0, pi);
    let ghost first = arr@;

    let mut left: usize = 1;
    let mut right: usize = arr.len();

    while left < right
        invariant
            arr@.len() == n,
            n == old(arr)@.len(),
            1 <= left <= right <= n,
            lawful == (total_order::<T>() && faithful_clone::<T>()),
            lawful ==> pivot == old(arr)@[pi as int],
            lawful ==> arr@[0] == pivot,
            lawful ==> first == swapped(old(arr)@, 0, pi as int),
            lawful ==> scanned(arr@, pivot, left as int, right as int) == scanned(
                first,
                pivot,
                1,
                n as int,
            ),
            lawful ==> same_elements(arr@, old(arr)@),
            lawful ==> forall|p: int| #![trigger arr@[p]] 1 <= p < left ==> le(arr@[p], pivot),
            lawful ==> forall|p: int| #![trigger arr@[p]] right <= p < n ==> lt(pivot, arr@[p]),
        decreases right - left,
    {
        proof {
            if lawful {
                lemma_total_order::<T>();
                lemma_scanned_step(arr@, pivot, left as int, right as int);
            }
        }
        let ok = arr[left] <= pivot;
        if ok {
            left += 1;
        } else {
            let ghost before = arr@;
            arr.swap(left, right - 1);
            proof {
                if lawful {
                    assert(arr@ == swapped(before, left as int, right - 1));
                    lemma_swap_same_elements(before, left as int, right - 1);
                    assert forall|p: int| #![trigger arr@[p]] right - 1 <= p < n implies lt(
                        pivot,
                        arr@[p],
                    ) by {
                        if p >= right {
                            assert(lt(pivot, before[p]));
                        }
                    }
                    assert forall|p: int| #![trigger arr@[p]] 1 <= p < left implies le(
                        arr@[p],
                        pivot,
                    ) by {
                        assert(le(before[p], pivot));
                    }
                }
            }
            right -= 1;
        }
    }

    let ghost before = arr@;
    arr.swap(0, left - 1);
    proof {
        if lawful {
            lemma_total_order::<T>();
            lemma_scanned_step(before, pivot, left as int, right as int);
            let ret = left - 1;
            assert(arr@ == swapped(before, 0, ret));
            lemma_swap_same_elements(before, 0, ret);
            let lo = arr@.subrange(0, ret);
            let hi = arr@.subrange(ret, n as int);
            let hi1 = arr@.subrange(ret + 1, n as int);
            assert forall|p: int| 0 <= p < lo.len() implies le(#[trigger] lo[p], arr@[ret]) by {
                if p == 0 {
                    assert(le(before[ret], pivot));
                } else {
                    assert(le(before[p], pivot));
                }
            }
            assert forall|p: int| 0 <= p < hi.len() implies le(arr@[ret], #[trigger] hi[p]) by {
                if p > 0 {
                    assert(lt(pivot, before[ret + p]));
                }
            }
            assert forall|p: int| 0 <= p < hi1.len() implies lt(arr@[ret], #[trigger] hi1[p]) by {
                assert(lt(pivot, before[ret + 1 + p]));
            }
        }
    }
    left - 1
}

/// Quick Sort
///
/// Sorts `arr` in place into nondecreasing order: it partitions `arr` by its
/// middle element and sorts what stands before the pivot and what stands
/// behind it. Elements that compare equal may change their order.
///
/// Time: O(n log n) on average, O(n^2) in the worst case: the pivot is always
/// the middle element, so there are inputs that it splits badly every time.
/// Space: O(1) beside the recursion. Not stable.
///
/// The result is guaranteed where the order of `T` is total and a clone of a
/// `T` is the same value; the length of `arr` stays as it is in any case.
pub fn sort<T: Ord + Clone>(arr: &mut [T])
    ensures
        final(arr)@.len() == old(arr)@.len(),
        total_order::<T>() && faithful_clone::<T>() ==> is_sort_of(final(arr)@, old(arr)@),
    decreases old(arr)@.len(),
{
    let ghost lawful = total_order::<T>() && faithful_clone::<T>();
    if arr.len() <= 1 {
        return ;
    }
    let pi = arr.len() / 2;
    let mid = partition(arr, pi);
    let ghost parted = arr@;
    let (front, back) = arr.split_at_mut(mid);
    let ghost lo = front@;
    sort(front);
    let ghost lo2 = front@;
    let (pivot, rest) = back.split_at_mut(1);
    let ghost hi = rest@;
    let ghost pv = pivot@;
    sort(rest);
    let ghost hi2 = rest@;
    proof {
        assert(arr@ == lo2 + (pv + hi2));
        if lawful {
            lemma_total_order::<T>();
            let x = parted[mid as int];
            assert(pv =~= seq![x]);
            assert(lo == parted.subrange(0, mid as int));
            assert(hi =~= parted.subrange(mid + 1, parted.len() as int));
            assert(parted =~= lo + (pv + hi));
            lemma_multiset_commutative(lo, pv + hi);
            lemma_multiset_commutative(pv, hi);
            lemma_multiset_commutative(lo2, pv + hi2);
            lemma_multiset_commutative(pv, hi2);
            lemma_same_elements_bounds(lo2, lo, x);
            lemma_same_elements_bounds(hi2, hi, x);
            let out = arr@;
            assert forall|p: int, q: int| #![trigger out[p], out[q]] 0 <= p < q < out.len() implies le(
                out[p],
                out[q],
            ) by {
                if q < mid {
                    assert(le(lo2[p], lo2[q]));
                } else if p > mid {
                    assert(le(hi2[p - mid - 1], hi2[q - mid - 1]));
                } else {
                    if p < mid {
                        assert(le(lo2[p], x));
                    }
                    if q > mid {
                        assert(lt(x, hi2[q - mid - 1]));
                    }
                }
            }
        }
    }
}

} // verus!
