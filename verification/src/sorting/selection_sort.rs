use vstd::prelude::*;
use crate::sorting::order::{le, lemma_total_order, total_order};
use crate::sorting::permutation::{is_sort_of, lemma_swap_same_elements, same_elements, swapped};

verus! {

/// Selection Sort
///
/// Sorts `arr` in place into nondecreasing order: for each position in turn it
/// finds a least element of what is left and exchanges it into that position.
/// Elements that compare equal may change their order.
///
/// Time: O(n^2) in every case. Space: O(1). Not stable.
///
/// The result is guaranteed where the order of `T` is total;
/// the length of `arr` stays as it is in any case.
pub fn sort<T: Ord>(arr: &mut [T])
    ensures
        final(arr)@.len() == old(arr)@.len(),
        total_order::<T>() ==> is_sort_of(final(arr)@, old(arr)@),
{
    let n = arr.len();
    let mut i: usize = 0;
    while i < n
        invariant
            arr@.len() == n,
            i <= n,
            total_order::<T>() ==> same_elements(arr@, old(arr)@),
            total_order::<T>() ==> forall|a: int, b: int|
                #![trigger arr@[a], arr@[b]]
                0 <= a < b < n && a < i ==> le(arr@[a], arr@[b]),
        decreases n - i,
    {
        proof {
            if total_order::<T>() {
                lemma_total_order::<T>();
            }
        }
        // k is the index of a least element of arr[i..j]
        let mut k: usize = i;
        let mut j: usize = i + 1;
        while j < n
            invariant
                arr@.len() == n,
                i <= k < n,
                i + 1 <= j <= n,
                total_order::<T>() ==> forall|a: int|
                    #![trigger arr@[a]]
                    i <= a < j ==> le(arr@[k as int], arr@[a]),
            decreases n - j,
        {
            proof {
                if total_order::<T>() {
                    lemma_total_order::<T>();
                }
            }
            let ghost prev = k;
            if arr[j] < arr[k] {
                k = j;
            }
            proof {
                if total_order::<T>() {
                    assert forall|a: int| #![trigger arr@[a]] i <= a < j + 1 implies le(
                        arr@[k as int],
                        arr@[a],
                    ) by {
                        if a < j {
                            assert(le(arr@[prev as int], arr@[a]));
                        }
                    }
                }
            }
            j += 1;
        }
        let ghost before = arr@;
        arr.swap(i, k);
        proof {
            if total_order::<T>() {
                assert(arr@ == swapped(before, i as int, k as int));
                lemma_swap_same_elements(before, i as int, k as int);
                assert forall|a: int, b: int|
                    #![trigger arr@[a], arr@[b]]
                    0 <= a < b < n && a < i + 1 implies le(arr@[a], arr@[b]) by {
                    if a < i {
                        if b == i {
                            assert(le(before[a], before[k as int]));
                        } else if b == k {
                            assert(le(before[a], before[i as int]));
                        } else {
                            assert(le(before[a], before[b]));
                        }
                    } else {
                        if b == k {
                            assert(le(before[k as int], before[i as int]));
                        } else {
                            assert(le(before[k as int], before[b]));
                        }
                    }
                }
            }
        }
        i += 1;
    }
}

} // verus!
