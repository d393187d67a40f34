use vstd::prelude::*;
use crate::sorting::helper::{lemma_sorted_by_neighbours, sorted};
use crate::sorting::order::{le, lemma_total_order, total_order};
use crate::sorting::permutation::{
    is_stable_sort_of, lemma_swap_neighbours_keeps_order_of_equals, lemma_swap_same_elements,
    same_elements, same_order_of_equals, swapped,
};

verus! {

/// Every element at position `m` or later is `>=` every element before it.
spec fn settled_from<T: Ord>(s: Seq<T>, m: int) -> bool {
    forall|a: int, b: int| #![trigger s[a], s[b]] 0 <= a < b < s.len() && m <= b ==> le(s[a], s[b])
}

/// Bubble Sort
///
/// Sorts `arr` in place into nondecreasing order by passes of exchanges of
/// neighbours, and stops after the first pass that exchanges nothing. Elements
/// that compare equal keep their order.
///
/// Time: O(n^2) in the worst and the average case, O(n) on sorted input.
/// Space: O(1). Stable.
///
/// The result is guaranteed where the order of `T` is total;
/// the length of `arr` stays as it is in any case.
pub fn sort<T: Ord>(arr: &mut [T])
    ensures
        final(arr)@.len() == old(arr)@.len(),
        total_order::<T>() ==> is_stable_sort_of(final(arr)@, old(arr)@),
{
    let n = arr.len();
    let mut flag = true;
    let mut cnt: usize = 0;
    while cnt < n
        invariant
            arr@.len() == n,
            cnt <= n,
            total_order::<T>() ==> same_elements(arr@, old(arr)@),
            total_order::<T>() ==> same_order_of_equals(arr@, old(arr)@),
            total_order::<T>() ==> settled_from(arr@, n - cnt),
        ensures
            total_order::<T>() ==> sorted(arr@),
        decreases n - cnt,
    {
        cnt += 1;
        flag = false;
        let ghost m: int = n - cnt + 1;
        let mut i: usize = 1;
        proof {
            if total_order::<T>() {
                lemma_total_order::<T>();
            }
        }
        while i < n
            invariant
                arr@.len() == n,
                1 <= i <= n,
                1 <= m <= n,
                total_order::<T>() ==> same_elements(arr@, old(arr)@),
                total_order::<T>() ==> same_order_of_equals(arr@, old(arr)@),
                total_order::<T>() ==> settled_from(arr@, m),
                total_order::<T>() ==> forall|a: int|
                    #![trigger arr@[a]]
                    0 <= a < i && a < m ==> le(arr@[a], arr@[if i < m { i - 1 } else { m - 1 }]),
                total_order::<T>() && !flag ==> forall|k: int, l: int|
                    #![trigger arr@[k], arr@[l]]
                    0 <= k && l == k + 1 && l < i ==> le(arr@[k], arr@[l]),
            decreases n - i,
        {
            proof {
                if total_order::<T>() {
                    lemma_total_order::<T>();
                }
            }
            let ghost before = arr@;
            if !(arr[i - 1] <= arr[i]) {
                flag = true;
                arr.swap(i - 1, i);
                proof {
                    if total_order::<T>() {
                        assert(arr@ == swapped(before, i - 1, i as int));
                        lemma_swap_same_elements(before, i - 1, i as int);
                        lemma_swap_neighbours_keeps_order_of_equals(before, i - 1);
                        assert(i < m) by {
                            if i >= m {
                                assert(le(before[i - 1], before[i as int]));
                            }
                        }
                        assert(settled_from(arr@, m)) by {
                            assert forall|a: int, b: int|
                                #![trigger arr@[a], arr@[b]]
                                0 <= a < b < arr@.len() && m <= b implies le(arr@[a], arr@[b]) by {
                                assert(arr@[b] == before[b]);
                                if a == i - 1 {
                                    assert(le(before[i as int], before[b]));
                                } else if a == i {
                                    assert(le(before[i - 1], before[b]));
                                } else {
                                    assert(le(before[a], before[b]));
                                }
                            }
                        }
                        assert forall|a: int| #![trigger arr@[a]] 0 <= a < i + 1 && a < m implies le(
                            arr@[a],
                            arr@[if i + 1 < m {
                                i as int
                            } else {
                                m - 1
                            }],
                        ) by {
                            if a < i - 1 {
                                assert(le(before[a], before[i - 1]));
                            }
                        }
                    }
                }
            } else {
                proof {
                    if total_order::<T>() {
                        assert(le(arr@[i - 1], arr@[i as int]));
                        assert forall|a: int| #![trigger arr@[a]] 0 <= a < i + 1 && a < m implies le(
                            arr@[a],
                            arr@[if i + 1 < m {
                                i as int
                            } else {
                                m - 1
                            }],
                        ) by {
                            if i < m {
                                if a < i {
                                    assert(le(arr@[a], arr@[i - 1]));
                                }
                            }
                        }
                    }
                }
            }
            i += 1;
        }
        proof {
            if total_order::<T>() {
                lemma_total_order::<T>();
                assert(settled_from(arr@, n - cnt)) by {
                    assert forall|a: int, b: int|
                        #![trigger arr@[a], arr@[b]]
                        0 <= a < b < arr@.len() && n - cnt <= b implies le(arr@[a], arr@[b]) by {
                        if b == m - 1 {
                            assert(le(arr@[a], arr@[m - 1]));
                        }
                    }
                }
            }
        }
        if !flag {
            proof {
                if total_order::<T>() {
                    lemma_sorted_by_neighbours(arr@);
                }
            }
            break;
        }
    }
}

} // verus!
