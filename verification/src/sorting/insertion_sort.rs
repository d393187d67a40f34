use vstd::prelude::*;
use crate::sorting::order::{le, lemma_total_order, lt, total_order};
use crate::sorting::permutation::{
    is_stable_sort_of, lemma_swap_neighbours_keeps_order_of_equals, lemma_swap_same_elements,
    same_elements, same_order_of_equals, swapped,
};
use crate::sorting::slices::faithful_clone;

verus! {

/// Insertion Sort
///
/// Sorts `arr` in place into nondecreasing order: each element in turn is
/// moved left past every strictly greater element before it. Elements that
/// compare equal keep their order.
///
/// Time: O(n^2) in the worst and the average case, O(n) on sorted input.
/// Space: O(1). Stable.
///
/// The result is guaranteed where the order of `T` is total and a clone of a
/// `T` is the same value; the length of `arr` stays as it is in any case.
pub fn sort<T: Ord + Clone>(arr: &mut [T])
    ensures
        final(arr)@.len() == old(arr)@.len(),
        total_order::<T>() && faithful_clone::<T>() ==> is_stable_sort_of(final(arr)@, old(arr)@),
{
    let n = arr.len();
    let ghost lawful = total_order::<T>() && faithful_clone::<T>();
    let mut i: usize = 1;
    while i < n
        invariant
            arr@.len() == n,
            1 <= i,
            lawful == (total_order::<T>() && faithful_clone::<T>()),
            lawful ==> same_elements(arr@, old(arr)@),
            lawful ==> same_order_of_equals(arr@, old(arr)@),
            lawful ==> forall|a: int, b: int|
                #![trigger arr@[a], arr@[b]]
                0 <= a < b < i && b < n ==> le(arr@[a], arr@[b]),
        decreases n - i,
    {
        let key = arr[i].clone();
        let mut j: usize = i;
        proof {
            if lawful {
                lemma_total_order::<T>();
                assert(cloned(arr@[i as int], key));
                assert(arr@.update(j as int, key) =~= arr@);
            }
        }
        while j > 0 && arr[j - 1] > key
            invariant
                arr@.len() == n,
                j <= i < n,
                lawful == (total_order::<T>() && faithful_clone::<T>()),
                lawful ==> same_elements(arr@.update(j as int, key), old(arr)@),
                lawful ==> same_order_of_equals(arr@.update(j as int, key), old(arr)@),
                lawful ==> forall|a: int, b: int|
                    #![trigger arr@[a], arr@[b]]
                    0 <= a < b <= i && a != j && b != j ==> le(arr@[a], arr@[b]),
                lawful ==> forall|b: int| #![trigger arr@[b]] j < b <= i ==> lt(key, arr@[b]),
            decreases j,
        {
            let ghost before = arr@;
            let ghost hole = arr@.update(j as int, key);
            arr[j] = arr[j - 1].clone();
            proof {
                if lawful {
                    lemma_total_order::<T>();
                    assert(cloned(before[j - 1], arr@[j as int]));
                    assert(arr@ == before.update(j as int, before[j - 1]));
                    assert(arr@.update(j - 1, key) =~= swapped(hole, j - 1, j as int));
                    lemma_swap_same_elements(hole, j - 1, j as int);
                    lemma_swap_neighbours_keeps_order_of_equals(hole, j - 1);
                    assert forall|a: int, b: int|
                        #![trigger arr@[a], arr@[b]]
                        0 <= a < b <= i && a != j - 1 && b != j - 1 implies le(arr@[a], arr@[b]) by {
                        if b == j {
                            assert(le(before[a], before[j - 1]));
                        } else if a == j {
                            assert(le(before[j - 1], before[b]));
                        } else {
                            assert(le(before[a], before[b]));
                        }
                    }
                    assert forall|b: int| #![trigger arr@[b]] j - 1 < b <= i implies lt(
                        key,
                        arr@[b],
                    ) by {
                        if b > j {
                            assert(lt(key, before[b]));
                        }
                    }
                }
            }
            j -= 1;
        }
        let ghost before = arr@;
        arr[j] = key;
        proof {
            if lawful {
                lemma_total_order::<T>();
                assert(arr@ == before.update(j as int, key));
                assert forall|a: int, b: int|
                    #![trigger arr@[a], arr@[b]]
                    0 <= a < b < i + 1 && b < n implies le(arr@[a], arr@[b]) by {
                    if a == j {
                        assert(lt(key, before[b]));
                    } else if b == j {
                        assert(le(before[j - 1], key));
                        if a < j - 1 {
                            assert(le(before[a], before[j - 1]));
                        }
                    } else {
                        assert(le(before[a], before[b]));
                    }
                }
            }
        }
        i += 1;
    }
}

} // verus!
