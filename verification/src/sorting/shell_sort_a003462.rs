use vstd::prelude::*;
use crate::sorting::order::{le, lemma_total_order, lt, total_order};
use crate::sorting::permutation::{is_sort_of, lemma_swap_same_elements, same_elements, swapped};
use crate::sorting::slices::faithful_clone;

verus! {

/// The gap reached from `k` by the steps `k -> 3k + 1`, taken while
/// `k < n / 3`.
pub open spec fn grown_gap(k: nat, n: nat) -> nat
    decreases n - k,
{
    if k < n / 3 {
        grown_gap(3 * k + 1, n)
    } else {
        k
    }
}

/// The largest gap that a sequence of `n` elements is sorted with.
pub open spec fn first_gap(n: nat) -> nat {
    grown_gap(1, n)
}

/// `k` is 0 or one of 1, 4, 13, 40, ...
pub open spec fn is_gap(k: nat) -> bool
    decreases k,
{
    k == 0 || (k % 3 == 1 && is_gap(k / 3))
}

proof fn lemma_grown_gap_is_gap(k: nat, n: nat)
    requires
        is_gap(k),
        k >= 1,
    ensures
        is_gap(grown_gap(k, n)),
        grown_gap(k, n) >= 1,
    decreases n - k,
{
    if k < n / 3 {
        assert((3 * k + 1) / 3 == k);
        lemma_grown_gap_is_gap(3 * k + 1, n);
    }
}

/// The first and largest gap for `n` elements: 1 grown by `k -> 3k + 1` while
/// `k < n / 3`.
pub fn initial_gap(n: usize) -> (k: usize)
    ensures
        k == first_gap(n as nat),
        k >= 1,
        is_gap(k as nat),
{
    let mut k: usize = 1;
    proof {
        assert(is_gap(1)) by {
            assert(is_gap(0));
            assert(1nat / 3 == 0);
        }
        lemma_grown_gap_is_gap(1, n as nat);
    }
    while k < n / 3
        invariant
            k >= 1,
            grown_gap(k as nat, n as nat) == first_gap(n as nat),
        decreases n - k,
    {
        k = 3 * k + 1;
    }
    k
}

/// The gap that follows `k`: a third of `k`, rounded down. After the gap 1
/// there is none, which 0 stands for.
pub open spec fn following_gap(k: nat) -> nat {
    k / 3
}

/// The gaps from `k` down to 1, each the one that follows the gap before it.
pub open spec fn gaps_from(k: nat) -> Seq<nat>
    decreases k,
{
    if k == 0 {
        Seq::empty()
    } else {
        seq![k] + gaps_from(following_gap(k))
    }
}

/// The gaps that a sequence of `n` elements is sorted with, in the order in
/// which they are used.
pub open spec fn gaps(n: nat) -> Seq<nat> {
    gaps_from(first_gap(n))
}

/// The gap that follows `k`.
pub fn next_gap(k: usize) -> (r: usize)
    ensures
        r == following_gap(k as nat),
{
    k / 3
}

/// The gaps that `n` elements are sorted with, in the order in which they are
/// used.
pub fn gap_sequence(n: usize) -> (v: Vec<usize>)
    ensures
        v@.map_values(|k: usize| k as nat) == gaps(n as nat),
{
    let mut v: Vec<usize> = Vec::new();
    let mut k = initial_gap(n);
    proof {
        assert(v@.map_values(|k: usize| k as nat) + gaps_from(k as nat) =~= gaps(n as nat));
    }
    while k >= 1
        invariant
            v@.map_values(|k: usize| k as nat) + gaps_from(k as nat) == gaps(n as nat),
        decreases k,
    {
        let ghost built = v@.map_values(|k: usize| k as nat);
        v.push(k);
        proof {
            assert(v@.map_values(|k: usize| k as nat) =~= built.push(k as nat));
            assert(built.push(k as nat) + gaps_from(following_gap(k as nat)) =~= built + (seq![
                k as nat,
            ] + gaps_from(following_gap(k as nat))));
        }
        k = next_gap(k);
    }
    proof {
        assert(v@.map_values(|k: usize| k as nat) + Seq::<nat>::empty() =~= v@.map_values(
            |k: usize| k as nat,
        ));
    }
    v
}

/// Shell Sort with the gaps 1, 4, 13, 40, ...
///
/// Sorts `arr` in place into nondecreasing order: for each gap `k` of
/// `gap_sequence`, from `initial_gap` down to 1 by division by 3, it runs an
/// insertion sort over the elements that stand `k` apart. Elements that
/// compare equal may change their order.
///
/// Time: O(n^1.5) in the worst case. Space: O(1). Not stable.
///
/// The result is guaranteed where the order of `T` is total and a clone of a
/// `T` is the same value; the length of `arr` stays as it is in any case.
pub fn sort<T: Ord + Clone>(arr: &mut [T])
    ensures
        final(arr)@.len() == old(arr)@.len(),
        total_order::<T>() && faithful_clone::<T>() ==> is_sort_of(final(arr)@, old(arr)@),
{
    let n = arr.len();
    let ghost lawful = total_order::<T>() && faithful_clone::<T>();
    let mut k = initial_gap(n);
    while k >= 1
        invariant
            arr@.len() == n,
            is_gap(k as nat),
            lawful == (total_order::<T>() && faithful_clone::<T>()),
            lawful ==> same_elements(arr@, old(arr)@),
            lawful && k == 0 ==> forall|a: int, b: int|
                #![trigger arr@[a], arr@[b]]
                0 <= a < b < n ==> le(arr@[a], arr@[b]),
        decreases k,
    {
        let mut i: usize = k;
        while i < n
            invariant
                arr@.len() == n,
                1 <= k <= i,
                lawful == (total_order::<T>() && faithful_clone::<T>()),
                lawful ==> same_elements(arr@, old(arr)@),
                lawful && k == 1 ==> forall|a: int, b: int|
                    #![trigger arr@[a], arr@[b]]
                    0 <= a < b < i && b < n ==> le(arr@[a], arr@[b]),
            decreases n - i,
        {
            let tmp = arr[i].clone();
            let mut j: usize = i;
            proof {
                if lawful {
                    lemma_total_order::<T>();
                    assert(cloned(arr@[i as int], tmp));
                    assert(arr@.update(j as int, tmp) =~= arr@);
                }
            }
            while j >= k && arr[j - k] > tmp
                invariant
                    arr@.len() == n,
                    1 <= k,
                    j <= i < n,
                    lawful == (total_order::<T>() && faithful_clone::<T>()),
                    lawful ==> same_elements(arr@.update(j as int, tmp), old(arr)@),
                    lawful && k == 1 ==> forall|a: int, b: int|
                        #![trigger arr@[a], arr@[b]]
                        0 <= a < b <= i && a != j && b != j ==> le(arr@[a], arr@[b]),
                    lawful && k == 1 ==> forall|b: int|
                        #![trigger arr@[b]]
                        j < b <= i ==> lt(tmp, arr@[b]),
                decreases j,
            {
                let ghost before = arr@;
                let ghost hole = arr@.update(j as int, tmp);
                arr[j] = arr[j - k].clone();
                proof {
                    if lawful {
                        lemma_total_order::<T>();
                        assert(cloned(before[j - k], arr@[j as int]));
                        assert(arr@ == before.update(j as int, before[j - k]));
                        assert(arr@.update(j - k, tmp) =~= swapped(hole, j - k, j as int));
                        lemma_swap_same_elements(hole, j - k, j as int);
                        if k == 1 {
                            assert forall|a: int, b: int|
                                #![trigger arr@[a], arr@[b]]
                                0 <= a < b <= i && a != j - 1 && b != j - 1 implies le(
                                arr@[a],
                                arr@[b],
                            ) by {
                                if b == j {
                                    assert(le(before[a], before[j - 1]));
                                } else if a == j {
                                    assert(le(before[j - 1], before[b]));
                                } else {
                                    assert(le(before[a], before[b]));
                                }
                            }
                            assert forall|b: int| #![trigger arr@[b]] j - 1 < b <= i implies lt(
                                tmp,
                                arr@[b],
                            ) by {
                                if b > j {
                                    assert(lt(tmp, before[b]));
                                }
                            }
                        }
                    }
                }
                j -= k;
            }
            let ghost before = arr@;
            arr[j] = tmp;
            proof {
                if lawful {
                    lemma_total_order::<T>();
                    assert(arr@ == before.update(j as int, tmp));
                    if k == 1 {
                        assert forall|a: int, b: int|
                            #![trigger arr@[a], arr@[b]]
                            0 <= a < b < i + 1 && b < n implies le(arr@[a], arr@[b]) by {
                            if a == j {
                                assert(lt(tmp, before[b]));
                            } else if b == j {
                                assert(le(before[j - 1], tmp));
                                if a < j - 1 {
                                    assert(le(before[a], before[j - 1]));
                                }
                            } else {
                                assert(le(before[a], before[b]));
                            }
                        }
                    }
                }
            }
            i += 1;
        }
        k = next_gap(k);
    }
}

} // verus!
