use vstd::prelude::*;
use vstd::seq_lib::*;
use crate::sorting::helper::sorted;
use crate::sorting::order::{equiv, le, lemma_total_order, lt, total_order};
use crate::sorting::permutation::{
    class_of, is_stable_sort_of, lemma_class_of_add, lemma_class_of_none, lemma_class_of_push,
    same_elements,
};
use crate::sorting::slices::{clone_into_range, clone_range, faithful_clone};

verus! {

/// What merging `a` and `b` gives: the smaller of the two first elements each
/// time, the one of `a` when they compare equal, and the rest of the one when
/// the other is used up.
#[verifier::opaque]
pub open spec fn merged<T: Ord>(a: Seq<T>, b: Seq<T>) -> Seq<T>
    decreases a.len() + b.len(),
{
    if a.len() == 0 {
        b
    } else if b.len() == 0 {
        a
    } else if lt(b[0], a[0]) {
        seq![b[0]] + merged(a, b.drop_first())
    } else {
        seq![a[0]] + merged(a.drop_first(), b)
    }
}

/// One step of `merged`.
pub proof fn lemma_merged_step<T: Ord>(a: Seq<T>, b: Seq<T>)
    ensures
        a.len() == 0 ==> merged(a, b) == b,
        b.len() == 0 ==> merged(a, b) == a,
        a.len() > 0 && b.len() > 0 && lt(b[0], a[0]) ==> merged(a, b) == seq![b[0]] + merged(
            a,
            b.drop_first(),
        ),
        a.len() > 0 && b.len() > 0 && !lt(b[0], a[0]) ==> merged(a, b) == seq![a[0]] + merged(
            a.drop_first(),
            b,
        ),
{
    reveal(merged);
    if a.len() == 0 && b.len() == 0 {
        assert(a =~= b);
    }
}

/// Merges the sorted slices `a` and `b` into the front of `result`: the smaller
/// of the two next elements is taken each time, the one of `a` when they
/// compare equal. What stands in `result` behind the merged elements stays.
pub fn merge<T: Ord + Clone>(a: &[T], b: &[T], result: &mut [T])
    requires
        old(result)@.len() >= a@.len() + b@.len(),
    ensures
        final(result)@.len() == old(result)@.len(),
        forall|p: int|
            a@.len() + b@.len() <= p < old(result)@.len() ==> final(result)@[p] == old(result)@[p],
        total_order::<T>() && faithful_clone::<T>() ==> final(result)@.subrange(
            0,
            (a@.len() + b@.len()) as int,
        ) == merged(a@, b@),
        total_order::<T>() && faithful_clone::<T>() && sorted(a@) && sorted(b@)
            ==> is_stable_sort_of(
            final(result)@.subrange(0, (a@.len() + b@.len()) as int),
            a@ + b@,
        ),
{
    let ghost lawful = total_order::<T>() && faithful_clone::<T>() && sorted(a@) && sorted(b@);
    let ghost exact = total_order::<T>() && faithful_clone::<T>();
    let n = result.len();
    let mut i: usize = 0;
    let mut j: usize = 0;
    proof {
        assert(a@.subrange(0, a@.len() as int) =~= a@);
        assert(b@.subrange(0, b@.len() as int) =~= b@);
        assert(result@.subrange(0, 0) + merged(a@, b@) =~= merged(a@, b@));
        if lawful {
            assert(a@.subrange(0, 0) + b@.subrange(0, 0) =~= Seq::<T>::empty());
            assert(result@.subrange(0, 0) =~= Seq::<T>::empty());
            assert forall|x: T|
                #[trigger] class_of(result@.subrange(0, 0), x) == class_of(a@.subrange(0, 0), x)
                    + class_of(b@.subrange(0, 0), x) by {
                lemma_class_of_none(Seq::<T>::empty(), x);
                assert(a@.subrange(0, 0) =~= Seq::<T>::empty());
                assert(b@.subrange(0, 0) =~= Seq::<T>::empty());
            }
        }
    }
    while i < a.len() || j < b.len()
        invariant
            i <= a@.len(),
            j <= b@.len(),
            result@.len() == old(result)@.len(),
            result@.len() == n,
            result@.len() >= a@.len() + b@.len(),
            lawful == (total_order::<T>() && faithful_clone::<T>() && sorted(a@) && sorted(b@)),
            exact == (total_order::<T>() && faithful_clone::<T>()),
            exact ==> result@.subrange(0, i + j) + merged(
                a@.subrange(i as int, a@.len() as int),
                b@.subrange(j as int, b@.len() as int),
            ) == merged(a@, b@),
            forall|p: int| i + j <= p < result@.len() ==> result@[p] == old(result)@[p],
            lawful ==> same_elements(
                result@.subrange(0, i + j),
                a@.subrange(0, i as int) + b@.subrange(0, j as int),
            ),
            lawful ==> forall|x: T|
                #[trigger] class_of(result@.subrange(0, i + j), x) == class_of(
                    a@.subrange(0, i as int),
                    x,
                ) + class_of(b@.subrange(0, j as int), x),
            lawful ==> sorted(result@.subrange(0, i + j)),
            lawful && i < a@.len() ==> forall|p: int|
                #![trigger result@[p]]
                0 <= p < i + j ==> le(result@[p], a@[i as int]),
            lawful && j < b@.len() ==> forall|p: int|
                #![trigger result@[p]]
                0 <= p < i + j ==> le(result@[p], b@[j as int]),
            lawful && i < a@.len() ==> forall|q: int|
                #![trigger b@[q]]
                0 <= q < j ==> lt(b@[q], a@[i as int]),
        decreases a@.len() - i + b@.len() - j,
    {
        let ghost before = result@;
        let ghost front = result@.subrange(0, i + j);
        let ghost ai = a@.subrange(0, i as int);
        let ghost bj = b@.subrange(0, j as int);
        let ghost rest_a = a@.subrange(i as int, a@.len() as int);
        let ghost rest_b = b@.subrange(j as int, b@.len() as int);
        proof {
            if exact {
                lemma_total_order::<T>();
                lemma_merged_step(rest_a, rest_b);
            }
        }
        if i == a.len() || (j != b.len() && b[j] < a[i]) {
            result[i + j] = b[j].clone();
            proof {
                if exact {
                    let v = b@[j as int];
                    assert(cloned(v, result@[i + j]));
                    let next_b = b@.subrange(j + 1, b@.len() as int);
                    assert(rest_b.drop_first() =~= next_b);
                    lemma_merged_step(rest_a, next_b);
                    assert(rest_b =~= seq![v] + next_b);
                    assert(merged(rest_a, rest_b) == seq![v] + merged(rest_a, next_b));
                    assert(result@.subrange(0, i + j + 1) =~= front.push(v));
                    assert(front.push(v) + merged(rest_a, next_b) =~= front + (seq![v] + merged(
                        rest_a,
                        next_b,
                    )));
                }
            }
            proof {
                if lawful {
                    let v = b@[j as int];
                    assert(cloned(v, result@[i + j]));
                    assert(result@ == before.update(i + j, v));
                    let front2 = result@.subrange(0, i + j + 1);
                    let bj2 = b@.subrange(0, j + 1);
                    assert(front2 =~= front.push(v));
                    assert(bj2 =~= bj.push(v));
                    assert(ai + bj2 =~= (ai + bj).push(v));
                    to_multiset_build(front, v);
                    to_multiset_build(ai + bj, v);
                    assert forall|x: T| #[trigger]
                        class_of(front2, x) == class_of(ai, x) + class_of(bj2, x) by {
                        lemma_class_of_push(front, v, x);
                        lemma_class_of_push(bj, v, x);
                        assert(class_of(front, x) == class_of(ai, x) + class_of(bj, x));
                        if equiv(v, x) {
                            assert((class_of(ai, x) + class_of(bj, x)).push(v) =~= class_of(ai, x)
                                + class_of(bj, x).push(v));
                        }
                    }
                    assert(sorted(front2)) by {
                        assert forall|p: int, q: int|
                            #![trigger front2[p], front2[q]]
                            0 <= p < q < front2.len() implies le(front2[p], front2[q]) by {
                            if q < i + j {
                                assert(le(front[p], front[q]));
                            } else {
                                assert(le(before[p], v));
                            }
                        }
                    }
                    if i < a@.len() {
                        assert forall|p: int| #![trigger result@[p]] 0 <= p < i + j + 1 implies le(
                            result@[p],
                            a@[i as int],
                        ) by {
                            if p < i + j {
                                assert(le(before[p], a@[i as int]));
                            }
                        }
                    }
                    if j + 1 < b@.len() {
                        assert(le(b@[j as int], b@[j + 1]));
                        assert forall|p: int| #![trigger result@[p]] 0 <= p < i + j + 1 implies le(
                            result@[p],
                            b@[j + 1],
                        ) by {
                            if p < i + j {
                                assert(le(before[p], b@[j as int]));
                            }
                        }
                    }
                }
            }
            j += 1;
        } else {
            result[i + j] = a[i].clone();
            proof {
                if exact {
                    let v = a@[i as int];
                    assert(cloned(v, result@[i + j]));
                    let next_a = a@.subrange(i + 1, a@.len() as int);
                    assert(rest_a.drop_first() =~= next_a);
                    lemma_merged_step(next_a, rest_b);
                    assert(rest_a =~= seq![v] + next_a);
                    assert(merged(rest_a, rest_b) == seq![v] + merged(next_a, rest_b));
                    assert(result@.subrange(0, i + j + 1) =~= front.push(v));
                    assert(front.push(v) + merged(next_a, rest_b) =~= front + (seq![v] + merged(
                        next_a,
                        rest_b,
                    )));
                }
            }
            proof {
                if lawful {
                    let v = a@[i as int];
                    assert(cloned(v, result@[i + j]));
                    assert(result@ == before.update(i + j, v));
                    let front2 = result@.subrange(0, i + j + 1);
                    let ai2 = a@.subrange(0, i + 1);
                    assert(front2 =~= front.push(v));
                    assert(ai2 =~= ai.push(v));
                    assert(ai2 + bj =~= (ai + bj).insert(i as int, v));
                    to_multiset_build(front, v);
                    to_multiset_insert(ai + bj, i as int, v);
                    assert forall|x: T| #[trigger]
                        class_of(front2, x) == class_of(ai2, x) + class_of(bj, x) by {
                        lemma_class_of_push(front, v, x);
                        lemma_class_of_push(ai, v, x);
                        assert(class_of(front, x) == class_of(ai, x) + class_of(bj, x));
                        if equiv(v, x) {
                            assert forall|q: int| 0 <= q < bj.len() implies !equiv(
                                #[trigger] bj[q],
                                x,
                            ) by {
                                assert(lt(b@[q], v));
                            }
                            lemma_class_of_none(bj, x);
                            assert((class_of(ai, x) + class_of(bj, x)).push(v) =~= class_of(ai, x).push(
                                v,
                            ) + class_of(bj, x));
                        }
                    }
                    assert(sorted(front2)) by {
                        assert forall|p: int, q: int|
                            #![trigger front2[p], front2[q]]
                            0 <= p < q < front2.len() implies le(front2[p], front2[q]) by {
                            if q < i + j {
                                assert(le(front[p], front[q]));
                            } else {
                                assert(le(before[p], v));
                            }
                        }
                    }
                    if j < b@.len() {
                        assert(le(v, b@[j as int]));
                        assert forall|p: int| #![trigger result@[p]] 0 <= p < i + j + 1 implies le(
                            result@[p],
                            b@[j as int],
                        ) by {
                            if p < i + j {
                                assert(le(before[p], b@[j as int]));
                            }
                        }
                    }
                    if i + 1 < a@.len() {
                        assert(le(a@[i as int], a@[i + 1]));
                        assert forall|p: int| #![trigger result@[p]] 0 <= p < i + j + 1 implies le(
                            result@[p],
                            a@[i + 1],
                        ) by {
                            if p < i + j {
                                assert(le(before[p], a@[i as int]));
                            }
                        }
                        assert forall|q: int| #![trigger b@[q]] 0 <= q < j implies lt(
                            b@[q],
                            a@[i + 1],
                        ) by {
                            assert(lt(b@[q], a@[i as int]));
                        }
                    }
                }
            }
            i += 1;
        }
    }
    proof {
        if exact {
            let none_a = a@.subrange(i as int, a@.len() as int);
            let none_b = b@.subrange(j as int, b@.len() as int);
            lemma_merged_step(none_a, none_b);
            assert(result@.subrange(0, i + j) + none_b =~= result@.subrange(0, i + j));
        }
        if lawful {
            assert(a@.subrange(0, i as int) =~= a@);
            assert(b@.subrange(0, j as int) =~= b@);
            let front = result@.subrange(0, (a@.len() + b@.len()) as int);
            assert forall|x: T| #[trigger] class_of(front, x) == class_of(a@ + b@, x) by {
                lemma_class_of_add(a@, b@, x);
                assert(class_of(front, x) == class_of(a@.subrange(0, i as int), x) + class_of(
                    b@.subrange(0, j as int),
                    x,
                ));
            }
        }
    }
}

/// Sorts `arr[l..r]` in place and leaves the rest of `arr` as it is. Elements
/// that compare equal keep their order.
pub fn mergesort<T: Ord + Clone>(arr: &mut [T], l: usize, r: usize)
    requires
        l <= r <= old(arr)@.len(),
    ensures
        final(arr)@.len() == old(arr)@.len(),
        forall|p: int| 0 <= p < l || r <= p < old(arr)@.len() ==> final(arr)@[p] == old(arr)@[p],
        total_order::<T>() && faithful_clone::<T>() ==> is_stable_sort_of(
            final(arr)@.subrange(l as int, r as int),
            old(arr)@.subrange(l as int, r as int),
        ),
    decreases r - l,
{
    let ghost lawful = total_order::<T>() && faithful_clone::<T>();
    if r - l <= 1 {
        return ;
    }
    let mid = l + (r - l) / 2;
    mergesort(arr, l, mid);
    let ghost first = arr@;
    mergesort(arr, mid, r);
    let ghost second = arr@;
    let mut result = clone_range(arr, l, r);
    merge(&arr[l..mid], &arr[mid..r], result.as_mut_slice());
    clone_into_range(arr, l, result.as_slice());
    proof {
        if lawful {
            let o = old(arr)@;
            let o1 = o.subrange(l as int, mid as int);
            let o2 = o.subrange(mid as int, r as int);
            let s1 = second.subrange(l as int, mid as int);
            let s2 = second.subrange(mid as int, r as int);
            assert(s1 =~= first.subrange(l as int, mid as int));
            assert(first.subrange(mid as int, r as int) =~= o2);
            assert(o.subrange(l as int, r as int) =~= o1 + o2);
            assert(result@.subrange(0, (s1.len() + s2.len()) as int) =~= result@);
            assert(arr@.subrange(l as int, r as int) == result@);
            lemma_multiset_commutative(s1, s2);
            lemma_multiset_commutative(o1, o2);
            assert forall|x: T| #[trigger] class_of(result@, x) == class_of(o1 + o2, x) by {
                lemma_class_of_add(s1, s2, x);
                lemma_class_of_add(o1, o2, x);
                assert(class_of(result@, x) == class_of(s1 + s2, x));
                assert(class_of(s1, x) == class_of(o1, x));
                assert(class_of(s2, x) == class_of(o2, x));
            }
        }
    }
}

/// Merge Sort
///
/// Sorts `arr` in place into nondecreasing order: it sorts each half, merges
/// the two into a buffer and copies the buffer back. Elements that compare
/// equal keep their order.
///
/// Time: O(n log n) in every case. Space: O(n). Stable.
///
/// The result is guaranteed where the order of `T` is total and a clone of a
/// `T` is the same value; the length of `arr` stays as it is in any case.
pub fn sort<T: Ord + Clone>(arr: &mut [T])
    ensures
        final(arr)@.len() == old(arr)@.len(),
        total_order::<T>() && faithful_clone::<T>() ==> is_stable_sort_of(final(arr)@, old(arr)@),
{
    let n = arr.len();
    mergesort(arr, 0, n);
    proof {
        assert(arr@.subrange(0, n as int) =~= arr@);
        assert(old(arr)@.subrange(0, n as int) =~= old(arr)@);
    }
}

} // verus!
