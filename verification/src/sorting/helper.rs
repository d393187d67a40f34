use vstd::prelude::*;
use crate::sorting::order::{le, lemma_total_order, lt, total_order};

verus! {

/// Every element of `s` is `<=` every later one.
pub open spec fn sorted<T: Ord>(s: Seq<T>) -> bool {
    forall|i: int, j: int| #![trigger s[i], s[j]] 0 <= i < j < s.len() ==> le(s[i], s[j])
}

/// `x` is strictly greater than every element of `s`.
pub open spec fn gt_all<T: Ord>(x: T, s: Seq<T>) -> bool {
    forall|i: int| 0 <= i < s.len() ==> lt(#[trigger] s[i], x)
}

/// `x` is greater than or equal to every element of `s`.
pub open spec fn ge_all<T: Ord>(x: T, s: Seq<T>) -> bool {
    forall|i: int| 0 <= i < s.len() ==> le(#[trigger] s[i], x)
}

/// `x` is strictly less than every element of `s`.
pub open spec fn lt_all<T: Ord>(x: T, s: Seq<T>) -> bool {
    forall|i: int| 0 <= i < s.len() ==> lt(x, #[trigger] s[i])
}

/// `x` is less than or equal to every element of `s`.
pub open spec fn le_all<T: Ord>(x: T, s: Seq<T>) -> bool {
    forall|i: int| 0 <= i < s.len() ==> le(x, #[trigger] s[i])
}

/// Every element of `a` is strictly greater than every element of `b`.
pub open spec fn each_gt<T: Ord>(a: Seq<T>, b: Seq<T>) -> bool {
    forall|i: int, j: int|
        #![trigger a[i], b[j]]
        0 <= i < a.len() && 0 <= j < b.len() ==> lt(b[j], a[i])
}

/// Every element of `a` is greater than or equal to every element of `b`.
pub open spec fn each_ge<T: Ord>(a: Seq<T>, b: Seq<T>) -> bool {
    forall|i: int, j: int|
        #![trigger a[i], b[j]]
        0 <= i < a.len() && 0 <= j < b.len() ==> le(b[j], a[i])
}

/// Every element of `a` is strictly less than every element of `b`.
pub open spec fn each_lt<T: Ord>(a: Seq<T>, b: Seq<T>) -> bool {
    forall|i: int, j: int|
        #![trigger a[i], b[j]]
        0 <= i < a.len() && 0 <= j < b.len() ==> lt(a[i], b[j])
}

/// Every element of `a` is less than or equal to every element of `b`.
pub open spec fn each_le<T: Ord>(a: Seq<T>, b: Seq<T>) -> bool {
    forall|i: int, j: int|
        #![trigger a[i], b[j]]
        0 <= i < a.len() && 0 <= j < b.len() ==> le(a[i], b[j])
}

/// In a total order a sequence is sorted as soon as each element is `<=` its
/// right neighbour.
pub proof fn lemma_sorted_by_neighbours<T: Ord>(s: Seq<T>)
    requires
        total_order::<T>(),
        forall|i: int, j: int|
            #![trigger s[i], s[j]]
            0 <= i && j == i + 1 && j < s.len() ==> le(s[i], s[j]),
    ensures
        sorted(s),
    decreases s.len(),
{
    lemma_total_order::<T>();
    if s.len() >= 2 {
        let t = s.drop_last();
        assert forall|i: int, j: int|
            #![trigger t[i], t[j]]
            0 <= i && j == i + 1 && j < t.len() implies le(t[i], t[j]) by {
            assert(le(s[i], s[j]));
        }
        lemma_sorted_by_neighbours(t);
        let n = s.len() - 1;
        assert forall|i: int, j: int| #![trigger s[i], s[j]] 0 <= i < j < s.len() implies le(
            s[i],
            s[j],
        ) by {
            if j < n {
                assert(le(t[i], t[j]));
            } else if i < n - 1 {
                assert(le(t[i], t[n - 1]));
                assert(le(s[n - 1], s[n]));
            } else {
                assert(le(s[i], s[n]));
            }
        }
    }
}

/// Returns `true` iff `arr` is sorted in nondecreasing order.
pub fn is_sorted<T: Ord>(arr: &[T]) -> (b: bool)
    ensures
        total_order::<T>() ==> b == sorted(arr@),
{
    let mut i: usize = 1;
    while i < arr.len()
        invariant
            1 <= i,
            total_order::<T>() ==> forall|k: int, m: int|
                #![trigger arr@[k], arr@[m]]
                0 <= k && m == k + 1 && m < i ==> le(arr@[k], arr@[m]),
        decreases arr.len() - i,
    {
        if arr[i - 1] > arr[i] {
            proof {
                if total_order::<T>() {
                    lemma_total_order::<T>();
                    assert(!le(arr@[i - 1], arr@[i as int]));
                }
            }
            return false;
        }
        proof {
            if total_order::<T>() {
                lemma_total_order::<T>();
                assert(le(arr@[i - 1], arr@[i as int]));
            }
        }
        i += 1;
    }
    proof {
        if total_order::<T>() {
            lemma_sorted_by_neighbours(arr@);
        }
    }
    true
}

/// A greatest element of `arr`, or `None` when `arr` is empty.
fn max_of<T: Ord>(arr: &[T]) -> (m: Option<&T>)
    ensures
        m is None <==> arr@.len() == 0,
        m matches Some(v) ==> arr@.contains(*v),
        total_order::<T>() ==> (m matches Some(v) ==> ge_all(*v, arr@)),
{
    if arr.len() == 0 {
        return None;
    }
    let mut best: &T = &arr[0];
    let mut i: usize = 1;
    proof {
        if total_order::<T>() {
            lemma_total_order::<T>();
        }
    }
    while i < arr.len()
        invariant
            1 <= i <= arr.len(),
            arr@.contains(*best),
            total_order::<T>() ==> ge_all(*best, arr@.subrange(0, i as int)),
        decreases arr.len() - i,
    {
        proof {
            if total_order::<T>() {
                lemma_total_order::<T>();
            }
        }
        let ghost prev = *best;
        if arr[i] >= *best {
            best = &arr[i];
        }
        proof {
            if total_order::<T>() {
                let s = arr@.subrange(0, i + 1);
                assert forall|k: int| 0 <= k < s.len() implies le(#[trigger] s[k], *best) by {
                    if k < i {
                        assert(le(arr@.subrange(0, i as int)[k], prev));
                    }
                }
            }
        }
        i += 1;
    }
    proof {
        assert(arr@.subrange(0, i as int) == arr@);
    }
    Some(best)
}

/// A least element of `arr`, or `None` when `arr` is empty.
fn min_of<T: Ord>(arr: &[T]) -> (m: Option<&T>)
    ensures
        m is None <==> arr@.len() == 0,
        m matches Some(v) ==> arr@.contains(*v),
        total_order::<T>() ==> (m matches Some(v) ==> le_all(*v, arr@)),
{
    if arr.len() == 0 {
        return None;
    }
    let mut best: &T = &arr[0];
    let mut i: usize = 1;
    proof {
        if total_order::<T>() {
            lemma_total_order::<T>();
        }
    }
    while i < arr.len()
        invariant
            1 <= i <= arr.len(),
            arr@.contains(*best),
            total_order::<T>() ==> le_all(*best, arr@.subrange(0, i as int)),
        decreases arr.len() - i,
    {
        proof {
            if total_order::<T>() {
                lemma_total_order::<T>();
            }
        }
        let ghost prev = *best;
        if arr[i] < *best {
            best = &arr[i];
        }
        proof {
            if total_order::<T>() {
                let s = arr@.subrange(0, i + 1);
                assert forall|k: int| 0 <= k < s.len() implies le(*best, #[trigger] s[k]) by {
                    if k < i {
                        assert(le(prev, arr@.subrange(0, i as int)[k]));
                    }
                }
            }
        }
        i += 1;
    }
    proof {
        assert(arr@.subrange(0, i as int) == arr@);
    }
    Some(best)
}

/// Returns whether `x` is strictly greater than every element of `arr`.
pub fn gt_seg<T: Ord>(x: &T, arr: &[T]) -> (b: bool)
    ensures
        total_order::<T>() ==> b == gt_all(*x, arr@),
{
    match max_of(arr) {
        Some(max) => {
            proof {
                if total_order::<T>() {
                    lemma_total_order::<T>();
                    let k = arr@.index_of(*max);
                    assert(arr@[k] == *max);
                }
            }
            *x > *max
        },
        None => true,
    }
}

/// Returns whether `x` is greater than or equal to every element of `arr`.
pub fn ge_seg<T: Ord>(x: &T, arr: &[T]) -> (b: bool)
    ensures
        total_order::<T>() ==> b == ge_all(*x, arr@),
{
    match max_of(arr) {
        Some(max) => {
            proof {
                if total_order::<T>() {
                    lemma_total_order::<T>();
                    let k = arr@.index_of(*max);
                    assert(arr@[k] == *max);
                }
            }
            *x >= *max
        },
        None => true,
    }
}

/// Returns whether `x` is strictly less than every element of `arr`.
pub fn lt_seg<T: Ord>(x: &T, arr: &[T]) -> (b: bool)
    ensures
        total_order::<T>() ==> b == lt_all(*x, arr@),
{
    match min_of(arr) {
        Some(min) => {
            proof {
                if total_order::<T>() {
                    lemma_total_order::<T>();
                    let k = arr@.index_of(*min);
                    assert(arr@[k] == *min);
                }
            }
            *x < *min
        },
        None => true,
    }
}

/// Returns whether `x` is less than or equal to every element of `arr`.
pub fn le_seg<T: Ord>(x: &T, arr: &[T]) -> (b: bool)
    ensures
        total_order::<T>() ==> b == le_all(*x, arr@),
{
    match min_of(arr) {
        Some(min) => {
            proof {
                if total_order::<T>() {
                    lemma_total_order::<T>();
                    let k = arr@.index_of(*min);
                    assert(arr@[k] == *min);
                }
            }
            *x <= *min
        },
        None => true,
    }
}

/// Returns whether all elements of `arr1` are strictly greater than all elements of `arr2`.
pub fn gt_segs<T: Ord>(arr1: &[T], arr2: &[T]) -> (b: bool)
    ensures
        total_order::<T>() ==> b == each_gt(arr1@, arr2@),
{
    let min1 = min_of(arr1);
    let max2 = max_of(arr2);
    match (min1, max2) {
        (Some(a), Some(b)) => {
            proof {
                if total_order::<T>() {
                    lemma_total_order::<T>();
                    let ka = arr1@.index_of(*a);
                    let kb = arr2@.index_of(*b);
                    assert(arr1@[ka] == *a && arr2@[kb] == *b);
                }
            }
            *a > *b
        },
        _ => true,
    }
}

/// Returns whether all elements of `arr1` are greater than or equal to all elements of `arr2`.
pub fn ge_segs<T: Ord>(arr1: &[T], arr2: &[T]) -> (b: bool)
    ensures
        total_order::<T>() ==> b == each_ge(arr1@, arr2@),
{
    let min1 = min_of(arr1);
    let max2 = max_of(arr2);
    match (min1, max2) {
        (Some(a), Some(b)) => {
            proof {
                if total_order::<T>() {
                    lemma_total_order::<T>();
                    let ka = arr1@.index_of(*a);
                    let kb = arr2@.index_of(*b);
                    assert(arr1@[ka] == *a && arr2@[kb] == *b);
                }
            }
            *a >= *b
        },
        _ => true,
    }
}

/// Returns whether all elements of `arr1` are strictly less than all elements of `arr2`.
pub fn lt_segs<T: Ord>(arr1: &[T], arr2: &[T]) -> (b: bool)
    ensures
        total_order::<T>() ==> b == each_lt(arr1@, arr2@),
{
    let max1 = max_of(arr1);
    let min2 = min_of(arr2);
    match (max1, min2) {
        (Some(a), Some(b)) => {
            proof {
                if total_order::<T>() {
                    lemma_total_order::<T>();
                    let ka = arr1@.index_of(*a);
                    let kb = arr2@.index_of(*b);
                    assert(arr1@[ka] == *a && arr2@[kb] == *b);
                }
            }
            *a < *b
        },
        _ => true,
    }
}

/// Returns whether all elements of `arr1` are less than or equal to all elements of `arr2`.
pub fn le_segs<T: Ord>(arr1: &[T], arr2: &[T]) -> (b: bool)
    ensures
        total_order::<T>() ==> b == each_le(arr1@, arr2@),
{
    let max1 = max_of(arr1);
    let min2 = min_of(arr2);
    match (max1, min2) {
        (Some(a), Some(b)) => {
            proof {
                if total_order::<T>() {
                    lemma_total_order::<T>();
                    let ka = arr1@.index_of(*a);
                    let kb = arr2@.index_of(*b);
                    assert(arr1@[ka] == *a && arr2@[kb] == *b);
                }
            }
            *a <= *b
        },
        _ => true,
    }
}

} // verus!
