use vstd::prelude::*;
use vstd::seq_lib::*;
use crate::sorting::helper::sorted;
use crate::sorting::order::{antisymmetric, equiv, le, lemma_total_order, total_order};
use crate::sorting::permutation::{
    class_of, is_sort_of, is_stable_sort_of, lemma_class_of_push, lemma_same_elements_contains,
    lemma_same_elements_len, same_elements, same_order_of_equals,
};

verus! {

/// The last elements of two sorted sequences with the same values compare
/// equal.
proof fn lemma_last_elements_equivalent<T: Ord>(a: Seq<T>, b: Seq<T>)
    requires
        total_order::<T>(),
        sorted(a),
        sorted(b),
        same_elements(a, b),
        a.len() > 0,
    ensures
        b.len() == a.len(),
        equiv(a.last(), b.last()),
{
    lemma_total_order::<T>();
    lemma_same_elements_len(a, b);
    let x = a.last();
    let y = b.last();
    lemma_same_elements_contains(a, b, x);
    lemma_same_elements_contains(a, b, y);
    assert(a.contains(x));
    assert(b.contains(y));
    let k = choose|k: int| 0 <= k < a.len() && a[k] == y;
    let m = choose|m: int| 0 <= m < b.len() && b[m] == x;
    if k < a.len() - 1 {
        assert(le(a[k], a[a.len() - 1]));
    }
    if m < b.len() - 1 {
        assert(le(b[m], b[b.len() - 1]));
    }
    assert(le(y, x));
    assert(le(x, y));
}

/// Two sorted sequences with the same values without their last elements,
/// where these are the same value.
proof fn lemma_drop_last_same_elements<T: Ord>(a: Seq<T>, b: Seq<T>)
    requires
        a.len() > 0,
        b.len() == a.len(),
        same_elements(a, b),
        a.last() == b.last(),
    ensures
        same_elements(a.drop_last(), b.drop_last()),
{
    to_multiset_remove(a, a.len() - 1);
    to_multiset_remove(b, b.len() - 1);
    assert(a.remove(a.len() - 1) =~= a.drop_last());
    assert(b.remove(b.len() - 1) =~= b.drop_last());
}

/// There is one stable sort of a sequence: two sorted sequences with the same
/// values, in which elements that compare equal stand in the same order, are
/// the same sequence.
pub proof fn lemma_stably_sorted_unique<T: Ord>(a: Seq<T>, b: Seq<T>)
    requires
        total_order::<T>(),
        sorted(a),
        sorted(b),
        same_elements(a, b),
        same_order_of_equals(a, b),
    ensures
        a == b,
    decreases a.len(),
{
    lemma_total_order::<T>();
    lemma_same_elements_len(a, b);
    if a.len() == 0 {
        assert(a =~= b);
    } else {
        lemma_last_elements_equivalent(a, b);
        let x = a.last();
        let y = b.last();
        let a1 = a.drop_last();
        let b1 = b.drop_last();
        assert(a =~= a1.push(x));
        assert(b =~= b1.push(y));
        lemma_class_of_push(a1, x, x);
        lemma_class_of_push(b1, y, x);
        assert(class_of(a, x) == class_of(b, x));
        assert(class_of(a1, x).push(x).last() == x);
        assert(class_of(b1, x).push(y).last() == y);
        assert(x == y);
        lemma_drop_last_same_elements(a, b);
        assert forall|z: T| #[trigger] class_of(a1, z) == class_of(b1, z) by {
            lemma_class_of_push(a1, x, z);
            lemma_class_of_push(b1, x, z);
            assert(class_of(a, z) == class_of(b, z));
            if equiv(x, z) {
                assert(class_of(a1, z) =~= class_of(a1, z).push(x).drop_last());
                assert(class_of(b1, z) =~= class_of(b1, z).push(x).drop_last());
            }
        }
        assert(sorted(a1)) by {
            assert forall|i: int, j: int| #![trigger a1[i], a1[j]] 0 <= i < j < a1.len() implies le(
                a1[i],
                a1[j],
            ) by {
                assert(le(a[i], a[j]));
            }
        }
        assert(sorted(b1)) by {
            assert forall|i: int, j: int| #![trigger b1[i], b1[j]] 0 <= i < j < b1.len() implies le(
                b1[i],
                b1[j],
            ) by {
                assert(le(b[i], b[j]));
            }
        }
        lemma_stably_sorted_unique(a1, b1);
        assert(a =~= b);
    }
}

/// Where values that compare equal are the same value, there is one sorted
/// arrangement of a sequence: two sorted sequences with the same values are
/// the same sequence.
pub proof fn lemma_sorted_unique<T: Ord>(a: Seq<T>, b: Seq<T>)
    requires
        total_order::<T>(),
        antisymmetric::<T>(),
        sorted(a),
        sorted(b),
        same_elements(a, b),
    ensures
        a == b,
    decreases a.len(),
{
    lemma_total_order::<T>();
    lemma_same_elements_len(a, b);
    if a.len() == 0 {
        assert(a =~= b);
    } else {
        lemma_last_elements_equivalent(a, b);
        let a1 = a.drop_last();
        let b1 = b.drop_last();
        assert(a.last() == b.last());
        lemma_drop_last_same_elements(a, b);
        assert(sorted(a1)) by {
            assert forall|i: int, j: int| #![trigger a1[i], a1[j]] 0 <= i < j < a1.len() implies le(
                a1[i],
                a1[j],
            ) by {
                assert(le(a[i], a[j]));
            }
        }
        assert(sorted(b1)) by {
            assert forall|i: int, j: int| #![trigger b1[i], b1[j]] 0 <= i < j < b1.len() implies le(
                b1[i],
                b1[j],
            ) by {
                assert(le(b[i], b[j]));
            }
        }
        lemma_sorted_unique(a1, b1);
        assert(a =~= a1.push(a.last()));
        assert(b =~= b1.push(b.last()));
    }
}

/// Any two stable sorts of one sequence give the same result.
pub proof fn lemma_stable_sorts_agree<T: Ord>(s: Seq<T>, a: Seq<T>, b: Seq<T>)
    requires
        total_order::<T>(),
        is_stable_sort_of(a, s),
        is_stable_sort_of(b, s),
    ensures
        a == b,
{
    assert forall|x: T| #[trigger] class_of(a, x) == class_of(b, x) by {
        assert(class_of(a, x) == class_of(s, x));
        assert(class_of(b, x) == class_of(s, x));
    }
    lemma_stably_sorted_unique(a, b);
}

/// Where values that compare equal are the same value, any two sorts of one
/// sequence give the same result.
pub proof fn lemma_sorts_agree<T: Ord>(s: Seq<T>, a: Seq<T>, b: Seq<T>)
    requires
        total_order::<T>(),
        antisymmetric::<T>(),
        is_sort_of(a, s),
        is_sort_of(b, s),
    ensures
        a == b,
{
    lemma_sorted_unique(a, b);
}

/// Sorting is idempotent for a stable sort: sorting what a sort has given
/// changes nothing.
pub proof fn lemma_stable_sort_idempotent<T: Ord>(s: Seq<T>, once: Seq<T>, twice: Seq<T>)
    requires
        total_order::<T>(),
        is_sort_of(once, s),
        is_stable_sort_of(twice, once),
    ensures
        twice == once,
{
    lemma_stably_sorted_unique(twice, once);
}

/// Sorting is idempotent where values that compare equal are the same value:
/// sorting what a sort has given changes nothing.
pub proof fn lemma_sort_idempotent<T: Ord>(s: Seq<T>, once: Seq<T>, twice: Seq<T>)
    requires
        total_order::<T>(),
        antisymmetric::<T>(),
        is_sort_of(once, s),
        is_sort_of(twice, once),
    ensures
        twice == once,
{
    lemma_sorted_unique(twice, once);
}

/// Sequences with the same values have as many elements with a property.
proof fn lemma_same_elements_filter_len<T>(a: Seq<T>, b: Seq<T>, p: spec_fn(T) -> bool)
    requires
        same_elements(a, b),
    ensures
        a.filter(p).len() == b.filter(p).len(),
    decreases a.len(),
{
    lemma_same_elements_len(a, b);
    if a.len() == 0 {
        assert(a =~= b);
    } else {
        let x = a.last();
        let a1 = a.drop_last();
        lemma_same_elements_contains(a, b, x);
        assert(a.contains(x));
        let k = choose|k: int| 0 <= k < b.len() && b[k] == x;
        let b1 = b.remove(k);
        to_multiset_remove(a, a.len() - 1);
        to_multiset_remove(b, k);
        assert(a.remove(a.len() - 1) =~= a1);
        lemma_same_elements_filter_len(a1, b1, p);
        assert(a =~= a1.push(x));
        a1.lemma_filter_push(x, p);
        let front = b.subrange(0, k);
        let back = b.subrange(k + 1, b.len() as int);
        assert(b =~= front.push(x) + back);
        assert(b1 =~= front + back);
        Seq::filter_distributes_over_add(front.push(x), back, p);
        Seq::filter_distributes_over_add(front, back, p);
        front.lemma_filter_push(x, p);
    }
}

/// As many elements of `a` as of `b` compare equal to any given value.
spec fn same_class_sizes<T: Ord>(a: Seq<T>, b: Seq<T>) -> bool {
    forall|x: T| #[trigger] class_of(a, x).len() == class_of(b, x).len()
}

proof fn lemma_equivalent_by_class_sizes<T: Ord>(a: Seq<T>, b: Seq<T>)
    requires
        total_order::<T>(),
        sorted(a),
        sorted(b),
        a.len() == b.len(),
        same_class_sizes(a, b),
    ensures
        forall|i: int| 0 <= i < a.len() ==> equiv(#[trigger] a[i], b[i]),
    decreases a.len(),
{
    lemma_total_order::<T>();
    if a.len() > 0 {
        let x = a.last();
        let y = b.last();
        let a1 = a.drop_last();
        let b1 = b.drop_last();
        assert(a =~= a1.push(x));
        assert(b =~= b1.push(y));
        // some element of `b` compares equal to `x`, and some of `a` to `y`
        lemma_class_of_push(a1, x, x);
        lemma_class_of_push(b1, y, y);
        assert(class_of(b, x).len() == class_of(a, x).len());
        assert(class_of(a, y).len() == class_of(b, y).len());
        let bx = class_of(b, x);
        let ay = class_of(a, y);
        assert(bx.len() > 0 && ay.len() > 0);
        b.lemma_filter_contains_rev(|z: T| equiv(z, x), bx[0]);
        a.lemma_filter_contains_rev(|z: T| equiv(z, y), ay[0]);
        assert(bx.contains(bx[0]));
        assert(ay.contains(ay[0]));
        let kb = choose|k: int| 0 <= k < b.len() && b[k] == bx[0];
        let ka = choose|k: int| 0 <= k < a.len() && a[k] == ay[0];
        if kb < b.len() - 1 {
            assert(le(b[kb], b[b.len() - 1]));
        }
        if ka < a.len() - 1 {
            assert(le(a[ka], a[a.len() - 1]));
        }
        assert(le(x, y));
        assert(le(y, x));
        assert(equiv(x, y));
        assert forall|z: T| #[trigger] class_of(a1, z).len() == class_of(b1, z).len() by {
            lemma_class_of_push(a1, x, z);
            lemma_class_of_push(b1, y, z);
            assert(class_of(a, z).len() == class_of(b, z).len());
        }
        assert(sorted(a1)) by {
            assert forall|i: int, j: int| #![trigger a1[i], a1[j]] 0 <= i < j < a1.len() implies le(
                a1[i],
                a1[j],
            ) by {
                assert(le(a[i], a[j]));
            }
        }
        assert(sorted(b1)) by {
            assert forall|i: int, j: int| #![trigger b1[i], b1[j]] 0 <= i < j < b1.len() implies le(
                b1[i],
                b1[j],
            ) by {
                assert(le(b[i], b[j]));
            }
        }
        lemma_equivalent_by_class_sizes(a1, b1);
        assert forall|i: int| 0 <= i < a.len() implies equiv(#[trigger] a[i], b[i]) by {
            if i < a.len() - 1 {
                assert(equiv(a1[i], b1[i]));
            }
        }
    }
}

/// Two sorted sequences with the same values agree place by place up to
/// values that compare equal.
pub proof fn lemma_sorted_equivalent<T: Ord>(a: Seq<T>, b: Seq<T>)
    requires
        total_order::<T>(),
        sorted(a),
        sorted(b),
        same_elements(a, b),
    ensures
        a.len() == b.len(),
        forall|i: int| 0 <= i < a.len() ==> equiv(#[trigger] a[i], b[i]),
{
    lemma_same_elements_len(a, b);
    assert forall|x: T| #[trigger] class_of(a, x).len() == class_of(b, x).len() by {
        lemma_same_elements_filter_len(a, b, |y: T| equiv(y, x));
    }
    lemma_equivalent_by_class_sizes(a, b);
}

/// Sorting what a sort has given changes no element for one that compares
/// differently: the two results agree place by place up to values that
/// compare equal.
pub proof fn lemma_sort_idempotent_up_to_equals<T: Ord>(s: Seq<T>, once: Seq<T>, twice: Seq<T>)
    requires
        total_order::<T>(),
        is_sort_of(once, s),
        is_sort_of(twice, once),
    ensures
        twice.len() == once.len(),
        forall|i: int| 0 <= i < twice.len() ==> equiv(#[trigger] twice[i], once[i]),
{
    lemma_sorted_equivalent(twice, once);
}

/// Sorting a range stays within the range: where `out` is a sort of
/// `s[lo..hi]`, putting `out` in its place leaves `s[..lo]` and `s[hi..]` as
/// they are, keeps the values of `s`, and the result holds `out` at `lo..hi`.
pub proof fn lemma_sort_of_range_is_confined<T: Ord>(s: Seq<T>, lo: int, hi: int, out: Seq<T>)
    requires
        0 <= lo <= hi <= s.len(),
        is_sort_of(out, s.subrange(lo, hi)),
    ensures
        ({
            let t = s.subrange(0, lo) + out + s.subrange(hi, s.len() as int);
            &&& t.len() == s.len()
            &&& t.subrange(0, lo) == s.subrange(0, lo)
            &&& t.subrange(hi, s.len() as int) == s.subrange(hi, s.len() as int)
            &&& t.subrange(lo, hi) == out
            &&& same_elements(t, s)
        }),
{
    let n = s.len() as int;
    let t = s.subrange(0, lo) + out + s.subrange(hi, n);
    lemma_same_elements_len(out, s.subrange(lo, hi));
    assert(t.subrange(0, lo) =~= s.subrange(0, lo));
    assert(t.subrange(hi, n) =~= s.subrange(hi, n));
    assert(t.subrange(lo, hi) =~= out);
    crate::sorting::permutation::lemma_same_elements_within(t, s, lo, hi);
}

} // verus!
