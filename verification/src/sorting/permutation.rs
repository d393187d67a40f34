use vstd::prelude::*;
use vstd::seq_lib::*;
use crate::sorting::helper::{ge_all, gt_all, le_all, lt_all, sorted};
use crate::sorting::order::{equiv, lemma_total_order, total_order};

verus! {

/// `s` with the elements at `i` and `j` exchanged.
pub open spec fn swapped<T>(s: Seq<T>, i: int, j: int) -> Seq<T> {
    s.update(i, s[j]).update(j, s[i])
}

/// `a` and `b` hold the same values, each the same number of times.
pub open spec fn same_elements<T>(a: Seq<T>, b: Seq<T>) -> bool {
    a.to_multiset() =~= b.to_multiset()
}

/// The elements of `s` that compare equal to `x`, in the order in which they
/// stand in `s`.
pub open spec fn class_of<T: Ord>(s: Seq<T>, x: T) -> Seq<T> {
    s.filter(|y: T| equiv(y, x))
}

/// Elements that compare equal stand in `a` in the same order as in `b`.
pub open spec fn same_order_of_equals<T: Ord>(a: Seq<T>, b: Seq<T>) -> bool {
    forall|x: T| #[trigger] class_of(a, x) == class_of(b, x)
}

/// `out` is `inp` rearranged into nondecreasing order.
pub open spec fn is_sort_of<T: Ord>(out: Seq<T>, inp: Seq<T>) -> bool {
    &&& sorted(out)
    &&& same_elements(out, inp)
}

/// `out` is `inp` rearranged into nondecreasing order, and elements that
/// compare equal have kept their order.
pub open spec fn is_stable_sort_of<T: Ord>(out: Seq<T>, inp: Seq<T>) -> bool {
    &&& is_sort_of(out, inp)
    &&& same_order_of_equals(out, inp)
}

/// Exchanging two elements changes neither the length nor the values held.
pub proof fn lemma_swap_same_elements<T>(s: Seq<T>, i: int, j: int)
    requires
        0 <= i < s.len(),
        0 <= j < s.len(),
    ensures
        swapped(s, i, j).len() == s.len(),
        same_elements(swapped(s, i, j), s),
{
    broadcast use vstd::multiset::group_multiset_axioms;

    let t = s.update(i, s[j]);
    to_multiset_update(s, i, s[j]);
    to_multiset_update(t, j, s[i]);
    to_multiset_contains(s, s[i]);
    to_multiset_contains(s, s[j]);
    assert(swapped(s, i, j).to_multiset() =~= s.to_multiset());
}

/// Sequences with the same values have the same length.
pub proof fn lemma_same_elements_len<T>(a: Seq<T>, b: Seq<T>)
    requires
        same_elements(a, b),
    ensures
        a.len() == b.len(),
{
    to_multiset_len(a);
    to_multiset_len(b);
}

/// Sequences with the same values contain the same values.
pub proof fn lemma_same_elements_contains<T>(a: Seq<T>, b: Seq<T>, x: T)
    requires
        same_elements(a, b),
    ensures
        a.contains(x) == b.contains(x),
{
    to_multiset_contains(a, x);
    to_multiset_contains(b, x);
}

/// A bound on every element of a sequence is a bound on every element of each
/// of its rearrangements.
pub proof fn lemma_same_elements_bounds<T: Ord>(a: Seq<T>, b: Seq<T>, x: T)
    requires
        same_elements(a, b),
    ensures
        gt_all(x, a) == gt_all(x, b),
        ge_all(x, a) == ge_all(x, b),
        lt_all(x, a) == lt_all(x, b),
        le_all(x, a) == le_all(x, b),
{
    assert forall|i: int| 0 <= i < a.len() implies b.contains(#[trigger] a[i]) by {
        lemma_same_elements_contains(a, b, a[i]);
        assert(a.contains(a[i]));
    }
    assert forall|i: int| 0 <= i < b.len() implies a.contains(#[trigger] b[i]) by {
        lemma_same_elements_contains(a, b, b[i]);
        assert(b.contains(b[i]));
    }
    lemma_bounds_one_way(a, b, x);
    lemma_bounds_one_way(b, a, x);
}

proof fn lemma_bounds_one_way<T: Ord>(a: Seq<T>, b: Seq<T>, x: T)
    requires
        forall|i: int| 0 <= i < a.len() ==> b.contains(#[trigger] a[i]),
    ensures
        gt_all(x, b) ==> gt_all(x, a),
        ge_all(x, b) ==> ge_all(x, a),
        lt_all(x, b) ==> lt_all(x, a),
        le_all(x, b) ==> le_all(x, a),
{
    assert forall|i: int| 0 <= i < a.len() implies exists|k: int|
        0 <= k < b.len() && b[k] == #[trigger] a[i] by {
        assert(b.contains(a[i]));
    }
    assert forall|i: int| 0 <= i < a.len() implies (gt_all(x, b) ==> crate::sorting::order::lt(
        #[trigger] a[i],
        x,
    )) && (ge_all(x, b) ==> crate::sorting::order::le(a[i], x)) && (lt_all(x, b)
        ==> crate::sorting::order::lt(x, a[i])) && (le_all(x, b) ==> crate::sorting::order::le(
        x,
        a[i],
    )) by {
        let k = choose|k: int| 0 <= k < b.len() && b[k] == a[i];
        assert(b[k] == a[i]);
    }
}

/// Exchanging two neighbours that do not compare equal keeps the order of the
/// elements that do.
pub proof fn lemma_swap_neighbours_keeps_order_of_equals<T: Ord>(s: Seq<T>, i: int)
    requires
        total_order::<T>(),
        0 <= i,
        i + 1 < s.len(),
        !equiv(s[i], s[i + 1]),
    ensures
        same_order_of_equals(swapped(s, i, i + 1), s),
{
    lemma_total_order::<T>();
    let t = swapped(s, i, i + 1);
    let pre = s.subrange(0, i);
    let post = s.subrange(i + 2, s.len() as int);
    let mid = seq![s[i], s[i + 1]];
    let dim = seq![s[i + 1], s[i]];
    assert(s =~= pre + mid + post);
    assert(t =~= pre + dim + post);
    assert forall|x: T| #[trigger] class_of(t, x) == class_of(s, x) by {
        let p = |y: T| equiv(y, x);
        Seq::filter_distributes_over_add(pre, mid, p);
        Seq::filter_distributes_over_add(pre + mid, post, p);
        Seq::filter_distributes_over_add(pre, dim, p);
        Seq::filter_distributes_over_add(pre + dim, post, p);
        assert(mid.filter(p) =~= dim.filter(p)) by {
            reveal_with_fuel(Seq::filter, 3);
            assert(mid.drop_last() =~= seq![s[i]]);
            assert(dim.drop_last() =~= seq![s[i + 1]]);
            assert(seq![s[i]].drop_last() =~= Seq::<T>::empty());
            assert(seq![s[i + 1]].drop_last() =~= Seq::<T>::empty());
            assert(!(p(s[i]) && p(s[i + 1])));
        }
    }
}

/// Two sequences that differ only between `lo` and `hi`, and hold the same
/// values there, hold the same values.
pub proof fn lemma_same_elements_within<T>(a: Seq<T>, b: Seq<T>, lo: int, hi: int)
    requires
        a.len() == b.len(),
        0 <= lo <= hi <= a.len(),
        forall|p: int| 0 <= p < lo || hi <= p < a.len() ==> a[p] == b[p],
        same_elements(a.subrange(lo, hi), b.subrange(lo, hi)),
    ensures
        same_elements(a, b),
{
    let n = a.len() as int;
    assert(a =~= a.subrange(0, lo) + (a.subrange(lo, hi) + a.subrange(hi, n)));
    assert(b =~= b.subrange(0, lo) + (b.subrange(lo, hi) + b.subrange(hi, n)));
    assert(a.subrange(0, lo) =~= b.subrange(0, lo));
    assert(a.subrange(hi, n) =~= b.subrange(hi, n));
    lemma_multiset_commutative(a.subrange(0, lo), a.subrange(lo, hi) + a.subrange(hi, n));
    lemma_multiset_commutative(a.subrange(lo, hi), a.subrange(hi, n));
    lemma_multiset_commutative(b.subrange(0, lo), b.subrange(lo, hi) + b.subrange(hi, n));
    lemma_multiset_commutative(b.subrange(lo, hi), b.subrange(hi, n));
}

/// The elements that compare equal to `x` in `s` followed by `v`.
pub proof fn lemma_class_of_push<T: Ord>(s: Seq<T>, v: T, x: T)
    ensures
        class_of(s.push(v), x) == if equiv(v, x) {
            class_of(s, x).push(v)
        } else {
            class_of(s, x)
        },
{
    s.lemma_filter_push(v, |y: T| equiv(y, x));
}

/// The elements that compare equal to `x` in `a` followed by `b`.
pub proof fn lemma_class_of_add<T: Ord>(a: Seq<T>, b: Seq<T>, x: T)
    ensures
        class_of(a + b, x) == class_of(a, x) + class_of(b, x),
{
    Seq::filter_distributes_over_add(a, b, |y: T| equiv(y, x));
}

/// Where no element of `s` compares equal to `x`, its class is empty.
pub proof fn lemma_class_of_none<T: Ord>(s: Seq<T>, x: T)
    requires
        forall|i: int| 0 <= i < s.len() ==> !equiv(#[trigger] s[i], x),
    ensures
        class_of(s, x) == Seq::<T>::empty(),
{
    let p = |y: T| equiv(y, x);
    assert(s.all(|y: T| !p(y)));
    s.lemma_all_neg_filter_empty(p);
    assert(s.filter(p) =~= Seq::<T>::empty());
}

} // verus!
