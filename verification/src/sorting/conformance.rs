use vstd::prelude::*;
use crate::sorting::permutation::is_sort_of;
use crate::sorting::slices::faithful_clone;
use crate::sorting::sort_test_helper::{accepts_all, lemma_integer_order};
use crate::sorting::{
    bubble_sort, heap_sort, insertion_sort, merge_sort, quick_sort, selection_sort,
    shell_sort_a003462,
};

verus! {

/// Cloning an integer gives that integer again.
pub proof fn lemma_integer_clone()
    ensures
        faithful_clone::<isize>(),
{
}

/// Bubble sort on integers is a candidate that the battery passes: it can be
/// called on every slice, and what it leaves is the slice sorted.
pub proof fn lemma_bubble_sort_conforms()
    ensures
        accepts_all(bubble_sort::sort::<isize>),
        forall|m: &mut [isize]| #[trigger]
            call_ensures(bubble_sort::sort::<isize>, (m,), ()) ==> is_sort_of(final(m)@, m@),
{
    lemma_integer_order();
    lemma_integer_clone();
}

/// Selection sort on integers is a candidate that the battery passes: it can be
/// called on every slice, and what it leaves is the slice sorted.
pub proof fn lemma_selection_sort_conforms()
    ensures
        accepts_all(selection_sort::sort::<isize>),
        forall|m: &mut [isize]| #[trigger]
            call_ensures(selection_sort::sort::<isize>, (m,), ()) ==> is_sort_of(final(m)@, m@),
{
    lemma_integer_order();
    lemma_integer_clone();
}

/// Insertion sort on integers is a candidate that the battery passes: it can be
/// called on every slice, and what it leaves is the slice sorted.
pub proof fn lemma_insertion_sort_conforms()
    ensures
        accepts_all(insertion_sort::sort::<isize>),
        forall|m: &mut [isize]| #[trigger]
            call_ensures(insertion_sort::sort::<isize>, (m,), ()) ==> is_sort_of(final(m)@, m@),
{
    lemma_integer_order();
    lemma_integer_clone();
}

/// Shell sort on integers is a candidate that the battery passes: it can be
/// called on every slice, and what it leaves is the slice sorted.
pub proof fn lemma_shell_sort_a003462_conforms()
    ensures
        accepts_all(shell_sort_a003462::sort::<isize>),
        forall|m: &mut [isize]| #[trigger]
            call_ensures(shell_sort_a003462::sort::<isize>, (m,), ()) ==> is_sort_of(final(m)@, m@),
{
    lemma_integer_order();
    lemma_integer_clone();
}

/// Heap sort on integers is a candidate that the battery passes: it can be
/// called on every slice, and what it leaves is the slice sorted.
pub proof fn lemma_heap_sort_conforms()
    ensures
        accepts_all(heap_sort::sort::<isize>),
        forall|m: &mut [isize]| #[trigger]
            call_ensures(heap_sort::sort::<isize>, (m,), ()) ==> is_sort_of(final(m)@, m@),
{
    lemma_integer_order();
    lemma_integer_clone();
}

/// Merge sort on integers is a candidate that the battery passes: it can be
/// called on every slice, and what it leaves is the slice sorted.
pub proof fn lemma_merge_sort_conforms()
    ensures
        accepts_all(merge_sort::sort::<isize>),
        forall|m: &mut [isize]| #[trigger]
            call_ensures(merge_sort::sort::<isize>, (m,), ()) ==> is_sort_of(final(m)@, m@),
{
    lemma_integer_order();
    lemma_integer_clone();
}

/// Quick sort on integers is a candidate that the battery passes: it can be
/// called on every slice, and what it leaves is the slice sorted.
pub proof fn lemma_quick_sort_conforms()
    ensures
        accepts_all(quick_sort::sort::<isize>),
        forall|m: &mut [isize]| #[trigger]
            call_ensures(quick_sort::sort::<isize>, (m,), ()) ==> is_sort_of(final(m)@, m@),
{
    lemma_integer_order();
    lemma_integer_clone();
}

} // verus!
