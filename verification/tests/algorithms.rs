use std::cmp::Ordering;

use safe_dsa::sorting::heap_sort::{is_heap, sift_down};
use safe_dsa::sorting::helper::{ge_seg, is_sorted, le_seg};
use safe_dsa::sorting::merge_sort::{merge, mergesort};
use safe_dsa::sorting::quick_sort::partition;
use safe_dsa::sorting::shell_sort_a003462::{gap_sequence, initial_gap, next_gap};
use safe_dsa::sorting::slices::{clone_into_range, clone_range};
use safe_dsa::sorting::{
    bubble_sort, heap_sort, insertion_sort, merge_sort, quick_sort, selection_sort,
    shell_sort_a003462,
};

/// A value ordered by its key alone; the tag tells equal keys apart.
#[derive(Debug, Clone, Copy)]
struct Tagged(i32, char);

impl PartialEq for Tagged {
    fn eq(&self, other: &Self) -> bool {
        self.0 == other.0
    }
}

impl Eq for Tagged {}

impl PartialOrd for Tagged {
    fn partial_cmp(&self, other: &Self) -> Option<Ordering> {
        Some(self.cmp(other))
    }
}

impl Ord for Tagged {
    fn cmp(&self, other: &Self) -> Ordering {
        self.0.cmp(&other.0)
    }
}

fn pairs(v: &[Tagged]) -> Vec<(i32, char)> {
    v.iter().map(|t| (t.0, t.1)).collect()
}

fn all_sorts() -> Vec<(&'static str, fn(&mut [i64]))> {
    vec![
        ("bubble", bubble_sort::sort::<i64>),
        ("selection", selection_sort::sort::<i64>),
        ("insertion", insertion_sort::sort::<i64>),
        ("shell", shell_sort_a003462::sort::<i64>),
        ("heap", heap_sort::sort::<i64>),
        ("merge", merge_sort::sort::<i64>),
        ("quick", quick_sort::sort::<i64>),
    ]
}

#[test]
fn every_sort_leaves_empty_input_empty() {
    for (name, sort) in all_sorts() {
        let mut v: Vec<i64> = vec![];
        sort(&mut v);
        assert_eq!(v, Vec::<i64>::new(), "{}", name);
    }
}

#[test]
fn every_sort_keeps_a_single_element() {
    for (name, sort) in all_sorts() {
        let mut v = vec![9i64];
        sort(&mut v);
        assert_eq!(v, vec![9], "{}", name);
    }
}

#[test]
fn every_sort_keeps_two_equal_elements() {
    for (name, sort) in all_sorts() {
        let mut v = vec![5i64, 5];
        sort(&mut v);
        assert_eq!(v, vec![5, 5], "{}", name);
    }
}

#[test]
fn every_sort_orders_three_elements() {
    for (name, sort) in all_sorts() {
        let mut v = vec![3i64, 1, 2];
        sort(&mut v);
        assert_eq!(v, vec![1, 2, 3], "{}", name);
    }
}

#[test]
fn every_sort_handles_the_extremes() {
    for (name, sort) in all_sorts() {
        let mut v = vec![i64::MAX, 0, i64::MIN, -1, 1, i64::MIN, i64::MAX, 2, -2, 0];
        sort(&mut v);
        assert_eq!(
            v,
            vec![i64::MIN, i64::MIN, -2, -1, 0, 0, 1, 2, i64::MAX, i64::MAX],
            "{}",
            name
        );
    }
}

#[test]
fn every_sort_gives_a_sorted_permutation() {
    let input = vec![4i64, -7, 4, 0, 12, -7, 3, 3, 3, 99, -100, 5];
    let mut expected = input.clone();
    expected.sort();
    for (name, sort) in all_sorts() {
        let mut v = input.clone();
        sort(&mut v);
        assert!(is_sorted(&v), "{}", name);
        assert_eq!(v, expected, "{}", name);
    }
}

#[test]
fn every_sort_is_idempotent() {
    let input = vec![8i64, 1, 6, 1, 9, -3, 8, 2];
    for (name, sort) in all_sorts() {
        let mut once = input.clone();
        sort(&mut once);
        let mut twice = once.clone();
        sort(&mut twice);
        assert_eq!(twice, once, "{}", name);
    }
}

#[test]
fn every_sort_stays_within_the_range_it_is_given() {
    for (name, sort) in all_sorts() {
        let mut v = vec![5i64, 3, 4, 1, 2];
        sort(&mut v[1..4]);
        assert_eq!(v, vec![5, 1, 3, 4, 2], "{}", name);
    }
}

#[test]
fn bubble_sort_is_stable() {
    let mut v = vec![Tagged(1, 'a'), Tagged(1, 'b')];
    bubble_sort::sort(&mut v);
    assert_eq!(pairs(&v), vec![(1, 'a'), (1, 'b')]);
    let mut w = vec![Tagged(2, 'a'), Tagged(1, 'b'), Tagged(2, 'c'), Tagged(1, 'd'), Tagged(2, 'e')];
    bubble_sort::sort(&mut w);
    assert_eq!(pairs(&w), vec![(1, 'b'), (1, 'd'), (2, 'a'), (2, 'c'), (2, 'e')]);
}

#[test]
fn insertion_sort_is_stable() {
    let mut v = vec![Tagged(1, 'a'), Tagged(1, 'b')];
    insertion_sort::sort(&mut v);
    assert_eq!(pairs(&v), vec![(1, 'a'), (1, 'b')]);
    let mut w = vec![Tagged(2, 'a'), Tagged(1, 'b'), Tagged(2, 'c'), Tagged(1, 'd'), Tagged(2, 'e')];
    insertion_sort::sort(&mut w);
    assert_eq!(pairs(&w), vec![(1, 'b'), (1, 'd'), (2, 'a'), (2, 'c'), (2, 'e')]);
}

#[test]
fn merge_sort_is_stable() {
    let mut v = vec![Tagged(1, 'a'), Tagged(1, 'b')];
    merge_sort::sort(&mut v);
    assert_eq!(pairs(&v), vec![(1, 'a'), (1, 'b')]);
    let mut w = vec![Tagged(2, 'a'), Tagged(1, 'b'), Tagged(2, 'c'), Tagged(1, 'd'), Tagged(2, 'e')];
    merge_sort::sort(&mut w);
    assert_eq!(pairs(&w), vec![(1, 'b'), (1, 'd'), (2, 'a'), (2, 'c'), (2, 'e')]);
}

#[test]
fn sorts_work_on_strings() {
    let mut v = vec![String::from("dog"), String::from("ant"), String::from("cat")];
    quick_sort::sort(&mut v);
    assert_eq!(v, vec!["ant", "cat", "dog"]);
    let mut w = vec!["pear", "apple", "fig"];
    heap_sort::sort(&mut w);
    assert_eq!(w, vec!["apple", "fig", "pear"]);
}

#[test]
fn shell_gaps_for_ten_elements() {
    assert_eq!(gap_sequence(10), vec![4, 1]);
}

#[test]
fn shell_gap_sequences() {
    assert_eq!(gap_sequence(0), vec![1]);
    assert_eq!(gap_sequence(5), vec![1]);
    assert_eq!(gap_sequence(6), vec![4, 1]);
    assert_eq!(gap_sequence(100), vec![40, 13, 4, 1]);
    assert_eq!(gap_sequence(1000), vec![364, 121, 40, 13, 4, 1]);
}

#[test]
fn shell_next_gap_is_a_third() {
    assert_eq!(next_gap(40), 13);
    assert_eq!(next_gap(13), 4);
    assert_eq!(next_gap(4), 1);
    assert_eq!(next_gap(1), 0);
}

#[test]
fn shell_first_gap_values() {
    assert_eq!(initial_gap(0), 1);
    assert_eq!(initial_gap(1), 1);
    assert_eq!(initial_gap(5), 1);
    assert_eq!(initial_gap(6), 4);
    assert_eq!(initial_gap(14), 4);
    assert_eq!(initial_gap(15), 13);
    assert_eq!(initial_gap(100), 40);
    assert_eq!(initial_gap(1000), 364);
}

#[test]
fn heap_is_recognised() {
    assert!(is_heap::<i32>(&[]));
    assert!(is_heap(&[1]));
    assert!(is_heap(&[9, 7, 8, 1, 7, 8, 2]));
    assert!(is_heap(&[3, 3, 3]));
    assert!(!is_heap(&[1, 2]));
    assert!(!is_heap(&[9, 7, 8, 1, 8]));
}

#[test]
fn sift_down_restores_the_heap() {
    let mut v = vec![1, 9, 8, 4, 7, 6, 5];
    sift_down(&mut v, 0, 6);
    assert_eq!(v, vec![9, 7, 8, 4, 1, 6, 5]);
    assert!(is_heap(&v));
}

#[test]
fn sift_down_takes_the_greater_child_and_stops() {
    let mut v = vec![5, 3, 8, 1, 2, 9, 7];
    sift_down(&mut v, 0, 6);
    assert_eq!(v, vec![8, 3, 9, 1, 2, 5, 7]);
    let mut w = vec![9, 1, 2];
    sift_down(&mut w, 0, 2);
    assert_eq!(w, vec![9, 1, 2]);
}

#[test]
fn sift_down_stays_within_its_bounds() {
    let mut v = vec![0, 1, 50, 60, 70];
    sift_down(&mut v, 1, 3);
    assert_eq!(v, vec![0, 60, 50, 1, 70]);
    let mut w = vec![1, 2, 3];
    sift_down(&mut w, 0, 0);
    assert_eq!(w, vec![1, 2, 3]);
}

#[test]
fn merge_takes_ties_from_the_first() {
    let a = vec![Tagged(1, 'a'), Tagged(2, 'b'), Tagged(2, 'c')];
    let b = vec![Tagged(0, 'x'), Tagged(2, 'y'), Tagged(3, 'z')];
    let mut result = vec![Tagged(-1, '?'); 7];
    merge(&a, &b, &mut result);
    assert_eq!(
        pairs(&result),
        vec![(0, 'x'), (1, 'a'), (2, 'b'), (2, 'c'), (2, 'y'), (3, 'z'), (-1, '?')]
    );
}

#[test]
fn merge_with_an_empty_side() {
    let a: Vec<i32> = vec![];
    let b = vec![1, 2, 3];
    let mut result = vec![0; 3];
    merge(&a, &b, &mut result);
    assert_eq!(result, vec![1, 2, 3]);
    let mut again = vec![0; 3];
    merge(&b, &a, &mut again);
    assert_eq!(again, vec![1, 2, 3]);
}

#[test]
fn mergesort_sorts_only_its_range() {
    let mut v = vec![5, 3, 4, 1, 2];
    mergesort(&mut v, 1, 4);
    assert_eq!(v, vec![5, 1, 3, 4, 2]);
    mergesort(&mut v, 2, 2);
    assert_eq!(v, vec![5, 1, 3, 4, 2]);
    mergesort(&mut v, 0, 5);
    assert_eq!(v, vec![1, 2, 3, 4, 5]);
}

#[test]
fn partition_places_the_pivot() {
    let mut v = vec![7, 2, 9, 4, 1, 8];
    let split = partition(&mut v, 3);
    assert_eq!(split, 2);
    assert_eq!(v[split], 4);
    assert_eq!(v, vec![1, 2, 4, 7, 8, 9]);
    assert!(ge_seg(&v[split], &v[..split]));
    assert!(le_seg(&v[split], &v[split..]));
}

#[test]
fn partition_of_equal_elements() {
    let mut v = vec![3, 3, 3, 3];
    let split = partition(&mut v, 2);
    assert_eq!(split, 3);
    assert_eq!(v, vec![3, 3, 3, 3]);
    let mut one = vec![1];
    assert_eq!(partition(&mut one, 0), 0);
}

#[test]
fn clone_range_copies_the_range() {
    let v = vec![String::from("a"), String::from("b"), String::from("c"), String::from("d")];
    assert_eq!(clone_range(&v, 1, 3), vec!["b", "c"]);
    assert_eq!(clone_range(&v, 2, 2), Vec::<String>::new());
}

#[test]
fn clone_into_range_overwrites_the_range() {
    let mut v = vec![1, 2, 3, 4, 5];
    clone_into_range(&mut v, 1, &[8, 9]);
    assert_eq!(v, vec![1, 8, 9, 4, 5]);
    clone_into_range(&mut v, 5, &[]);
    assert_eq!(v, vec![1, 8, 9, 4, 5]);
}

#[test]
fn heap_sort_may_reorder_equal_elements() {
    let mut v = vec![Tagged(1, 'a'), Tagged(1, 'b')];
    heap_sort::sort(&mut v);
    assert_eq!(pairs(&v), vec![(1, 'b'), (1, 'a')]);
    heap_sort::sort(&mut v);
    assert_eq!(pairs(&v), vec![(1, 'a'), (1, 'b')]);
}

#[test]
fn unstable_sorts_still_sort_tagged_elements() {
    let input = vec![Tagged(3, 'a'), Tagged(1, 'b'), Tagged(3, 'c'), Tagged(2, 'd'), Tagged(1, 'e')];
    let sorts: Vec<fn(&mut [Tagged])> = vec![
        selection_sort::sort::<Tagged>,
        shell_sort_a003462::sort::<Tagged>,
        heap_sort::sort::<Tagged>,
        quick_sort::sort::<Tagged>,
    ];
    for sort in sorts {
        let mut v = input.clone();
        sort(&mut v);
        let keys: Vec<i32> = v.iter().map(|t| t.0).collect();
        assert_eq!(keys, vec![1, 1, 2, 3, 3]);
        let mut tags: Vec<char> = v.iter().map(|t| t.1).collect();
        tags.sort();
        assert_eq!(tags, vec!['a', 'b', 'c', 'd', 'e']);
    }
}

#[test]
fn sift_down_exchanges_with_the_greater_child() {
    let mut v = vec![1, 2, 3];
    sift_down(&mut v, 0, 2);
    assert_eq!(v, vec![3, 2, 1]);
    let mut w = vec![1, 2, 9];
    sift_down(&mut w, 0, 1);
    assert_eq!(w, vec![2, 1, 9]);
}

#[test]
fn sift_down_takes_the_left_child_on_a_tie() {
    let mut v = vec![Tagged(1, 'p'), Tagged(5, 'l'), Tagged(5, 'r')];
    sift_down(&mut v, 0, 2);
    assert_eq!(pairs(&v), vec![(5, 'l'), (1, 'p'), (5, 'r')]);
}

#[test]
fn sift_down_leaves_what_is_outside_the_subtree() {
    let mut v = vec![0, 1, 9, 5, 6, 2, 3];
    sift_down(&mut v, 1, 6);
    assert_eq!(v, vec![0, 6, 9, 5, 1, 2, 3]);
}

#[test]
fn partition_follows_the_two_cursors() {
    let mut v = vec![4, 1, 3, 5, 2];
    let split = partition(&mut v, 2);
    assert_eq!(split, 2);
    assert_eq!(v, vec![2, 1, 3, 5, 4]);
}

#[test]
fn merge_takes_the_smaller_front_each_time() {
    let a = vec![3, 1];
    let b = vec![2];
    let mut result = vec![0; 3];
    merge(&a, &b, &mut result);
    assert_eq!(result, vec![2, 3, 1]);
    let c = vec![1, 4, 6];
    let d = vec![2, 3, 5, 7];
    let mut all = vec![0; 7];
    merge(&c, &d, &mut all);
    assert_eq!(all, vec![1, 2, 3, 4, 5, 6, 7]);
}
