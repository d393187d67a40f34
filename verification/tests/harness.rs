use safe_dsa::sorting::merge_sort;
use safe_dsa::sorting::sort_test_helper::{
    apply_to_range, pseudo_random_vec, run_and_compare_full, run_and_compare_partial,
    same_integers, test_all_same, test_already_sorted, test_duplicates_dense, test_empty,
    test_extreme_values, test_many_small_arrays, test_negatives_and_mixed,
    test_nearly_sorted_one_swap, test_partial_edges, test_partial_subslice_middle,
    test_randomish_medium, test_randomish_small, test_reverse_order, test_rotated_sorted,
    test_singleton, test_sort, test_two_elements, test_zigzag_pattern, xorshift64star, Failure,
};

fn library_sort(arr: &mut [isize]) {
    arr.sort();
}

fn does_nothing(_arr: &mut [isize]) {}

fn reverses(arr: &mut [isize]) {
    arr.reverse();
}

/// Sorts what is out of order, and disturbs what is in order already.
fn restless(arr: &mut [isize]) {
    if arr.windows(2).all(|w| w[0] <= w[1]) {
        arr.reverse();
    } else {
        arr.sort();
    }
}

/// Sorts all but the first element.
fn skips_the_first(arr: &mut [isize]) {
    if arr.len() > 1 {
        arr[1..].sort();
    }
}

#[test]
fn the_library_sort_passes_the_battery() {
    assert_eq!(test_sort(library_sort), Ok(()));
}

#[test]
fn a_closure_can_be_a_candidate() {
    assert_eq!(test_sort(|arr: &mut [isize]| arr.sort_unstable()), Ok(()));
}

#[test]
fn a_candidate_that_does_nothing_fails_the_battery() {
    assert_eq!(test_sort(does_nothing), Err(Failure::Mismatch));
}

#[test]
fn a_candidate_that_reverses_fails_the_battery() {
    assert_eq!(test_sort(reverses), Err(Failure::Mismatch));
}

#[test]
fn a_candidate_that_skips_an_element_fails_the_battery() {
    assert_eq!(test_sort(skips_the_first), Err(Failure::Mismatch));
}

#[test]
fn full_run_accepts_a_correct_sort() {
    let mut arr = vec![3isize, 1, 2];
    assert_eq!(run_and_compare_full(library_sort, &mut arr), Ok(()));
    assert_eq!(arr, vec![1, 2, 3]);
}

#[test]
fn full_run_reports_a_mismatch() {
    let mut arr = vec![2isize, 1];
    assert_eq!(run_and_compare_full(does_nothing, &mut arr), Err(Failure::Mismatch));
    assert_eq!(arr, vec![2, 1]);
}

#[test]
fn full_run_reports_a_sort_that_is_not_idempotent() {
    let mut arr = vec![2isize, 1, 3];
    assert_eq!(run_and_compare_full(restless, &mut arr), Err(Failure::NotIdempotent));
    assert_eq!(arr, vec![1, 2, 3]);
}

#[test]
fn full_run_on_sorted_input_catches_a_restless_sort() {
    let mut arr = vec![1isize, 2];
    assert_eq!(run_and_compare_full(restless, &mut arr), Err(Failure::Mismatch));
}

#[test]
fn partial_run_sorts_the_range_only() {
    let mut arr = vec![5isize, 3, 4, 1, 2];
    assert_eq!(run_and_compare_partial(merge_sort::sort::<isize>, &mut arr, 1, 4), Ok(()));
    assert_eq!(arr, vec![5, 1, 3, 4, 2]);
}

#[test]
fn partial_run_on_an_empty_range() {
    let mut arr = vec![3isize, 2, 1];
    assert_eq!(run_and_compare_partial(does_nothing, &mut arr, 1, 1), Ok(()));
    assert_eq!(run_and_compare_partial(library_sort, &mut arr, 3, 3), Ok(()));
    assert_eq!(arr, vec![3, 2, 1]);
}

#[test]
fn partial_run_reports_a_mismatch() {
    let mut arr = vec![1isize, 9, 8, 7, 2];
    assert_eq!(run_and_compare_partial(does_nothing, &mut arr, 1, 4), Err(Failure::Mismatch));
    assert_eq!(arr, vec![1, 9, 8, 7, 2]);
}

#[test]
fn partial_run_reports_a_sort_that_is_not_idempotent() {
    let mut arr = vec![0isize, 9, 8, 7, 0];
    assert_eq!(
        run_and_compare_partial(restless, &mut arr, 1, 4),
        Err(Failure::NotIdempotent)
    );
    assert_eq!(arr, vec![0, 7, 8, 9, 0]);
}

#[test]
fn apply_to_range_leaves_the_rest() {
    let mut arr = vec![9isize, 8, 7, 6, 5];
    apply_to_range(library_sort, &mut arr, 1, 3);
    assert_eq!(arr, vec![9, 7, 8, 6, 5]);
    apply_to_range(reverses, &mut arr, 0, 5);
    assert_eq!(arr, vec![5, 6, 8, 7, 9]);
}

#[test]
fn same_integers_compares_length_and_values() {
    assert!(same_integers(&[], &[]));
    assert!(same_integers(&[1, 2, 3], &[1, 2, 3]));
    assert!(!same_integers(&[1, 2, 3], &[1, 2]));
    assert!(!same_integers(&[1, 2, 3], &[1, 3, 2]));
}

#[test]
fn generator_step_has_the_expected_value() {
    let mut state = 1u64;
    assert_eq!(xorshift64star(&mut state), 5180492295206395165);
    assert_eq!(state, 33554433);
}

#[test]
fn generator_gives_the_expected_values() {
    assert_eq!(
        pseudo_random_vec(5, 0xDEADBEEFCAFEBABE, 2000),
        vec![-544, -477, -1500, 123, 431]
    );
    assert_eq!(pseudo_random_vec(3, 0xBEEF, 500), vec![198, 151, -467]);
    assert_eq!(pseudo_random_vec(4, 7, 0), vec![0, 0, 0, 0]);
    assert_eq!(pseudo_random_vec(0, 7, 10), Vec::<isize>::new());
}

#[test]
fn generator_is_deterministic_and_bounded() {
    let a = pseudo_random_vec(1024, 0x1234_5678_9ABC_DEF0, 50_000);
    let b = pseudo_random_vec(1024, 0x1234_5678_9ABC_DEF0, 50_000);
    assert_eq!(a, b);
    assert_eq!(a.len(), 1024);
    assert!(a.iter().all(|v| -50_000 <= *v && *v <= 50_000));
    let wide = pseudo_random_vec(16, 42, isize::MAX);
    assert_eq!(wide.len(), 16);
}

#[test]
fn each_scenario_accepts_a_correct_sort() {
    assert_eq!(test_empty(library_sort), Ok(()));
    assert_eq!(test_singleton(library_sort), Ok(()));
    assert_eq!(test_two_elements(library_sort), Ok(()));
    assert_eq!(test_all_same(library_sort), Ok(()));
    assert_eq!(test_already_sorted(library_sort), Ok(()));
    assert_eq!(test_reverse_order(library_sort), Ok(()));
    assert_eq!(test_duplicates_dense(library_sort), Ok(()));
    assert_eq!(test_negatives_and_mixed(library_sort), Ok(()));
    assert_eq!(test_extreme_values(library_sort), Ok(()));
    assert_eq!(test_nearly_sorted_one_swap(library_sort), Ok(()));
    assert_eq!(test_rotated_sorted(library_sort), Ok(()));
    assert_eq!(test_zigzag_pattern(library_sort), Ok(()));
    assert_eq!(test_randomish_small(library_sort), Ok(()));
    assert_eq!(test_randomish_medium(library_sort), Ok(()));
    assert_eq!(test_partial_subslice_middle(library_sort), Ok(()));
    assert_eq!(test_partial_edges(library_sort), Ok(()));
    assert_eq!(test_many_small_arrays(library_sort), Ok(()));
}

#[test]
fn scenarios_catch_a_candidate_that_does_nothing() {
    assert_eq!(test_empty(does_nothing), Ok(()));
    assert_eq!(test_singleton(does_nothing), Ok(()));
    assert_eq!(test_all_same(does_nothing), Ok(()));
    assert_eq!(test_already_sorted(does_nothing), Ok(()));
    assert_eq!(test_two_elements(does_nothing), Err(Failure::Mismatch));
    assert_eq!(test_reverse_order(does_nothing), Err(Failure::Mismatch));
    assert_eq!(test_duplicates_dense(does_nothing), Err(Failure::Mismatch));
    assert_eq!(test_negatives_and_mixed(does_nothing), Err(Failure::Mismatch));
    assert_eq!(test_extreme_values(does_nothing), Err(Failure::Mismatch));
    assert_eq!(test_nearly_sorted_one_swap(does_nothing), Err(Failure::Mismatch));
    assert_eq!(test_rotated_sorted(does_nothing), Err(Failure::Mismatch));
    assert_eq!(test_zigzag_pattern(does_nothing), Err(Failure::Mismatch));
    assert_eq!(test_randomish_small(does_nothing), Err(Failure::Mismatch));
    assert_eq!(test_randomish_medium(does_nothing), Err(Failure::Mismatch));
    assert_eq!(test_partial_subslice_middle(does_nothing), Err(Failure::Mismatch));
    assert_eq!(test_partial_edges(does_nothing), Err(Failure::Mismatch));
    assert_eq!(test_many_small_arrays(does_nothing), Err(Failure::Mismatch));
}

#[test]
fn scenarios_catch_a_sort_that_is_not_idempotent() {
    assert_eq!(test_reverse_order(restless), Err(Failure::NotIdempotent));
    assert_eq!(test_already_sorted(restless), Err(Failure::Mismatch));
}
