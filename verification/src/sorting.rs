pub mod order;
pub mod helper;
pub mod permutation;
pub mod slices;
pub mod laws;
pub mod bubble_sort;
pub mod selection_sort;
pub mod insertion_sort;
pub mod shell_sort_a003462;
pub mod heap_sort;
pub mod merge_sort;
pub mod quick_sort;
pub mod sort_test_helper;
pub mod conformance;
