use safe_dsa::sorting::sort_test_helper::test_sort;
use safe_dsa::sorting::{
    bubble_sort, heap_sort, insertion_sort, merge_sort, quick_sort, selection_sort,
    shell_sort_a003462,
};

#[test]
fn test_bubble_sort() {
    assert_eq!(test_sort(bubble_sort::sort::<isize>), Ok(()));
}

#[test]
fn test_heap_sort() {
    assert_eq!(test_sort(heap_sort::sort::<isize>), Ok(()));
}

#[test]
fn test_insertion_sort() {
    assert_eq!(test_sort(insertion_sort::sort::<isize>), Ok(()));
}

#[test]
fn test_merge_sort() {
    assert_eq!(test_sort(merge_sort::sort::<isize>), Ok(()));
}

#[test]
fn test_quick_sort() {
    assert_eq!(test_sort(quick_sort::sort::<isize>), Ok(()));
}

#[test]
fn test_selection_sort() {
    assert_eq!(test_sort(selection_sort::sort::<isize>), Ok(()));
}

#[test]
fn test_shell_a003462_sort() {
    assert_eq!(test_sort(shell_sort_a003462::sort::<isize>), Ok(()));
}
