use orst::{BubbleSort, HeapSort, MergeSort, QuickSort, Sorter, StdSorter, StdUnstableSorter};

#[test]
fn bubblesort_it_works() {
    let mut things: Vec<i32> = vec![4, 2, 5, 3, 1];
    BubbleSort.sort(&mut things);
    assert_eq!(things, vec![1, 2, 3, 4, 5]);
}

#[test]
fn arbitrary_array() {
    let mut slice: Vec<i32> = vec![1, 5, 4, 2, 3];
    HeapSort.sort(&mut slice);
    assert_eq!(slice, vec![1, 2, 3, 4, 5]);
}

#[test]
fn sorted_array() {
    let mut slice: Vec<i32> = (1..10).into_iter().collect::<Vec<_>>();
    HeapSort.sort(&mut slice);
    assert_eq!(slice, (1..10).into_iter().collect::<Vec<_>>());
}

#[test]
fn very_unsorted() {
    let mut slice: Vec<i32> = (1..10000).into_iter().rev().collect::<Vec<_>>();
    HeapSort.sort(&mut slice);
    assert_eq!(slice, (1..10000).into_iter().collect::<Vec<_>>());
}

#[test]
fn simple_edge_cases() {
    let mut one: Vec<i32> = vec![1];
    HeapSort.sort(&mut one);
    assert_eq!(one, vec![1]);

    let mut two: Vec<i32> = vec![1, 2];
    HeapSort.sort(&mut two);
    assert_eq!(two, vec![1, 2]);

    let mut two: Vec<i32> = vec![2, 1];
    HeapSort.sort(&mut two);
    assert_eq!(two, vec![1, 2]);

    let mut three: Vec<i32> = vec![3, 1, 2];
    HeapSort.sort(&mut three);
    assert_eq!(three, vec![1, 2, 3]);
}

#[test]
fn std_works() {
    let mut things: Vec<i32> = vec![4, 2, 3, 1];
    StdSorter.sort(&mut things);
    assert_eq!(things, vec![1, 2, 3, 4]);
}

#[test]
fn stdunstable_works() {
    let mut things: Vec<i32> = vec![4, 2, 3, 1];
    StdUnstableSorter.sort(&mut things);
    assert_eq!(things, vec![1, 2, 3, 4]);
}

#[test]
fn mergesort_it_works() {
    let mut things: Vec<i32> = vec![4, 2, 5, 3, 1];
    MergeSort.sort(&mut things);
    assert_eq!(things, vec![1, 2, 3, 4, 5]);
}

#[test]
fn edge_cases() {
    let mut empty: Vec<u32> = vec![];
    MergeSort.sort(&mut empty);
    assert_eq!(empty, vec![]);
    let mut one_element: Vec<u32> = vec![0];
    MergeSort.sort(&mut one_element);
    assert_eq!(one_element, vec![0]);
}

#[test]
fn quicksort_it_works() {
    let mut things: Vec<i32> = vec![4, 2, 5, 3, 1];
    QuickSort.sort(&mut things);
    assert_eq!(things, vec![1, 2, 3, 4, 5]);
}

#[test]
fn all_sorters_agree_with_duplicates() {
    let input: Vec<i32> = vec![3, 1, 2, 3, 0, -7, 3, 0];
    let expected: Vec<i32> = vec![-7, 0, 0, 1, 2, 3, 3, 3];

    let mut v = input.clone();
    BubbleSort.sort(&mut v);
    assert_eq!(v, expected);

    let mut v = input.clone();
    HeapSort.sort(&mut v);
    assert_eq!(v, expected);

    let mut v = input.clone();
    MergeSort.sort(&mut v);
    assert_eq!(v, expected);

    let mut v = input.clone();
    QuickSort.sort(&mut v);
    assert_eq!(v, expected);

    let mut v = input.clone();
    StdSorter.sort(&mut v);
    assert_eq!(v, expected);

    let mut v = input;
    StdUnstableSorter.sort(&mut v);
    assert_eq!(v, expected);
}

#[test]
fn sorting_sorted_input_is_identity() {
    let sorted_input: Vec<i32> = vec![-4, -1, 0, 2, 2, 9, 11];

    let mut v = sorted_input.clone();
    BubbleSort.sort(&mut v);
    assert_eq!(v, sorted_input);

    let mut v = sorted_input.clone();
    QuickSort.sort(&mut v);
    assert_eq!(v, sorted_input);

    let mut v = sorted_input.clone();
    MergeSort.sort(&mut v);
    assert_eq!(v, sorted_input);

    let mut v = sorted_input.clone();
    HeapSort.sort(&mut v);
    assert_eq!(v, sorted_input);
}

#[test]
fn empty_and_single_are_no_ops() {
    let mut empty: Vec<i32> = vec![];
    BubbleSort.sort(&mut empty);
    assert_eq!(empty, vec![]);
    QuickSort.sort(&mut empty);
    assert_eq!(empty, vec![]);

    let mut single: Vec<i32> = vec![42];
    QuickSort.sort(&mut single);
    assert_eq!(single, vec![42]);
    HeapSort.sort(&mut single);
    assert_eq!(single, vec![42]);
}

#[test]
fn quicksort_range_sorts_only_that_range() {
    let mut v: Vec<i32> = vec![9, 5, 4, 3, 8, 0];
    orst::quicksort(&mut v, 1, 4);
    assert_eq!(v, vec![9, 3, 4, 5, 8, 0]);
}

#[test]
fn heapify_two_elements() {
    let mut v: Vec<i32> = vec![1, 2];
    orst::heapify(&mut v, 2, 0);
    assert_eq!(v, vec![2, 1]);

    let mut v: Vec<i32> = vec![2, 1];
    orst::heapify(&mut v, 2, 0);
    assert_eq!(v, vec![2, 1]);
}

#[test]
fn merge_two_runs() {
    let mut v: Vec<i32> = vec![1, 4, 6, 2, 3, 5];
    MergeSort.merge(&mut v, 0, 3, 6);
    assert_eq!(v, vec![1, 2, 3, 4, 5, 6]);
}

#[test]
fn exchange_swaps() {
    let mut v: Vec<i32> = vec![1, 2, 3];
    orst::exchange(&mut v, 0, 2);
    assert_eq!(v, vec![3, 2, 1]);
}
