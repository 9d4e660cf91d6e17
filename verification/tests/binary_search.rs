use complib_rs::general::binary_search::{partition_point, BinarySearch};

#[test]
fn test_binary_search() {
    let vec: Vec<i64> = vec![1, 2, 4, 6, 7, 12, 54, 60];

    assert_eq!(partition_point(0, 3, |i: usize| vec[i] < 4), 2);
    assert_eq!(partition_point(0, 3, |i: usize| vec[i] <= 4), 3);
    assert_eq!(partition_point(0, 3, |i: usize| vec[i] < 100), 3);
    assert_eq!(partition_point(0, 7, |i: usize| vec[i] < 100), 7);
    assert_eq!(vec.lower_bound(&1), 0);
    assert_eq!(vec.lower_bound(&4), 2);
    assert_eq!(vec.lower_bound(&100), 8);
    assert_eq!(vec.upper_bound(&1), 1);
    assert_eq!(vec.upper_bound(&4), 3);
    assert_eq!(vec.upper_bound(&100), 8);
    assert_eq!(vec.equal_range(&6), (3, 4));
    assert_eq!(vec.equal_range(&5), (3, 3));
    assert_eq!(vec.equal_range(&100), (8, 8));
}

#[test]
fn test_binary_search_empty_and_duplicates() {
    let empty: Vec<i64> = vec![];
    assert_eq!(empty.lower_bound(&3), 0);
    assert_eq!(empty.upper_bound(&3), 0);
    assert_eq!(empty.equal_range(&3), (0, 0));

    let same: Vec<i64> = vec![4, 4, 4, 4];
    assert_eq!(same.lower_bound(&4), 0);
    assert_eq!(same.upper_bound(&4), 4);
    assert_eq!(same.equal_range(&4), (0, 4));
    assert_eq!(same.equal_range(&3), (0, 0));
    assert_eq!(same.equal_range(&5), (4, 4));
}

#[test]
fn test_partition_point_full_and_empty_ranges() {
    assert_eq!(partition_point(0, 10, |_i: usize| true), 10);
    assert_eq!(partition_point(0, 10, |_i: usize| false), 0);
    assert_eq!(partition_point(5, 5, |_i: usize| true), 5);
    assert_eq!(partition_point(3, 9, |i: usize| i < 6), 6);
}
