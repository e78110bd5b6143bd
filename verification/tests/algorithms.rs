use poker_odds::parallelism::algorithms::{
    into_parallel_map_with_parallelism, into_parallel_reduce_with_parallelism,
    parallel_map_with_parallelism, SubrangeIterator,
};
use std::ops::Range;

#[test]
fn test_subrangeiterator_no_modulus() {
    let ranges: Vec<Range<usize>> = SubrangeIterator::from_range(0..1_000_000, 4).collect();

    assert_eq!(
        ranges,
        vec![
            0..250_000,
            250_000..500_000,
            500_000..750_000,
            750_000..1_000_000
        ]
    );
}

#[test]
fn test_subrangeiterator_range_smaller_than_chunks() {
    let ranges: Vec<Range<usize>> = SubrangeIterator::from_range(0..2, 69).collect();

    assert_eq!(ranges, vec![0..1, 1..2]);
}

#[test]
fn test_subrangeiterator_range_equal_to_parallelism() {
    let ranges: Vec<Range<usize>> = SubrangeIterator::from_range(0..3, 3).collect();

    assert_eq!(ranges, vec![0..1, 1..2, 2..3]);
}

#[test]
fn test_subrangeiterator_uneven_split_1() {
    let ranges: Vec<Range<usize>> = SubrangeIterator::from_range(0..100, 3).collect();

    assert_eq!(ranges, vec![0..34, 34..67, 67..100]);
}

#[test]
fn test_subrangeiterator_uneven_split_2() {
    let ranges: Vec<Range<usize>> = SubrangeIterator::from_range(0..101, 3).collect();

    assert_eq!(ranges, vec![0..34, 34..68, 68..101]);
}

#[test]
fn test_subrangeiterator_empty_range() {
    let ranges: Vec<Range<usize>> = SubrangeIterator::from_range(0..0, 3).collect();

    assert_eq!(ranges, Vec::<Range<usize>>::new());
}

#[test]
fn test_subrangeiterator_one_chunk() {
    let ranges: Vec<Range<usize>> = SubrangeIterator::from_range(0..10, 1).collect();

    assert_eq!(ranges, vec![0..10]);
}

#[test]
fn test_parallel_map_with_parallelism() {
    let nums = (0..20).into_iter().collect::<Vec<i32>>();

    let doubled =
        parallel_map_with_parallelism(nums.as_slice(), 3, |x| x * 2);

    assert_eq!(
        doubled,
        vec![
            0, 2, 4, 6, 8, 10, 12, 14, 16, 18, 20, 22, 24, 26, 28, 30, 32, 34, 36, 38
        ]
    );
}

#[test]
fn test_into_parallel_map_with_parallelism() {
    let nums = (0..20).into_iter().collect::<Vec<i32>>();

    let doubled = into_parallel_map_with_parallelism(nums, 3, |x| x * 2);

    assert_eq!(
        doubled,
        vec![
            0, 2, 4, 6, 8, 10, 12, 14, 16, 18, 20, 22, 24, 26, 28, 30, 32, 34, 36, 38
        ]
    );
}

#[test]
fn test_into_parallel_reduce_with_parallelism() {
    let nums = (0..20).into_iter().collect::<Vec<i32>>();

    let sum =
        into_parallel_reduce_with_parallelism(nums, 3, |a, b| a + b);

    assert_eq!(sum, Some(190));
}

#[test]
fn test_into_parallel_reduce_with_parallelism_empty_seq() {
    let nums: Vec<i32> = vec![];

    let sum =
        into_parallel_reduce_with_parallelism(nums, 3, |a, b| a + b);

    assert_eq!(sum, None);
}
