use poker_odds::util::array::{
    array_map, into_array_map, into_array_zip, monomorphize, MonomorphizedArray,
};

#[test]
fn test_array_map() {
    let nums = [1, 2, 3];
    let strings = array_map(&nums, |x| x.to_string());

    let expected = ["1".to_string(), "2".to_string(), "3".to_string()];

    assert_eq!(strings, expected);
}

#[test]
fn test_into_array_map() {
    let nums = [1, 2, 3];
    let strings = into_array_map(nums, |x| x.to_string());

    let expected = ["1".to_string(), "2".to_string(), "3".to_string()];

    assert_eq!(strings, expected);
}

#[test]
fn test_into_array_zip() {
    let nums1 = [1, 2, 3];
    let nums2 = [4, 6, 8];

    let sums = into_array_zip(nums1, nums2, |a, b| a + b);
    let expected = [5, 8, 11];

    assert_eq!(sums, expected);
}

#[test]
fn test_monomorphized_array() {
    assert_eq!(
        monomorphize(vec![1, 2, 3]),
        Some(MonomorphizedArray::Len3([1, 2, 3]))
    );

    assert_eq!(
        monomorphize(Vec::<i32>::new()),
        Some(MonomorphizedArray::Len0::<i32>([]))
    );

    assert_eq!(
        monomorphize(vec![1]),
        Some(MonomorphizedArray::Len1([1]))
    );

    assert_eq!(
        monomorphize((1..=23).collect()),
        Some(MonomorphizedArray::Len23([
            1, 2, 3, 4, 5, 6, 7, 8, 9, 10, 11, 12, 13, 14, 15, 16, 17, 18, 19, 20, 21, 22, 23
        ]))
    );

    assert_eq!(monomorphize((1..=24).collect::<Vec<i32>>()), None);
}
