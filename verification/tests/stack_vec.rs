use poker_odds::datastructures::stack_vec::StackVec;
use std::cmp::Ordering;

#[test]
fn test_stack_vec() {
    let mut vec = StackVec::<i32, 3>::new();
    vec.push(1);
    vec.push(2);
    vec.push(3);
    vec.push(4);

    assert_eq!(vec[0], 1);
    assert_eq!(vec[1], 2);
    assert_eq!(vec[2], 3);
    assert_eq!(vec[0..2], [1, 2]);
    assert_eq!(vec.as_slice(), &[1, 2, 3]);
}

#[test]
fn test_stack_vec_from() {
    let v1 = StackVec::<i32, 3>::from([1, 2]);

    let mut v2 = StackVec::<i32, 3>::new();
    v2.push(1);
    v2.push(2);

    assert_eq!(v1, v2);
}

#[test]
fn test_stack_vec_from_ref() {
    let v1 = StackVec::<i32, 3>::from(&[1, 2]);

    let mut v2 = StackVec::<i32, 3>::new();
    v2.push(1);
    v2.push(2);

    assert_eq!(v1, v2);
}

#[test]
fn test_stack_vec_clone() {
    let mut v1 = StackVec::<i32, 3>::new();
    v1.push(1);
    v1.push(2);

    let v2 = v1.clone();
    assert_eq!(v1, v2);
}

#[test]
fn test_stack_vec_copy() {
    let mut v1 = StackVec::<i32, 3>::new();
    v1.push(1);
    v1.push(2);

    let v2 = v1;
    assert_eq!(v1, v2);
}

#[test]
fn test_stack_vec_mut_slice() {
    let mut vec = StackVec::<i32, 3>::new();
    vec.push(3);
    vec.push(2);
    vec.push(1);

    vec.as_mut_slice().sort();

    assert_eq!(vec.as_slice(), &[1, 2, 3]);
}

#[test]
fn test_stack_vec_reset() {
    let mut vec = StackVec::<i32, 3>::new();
    vec.push(1);
    vec.push(2);
    vec.reset();
    vec.push(3);
    vec.push(4);
    vec.push(5);

    assert_eq!(vec.as_slice(), &[3, 4, 5]);
}

#[test]
fn test_stack_vec_eq() {
    let mut v1 = StackVec::<i32, 3>::new();
    v1.push(1);
    v1.push(2);

    let mut v2 = StackVec::<i32, 3>::new();
    v2.push(1);
    v2.push(2);

    assert_eq!(v1, v2);
}

#[test]
fn test_stack_vec_not_eq() {
    let mut v1 = StackVec::<i32, 3>::new();
    v1.push(1);
    v1.push(2);

    let mut v2 = StackVec::<i32, 3>::new();
    v2.push(3);
    v2.push(4);

    assert_ne!(v1, v2);
}

#[test]
fn test_stack_vec_not_eq_different_lengths() {
    let mut v1 = StackVec::<i32, 3>::new();
    v1.push(1);

    let mut v2 = StackVec::<i32, 3>::new();
    v2.push(1);
    v2.push(2);

    assert_ne!(v1, v2);
}

#[test]
fn test_stack_vec_not_eq_different_lengths_2() {
    let mut v1 = StackVec::<i32, 3>::new();
    v1.push(1);
    v1.push(2);
    v1.push(3);

    let mut v2 = StackVec::<i32, 3>::new();
    v2.push(1);
    v2.push(2);

    assert_ne!(v1, v2);
}

#[test]
fn test_stack_vec_not_eq_different_second_elem() {
    let mut v1 = StackVec::<i32, 3>::new();
    v1.push(1);
    v1.push(3);

    let mut v2 = StackVec::<i32, 3>::new();
    v2.push(1);
    v2.push(2);

    assert_ne!(v1, v2);
}

#[test]
fn test_stack_vec_not_eq_different_order() {
    let mut v1 = StackVec::<i32, 3>::new();
    v1.push(1);
    v1.push(2);

    let mut v2 = StackVec::<i32, 3>::new();
    v2.push(2);
    v2.push(1);

    assert_ne!(v1, v2);
}

#[test]
fn test_stack_vec_eq_empty() {
    let v1 = StackVec::<i32, 3>::new();
    let v2 = StackVec::<i32, 3>::new();

    assert_eq!(v1, v2);
}

#[test]
fn test_stack_vec_iter() {
    let mut v1 = StackVec::<i32, 3>::new();
    v1.push(1);
    v1.push(2);

    let vec: Vec<i32> = v1.iter().collect();

    assert_eq!(vec, vec![1, 2]);
}

#[test]
fn test_stack_vec_empty_iter() {
    let v1 = StackVec::<i32, 3>::new();
    let vec: Vec<i32> = v1.iter().collect();

    assert_eq!(vec, Vec::<i32>::new());
}

#[test]
fn test_stack_vec_ord_eq() {
    let mut v1 = StackVec::<i32, 3>::new();
    v1.push(1);
    v1.push(2);

    let mut v2 = StackVec::<i32, 3>::new();
    v2.push(1);
    v2.push(2);

    assert!(v1.cmp(&v2) == Ordering::Equal);
}

#[test]
fn test_stack_vec_ord_first_element_less() {
    let mut v1 = StackVec::<i32, 3>::new();
    v1.push(1);
    v1.push(2);

    let mut v2 = StackVec::<i32, 3>::new();
    v2.push(3);
    v2.push(4);

    assert!(v1.cmp(&v2) == Ordering::Less);
}

#[test]
fn test_stack_vec_ord_first_element_greater() {
    let mut v1 = StackVec::<i32, 3>::new();
    v1.push(3);
    v1.push(4);

    let mut v2 = StackVec::<i32, 3>::new();
    v2.push(1);
    v2.push(2);

    assert!(v1.cmp(&v2) == Ordering::Greater);
}

#[test]
fn test_stack_vec_ord_second_element_less() {
    let mut v1 = StackVec::<i32, 3>::new();
    v1.push(1);
    v1.push(2);

    let mut v2 = StackVec::<i32, 3>::new();
    v2.push(1);
    v2.push(3);

    assert!(v1.cmp(&v2) == Ordering::Less);
}

#[test]
fn test_stack_vec_ord_second_element_greater() {
    let mut v1 = StackVec::<i32, 3>::new();
    v1.push(1);
    v1.push(3);

    let mut v2 = StackVec::<i32, 3>::new();
    v2.push(1);
    v2.push(2);

    assert!(v1.cmp(&v2) == Ordering::Greater);
}

#[test]
fn test_stack_vec_ord_first_shorter() {
    let mut v1 = StackVec::<i32, 3>::new();
    v1.push(1);
    v1.push(2);

    let mut v2 = StackVec::<i32, 3>::new();
    v2.push(1);
    v2.push(2);
    v2.push(3);

    assert!(v1.cmp(&v2) == Ordering::Less);
}

#[test]
fn test_stack_vec_ord_first_longer() {
    let mut v1 = StackVec::<i32, 3>::new();
    v1.push(1);
    v1.push(2);
    v1.push(3);

    let mut v2 = StackVec::<i32, 3>::new();
    v2.push(1);
    v2.push(2);

    assert!(v1.cmp(&v2) == Ordering::Greater);
}
