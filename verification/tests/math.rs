use poker_odds::analysis::math::{n_choose_r, satisfaction_ratio, SatisfactionFraction};

#[test]
fn test_n_choose_r() {
    assert_eq!(n_choose_r(3, 4), 0);
    assert_eq!(n_choose_r(3, 0), 1);
    assert_eq!(n_choose_r(3, 1), 3);
    assert_eq!(n_choose_r(3, 2), 3);
    assert_eq!(n_choose_r(3, 3), 1);
    assert_eq!(n_choose_r(5, 2), 10);
    assert_eq!(n_choose_r(52, 7), 133_784_560);
}

#[test]
fn test_satisfaction_ratio_small() {
    let nums = &[1, 1, 2, 3, 5, 8, 13];

    assert_eq!(
        satisfaction_ratio(nums, |x| x % 2 == 0),
        SatisfactionFraction {
            satisfying: 2,
            total: 7
        }
    );
}

#[test]
fn test_satisfaction_ratio_large() {
    let nums = (1..=10000).into_iter().collect::<Vec<i32>>();

    assert_eq!(
        satisfaction_ratio(nums.as_slice(), |x| *x <= 100),
        SatisfactionFraction {
            satisfying: 100,
            total: 10000
        }
    );
}

#[test]
fn test_satisfaction_ratio_zero() {
    let nums = (1..=10000).into_iter().collect::<Vec<i32>>();

    assert_eq!(
        satisfaction_ratio(nums.as_slice(), |x| *x > 10000),
        SatisfactionFraction {
            satisfying: 0,
            total: 10000
        }
    );
}

#[test]
fn test_satisfaction_ratio_empty_set() {
    let nums: &[i32] = &[];

    assert_eq!(
        satisfaction_ratio(nums, |_| true),
        SatisfactionFraction {
            satisfying: 0,
            total: 0
        }
    );
}
