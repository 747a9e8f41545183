use contest_lib::math::{combination, digits10, permutation};

#[test]
fn test_digits10() {
    assert_eq!(digits10(1234), 4);
    assert_eq!(digits10(1000), 4);
    assert_eq!(digits10(999), 3);
}

#[test]
fn math_test_permutation() {
    assert_eq!(permutation(4, 2), 12);
    assert_eq!(permutation(3, 0), 1);
    assert_eq!(permutation(5, 5), 120);
}

#[test]
fn math_test_combination() {
    assert_eq!(combination(5, 2), 10);
    assert_eq!(combination(5, 3), 10);
    assert_eq!(combination(3, 0), 1);
    assert_eq!(combination(5, 5), 1);
}

#[test]
fn digits10_edges() {
    assert_eq!(digits10(0), 1);
    assert_eq!(digits10(9), 1);
    assert_eq!(digits10(10), 2);
    assert_eq!(digits10(-1234), 4);
    assert_eq!(digits10(i64::MAX), 19);
    assert_eq!(digits10(i64::MIN), 19);
}

#[test]
fn permutation_and_combination_larger() {
    assert_eq!(permutation(20, 20), 2_432_902_008_176_640_000);
    assert_eq!(combination(52, 5), 2_598_960);
    assert_eq!(combination(20, 10), 184_756);
}
