use contest_lib::modulo::{add, combination, div, mul, permutation, pow, sub};

#[test]
fn test_add() {
    let sum = add(1 << 31, 1 << 31, u32::MAX);
    assert_eq!(sum, 1);
}

#[test]
fn test_sub() {
    let diff = sub(0, 1 << 31, u32::MAX);
    assert_eq!(diff, (1 << 31) - 1);
}

#[test]
fn test_mul() {
    let prod = mul(1 << 31, 1 << 31, 2);
    assert_eq!(prod, 0);
}

#[test]
fn test_pow() {
    let power = pow(3, 0, 2);
    assert_eq!(power, 1);

    let power = pow(u32::MAX - 1, 0b101010, u32::MAX);
    assert_eq!(power, 1);
}

#[test]
fn test_div() {
    let q = div(1, 5, 7);
    assert_eq!(q, 3);
}

#[test]
fn modulo_test_permutation() {
    let p = permutation(8, 3, 5);
    assert_eq!(p, 1);
}

#[test]
fn modulo_test_combination() {
    let c = combination(10, 3, 7);
    assert_eq!(c, 1);
    let c = combination(10, 7, 7);
    assert_eq!(c, 1);
}

#[test]
fn add_reaching_the_modulus_wraps_to_zero() {
    assert_eq!(add(3, 4, 7), 0);
    assert_eq!(add(3, 3, 7), 6);
    assert_eq!(add(6, 6, 7), 5);
}

#[test]
fn sub_and_mul_small() {
    assert_eq!(sub(2, 5, 7), 4);
    assert_eq!(sub(5, 2, 7), 3);
    assert_eq!(mul(6, 6, 7), 1);
    assert_eq!(mul(u32::MAX, u32::MAX, 1_000_000_007), 992_409_480);
}

#[test]
fn pow_values() {
    assert_eq!(pow(2, 10, 1_000_000_007), 1024);
    assert_eq!(pow(3, 4, 5), 1);
    assert_eq!(pow(10, 0, 1), 0);
    assert_eq!(pow(2, 1_000_000_006, 1_000_000_007), 1);
}

#[test]
fn div_and_inverse() {
    assert_eq!(div(6, 3, 7), 2);
    assert_eq!(mul(div(1, 3, 1_000_000_007), 3, 1_000_000_007), 1);
}

#[test]
fn permutation_past_n_is_zero() {
    assert_eq!(permutation(3, 4, 7), 0);
    assert_eq!(permutation(5, 2, 1_000_000_007), 20);
    assert_eq!(combination(5, 2, 1_000_000_007), 10);
}
