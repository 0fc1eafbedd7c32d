use cpl_rust::math::divisor::enumerate_divisors;

#[test]
fn test_divisors() {
    assert_eq!(enumerate_divisors(10), [1, 2, 5, 10]);
    assert_eq!(enumerate_divisors(25), [1, 5, 25]);
    assert_eq!(enumerate_divisors(17), [1, 17]);
}

#[test]
fn test_divisors_edges() {
    assert_eq!(enumerate_divisors(0), []);
    assert_eq!(enumerate_divisors(1), [1]);
    assert_eq!(enumerate_divisors(36), [1, 2, 3, 4, 6, 9, 12, 18, 36]);
}
