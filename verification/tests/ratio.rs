use std::cmp::Ordering;

use cpl_rust::math::ratio::{gcd, lcm, Ratio};

#[test]
fn test_gcd() {
    assert_eq!(gcd(10, 4), 2);
    assert_eq!(gcd(42, 11), 1);
    assert_eq!(gcd(10, 0), 10);
    assert_eq!(gcd(10, 1), 1);
}

#[test]
fn test_lcm() {
    assert_eq!(lcm(10, 4), 20);
    assert_eq!(lcm(42, 11), 462);
    assert_eq!(lcm(10, 0), 0);
    assert_eq!(lcm(10, 1), 10);
}

#[test]
fn test_gcd_of_negatives() {
    assert_eq!(gcd(-12, 8), 4);
    assert_eq!(gcd(12, -8), 4);
    assert_eq!(gcd(-12, -8), 4);
}

#[test]
fn test_ratio_from_integer() {
    let a = Ratio::from_integer(3);
    let b = Ratio::new(3, 1);
    assert_eq!(a, b);
}

#[test]
fn test_ratio_is_irreducible() {
    let a = Ratio::new(3, 5);
    let b = Ratio::new(12, 20);
    assert_eq!(a, b);
}

#[test]
fn test_negation_is_regularized() {
    let a = Ratio::new(3, -5);
    assert_eq!(a.numerator, -3);
    let b = Ratio::new(0, -3);
    assert_eq!(b.denominator, 1);
}

#[test]
fn test_ratio_cmp() {
    let a = Ratio::new(3, 5);
    let b = Ratio::new(2, 7);
    let c = Ratio::new(3, 5);
    assert_eq!(a.cmp(&b), Ordering::Greater);
    assert!(matches!(a.cmp(&c), Ordering::Greater | Ordering::Equal));
    assert_eq!(b.cmp(&a), Ordering::Less);
}

#[test]
fn test_ratio_addition() {
    let a = Ratio::new(3, 5);
    let b = Ratio::new(2, 7);
    let c = Ratio::new(31, 35);
    assert_eq!(a.add(b), c);
}

#[test]
fn test_ratio_negation() {
    let a = Ratio::new(3, 5);
    let b = Ratio::new(-3, 5);
    let c = Ratio::new(3, -5);
    assert_eq!(a.neg(), b);
    assert_eq!(a.neg(), c);
}

#[test]
fn test_ratio_subtraction() {
    let a = Ratio::new(3, 5);
    let b = Ratio::new(2, 7);
    let c = Ratio::new(11, 35);
    assert_eq!(a.sub(b), c);
}

#[test]
fn test_ratio_multiplication() {
    let a = Ratio::new(3, 5);
    let b = Ratio::new(2, 7);
    let c = Ratio::new(6, 35);
    assert_eq!(a.mul(b), c);
}

#[test]
fn test_ratio_inversion() {
    let a = Ratio::new(3, 5);
    let b = Ratio::new(5, 3);
    assert_eq!(a.inverse(), b);
}

#[test]
fn test_ratio_division() {
    let a = Ratio::new(3, 5);
    let b = Ratio::new(2, 7);
    let c = Ratio::new(21, 10);
    assert_eq!(a.div(b), c);
}
