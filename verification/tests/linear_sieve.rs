use cpl_rust::math::linear_sieve::LinearSieve;

#[test]
fn linear_sieve_test_prime() {
    let l = LinearSieve::new(1_000_000);
    assert!(!l.is_prime(0));
    assert!(!l.is_prime(1));
    assert!(l.is_prime(2));
    assert!(l.is_prime(278809));
    assert!(!l.is_prime(836427));
}

#[test]
#[should_panic]
fn linear_sieve_test_prime_out_of_bounds() {
    let l = LinearSieve::new(10);
    l.is_prime(11);
}

#[test]
fn linear_sieve_test_factorize() {
    let l = LinearSieve::new(1_000_000);
    assert_eq!(l.factorize(0), vec![]);
    assert_eq!(l.factorize(1), vec![]);
    assert_eq!(l.factorize(2), vec![2]);
    assert_eq!(l.factorize(120), vec![2, 2, 2, 3, 5]);
    assert_eq!(l.factorize(836427), vec![3, 278809]);
}

#[test]
fn test_list_primes() {
    let l = LinearSieve::new(29);
    assert_eq!(l.primes, vec![2, 3, 5, 7, 11, 13, 17, 19, 23, 29]);
}

#[test]
fn test_both_sieves_agree() {
    let l = LinearSieve::new(1000);
    let e = cpl_rust::math::eratosthenes::Eratosthenes::new(1000);
    for n in 0..=1000 {
        assert_eq!(l.is_prime(n), e.is_prime(n));
        assert_eq!(l.factorize(n), e.factorize(n));
    }
}
