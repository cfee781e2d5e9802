use mathrust::calculators::Calculator;
use mathrust::number_theory::{gcd, get_multiples, hcf, is_prime, lcm, prime_factorization};
use std::collections::BTreeMap;

#[test]
fn highest_common_factor() {
    assert_eq!(hcf(48, 18), 6);
    assert_eq!(hcf(18, 48), 6);
    assert_eq!(hcf(7, 13), 1);
    assert_eq!(hcf(0, 5), 5);
    assert_eq!(hcf(5, 0), 5);
    assert_eq!(hcf(0, 0), 0);
    assert_eq!(gcd(270, 192), 6);
}

#[test]
fn least_common_multiple() {
    assert_eq!(lcm(4, 6), 12);
    assert_eq!(lcm(21, 6), 42);
    assert_eq!(lcm(0, 5), 0);
    assert_eq!(lcm(7, 1), 7);
    assert_eq!(lcm(65536, 65535), 4294901760);
}

#[test]
fn multiples() {
    assert_eq!(get_multiples(3, 4), vec![3, 6, 9, 12]);
    assert_eq!(get_multiples(5, 0), Vec::<u32>::new());
    assert_eq!(get_multiples(0, 3), vec![0, 0, 0]);
}

#[test]
fn primes() {
    assert!(!is_prime(0));
    assert!(!is_prime(1));
    assert!(is_prime(2));
    assert!(is_prime(3));
    assert!(!is_prime(4));
    assert!(!is_prime(9));
    assert!(is_prime(97));
    assert!(!is_prime(65537 * 3));
    assert!(is_prime(4294967291));
    assert!(!is_prime(4294967295));
}

#[test]
fn factorizations() {
    let mut expected = BTreeMap::new();
    expected.insert(2, 3);
    expected.insert(3, 2);
    expected.insert(5, 1);
    assert_eq!(prime_factorization(360), expected);

    let mut big = BTreeMap::new();
    big.insert(4294967291, 1);
    assert_eq!(prime_factorization(4294967291), big);

    let mut all = BTreeMap::new();
    for p in [3u32, 5, 17, 257, 65537] {
        all.insert(p, 1);
    }
    assert_eq!(prime_factorization(4294967295), all);

    let mut square = BTreeMap::new();
    square.insert(65521, 2);
    assert_eq!(prime_factorization(65521 * 65521), square);

    assert!(prime_factorization(1).is_empty());
    assert!(prime_factorization(0).is_empty());
}

#[test]
fn calculator_names() {
    assert_eq!(Calculator::Bodmas.name(), "BODMAS Calculator");
    assert_eq!(Calculator::Hcf.name(), "Highest Common Factor (HCF)");
    assert_eq!(Calculator::OrderingFractions.name(), "Ordering Fractions");
}
