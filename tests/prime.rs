use numbers::prime::{is_prime, prime_factorization};

#[test]
fn test_prime_factorization() {
    assert_eq!(prime_factorization(0), None);
    assert_eq!(prime_factorization(1), None);
    assert_eq!(prime_factorization(2), Some(vec![2]));
    assert_eq!(prime_factorization(3), Some(vec![3]));
    assert_eq!(prime_factorization(192), Some(vec![2, 2, 2, 2, 2, 2, 3]));
    assert_eq!(prime_factorization(7676), Some(vec![2, 2, 19, 101]));
}

#[test]
fn test_is_prime() {
    assert_eq!(is_prime(0), false);
    assert_eq!(is_prime(1), false);
    assert_eq!(is_prime(2), true);
    assert_eq!(is_prime(72), false);
    assert_eq!(is_prime(73), true);
    assert_eq!(is_prime(101), true);
}

#[test]
fn factorization_is_ascending_primes_with_product() {
    for n in [2u32, 12, 97, 360, 1024, 65535, 999_983, 4_294_967_295] {
        let f = prime_factorization(n).unwrap();
        assert!(!f.is_empty());
        assert!(f.windows(2).all(|w| w[0] <= w[1]));
        assert!(f.iter().all(|&p| is_prime(p)));
        assert_eq!(f.iter().map(|&p| p as u64).product::<u64>(), n as u64);
    }
}

#[test]
fn factorization_beyond_small_primes() {
    // 79 * 79 and 65521 * 65521 have no prime factor up to 73.
    assert_eq!(prime_factorization(6241), Some(vec![79, 79]));
    assert_eq!(prime_factorization(4_293_001_441), Some(vec![65521, 65521]));
    assert_eq!(prime_factorization(4_294_967_291), Some(vec![4_294_967_291]));
    assert_eq!(prime_factorization(u32::MAX), Some(vec![3, 5, 17, 257, 65537]));
}

#[test]
fn is_prime_large_values() {
    assert!(is_prime(4_294_967_291));
    assert!(!is_prime(4_293_001_441));
    assert!(!is_prime(6241));
    assert!(is_prime(79));
    assert!(!is_prime(u32::MAX));
}
