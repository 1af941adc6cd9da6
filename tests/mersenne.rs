use manifold_rs::{is_mersenne_prime, lucas_lehmer_q};

#[test]
fn test_lucas_lehmer_primes() {
    assert!(lucas_lehmer_q(3));
    assert!(lucas_lehmer_q(5));
    assert!(lucas_lehmer_q(7));
    assert!(lucas_lehmer_q(13));
}

#[test]
fn test_is_mersenne_prime() {
    assert!(is_mersenne_prime(7));
    assert!(is_mersenne_prime(31));
    assert!(is_mersenne_prime(127));
    assert!(is_mersenne_prime(8191));
}

#[test]
fn lucas_lehmer_rejects_composite_mersenne_numbers() {
    // 2^11 - 1 = 23 * 89 and 2^23 - 1 = 47 * 178481.
    assert!(!lucas_lehmer_q(11));
    assert!(!lucas_lehmer_q(23));
    assert!(lucas_lehmer_q(61));
    assert!(lucas_lehmer_q(127));
    assert!(!lucas_lehmer_q(0));
    assert!(!lucas_lehmer_q(1));
}

#[test]
fn mersenne_prime_edge_cases() {
    assert!(!is_mersenne_prime(0));
    assert!(!is_mersenne_prime(1));
    assert!(!is_mersenne_prime(8));
    assert!(!is_mersenne_prime(2047));
    assert!(!is_mersenne_prime(32767));
    assert!(is_mersenne_prime((1u128 << 127) - 1));
    assert!(!is_mersenne_prime(u128::MAX));
}
