use manifold_rs::{
    candidate_range, create_small_trailing, decompose, is_prime_with, miller_rabin_impl, miller_rabin_single,
    miller_rabin_single_witness, sieve,
    CORRECTNESS_BOUND,
};

#[test]
fn test_miller_rabin_above_1mil() {
    let a = miller_rabin_single(1_000_003);
    let b = miller_rabin_single(1_000_019);
    let c = miller_rabin_single(1_000_043);
    let d = miller_rabin_single(1_000_081);

    assert_eq!(a, true);
    assert_eq!(b, false);
    assert_eq!(c, false);
    assert_eq!(d, true);
}

#[test]
fn test_prime_test_cache_hit() {
    assert_eq!(miller_rabin_single(9973), true);
    assert_eq!(miller_rabin_single(9975), false);
}

#[test]
fn primes_test_miller_rabin_multiple() {
    let low: i128 = 341550071728321;
    let high: i128 = low + 100;
    let result = miller_rabin_impl(low, high);
    assert_eq!(result.len(), 101);
}

#[test]
fn test_valid_range() {
    let result = miller_rabin_impl(2, 10);
    assert_eq!(result.len(), 9);
}

#[test]
fn test_single_prime() {
    let result = miller_rabin_impl(7, 7);
    assert_eq!(result, vec![true]);
}

#[test]
fn test_few_bigger_primes() {
    let result = miller_rabin_impl(1000000007, 1000000010);
    assert_eq!(result, vec![true, false, true, false]);
}

#[test]
fn test_single_composite() {
    let result = miller_rabin_impl(8, 8);
    assert_eq!(result, vec![false]);
}

#[test]
fn range_two_to_ten_scenario() {
    // Candidates 2, 3, ..., 10: the primes among them are 2, 3, 5 and 7.
    let result = miller_rabin_impl(2, 10);
    assert_eq!(result, vec![true, true, false, true, false, true, false, false, false]);
}

#[test]
fn single_values_scenario() {
    assert!(miller_rabin_single(1000000007));
    assert!(!miller_rabin_single(1000000008));
}

#[test]
fn agrees_with_sieve_below_ten_thousand() {
    let primes = sieve(10_000);
    let table = create_small_trailing();
    let mut next = 0usize;
    for n in 0..10_000i128 {
        let expected = next < primes.len() && primes[next] as i128 == n;
        if expected {
            next += 1;
        }
        assert_eq!(is_prime_with(&table, n), expected, "n = {}", n);
    }
    assert_eq!(next, primes.len());
}

#[test]
fn small_values_and_evens() {
    assert!(miller_rabin_single(2));
    assert!(miller_rabin_single(3));
    assert!(!miller_rabin_single(1));
    assert!(!miller_rabin_single(0));
    assert!(!miller_rabin_single(-7));
    for n in (4..2000i128).step_by(2) {
        assert!(!miller_rabin_single(n));
    }
    assert!(!miller_rabin_single(1_000_000_000_000_000_000));
}

#[test]
fn range_length_and_entries_match_single() {
    let low: i128 = 999_990;
    let high: i128 = 1_000_100;
    let result = miller_rabin_impl(low, high);
    assert_eq!(result.len() as i128, high - low + 1);
    for (i, r) in result.iter().enumerate() {
        assert_eq!(*r, miller_rabin_single(low + i as i128));
    }
}

#[test]
fn range_with_negative_start() {
    assert_eq!(miller_rabin_impl(-3, 3), vec![false, false, false, false, false, true, true]);
}

#[test]
fn strong_pseudoprimes_are_rejected() {
    // Strong pseudoprimes to the bases of smaller brackets.
    assert!(!miller_rabin_single(2047));
    assert!(!miller_rabin_single(1373653));
    assert!(!miller_rabin_single(25326001));
    assert!(!miller_rabin_single(3215031751));
    assert!(!miller_rabin_single(3825123056546413051));
    assert!(!miller_rabin_single(561));
}

#[test]
fn pseudoprime_to_the_first_twelve_primes_is_rejected() {
    // The least composite that is a strong pseudoprime to every prime up to 37.
    assert!(!miller_rabin_single(318665857834031151167461));
    assert_eq!(miller_rabin_impl(318665857834031151167461, 318665857834031151167461), vec![false]);
}

#[test]
fn large_primes_near_machine_words() {
    // The largest prime below 2^64, and the Mersenne prime 2^61 - 1.
    assert!(miller_rabin_single(18446744073709551557));
    assert!(miller_rabin_single(2305843009213693951));
    // The smallest prime above 10^24, in the widest bracket.
    assert!(miller_rabin_single(1_000_000_000_000_000_000_000_007));
}

#[test]
fn largest_values_below_the_bound() {
    let high = CORRECTNESS_BOUND - 1;
    let result = miller_rabin_impl(high - 3, high);
    assert_eq!(result.len(), 4);
    for (i, r) in result.iter().enumerate() {
        assert_eq!(*r, miller_rabin_single(high - 3 + i as i128));
    }
    assert_eq!(CORRECTNESS_BOUND, 3317044064679887385961981);
}

#[test]
fn candidates_are_ascending() {
    assert_eq!(candidate_range(-2, 2), vec![-2, -1, 0, 1, 2]);
    assert_eq!(candidate_range(5, 5), vec![5]);
}

#[test]
fn decomposition_of_n_minus_one() {
    let table = create_small_trailing();
    assert_eq!(decompose(&table, 3), (1, 1));
    assert_eq!(decompose(&table, 13), (2, 3));
    assert_eq!(decompose(&table, 97), (5, 3));
    assert_eq!(decompose(&table, 1025), (10, 1));
    assert_eq!(decompose(&table, (1i128 << 80) + 1), (80, 1));
}

#[test]
fn single_witness_rounds() {
    assert!(miller_rabin_single_witness(2, 0));
    assert!(!miller_rabin_single_witness(4, 3));
    assert!(!miller_rabin_single_witness(1, 0));
    // 2047 = 23 * 89 is a strong pseudoprime to base 2 but not to base 3.
    assert!(miller_rabin_single_witness(2047, 2));
    assert!(!miller_rabin_single_witness(2047, 3));
    assert!(!miller_rabin_single_witness(9, 2));
    assert!(miller_rabin_single_witness(13, 5));
    assert!(miller_rabin_single_witness(13, 1));
    assert!(!miller_rabin_single_witness(15, 0));
}
