use manifold_rs::{binary_gcd, euclidean_gcd, is_coprime, mobius, pow_mod, quadratic_residues, sieve};
use manifold_rs::modular::{add_mod, mul_mod};

#[test]
fn test_gcd() {
    let egcd = euclidean_gcd(3, 1);
    let bgcd = euclidean_gcd(3, 1);
    assert_eq!(bgcd, egcd);
    assert_eq!(bgcd, 1);
}

#[test]
fn test_coprime() {
    let egcd = euclidean_gcd(3, 1);
    let bgcd = euclidean_gcd(3, 1);
    assert_eq!(bgcd, egcd);
    assert_eq!(bgcd, 1);
}

#[test]
fn test_coprime_numbers() {
    assert_eq!(is_coprime(8, 15), true);
    assert_eq!(is_coprime(13, 27), true);
    assert_eq!(is_coprime(35, 64), true);
    assert_eq!(is_coprime(17, 19), true);
    assert_eq!(is_coprime(9, 28), true);
}

#[test]
fn test_non_coprime_numbers() {
    assert_eq!(is_coprime(12, 18), false);
    assert_eq!(is_coprime(24, 36), false);
    assert_eq!(is_coprime(14, 21), false);
    assert_eq!(is_coprime(16, 40), false);
    assert_eq!(is_coprime(30, 45), false);
}

#[test]
fn test_edge_cases() {
    assert_eq!(is_coprime(1, 1), true);
    assert_eq!(is_coprime(1, 100), true);
    assert_eq!(is_coprime(0, 5), false);
    assert_eq!(is_coprime(7, 0), false);
    assert_eq!(is_coprime(5, 5), false);
}

#[test]
fn test_sieve_limit_10() {
    let expected: Vec<u64> = vec![2, 3, 5, 7];
    let res = sieve(10);
    assert_eq!(res, expected);
}

#[test]
fn test_euclidean_gcd() {
    assert_eq!(euclidean_gcd(12, 18), 6);
    assert_eq!(euclidean_gcd(24, 36), 12);
    assert_eq!(euclidean_gcd(35, 49), 7);
    assert_eq!(euclidean_gcd(56, 98), 14);
    assert_eq!(euclidean_gcd(101, 103), 1);
}

#[test]
fn test_binary_gcd() {
    assert_eq!(binary_gcd(12, 18), 6);
    assert_eq!(binary_gcd(24, 36), 12);
    assert_eq!(binary_gcd(35, 49), 7);
    assert_eq!(binary_gcd(56, 98), 14);
    assert_eq!(binary_gcd(101, 103), 1);
}

#[test]
fn gcd_methods_agree() {
    for a in 0..200u64 {
        for b in 0..200u64 {
            assert_eq!(binary_gcd(a, b), euclidean_gcd(a, b), "gcd({}, {})", a, b);
        }
    }
    assert_eq!(binary_gcd(0, 0), 0);
    assert_eq!(binary_gcd(u64::MAX, u64::MAX), u64::MAX);
    assert_eq!(binary_gcd(1 << 63, 1 << 62), 1 << 62);
    assert_eq!(euclidean_gcd(u64::MAX, 1 << 63), 1);
}

#[test]
fn sieve_edges() {
    assert_eq!(sieve(0), Vec::<u64>::new());
    assert_eq!(sieve(1), Vec::<u64>::new());
    assert_eq!(sieve(2), vec![2]);
    assert_eq!(sieve(3), vec![2, 3]);
    assert_eq!(sieve(30), vec![2, 3, 5, 7, 11, 13, 17, 19, 23, 29]);
    assert_eq!(sieve(49).last(), Some(&47));
    assert_eq!(sieve(10_000).len(), 1229);
}

#[test]
fn pow_mod_values() {
    assert_eq!(pow_mod(7, 5, 1000), Some(807));
    assert_eq!(pow_mod(2, 10, 1025), Some(1024));
    assert_eq!(pow_mod(5, 0, 13), Some(1));
    assert_eq!(pow_mod(5, 0, 1), Some(0));
    assert_eq!(pow_mod(3, 4, 0), None);
    // Fermat: a^(p-1) = 1 mod p for the prime 2^61 - 1.
    let p: u128 = 2305843009213693951;
    assert_eq!(pow_mod(3, p - 1, p), Some(1));
    assert_eq!(pow_mod(2, 127, u128::MAX), Some(1 << 127));
}

#[test]
fn modular_products_near_the_word_size() {
    let m = u128::MAX;
    assert_eq!(add_mod(m - 1, m - 1, m), m - 2);
    assert_eq!(mul_mod(m - 1, m - 1, m), 1);
    // 2^200 = 2^73 * 2^127 = -2^73 (mod 2^127 + 1).
    assert_eq!(mul_mod(1 << 100, 1 << 100, (1 << 127) + 1), (1 << 127) + 1 - (1 << 73));
    assert_eq!(mul_mod(123456789, 987654321, 1000000007), (123456789u128 * 987654321) % 1000000007);
}

#[test]
fn test_mobius() {
    assert_eq!(mobius(1), 1);
    assert_eq!(mobius(2), -1);
    assert_eq!(mobius(3), -1);
    assert_eq!(mobius(4), 0);
    assert_eq!(mobius(5), -1);
    assert_eq!(mobius(6), 1);
    assert_eq!(mobius(10), 1);
    assert_eq!(mobius(12), 0);
    assert_eq!(mobius(30), -1);
}

#[test]
fn mobius_more_values() {
    assert_eq!(mobius(0), 1);
    assert_eq!(mobius(9), 0);
    assert_eq!(mobius(97), -1);
    assert_eq!(mobius(210), 1);
    assert_eq!(mobius(1000003), -1);
    assert_eq!(mobius(1000003 * 2), 1);
    assert_eq!(mobius(49 * 3), 0);
}

#[test]
fn test_quadradic_residue() {
    let residues = quadratic_residues(7);
    let epxected: Vec<u64> = vec![0, 1, 2, 4];
    assert_eq!(residues, epxected);
}

#[test]
fn quadratic_residue_edges() {
    assert_eq!(quadratic_residues(1), vec![0]);
    assert_eq!(quadratic_residues(2), vec![0, 1]);
    assert_eq!(quadratic_residues(10), vec![0, 1, 4, 5, 6, 9]);
    assert_eq!(quadratic_residues(13), vec![0, 1, 3, 4, 9, 10, 12]);
}
