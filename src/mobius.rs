//! The Möbius function by trial division over the primes of a sieve.

use vstd::prelude::*;
use vstd::arithmetic::div_mod::{lemma_fundamental_div_mod, lemma_small_mod};

use crate::sieve::{
    is_prime_number, lemma_divides_transitive, lemma_least_divisor, lemma_prime_factor_below_root,
    least_divisor_from, sieve,
};

verus! {

/// The Möbius function: 1 for 1 (and for 0); else, with `p` the least prime
/// factor of `n`, 0 when `p^2` divides `n` and `-mobius(n / p)` otherwise.
pub open spec fn mobius_spec(n: nat) -> int
    decreases n,
{
    if n <= 1 {
        1
    } else {
        let p = least_divisor_from(n as int, 2);
        if p < 2 || (n as int) / p >= n {
            0
        } else if ((n as int) / p) % p == 0 {
            0
        } else {
            -mobius_spec(((n as int) / p) as nat)
        }
    }
}

/// When no prime below `p` divides `m` and the prime `p` does, `p` is the
/// least prime factor of `m`.
proof fn lemma_least_prime_factor(m: int, p: int)
    requires
        m >= 2,
        is_prime_number(p),
        m % p == 0,
        forall|q: int| 2 <= q < p && #[trigger] is_prime_number(q) ==> m % q != 0,
    ensures
        least_divisor_from(m, 2) == p,
{
    lemma_least_divisor(m, 2);
    let d = least_divisor_from(m, 2);
    assert(p <= m) by {
        lemma_fundamental_div_mod(m, p);
        if p > m {
            lemma_small_mod(m as nat, p as nat);
        }
    }
    assert forall|e: int| 2 <= e < d implies #[trigger] (d % e) != 0 by {
        if d % e == 0 {
            lemma_divides_transitive(m, d, e);
        }
    }
    assert(is_prime_number(d));
    if d < p {
        assert(m % d != 0);
    }
}

/// A prime `m` has Möbius value -1.
proof fn lemma_mobius_of_prime(m: int)
    requires
        is_prime_number(m),
    ensures
        mobius_spec(m as nat) == -1,
{
    lemma_least_divisor(m, 2);
    let d = least_divisor_from(m, 2);
    if d < m {
        assert(m % d != 0);
    }
    assert(d == m);
    vstd::arithmetic::div_mod::lemma_div_by_self(m);
    lemma_small_mod(1, m as nat);
    assert(mobius_spec(1) == 1);
    assert(m / d == 1);
}

/// A number with no prime factor below `p`, and less than `2p`, is 1 or a
/// prime.
proof fn lemma_small_cofactor_is_prime(m: int, p: int)
    requires
        m >= 2,
        p >= 2,
        m < 2 * p,
        forall|q: int| 2 <= q < p && #[trigger] is_prime_number(q) ==> m % q != 0,
    ensures
        is_prime_number(m),
{
    if !is_prime_number(m) {
        lemma_prime_factor_below_root(m);
        let q = choose|q: int| #[trigger] is_prime_number(q) && q * q <= m && m % q == 0 && (m % 2 == 1 ==> q % 2 == 1);
        assert(q < p) by (nonlinear_arith)
            requires
                q * q <= m,
                m < 2 * p,
                p >= 2,
                q >= 2,
        ;
    }
}

/// The Möbius function of `n`: 0 when a square of a prime divides `n`,
/// else -1 or 1 as `n` has an odd or even number of prime factors. The
/// primes up to `n` come from `sieve`, whose bound on its limit applies.
pub fn mobius(n: u32) -> (r: i32)
    requires
        n < usize::MAX / 2,
    ensures
        r == mobius_spec(n as nat),
{
    if n <= 1 {
        return 1;
    }
    let primes = sieve(n as usize);
    let mut m: u64 = n as u64;
    let mut count: usize = 0;
    let mut i: usize = 0;
    let mut stopped = false;
    while i < primes.len() && !stopped
        invariant
            2 <= n,
            1 <= m <= n,
            (n as int) % (m as int) == 0,
            count <= i,
            i <= primes@.len(),
            n < usize::MAX / 2,
            forall|k: int| 0 <= k < primes@.len() ==> is_prime_number(#[trigger] primes@[k] as int) && primes@[k] <= n,
            forall|k1: int, k2: int| 0 <= k1 < k2 < primes@.len() ==> primes@[k1] < primes@[k2],
            forall|p: int| 0 <= p <= n && #[trigger] is_prime_number(p) ==> primes@.contains(p as u64),
            forall|k: int| 0 <= k < i ==> (m as int) % (#[trigger] primes@[k] as int) != 0,
            mobius_spec(n as nat) == if count % 2 == 0 { mobius_spec(m as nat) } else { -mobius_spec(m as nat) },
            stopped ==> i < primes@.len() && m < 2 * primes@[i as int],
        decreases primes@.len() - i + (if stopped { 0int } else { 1int }),
    {
        let p = primes[i];
        if 2 * p > m {
            stopped = true;
        } else {
            let ghost old_m = m as int;
            proof {
                assert forall|q: int| 2 <= q < p && #[trigger] is_prime_number(q) implies old_m % q != 0 by {
                    let k = choose|k: int| 0 <= k < primes@.len() && primes@[k] == q as u64;
                    if k >= i {
                        if k > i {
                            assert(primes@[i as int] < primes@[k]);
                        }
                    }
                }
            }
            if m % p == 0 {
                proof {
                    lemma_least_prime_factor(old_m, p as int);
                    lemma_fundamental_div_mod(old_m, p as int);
                }
                m = m / p;
                if m % p == 0 {
                    return 0;
                }
                proof {
                    assert(mobius_spec(old_m as nat) == -mobius_spec(m as nat));
                    assert(old_m == (p as int) * (m as int));
                    assert(m as int >= 1) by (nonlinear_arith)
                        requires
                            old_m == (p as int) * (m as int),
                            old_m >= 1,
                            p >= 1,
                            m >= 0,
                    ;
                    vstd::arithmetic::div_mod::lemma_mod_multiples_basic(p as int, m as int);
                    assert(old_m % (m as int) == 0);
                    assert forall|k: int| 0 <= k < i + 1 implies (m as int) % (#[trigger] primes@[k] as int) != 0 by {
                        if k < i && (m as int) % (primes@[k] as int) == 0 {
                            lemma_divides_transitive(old_m, m as int, primes@[k] as int);
                        }
                    }
                    lemma_divides_transitive(n as int, old_m, m as int);
                }
                count = count + 1;
            }
            i = i + 1;
        }
    }
    proof {
        if m >= 2 {
            if stopped {
                let p = primes@[i as int] as int;
                assert forall|q: int| 2 <= q < p && #[trigger] is_prime_number(q) implies (m as int) % q != 0 by {
                    let k = choose|k: int| 0 <= k < primes@.len() && primes@[k] == q as u64;
                    if k >= i {
                        if k > i {
                            assert(primes@[i as int] < primes@[k]);
                        }
                    }
                }
                lemma_small_cofactor_is_prime(m as int, p);
            } else {
                lemma_least_divisor(m as int, 2);
                let d = least_divisor_from(m as int, 2);
                assert forall|e: int| 2 <= e < d implies #[trigger] (d % e) != 0 by {
                    if d % e == 0 {
                        lemma_divides_transitive(m as int, d, e);
                    }
                }
                assert(is_prime_number(d));
                assert(primes@.contains(d as u64));
            }
            lemma_mobius_of_prime(m as int);
        }
    }
    if m > 1 {
        count = count + 1;
    }
    if count % 2 == 0 {
        1
    } else {
        -1
    }
}

} // verus!
