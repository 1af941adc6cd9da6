//! The sieve of Eratosthenes over odd numbers.

use vstd::prelude::*;
use vstd::arithmetic::div_mod::{
    lemma_fundamental_div_mod,
    lemma_fundamental_div_mod_converse,
    lemma_mod_multiples_basic,
};

verus! {

/// `n` is prime: at least 2, with no divisor strictly between 1 and `n`.
pub open spec fn is_prime_number(n: int) -> bool {
    n >= 2 && forall|d: int| 2 <= d < n ==> #[trigger] (n % d) != 0
}

/// The smallest divisor of `m` that is at least `k`.
pub open spec fn least_divisor_from(m: int, k: int) -> int
    decreases m - k,
{
    if k >= m {
        m
    } else if m % k == 0 {
        k
    } else {
        least_divisor_from(m, k + 1)
    }
}

pub proof fn lemma_divides_transitive(m: int, p: int, d: int)
    requires
        m >= 0,
        p > 0,
        d > 0,
        m % p == 0,
        p % d == 0,
    ensures
        m % d == 0,
{
    lemma_fundamental_div_mod(m, p);
    lemma_fundamental_div_mod(p, d);
    let a = m / p;
    let b = p / d;
    assert(m == (a * b) * d) by (nonlinear_arith)
        requires
            m == p * a + m % p,
            m % p == 0,
            p == d * b + p % d,
            p % d == 0,
    ;
    lemma_mod_multiples_basic(a * b, d);
}

pub proof fn lemma_least_divisor(m: int, k: int)
    requires
        2 <= k <= m,
        forall|d: int| 2 <= d < k ==> #[trigger] (m % d) != 0,
    ensures
        2 <= least_divisor_from(m, k) <= m,
        m % least_divisor_from(m, k) == 0,
        forall|d: int| 2 <= d < least_divisor_from(m, k) ==> #[trigger] (m % d) != 0,
    decreases m - k,
{
    if k >= m {
        lemma_mod_multiples_basic(1, m);
    } else if m % k != 0 {
        lemma_least_divisor(m, k + 1);
    }
}

/// A composite number has a prime factor whose square is at most the
/// number; for an odd number that factor is odd.
pub proof fn lemma_prime_factor_below_root(m: int)
    requires
        m >= 2,
        !is_prime_number(m),
    ensures
        exists|p: int| #[trigger] is_prime_number(p) && p * p <= m && m % p == 0 && (m % 2 == 1 ==> p % 2 == 1),
{
    lemma_least_divisor(m, 2);
    let p = least_divisor_from(m, 2);
    assert forall|d: int| 2 <= d < p implies #[trigger] (p % d) != 0 by {
        if p % d == 0 {
            lemma_divides_transitive(m, p, d);
        }
    }
    let w = choose|d: int| 2 <= d < m && #[trigger] (m % d) == 0;
    assert(p <= w);
    lemma_fundamental_div_mod(m, p);
    let e = m / p;
    assert(e >= 2) by (nonlinear_arith)
        requires
            m == p * e + m % p,
            m % p == 0,
            p < m,
            p >= 2,
    ;
    lemma_fundamental_div_mod_converse(m, e, p, 0);
    assert(p * p <= m) by (nonlinear_arith)
        requires
            m == p * e,
            e >= p,
            p >= 2,
    {
        if e < p {
            assert(m % e == 0);
        }
    }
    if m % 2 == 1 && p % 2 == 0 {
        lemma_divides_transitive(m, p, 2);
    }
    assert(is_prime_number(p));
}

/// A multiple of `p` strictly between two consecutive odd multiples of `p`
/// is even.
proof fn lemma_between_odd_multiples(p: int, k: int, m: int)
    requires
        p >= 1,
        k % 2 == 1,
        k >= 0,
        p * k < m < p * k + 2 * p,
        m % p == 0,
    ensures
        m % 2 == 0,
{
    lemma_fundamental_div_mod(m, p);
    let j = m / p;
    assert(j == k + 1) by (nonlinear_arith)
        requires
            m == p * j,
            p * k < m < p * k + 2 * p,
            p >= 1,
    ;
    assert(m % 2 == 0) by (nonlinear_arith)
        requires
            m == p * j,
            j == k + 1,
            k % 2 == 1,
    {
        assert(m == 2 * (p * ((k + 1) / 2)));
    }
}

/// All primes up to `limit`, in increasing order. `limit` stays below half
/// the address space, so that the table of marks and its cursors fit.
pub fn sieve(limit: usize) -> (r: Vec<u64>)
    requires
        limit < usize::MAX / 2,
    ensures
        forall|k: int| 0 <= k < r@.len() ==> #[trigger] is_prime_number(r@[k] as int) && r@[k] <= limit,
        forall|k1: int, k2: int| 0 <= k1 < k2 < r@.len() ==> r@[k1] < r@[k2],
        forall|p: int| 0 <= p <= limit && #[trigger] is_prime_number(p) ==> r@.contains(p as u64),
{
    let mut r: Vec<u64> = Vec::new();
    if limit < 2 {
        return r;
    }
    r.push(2);
    assert(is_prime_number(2));
    let mut marked: Vec<bool> = Vec::new();
    let mut n: usize = 0;
    while n <= limit
        invariant
            n <= limit + 1,
            limit < usize::MAX / 2,
            marked@.len() == n,
            forall|m: int| 0 <= m < n ==> !(#[trigger] marked@[m]),
        decreases limit + 1 - n,
    {
        marked.push(false);
        n = n + 1;
    }
    assert(r@[0] == 2u64);
    assert(r@.contains(2u64));
    let mut i: usize = 3;
    while i <= limit
        invariant
            2 <= limit < usize::MAX / 2,
            3 <= i <= limit + 2,
            i % 2 == 1,
            marked@.len() == limit + 1,
            // Only composites are marked.
            forall|m: int| 0 <= m <= limit && #[trigger] marked@[m] ==> !is_prime_number(m) && m >= 2,
            // Every odd multiple of an odd prime below i, from its square on, is marked.
            forall|p: int, m: int|
                3 <= p < i && is_prime_number(p) && p * p <= m <= limit && m % 2 == 1 && #[trigger] (m % p) == 0
                    ==> #[trigger] marked@[m],
            // r holds exactly the primes below i, in increasing order.
            r@.len() >= 1,
            forall|k: int| 0 <= k < r@.len() ==> is_prime_number(#[trigger] r@[k] as int) && r@[k] < i && r@[k] <= limit,
            forall|k1: int, k2: int| 0 <= k1 < k2 < r@.len() ==> r@[k1] < r@[k2],
            forall|p: int| 0 <= p < i && #[trigger] is_prime_number(p) ==> r@.contains(p as u64),
        decreases limit + 2 - i,
    {
        if !marked[i] {
            proof {
                if !is_prime_number(i as int) {
                    lemma_prime_factor_below_root(i as int);
                    let p = choose|p: int| #[trigger] is_prime_number(p) && p * p <= i && (i as int) % p == 0 && ((i as int) % 2 == 1 ==> p % 2 == 1);
                    assert(p != 2);
                    assert(p >= 3);
                    assert(p < i) by (nonlinear_arith)
                        requires
                            p * p <= i,
                            p >= 3,
                    ;
                    assert(marked@[i as int]);
                }
            }
            assert(is_prime_number(i as int));
            let ghost old_r = r@;
            r.push(i as u64);
            proof {
                assert forall|k1: int, k2: int| 0 <= k1 < k2 < r@.len() implies r@[k1] < r@[k2] by {
                    if k2 == r@.len() - 1 {
                        assert(old_r[k1] < i);
                    }
                }
                assert forall|p: int| 0 <= p < i + 2 && #[trigger] is_prime_number(p) implies r@.contains(p as u64) by {
                    if p == i {
                        assert(r@[r@.len() - 1] == p as u64);
                    } else if p == i + 1 {
                        assert((p % 2) == 0);
                    } else {
                        assert(old_r.contains(p as u64));
                        let k = choose|k: int| 0 <= k < old_r.len() && old_r[k] == p as u64;
                        assert(r@[k] == p as u64);
                    }
                }
            }
            if i <= limit / i {
                proof {
                    assert(i * i >= 2 * i) by (nonlinear_arith)
                        requires
                            i >= 3,
                    ;
                    assert(i * i <= limit) by (nonlinear_arith)
                        requires
                            i <= (limit as int) / (i as int),
                            i >= 3,
                    {
                        lemma_fundamental_div_mod(limit as int, i as int);
                    }
                }
                let step: usize = 2 * i;
                let mut multiple: usize = i * i;
                let ghost mut k: int = i as int;
                while multiple <= limit
                    invariant
                        2 <= limit < usize::MAX / 2,
                        3 <= i <= limit,
                        i % 2 == 1,
                        is_prime_number(i as int),
                        step == 2 * i,
                        step <= limit,
                        multiple == i * k,
                        k % 2 == 1,
                        k >= i,
                        multiple >= i * i,
                        marked@.len() == limit + 1,
                        forall|m: int| 0 <= m <= limit && #[trigger] marked@[m] ==> !is_prime_number(m) && m >= 2,
                        forall|p: int, m: int|
                            3 <= p < i && is_prime_number(p) && p * p <= m <= limit && m % 2 == 1 && #[trigger] (m % p) == 0
                                ==> #[trigger] marked@[m],
                        forall|m: int|
                            i * i <= m < multiple && m <= limit && m % 2 == 1 && #[trigger] (m % (i as int)) == 0
                                ==> #[trigger] marked@[m],
                        r@.len() >= 1,
                        forall|k: int| 0 <= k < r@.len() ==> is_prime_number(#[trigger] r@[k] as int) && r@[k] < i + 2 && r@[k] <= limit,
                        forall|k1: int, k2: int| 0 <= k1 < k2 < r@.len() ==> r@[k1] < r@[k2],
                        forall|p: int| 0 <= p < i + 2 && #[trigger] is_prime_number(p) ==> r@.contains(p as u64),
                    decreases limit + step - multiple,
                {
                    proof {
                        lemma_mod_multiples_basic(k, i as int);
                        assert(multiple as int == k * i) by (nonlinear_arith)
                            requires
                                multiple == i * k,
                        ;
                        assert((multiple as int) % (i as int) == 0);
                        assert(i < multiple) by (nonlinear_arith)
                            requires
                                multiple == i * k,
                                k >= i,
                                i >= 3,
                        ;
                        assert(!is_prime_number(multiple as int)) by {
                            assert((multiple as int) % (i as int) == 0);
                        }
                    }
                    marked.set(multiple, true);
                    let ghost prev = multiple as int;
                    multiple = multiple + step;
                    proof {
                        k = k + 2;
                        assert(multiple == i * k) by (nonlinear_arith)
                            requires
                                prev == i * (k - 2),
                                multiple == prev + 2 * i,
                        ;
                        assert forall|m: int|
                            i * i <= m < multiple && m <= limit && m % 2 == 1 && #[trigger] (m % (i as int)) == 0
                                implies #[trigger] marked@[m] by {
                            if prev < m {
                                if m != prev {
                                    lemma_between_odd_multiples(i as int, k - 2, m);
                                }
                            }
                        }
                    }
                }
            }
        } else {
            proof {
                assert forall|p: int| 0 <= p < i + 2 && #[trigger] is_prime_number(p) implies r@.contains(p as u64) by {
                    if p == i + 1 {
                        assert((p % 2) == 0);
                    }
                }
            }
        }
        proof {
            assert forall|p: int, m: int|
                3 <= p < i + 2 && is_prime_number(p) && p * p <= m <= limit && m % 2 == 1 && #[trigger] (m % p) == 0
                    implies #[trigger] marked@[m] by {
                if p == i + 1 {
                    assert(p % 2 == 0);
                    assert(p % 2 != 0);
                } else if p == i {
                    if marked@[i as int] {
                    } else if !(i <= limit / i) {
                        assert(false) by (nonlinear_arith)
                            requires
                                p * p <= m <= limit,
                                p == i,
                                !(i <= (limit as int) / (i as int)),
                                i >= 3,
                        {
                            lemma_fundamental_div_mod(limit as int, i as int);
                        }
                    }
                }
            }
        }
        if i >= limit - 1 {
            proof {
                assert forall|p: int| 0 <= p <= limit && #[trigger] is_prime_number(p) implies r@.contains(p as u64) by {
                    if p == i + 1 {
                        assert(p % 2 == 0);
                    }
                }
            }
            return r;
        }
        i = i + 2;
    }
    r
}

} // verus!
