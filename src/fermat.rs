//! Why the tester never rejects a prime: Fermat's little theorem, proved
//! from the binomial expansion, and the fact that modulo a prime the only
//! square roots of 1 are 1 and -1.

use vstd::prelude::*;
use vstd::arithmetic::div_mod::{
    lemma_fundamental_div_mod,
    lemma_fundamental_div_mod_converse,
    lemma_mod_multiples_basic,
    lemma_mod_multiples_vanish,
    lemma_small_mod,
};
use vstd::arithmetic::power::{lemma0_pow, lemma_pow0, lemma_pow1, lemma_pow_positive, pow};

use crate::sieve::is_prime_number;

verus! {

/// Euclid's lemma: a prime that divides a product divides one of its factors.
pub proof fn lemma_prime_divides_product(p: int, x: int, y: int)
    requires
        is_prime_number(p),
        x >= 0,
        y >= 0,
        (x * y) % p == 0,
    ensures
        x % p == 0 || y % p == 0,
    decreases x,
{
    if y % p != 0 && x != 0 {
        if x >= p {
            assert(p * (-y) + x * y == (x - p) * y) by (nonlinear_arith);
            lemma_mod_multiples_vanish(-y, x * y, p);
            lemma_prime_divides_product(p, x - p, y);
            lemma_mod_multiples_vanish(1, x - p, p);
        } else {
            // 0 < x < p: with p = q x + r, p divides r y too, and r < x.
            lemma_fundamental_div_mod(p, x);
            let q = p / x;
            let r = p % x;
            lemma_fundamental_div_mod(x * y, p);
            let t = (x * y) / p;
            assert(r * y == p * (y - q * t)) by (nonlinear_arith)
                requires
                    p == x * q + r,
                    x * y == p * t + (x * y) % p,
                    (x * y) % p == 0,
            ;
            lemma_mod_multiples_basic(y - q * t, p);
            assert((r * y) % p == 0) by (nonlinear_arith)
                requires
                    r * y == p * (y - q * t),
                    ((y - q * t) * p) % p == 0,
            ;
            lemma_prime_divides_product(p, r, y);
            lemma_small_mod(r as nat, p as nat);
            assert(r == 0);
            if x >= 2 {
                assert(p % x != 0);
            }
            assert(x == 1);
            assert(x * y == y);
        }
    }
}

/// Modulo a prime, 1 and -1 are the only square roots of 1.
pub proof fn lemma_square_root_of_one(p: int, x: int)
    requires
        is_prime_number(p),
        0 <= x < p,
        (x * x) % p == 1,
    ensures
        x == 1 || x == p - 1,
{
    if x == 0 {
        lemma_small_mod(0, p as nat);
    } else {
        lemma_fundamental_div_mod(x * x, p);
        let t = (x * x) / p;
        assert((x - 1) * (x + 1) == t * p) by (nonlinear_arith)
            requires
                x * x == p * t + (x * x) % p,
                (x * x) % p == 1,
        ;
        lemma_mod_multiples_basic(t, p);
        lemma_prime_divides_product(p, x - 1, x + 1);
        lemma_small_mod((x - 1) as nat, p as nat);
        if (x + 1) % p == 0 && x + 1 < p {
            lemma_small_mod((x + 1) as nat, p as nat);
        }
    }
}

/// Binomial coefficients, by Pascal's rule.
pub open spec fn binomial(n: nat, k: nat) -> nat
    decreases n,
{
    if k == 0 {
        1
    } else if n == 0 {
        0
    } else {
        binomial((n - 1) as nat, (k - 1) as nat) + binomial((n - 1) as nat, k)
    }
}

/// The first `k` terms of the binomial expansion of `(a + 1)^n`.
pub open spec fn binomial_sum(n: nat, a: int, k: nat) -> int
    decreases k,
{
    if k == 0 {
        0
    } else {
        binomial_sum(n, a, (k - 1) as nat) + binomial(n, (k - 1) as nat) * pow(a, (k - 1) as nat)
    }
}

proof fn lemma_binomial_beyond(n: nat, k: nat)
    requires
        k > n,
    ensures
        binomial(n, k) == 0,
    decreases n,
{
    if n > 0 {
        lemma_binomial_beyond((n - 1) as nat, (k - 1) as nat);
        lemma_binomial_beyond((n - 1) as nat, k);
    }
}

proof fn lemma_binomial_diagonal(n: nat)
    ensures
        binomial(n, n) == 1,
    decreases n,
{
    if n > 0 {
        lemma_binomial_diagonal((n - 1) as nat);
        lemma_binomial_beyond((n - 1) as nat, n);
    }
}

proof fn lemma_binomial_sum_step(n: nat, a: int, k: nat)
    requires
        n >= 1,
        k >= 1,
    ensures
        binomial_sum(n, a, k) == a * binomial_sum((n - 1) as nat, a, (k - 1) as nat) + binomial_sum((n - 1) as nat, a, k),
    decreases k,
{
    let m = (n - 1) as nat;
    if k == 1 {
        lemma_pow0(a);
        assert(binomial_sum(n, a, 0) == 0);
        assert(binomial_sum(m, a, 0) == 0);
        assert(binomial(n, 0) == 1 && binomial(m, 0) == 1);
        assert(binomial_sum(n, a, 1) == 1);
        assert(binomial_sum(m, a, 1) == 1);
    } else {
        lemma_binomial_sum_step(n, a, (k - 1) as nat);
        let km = (k - 1) as nat;
        let kmm = (k - 2) as nat;
        assert(pow(a, km) == a * pow(a, kmm)) by {
            vstd::arithmetic::power::lemma_pow_adds(a, 1, kmm);
            lemma_pow1(a);
        }
        assert(binomial(n, km) == binomial(m, kmm) + binomial(m, km));
        assert(binomial_sum(n, a, k) == a * binomial_sum(m, a, km) + binomial_sum(m, a, k)) by (nonlinear_arith)
            requires
                binomial_sum(n, a, k) == binomial_sum(n, a, km) + binomial(n, km) * pow(a, km),
                binomial_sum(n, a, km) == a * binomial_sum(m, a, kmm) + binomial_sum(m, a, km),
                binomial(n, km) == binomial(m, kmm) + binomial(m, km),
                pow(a, km) == a * pow(a, kmm),
                binomial_sum(m, a, km) == binomial_sum(m, a, kmm) + binomial(m, kmm) * pow(a, kmm),
                binomial_sum(m, a, k) == binomial_sum(m, a, km) + binomial(m, km) * pow(a, km),
        ;
    }
}

/// The binomial theorem for `(a + 1)^n`.
pub proof fn lemma_binomial_theorem(n: nat, a: int)
    ensures
        pow(a + 1, n) == binomial_sum(n, a, n + 1),
    decreases n,
{
    if n == 0 {
        lemma_pow0(a + 1);
        lemma_pow0(a);
        assert(binomial_sum(0, a, 0) == 0);
        assert(binomial(0, 0) == 1);
        assert(binomial_sum(0, a, 1) == binomial_sum(0, a, 0) + binomial(0, 0) * pow(a, 0));
        assert(binomial_sum(0, a, 1) == 1);
    } else {
        let m = (n - 1) as nat;
        lemma_binomial_theorem(m, a);
        lemma_binomial_sum_step(n, a, n + 1);
        lemma_binomial_beyond(m, n);
        let s = binomial_sum(m, a, n);
        assert(binomial_sum(m, a, n + 1) == s + binomial(m, n) * pow(a, n));
        assert(pow(a + 1, n) == (a + 1) * pow(a + 1, m)) by {
            vstd::arithmetic::power::lemma_pow_adds(a + 1, 1, m);
            lemma_pow1(a + 1);
        }
        assert(pow(a + 1, n) == binomial_sum(n, a, n + 1)) by (nonlinear_arith)
            requires
                pow(a + 1, n) == (a + 1) * pow(a + 1, m),
                pow(a + 1, m) == s,
                binomial_sum(n, a, n + 1) == a * s + binomial_sum(m, a, n + 1),
                binomial_sum(m, a, n + 1) == s + binomial(m, n) * pow(a, n),
                binomial(m, n) == 0,
        ;
    }
}

/// Absorption: `k * C(n, k) == n * C(n - 1, k - 1)`.
proof fn lemma_binomial_absorption(n: nat, k: nat)
    requires
        n >= 1,
        k >= 1,
    ensures
        k * binomial(n, k) == n * binomial((n - 1) as nat, (k - 1) as nat),
    decreases n,
{
    let m = (n - 1) as nat;
    if n == 1 {
        assert(binomial(1, k) == binomial(0, (k - 1) as nat) + binomial(0, k));
        assert(binomial(0, k) == 0);
        if k >= 2 {
            lemma_binomial_beyond(0, (k - 1) as nat);
            assert(binomial(1, k) == 0);
            assert(k * binomial(1, k) == 0) by (nonlinear_arith)
                requires
                    binomial(1, k) == 0,
            ;
            assert(binomial(0, (k - 1) as nat) == 0);
        } else {
            assert(binomial(0, 0) == 1);
            assert(binomial(1, 1) == 1);
        }
    } else if k == 1 {
        lemma_binomial_absorption(m, 1);
        assert(binomial(n, 1) == binomial(m, 0) + binomial(m, 1));
        assert(binomial(m, 0) == 1);
        assert(binomial((m - 1) as nat, 0) == 1);
        assert(k * binomial(n, k) == n * binomial(m, (k - 1) as nat)) by (nonlinear_arith)
            requires
                k == 1,
                binomial(n, 1) == binomial(m, 0) + binomial(m, 1),
                binomial(m, 0) == 1,
                1 * binomial(m, 1) == m * binomial((m - 1) as nat, 0),
                binomial((m - 1) as nat, 0) == 1,
                m == n - 1,
        ;
    } else {
        lemma_binomial_absorption(m, (k - 1) as nat);
        lemma_binomial_absorption(m, k);
        let mm = (m - 1) as nat;
        assert(binomial(m, (k - 1) as nat) == binomial(mm, (k - 2) as nat) + binomial(mm, (k - 1) as nat));
        assert(binomial(n, k) == binomial(m, (k - 1) as nat) + binomial(m, k));
        assert(k * binomial(n, k) == n * binomial(m, (k - 1) as nat)) by (nonlinear_arith)
            requires
                binomial(n, k) == binomial(m, (k - 1) as nat) + binomial(m, k),
                (k - 1) * binomial(m, (k - 1) as nat) == m * binomial(mm, (k - 2) as nat),
                k * binomial(m, k) == m * binomial(mm, (k - 1) as nat),
                binomial(m, (k - 1) as nat) == binomial(mm, (k - 2) as nat) + binomial(mm, (k - 1) as nat),
                m == n - 1,
        ;
    }
}

/// A prime divides every binomial coefficient of its row but the outer two.
proof fn lemma_prime_divides_binomial(p: nat, k: nat)
    requires
        is_prime_number(p as int),
        0 < k < p,
    ensures
        (binomial(p, k) as int) % (p as int) == 0,
{
    lemma_binomial_absorption(p, k);
    let c = binomial((p - 1) as nat, (k - 1) as nat);
    lemma_mod_multiples_basic(c as int, p as int);
    assert(((k * binomial(p, k)) as int) % (p as int) == 0) by (nonlinear_arith)
        requires
            k * binomial(p, k) == p * c,
            ((c as int) * (p as int)) % (p as int) == 0,
    ;
    lemma_prime_divides_product(p as int, k as int, binomial(p, k) as int);
    lemma_small_mod(k, p);
}

/// The inner terms of the expansion of `(a + 1)^p` vanish modulo `p`.
proof fn lemma_inner_terms_vanish(p: nat, a: int, k: nat)
    requires
        is_prime_number(p as int),
        1 <= k <= p,
    ensures
        binomial_sum(p, a, k) % (p as int) == 1int % (p as int),
    decreases k,
{
    if k == 1 {
        lemma_pow0(a);
        assert(binomial_sum(p, a, 0) == 0);
        assert(binomial(p, 0) == 1);
        assert(binomial_sum(p, a, 1) == 1);
    } else {
        let km = (k - 1) as nat;
        lemma_inner_terms_vanish(p, a, km);
        lemma_prime_divides_binomial(p, km);
        lemma_fundamental_div_mod(binomial(p, km) as int, p as int);
        let c = (binomial(p, km) as int) / (p as int);
        assert(binomial(p, km) * pow(a, km) == (p as int) * (c * pow(a, km))) by (nonlinear_arith)
            requires
                binomial(p, km) == (p as int) * c + (binomial(p, km) as int) % (p as int),
                (binomial(p, km) as int) % (p as int) == 0,
        ;
        assert(binomial_sum(p, a, k) == (p as int) * (c * pow(a, km)) + binomial_sum(p, a, km));
        lemma_mod_multiples_vanish(c * pow(a, km), binomial_sum(p, a, km), p as int);
    }
}

/// `a^p = a (mod p)` for a prime `p` and `a >= 0`.
pub proof fn lemma_pow_prime_mod(p: nat, a: nat)
    requires
        is_prime_number(p as int),
    ensures
        pow(a as int, p) % (p as int) == (a as int) % (p as int),
    decreases a,
{
    let pi = p as int;
    if a == 0 {
        lemma0_pow(p);
    } else {
        let b = (a - 1) as nat;
        lemma_pow_prime_mod(p, b);
        lemma_binomial_theorem(p, b as int);
        lemma_binomial_diagonal(p);
        lemma_inner_terms_vanish(p, b as int, p);
        // (b + 1)^p = [inner sum] + b^p, and the inner sum is 1 modulo p.
        let inner = binomial_sum(p, b as int, p);
        assert(binomial_sum(p, b as int, p + 1) == inner + binomial(p, p) * pow(b as int, p));
        assert((b as int) + 1 == a as int);
        assert(pow(a as int, p) == inner + pow(b as int, p));
        vstd::arithmetic::div_mod::lemma_add_mod_noop(inner, pow(b as int, p), pi);
        vstd::arithmetic::div_mod::lemma_add_mod_noop(1, b as int, pi);
        lemma_small_mod(1, p);
    }
}

/// Fermat's little theorem: `a^(p - 1) = 1 (mod p)` for `0 < a < p`.
pub proof fn lemma_fermat_little(p: nat, a: nat)
    requires
        is_prime_number(p as int),
        0 < a < p,
    ensures
        pow(a as int, (p - 1) as nat) % (p as int) == 1,
{
    let pi = p as int;
    let e = (p - 1) as nat;
    lemma_pow_prime_mod(p, a);
    assert(pow(a as int, p) == a * pow(a as int, e)) by {
        vstd::arithmetic::power::lemma_pow_adds(a as int, 1, e);
        lemma_pow1(a as int);
    }
    lemma_pow_positive(a as int, e);
    let w = pow(a as int, e);
    lemma_small_mod(a, p);
    // p divides a * w - a = a * (w - 1).
    lemma_fundamental_div_mod(a * w, pi);
    let t = (a * w) / pi;
    assert((a as int) * (w - 1) == t * pi) by (nonlinear_arith)
        requires
            a * w == pi * t + (a * w) % pi,
            (a * w) % pi == a,
    ;
    lemma_mod_multiples_basic(t, pi);
    lemma_prime_divides_product(pi, a as int, w - 1);
    assert((a as int) % pi != 0);
    assert((w - 1) % pi == 0);
    lemma_fundamental_div_mod(w - 1, pi);
    let q = (w - 1) / pi;
    assert(w == q * pi + 1) by (nonlinear_arith)
        requires
            w - 1 == pi * q + (w - 1) % pi,
            (w - 1) % pi == 0,
    ;
    lemma_fundamental_div_mod_converse(w, pi, q, 1);
}

} // verus!
