//! Mersenne numbers `2^q - 1` that fit in 128 bits, and the Lucas–Lehmer
//! test that decides which of them are prime.

use vstd::prelude::*;
use vstd::arithmetic::div_mod::{lemma_fundamental_div_mod, lemma_fundamental_div_mod_converse};
use vstd::arithmetic::power2::{lemma_pow2_pos, lemma_pow2_unfold, pow2};

use crate::bitscan::{bit_length, lemma_u128_one_shl, pow2_values, significant_bits};
use crate::modular::mul_mod;
use crate::primes::{miller_rabin_accepts, miller_rabin_single};

verus! {

/// `2^q - 1`.
pub open spec fn mersenne(q: nat) -> nat {
    (pow2(q) - 1) as nat
}

/// The Lucas–Lehmer sequence modulo `2^q - 1`: `s_0 = 4`,
/// `s_(i+1) = s_i^2 - 2`.
pub open spec fn lucas_lehmer_term(q: nat, i: nat) -> int
    decreases i,
{
    if i == 0 {
        4
    } else {
        let s = lucas_lehmer_term(q, (i - 1) as nat);
        (s * s - 2) % (mersenne(q) as int)
    }
}

/// `q >= 2` and the term `s_(q-2)` vanishes modulo `2^q - 1`.
pub open spec fn lucas_lehmer_passes(q: nat) -> bool {
    q >= 2 && lucas_lehmer_term(q, (q - 2) as nat) == 0
}

/// `n` is one less than a power of two (and at least 1).
pub open spec fn is_mersenne_number(n: nat) -> bool {
    exists|k: nat| k >= 1 && n == #[trigger] mersenne(k)
}

/// `2^q - 1` has exactly `q` significant bits.
proof fn lemma_mersenne_bit_length(q: nat)
    ensures
        bit_length(mersenne(q)) == q,
    decreases q,
{
    lemma_pow2_pos(q);
    if q == 0 {
        pow2_values();
    } else {
        lemma_pow2_unfold(q);
        lemma_mersenne_bit_length((q - 1) as nat);
        lemma_pow2_pos((q - 1) as nat);
        lemma_fundamental_div_mod_converse(mersenne(q) as int, 2, mersenne((q - 1) as nat) as int, 1);
    }
}

/// `2^q - 1` as a `u128`.
fn mersenne_of(q: u32) -> (m: u128)
    requires
        q <= 128,
    ensures
        m == mersenne(q as nat),
{
    if q == 128 {
        proof {
            pow2_values();
        }
        u128::MAX
    } else {
        proof {
            lemma_u128_one_shl(q);
        }
        (1u128 << q) - 1
    }
}

/// The Lucas–Lehmer test of the Mersenne number `2^q - 1`.
pub fn lucas_lehmer_q(prime_q: u32) -> (r: bool)
    requires
        prime_q <= 128,
    ensures
        r == lucas_lehmer_passes(prime_q as nat),
{
    if prime_q < 2 {
        return false;
    }
    let m = mersenne_of(prime_q);
    let ghost q = prime_q as nat;
    let mut s: u128 = 4;
    let mut i: u32 = 0;
    proof {
        lemma_pow2_pos(q);
        vstd::arithmetic::power2::lemma2_to64();
        if prime_q > 3 {
            vstd::arithmetic::power2::lemma_pow2_strictly_increases(3, q);
        }
    }
    while i < prime_q - 2
        invariant
            2 <= prime_q <= 128,
            q == prime_q,
            m == mersenne(q),
            m >= 3,
            prime_q >= 3 ==> m >= 7,
            i <= prime_q - 2,
            s as int == lucas_lehmer_term(q, i as nat),
            prime_q >= 3 ==> s < m,
        decreases prime_q - 2 - i,
    {
        let t = mul_mod(s, s, m);
        let ghost k = ((s * s) as int) / (m as int);
        proof {
            lemma_fundamental_div_mod((s * s) as int, m as int);
        }
        if t >= 2 {
            proof {
                lemma_fundamental_div_mod_converse((s * s - 2) as int, m as int, k, (t - 2) as int);
            }
            s = t - 2;
        } else {
            proof {
                assert((s * s - 2) as int == (k - 1) * (m as int) + (t + m - 2)) by (nonlinear_arith)
                    requires
                        (s * s) as int == (m as int) * k + ((s * s) as int) % (m as int),
                        t as int == ((s * s) as int) % (m as int),
                ;
                lemma_fundamental_div_mod_converse((s * s - 2) as int, m as int, k - 1, (t + m - 2) as int);
            }
            s = t + (m - 2);
        }
        i = i + 1;
    }
    proof {
        if prime_q == 2 {
            assert(lucas_lehmer_term(q, 0) == 4);
        }
    }
    s == 0
}

/// Whether `num` is a Mersenne prime: a Mersenne number `2^q - 1` whose
/// exponent `q` is prime and which passes the Lucas–Lehmer test.
pub fn is_mersenne_prime(num: u128) -> (r: bool)
    ensures
        r == (is_mersenne_number(num as nat) && miller_rabin_accepts(bit_length(num as nat) as int)
            && lucas_lehmer_passes(bit_length(num as nat))),
{
    let q = significant_bits(num);
    let m = mersenne_of(q);
    proof {
        if is_mersenne_number(num as nat) {
            let k = choose|k: nat| k >= 1 && num as nat == #[trigger] mersenne(k);
            lemma_mersenne_bit_length(k);
        }
        if num == m && q >= 1 {
            assert(num as nat == mersenne(q as nat));
        }
        if q == 0 {
            assert(num == 0);
            pow2_values();
        }
    }
    if num != m || q == 0 {
        return false;
    }
    if !miller_rabin_single(q as i128) {
        return false;
    }
    lucas_lehmer_q(q)
}

} // verus!
