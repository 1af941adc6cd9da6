//! Modular arithmetic on unsigned 128-bit values: addition, multiplication
//! and exponentiation, each reduced into `0..modulus` without overflow.

use vstd::prelude::*;
use vstd::arithmetic::div_mod::{
    lemma_add_mod_noop,
    lemma_fundamental_div_mod_converse_mod,
    lemma_mod_twice,
    lemma_mul_mod_noop_general,
    lemma_small_mod,
};
use vstd::arithmetic::power::{lemma_pow0, lemma_pow1, lemma_pow_adds, lemma_pow_mod_noop, lemma_pow_multiplies, pow};

verus! {

/// `(a + b) mod m` for residues `a, b < m`, for every modulus up to `u128::MAX`.
pub fn add_mod(a: u128, b: u128, m: u128) -> (r: u128)
    requires
        a < m,
        b < m,
    ensures
        r == (a + b) % (m as int),
{
    if a >= m - b {
        proof {
            lemma_fundamental_div_mod_converse_mod(a + b, m as int, 1, a + b - m);
        }
        a - (m - b)
    } else {
        proof {
            lemma_small_mod((a + b) as nat, m as nat);
        }
        a + b
    }
}

/// `(a * b) mod m` by doubling and adding, so that no intermediate value
/// leaves `0..m`.
pub fn mul_mod(a: u128, b: u128, m: u128) -> (r: u128)
    requires
        a < m,
        b < m,
    ensures
        r == (a * b) % (m as int),
{
    let mut r: u128 = 0;
    let mut x: u128 = a;
    let mut y: u128 = b;
    proof {
        lemma_small_mod(0, m as nat);
    }
    while y > 0
        invariant
            r < m,
            x < m,
            (r + x * y) % (m as int) == (a * b) % (m as int),
        decreases y,
    {
        let ghost (r0, x0, y0) = (r as int, x as int, y as int);
        let bit: u128 = y % 2;
        if bit == 1 {
            r = add_mod(r, x, m);
        } else {
            proof {
                lemma_small_mod(r as nat, m as nat);
            }
        }
        x = add_mod(x, x, m);
        y = y / 2;
        proof {
            let mi = m as int;
            let q = y as int;
            let b0 = bit as int;
            assert(r as int == (r0 + b0 * x0) % mi) by (nonlinear_arith)
                requires
                    bit == 1 ==> r as int == (r0 + x0) % mi,
                    bit == 0 ==> r as int == r0 % mi,
                    b0 == bit as int,
                    bit == 0 || bit == 1;
            lemma_mul_mod_noop_general(2 * x0, q, mi);
            lemma_add_mod_noop(r0 + b0 * x0, 2 * x0 * q, mi);
            lemma_mod_twice(r0 + b0 * x0, mi);
            lemma_add_mod_noop(r as int, (x as int) * q, mi);
            lemma_small_mod(r as nat, m as nat);
            assert((x as int) * q == ((2 * x0) % mi) * q);
            assert(r0 + b0 * x0 + 2 * x0 * q == r0 + x0 * y0) by (nonlinear_arith)
                requires
                    y0 == 2 * q + b0;
        }
    }
    proof {
        lemma_small_mod(r as nat, m as nat);
        assert(r + x * y == r) by (nonlinear_arith)
            requires
                y == 0;
    }
    r
}

/// `base^exponent mod modulus` by square-and-multiply, or `None` when the
/// modulus is zero.
pub fn pow_mod(base: u128, exponent: u128, modulus: u128) -> (r: Option<u128>)
    ensures
        modulus == 0 <==> r is None,
        modulus > 0 ==> r == Some(
            (pow(base as int, exponent as nat) % (modulus as int)) as u128,
        ),
{
    if modulus == 0 {
        return None;
    }
    let ghost mi = modulus as int;
    let mut result: u128 = 1 % modulus;
    let mut b: u128 = base % modulus;
    let mut e: u128 = exponent;
    proof {
        lemma_pow_mod_noop(base as int, exponent as nat, mi);
        lemma_mul_mod_noop_general(1, pow(b as int, e as nat), mi);
    }
    while e > 0
        invariant
            modulus > 0,
            mi == modulus as int,
            result < modulus,
            b < modulus,
            (result * pow(b as int, e as nat)) % mi == pow(base as int, exponent as nat) % mi,
        decreases e,
    {
        let ghost (res0, b0, e0) = (result as int, b as int, e as nat);
        let bit: u128 = e % 2;
        if bit == 1 {
            result = mul_mod(result, b, modulus);
        } else {
            proof {
                lemma_small_mod(result as nat, modulus as nat);
            }
        }
        b = mul_mod(b, b, modulus);
        e = e / 2;
        proof {
            let q = e as nat;
            let bt = bit as nat;
            let big_r = res0 * pow(b0, bt);
            lemma_pow0(b0);
            lemma_pow1(b0);
            assert(result as int == big_r % mi);
            lemma_pow_adds(b0, bt, 2 * q);
            lemma_pow_multiplies(b0, 2, q);
            assert(pow(b0, 2) == b0 * b0) by {
                lemma_pow_adds(b0, 1, 1);
            }
            lemma_pow_mod_noop(b0 * b0, q, mi);
            lemma_mul_mod_noop_general(big_r, pow(b as int, q), mi);
            lemma_mul_mod_noop_general(big_r, pow(b0 * b0, q), mi);
            assert(e0 == bt + 2 * q);
            assert(big_r * pow(b0 * b0, q) == res0 * pow(b0, e0)) by (nonlinear_arith)
                requires
                    big_r == res0 * pow(b0, bt),
                    pow(b0, bt + 2 * q) == pow(b0, bt) * pow(b0, 2 * q),
                    pow(pow(b0, 2), q) == pow(b0, 2 * q),
                    pow(b0, 2) == b0 * b0,
                    e0 == bt + 2 * q;
        }
    }
    proof {
        lemma_pow0(b as int);
        lemma_small_mod(result as nat, modulus as nat);
        assert(result * pow(b as int, e as nat) == result as int);
    }
    Some(result)
}

} // verus!
