//! The deterministic Miller–Rabin tester for one candidate, and the range
//! evaluator built on it.

use vstd::prelude::*;
use vstd::arithmetic::div_mod::lemma_small_mod;
use vstd::arithmetic::power::pow;
use vstd::arithmetic::power2::{lemma_pow2_pos, pow2};
use vstd::bits::lemma_u128_shr_is_div;

use crate::bases::{get_miller_rabin_bases, witness_bases};
use crate::bitscan::{create_small_trailing, trailing_zeros, TrailingZeroTable};
use crate::fermat::{lemma_fermat_little, lemma_square_root_of_one};
use crate::modular::{mul_mod, pow_mod};
use crate::sieve::is_prime_number;

verus! {

/// Below this bound the fixed witness sets decide primality exactly; at or
/// above it Miller–Rabin would only give a probable answer.
pub const CORRECTNESS_BOUND: i128 = 3317044064679887385961981;

/// `x0` squared `j` times modulo `n`.
pub open spec fn square_chain(x0: int, n: int, j: nat) -> int
    decreases j,
{
    if j == 0 {
        x0
    } else {
        let y = square_chain(x0, n, (j - 1) as nat);
        (y * y) % n
    }
}

/// The exponent `s` of `n - 1 = 2^s * d` with `d` odd.
pub open spec fn decomposition_exponent(n: int) -> nat {
    trailing_zeros((n - 1) as nat)
}

/// The odd part `d` of `n - 1 = 2^s * d`.
pub open spec fn decomposition_odd_part(n: int) -> nat {
    ((n - 1) as nat) / pow2(decomposition_exponent(n))
}

/// `n` is a strong probable prime to base `a`: with `n - 1 = 2^s * d`,
/// either `a^d = 1 (mod n)` or `a^(d * 2^j) = -1 (mod n)` for some `j < s`.
pub open spec fn strong_probable_prime(n: int, a: int) -> bool {
    let x0 = pow(a, decomposition_odd_part(n)) % n;
    x0 == 1 || exists|j: nat| j < decomposition_exponent(n) && #[trigger] square_chain(x0, n, j) == n - 1
}

/// A witness base, reduced modulo `n`, either has no discriminating power
/// (it is 0 or 1) or finds `n` a strong probable prime.
pub open spec fn base_passes(n: int, b: int) -> bool {
    let a = b % n;
    a < 2 || strong_probable_prime(n, a)
}

/// The verdict of the deterministic Miller–Rabin procedure on `n`.
pub open spec fn miller_rabin_accepts(n: int) -> bool {
    if n <= 1 {
        false
    } else if n == 2 {
        true
    } else if n % 2 == 0 {
        false
    } else if n == 3 {
        true
    } else {
        forall|i: int| 0 <= i < witness_bases(n).len() ==> #[trigger] base_passes(n, witness_bases(n)[i] as int)
    }
}

/// The procedure rejects 0 and 1 and every even number but 2, and accepts 2
/// and 3.
pub proof fn lemma_small_and_even(n: int)
    ensures
        !miller_rabin_accepts(0),
        !miller_rabin_accepts(1),
        miller_rabin_accepts(2),
        miller_rabin_accepts(3),
        n > 2 && n % 2 == 0 ==> !miller_rabin_accepts(n),
{
}

/// Squaring `a^d mod n` repeatedly walks through `a^(d * 2^j) mod n`.
pub proof fn lemma_chain_is_power(a: int, d: nat, n: int, j: nat)
    requires
        n > 0,
    ensures
        square_chain(pow(a, d) % n, n, j) == pow(a, d * pow2(j)) % n,
    decreases j,
{
    if j == 0 {
        vstd::arithmetic::power2::lemma2_to64();
        assert(d * pow2(0) == d);
    } else {
        let jm = (j - 1) as nat;
        lemma_chain_is_power(a, d, n, jm);
        let e = d * pow2(jm);
        vstd::arithmetic::div_mod::lemma_mul_mod_noop_general(pow(a, e), pow(a, e), n);
        vstd::arithmetic::power::lemma_pow_adds(a, e, e);
        vstd::arithmetic::power2::lemma_pow2_unfold(j);
        assert(e + e == d * pow2(j)) by (nonlinear_arith)
            requires
                e == d * pow2(jm),
                pow2(j) == 2 * pow2(jm),
        ;
    }
}

/// The chain stays within `0..n`.
proof fn lemma_chain_in_range(x0: int, n: int, j: nat)
    requires
        n > 0,
        0 <= x0 < n,
    ensures
        0 <= square_chain(x0, n, j) < n,
{
}

/// Modulo a prime, a chain that reaches 1 passes through -1 just before,
/// unless it started at 1.
proof fn lemma_chain_descends(x0: int, p: int, j: nat)
    requires
        is_prime_number(p),
        0 <= x0 < p,
        square_chain(x0, p, j) == 1,
    ensures
        x0 == 1 || exists|i: nat| i < j && #[trigger] square_chain(x0, p, i) == p - 1,
    decreases j,
{
    if j > 0 {
        let jm = (j - 1) as nat;
        let y = square_chain(x0, p, jm);
        lemma_chain_in_range(x0, p, jm);
        lemma_square_root_of_one(p, y);
        if y == 1 {
            lemma_chain_descends(x0, p, jm);
            if x0 != 1 {
                let i = choose|i: nat| i < jm && #[trigger] square_chain(x0, p, i) == p - 1;
                assert(square_chain(x0, p, i) == p - 1);
            }
        } else {
            assert(square_chain(x0, p, jm) == p - 1);
        }
    }
}

/// An odd prime is a strong probable prime to every base it does not divide.
pub proof fn lemma_prime_is_strong_probable_prime(p: int, a: int)
    requires
        is_prime_number(p),
        p > 2,
        0 < a < p,
    ensures
        strong_probable_prime(p, a),
{
    let s = decomposition_exponent(p);
    let d = decomposition_odd_part(p);
    let m = (p - 1) as nat;
    crate::bitscan::lemma_trailing_zeros_below(m, s);
    lemma_pow2_pos(s);
    vstd::arithmetic::div_mod::lemma_fundamental_div_mod(m as int, pow2(s) as int);
    assert(d * pow2(s) == m) by (nonlinear_arith)
        requires
            m == pow2(s) * (m / pow2(s)) + m % pow2(s),
            m % pow2(s) == 0,
            d == m / pow2(s),
    ;
    lemma_fermat_little(p as nat, a as nat);
    lemma_chain_is_power(a, d, p, s);
    let x0 = pow(a, d) % p;
    lemma_chain_descends(x0, p, s);
}

/// Every prime passes: the procedure never rejects a prime, whatever its
/// bracket.
pub proof fn lemma_primes_are_accepted(n: int)
    requires
        is_prime_number(n),
    ensures
        miller_rabin_accepts(n),
{
    if n > 3 {
        assert(n % 2 != 0);
        assert forall|i: int| 0 <= i < witness_bases(n).len() implies #[trigger] base_passes(n, witness_bases(n)[i] as int) by {
            let a = (witness_bases(n)[i] as int) % n;
            if a >= 2 {
                lemma_prime_is_strong_probable_prime(n, a);
            }
        }
    }
}

/// Once the chain reaches 1 it stays there.
proof fn lemma_chain_stays_at_one(x0: int, n: int, i: nat, j: nat)
    requires
        n > 1,
        square_chain(x0, n, i) == 1,
        i <= j,
    ensures
        square_chain(x0, n, j) == 1,
    decreases j - i,
{
    if i < j {
        lemma_chain_stays_at_one(x0, n, i, (j - 1) as nat);
        lemma_small_mod(1, n as nat);
    }
}

/// One Miller–Rabin round: is `n` a strong probable prime to base `a`, given
/// `n - 1 = 2^s * d`.
fn witness_round(n: u128, a: u128, s: u32, d: u128) -> (r: bool)
    requires
        3 <= n,
        a < n,
        s == decomposition_exponent(n as int),
        d == decomposition_odd_part(n as int),
        s >= 1,
    ensures
        r == strong_probable_prime(n as int, a as int),
{
    let ghost x0 = pow(a as int, d as nat) % (n as int);
    let mut x: u128 = pow_mod(a, d, n).unwrap();
    if x == 1 {
        return true;
    }
    if x == n - 1 {
        assert(square_chain(x0, n as int, 0) == n - 1);
        return true;
    }
    let mut i: u32 = 1;
    while i < s
        invariant
            3 <= n,
            1 <= i <= s,
            s == decomposition_exponent(n as int),
            x0 == pow(a as int, decomposition_odd_part(n as int)) % (n as int),
            x0 != 1,
            x < n,
            x as int == square_chain(x0, n as int, (i - 1) as nat),
            forall|j: nat| j < i ==> #[trigger] square_chain(x0, n as int, j) != n - 1,
        decreases s - i,
    {
        x = mul_mod(x, x, n);
        if x == n - 1 {
            assert(square_chain(x0, n as int, i as nat) == n - 1);
            return true;
        }
        if x == 1 {
            proof {
                assert forall|j: nat| j < s implies #[trigger] square_chain(x0, n as int, j) != n - 1 by {
                    if j >= i {
                        lemma_chain_stays_at_one(x0, n as int, i as nat, j);
                    }
                }
            }
            return false;
        }
        i = i + 1;
    }
    false
}

/// `n - 1 = 2^s * d` with `d` odd, as `(s, d)`, found by scanning `n - 1`
/// for its lowest set bit.
pub fn decompose(table: &TrailingZeroTable, n: i128) -> (r: (u32, u128))
    requires
        table.wf(),
        3 <= n < CORRECTNESS_BOUND,
        n % 2 == 1,
    ensures
        r.0 == decomposition_exponent(n as int),
        r.1 == decomposition_odd_part(n as int),
        r.0 >= 1,
        r.1 % 2 == 1,
{
    let n_minus_one: i128 = n - 1;
    proof {
        lemma_pow2_pos(0);
        vstd::arithmetic::power2::lemma2_to64();
        vstd::arithmetic::div_mod::lemma_fundamental_div_mod_converse(n_minus_one as int, 1, n_minus_one as int, 0);
    }
    let s: u32 = table.bit_scan(n_minus_one, 0).unwrap();
    let ghost m = (n - 1) as nat;
    proof {
        assert(s == trailing_zeros(m));
        assert(m % 2 == 0);
        assert(trailing_zeros(m) >= 1);
        crate::bitscan::lemma_trailing_zeros_below(m, s as nat);
        crate::bitscan::trailing_zeros_below_width(n_minus_one as u128);
        lemma_u128_shr_is_div(n_minus_one as u128, s as u128);
    }
    let d: u128 = (n_minus_one as u128) >> (s as u128);
    (s, d)
}

/// The deterministic Miller–Rabin verdict on `n`, decomposing `n - 1` with
/// the given trailing-zero table.
pub fn is_prime_with(table: &TrailingZeroTable, n: i128) -> (r: bool)
    requires
        table.wf(),
        n < CORRECTNESS_BOUND,
    ensures
        r == miller_rabin_accepts(n as int),
{
    if n <= 1 {
        return false;
    }
    if n == 2 {
        return true;
    }
    if n % 2 == 0 {
        return false;
    }
    if n == 3 {
        return true;
    }
    let (s, d) = decompose(table, n);
    let bases = get_miller_rabin_bases(n);
    let nu = n as u128;
    let mut i: usize = 0;
    while i < bases.len()
        invariant
            3 < n < CORRECTNESS_BOUND,
            n % 2 == 1,
            nu == n,
            bases@ == witness_bases(n as int),
            s == decomposition_exponent(n as int),
            d == decomposition_odd_part(n as int),
            s >= 1,
            0 <= i <= bases@.len(),
            forall|k: int| 0 <= k < i ==> #[trigger] base_passes(n as int, bases@[k] as int),
        decreases bases@.len() - i,
    {
        let base = bases[i] as u128;
        let reduced: u128 = if base >= nu {
            base % nu
        } else {
            proof {
                lemma_small_mod(base as nat, nu as nat);
            }
            base
        };
        if reduced >= 2 && !witness_round(nu, reduced, s, d) {
            assert(!base_passes(n as int, bases@[i as int] as int));
            return false;
        }
        i = i + 1;
    }
    true
}

/// `is_prime(n)`: the deterministic Miller–Rabin verdict on `n`, defined
/// below the correctness bound.
pub fn miller_rabin_single(n: i128) -> (r: bool)
    requires
        n < CORRECTNESS_BOUND,
    ensures
        r == miller_rabin_accepts(n as int),
        is_prime_number(n as int) ==> r,
{
    proof {
        if is_prime_number(n as int) {
            lemma_primes_are_accepted(n as int);
        }
    }
    let table = create_small_trailing();
    is_prime_with(&table, n)
}

/// One Miller–Rabin round on `n` against a single chosen base: 2 is prime,
/// other even numbers and numbers below 2 are not, and an odd `n >= 3` passes
/// when it is a strong probable prime to `base`.
pub fn miller_rabin_single_witness(n: i128, base: i128) -> (r: bool)
    requires
        n < CORRECTNESS_BOUND,
        n >= 3 && n % 2 == 1 ==> 0 <= base < n,
    ensures
        n < 2 || n % 2 == 0 ==> r == (n == 2),
        n >= 3 && n % 2 == 1 ==> r == strong_probable_prime(n as int, base as int),
{
    if n < 2 || n % 2 == 0 {
        return n == 2;
    }
    let table = create_small_trailing();
    let (s, d) = decompose(&table, n);
    witness_round(n as u128, base as u128, s, d)
}

/// The candidates `low, low + 1, ..., high` in ascending order.
pub fn candidate_range(low: i128, high: i128) -> (r: Vec<i128>)
    requires
        low <= high,
        high - low + 1 <= usize::MAX,
    ensures
        r@.len() == high - low + 1,
        forall|i: int| 0 <= i < r@.len() ==> #[trigger] r@[i] == low + i,
{
    let count: usize = (high - low + 1) as usize;
    let mut r: Vec<i128> = Vec::new();
    let mut k: usize = 0;
    while k < count
        invariant
            low <= high,
            count == high - low + 1,
            k <= count,
            r@.len() == k,
            forall|i: int| 0 <= i < r@.len() ==> #[trigger] r@[i] == low + i,
        decreases count - k,
    {
        r.push(low + k as i128);
        k = k + 1;
    }
    r
}

/// `is_prime_range(low, high)`: one verdict per candidate of `[low, high]`,
/// in ascending order.
pub fn miller_rabin_impl(low: i128, high: i128) -> (r: Vec<bool>)
    requires
        low <= high,
        high < CORRECTNESS_BOUND,
        high - low + 1 <= usize::MAX,
    ensures
        r@.len() == high - low + 1,
        forall|i: int| 0 <= i < r@.len() ==> #[trigger] r@[i] == miller_rabin_accepts(low + i),
{
    let table = create_small_trailing();
    let candidates = candidate_range(low, high);
    let mut r: Vec<bool> = Vec::new();
    let mut i: usize = 0;
    while i < candidates.len()
        invariant
            table.wf(),
            high < CORRECTNESS_BOUND,
            candidates@.len() == high - low + 1,
            forall|k: int| 0 <= k < candidates@.len() ==> #[trigger] candidates@[k] == low + k,
            0 <= i <= candidates@.len(),
            r@.len() == i,
            forall|k: int| 0 <= k < i ==> #[trigger] r@[k] == miller_rabin_accepts(low + k),
        decreases candidates@.len() - i,
    {
        r.push(is_prime_with(&table, candidates[i]));
        i = i + 1;
    }
    r
}

} // verus!
