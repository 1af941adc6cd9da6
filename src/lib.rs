//! Deterministic Miller–Rabin primality testing below a proven correctness
//! bound, with the bit-scanning, witness-table and range-evaluation machinery
//! it is built from, and a few companion number-theoretic routines.
//!
//! Candidates are `i128` values: the correctness bound lies below `2^82`, so
//! every candidate the procedure may decide fits, and modular products are
//! formed in `u128` without overflow. `fermat` proves that every prime is
//! accepted; that composites below the bound are rejected rests on the
//! published witness sets of `bases`.

pub mod bases;
pub mod bitscan;
pub mod fermat;
pub mod gcd;
pub mod mersenne;
pub mod mobius;
pub mod modular;
pub mod pool;
pub mod primes;
pub mod residues;
pub mod sieve;

pub use bases::get_miller_rabin_bases;
pub use bitscan::{bit_scan1, create_small_trailing, TrailingZeroTable};
pub use gcd::{binary_gcd, euclidean_gcd, is_coprime};
pub use mersenne::{is_mersenne_prime, lucas_lehmer_q};
pub use mobius::mobius;
pub use modular::pow_mod;
pub use pool::large_pool_size;
pub use primes::{
    candidate_range, decompose, is_prime_with, miller_rabin_impl, miller_rabin_single, miller_rabin_single_witness,
    CORRECTNESS_BOUND,
};
pub use residues::quadratic_residues;
pub use sieve::sieve;
