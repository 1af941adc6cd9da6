//! The witness base table: for each magnitude bracket below the correctness
//! bound, a fixed set of Miller–Rabin bases that decides primality exactly
//! within that bracket.

use vstd::prelude::*;

verus! {

/// The bracket that `n` falls in: 0 for negative values, then 1 to 12 by
/// increasing magnitude.
pub open spec fn witness_bracket(n: int) -> nat {
    if n < 0 {
        0
    } else if n <= 2046 {
        1
    } else if n <= 1373652 {
        2
    } else if n <= 9080190 {
        3
    } else if n <= 25326000 {
        4
    } else if n <= 3215031750 {
        5
    } else if n <= 4759123140 {
        6
    } else if n <= 1122004669632 {
        7
    } else if n <= 2152302898746 {
        8
    } else if n <= 3474749660382 {
        9
    } else if n <= 341550071728320 {
        10
    } else if n <= 3825123056546413050 {
        11
    } else {
        12
    }
}

/// The bases of each bracket. The primes up to 37 alone decide only below
/// 318665857834031151167461, the least composite that passes all twelve of
/// them; with 41 added they decide everything below the correctness bound,
/// the least composite that passes the primes up to 41.
pub open spec fn bracket_bases(k: nat) -> Seq<u32> {
    if k == 0 {
        seq![]
    } else if k == 1 {
        seq![2]
    } else if k == 2 {
        seq![2, 3]
    } else if k == 3 {
        seq![31, 73]
    } else if k == 4 {
        seq![2, 3, 5]
    } else if k == 5 {
        seq![2, 3, 5, 7]
    } else if k == 6 {
        seq![2, 7, 61]
    } else if k == 7 {
        seq![2, 13, 23, 1662803]
    } else if k == 8 {
        seq![2, 3, 5, 7, 11]
    } else if k == 9 {
        seq![2, 3, 5, 7, 11, 13]
    } else if k == 10 {
        seq![2, 3, 5, 7, 11, 13, 17]
    } else if k == 11 {
        seq![2, 3, 5, 7, 11, 13, 17, 19, 23]
    } else {
        seq![2, 3, 5, 7, 11, 13, 17, 19, 23, 29, 31, 37, 41]
    }
}

/// The witness bases used for `n`.
pub open spec fn witness_bases(n: int) -> Seq<u32> {
    bracket_bases(witness_bracket(n))
}

/// Brackets never go down as the magnitude grows.
pub proof fn lemma_bracket_monotonic(n1: int, n2: int)
    requires
        n1 <= n2,
    ensures
        witness_bracket(n1) <= witness_bracket(n2),
{
}

/// Base selection depends on the bracket alone, and brackets are contiguous:
/// every value between two values of one bracket gets that bracket's bases.
pub proof fn lemma_bases_constant_on_bracket(n1: int, m: int, n2: int)
    requires
        n1 <= m <= n2,
        witness_bracket(n1) == witness_bracket(n2),
    ensures
        witness_bracket(m) == witness_bracket(n1),
        witness_bases(n1) == witness_bases(n2),
        witness_bases(m) == witness_bases(n1),
{
    lemma_bracket_monotonic(n1, m);
    lemma_bracket_monotonic(m, n2);
}

/// The witness bases for `n`: empty for negative `n`, else those of the
/// bracket that holds `n`.
pub fn get_miller_rabin_bases(n: i128) -> (r: Vec<u32>)
    ensures
        r@ == witness_bases(n as int),
{
    let r: Vec<u32> = if n < 0 {
        vec![]
    } else if n <= 2046 {
        vec![2]
    } else if n <= 1373652 {
        vec![2, 3]
    } else if n <= 9080190 {
        vec![31, 73]
    } else if n <= 25326000 {
        vec![2, 3, 5]
    } else if n <= 3215031750 {
        vec![2, 3, 5, 7]
    } else if n <= 4759123140 {
        vec![2, 7, 61]
    } else if n <= 1122004669632 {
        vec![2, 13, 23, 1662803]
    } else if n <= 2152302898746 {
        vec![2, 3, 5, 7, 11]
    } else if n <= 3474749660382 {
        vec![2, 3, 5, 7, 11, 13]
    } else if n <= 341550071728320 {
        vec![2, 3, 5, 7, 11, 13, 17]
    } else if n <= 3825123056546413050 {
        vec![2, 3, 5, 7, 11, 13, 17, 19, 23]
    } else {
        vec![2, 3, 5, 7, 11, 13, 17, 19, 23, 29, 31, 37, 41]
    };
    proof {
        assert(r@ =~= witness_bases(n as int));
    }
    r
}

} // verus!
