//! Quadratic residues modulo a number.

use vstd::prelude::*;

verus! {

/// `v` is the square of some `x` in `0..=p/2`, reduced modulo `p`.
pub open spec fn is_listed_residue(p: int, v: int) -> bool {
    exists|x: int| 0 <= x <= p / 2 && #[trigger] ((x * x) % p) == v
}

/// The distinct values of `x^2 mod p` for `x` in `0..=p/2`, in increasing
/// order.
pub fn quadratic_residues(p: u64) -> (r: Vec<u64>)
    requires
        0 < p,
        p < usize::MAX,
    ensures
        forall|k1: int, k2: int| 0 <= k1 < k2 < r@.len() ==> r@[k1] < r@[k2],
        forall|k: int| 0 <= k < r@.len() ==> is_listed_residue(p as int, #[trigger] r@[k] as int),
        forall|x: int| 0 <= x <= p / 2 ==> r@.contains(#[trigger] ((x * x) % (p as int)) as u64),
{
    let size = p as usize;
    let mut seen: Vec<bool> = Vec::new();
    while seen.len() < size
        invariant
            seen@.len() <= size,
            size == p,
            forall|v: int| 0 <= v < seen@.len() ==> !(#[trigger] seen@[v]),
        decreases size - seen@.len(),
    {
        seen.push(false);
    }
    let half: u64 = p / 2;
    let mut x: u64 = 0;
    while x <= half
        invariant
            0 < p,
            size == p,
            half == p / 2,
            x <= half + 1,
            seen@.len() == size,
            forall|v: int| 0 <= v < p && #[trigger] seen@[v] ==> is_listed_residue(p as int, v),
            forall|y: int| 0 <= y < x ==> #[trigger] seen@[(y * y) % (p as int)],
        decreases half + 1 - x,
    {
        proof {
            assert((x as int) * (x as int) <= 0xffff_ffff_ffff_ffffu64 as int * 0xffff_ffff_ffff_ffffu64 as int) by (nonlinear_arith)
                requires
                    0 <= x <= 0xffff_ffff_ffff_ffffu64,
            ;
        }
        let wide: u128 = (x as u128) * (x as u128);
        let v: u128 = wide % (p as u128);
        seen.set(v as usize, true);
        proof {
            assert(((x as int) * (x as int)) % (p as int) == v);
        }
        x = x + 1;
    }
    let mut r: Vec<u64> = Vec::new();
    let mut v: usize = 0;
    while v < size
        invariant
            size == p,
            v <= size,
            seen@.len() == size,
            forall|w: int| 0 <= w < p && #[trigger] seen@[w] ==> is_listed_residue(p as int, w),
            forall|k1: int, k2: int| 0 <= k1 < k2 < r@.len() ==> r@[k1] < r@[k2],
            forall|k: int| 0 <= k < r@.len() ==> #[trigger] r@[k] < v && seen@[r@[k] as int],
            forall|w: int| 0 <= w < v && #[trigger] seen@[w] ==> r@.contains(w as u64),
        decreases size - v,
    {
        if seen[v] {
            let ghost before = r@;
            r.push(v as u64);
            proof {
                assert forall|w: int| 0 <= w < v + 1 && #[trigger] seen@[w] implies r@.contains(w as u64) by {
                    if w == v {
                        assert(r@[r@.len() - 1] == w as u64);
                    } else {
                        let k = choose|k: int| 0 <= k < before.len() && before[k] == w as u64;
                        assert(r@[k] == w as u64);
                    }
                }
            }
        }
        v = v + 1;
    }
    proof {
        assert forall|y: int| 0 <= y <= p / 2 implies r@.contains(#[trigger] ((y * y) % (p as int)) as u64) by {
            assert(seen@[(y * y) % (p as int)]);
        }
        assert forall|k: int| 0 <= k < r@.len() implies is_listed_residue(p as int, #[trigger] r@[k] as int) by {
            assert(seen@[r@[k] as int]);
        }
    }
    r
}

} // verus!
