//! Sizing of the shared worker pool that evaluates candidate ranges.

use vstd::prelude::*;

verus! {

/// The number of workers for the shared pool: one less than the logical
/// cores, so that one core stays free, but never fewer than one.
pub fn large_pool_size(logical_cores: usize) -> (r: usize)
    ensures
        r == if logical_cores >= 2 { logical_cores - 1 } else { 1 },
        r >= 1,
{
    if logical_cores >= 2 {
        logical_cores - 1
    } else {
        1
    }
}

} // verus!
