//! The load policy: how many slots an index needs for a number of pairs.

use vstd::prelude::*;

verus! {

/// The number of pairs that a map made by `new` has room for.
pub const DEFAULT_CAPACITY: usize = 32;

/// By how much the indices grow when the map is near full.
pub const GROWTH_FACTOR: usize = 2;

/// The maximum load of an index is this many tenths of its slots.
pub const MAX_LOAD_TENTHS: usize = 9;

/// Whether `count` pairs stay under the maximum load of nine tenths in an
/// index of `capacity` slots.
pub open spec fn under_max_load(count: int, capacity: int) -> bool {
    count * 10 < capacity * MAX_LOAD_TENTHS
}

/// The index size that the load policy asks for `capacity` pairs: one more
/// than `capacity` divided by nine tenths, rounded down.
pub open spec fn loaded_capacity(capacity: int) -> int {
    capacity * 10 / (MAX_LOAD_TENTHS as int) + 1
}

/// Every count is under the maximum load of the index size made for it.
pub proof fn lemma_loaded_capacity_fits(count: int)
    requires
        count >= 0,
    ensures
        under_max_load(count, loaded_capacity(count)),
        loaded_capacity(count) > count,
{
}

/// Increase a capacity to make sure no reallocation is required while
/// filling the capacity even when the maximum load is reached.
pub fn apply_load_factor(capacity: usize) -> (r: usize)
    requires
        loaded_capacity(capacity as int) <= usize::MAX,
    ensures
        r == loaded_capacity(capacity as int),
{
    let wide: u128 = (capacity as u128) * 10 / (MAX_LOAD_TENTHS as u128) + 1;
    wide as usize
}

/// Computes [`loaded_capacity`], or `None` where it does not fit a `usize`.
pub fn checked_load_factor(capacity: usize) -> (r: Option<usize>)
    ensures
        r == (if loaded_capacity(capacity as int) <= usize::MAX {
            Some(loaded_capacity(capacity as int) as usize)
        } else {
            None
        }),
{
    let wide: u128 = (capacity as u128) * 10 / (MAX_LOAD_TENTHS as u128) + 1;
    if wide <= usize::MAX as u128 {
        Some(wide as usize)
    } else {
        None
    }
}

} // verus!
