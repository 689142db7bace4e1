//! A fixed-granularity block allocator over a single pre-committed memory
//! arena.
//!
//! The arena is `HEAP_SIZE` bytes, logically partitioned into `NUM_BLOCKS`
//! blocks of `BLOCK_SIZE` bytes each. A free-block index tracks which blocks
//! are unused, a registry maps each live allocation to the number of blocks it
//! occupies, and the allocator API composes the two. All bookkeeping works on
//! block indices; turning an index into a machine address is left to the
//! embedding that owns the arena's base pointer.

use vstd::prelude::*;

pub mod allocator;
pub mod arena;
pub mod free_list;
pub mod registry;

verus! {

/// Size in bytes of one block, the unit of allocation granularity.
pub const BLOCK_SIZE: u64 = 8;

/// Total size in bytes of the arena backing all allocations.
pub const HEAP_SIZE: u64 = 8 * 1024 * 1024 * 1024;

/// Number of blocks the arena is partitioned into.
pub const NUM_BLOCKS: u64 = HEAP_SIZE / BLOCK_SIZE;

/// Number of blocks needed to hold `size` bytes: `size / BLOCK_SIZE` rounded
/// up to the next whole block.
pub open spec fn spec_blocks_needed(size: u64) -> nat {
    ((size + BLOCK_SIZE - 1) / (BLOCK_SIZE as int)) as nat
}

/// Computes how many whole blocks a request of `size` bytes occupies.
pub fn blocks_needed(size: u64) -> (n: u64)
    ensures
        n as nat == spec_blocks_needed(size),
        size >= 1 ==> n >= 1,
{
    let q = size / BLOCK_SIZE;
    let r = size % BLOCK_SIZE;
    if r == 0 {
        q
    } else {
        q + 1
    }
}

} // verus!
