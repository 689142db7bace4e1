//! The arena: bookkeeping for the one large reserved-and-committed memory
//! region backing all allocations.
//!
//! The region itself is owned by the embedding that hosts the allocator: it
//! reserves, commits and pins `HEAP_SIZE` bytes at process attach, touches one
//! byte per native page so the commit is given real physical backing, and
//! releases the region at process detach. This module records the sizes and
//! the pin state, and does the index/offset arithmetic so the embedding only
//! ever adds an offset to its base pointer.

use vstd::prelude::*;
use crate::{BLOCK_SIZE, HEAP_SIZE, NUM_BLOCKS};

verus! {

/// Size in bytes of one native memory page, touched once during warm-up.
pub const PAGE_SIZE: u64 = 4096;

/// The arena's bookkeeping: how much is reserved and committed, and whether
/// the pages are pinned against being swapped out.
pub struct Arena {
    pub committed: u64,
    pub reserved: u64,
    pub pinned: bool,
}

impl Arena {
    pub open spec fn wf(&self) -> bool {
        &&& self.committed == HEAP_SIZE
        &&& self.reserved == HEAP_SIZE
    }

    /// Set up at process attach: the whole heap is reserved, committed and
    /// pinned at once. If the host environment cannot provide the region,
    /// the allocator cannot run at all; that failure is the embedding's to
    /// report, before this bookkeeping is created.
    pub fn initialize() -> (a: Arena)
        ensures
            a.wf(),
            a.pinned,
    {
        Arena { committed: HEAP_SIZE, reserved: HEAP_SIZE, pinned: true }
    }

    /// Torn down at process detach, once, after all allocation traffic has
    /// quiesced: the pages are unpinned before the region is released.
    pub fn teardown(&mut self)
        requires
            old(self).pinned,
        ensures
            !final(self).pinned,
            final(self).committed == old(self).committed,
            final(self).reserved == old(self).reserved,
    {
        self.pinned = false;
    }

    /// Total bytes committed: constant for the life of the arena.
    pub fn total_committed(&self) -> (r: u64)
        requires
            self.wf(),
        ensures
            r == HEAP_SIZE,
    {
        self.committed
    }

    /// Total bytes reserved: constant for the life of the arena.
    pub fn total_reserved(&self) -> (r: u64)
        requires
            self.wf(),
        ensures
            r == HEAP_SIZE,
    {
        self.reserved
    }
}

/// Number of pages the warm-up writes touch: one write per native page forces
/// the lazily-satisfied commit to be backed by physical memory.
pub fn warmup_page_count() -> (r: u64)
    ensures
        r == HEAP_SIZE / PAGE_SIZE,
{
    HEAP_SIZE / PAGE_SIZE
}

/// Byte offset from the arena base of the page touched by warm-up step `i`.
pub fn warmup_page_offset(i: u64) -> (r: u64)
    requires
        i < HEAP_SIZE / PAGE_SIZE,
    ensures
        r == i * PAGE_SIZE,
        r < HEAP_SIZE,
{
    i * PAGE_SIZE
}

/// Byte offset from the arena base at which block `index` begins. The
/// embedding adds this to its base pointer to form the address it hands out.
pub fn block_offset(index: u64) -> (r: u64)
    requires
        index < NUM_BLOCKS,
    ensures
        r == index * BLOCK_SIZE,
        r < HEAP_SIZE,
        r % BLOCK_SIZE == 0,
{
    proof {
        vstd::arithmetic::div_mod::lemma_mod_multiples_basic(index as int, BLOCK_SIZE as int);
    }
    index * BLOCK_SIZE
}

/// Block index of the allocation whose first byte lies `offset` bytes past
/// the arena base: the inverse of `block_offset`.
pub fn block_index(offset: u64) -> (r: u64)
    requires
        offset < HEAP_SIZE,
        offset % BLOCK_SIZE == 0,
    ensures
        r == offset / BLOCK_SIZE,
        r < NUM_BLOCKS,
        r * BLOCK_SIZE == offset,
{
    proof {
        vstd::arithmetic::div_mod::lemma_fundamental_div_mod(offset as int, BLOCK_SIZE as int);
    }
    offset / BLOCK_SIZE
}

} // verus!
