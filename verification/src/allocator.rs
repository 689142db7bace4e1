//! The allocator API: composes the arena bookkeeping, the free-block index and
//! the allocation registry into the user-visible operations.

use vstd::prelude::*;
use vstd::pervasive::unreached;
use crate::arena::Arena;
use crate::free_list::FreeList;
use crate::registry::{Registry, block_sum, has_key, index_of_key, value_of};
use crate::{blocks_needed, spec_blocks_needed, BLOCK_SIZE, HEAP_SIZE, NUM_BLOCKS};

verus! {

/// The alignments the aligned operations accept.
pub open spec fn is_power_of_two(a: u64) -> bool {
    a >= 1 && a & ((a - 1) as u64) == 0
}

/// `size` rounded up to the next multiple of `a`.
pub open spec fn spec_round_up(size: u64, a: u64) -> int {
    ((size + a - 1) / (a as int)) * a
}

/// The rounded size is the least multiple of the alignment at or above `size`.
pub proof fn lemma_round_up_props(size: u64, alignment: u64)
    requires
        alignment >= 1,
    ensures
        spec_round_up(size, alignment) % (alignment as int) == 0,
        size <= spec_round_up(size, alignment) < size + alignment,
{
    let a = alignment as int;
    let m = size + a - 1;
    vstd::arithmetic::div_mod::lemma_fundamental_div_mod(m, a);
    vstd::arithmetic::div_mod::lemma_mod_division_less_than_divisor(m, a);
    vstd::arithmetic::div_mod::lemma_mod_multiples_basic(m / a, a);
}

/// A power of two fits in the top bit at most.
proof fn lemma_pow2_bound(a: u64)
    requires
        is_power_of_two(a),
    ensures
        a <= 0x8000000000000000,
{
    assert(a >= 1 && a & ((a - 1) as u64) == 0 ==> a <= 0x8000000000000000) by (bit_vector);
}

/// Rounds `size` up to the next multiple of `alignment`.
pub fn round_up_to_alignment(size: u64, alignment: u64) -> (r: u64)
    requires
        is_power_of_two(alignment),
        size + alignment - 1 <= u64::MAX,
    ensures
        r == spec_round_up(size, alignment),
{
    let m = size + (alignment - 1);
    let q = m / alignment;
    proof {
        vstd::arithmetic::div_mod::lemma_fundamental_div_mod(m as int, alignment as int);
        vstd::arithmetic::div_mod::lemma_mod_division_less_than_divisor(
            m as int,
            alignment as int,
        );
        assert(alignment as int * (m as int / alignment as int) <= m as int);
        assert(q as int * alignment as int == alignment as int * (m as int / alignment as int))
            by (nonlinear_arith)
            requires
                q as int == m as int / alignment as int,
        ;
    }
    q * alignment
}

/// Block `b` belongs to the allocation that record `e` describes.
pub open spec fn entry_covers(e: (u64, u64), b: u64) -> bool {
    e.0 <= b < e.0 + e.1
}

/// The allocations that records `d` and `e` describe share no block.
pub open spec fn entries_disjoint(d: (u64, u64), e: (u64, u64)) -> bool {
    d.0 + d.1 <= e.0 || e.0 + e.1 <= d.0
}

/// The block allocator: the arena bookkeeping, the free-block index and the
/// allocation registry, serving the exported operations.
pub struct BlockAllocator {
    pub arena: Arena,
    pub free: FreeList,
    pub registry: Registry,
}

impl BlockAllocator {
    /// The live allocation records, in insertion order.
    pub open spec fn entries(&self) -> Seq<(u64, u64)> {
        self.registry@
    }

    /// Number of free blocks.
    pub open spec fn free_count(&self) -> nat {
        self.free.free_count()
    }

    /// Block `b` is currently free.
    pub open spec fn is_free_block(&self, b: u64) -> bool {
        self.free.is_free(b)
    }

    /// A live allocation starts at block `p`.
    pub open spec fn live(&self, p: u64) -> bool {
        has_key(self.entries(), p)
    }

    /// Block count of the live allocation starting at block `p`.
    pub open spec fn count_of(&self, p: u64) -> u64 {
        value_of(self.entries(), p)
    }

    /// Well-formedness. Besides each component's own invariant it states the
    /// conservation invariant — whenever no allocate/free is in flight, the
    /// free blocks and the blocks of the live allocations exactly account for
    /// the whole arena — and that live allocations are in bounds, disjoint
    /// from the free collection and disjoint from each other.
    pub open spec fn wf(&self) -> bool {
        &&& self.arena.wf()
        &&& self.free.wf()
        &&& self.registry.wf()
        &&& self.free_count() + block_sum(self.entries()) == NUM_BLOCKS as nat
        &&& forall|i: int|
            0 <= i < self.entries().len() ==> 1 <= (#[trigger] self.entries()[i]).1
                && self.entries()[i].0 + self.entries()[i].1 <= NUM_BLOCKS
        &&& forall|i: int, b: u64|
            0 <= i < self.entries().len() && #[trigger] entry_covers(self.entries()[i], b)
                ==> !self.free.is_free(b)
        &&& forall|i: int, j: int|
            0 <= i < j < self.entries().len() ==> entries_disjoint(
                #[trigger] self.entries()[i],
                #[trigger] self.entries()[j],
            )
    }

    /// Creates the allocator at process attach: the arena bookkeeping is
    /// initialized, every block is free, and no allocation is live.
    pub fn new() -> (a: BlockAllocator)
        ensures
            a.wf(),
            a.free_count() == NUM_BLOCKS as nat,
            a.entries() =~= Seq::<(u64, u64)>::empty(),
            a.arena.pinned,
            forall|b: u64| a.is_free_block(b) <==> b < NUM_BLOCKS,
    {
        let arena = Arena::initialize();
        let free = FreeList::new_full();
        let registry = Registry::new();
        let a = BlockAllocator { arena, free, registry };
        proof {
            assert(block_sum(a.entries()) == 0);
        }
        a
    }

    /// Number of currently free blocks.
    pub fn free_blocks(&self) -> (r: u64)
        ensures
            r as nat == self.free_count(),
    {
        self.free.len()
    }

    /// Whether a live allocation starts at block `p`.
    pub fn is_live(&self, p: u64) -> (r: bool)
        requires
            self.wf(),
        ensures
            r == self.live(p),
    {
        match self.registry.lookup(p) {
            Some(_) => true,
            None => false,
        }
    }

    /// Allocates `size` bytes: carves `ceil(size / BLOCK_SIZE)` contiguous
    /// blocks off the free collection and records them under the starting
    /// block index, which it returns. Returns `None`, leaving the state
    /// unchanged, exactly when no contiguous run of that many blocks is free
    /// — so in particular whenever fewer than that many blocks are free.
    ///
    /// A zero-byte request is also answered with `None`, never a panic: the
    /// registry keys each record by its starting block, so a zero-block
    /// allocation could not be sized or freed later.
    pub fn mem_alloc(&mut self, size: u64) -> (r: Option<u64>)
        requires
            old(self).wf(),
        ensures
            final(self).wf(),
            final(self).arena == old(self).arena,
            size == 0 ==> (r is None && *final(self) == *old(self)),
            size >= 1 ==> match r {
                Some(p) => {
                    &&& !old(self).live(p)
                    &&& final(self).live(p)
                    &&& final(self).count_of(p) as nat == spec_blocks_needed(size)
                    &&& p + spec_blocks_needed(size) <= NUM_BLOCKS
                    &&& final(self).entries() == old(self).entries().push(
                        (p, spec_blocks_needed(size) as u64),
                    )
                    &&& final(self).free_count() + spec_blocks_needed(size) == old(
                        self,
                    ).free_count()
                    &&& forall|b: u64|
                        final(self).is_free_block(b) <==> (old(self).is_free_block(b) && !(p <= b
                            < p + spec_blocks_needed(size)))
                },
                None => {
                    &&& *final(self) == *old(self)
                    &&& forall|s: u64|
                        !(#[trigger] old(self).free.has_free_run(s, spec_blocks_needed(size) as u64))
                },
            },
    {
        if size == 0 {
            return None;
        }
        let n = blocks_needed(size);
        let got = self.free.acquire(n);
        match got {
            None => None,
            Some(p) => {
                proof {
                    let es = old(self).entries();
                    // p cannot be a live key: a record's own first block is
                    // never free, yet acquire found p free
                    if has_key(es, p) {
                        let i = index_of_key(es, p);
                        assert(0 <= i < es.len() && es[i].0 == p);
                        assert(entry_covers(es[i], p));
                        assert(old(self).free.is_free(p));
                        assert(false);
                    }
                }
                self.registry.insert(p, n);
                proof {
                    let es0 = old(self).entries();
                    let es1 = self.entries();
                    crate::registry::lemma_block_sum_push(es0, (p, n));
                    assert(es1 == es0.push((p, n)));
                    // the new record's key holds the block count just carved
                    let w = index_of_key(es1, p);
                    assert(es1[es1.len() - 1].0 == p);
                    assert(has_key(es1, p));
                    assert(0 <= w < es1.len() && es1[w].0 == p);
                    if w != es1.len() - 1 {
                        assert(es0[w].0 == p);
                        assert(has_key(es0, p));
                    }
                    assert(value_of(es1, p) == n);
                    // records stay off the (smaller) free collection
                    assert forall|i: int, b: u64|
                        0 <= i < es1.len() && #[trigger] entry_covers(es1[i], b) implies !self
                        .free
                        .is_free(b) by {
                        if i < es1.len() - 1 {
                            assert(entry_covers(es0[i], b));
                            assert(!old(self).free.is_free(b));
                        } else {
                            assert(p <= b < p + n);
                        }
                    }
                    // the new record is disjoint from every old one: its
                    // blocks were free, theirs never are
                    assert forall|i: int, j: int|
                        0 <= i < j < es1.len() implies entries_disjoint(
                        #[trigger] es1[i],
                        #[trigger] es1[j],
                    ) by {
                        if j == es1.len() - 1 {
                            let d = es0[i];
                            if !entries_disjoint(d, (p, n)) {
                                let b: u64 = if d.0 > p {
                                    d.0
                                } else {
                                    p
                                };
                                assert(entry_covers(d, b));
                                assert(!old(self).free.is_free(b));
                                assert(old(self).free.has_free_run(p, n));
                                assert(old(self).free.is_free(b));
                            }
                        } else {
                            assert(entries_disjoint(es0[i], es0[j]));
                        }
                    }
                }
                Some(p)
            },
        }
    }

    /// Frees the live allocation starting at block `p`: removes its record
    /// and returns its blocks to the free collection. Freeing an address the
    /// allocator never issued, or issued and already freed, is a fatal caller
    /// contract violation; the precondition excludes it, and the embedding
    /// must check `is_live` and abort before calling.
    pub fn mem_free(&mut self, p: u64)
        requires
            old(self).wf(),
            old(self).live(p),
        ensures
            final(self).wf(),
            final(self).arena == old(self).arena,
            !final(self).live(p),
            final(self).entries() == old(self).entries().remove(
                index_of_key(old(self).entries(), p),
            ),
            final(self).free_count() == old(self).free_count() + old(self).count_of(p) as nat,
            forall|b: u64|
                final(self).is_free_block(b) <==> (old(self).is_free_block(b) || (p <= b < p + old(
                    self,
                ).count_of(p))),
    {
        let ghost es0 = old(self).entries();
        let ghost i = index_of_key(es0, p);
        let c = self.registry.remove(p);
        proof {
            assert(0 <= i < es0.len() && es0[i].0 == p);
            assert(c == es0[i].1);
            crate::registry::lemma_block_sum_remove(es0, i);
            // the record's blocks are exactly the ones to hand back, and none
            // of them is free now
            assert forall|b: u64| p <= b < p + c implies !self.free.is_free(b) by {
                assert(entry_covers(es0[i], b));
            }
        }
        self.free.release(p, c);
        proof {
            let es1 = self.entries();
            assert(es1 == es0.remove(i));
            assert forall|k: int, b: u64|
                0 <= k < es1.len() && #[trigger] entry_covers(es1[k], b) implies !self
                .free
                .is_free(b) by {
                let k0: int = if k < i {
                    k
                } else {
                    k + 1
                };
                assert(es1[k] == es0[k0]);
                assert(entry_covers(es0[k0], b));
                assert(!old(self).free.is_free(b));
                if k0 < i {
                    assert(entries_disjoint(es0[k0], es0[i]));
                } else {
                    assert(entries_disjoint(es0[i], es0[k0]));
                }
            }
            assert forall|k: int, l: int|
                0 <= k < l < es1.len() implies entries_disjoint(
                #[trigger] es1[k],
                #[trigger] es1[l],
            ) by {
                let k0: int = if k < i {
                    k
                } else {
                    k + 1
                };
                let l0: int = if l < i {
                    l
                } else {
                    l + 1
                };
                assert(es1[k] == es0[k0] && es1[l] == es0[l0]);
                assert(entries_disjoint(es0[k0], es0[l0]));
            }
        }
    }

    /// Size in bytes of the live allocation starting at block `p`: its block
    /// count times `BLOCK_SIZE`, the requested size rounded up to whole
    /// blocks. Querying an unknown address is a fatal caller contract
    /// violation; the precondition excludes it.
    pub fn mem_size(&self, p: u64) -> (r: u64)
        requires
            self.wf(),
            self.live(p),
        ensures
            r == self.count_of(p) * BLOCK_SIZE,
    {
        let got = self.registry.lookup(p);
        match got {
            Some(c) => {
                proof {
                    let es = self.entries();
                    let i = index_of_key(es, p);
                    assert(0 <= i < es.len() && es[i].0 == p);
                    assert(es[i].0 + es[i].1 <= NUM_BLOCKS);
                }
                c * BLOCK_SIZE
            },
            None => unreached(),
        }
    }

    /// Allocates `size` bytes rounded up to a multiple of `alignment`, which
    /// must be a power of two. Only the requested size is padded: the result
    /// is block-aligned, like every allocation, but is not made to honour
    /// `alignment` itself. A zero-byte request pads to zero bytes and is
    /// answered with `None`, as in `mem_alloc`.
    pub fn mem_alloc_aligned(&mut self, size: u64, alignment: u64) -> (r: Option<u64>)
        requires
            old(self).wf(),
            is_power_of_two(alignment),
            size + alignment - 1 <= u64::MAX,
        ensures
            final(self).wf(),
            final(self).arena == old(self).arena,
            size == 0 ==> (r is None && *final(self) == *old(self)),
            size >= 1 ==> ({
                let padded = spec_round_up(size, alignment) as u64;
                match r {
                    Some(p) => {
                        &&& !old(self).live(p)
                        &&& final(self).live(p)
                        &&& final(self).count_of(p) as nat == spec_blocks_needed(padded)
                        &&& p + spec_blocks_needed(padded) <= NUM_BLOCKS
                        &&& final(self).entries() == old(self).entries().push(
                            (p, spec_blocks_needed(padded) as u64),
                        )
                        &&& final(self).free_count() + spec_blocks_needed(padded) == old(
                            self,
                        ).free_count()
                    },
                    None => {
                        &&& *final(self) == *old(self)
                        &&& forall|s: u64|
                            !(#[trigger] old(self).free.has_free_run(
                                s,
                                spec_blocks_needed(padded) as u64,
                            ))
                    },
                }
            }),
    {
        let padded = round_up_to_alignment(size, alignment);
        proof {
            lemma_round_up_props(size, alignment);
            if size == 0 {
                // a zero request pads to zero bytes
                vstd::arithmetic::div_mod::lemma_basic_div(
                    alignment as int - 1,
                    alignment as int,
                );
            }
        }
        self.mem_alloc(padded)
    }

    /// Size of the live allocation starting at block `p`, rounded up to a
    /// multiple of `alignment`, which must be a power of two.
    pub fn mem_size_aligned(&self, p: u64, alignment: u64) -> (r: u64)
        requires
            self.wf(),
            self.live(p),
            is_power_of_two(alignment),
        ensures
            r == spec_round_up((self.count_of(p) * BLOCK_SIZE) as u64, alignment),
    {
        let s = self.mem_size(p);
        proof {
            lemma_pow2_bound(alignment);
            let es = self.entries();
            let i = index_of_key(es, p);
            assert(0 <= i < es.len() && es[i].0 == p);
            assert(es[i].0 + es[i].1 <= NUM_BLOCKS);
        }
        round_up_to_alignment(s, alignment)
    }

    /// Total bytes committed for the arena: constant, whatever allocation
    /// activity took place.
    pub fn total_committed(&self) -> (r: u64)
        requires
            self.wf(),
        ensures
            r == HEAP_SIZE,
    {
        self.arena.total_committed()
    }

    /// Total bytes reserved for the arena: constant, whatever allocation
    /// activity took place.
    pub fn total_reserved(&self) -> (r: u64)
        requires
            self.wf(),
        ensures
            r == HEAP_SIZE,
    {
        self.arena.total_reserved()
    }

    /// Cache flush hook: the allocator keeps no cache, so the call returns
    /// its argument and provably leaves the allocator untouched.
    pub fn mem_flush_cache(&mut self, handle: u64) -> (r: u64)
        ensures
            *final(self) == *old(self),
            r == handle,
    {
        handle
    }

    /// Flush-everything hook: provably a no-op on the allocator state.
    pub fn mem_flush_cache_all(&mut self)
        ensures
            *final(self) == *old(self),
    {
    }

    /// Huge-page hook: huge pages are treated as always active, so enabling
    /// or disabling them provably changes nothing.
    pub fn enable_huge_pages(&mut self, _enable: bool)
        ensures
            *final(self) == *old(self),
    {
    }
}

/// Conservation law: in every well-formed state, with no operation in flight,
/// the free block count plus the blocks of all live allocations equals
/// `NUM_BLOCKS`.
pub proof fn lemma_block_conservation(a: BlockAllocator)
    requires
        a.wf(),
    ensures
        a.free_count() + block_sum(a.entries()) == NUM_BLOCKS as nat,
{
}

/// Round-trip law: freeing the allocation that a successful allocate returned
/// restores the free block count to its value before the allocation. `a0` is
/// any well-formed state, `a1` the state after `mem_alloc(size)` returned the
/// block `p`, and `a2` the state after `mem_free(p)`; each step is
/// characterized by the two calls' postconditions.
pub proof fn lemma_alloc_free_round_trip(
    a0: BlockAllocator,
    a1: BlockAllocator,
    a2: BlockAllocator,
    size: u64,
    p: u64,
)
    requires
        1 <= size,
        !a0.live(p),
        a1.entries() == a0.entries().push((p, spec_blocks_needed(size) as u64)),
        a1.free_count() + spec_blocks_needed(size) == a0.free_count(),
        a2.free_count() == a1.free_count() + a1.count_of(p) as nat,
    ensures
        a2.free_count() == a0.free_count(),
{
    let es = a1.entries();
    let n = spec_blocks_needed(size) as u64;
    let last = es.len() - 1;
    assert(es[last] == (p, n));
    assert(has_key(es, p));
    let i = index_of_key(es, p);
    assert(0 <= i < es.len() && es[i].0 == p);
    if i != last {
        assert(a0.entries()[i].0 == p);
        assert(has_key(a0.entries(), p));
    }
    assert(a1.count_of(p) == n);
    assert(spec_blocks_needed(size) <= u64::MAX);
}

} // verus!

