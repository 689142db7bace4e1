//! The allocation registry: one record per live allocation, mapping the
//! allocation's starting block index to the number of blocks it occupies.
//!
//! Records are kept as an association list whose keys are unique. The registry
//! is consulted on size queries and tells `free` how many blocks to return.

use vstd::prelude::*;

verus! {

/// True when `k` is the key of some record in `es`.
pub open spec fn has_key(es: Seq<(u64, u64)>, k: u64) -> bool {
    exists|i: int| 0 <= i < es.len() && es[i].0 == k
}

/// The index of the record with key `k`.
pub open spec fn index_of_key(es: Seq<(u64, u64)>, k: u64) -> int {
    choose|i: int| 0 <= i < es.len() && es[i].0 == k
}

/// The block count recorded under key `k`.
pub open spec fn value_of(es: Seq<(u64, u64)>, k: u64) -> u64 {
    es[index_of_key(es, k)].1
}

/// Total number of blocks held by all records.
pub open spec fn block_sum(es: Seq<(u64, u64)>) -> nat
    decreases es.len(),
{
    if es.len() == 0 {
        0
    } else {
        es[0].1 as nat + block_sum(es.drop_first())
    }
}

/// Keys are pairwise distinct.
pub open spec fn unique_keys(es: Seq<(u64, u64)>) -> bool {
    forall|i: int, j: int| 0 <= i < j < es.len() ==> es[i].0 != es[j].0
}

pub proof fn lemma_block_sum_push(es: Seq<(u64, u64)>, e: (u64, u64))
    ensures
        block_sum(es.push(e)) == block_sum(es) + e.1,
    decreases es.len(),
{
    if es.len() == 0 {
        assert(es.push(e).drop_first() =~= Seq::<(u64, u64)>::empty());
        assert(block_sum(es.push(e).drop_first()) == 0);
        assert(es.push(e)[0] == e);
    } else {
        lemma_block_sum_push(es.drop_first(), e);
        assert(es.push(e).drop_first() =~= es.drop_first().push(e));
        assert(es.push(e)[0] == es[0]);
        assert(block_sum(es.push(e)) == es[0].1 as nat + block_sum(es.push(e).drop_first()));
    }
}

pub proof fn lemma_block_sum_remove(es: Seq<(u64, u64)>, i: int)
    requires
        0 <= i < es.len(),
    ensures
        block_sum(es.remove(i)) == block_sum(es) - es[i].1,
    decreases i,
{
    if i == 0 {
        assert(es.remove(0) =~= es.drop_first());
    } else {
        lemma_block_sum_remove(es.drop_first(), i - 1);
        assert(es.remove(i).drop_first() =~= es.drop_first().remove(i - 1));
        assert(es.remove(i)[0] == es[0]);
    }
}

/// Maps a live allocation's starting block index to its block count.
pub struct Registry {
    pub entries: Vec<(u64, u64)>,
}

impl Registry {
    /// The records, in insertion order.
    pub open spec fn view(&self) -> Seq<(u64, u64)> {
        self.entries@
    }

    pub open spec fn wf(&self) -> bool {
        unique_keys(self@)
    }

    /// An empty registry, built eagerly alongside the arena.
    pub fn new() -> (r: Registry)
        ensures
            r.wf(),
            r@ =~= Seq::<(u64, u64)>::empty(),
    {
        Registry { entries: Vec::new() }
    }

    /// Records a fresh allocation of `count` blocks starting at block `key`.
    pub fn insert(&mut self, key: u64, count: u64)
        requires
            old(self).wf(),
            !has_key(old(self)@, key),
        ensures
            final(self).wf(),
            final(self)@ == old(self)@.push((key, count)),
    {
        self.entries.push((key, count));
        assert forall|i: int, j: int| 0 <= i < j < self@.len() implies self@[i].0 != self@[j].0 by {
            if j + 1 == self@.len() {
                assert(!(old(self)@[i].0 == key));
            }
        }
    }

    /// Looks up the block count of the allocation starting at block `key`,
    /// or `None` when no live allocation starts there.
    pub fn lookup(&self, key: u64) -> (r: Option<u64>)
        requires
            self.wf(),
        ensures
            match r {
                Some(c) => has_key(self@, key) && c == value_of(self@, key),
                None => !has_key(self@, key),
            },
    {
        let n = self.entries.len();
        let mut i: usize = 0;
        while i < n
            invariant
                n == self@.len(),
                0 <= i <= n,
                self.wf(),
                forall|k: int| 0 <= k < i ==> self@[k].0 != key,
            decreases n - i,
        {
            let (k, c) = self.entries[i];
            if k == key {
                proof {
                    let w = index_of_key(self@, key);
                    assert(0 <= w < self@.len() && self@[w].0 == key);
                    assert(w == i as int);
                }
                return Some(c);
            }
            i += 1;
        }
        None
    }

    /// Removes the record of the allocation starting at block `key` and
    /// returns its block count.
    pub fn remove(&mut self, key: u64) -> (c: u64)
        requires
            old(self).wf(),
            has_key(old(self)@, key),
        ensures
            final(self).wf(),
            c == value_of(old(self)@, key),
            final(self)@ == old(self)@.remove(index_of_key(old(self)@, key)),
            !has_key(final(self)@, key),
    {
        let n = self.entries.len();
        let mut i: usize = 0;
        loop
            invariant
                n == self@.len(),
                0 <= i <= n,
                self.wf(),
                *self == *old(self),
                has_key(self@, key),
                forall|k: int| 0 <= k < i ==> self@[k].0 != key,
            decreases n - i,
        {
            if i >= n {
                proof {
                    let w = index_of_key(self@, key);
                    assert(0 <= w < self@.len() && self@[w].0 == key);
                    assert(false);
                }
                // has_key guarantees the scan finds the record first.
                return 0;
            }
            let (k, c) = self.entries[i];
            if k == key {
                proof {
                    let w = index_of_key(self@, key);
                    assert(0 <= w < self@.len() && self@[w].0 == key);
                    assert(w == i as int);
                }
                self.entries.remove(i);
                proof {
                    let es = old(self)@;
                    assert forall|p: int, q: int|
                        0 <= p < q < self@.len() implies self@[p].0 != self@[q].0 by {
                        let p0: int = if p < i as int { p } else { p + 1 };
                        let q0: int = if q < i as int { q } else { q + 1 };
                        assert(self@[p] == es[p0] && self@[q] == es[q0]);
                    }
                    assert forall|p: int| 0 <= p < self@.len() implies self@[p].0 != key by {
                        let p0: int = if p < i as int { p } else { p + 1 };
                        assert(self@[p] == old(self)@[p0]);
                    }
                }
                return c;
            }
            i += 1;
        }
    }
}

} // verus!
