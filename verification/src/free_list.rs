//! The free-block index: tracks which blocks of the arena are unused.
//!
//! Free blocks are kept as a sorted list of disjoint, coalesced runs
//! `[start, end)`, so an acquisition always hands back a genuinely contiguous
//! range of blocks and a release merges the returned range back into its
//! neighbours.

use vstd::prelude::*;
use crate::NUM_BLOCKS;

verus! {

/// Number of blocks in the run `r`.
pub open spec fn run_len(r: (u64, u64)) -> nat {
    (r.1 - r.0) as nat
}

/// Total number of blocks over all runs.
pub open spec fn runs_count(rs: Seq<(u64, u64)>) -> nat
    decreases rs.len(),
{
    if rs.len() == 0 {
        0
    } else {
        run_len(rs[0]) + runs_count(rs.drop_first())
    }
}

/// Block `b` lies inside one of the runs.
pub open spec fn runs_cover(rs: Seq<(u64, u64)>, b: u64) -> bool {
    exists|i: int| 0 <= i < rs.len() && (#[trigger] rs[i]).0 <= b && b < rs[i].1
}

/// Runs are nonempty, in bounds, sorted, disjoint and coalesced: between two
/// consecutive runs at least one block is not free.
pub open spec fn runs_wf(rs: Seq<(u64, u64)>) -> bool {
    &&& forall|i: int| 0 <= i < rs.len() ==> (#[trigger] rs[i]).0 < rs[i].1 <= NUM_BLOCKS
    &&& forall|i: int| 0 <= i && i + 1 < rs.len() ==> (#[trigger] rs[i]).1 < rs[i + 1].0
}

/// Sortedness of consecutive runs extends to any pair of runs.
pub proof fn lemma_runs_sorted(rs: Seq<(u64, u64)>, i: int, j: int)
    requires
        runs_wf(rs),
        0 <= i < j < rs.len(),
    ensures
        rs[i].1 < rs[j].0,
    decreases j - i,
{
    if i + 1 < j {
        lemma_runs_sorted(rs, i + 1, j);
    }
}

/// Every single run is at most the whole count.
pub proof fn lemma_runs_count_lower(rs: Seq<(u64, u64)>, i: int)
    requires
        0 <= i < rs.len(),
    ensures
        run_len(rs[i]) <= runs_count(rs),
    decreases i,
{
    if i == 0 {
    } else {
        lemma_runs_count_lower(rs.drop_first(), i - 1);
    }
}

/// Sorted disjoint runs in `[rs[0].0, NUM_BLOCKS)` hold at most
/// `NUM_BLOCKS - rs[0].0` blocks in total.
pub proof fn lemma_runs_count_bound(rs: Seq<(u64, u64)>)
    requires
        runs_wf(rs),
        rs.len() > 0,
    ensures
        runs_count(rs) + rs[0].0 <= NUM_BLOCKS,
    decreases rs.len(),
{
    if rs.len() == 1 {
        assert(runs_count(rs.drop_first()) == 0);
    } else {
        assert(runs_wf(rs.drop_first()));
        lemma_runs_count_bound(rs.drop_first());
    }
}

pub proof fn lemma_runs_count_update(rs: Seq<(u64, u64)>, i: int, r: (u64, u64))
    requires
        0 <= i < rs.len(),
    ensures
        runs_count(rs.update(i, r)) == runs_count(rs) - run_len(rs[i]) + run_len(r),
    decreases i,
{
    if i == 0 {
        assert(rs.update(0, r).drop_first() =~= rs.drop_first());
        assert(rs.update(0, r)[0] == r);
    } else {
        lemma_runs_count_update(rs.drop_first(), i - 1, r);
        assert(rs.update(i, r).drop_first() =~= rs.drop_first().update(i - 1, r));
        assert(rs.update(i, r)[0] == rs[0]);
    }
}

pub proof fn lemma_runs_count_remove(rs: Seq<(u64, u64)>, i: int)
    requires
        0 <= i < rs.len(),
    ensures
        runs_count(rs.remove(i)) == runs_count(rs) - run_len(rs[i]),
    decreases i,
{
    if i == 0 {
        assert(rs.remove(0) =~= rs.drop_first());
    } else {
        lemma_runs_count_remove(rs.drop_first(), i - 1);
        assert(rs.remove(i).drop_first() =~= rs.drop_first().remove(i - 1));
        assert(rs.remove(i)[0] == rs[0]);
    }
}

pub proof fn lemma_runs_count_insert(rs: Seq<(u64, u64)>, i: int, r: (u64, u64))
    requires
        0 <= i <= rs.len(),
    ensures
        runs_count(rs.insert(i, r)) == runs_count(rs) + run_len(r),
    decreases i,
{
    if i == 0 {
        assert(rs.insert(0, r).drop_first() =~= rs);
        assert(rs.insert(0, r)[0] == r);
    } else {
        lemma_runs_count_insert(rs.drop_first(), i - 1, r);
        assert(rs.insert(i, r).drop_first() =~= rs.drop_first().insert(i - 1, r));
        assert(rs.insert(i, r)[0] == rs[0]);
    }
}

/// Tracks the blocks of the arena not assigned to any live allocation.
pub struct FreeList {
    pub runs: Vec<(u64, u64)>,
    pub count: u64,
}

impl FreeList {
    pub open spec fn wf(&self) -> bool {
        &&& runs_wf(self.runs@)
        &&& self.count as nat == runs_count(self.runs@)
    }

    /// Number of free blocks.
    pub open spec fn free_count(&self) -> nat {
        self.count as nat
    }

    /// Block `b` is currently free.
    pub open spec fn is_free(&self, b: u64) -> bool {
        runs_cover(self.runs@, b)
    }

    /// The `n` blocks `[s, s + n)` are all free.
    pub open spec fn has_free_run(&self, s: u64, n: u64) -> bool {
        &&& s + n <= NUM_BLOCKS
        &&& forall|b: u64| s <= b < s + n ==> self.is_free(b)
    }

    /// A free list holding every block of the arena, as populated when the
    /// arena is created.
    pub fn new_full() -> (fl: FreeList)
        ensures
            fl.wf(),
            fl.free_count() == NUM_BLOCKS as nat,
            forall|b: u64| fl.is_free(b) <==> b < NUM_BLOCKS,
    {
        let mut runs: Vec<(u64, u64)> = Vec::new();
        runs.push((0, NUM_BLOCKS));
        let fl = FreeList { runs, count: NUM_BLOCKS };
        proof {
            assert(fl.runs@.len() == 1);
            assert(runs_count(fl.runs@.drop_first()) == 0);
            assert(fl.runs@[0] == (0u64, NUM_BLOCKS));
            assert forall|b: u64| b < NUM_BLOCKS implies fl.is_free(b) by {
                assert(fl.runs@[0].0 <= b < fl.runs@[0].1);
            }
        }
        fl
    }

    /// How many blocks are currently free.
    pub fn len(&self) -> (n: u64)
        ensures
            n as nat == self.free_count(),
    {
        self.count
    }

    /// A contiguous run of `n` free blocks exists only when at least `n`
    /// blocks are free in total.
    pub proof fn lemma_free_run_needs_count(&self, s: u64, n: u64)
        requires
            self.wf(),
            1 <= n,
            self.has_free_run(s, n),
        ensures
            n as nat <= self.free_count(),
    {
        assert(self.is_free(s));
        let i = choose|i: int| 0 <= i < self.runs@.len() && (#[trigger] self.runs@[i]).0 <= s && s < self.runs@[i].1;
        lemma_free_run_within_run(*self, s, n, i);
        lemma_runs_count_lower(self.runs@, i);
    }

    /// Removes a contiguous run of `n` blocks from the free collection and
    /// returns its starting block index; fails, leaving the collection
    /// unmodified, exactly when no contiguous run of `n` free blocks exists.
    pub fn acquire(&mut self, n: u64) -> (r: Option<u64>)
        requires
            old(self).wf(),
            1 <= n,
        ensures
            final(self).wf(),
            match r {
                Some(s) => {
                    &&& s + n <= NUM_BLOCKS
                    &&& old(self).has_free_run(s, n)
                    &&& forall|b: u64|
                        final(self).is_free(b) <==> (old(self).is_free(b) && !(s <= b < s + n))
                    &&& final(self).free_count() + n as nat == old(self).free_count()
                },
                None => {
                    &&& *final(self) == *old(self)
                    &&& forall|s: u64| !old(self).has_free_run(s, n)
                },
            },
    {
        let len = self.runs.len();
        let mut i: usize = 0;
        while i < len
            invariant
                len == self.runs@.len(),
                0 <= i <= len,
                *self == *old(self),
                self.wf(),
                1 <= n,
                forall|k: int| 0 <= k < i ==> run_len(self.runs@[k]) < n as nat,
            decreases len - i,
        {
            let (a, e) = self.runs[i];
            if e - a >= n {
                let s = a;
                let ghost rs0 = self.runs@;
                if e - a == n {
                    proof {
                        lemma_runs_count_remove(rs0, i as int);
                    }
                    self.runs.remove(i);
                    proof {
                        lemma_wf_after_remove(rs0, i as int);
                    }
                } else {
                    proof {
                        lemma_runs_count_update(rs0, i as int, (((a + n) as u64), e));
                    }
                    self.runs.set(i, (a + n, e));
                }
                proof {
                    lemma_runs_count_lower(rs0, i as int);
                }
                self.count = self.count - n;
                proof {
                    let rs1 = self.runs@;
                    assert forall|b: u64|
                        runs_cover(rs1, b) implies (runs_cover(rs0, b) && !(s <= b < s + n)) by {
                        let k = choose|k: int| 0 <= k < rs1.len() && (#[trigger] rs1[k]).0 <= b && b < rs1[k].1;
                        let k0: int = if rs1.len() < rs0.len() && k >= i as int { k + 1 } else { k };
                        if rs1.len() < rs0.len() {
                            // a whole run was removed
                            assert(rs1[k] == rs0[k0]);
                            assert(runs_cover(rs0, b));
                            if k0 < i as int {
                                lemma_runs_sorted(rs0, k0, i as int);
                            } else {
                                lemma_runs_sorted(rs0, i as int, k0);
                            }
                        } else {
                            // run i was shortened to (a + n, e)
                            if k == i as int {
                                assert(rs0[k].0 <= b < rs0[k].1);
                                assert(runs_cover(rs0, b));
                            } else {
                                assert(rs1[k] == rs0[k]);
                                assert(runs_cover(rs0, b));
                                if k < i as int {
                                    lemma_runs_sorted(rs0, k, i as int);
                                } else {
                                    lemma_runs_sorted(rs0, i as int, k);
                                }
                            }
                        }
                    }
                    assert forall|b: u64|
                        (runs_cover(rs0, b) && !(s <= b < s + n)) implies runs_cover(rs1, b) by {
                        let k = choose|k: int| 0 <= k < rs0.len() && (#[trigger] rs0[k]).0 <= b && b < rs0[k].1;
                        if rs1.len() < rs0.len() {
                            if k != i as int {
                                let k1: int = if k > i as int { k - 1 } else { k };
                                assert(rs1[k1] == rs0[k]);
                                assert(rs1[k1].0 <= b < rs1[k1].1);
                            }
                        } else {
                            if k == i as int {
                                assert(rs1[k].0 <= b < rs1[k].1);
                            } else {
                                assert(rs1[k] == rs0[k]);
                                assert(rs1[k].0 <= b < rs1[k].1);
                            }
                        }
                    }
                    assert forall|b: u64| s <= b < s + n implies runs_cover(rs0, b) by {
                        assert(rs0[i as int].0 <= b < rs0[i as int].1);
                    }
                }
                return Some(s);
            }
            i += 1;
        }
        proof {
            assert forall|s: u64| !old(self).has_free_run(s, n) by {
                if old(self).has_free_run(s, n) {
                    assert(old(self).is_free(s));
                    let k = choose|k: int|
                        0 <= k < self.runs@.len() && (#[trigger] self.runs@[k]).0 <= s && s
                            < self.runs@[k].1;
                    lemma_free_run_within_run(*old(self), s, n, k);
                    assert(run_len(self.runs@[k]) >= n as nat);
                }
            }
        }
        None
    }

    /// Returns the contiguous run `[start, start + n)` to the free collection,
    /// merging it with adjacent free runs.
    #[verifier::rlimit(100)]
    pub fn release(&mut self, start: u64, n: u64)
        requires
            old(self).wf(),
            1 <= n,
            start + n <= NUM_BLOCKS,
            forall|b: u64| start <= b < start + n ==> !old(self).is_free(b),
        ensures
            final(self).wf(),
            forall|b: u64|
                final(self).is_free(b) <==> (old(self).is_free(b) || (start <= b < start + n)),
            final(self).free_count() == old(self).free_count() + n as nat,
    {
        let len = self.runs.len();
        let mut j: usize = 0;
        while j < len && self.runs[j].0 < start
            invariant
                len == self.runs@.len(),
                0 <= j <= len,
                *self == *old(self),
                self.wf(),
                forall|k: int| 0 <= k < j ==> self.runs@[k].0 < start,
            decreases len - j,
        {
            j += 1;
        }
        let ghost rs0 = self.runs@;
        proof {
            // every run before j ends at or before start; every run from j on
            // begins at or after start + n
            assert forall|k: int| 0 <= k < j implies rs0[k].1 <= start by {
                if rs0[k].1 > start {
                    assert(rs0[k].0 <= start < rs0[k].1);
                    assert(old(self).is_free(start));
                }
            }
            assert forall|k: int| j <= k < rs0.len() implies start + n <= rs0[k].0 by {
                if k > j {
                    lemma_runs_sorted(rs0, j as int, k);
                }
                if rs0[k].0 < start + n {
                    // rs0[k].0 >= start here, so rs0[k].0 would be a free
                    // block inside the released range
                    assert(rs0[k].0 <= rs0[k].0 < rs0[k].1);
                    assert(old(self).is_free(rs0[k].0));
                }
            }
        }
        let merge_left = j > 0 && self.runs[j - 1].1 == start;
        let merge_right = j < len && self.runs[j].0 == start + n;
        if merge_left && merge_right {
            let (la, _) = self.runs[j - 1];
            let (_, re) = self.runs[j];
            proof {
                lemma_runs_count_update(rs0, j - 1, (la, re));
                lemma_runs_count_remove(rs0.update(j - 1, (la, re)), j as int);
            }
            self.runs.set(j - 1, (la, re));
            self.runs.remove(j);
        } else if merge_left {
            let (la, _) = self.runs[j - 1];
            proof {
                lemma_runs_count_update(rs0, j - 1, (la, ((start + n) as u64)));
            }
            self.runs.set(j - 1, (la, start + n));
        } else if merge_right {
            let (_, re) = self.runs[j];
            proof {
                lemma_runs_count_update(rs0, j as int, (start, re));
            }
            self.runs.set(j, (start, re));
        } else {
            proof {
                lemma_runs_count_insert(rs0, j as int, (start, ((start + n) as u64)));
            }
            self.runs.insert(j, (start, start + n));
        }
        proof {
            let rs1 = self.runs@;
            lemma_release_wf(rs0, rs1, start, n, j as int);
            assert(runs_count(rs1) == runs_count(rs0) + n as nat);
            lemma_runs_count_bound(rs1);
        }
        self.count = self.count + n;
        proof {
            let rs1 = self.runs@;
            assert forall|b: u64|
                runs_cover(rs1, b) implies (runs_cover(rs0, b) || (start <= b < start + n)) by {
                let k = choose|k: int| 0 <= k < rs1.len() && (#[trigger] rs1[k]).0 <= b && b < rs1[k].1;
                lemma_release_cover_old(rs0, rs1, start, n, j as int, b, k);
            }
            assert forall|b: u64|
                (runs_cover(rs0, b) || (start <= b < start + n)) implies runs_cover(rs1, b) by {
                lemma_release_cover_new(rs0, rs1, start, n, j as int, b);
            }
        }
    }
}

/// If every block of `[s, s + n)` is free and `s` lies in run `i`, the whole
/// range lies in run `i`: coalescing leaves no free block just past a run.
pub proof fn lemma_free_run_within_run(fl: FreeList, s: u64, n: u64, i: int)
    requires
        runs_wf(fl.runs@),
        1 <= n,
        fl.has_free_run(s, n),
        0 <= i < fl.runs@.len(),
        fl.runs@[i].0 <= s < fl.runs@[i].1,
    ensures
        s + n <= fl.runs@[i].1,
{
    let rs = fl.runs@;
    if rs[i].1 < s + n {
        let b = rs[i].1;
        assert(s <= b < s + n);
        assert(fl.is_free(b));
        assert(runs_cover(rs, b));
        let k = choose|k: int| 0 <= k < rs.len() && (#[trigger] rs[k]).0 <= b && b < rs[k].1;
        if k < i {
            lemma_runs_sorted(rs, k, i);
        } else if k > i {
            lemma_runs_sorted(rs, i, k);
        }
        assert(false);
    }
}

/// Removing a run keeps the runs well formed.
pub proof fn lemma_wf_after_remove(rs: Seq<(u64, u64)>, i: int)
    requires
        runs_wf(rs),
        0 <= i < rs.len(),
    ensures
        runs_wf(rs.remove(i)),
{
    let rs1 = rs.remove(i);
    assert forall|k: int| 0 <= k && k + 1 < rs1.len() implies (#[trigger] rs1[k]).1 < rs1[k + 1].0 by {
        let k0: int = if k < i { k } else { k + 1 };
        let k1: int = if k + 1 < i { k + 1 } else { k + 2 };
        assert(rs1[k] == rs[k0] && rs1[k + 1] == rs[k1]);
        lemma_runs_sorted(rs, k0, k1);
    }
}

/// A release keeps the runs well formed, whichever merge shape it took.
#[verifier::rlimit(100)]
pub proof fn lemma_release_wf(
    rs0: Seq<(u64, u64)>,
    rs1: Seq<(u64, u64)>,
    start: u64,
    n: u64,
    j: int,
)
    requires
        release_shape(rs0, rs1, start, n, j),
    ensures
        runs_wf(rs1),
{
    if rs1.len() == rs0.len() - 1 {
        // merged with both neighbours
        let m = rs0.update(j - 1, (rs0[j - 1].0, rs0[j].1));
        assert forall|k: int| 0 <= k < rs1.len() implies (#[trigger] rs1[k]).0 < rs1[k].1 <= NUM_BLOCKS by {
            let k0: int = if k < j { k } else { k + 1 };
            assert(rs1[k] == m[k0]);
        }
        assert forall|k: int| 0 <= k && k + 1 < rs1.len() implies (#[trigger] rs1[k]).1 < rs1[k + 1].0 by {
            let k0: int = if k < j { k } else { k + 1 };
            let k1: int = if k + 1 < j { k + 1 } else { k + 2 };
            assert(rs1[k] == m[k0] && rs1[k + 1] == m[k1]);
            if k0 == j - 1 {
                // the merged run ends where rs0[j] ended
                assert(rs1[k].1 == rs0[j].1);
                assert(rs1[k + 1] == rs0[j + 1]);
            } else if k1 == j - 1 {
                assert(rs1[k + 1].0 == rs0[j - 1].0);
            } else {
                lemma_runs_sorted(rs0, k0, k1);
            }
        }
    } else if rs1.len() == rs0.len() {
        if j > 0 && rs1[j - 1] != rs0[j - 1] {
            // merged with the left neighbour only
            assert forall|k: int| 0 <= k < rs1.len() implies (#[trigger] rs1[k]).0 < rs1[k].1 <= NUM_BLOCKS by {
                if k != j - 1 {
                    assert(rs1[k] == rs0[k]);
                }
            }
            assert forall|k: int| 0 <= k && k + 1 < rs1.len() implies (#[trigger] rs1[k]).1 < rs1[k + 1].0 by {
                if k == j - 1 {
                    // the extended run still ends before rs0[j] begins
                    assert(rs1[k].1 == start + n);
                    assert(rs1[k + 1] == rs0[j]);
                } else if k + 1 == j - 1 {
                    assert(rs1[k] == rs0[k] && rs1[k + 1].0 == rs0[j - 1].0);
                } else {
                    assert(rs1[k] == rs0[k] && rs1[k + 1] == rs0[k + 1]);
                }
            }
        } else {
            // merged with the right neighbour only
            assert forall|k: int| 0 <= k < rs1.len() implies (#[trigger] rs1[k]).0 < rs1[k].1 <= NUM_BLOCKS by {
                if k != j {
                    assert(rs1[k] == rs0[k]);
                }
            }
            assert forall|k: int| 0 <= k && k + 1 < rs1.len() implies (#[trigger] rs1[k]).1 < rs1[k + 1].0 by {
                if k == j {
                    assert(rs1[k].1 == rs0[j].1 && rs1[k + 1] == rs0[j + 1]);
                } else if k + 1 == j {
                    assert(rs1[k] == rs0[k] && rs1[k + 1].0 == start);
                } else {
                    assert(rs1[k] == rs0[k] && rs1[k + 1] == rs0[k + 1]);
                }
            }
        }
    } else {
        // the released range stands alone as a new run
        assert forall|k: int| 0 <= k < rs1.len() implies (#[trigger] rs1[k]).0 < rs1[k].1 <= NUM_BLOCKS by {
            if k < j {
                assert(rs1[k] == rs0[k]);
            } else if k > j {
                assert(rs1[k] == rs0[k - 1]);
            }
        }
        assert forall|k: int| 0 <= k && k + 1 < rs1.len() implies (#[trigger] rs1[k]).1 < rs1[k + 1].0 by {
            if k + 1 < j {
                assert(rs1[k] == rs0[k] && rs1[k + 1] == rs0[k + 1]);
            } else if k + 1 == j {
                assert(rs1[k] == rs0[k] && rs1[k + 1] == (start, ((start + n) as u64)));
            } else if k == j {
                assert(rs1[k] == (start, ((start + n) as u64)) && rs1[k + 1] == rs0[k]);
            } else {
                assert(rs1[k] == rs0[k - 1] && rs1[k + 1] == rs0[k]);
            }
        }
    }
}

/// After a release that produced runs `rs1`, every covered block was either
/// covered before or lies in the released range.
proof fn lemma_release_cover_old(
    rs0: Seq<(u64, u64)>,
    rs1: Seq<(u64, u64)>,
    start: u64,
    n: u64,
    j: int,
    b: u64,
    k: int,
)
    requires
        0 <= k < rs1.len(),
        rs1[k].0 <= b < rs1[k].1,
        release_shape(rs0, rs1, start, n, j),
    ensures
        runs_cover(rs0, b) || (start <= b < start + n),
{
    if rs1.len() == rs0.len() - 1 {
        // both neighbours merged
        if k == j - 1 {
            assert(rs0[j - 1].0 <= b < rs0[j].1);
            if b < start {
                assert(rs0[j - 1].0 <= b < rs0[j - 1].1);
            } else if b >= start + n {
                assert(rs0[j].0 <= b < rs0[j].1);
            }
        } else {
            let k0: int = if k < j - 1 { k } else { k + 1 };
            assert(rs1[k] == rs0[k0]);
        }
    } else if rs1.len() == rs0.len() {
        // one neighbour absorbed the range
        if rs1[k] == rs0[k] {
            assert(runs_cover(rs0, b));
        } else if k == j - 1 {
            assert(rs1[k].0 == rs0[j - 1].0 && rs1[k].1 == start + n);
            if b < start {
                assert(rs0[j - 1].0 <= b < rs0[j - 1].1);
            }
        } else {
            assert(k == j);
            assert(rs1[k].0 == start && rs1[k].1 == rs0[j].1);
            if b >= start + n {
                assert(rs0[j].0 <= b < rs0[j].1);
            }
        }
    } else {
        // the range stands alone as a new run
        if k < j {
            assert(rs1[k] == rs0[k]);
        } else if k == j {
            assert(rs1[k] == (start, ((start + n) as u64)));
        } else {
            assert(rs1[k] == rs0[k - 1]);
        }
    }
}

/// After a release that produced runs `rs1`, every block covered before and
/// every block of the released range is covered.
proof fn lemma_release_cover_new(
    rs0: Seq<(u64, u64)>,
    rs1: Seq<(u64, u64)>,
    start: u64,
    n: u64,
    j: int,
    b: u64,
)
    requires
        runs_cover(rs0, b) || (start <= b < start + n),
        release_shape(rs0, rs1, start, n, j),
    ensures
        runs_cover(rs1, b),
{
    if runs_cover(rs0, b) {
        let k = choose|k: int| 0 <= k < rs0.len() && (#[trigger] rs0[k]).0 <= b && b < rs0[k].1;
        if rs1.len() == rs0.len() - 1 {
            if k <= j - 1 {
                let k1: int = if k < j - 1 { k } else { j - 1 };
                assert(rs1[k1].0 <= b < rs1[k1].1);
            } else {
                let k1: int = if k == j { j - 1 } else { k - 1 };
                assert(rs1[k1].0 <= b < rs1[k1].1);
            }
        } else if rs1.len() == rs0.len() {
            assert(rs1[k].0 <= b < rs1[k].1);
        } else {
            let k1: int = if k < j { k } else { k + 1 };
            assert(rs1[k1].0 <= b < rs1[k1].1);
        }
    } else {
        // b lies in the released range; find the run that now holds it
        if rs1.len() == rs0.len() - 1 {
            assert(rs1[j - 1].0 <= b < rs1[j - 1].1);
        } else if rs1.len() == rs0.len() {
            if rs1[j - 1] != rs0[j - 1] && j - 1 >= 0 {
                assert(rs1[j - 1].0 <= b < rs1[j - 1].1);
            } else {
                assert(rs1[j].0 <= b < rs1[j].1);
            }
        } else {
            assert(rs1[j].0 <= b < rs1[j].1);
        }
    }
}

/// The relation between the runs before and after a release of `[start,
/// start + n)` that found insertion point `j`: one of the four merge shapes.
pub open spec fn release_shape(
    rs0: Seq<(u64, u64)>,
    rs1: Seq<(u64, u64)>,
    start: u64,
    n: u64,
    j: int,
) -> bool {
    &&& runs_wf(rs0)
    &&& 1 <= n
    &&& start + n <= NUM_BLOCKS
    &&& 0 <= j <= rs0.len()
    &&& forall|k: int| 0 <= k < j ==> rs0[k].1 <= start
    &&& forall|k: int| j <= k < rs0.len() ==> start + n <= rs0[k].0
    &&& {
        ||| {
            // merged with both neighbours
            &&& j > 0 && j < rs0.len() && rs0[j - 1].1 == start && rs0[j].0 == start + n
            &&& rs1 == rs0.update(j - 1, (rs0[j - 1].0, rs0[j].1)).remove(j)
        }
        ||| {
            // merged with the left neighbour only
            &&& j > 0 && rs0[j - 1].1 == start && !(j < rs0.len() && rs0[j].0 == start + n)
            &&& rs1 == rs0.update(j - 1, (rs0[j - 1].0, ((start + n) as u64)))
        }
        ||| {
            // merged with the right neighbour only
            &&& j < rs0.len() && rs0[j].0 == start + n && !(j > 0 && rs0[j - 1].1 == start)
            &&& rs1 == rs0.update(j, (start, rs0[j].1))
        }
        ||| {
            // stands alone
            &&& !(j > 0 && rs0[j - 1].1 == start) && !(j < rs0.len() && rs0[j].0 == start + n)
            &&& rs1 == rs0.insert(j, (start, ((start + n) as u64)))
        }
    }
}

} // verus!
