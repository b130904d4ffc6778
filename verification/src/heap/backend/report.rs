//! Looking at the heap: the counters, and a walk that counts bad blocks.

use vstd::prelude::*;
use crate::heap::backend::{Heap, HeapStats, lemma_cache_sum_positive, spec_cache_sum, spec_clamp};
use crate::heap::block::{HeapBlock, load_header, spec_header_at};
use crate::heap::layout::{HEADER_SIZE, NUM_SIZE_CLASSES, PAGE_SIZE};
use crate::heap::model::{spec_block_ok, spec_linked, spec_member_ok};

verus! {

/// The smallest block: a header and a payload of one alignment unit.
pub const MIN_EXTENT: usize = 64;

/// Bad blocks that a walk meets which starts at `a` and follows the links
/// to the next block, for `fuel` blocks at most. A block whose header
/// would not lie in the pages handed out counts as bad and ends the walk.
pub open spec fn spec_errors(mem: Seq<u8>, brk: int, a: int, fuel: nat) -> nat
    decreases fuel,
{
    if a == 0 || fuel == 0 {
        0
    } else if a + HEADER_SIZE > brk {
        1
    } else {
        (if spec_block_ok(mem, brk, a) {
            0nat
        } else {
            1nat
        }) + spec_errors(mem, brk, spec_header_at(mem, a).next as int, (fuel - 1) as nat)
    }
}

/// Blocks that a walk visits at most: as many as fit into the pages handed
/// out.
pub open spec fn spec_walk_limit(brk: int) -> nat {
    ((brk - PAGE_SIZE) / (MIN_EXTENT as int) + 1) as nat
}

/// A walk over the rest of a sound list, from block `i` on, meets no bad
/// block.
pub proof fn lemma_no_errors(
    mem: Seq<u8>,
    brk: int,
    head: int,
    blocks: Seq<usize>,
    i: int,
    fuel: nat,
)
    requires
        crate::heap::model::spec_chain_ok(mem, brk, head, blocks),
        0 <= i <= blocks.len(),
    ensures
        spec_errors(
            mem,
            brk,
            if i < blocks.len() {
                blocks[i] as int
            } else {
                0
            },
            fuel,
        ) == 0,
    decreases fuel,
{
    if i < blocks.len() && fuel > 0 {
        assert(spec_member_ok(mem, brk, blocks, i));
        assert(spec_linked(mem, blocks, i));
        lemma_no_errors(mem, brk, head, blocks, i + 1, (fuel - 1) as nat);
    }
}

impl Heap {
    /// The counters of the heap, the hits and misses summed over the fast
    /// caches.
    pub fn get_stats(&self) -> (stats: HeapStats)
        requires
            self.wf(),
        ensures
            stats == self.stats(),
    {
        let mut hits: u64 = 0;
        let mut misses: u64 = 0;
        let mut c: usize = 0;
        while c < NUM_SIZE_CLASSES
            invariant
                c <= NUM_SIZE_CLASSES,
                self.caches@.len() == NUM_SIZE_CLASSES,
                hits == spec_clamp(spec_cache_sum(self.caches@, c as int, true)),
                misses == spec_clamp(spec_cache_sum(self.caches@, c as int, false)),
            decreases NUM_SIZE_CLASSES - c,
        {
            proof {
                lemma_cache_sum_positive(self.caches@, c as int, true);
                lemma_cache_sum_positive(self.caches@, c as int, false);
            }
            hits = hits.saturating_add(self.caches[c].hits);
            misses = misses.saturating_add(self.caches[c].misses);
            c = c + 1;
        }
        HeapStats {
            total_allocated: self.total_allocated,
            peak_allocated: self.peak_allocated,
            alloc_count: self.alloc_count,
            free_count: self.free_count,
            cache_hits: hits,
            cache_misses: misses,
            coalesce_count: self.coalesce_count,
            corruption_count: self.corruption_count,
        }
    }

    /// Walks the global list from its head and counts the blocks that fail
    /// the check. A sound heap has none.
    pub fn validate(&self) -> (errors: usize)
        requires
            self.wf(),
        ensures
            errors == spec_errors(
                self.memory(),
                self.page_end(),
                self.first(),
                spec_walk_limit(self.page_end()),
            ),
            self.sound() ==> errors == 0,
    {
        let limit: usize = (self.brk - PAGE_SIZE) / MIN_EXTENT + 1;
        let mut cur: usize = self.head;
        let mut walked: usize = 0;
        let mut errors: usize = 0;
        proof {
            if self.sound() {
                lemma_no_errors(
                    self.memory(),
                    self.page_end(),
                    self.first(),
                    self.blocks(),
                    0,
                    spec_walk_limit(self.page_end()),
                );
            }
        }
        while cur != 0 && walked < limit
            invariant
                self.wf(),
                walked <= limit,
                limit == spec_walk_limit(self.page_end()),
                errors <= walked,
                self.sound() ==> spec_errors(
                    self.memory(),
                    self.page_end(),
                    self.first(),
                    limit as nat,
                ) == 0,
                errors + spec_errors(
                    self.memory(),
                    self.page_end(),
                    cur as int,
                    (limit - walked) as nat,
                ) == spec_errors(self.memory(), self.page_end(), self.first(), limit as nat),
            decreases limit - walked,
        {
            if cur > self.brk - HEADER_SIZE {
                return errors + 1;
            }
            let h: HeapBlock = load_header(&self.mem, cur);
            if self.check_block(cur).is_none() {
                errors = errors + 1;
            }
            walked = walked + 1;
            if h.next > self.brk as u64 {
                proof {
                    assert(spec_errors(
                        self.memory(),
                        self.page_end(),
                        h.next as int,
                        (limit - walked) as nat,
                    ) == if walked < limit {
                        1nat
                    } else {
                        0nat
                    });
                }
                if walked < limit {
                    errors = errors + 1;
                }
                return errors;
            }
            cur = h.next as usize;
        }
        errors
    }
}

} // verus!
