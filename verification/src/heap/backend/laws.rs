//! What holds of the backend over any run of calls.

use vstd::prelude::*;
use crate::heap::backend::{Heap, spec_bump};
use crate::heap::layout::{HEADER_SIZE, HEAP_ALIGN};
use crate::heap::model::{
    lemma_sum_same, spec_allocated_bytes, spec_allocated_one, spec_apart, spec_free_ok,
    spec_member_ok,
};

verus! {

impl Heap {
    /// Accounting. When every block that was allocated has been freed, no
    /// bytes are in use; and if no request was turned down for want of
    /// memory, as many frees as allocations have been counted, as long as
    /// the counter of allocations has not reached the top of its range.
    pub proof fn lemma_accounting_balanced(&self)
        requires
            self.intact(),
            forall|p: usize| !self.is_live(p),
        ensures
            self.stats().total_allocated == 0,
            self.live_count() == 0,
            self.failed() == 0 && self.stats().alloc_count < u64::MAX ==> self.stats().alloc_count
                == self.stats().free_count,
    {
        reveal(Heap::is_live);
        let mem = self.memory();
        let blocks = self.blocks();
        assert forall|i: int| 0 <= i < blocks.len() implies spec_allocated_bytes(
            mem,
            #[trigger] blocks[i],
        ) == 0 && spec_allocated_one(mem, blocks[i]) == 0 by {
            assert(spec_member_ok(mem, self.page_end(), blocks, i));
            assert(!self.is_live((blocks[i] + HEADER_SIZE) as usize));
            assert(blocks.contains(blocks[i]));
        }
        lemma_sum_same(blocks, |a: usize| spec_allocated_bytes(mem, a), |a: usize| 0int);
        lemma_sum_same(blocks, |a: usize| spec_allocated_one(mem, a), |a: usize| 0int);
        lemma_sum_zero(blocks);
    }

    /// Non-overlap. In a sound heap, the payloads of two different
    /// allocated blocks share no byte: one block ends before the header of
    /// the other begins.
    pub proof fn lemma_live_disjoint(&self, p: usize, q: usize)
        requires
            self.sound(),
            self.is_live(p),
            self.is_live(q),
            p != q,
        ensures
            p + self.payload_size(p) <= q - HEADER_SIZE || q + self.payload_size(q) <= p
                - HEADER_SIZE,
    {
        reveal(Heap::is_live);
        let i = self.index_of((p - HEADER_SIZE) as usize);
        let j = self.index_of((q - HEADER_SIZE) as usize);
        if i < j {
            assert(spec_apart(self.memory(), self.blocks(), i, j));
        } else {
            assert(spec_apart(self.memory(), self.blocks(), j, i));
        }
    }

    /// Alignment and room. The payload of every allocated block of a sound
    /// heap begins at a multiple of `HEAP_ALIGN`, behind the null page, and
    /// ends within the pages handed out.
    pub proof fn lemma_live_aligned(&self, ptr: usize)
        requires
            self.sound(),
            self.is_live(ptr),
        ensures
            ptr % HEAP_ALIGN == 0,
            ptr != 0,
            ptr + self.payload_size(ptr) <= self.page_end(),
            self.payload_size(ptr) >= HEAP_ALIGN,
    {
        self.lemma_live_block(ptr);
    }

    /// Double free. In a sound heap, the payload address of a block of the
    /// global list that is not allocated fails the checks of `kfree`: a
    /// second `kfree` of a pointer is counted as corruption.
    pub proof fn lemma_double_free_refused(&self, ptr: usize)
        requires
            self.sound(),
            ptr >= HEADER_SIZE,
            self.blocks().contains((ptr - HEADER_SIZE) as usize),
            !self.is_live(ptr),
        ensures
            !spec_free_ok(self.memory(), self.page_end(), ptr as int),
    {
        reveal(Heap::is_live);
    }

    /// Corruption robustness. A pointer that fails the checks of `kfree`
    /// changes nothing in the heap but the counter of corruptions, which
    /// goes up by one below the top of its range.
    pub proof fn lemma_corruption_counted(&self, after: Heap)
        requires
            self.only_corruption_counted(after),
        ensures
            after.stats().corruption_count == spec_bump(self.stats().corruption_count),
            self.stats().corruption_count < u64::MAX ==> after.stats().corruption_count
                > self.stats().corruption_count,
            after.memory() == self.memory(),
            after.stats().free_count == self.stats().free_count,
            after.stats().total_allocated == self.stats().total_allocated,
            self.intact() ==> after.intact(),
            forall|p: usize| after.is_live(p) == self.is_live(p),
    {
        reveal(Heap::is_live);
    }
}

/// The sum of zeros is zero.
pub proof fn lemma_sum_zero(blocks: Seq<usize>)
    ensures
        crate::heap::model::spec_sum(blocks, |a: usize| 0int) == 0,
    decreases blocks.len(),
{
    if blocks.len() > 0 {
        lemma_sum_zero(blocks.drop_last());
    }
}

} // verus!
