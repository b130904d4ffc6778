//! Freeing many pointers, one after the other: what is left when each of a
//! sequence of allocated blocks, parked or not, has been taken out of its
//! parking and given to `kfree`.

use vstd::prelude::*;
use crate::heap::backend::{spec_bump, spec_clamp, Heap};
use crate::heap::backend::park::spec_parked_ok;
use crate::heap::bytes::lemma_u64_frame;
use crate::heap::layout::CANARY_SIZE;
use crate::heap::model::spec_free_ok;

verus! {

/// `ptr` is freed when it is taken out of its parking and given to
/// `kfree`: it is the payload of a parked block, or passes the checks of
/// `kfree` as it is.
pub open spec fn spec_sweep_ok(mem: Seq<u8>, brk: int, ptr: int) -> bool {
    spec_free_ok(mem, brk, ptr) || spec_parked_ok(mem, brk, ptr)
}

impl Heap {
    /// Payload bytes of those of `ptrs` that are freed.
    pub open spec fn spec_payloads(&self, ptrs: Seq<usize>) -> int
        decreases ptrs.len(),
    {
        if ptrs.len() == 0 {
            0
        } else {
            self.spec_payloads(ptrs.drop_last()) + if spec_sweep_ok(
                self.memory(),
                self.page_end(),
                ptrs.last() as int,
            ) {
                self.payload_size(ptrs.last())
            } else {
                0
            }
        }
    }

    /// The number of those of `ptrs` that are not freed.
    pub open spec fn spec_refusals(&self, ptrs: Seq<usize>) -> int
        decreases ptrs.len(),
    {
        if ptrs.len() == 0 {
            0
        } else {
            self.spec_refusals(ptrs.drop_last()) + if spec_sweep_ok(
                self.memory(),
                self.page_end(),
                ptrs.last() as int,
            ) {
                0int
            } else {
                1int
            }
        }
    }

    /// The other heap is this intact heap after each of `gone`, different
    /// allocated blocks of this heap, was taken out of its parking and
    /// given to `kfree`, in that order.
    ///
    /// The other heap is intact. Allocated in it are the blocks that were
    /// allocated, but those of `gone` that passed the checks; each of them
    /// has the size and the payload that it had. The bytes in use are
    /// fewer by the payloads of the blocks freed, every block freed is
    /// counted as a free, and every pointer that failed the checks as
    /// corruption.
    #[verifier::opaque]
    pub open spec fn freed_all(&self, after: Heap, gone: Seq<usize>) -> bool {
        &&& after.intact()
        &&& after.memory().len() == self.memory().len()
        &&& forall|x: usize|
            after.is_live(x) == (self.is_live(x) && !(gone.contains(x) && spec_sweep_ok(
                self.memory(),
                self.page_end(),
                x as int,
            )))
        &&& forall|x: usize| #[trigger]
            after.is_live(x) ==> {
                &&& after.payload_size(x) == self.payload_size(x)
                &&& forall|at: int|
                    x <= at < x + self.payload_size(x) ==> #[trigger] after.memory()[at]
                        == self.memory()[at]
            }
        &&& after.stats().total_allocated == self.stats().total_allocated - self.spec_payloads(
            gone,
        )
        &&& after.stats().corruption_count == spec_clamp(
            self.stats().corruption_count + self.spec_refusals(gone),
        )
        &&& after.stats().free_count == spec_clamp(
            self.stats().free_count + gone.len() - self.spec_refusals(gone),
        )
        &&& after.stats().alloc_count == self.stats().alloc_count
        &&& after.failed() == self.failed()
    }

    /// Between none and all of the pointers fail the checks.
    pub proof fn lemma_refusals_bounded(&self, ptrs: Seq<usize>)
        ensures
            0 <= self.spec_refusals(ptrs) <= ptrs.len(),
        decreases ptrs.len(),
    {
        if ptrs.len() > 0 {
            self.lemma_refusals_bounded(ptrs.drop_last());
        }
    }

    /// With no pointer freed, an intact heap is as it was.
    pub proof fn lemma_freed_none(&self)
        requires
            self.intact(),
        ensures
            self.freed_all(*self, Seq::<usize>::empty()),
    {
        reveal(Heap::freed_all);
    }

    /// Two sound heaps that hold an allocated block with the same size and
    /// the same payload agree on whether it passes the checks of `kfree`.
    pub proof fn lemma_free_ok_agrees(&self, after: Heap, ptr: usize)
        requires
            self.sound(),
            after.sound(),
            self.is_live(ptr),
            after.is_live(ptr),
            after.memory().len() == self.memory().len(),
            after.payload_size(ptr) == self.payload_size(ptr),
            forall|at: int|
                ptr <= at < ptr + self.payload_size(ptr) ==> #[trigger] after.memory()[at]
                    == self.memory()[at],
        ensures
            spec_free_ok(after.memory(), after.page_end(), ptr as int) == spec_free_ok(
                self.memory(),
                self.page_end(),
                ptr as int,
            ),
    {
        self.lemma_live_block(ptr);
        after.lemma_live_block(ptr);
        lemma_u64_frame(
            self.memory(),
            after.memory(),
            ptr + self.payload_size(ptr) - CANARY_SIZE,
        );
    }

    /// One more pointer taken out of its parking and given to `kfree`: an
    /// allocated block of the heap at the start that is not among those
    /// given before. `unparked` is the heap between the two steps.
    pub proof fn lemma_freed_more(
        &self,
        mid: Heap,
        unparked: Heap,
        after: Heap,
        gone: Seq<usize>,
        ptr: usize,
    )
        requires
            self.intact(),
            self.freed_all(mid, gone),
            self.is_live(ptr),
            !gone.contains(ptr),
            mid.same_books(unparked),
            spec_parked_ok(mid.memory(), mid.page_end(), ptr as int) ==> mid.restamped(
                unparked,
                ptr,
            ) && spec_free_ok(unparked.memory(), unparked.page_end(), ptr as int),
            !spec_parked_ok(mid.memory(), mid.page_end(), ptr as int) ==> unparked == mid,
            unparked.spec_freed(after, ptr),
        ensures
            self.freed_all(after, gone.push(ptr)),
            spec_sweep_ok(mid.memory(), mid.page_end(), ptr as int) == spec_sweep_ok(
                self.memory(),
                self.page_end(),
                ptr as int,
            ),
    {
        reveal(Heap::freed_all);
        let more = gone.push(ptr);
        assert(more.drop_last() =~= gone);
        assert(more.last() == ptr);
        self.lemma_refusals_bounded(gone);
        assert(mid.is_live(ptr));
        self.lemma_free_ok_agrees(mid, ptr);
        self.lemma_parked_agrees(mid, ptr);
        assert forall|x: usize| more.contains(x) == (gone.contains(x) || x == ptr) by {
            if gone.contains(x) {
                let i = choose|i: int| 0 <= i < gone.len() && gone[i] == x;
                assert(more[i] == x);
            }
            if x == ptr {
                assert(more[more.len() - 1] == x);
            }
            if more.contains(x) {
                let i = choose|i: int| 0 <= i < more.len() && more[i] == x;
                if i < gone.len() {
                    assert(gone[i] == x);
                }
            }
        }
        if spec_parked_ok(mid.memory(), mid.page_end(), ptr as int) {
            mid.lemma_restamped(unparked, ptr);
            reveal(Heap::keeps_live_but);
        }
        assert(unparked.intact());
        assert(unparked.is_live(ptr));
        if spec_free_ok(unparked.memory(), unparked.page_end(), ptr as int) {
            reveal(Heap::release_step);
            reveal(Heap::keeps_live_but);
            assert forall|x: usize| #[trigger] after.is_live(x) implies {
                &&& after.payload_size(x) == self.payload_size(x)
                &&& forall|at: int|
                    x <= at < x + self.payload_size(x) ==> #[trigger] after.memory()[at]
                        == self.memory()[at]
            } by {
                assert(unparked.is_live(x) && x != ptr);
                assert(mid.is_live(x));
                assert forall|at: int| x <= at < x + self.payload_size(x) implies #[trigger] after.memory()[at]
                    == self.memory()[at] by {
                    assert(unparked.memory()[at] == mid.memory()[at]);
                    assert(mid.memory()[at] == self.memory()[at]);
                }
            }
        } else {
            reveal(Heap::is_live);
            unparked.lemma_corruption_counted(after);
        }
    }
}

} // verus!
