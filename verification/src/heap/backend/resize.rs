//! `kcalloc` and `krealloc`, on top of `kmalloc` and `kfree`.

use vstd::prelude::*;
use crate::heap::backend::{Heap, spec_bump};
use crate::heap::block::{lemma_header_frame, spec_header_at};
use crate::heap::bytes::{copy, fill, lemma_u64_frame, spec_same_outside};
use crate::heap::layout::{
    ALLOC_MAGIC, CANARY_SIZE, HEADER_SIZE, HEAP_ALIGN, MAX_ALLOC, block_size_for, spec_block_size,
};
use crate::heap::model::{
    lemma_blocks_distinct, lemma_extent_frame, spec_block_ok, spec_canary_ok, spec_free_ok,
    spec_member_ok,
};

verus! {

/// Bytes that `krealloc` copies from a block of payload size `old_size` for
/// a request of `new_size` bytes: the smaller of the two, less the canary.
pub open spec fn spec_copied(old_size: int, new_size: int) -> int {
    let least = if old_size <= new_size {
        old_size
    } else {
        new_size
    };
    if least >= CANARY_SIZE {
        least - CANARY_SIZE
    } else {
        0
    }
}

/// Bytes that `krealloc` copies from a block of payload size `old_size` for
/// a request of `new_size` bytes.
pub fn copied_bytes(old_size: usize, new_size: usize) -> (n: usize)
    ensures
        n == spec_copied(old_size as int, new_size as int),
{
    let least: usize = if old_size <= new_size {
        old_size
    } else {
        new_size
    };
    poisoned_bytes(least)
}

/// Bytes of a payload of `size` bytes that lie in front of its canary:
/// those that a free poisons.
pub fn poisoned_bytes(size: usize) -> (n: usize)
    ensures
        n == if size >= CANARY_SIZE {
            size - CANARY_SIZE
        } else {
            0
        },
{
    if size >= CANARY_SIZE {
        size - CANARY_SIZE
    } else {
        0
    }
}

impl Heap {
    /// In a sound heap, an allocated block passes the checks of `kfree`
    /// if its canary is in place, and lies in the arena.
    pub proof fn lemma_live_block(&self, ptr: usize)
        requires
            self.sound(),
            self.is_live(ptr),
        ensures
            self.blocks().contains((ptr - HEADER_SIZE) as usize),
            spec_block_ok(self.memory(), self.page_end(), ptr - HEADER_SIZE),
            self.header(ptr - HEADER_SIZE).magic == ALLOC_MAGIC,
            spec_free_ok(self.memory(), self.page_end(), ptr as int) == spec_canary_ok(
                self.memory(),
                ptr - HEADER_SIZE,
            ),
            self.payload_size(ptr) >= HEAP_ALIGN,
            ptr + self.payload_size(ptr) <= self.page_end(),
    {
        reveal(Heap::is_live);
        let k = self.index_of((ptr - HEADER_SIZE) as usize);
        assert(spec_member_ok(self.memory(), self.page_end(), self.blocks(), k));
        let size = self.header(ptr - HEADER_SIZE).size;
        assert(size >= 16) by {
            assert(size > 0);
            assert(size % 16 == 0);
        }
    }

    /// A write into the payload of the block that a step has allocated
    /// leaves it a step that allocates that block.
    pub proof fn lemma_grant_write(&self, mid: Heap, after: Heap, ptr: usize, lo: int, hi: int)
        requires
            self.grant_step(mid, ptr),
            mid.same_books(after),
            ptr <= lo,
            hi <= ptr + mid.payload_size(ptr),
            spec_same_outside(mid.memory(), after.memory(), lo, hi),
        ensures
            after.sound(),
            self.grant_step(after, ptr),
            mid.intact() ==> after.intact(),
    {
        reveal(Heap::grant_step);
        reveal(Heap::keeps_live);
        reveal(Heap::is_live);
        assert(mid.is_live(ptr));
        let a = (ptr - HEADER_SIZE) as usize;
        mid.lemma_payload_write(after, a, lo, hi);
        let blocks = mid.blocks();
        let k = mid.index_of(a);
        lemma_extent_frame(
            mid.memory(),
            after.memory(),
            mid.page_end(),
            mid.first(),
            blocks,
            k,
            lo,
            hi,
        );
        lemma_blocks_distinct(mid.memory(), mid.page_end(), mid.first(), blocks);
        assert forall|p: usize| #[trigger] self.is_live(p) implies {
            &&& after.is_live(p)
            &&& after.payload_size(p) == self.payload_size(p)
            &&& forall|at: int|
                p <= at < p + self.payload_size(p) ==> #[trigger] after.memory()[at]
                    == self.memory()[at]
        } by {
            assert(mid.is_live(p));
            let i = mid.index_of((p - HEADER_SIZE) as usize);
            assert(i != k);
            assert(spec_member_ok(mid.memory(), mid.page_end(), blocks, i));
            assert forall|at: int| p <= at < p + self.payload_size(p) implies #[trigger] after.memory()[at]
                == self.memory()[at] by {
                assert(mid.memory()[at] == self.memory()[at]);
            }
        }
        assert forall|p: usize| after.is_live(p) == (self.is_live(p) || p == ptr) by {
            assert(after.is_live(p) == mid.is_live(p));
        }
    }

    /// A write into the payload of a block in front of its canary leaves
    /// the block passing the checks of `kfree`.
    pub proof fn lemma_free_ok_kept(
        before: Seq<u8>,
        after: Seq<u8>,
        brk: int,
        ptr: int,
        lo: int,
        hi: int,
    )
        requires
            spec_free_ok(before, brk, ptr),
            brk <= before.len(),
            ptr <= lo,
            hi <= ptr + spec_header_at(before, ptr - HEADER_SIZE).size - CANARY_SIZE,
            spec_same_outside(before, after, lo, hi),
        ensures
            spec_free_ok(after, brk, ptr),
            spec_header_at(after, ptr - HEADER_SIZE) == spec_header_at(before, ptr - HEADER_SIZE),
    {
        lemma_header_frame(before, after, lo, hi, ptr - HEADER_SIZE);
        lemma_u64_frame(
            before,
            after,
            ptr + spec_header_at(before, ptr - HEADER_SIZE).size - CANARY_SIZE,
        );
    }

    /// Allocates `count * size` bytes and zeroes them. Returns the address
    /// of the payload, or null if the product is 0, does not fit the
    /// machine word, is above `MAX_ALLOC`, or for want of memory.
    pub fn kcalloc(&mut self, count: usize, size: usize) -> (ptr: usize)
        requires
            old(self).wf(),
        ensures
            final(self).wf(),
            final(self).memory().len() == old(self).memory().len(),
            count * size == 0 || count * size > MAX_ALLOC ==> {
                &&& ptr == 0
                &&& old(self).same_books(*final(self))
                &&& final(self).memory() == old(self).memory()
            },
            0 < count * size <= MAX_ALLOC ==> final(self).stats().alloc_count == spec_bump(
                old(self).stats().alloc_count,
            ),
            final(self).stats().free_count == old(self).stats().free_count,
            final(self).stats().coalesce_count == old(self).stats().coalesce_count,
            final(self).slow_frees() == old(self).slow_frees(),
            ptr != 0 ==> {
                &&& ptr % HEAP_ALIGN == 0
                &&& spec_free_ok(final(self).memory(), final(self).page_end(), ptr as int)
                &&& final(self).payload_size(ptr) >= count * size + CANARY_SIZE
                &&& forall|at: int|
                    ptr <= at < ptr + count * size ==> #[trigger] final(self).memory()[at] == 0
            },
            old(self).intact() ==> {
                &&& final(self).intact()
                &&& count * size <= usize::MAX ==> ptr == old(self).spec_kmalloc(
                    (count * size) as usize,
                )
                &&& final(self).stats().corruption_count == old(self).stats().corruption_count
                &&& ptr != 0 ==> old(self).grant_step(*final(self), ptr)
                &&& ptr != 0 ==> final(self).failed() == old(self).failed()
                &&& ptr == 0 ==> old(self).quiet_step(*final(self))
                &&& ptr == 0 ==> final(self).failed() == old(self).failed() + if 0 < count * size
                    <= MAX_ALLOC {
                    1int
                } else {
                    0int
                }
            },
    {
        proof {
            reveal(Heap::spec_kmalloc);
        }
        let total: usize = match count.checked_mul(size) {
            Some(total) => total,
            None => {
                proof {
                    if old(self).sound() {
                        old(self).lemma_quiet_same(*self);
                    }
                }
                return 0;
            },
        };
        let ptr: usize = self.kmalloc(total);
        if ptr != 0 {
            let ghost served = *self;
            fill(&mut self.mem, ptr, total, 0);
            proof {
                Self::lemma_free_ok_kept(
                    served.memory(),
                    self.memory(),
                    self.page_end(),
                    ptr as int,
                    ptr as int,
                    ptr + total,
                );
                if old(self).intact() {
                    old(self).lemma_grant_write(served, *self, ptr, ptr as int, ptr + total);
                }
            }
        }
        ptr
    }

    /// A block that passes the checks of `kfree` passes them still in a
    /// sound heap that has kept the allocated blocks.
    pub proof fn lemma_still_free_ok(&self, after: Heap, ptr: usize)
        requires
            self.sound(),
            self.is_live(ptr),
            spec_free_ok(self.memory(), self.page_end(), ptr as int),
            self.keeps_live(after),
            after.sound(),
            after.memory().len() == self.memory().len(),
        ensures
            after.is_live(ptr),
            after.payload_size(ptr) == self.payload_size(ptr),
            spec_free_ok(after.memory(), after.page_end(), ptr as int),
    {
        reveal(Heap::keeps_live);
        self.lemma_live_block(ptr);
        after.lemma_live_block(ptr);
        lemma_u64_frame(
            self.memory(),
            after.memory(),
            ptr + self.payload_size(ptr) - CANARY_SIZE,
        );
    }

    /// Whether `krealloc` leaves a block of payload size `old_size` where
    /// it is for a request of `new_size` bytes: if the block is large
    /// enough, and not more than twice as large.
    pub open spec fn spec_in_place(old_size: int, new_size: int) -> bool {
        &&& 0 < new_size
        &&& new_size <= old_size <= 2 * new_size
    }

    /// A step that moves the block at `ptr` to `q`: the other heap is
    /// sound, `ptr` was allocated and is allocated no more, `q` was not
    /// allocated and is allocated now, every other allocated block is as
    /// it was, and the bytes in use have moved by the difference of the
    /// two payloads.
    #[verifier::opaque]
    pub open spec fn move_step(&self, after: Heap, ptr: usize, q: usize) -> bool {
        &&& after.sound()
        &&& self.is_live(ptr)
        &&& !self.is_live(q)
        &&& forall|p: usize| after.is_live(p) == ((self.is_live(p) && p != ptr) || p == q)
        &&& self.keeps_live_but(after, ptr)
        &&& after.live_count() == self.live_count()
        &&& after.stats().total_allocated == self.stats().total_allocated + after.payload_size(q)
            - self.payload_size(ptr)
    }

    /// A step that allocates `q` and a step that frees `ptr` make a step
    /// that moves `ptr` to `q`, and leave the payload of `q` as it was
    /// between the two.
    pub proof fn lemma_moved(&self, mid: Heap, after: Heap, ptr: usize, q: usize)
        requires
            self.is_live(ptr),
            self.grant_step(mid, q),
            mid.release_step(after, ptr),
        ensures
            self.move_step(after, ptr, q),
            after.payload_size(q) == mid.payload_size(q),
            forall|at: int|
                q <= at < q + mid.payload_size(q) ==> #[trigger] after.memory()[at]
                    == mid.memory()[at],
    {
        reveal(Heap::grant_step);
        reveal(Heap::release_step);
        reveal(Heap::move_step);
        reveal(Heap::keeps_live);
        reveal(Heap::keeps_live_but);
        assert(mid.is_live(q));
        assert(q != ptr);
        assert forall|p: usize| after.is_live(p) == ((self.is_live(p) && p != ptr) || p == q) by {
            assert(after.is_live(p) == (mid.is_live(p) && p != ptr));
            assert(mid.is_live(p) == (self.is_live(p) || p == q));
        }
        assert forall|p: usize| #[trigger] self.is_live(p) && p != ptr implies {
            &&& after.is_live(p)
            &&& after.payload_size(p) == self.payload_size(p)
            &&& forall|at: int|
                p <= at < p + self.payload_size(p) ==> #[trigger] after.memory()[at]
                    == self.memory()[at]
        } by {
            assert(mid.is_live(p));
            assert forall|at: int| p <= at < p + self.payload_size(p) implies #[trigger] after.memory()[at]
                == self.memory()[at] by {
                assert(mid.memory()[at] == self.memory()[at]);
            }
        }
        assert(mid.payload_size(ptr) == self.payload_size(ptr));
    }

    /// After a step that allocates `q`, a block at `ptr` that was allocated
    /// and passed the checks of `kfree` is allocated still, passes them
    /// still, has its payload as it was, and shares no byte with `q`.
    pub proof fn lemma_after_grant(&self, after: Heap, ptr: usize, q: usize)
        requires
            self.sound(),
            self.is_live(ptr),
            spec_free_ok(self.memory(), self.page_end(), ptr as int),
            self.grant_step(after, q),
            after.memory().len() == self.memory().len(),
        ensures
            after.sound(),
            after.is_live(ptr),
            after.is_live(q),
            q != ptr,
            after.payload_size(ptr) == self.payload_size(ptr),
            spec_free_ok(after.memory(), after.page_end(), ptr as int),
            ptr + after.payload_size(ptr) <= q - HEADER_SIZE || q + after.payload_size(q) <= ptr
                - HEADER_SIZE,
            forall|at: int|
                ptr <= at < ptr + self.payload_size(ptr) ==> #[trigger] after.memory()[at]
                    == self.memory()[at],
    {
        reveal(Heap::grant_step);
        self.lemma_still_free_ok(after, ptr);
        assert(after.is_live(q));
        after.lemma_live_disjoint(ptr, q);
        reveal(Heap::keeps_live);
    }

    /// Copies the first `n` bytes of the payload at `ptr` to the payload
    /// at `q`, which the step from `origin` to this heap has allocated,
    /// unless the two ranges overlap.
    fn copy_payload(&mut self, origin: Ghost<Heap>, ptr: usize, q: usize, n: usize)
        requires
            old(self).wf(),
            ptr + n <= old(self).memory().len(),
            q + n <= old(self).memory().len(),
            origin@.intact() && origin@.is_live(ptr) ==> {
                &&& origin@.grant_step(*old(self), q)
                &&& old(self).intact()
                &&& n <= old(self).payload_size(q)
                &&& n <= origin@.payload_size(ptr)
                &&& spec_free_ok(origin@.memory(), origin@.page_end(), ptr as int)
                &&& origin@.memory().len() == old(self).memory().len()
            },
        ensures
            final(self).wf(),
            old(self).same_books(*final(self)),
            origin@.intact() && origin@.is_live(ptr) ==> {
                &&& origin@.grant_step(*final(self), q)
                &&& final(self).intact()
                &&& final(self).is_live(ptr)
                &&& spec_free_ok(final(self).memory(), final(self).page_end(), ptr as int)
                &&& final(self).payload_size(q) == old(self).payload_size(q)
                &&& forall|i: int|
                    0 <= i < n ==> #[trigger] final(self).memory()[q + i] == origin@.memory()[ptr
                        + i]
            },
    {
        proof {
            if origin@.intact() && origin@.is_live(ptr) {
                origin@.lemma_after_grant(*old(self), ptr, q);
            }
        }
        let len: usize = self.mem.len();
        if len - n >= ptr && len - n >= q && (ptr + n <= q || q + n <= ptr) {
            copy(&mut self.mem, ptr, q, n);
        }
        proof {
            if origin@.intact() && origin@.is_live(ptr) {
                origin@.lemma_grant_write(*old(self), *self, q, q as int, q + n);
                origin@.lemma_after_grant(*self, ptr, q);
                old(self).lemma_live_block(q);
                old(self).lemma_payload_write(*self, (q - HEADER_SIZE) as usize, q as int, q + n);
                assert forall|i: int| 0 <= i < n implies #[trigger] self.memory()[q + i]
                    == origin@.memory()[ptr + i] by {
                    assert(old(self).memory()[ptr + i] == origin@.memory()[ptr + i]);
                }
            }
        }
    }

    /// Moves the allocation at `ptr`, a block of payload size `old_size`
    /// that passes the checks of `kfree`, to a new block for `new_size`
    /// bytes: allocates, copies, frees. Returns the address of the new
    /// payload, and null, with the old block in place, if no block can be
    /// had.
    fn relocate(&mut self, ptr: usize, old_size: usize, new_size: usize) -> (q: usize)
        requires
            old(self).wf(),
            spec_free_ok(old(self).memory(), old(self).page_end(), ptr as int),
            old_size == old(self).payload_size(ptr),
        ensures
            final(self).wf(),
            final(self).memory().len() == old(self).memory().len(),
            new_size == 0 || new_size > MAX_ALLOC ==> q == 0,
            q != 0 ==> q % HEAP_ALIGN == 0,
            old(self).intact() && old(self).is_live(ptr) ==> {
                &&& final(self).intact()
                &&& q == old(self).spec_kmalloc(new_size)
                &&& q == 0 ==> old(self).quiet_step(*final(self))
                &&& q != 0 ==> {
                    &&& old(self).move_step(*final(self), ptr, q)
                    &&& q % HEAP_ALIGN == 0
                    &&& final(self).payload_size(q) >= new_size + CANARY_SIZE
                    &&& forall|i: int|
                        0 <= i < spec_copied(old_size as int, new_size as int)
                            ==> #[trigger] final(self).memory()[q + i] == old(self).memory()[ptr
                            + i]
                }
            },
    {
        let q: usize = self.kmalloc(new_size);
        if q == 0 {
            return 0;
        }
        let n: usize = copied_bytes(old_size, new_size);
        self.copy_payload(Ghost(*old(self)), ptr, q, n);
        let ghost copied = *self;
        self.kfree(ptr);
        proof {
            if old(self).intact() && old(self).is_live(ptr) {
                old(self).lemma_moved(copied, *self, ptr, q);
                assert forall|i: int|
                    0 <= i < spec_copied(old_size as int, new_size as int) implies #[trigger] self.memory()[q
                    + i] == old(self).memory()[ptr + i] by {
                    assert(self.memory()[q + i] == copied.memory()[q + i]);
                }
            }
        }
        q
    }

    /// Changes the size of the allocation at `ptr` to `new_size` bytes and
    /// returns the address of the payload, null on failure.
    ///
    /// With `ptr` null this is `kmalloc(new_size)`; with `new_size` 0 it is
    /// `kfree(ptr)`, and returns null. A `ptr` that fails the checks of
    /// `kfree` is counted as corruption, and null is returned. A block
    /// whose payload is at least `new_size` and at most twice `new_size`
    /// stays where it is, as it is. Else a new block is allocated,
    /// the old payload is copied as far as both blocks go, less the
    /// canary, and the old block is freed; if no block can be had, the
    /// old one stays, and null is returned.
    pub fn krealloc(&mut self, ptr: usize, new_size: usize) -> (q: usize)
        requires
            old(self).wf(),
        ensures
            final(self).wf(),
            final(self).memory().len() == old(self).memory().len(),
            new_size == 0 ==> q == 0,
            new_size > MAX_ALLOC && !(ptr != 0 && spec_free_ok(
                old(self).memory(),
                old(self).page_end(),
                ptr as int,
            ) && Self::spec_in_place(old(self).payload_size(ptr), new_size as int)) ==> q == 0,
            q != 0 ==> q % HEAP_ALIGN == 0,
            ptr == 0 && (new_size == 0 || new_size > MAX_ALLOC) ==> {
                &&& old(self).same_books(*final(self))
                &&& final(self).memory() == old(self).memory()
            },
            ptr == 0 && old(self).intact() ==> {
                &&& final(self).intact()
                &&& q == old(self).spec_kmalloc(new_size)
                &&& q != 0 ==> old(self).grant_step(*final(self), q)
                &&& q == 0 ==> old(self).quiet_step(*final(self))
            },
            ptr == 0 && q != 0 ==> {
                &&& q % HEAP_ALIGN == 0
                &&& spec_free_ok(final(self).memory(), final(self).page_end(), q as int)
                &&& final(self).payload_size(q) >= new_size + CANARY_SIZE
            },
            ptr != 0 && !spec_free_ok(old(self).memory(), old(self).page_end(), ptr as int) ==> {
                &&& q == 0
                &&& old(self).only_corruption_counted(*final(self))
            },
            ptr == 0 ==> old(self).spec_allocated(*final(self), new_size, q),
            ptr != 0 && new_size == 0 ==> q == 0,
            ptr != 0 && new_size == 0 ==> old(self).spec_freed(*final(self), ptr),
            ptr != 0 && new_size == 0 && old(self).intact() && old(self).is_live(ptr)
                && spec_free_ok(old(self).memory(), old(self).page_end(), ptr as int) ==> {
                &&& final(self).intact()
                &&& old(self).release_step(*final(self), ptr)
            },
            ptr != 0 && spec_free_ok(old(self).memory(), old(self).page_end(), ptr as int)
                && Self::spec_in_place(old(self).payload_size(ptr), new_size as int) ==> {
                &&& q == ptr
                &&& old(self).same_books(*final(self))
                &&& final(self).memory() == old(self).memory()
            },
            ptr != 0 && new_size != 0 && old(self).intact() && old(self).is_live(ptr)
                && spec_free_ok(old(self).memory(), old(self).page_end(), ptr as int)
                && !Self::spec_in_place(old(self).payload_size(ptr), new_size as int) ==> {
                &&& final(self).intact()
                &&& q == old(self).spec_kmalloc(new_size)
                &&& q == 0 ==> old(self).quiet_step(*final(self))
                &&& q != 0 ==> {
                    &&& old(self).move_step(*final(self), ptr, q)
                    &&& q % HEAP_ALIGN == 0
                    &&& final(self).payload_size(q) >= new_size + CANARY_SIZE
                    &&& forall|i: int|
                        0 <= i < spec_copied(old(self).payload_size(ptr), new_size as int)
                            ==> #[trigger] final(self).memory()[q + i] == old(self).memory()[ptr
                            + i]
                }
            },
    {
        if ptr == 0 {
            return self.kmalloc(new_size);
        }
        if new_size == 0 {
            self.kfree(ptr);
            return 0;
        }
        let (a, h) = match self.check_allocated(ptr) {
            Some(pair) => pair,
            None => {
                self.corruption_count = if self.corruption_count < u64::MAX {
                    self.corruption_count + 1
                } else {
                    self.corruption_count
                };
                return 0;
            },
        };
        let old_size: usize = h.size as usize;
        if new_size <= old_size && old_size - new_size <= new_size {
            return ptr;
        }
        self.relocate(ptr, old_size, new_size)
    }
}

} // verus!
