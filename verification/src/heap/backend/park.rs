//! Parking. A block that its holder gave back, and that a cache outside
//! the heap keeps for the next request, stays allocated; its payload is
//! poisoned, and in the place of its canary it carries a mark, so that a
//! second free of it fails the checks of `kfree`. Taking the block out of
//! the cache puts the canary back.

use vstd::prelude::*;
use crate::heap::backend::Heap;
use crate::heap::block::{lemma_header_frame, spec_header_at, HeapBlock};
use crate::heap::bytes::{
    fill, lemma_u64_frame, read_u64, spec_same_outside, spec_u64_at, write_u64,
};
use crate::heap::layout::{
    canary_for, spec_canary, ALLOC_MAGIC, CANARY_SIZE, HEADER_SIZE, POISON,
};
use crate::heap::model::{spec_block_ok, spec_free_ok};

verus! {

/// The mark of a parked block whose header is at `addr`: the number behind
/// its canary.
pub open spec fn spec_park_mark(addr: u64) -> u64 {
    if spec_canary(addr) == u64::MAX {
        0
    } else {
        (spec_canary(addr) + 1) as u64
    }
}

/// The mark of a parked block whose header is at `addr`.
pub fn park_mark_for(addr: u64) -> (mark: u64)
    ensures
        mark == spec_park_mark(addr),
        mark != spec_canary(addr),
{
    let canary: u64 = canary_for(addr);
    if canary == u64::MAX {
        0
    } else {
        canary + 1
    }
}

/// The block at `a` carries the mark of a parked block in the place of its
/// canary.
pub open spec fn spec_mark_ok(mem: Seq<u8>, a: int) -> bool {
    spec_u64_at(mem, a + HEADER_SIZE + spec_header_at(mem, a).size - CANARY_SIZE)
        == spec_park_mark(a as u64)
}

/// `ptr` is the payload of a parked block: behind it is a sound header of
/// an allocated block that carries the mark.
pub open spec fn spec_parked_ok(mem: Seq<u8>, brk: int, ptr: int) -> bool {
    &&& ptr >= HEADER_SIZE
    &&& spec_block_ok(mem, brk, ptr - HEADER_SIZE)
    &&& spec_header_at(mem, ptr - HEADER_SIZE).magic == ALLOC_MAGIC
    &&& spec_mark_ok(mem, ptr - HEADER_SIZE)
}

impl Heap {
    /// The other heap is this one but for the bytes of the payload at
    /// `ptr`.
    pub open spec fn restamped(&self, after: Heap, ptr: usize) -> bool {
        &&& self.same_books(after)
        &&& after.header(ptr - HEADER_SIZE) == self.header(ptr - HEADER_SIZE)
        &&& spec_same_outside(
            self.memory(),
            after.memory(),
            ptr as int,
            ptr + self.payload_size(ptr),
        )
    }

    /// The other heap has the payload at `ptr` as this one has it, in
    /// front of the canary.
    pub open spec fn payload_kept(&self, after: Heap, ptr: usize) -> bool {
        forall|at: int|
            ptr <= at < ptr + self.payload_size(ptr) - CANARY_SIZE ==> #[trigger] after.memory()[at]
                == self.memory()[at]
    }

    /// The payload at `ptr` is poisoned in front of the canary.
    pub open spec fn poisoned(&self, ptr: usize) -> bool {
        forall|at: int|
            ptr <= at < ptr + self.payload_size(ptr) - CANARY_SIZE ==> #[trigger] self.memory()[at]
                == POISON
    }

    /// The pages handed out end within the range of addresses.
    pub proof fn lemma_pages_bounded(&self)
        ensures
            self.page_end() <= usize::MAX,
    {
    }

    /// A parked block does not pass the checks of `kfree`.
    pub proof fn lemma_parked_not_free(&self, ptr: usize)
        requires
            spec_parked_ok(self.memory(), self.page_end(), ptr as int),
        ensures
            !spec_free_ok(self.memory(), self.page_end(), ptr as int),
    {
    }

    /// A change of the payload of an allocated block leaves a sound heap
    /// sound, every block allocated that was, and every other allocated
    /// block as it was.
    pub proof fn lemma_restamped(&self, after: Heap, ptr: usize)
        requires
            self.sound(),
            self.is_live(ptr),
            self.restamped(after, ptr),
        ensures
            after.sound(),
            self.intact() ==> after.intact(),
            forall|p: usize| after.is_live(p) == self.is_live(p),
            forall|p: usize| self.is_live(p) ==> after.payload_size(p) == self.payload_size(p),
            self.keeps_live_but(after, ptr),
            after.live_count() == self.live_count(),
    {
        self.lemma_live_block(ptr);
        let size = self.payload_size(ptr);
        self.lemma_payload_write(after, (ptr - HEADER_SIZE) as usize, ptr as int, ptr + size);
        reveal(Heap::keeps_live_but);
        assert forall|p: usize| #[trigger] self.is_live(p) && p != ptr implies {
            &&& after.is_live(p)
            &&& after.payload_size(p) == self.payload_size(p)
            &&& forall|at: int|
                p <= at < p + self.payload_size(p) ==> #[trigger] after.memory()[at]
                    == self.memory()[at]
        } by {
            self.lemma_live_disjoint(p, ptr);
            self.lemma_live_block(p);
        }
    }

    /// Reads and checks the header in front of `ptr`: the address of the
    /// header and the header, if it is a sound header of an allocated
    /// block that carries the mark of a parked block.
    pub fn check_parked(&self, ptr: usize) -> (found: Option<(usize, HeapBlock)>)
        requires
            self.wf(),
        ensures
            found.is_some() == spec_parked_ok(self.memory(), self.page_end(), ptr as int),
            found matches Some((a, h)) ==> a == ptr - HEADER_SIZE && h == self.header(a as int)
                && ptr + h.size <= usize::MAX,
    {
        if ptr < HEADER_SIZE {
            return None;
        }
        let a: usize = ptr - HEADER_SIZE;
        match self.check_block(a) {
            Some(h) => {
                if h.magic != ALLOC_MAGIC {
                    return None;
                }
                let at: usize = ptr + (h.size as usize) - CANARY_SIZE;
                if read_u64(&self.mem, at) != park_mark_for(a as u64) {
                    return None;
                }
                Some((a, h))
            },
            None => None,
        }
    }

    /// Parks the block whose payload is at `ptr`, if `ptr` passes the
    /// checks of `kfree`: poisons its payload and puts the mark in the
    /// place of its canary. Returns the size of its payload, 0 if `ptr`
    /// did not pass; then nothing has changed.
    pub fn park(&mut self, ptr: usize) -> (size: usize)
        requires
            old(self).wf(),
        ensures
            final(self).wf(),
            old(self).same_books(*final(self)),
            !spec_free_ok(old(self).memory(), old(self).page_end(), ptr as int) ==> size == 0
                && *final(self) == *old(self),
            spec_free_ok(old(self).memory(), old(self).page_end(), ptr as int) ==> {
                &&& size == old(self).payload_size(ptr)
                &&& size >= CANARY_SIZE
                &&& old(self).restamped(*final(self), ptr)
                &&& spec_parked_ok(final(self).memory(), final(self).page_end(), ptr as int)
                &&& final(self).poisoned(ptr)
            },
    {
        match self.check_allocated(ptr) {
            None => 0,
            Some((a, h)) => {
                let at: usize = ptr + (h.size as usize) - CANARY_SIZE;
                fill(&mut self.mem, ptr, (h.size as usize) - CANARY_SIZE, POISON);
                let ghost filled = self.mem@;
                write_u64(&mut self.mem, at, park_mark_for(a as u64));
                proof {
                    assert(spec_same_outside(
                        old(self).memory(),
                        self.memory(),
                        ptr as int,
                        ptr + h.size,
                    ));
                    lemma_header_frame(
                        old(self).memory(),
                        self.memory(),
                        ptr as int,
                        ptr + h.size,
                        a as int,
                    );
                    assert forall|i: int| ptr <= i < ptr + h.size - CANARY_SIZE implies #[trigger] self.memory()[i]
                        == POISON by {
                        assert(filled[i] == POISON);
                    }
                }
                h.size as usize
            },
        }
    }

    /// Takes the parked block whose payload is at `ptr` back into use, if
    /// it is a parked block with a payload of `need` bytes at least: puts
    /// its canary back, and leaves the payload in front of it as it is.
    /// Returns the size of its payload, 0 if it was not taken; then
    /// nothing has changed.
    pub fn unpark(&mut self, ptr: usize, need: usize) -> (size: usize)
        requires
            old(self).wf(),
        ensures
            final(self).wf(),
            old(self).same_books(*final(self)),
            !(spec_parked_ok(old(self).memory(), old(self).page_end(), ptr as int) && old(self).payload_size(ptr) >= need) ==> size == 0 && *final(self) == *old(self),
            spec_parked_ok(old(self).memory(), old(self).page_end(), ptr as int) && old(self).payload_size(ptr) >= need ==> {
                &&& size == old(self).payload_size(ptr)
                &&& size >= CANARY_SIZE
                &&& old(self).restamped(*final(self), ptr)
                &&& old(self).payload_kept(*final(self), ptr)
                &&& spec_free_ok(final(self).memory(), final(self).page_end(), ptr as int)
            },
    {
        match self.check_parked(ptr) {
            None => 0,
            Some((a, h)) => {
                if (h.size as usize) < need {
                    return 0;
                }
                let at: usize = ptr + (h.size as usize) - CANARY_SIZE;
                write_u64(&mut self.mem, at, canary_for(a as u64));
                proof {
                    lemma_header_frame(
                        old(self).memory(),
                        self.memory(),
                        at as int,
                        at + CANARY_SIZE,
                        a as int,
                    );
                }
                h.size as usize
            },
        }
    }

    /// Two sound heaps that hold an allocated block with the same size and
    /// the same payload agree on whether it is parked.
    pub proof fn lemma_parked_agrees(&self, after: Heap, ptr: usize)
        requires
            self.sound(),
            after.sound(),
            self.is_live(ptr),
            after.is_live(ptr),
            after.memory().len() == self.memory().len(),
            after.payload_size(ptr) == self.payload_size(ptr),
            forall|at: int|
                ptr <= at < ptr + self.payload_size(ptr) ==> #[trigger] after.memory()[at]
                    == self.memory()[at],
        ensures
            spec_parked_ok(after.memory(), after.page_end(), ptr as int) == spec_parked_ok(
                self.memory(),
                self.page_end(),
                ptr as int,
            ),
    {
        self.lemma_live_block(ptr);
        after.lemma_live_block(ptr);
        lemma_u64_frame(
            self.memory(),
            after.memory(),
            ptr + self.payload_size(ptr) - CANARY_SIZE,
        );
    }
}

} // verus!
