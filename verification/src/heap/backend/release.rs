//! Giving blocks back: `kfree`, the fast-cache push, and coalescing.

use vstd::prelude::*;
use crate::heap::backend::{
    Heap, HeapStats, lemma_cache_sum_update, lemma_class_sizes_differ, spec_bump, spec_clamp,
};
use crate::heap::block::{HeapBlock, lemma_header_frame, load_header, spec_header_at};
use crate::heap::bytes::{fill, read_u64, spec_same_outside};
use crate::heap::layout::{
    ALLOC_MAGIC, CANARY_SIZE, COALESCE_SCAN, COALESCE_THRESHOLD, FAST_CACHE_SIZE, FREE_MAGIC,
    HEADER_SIZE, HEAP_ALIGN, NUM_SIZE_CLASSES, POISON, canary_for, class_size, get_size_class,
    spec_class_size,
};
use crate::heap::model::{
    FastCache, lemma_blocks_distinct, lemma_extent_frame, lemma_extent_frame_on, lemma_merge,
    lemma_merge_settled, lemma_not_stacked, lemma_restamp, lemma_stack_kept, lemma_stacks_moved,
    lemma_sum_at_least, lemma_sum_term, spec_allocated_bytes, spec_apart, spec_block_ok, spec_end,
    spec_entry_ok, spec_free_ok, spec_linked, spec_member_ok, spec_merge_of, spec_merge_pre,
    spec_mergeable, spec_settled, spec_stack_ok, spec_with_prev,
};

verus! {

impl Heap {
    /// Every block that is allocated in this heap, but the one at `ptr`,
    /// is allocated in the other, with the same size and the same bytes in
    /// its payload.
    #[verifier::opaque]
    pub open spec fn keeps_live_but(&self, other: Heap, ptr: usize) -> bool {
        forall|p: usize| #[trigger]
            self.is_live(p) && p != ptr ==> {
                &&& other.is_live(p)
                &&& other.payload_size(p) == self.payload_size(p)
                &&& forall|at: int|
                    p <= at < p + self.payload_size(p) ==> #[trigger] other.memory()[at]
                        == self.memory()[at]
            }
    }

    /// A step that frees the block at `ptr`: the other heap is sound, `ptr`
    /// was allocated and is the one block that is allocated no more, every
    /// other allocated block is as it was, and the payload of `ptr` is
    /// taken from the bytes in use.
    #[verifier::opaque]
    pub open spec fn release_step(&self, after: Heap, ptr: usize) -> bool {
        &&& after.sound()
        &&& self.is_live(ptr)
        &&& forall|p: usize| after.is_live(p) == (self.is_live(p) && p != ptr)
        &&& self.keeps_live_but(after, ptr)
        &&& after.live_count() == self.live_count() - 1
        &&& after.stats().total_allocated == self.stats().total_allocated - self.payload_size(
            ptr,
        )
        &&& after.stats().peak_allocated == self.stats().peak_allocated
    }

    /// A step that frees and a quiet step make a step that frees.
    pub proof fn lemma_release_quiet(&self, mid: Heap, after: Heap, ptr: usize)
        requires
            self.release_step(mid, ptr),
            mid.quiet_step(after),
        ensures
            self.release_step(after, ptr),
    {
        reveal(Heap::release_step);
        reveal(Heap::quiet_step);
        reveal(Heap::keeps_live);
        reveal(Heap::keeps_live_but);
        assert forall|p: usize| after.is_live(p) == (self.is_live(p) && p != ptr) by {
            assert(after.is_live(p) == mid.is_live(p));
        }
        assert forall|p: usize| #[trigger] self.is_live(p) && p != ptr implies {
            &&& after.is_live(p)
            &&& after.payload_size(p) == self.payload_size(p)
            &&& forall|at: int|
                p <= at < p + self.payload_size(p) ==> #[trigger] after.memory()[at]
                    == self.memory()[at]
        } by {
            assert(mid.is_live(p));
            assert forall|at: int| p <= at < p + self.payload_size(p) implies #[trigger] after.memory()[at]
                == self.memory()[at] by {
                assert(mid.memory()[at] == self.memory()[at]);
            }
        }
    }

    /// A write into the payload of a block of the list that is not
    /// allocated is a quiet step.
    pub proof fn lemma_free_payload_write(&self, after: Heap, a: usize, lo: int, hi: int)
        requires
            self.sound(),
            self.same_books(after),
            self.blocks().contains(a),
            self.header(a as int).magic != ALLOC_MAGIC,
            a + HEADER_SIZE <= lo,
            hi <= spec_end(self.memory(), a as int),
            spec_same_outside(self.memory(), after.memory(), lo, hi),
        ensures
            after.sound(),
            self.quiet_step(after),
    {
        reveal(Heap::quiet_step);
        reveal(Heap::keeps_live);
        reveal(Heap::is_live);
        self.lemma_payload_write(after, a, lo, hi);
        let blocks = self.blocks();
        let k = self.index_of(a);
        lemma_extent_frame(
            self.memory(),
            after.memory(),
            self.page_end(),
            self.first(),
            blocks,
            k,
            lo,
            hi,
        );
        lemma_blocks_distinct(self.memory(), self.page_end(), self.first(), blocks);
        assert forall|p: usize| #[trigger] self.is_live(p) implies {
            &&& after.is_live(p)
            &&& after.payload_size(p) == self.payload_size(p)
            &&& forall|at: int|
                p <= at < p + self.payload_size(p) ==> #[trigger] after.memory()[at]
                    == self.memory()[at]
        } by {
            let i = self.index_of((p - HEADER_SIZE) as usize);
            assert(i != k);
            assert(spec_member_ok(self.memory(), self.page_end(), blocks, i));
        }
    }

    /// The stacks of the fast caches after the block at `a` went onto the
    /// stack of class `push`, or nowhere.
    pub open spec fn spec_pushed(&self, a: usize, push: Option<usize>) -> Seq<Seq<usize>> {
        match push {
            Some(c) => self.stacks().update(c as int, seq![a] + self.stacks()[c as int]),
            None => self.stacks(),
        }
    }

    /// An allocated block of the list, stamped as free and put on top of
    /// the stack of a class of its size that has room, or on no stack,
    /// leaves the heap sound, with that block allocated no more.
    proof fn lemma_retired(&self, after: Heap, a: usize, push: Option<usize>)
        requires
            self.sound(),
            self.blocks().contains(a),
            self.header(a as int).magic == ALLOC_MAGIC,
            push matches Some(c) ==> {
                &&& c < NUM_SIZE_CLASSES
                &&& self.header(a as int).size == spec_class_size(c as int)
                &&& self.caches()[c as int].count < FAST_CACHE_SIZE
                &&& after.caches()[c as int].head == a
                &&& after.caches()[c as int].count == self.caches()[c as int].count + 1
                &&& after.header(a as int).flags == 3
                &&& after.header(a as int).cache_next == self.caches()[c as int].head
            },
            push.is_none() ==> after.header(a as int).flags == 1,
            forall|c: int|
                0 <= c < NUM_SIZE_CLASSES && push != Some(c as usize) ==> #[trigger] after.caches()[c]
                    == self.caches()[c],
            after.caches().len() == self.caches().len(),
            after.memory().len() == self.memory().len(),
            after.page_end() == self.page_end(),
            after.first() == self.first(),
            after.blocks() == self.blocks(),
            after.stacks() == self.spec_pushed(a, push),
            spec_same_outside(self.memory(), after.memory(), a as int, a + HEADER_SIZE),
            spec_block_ok(after.memory(), after.page_end(), a as int),
            after.header(a as int).magic == FREE_MAGIC,
            after.header(a as int).size == self.header(a as int).size,
            after.header(a as int).next == self.header(a as int).next,
            after.header(a as int).prev == self.header(a as int).prev,
            after.stats().total_allocated == self.stats().total_allocated - self.header(
                a as int,
            ).size,
            after.stats().peak_allocated == self.stats().peak_allocated,
        ensures
            after.sound(),
            self.release_step(after, (a + HEADER_SIZE) as usize),
    {
        reveal(Heap::is_live);
        reveal(Heap::keeps_live_but);
        reveal(Heap::release_step);
        let before = self.memory();
        let later = after.memory();
        let blocks = self.blocks();
        let k = self.index_of(a);
        assert(spec_member_ok(before, self.page_end(), blocks, k));
        lemma_extent_frame(
            before,
            later,
            self.page_end(),
            self.first(),
            blocks,
            k,
            a as int,
            a + HEADER_SIZE,
        );
        lemma_restamp(before, later, self.page_end(), self.first(), blocks, k);
        lemma_not_stacked(before, blocks, self.caches(), self.stacks(), a);
        lemma_blocks_distinct(before, self.page_end(), self.first(), blocks);
        self.lemma_retired_stacks(after, a, push);
        assert forall|p: usize| #[trigger] self.is_live(p) && p != a + HEADER_SIZE implies {
            &&& after.is_live(p)
            &&& after.payload_size(p) == self.payload_size(p)
            &&& forall|at: int|
                p <= at < p + self.payload_size(p) ==> #[trigger] after.memory()[at]
                    == self.memory()[at]
        } by {
            let i = self.index_of((p - HEADER_SIZE) as usize);
            assert(i != k);
            assert(spec_header_at(later, blocks[i] as int) == spec_header_at(
                before,
                blocks[i] as int,
            ));
        }
        assert forall|p: usize| after.is_live(p) == (self.is_live(p) && p != a + HEADER_SIZE) by {
            if p >= HEADER_SIZE && blocks.contains((p - HEADER_SIZE) as usize) {
                let i = self.index_of((p - HEADER_SIZE) as usize);
                if i != k {
                    assert(spec_header_at(later, blocks[i] as int) == spec_header_at(
                        before,
                        blocks[i] as int,
                    ));
                }
            }
        }
    }

    /// The part of `lemma_retired` on the stacks of the fast caches.
    proof fn lemma_retired_stacks(&self, after: Heap, a: usize, push: Option<usize>)
        requires
            self.sound(),
            self.blocks().contains(a),
            self.header(a as int).magic == ALLOC_MAGIC,
            push matches Some(c) ==> {
                &&& c < NUM_SIZE_CLASSES
                &&& self.header(a as int).size == spec_class_size(c as int)
                &&& self.caches()[c as int].count < FAST_CACHE_SIZE
                &&& after.caches()[c as int].head == a
                &&& after.caches()[c as int].count == self.caches()[c as int].count + 1
                &&& after.header(a as int).flags == 3
                &&& after.header(a as int).cache_next == self.caches()[c as int].head
            },
            forall|c: int|
                0 <= c < NUM_SIZE_CLASSES && push != Some(c as usize) ==> #[trigger] after.caches()[c]
                    == self.caches()[c],
            after.caches().len() == self.caches().len(),
            after.blocks() == self.blocks(),
            after.stacks() == self.spec_pushed(a, push),
            after.header(a as int).size == self.header(a as int).size,
            crate::heap::model::spec_others_kept(
                self.memory(),
                after.memory(),
                self.blocks(),
                self.index_of(a),
            ),
            forall|c: int| 0 <= c < NUM_SIZE_CLASSES ==> !(#[trigger] self.stacks()[c]).contains(a),
        ensures
            crate::heap::model::spec_caches_ok(
                after.memory(),
                after.blocks(),
                after.caches(),
                after.stacks(),
            ),
    {
        let before = self.memory();
        let later = after.memory();
        let blocks = self.blocks();
        let k = self.index_of(a);
        assert forall|c: int| 0 <= c < NUM_SIZE_CLASSES implies #[trigger] spec_stack_ok(
            later,
            blocks,
            after.caches()[c],
            after.stacks()[c],
            c,
        ) by {
            assert(spec_stack_ok(before, blocks, self.caches()[c], self.stacks()[c], c));
            lemma_stack_kept(before, later, blocks, self.caches()[c], self.stacks()[c], c, k);
            if push == Some(c as usize) {
                let stack = self.stacks()[c];
                let more = seq![a] + stack;
                assert(after.stacks()[c] == more);
                assert(more[0] == a);
                assert forall|e: int| 0 <= e < more.len() implies #[trigger] spec_entry_ok(
                    later,
                    blocks,
                    more,
                    c,
                    e,
                ) by {
                    if e > 0 {
                        assert(more[e] == stack[e - 1]);
                        assert(spec_entry_ok(later, blocks, stack, c, e - 1));
                        if e + 1 < more.len() {
                            assert(more[e + 1] == stack[e]);
                        }
                    } else {
                        if more.len() > 1 {
                            assert(more[1] == stack[0]);
                        }
                    }
                }
                assert forall|e: int, f: int|
                    0 <= e < more.len() && 0 <= f < more.len() && e != f implies more[e]
                    != more[f] by {
                    if e > 0 {
                        assert(more[e] == stack[e - 1]);
                    }
                    if f > 0 {
                        assert(more[f] == stack[f - 1]);
                    }
                }
            }
        }
    }

    /// Turns the allocated block at `a`, whose header is `h`, into a free
    /// one, and puts it on top of the fast cache of class `push` if that
    /// is given.
    fn retire(&mut self, a: usize, h: HeapBlock, push: Option<usize>)
        requires
            old(self).wf(),
            spec_block_ok(old(self).memory(), old(self).page_end(), a as int),
            h == old(self).header(a as int),
            h.magic == ALLOC_MAGIC,
            push matches Some(c) ==> {
                &&& c < NUM_SIZE_CLASSES
                &&& h.size == spec_class_size(c as int)
                &&& old(self).caches()[c as int].count < FAST_CACHE_SIZE
            },
        ensures
            final(self).wf(),
            old(self).same_calls(*final(self)),
            final(self).page_end() == old(self).page_end(),
            final(self).first() == old(self).first(),
            final(self).blocks() == old(self).blocks(),
            final(self).stats().cache_hits == old(self).stats().cache_hits,
            final(self).stats().cache_misses == old(self).stats().cache_misses,
            final(self).stats().corruption_count == old(self).stats().corruption_count,
            spec_same_outside(old(self).memory(), final(self).memory(), a as int, a + HEADER_SIZE),
            spec_block_ok(final(self).memory(), final(self).page_end(), a as int),
            final(self).header(a as int).magic == FREE_MAGIC,
            final(self).header(a as int).size == h.size,
            final(self).header(a as int).flags == if push.is_some() {
                3u32
            } else {
                1u32
            },
            old(self).sound() && old(self).blocks().contains(a) ==> {
                &&& final(self).sound()
                &&& old(self).release_step(*final(self), (a + HEADER_SIZE) as usize)
                &&& final(self).stacks() == old(self).spec_pushed(a, push)
            },
    {
        let mut freed: HeapBlock = h;
        freed.init(a, h.size, true);
        match push {
            Some(c) => {
                let cache: FastCache = self.caches[c];
                freed.set_in_cache(true);
                freed.cache_next = cache.head as u64;
                freed.seal(a);
                let pushed: FastCache = FastCache { head: a, count: cache.count + 1, ..cache };
                proof {
                    lemma_cache_sum_update(
                        self.caches@,
                        c as int,
                        pushed,
                        NUM_SIZE_CLASSES as int,
                        true,
                    );
                    lemma_cache_sum_update(
                        self.caches@,
                        c as int,
                        pushed,
                        NUM_SIZE_CLASSES as int,
                        false,
                    );
                }
                self.caches[c] = pushed;
            },
            None => {},
        }
        self.put_header(a, &freed);
        self.total_allocated = self.total_allocated.wrapping_sub(h.size as usize);
        self.stacks = Ghost(
            if old(self).sound() && old(self).blocks().contains(a) {
                old(self).spec_pushed(a, push)
            } else {
                old(self).stacks()
            },
        );
        proof {
            if old(self).sound() && old(self).blocks().contains(a) {
                let mem = old(self).memory();
                let blocks = old(self).blocks();
                let k = old(self).index_of(a);
                assert(spec_member_ok(mem, old(self).page_end(), blocks, k));
                assert forall|i: int| 0 <= i < blocks.len() implies spec_allocated_bytes(
                    mem,
                    #[trigger] blocks[i],
                ) >= 0 by {}
                lemma_sum_term(blocks, |x: usize| spec_allocated_bytes(mem, x), k);
                old(self).lemma_retired(*self, a, push);
            }
        }
    }

    /// Whether `at` lies in the header of a block of the global list.
    pub open spec fn in_some_header(&self, at: int) -> bool {
        exists|i: int|
            0 <= i < self.blocks().len() && (#[trigger] self.blocks()[i]) <= at < self.blocks()[i]
                + HEADER_SIZE
    }

    /// The arena of the other heap differs from the arena of this one in
    /// headers of blocks of the global list of this heap only, the list of
    /// the other heap has no block that the list of this one has not, and
    /// its blocks have the flags that they had.
    #[verifier::opaque]
    pub open spec fn touches_headers_only(&self, after: Heap) -> bool {
        &&& after.memory().len() == self.memory().len()
        &&& forall|at: int|
            0 <= at < self.memory().len() && #[trigger] after.memory()[at] != self.memory()[at]
                ==> self.in_some_header(at)
        &&& forall|i: int|
            0 <= i < after.blocks().len() ==> self.blocks().contains(#[trigger] after.blocks()[i])
        &&& forall|i: int|
            0 <= i < after.blocks().len() ==> after.header(
                #[trigger] after.blocks()[i] as int,
            ).flags == self.header(after.blocks()[i] as int).flags
    }

    /// A heap with the same arena and the same list has touched nothing.
    pub proof fn lemma_touch_same(&self, after: Heap)
        requires
            after.memory() == self.memory(),
            after.blocks() == self.blocks(),
        ensures
            self.touches_headers_only(after),
    {
        reveal(Heap::touches_headers_only);
    }

    /// What touches headers only, step after step, touches headers only.
    pub proof fn lemma_touch_trans(&self, mid: Heap, after: Heap)
        requires
            self.touches_headers_only(mid),
            mid.touches_headers_only(after),
        ensures
            self.touches_headers_only(after),
    {
        reveal(Heap::touches_headers_only);
        assert forall|at: int|
            0 <= at < self.memory().len() && #[trigger] after.memory()[at]
                != self.memory()[at] implies self.in_some_header(at) by {
            if after.memory()[at] != mid.memory()[at] {
                let i = choose|i: int|
                    0 <= i < mid.blocks().len() && (#[trigger] mid.blocks()[i]) <= at
                        < mid.blocks()[i] + HEADER_SIZE;
                assert(self.blocks().contains(mid.blocks()[i]));
                let j = self.index_of(mid.blocks()[i]);
                assert(self.blocks()[j] <= at < self.blocks()[j] + HEADER_SIZE);
            } else {
                assert(mid.memory()[at] != self.memory()[at]);
            }
        }
        assert forall|i: int| 0 <= i < after.blocks().len() implies self.blocks().contains(
            #[trigger] after.blocks()[i],
        ) && after.header(after.blocks()[i] as int).flags == self.header(
            after.blocks()[i] as int,
        ).flags by {
            assert(mid.blocks().contains(after.blocks()[i]));
            let j = mid.index_of(after.blocks()[i]);
            assert(self.blocks().contains(mid.blocks()[j]));
            assert(mid.header(mid.blocks()[j] as int).flags == self.header(
                mid.blocks()[j] as int,
            ).flags);
        }
    }

    /// Bytes in the payload of a block of the list of a sound heap are
    /// not touched by what touches headers only.
    pub proof fn lemma_payload_untouched(&self, after: Heap, a: usize, at: int)
        requires
            self.sound(),
            self.touches_headers_only(after),
            self.blocks().contains(a),
            a + HEADER_SIZE <= at < spec_end(self.memory(), a as int),
        ensures
            after.memory()[at] == self.memory()[at],
    {
        reveal(Heap::touches_headers_only);
        let k = self.index_of(a);
        let blocks = self.blocks();
        assert(spec_member_ok(self.memory(), self.page_end(), blocks, k));
        if after.memory()[at] != self.memory()[at] {
            let i = choose|i: int|
                0 <= i < blocks.len() && (#[trigger] blocks[i]) <= at < blocks[i] + HEADER_SIZE;
            assert(spec_member_ok(self.memory(), self.page_end(), blocks, i));
            if i < k {
                assert(spec_apart(self.memory(), blocks, i, k));
            } else if k < i {
                assert(spec_apart(self.memory(), blocks, k, i));
            }
        }
    }

    /// A merge touches headers only.
    proof fn lemma_merged_touch(&self, after: Heap, a: usize, m1: Seq<u8>)
        requires
            self.spec_merged(after, a, m1),
        ensures
            self.touches_headers_only(after),
    {
        reveal(Heap::touches_headers_only);
        let k = self.index_of(a);
        let blocks = self.blocks();
        let h = self.header(a as int);
        let hn = self.header(h.next as int);
        self.lemma_neighbours(a);
        assert forall|at: int|
            0 <= at < self.memory().len() && #[trigger] after.memory()[at]
                != self.memory()[at] implies self.in_some_header(at) by {
            if after.memory()[at] != m1[at] {
                assert(blocks[k] <= at < blocks[k] + HEADER_SIZE);
            } else {
                assert(blocks[k + 2] <= at < blocks[k + 2] + HEADER_SIZE);
            }
        }
        self.lemma_merged_frame(after, a, m1);
        assert forall|i: int| 0 <= i < after.blocks().len() implies blocks.contains(
            #[trigger] after.blocks()[i],
        ) && after.header(after.blocks()[i] as int).flags == self.header(
            after.blocks()[i] as int,
        ).flags by {
            if i <= k {
                assert(after.blocks()[i] == blocks[i]);
                if i < k {
                    assert(spec_header_at(after.memory(), blocks[i] as int) == spec_header_at(
                        self.memory(),
                        blocks[i] as int,
                    ));
                }
            } else {
                assert(after.blocks()[i] == blocks[i + 1]);
                if i + 1 != k + 2 {
                    assert(spec_header_at(after.memory(), blocks[i + 1] as int)
                        == spec_header_at(self.memory(), blocks[i + 1] as int));
                }
            }
        }
    }

    /// The other heap has the books of this one, but for the bytes of the
    /// arena, the list of blocks and the counter of merges.
    pub open spec fn same_but_merged(&self, other: Heap) -> bool {
        &&& other.memory().len() == self.memory().len()
        &&& other.page_end() == self.page_end()
        &&& other.first() == self.first()
        &&& other.caches() == self.caches()
        &&& other.stacks() == self.stacks()
        &&& other.slow_frees() == self.slow_frees()
        &&& other.failed() == self.failed()
        &&& other.stats().total_allocated == self.stats().total_allocated
        &&& other.stats().peak_allocated == self.stats().peak_allocated
        &&& other.stats().alloc_count == self.stats().alloc_count
        &&& other.stats().free_count == self.stats().free_count
        &&& other.stats().cache_hits == self.stats().cache_hits
        &&& other.stats().cache_misses == self.stats().cache_misses
        &&& other.stats().corruption_count == self.stats().corruption_count
    }

    /// What the lemmas on a merge take for granted: the block at `a` grew
    /// over its successor in two writes (the link of the block behind the
    /// successor, the header of the block).
    pub open spec fn spec_merged(&self, after: Heap, a: usize, m1: Seq<u8>) -> bool {
        let k = self.index_of(a);
        let h = self.header(a as int);
        let hn = self.header(h.next as int);
        &&& self.sound()
        &&& self.blocks().contains(a)
        &&& spec_mergeable(self.memory(), self.blocks(), k)
        &&& self.same_but_merged(after)
        &&& after.blocks() == self.blocks().remove(k + 1)
        &&& hn.next != 0 ==> {
            &&& spec_same_outside(self.memory(), m1, hn.next as int, hn.next + HEADER_SIZE)
            &&& spec_header_at(m1, hn.next as int) == spec_with_prev(
                self.header(hn.next as int),
                a as int,
            )
        }
        &&& hn.next == 0 ==> m1 == self.memory()
        &&& spec_same_outside(m1, after.memory(), a as int, a + HEADER_SIZE)
        &&& after.header(a as int) == (HeapBlock {
            size: (h.size + HEADER_SIZE + hn.size) as u64,
            next: hn.next,
            checksum: after.header(a as int).checksum,
            ..h
        })
        &&& after.header(a as int).checksum == after.header(a as int).spec_compute_checksum(
            a as int,
        )
    }

    /// After a merge, every block of the list but the one that grew and
    /// the one that went has its header as it was, but for the link of the
    /// block behind them, and its payload as it was.
    proof fn lemma_merged_frame(&self, after: Heap, a: usize, m1: Seq<u8>)
        requires
            self.spec_merged(after, a, m1),
        ensures
            spec_merge_of(self.memory(), after.memory(), self.blocks(), self.index_of(a)),
            spec_block_ok(after.memory(), after.page_end(), a as int),
            forall|i: int, at: int|
                0 <= i < self.blocks().len() && i != self.index_of(a) && i != self.index_of(a) + 1
                    && self.blocks()[i] + HEADER_SIZE <= at < spec_end(
                    self.memory(),
                    #[trigger] self.blocks()[i] as int,
                ) ==> #[trigger] after.memory()[at] == self.memory()[at],
    {
        let base = self.memory();
        let m2 = after.memory();
        let blocks = self.blocks();
        let brk = self.page_end();
        let k = self.index_of(a);
        let h = self.header(a as int);
        assert(spec_member_ok(base, brk, blocks, k));
        assert(spec_member_ok(base, brk, blocks, k + 1));
        assert(spec_linked(base, blocks, k));
        assert(spec_linked(base, blocks, k + 1));
        let hn = self.header(h.next as int);
        if k + 2 < blocks.len() {
            assert(spec_member_ok(base, brk, blocks, k + 2));
            lemma_extent_frame_on(
                base,
                base,
                m1,
                brk,
                self.first(),
                blocks,
                k + 2,
                hn.next as int,
                hn.next + HEADER_SIZE,
            );
        }
        lemma_extent_frame_on(base, m1, m2, brk, self.first(), blocks, k, a as int, a + HEADER_SIZE);
        assert forall|i: int|
            0 <= i < blocks.len() && i != k && i != k + 1 && i != k + 2 implies spec_header_at(
            m2,
            #[trigger] blocks[i] as int,
        ) == spec_header_at(base, blocks[i] as int) by {
            assert(spec_header_at(m2, blocks[i] as int) == spec_header_at(m1, blocks[i] as int));
        }
        if k + 2 < blocks.len() {
            assert(spec_header_at(m2, blocks[k + 2] as int) == spec_header_at(
                m1,
                blocks[k + 2] as int,
            ));
        }
        assert((h.size + HEADER_SIZE + hn.size) % 16 == 0) by {
            assert(h.size % 16 == 0);
            assert(hn.size % 16 == 0);
        }
        assert forall|i: int, at: int|
            0 <= i < blocks.len() && i != k && i != k + 1 && blocks[i] + HEADER_SIZE <= at
                < spec_end(base, #[trigger] blocks[i] as int) implies #[trigger] m2[at]
            == base[at] by {
            assert(spec_member_ok(base, brk, blocks, i));
            assert(m2[at] == m1[at]);
            if k + 2 < blocks.len() && i != k + 2 {
                assert(m1[at] == base[at]);
            }
        }
    }

    /// A merge leaves a sound heap sound.
    proof fn lemma_merged_sound(&self, after: Heap, a: usize, m1: Seq<u8>)
        requires
            self.spec_merged(after, a, m1),
        ensures
            after.sound(),
            after.live_count() == self.live_count(),
            after.blocks().contains(a),
    {
        let base = self.memory();
        let m2 = after.memory();
        let blocks = self.blocks();
        let k = self.index_of(a);
        self.lemma_merged_frame(after, a, m1);
        assert(spec_merge_pre(base, m2, self.page_end(), self.first(), blocks, k));
        lemma_merge(base, m2, self.page_end(), self.first(), blocks, k);
        assert(after.blocks()[k] == a);
        assert forall|i: int|
            0 <= i < blocks.len() && spec_header_at(base, #[trigger] blocks[i] as int).flags
                == 3 implies {
            &&& after.blocks().contains(blocks[i])
            &&& spec_header_at(m2, blocks[i] as int).flags == 3
            &&& spec_header_at(m2, blocks[i] as int).size == spec_header_at(
                base,
                blocks[i] as int,
            ).size
            &&& spec_header_at(m2, blocks[i] as int).cache_next == spec_header_at(
                base,
                blocks[i] as int,
            ).cache_next
        } by {
            if i < k {
                assert(after.blocks()[i] == blocks[i]);
            } else {
                assert(after.blocks()[i - 1] == blocks[i]);
            }
        }
        lemma_stacks_moved(base, m2, blocks, after.blocks(), self.caches(), self.stacks());
    }

    /// A merge leaves every allocated block as it was, and allocates none.
    proof fn lemma_merged_live(&self, after: Heap, a: usize, m1: Seq<u8>)
        requires
            self.spec_merged(after, a, m1),
        ensures
            self.keeps_live(after),
            self.same_live(after),
    {
        reveal(Heap::is_live);
        reveal(Heap::keeps_live);
        let base = self.memory();
        let m2 = after.memory();
        let blocks = self.blocks();
        let k = self.index_of(a);
        self.lemma_merged_frame(after, a, m1);
        assert(spec_member_ok(base, self.page_end(), blocks, k));
        assert(spec_member_ok(base, self.page_end(), blocks, k + 1));
        lemma_blocks_distinct(base, self.page_end(), self.first(), blocks);
        assert forall|p: usize| #[trigger] self.is_live(p) implies {
            &&& after.is_live(p)
            &&& after.payload_size(p) == self.payload_size(p)
            &&& forall|at: int|
                p <= at < p + self.payload_size(p) ==> #[trigger] after.memory()[at]
                    == self.memory()[at]
        } by {
            let i = choose|i: int| 0 <= i < blocks.len() && blocks[i] == (p - HEADER_SIZE) as usize;
            assert(i != k && i != k + 1);
            if i < k {
                assert(after.blocks()[i] == blocks[i]);
            } else {
                assert(after.blocks()[i - 1] == blocks[i]);
            }
            if i != k + 2 {
                assert(spec_header_at(m2, blocks[i] as int) == spec_header_at(
                    base,
                    blocks[i] as int,
                ));
            }
        }
        assert forall|p: usize| after.is_live(p) == self.is_live(p) by {
            if after.is_live(p) {
                let j = choose|j: int|
                    0 <= j < after.blocks().len() && after.blocks()[j] == (p - HEADER_SIZE) as usize;
                if j <= k {
                    assert(after.blocks()[j] == blocks[j]);
                    if j < k {
                        assert(spec_header_at(m2, blocks[j] as int) == spec_header_at(
                            base,
                            blocks[j] as int,
                        ));
                    }
                } else {
                    assert(after.blocks()[j] == blocks[j + 1]);
                    if j + 1 != k + 2 {
                        assert(spec_header_at(m2, blocks[j + 1] as int) == spec_header_at(
                            base,
                            blocks[j + 1] as int,
                        ));
                    }
                }
            }
        }
    }

    /// A merge is a quiet step, and settles what was settled before the
    /// block that grew.
    proof fn lemma_merged(&self, after: Heap, a: usize, m1: Seq<u8>)
        requires
            self.spec_merged(after, a, m1),
        ensures
            after.sound(),
            self.quiet_step(after),
            after.blocks().contains(a),
            after.index_of(a) == self.index_of(a),
            spec_settled(self.memory(), self.blocks(), self.index_of(a)) ==> spec_settled(
                after.memory(),
                after.blocks(),
                self.index_of(a),
            ),
    {
        reveal(Heap::quiet_step);
        self.lemma_merged_sound(after, a, m1);
        self.lemma_merged_live(after, a, m1);
        self.lemma_merged_frame(after, a, m1);
        let k = self.index_of(a);
        assert(after.blocks()[k] == a);
        lemma_blocks_distinct(
            after.memory(),
            after.page_end(),
            after.first(),
            after.blocks(),
        );
        if spec_settled(self.memory(), self.blocks(), k) {
            lemma_merge_settled(
                self.memory(),
                after.memory(),
                self.page_end(),
                self.first(),
                self.blocks(),
                k,
            );
        }
    }

    /// The successor of the free block at `a`, whose header is `h`, in the
    /// global list, with its header, if the two can be merged: if the
    /// successor is free, in no cache, and begins where the block ends.
    fn merge_partner(&self, a: usize, h: HeapBlock) -> (partner: Option<(usize, HeapBlock)>)
        requires
            self.wf(),
            spec_block_ok(self.memory(), self.page_end(), a as int),
            h == self.header(a as int),
            h.flags == 1,
        ensures
            partner matches Some((n, hn)) ==> {
                &&& n == h.next
                &&& n != 0
                &&& spec_block_ok(self.memory(), self.page_end(), n as int)
                &&& hn == self.header(n as int)
                &&& hn.flags == 1
                &&& a + HEADER_SIZE + h.size == n
            },
            self.sound() && self.blocks().contains(a) ==> partner.is_some() == spec_mergeable(
                self.memory(),
                self.blocks(),
                self.index_of(a),
            ),
    {
        proof {
            if self.sound() && self.blocks().contains(a) {
                let k = self.index_of(a);
                let mem = self.memory();
                let blocks = self.blocks();
                assert(spec_linked(mem, blocks, k));
                assert(spec_member_ok(mem, self.page_end(), blocks, k));
                if k + 1 < blocks.len() {
                    assert(spec_member_ok(mem, self.page_end(), blocks, k + 1));
                }
            }
        }
        if h.next == 0 || h.next > (self.brk - HEADER_SIZE) as u64 {
            return None;
        }
        let n: usize = h.next as usize;
        match self.check_block(n) {
            Some(hn) => {
                if hn.flags == 1 && h.are_adjacent(a, n) {
                    Some((n, hn))
                } else {
                    None
                }
            },
            None => None,
        }
    }

    /// Merges the free block at `a`, whose header is `h`, with its
    /// successor in the global list, if that is free, in no cache, and
    /// begins where the block ends. Says whether it did.
    ///
    /// The merged block has the payload of both and the header between
    /// them, and the links of the two: its successor is that of the block
    /// that went, which points back at it.
    pub fn coalesce_with_next(&mut self, a: usize, h: HeapBlock) -> (merged: bool)
        requires
            old(self).wf(),
            spec_block_ok(old(self).memory(), old(self).page_end(), a as int),
            h == old(self).header(a as int),
            h.flags == 1,
        ensures
            final(self).wf(),
            old(self).same_but_merged(*final(self)),
            final(self).stats().coalesce_count == if merged {
                spec_bump(old(self).stats().coalesce_count)
            } else {
                old(self).stats().coalesce_count
            },
            !merged ==> final(self).memory() == old(self).memory() && final(self).blocks() == old(self).blocks(),
            spec_block_ok(final(self).memory(), final(self).page_end(), a as int),
            final(self).header(a as int).flags == 1,
            old(self).sound() && old(self).blocks().contains(a) ==> {
                &&& final(self).sound()
                &&& old(self).quiet_step(*final(self))
                &&& merged == spec_mergeable(
                    old(self).memory(),
                    old(self).blocks(),
                    old(self).index_of(a),
                )
                &&& merged ==> final(self).blocks() == old(self).blocks().remove(
                    old(self).index_of(a) + 1,
                )
                &&& merged ==> spec_merge_of(
                    old(self).memory(),
                    final(self).memory(),
                    old(self).blocks(),
                    old(self).index_of(a),
                )
                &&& final(self).blocks().contains(a)
                &&& final(self).index_of(a) == old(self).index_of(a)
                &&& old(self).touches_headers_only(*final(self))
                &&& spec_settled(
                    old(self).memory(),
                    old(self).blocks(),
                    old(self).index_of(a),
                ) ==> spec_settled(
                    final(self).memory(),
                    final(self).blocks(),
                    old(self).index_of(a),
                )
            },
    {
        match self.merge_partner(a, h) {
            None => {
                proof {
                    if old(self).sound() {
                        old(self).lemma_quiet_same(*self);
                        old(self).lemma_touch_same(*self);
                    }
                }
                false
            },
            Some((n, hn)) => {
                self.merge_next(a, h, hn);
                true
            },
        }
    }

    /// Grows the free block at `a`, whose header is `h`, over its
    /// successor in the global list, whose header is `hn`.
    fn merge_next(&mut self, a: usize, h: HeapBlock, hn: HeapBlock)
        requires
            old(self).wf(),
            spec_block_ok(old(self).memory(), old(self).page_end(), a as int),
            h == old(self).header(a as int),
            h.flags == 1,
            h.next != 0,
            spec_block_ok(old(self).memory(), old(self).page_end(), h.next as int),
            hn == old(self).header(h.next as int),
            hn.flags == 1,
            a + HEADER_SIZE + h.size == h.next,
        ensures
            final(self).wf(),
            old(self).same_but_merged(*final(self)),
            final(self).stats().coalesce_count == spec_bump(old(self).stats().coalesce_count),
            spec_block_ok(final(self).memory(), final(self).page_end(), a as int),
            final(self).header(a as int).flags == 1,
            old(self).sound() && old(self).blocks().contains(a) ==> {
                &&& final(self).sound()
                &&& old(self).quiet_step(*final(self))
                &&& final(self).blocks() == old(self).blocks().remove(old(self).index_of(a) + 1)
                &&& spec_merge_of(
                    old(self).memory(),
                    final(self).memory(),
                    old(self).blocks(),
                    old(self).index_of(a),
                )
                &&& final(self).blocks().contains(a)
                &&& final(self).index_of(a) == old(self).index_of(a)
                &&& old(self).touches_headers_only(*final(self))
                &&& spec_settled(
                    old(self).memory(),
                    old(self).blocks(),
                    old(self).index_of(a),
                ) ==> spec_settled(
                    final(self).memory(),
                    final(self).blocks(),
                    old(self).index_of(a),
                )
            },
    {
        proof {
            if old(self).sound() && old(self).blocks().contains(a) {
                old(self).lemma_neighbours(a);
            }
        }
        if hn.next != 0 && hn.next <= (self.brk - HEADER_SIZE) as u64 {
            let nn: usize = hn.next as usize;
            let mut hnn: HeapBlock = load_header(&self.mem, nn);
            hnn.prev = a as u64;
            self.put_header(nn, &hnn);
        }
        let ghost m1 = self.mem@;
        let mut grown: HeapBlock = h;
        grown.size = h.size + HEADER_SIZE as u64 + hn.size;
        grown.next = hn.next;
        grown.seal(a);
        self.put_header(a, &grown);
        self.coalesce_count = if self.coalesce_count < u64::MAX {
            self.coalesce_count + 1
        } else {
            self.coalesce_count
        };
        self.blocks = Ghost(
            if old(self).sound() && old(self).blocks().contains(a) {
                old(self).blocks().remove(old(self).index_of(a) + 1)
            } else {
                old(self).blocks()
            },
        );
        proof {
            assert((h.size + HEADER_SIZE + hn.size) % 16 == 0) by {
                assert(h.size % 16 == 0);
                assert(hn.size % 16 == 0);
            }
            if old(self).sound() && old(self).blocks().contains(a) {
                old(self).lemma_merged(*self, a, m1);
                old(self).lemma_merged_frame(*self, a, m1);
                old(self).lemma_merged_touch(*self, a, m1);
            }
        }
    }

    /// In a sound heap, the links of a block of the list name the blocks
    /// next to it in the list, and those are sound.
    proof fn lemma_neighbours(&self, a: usize)
        requires
            self.sound(),
            self.blocks().contains(a),
        ensures
            self.header(a as int).next != 0 ==> {
                &&& self.index_of(a) + 1 < self.blocks().len()
                &&& self.blocks()[self.index_of(a) + 1] == self.header(a as int).next
                &&& self.header(a as int).next + HEADER_SIZE <= self.page_end()
                &&& self.header(self.header(a as int).next as int).next != 0 ==> {
                    &&& self.index_of(a) + 2 < self.blocks().len()
                    &&& self.blocks()[self.index_of(a) + 2] == self.header(
                        self.header(a as int).next as int,
                    ).next
                    &&& self.header(self.header(a as int).next as int).next + HEADER_SIZE
                        <= self.page_end()
                }
                &&& self.header(self.header(a as int).next as int).next == 0
                    ==> self.index_of(a) + 2 == self.blocks().len()
            },
            self.header(a as int).next == 0 ==> self.index_of(a) + 1 == self.blocks().len(),
    {
        let k = self.index_of(a);
        let mem = self.memory();
        let blocks = self.blocks();
        assert(spec_linked(mem, blocks, k));
        assert(spec_member_ok(mem, self.page_end(), blocks, k));
        if k + 1 < blocks.len() {
            assert(spec_member_ok(mem, self.page_end(), blocks, k + 1));
            assert(spec_linked(mem, blocks, k + 1));
            if k + 2 < blocks.len() {
                assert(spec_member_ok(mem, self.page_end(), blocks, k + 2));
            }
        }
    }

    /// The other heap differs from this one in the counter of corruptions
    /// only, which is one higher unless it was at the top of its range.
    pub open spec fn only_corruption_counted(&self, other: Heap) -> bool {
        &&& other.memory() == self.memory()
        &&& other.page_end() == self.page_end()
        &&& other.first() == self.first()
        &&& other.caches() == self.caches()
        &&& other.blocks() == self.blocks()
        &&& other.stacks() == self.stacks()
        &&& other.slow_frees() == self.slow_frees()
        &&& other.failed() == self.failed()
        &&& other.stats() == (HeapStats {
            corruption_count: spec_bump(self.stats().corruption_count),
            ..self.stats()
        })
    }

    /// Blocks of a list of `len` blocks that a coalescing scan does not get
    /// to.
    pub open spec fn spec_unscanned(len: int) -> int {
        if len > COALESCE_SCAN {
            len - COALESCE_SCAN
        } else {
            0
        }
    }

    /// Walks the global list from its head and merges every free block
    /// that is in no cache with its successor, again and again, as long as
    /// the successor is free, in no cache and begins where the block ends.
    /// The scan takes `COALESCE_SCAN` steps at most, a merge or a move to
    /// the next block each.
    pub fn coalesce_free_blocks(&mut self)
        requires
            old(self).wf(),
        ensures
            final(self).wf(),
            old(self).same_but_merged(*final(self)),
            final(self).stats().coalesce_count >= old(self).stats().coalesce_count,
            old(self).sound() ==> {
                &&& final(self).sound()
                &&& old(self).quiet_step(*final(self))
                &&& old(self).touches_headers_only(*final(self))
                &&& spec_settled(
                    final(self).memory(),
                    final(self).blocks(),
                    final(self).blocks().len() - Self::spec_unscanned(
                        old(self).blocks().len() as int,
                    ),
                )
                &&& final(self).stats().coalesce_count == spec_clamp(
                    old(self).stats().coalesce_count + old(self).blocks().len() - final(self).blocks().len(),
                )
            },
    {
        let mut cur: usize = self.head;
        let mut steps: usize = 0;
        let ghost mut idx: int = 0;
        proof {
            if old(self).sound() {
                old(self).lemma_quiet_same(*self);
                old(self).lemma_touch_same(*self);
                if self.blocks().len() > 0 {
                    assert(spec_member_ok(self.memory(), self.page_end(), self.blocks(), 0));
                }
            }
        }
        while cur != 0 && steps < COALESCE_SCAN
            invariant
                self.wf(),
                old(self).same_but_merged(*self),
                self.stats().coalesce_count >= old(self).stats().coalesce_count,
                steps <= COALESCE_SCAN,
                old(self).sound() ==> {
                    &&& self.sound()
                    &&& old(self).quiet_step(*self)
                    &&& old(self).touches_headers_only(*self)
                    &&& 0 <= idx <= self.blocks().len()
                    &&& cur == (if idx < self.blocks().len() {
                        self.blocks()[idx]
                    } else {
                        0
                    })
                    &&& spec_settled(self.memory(), self.blocks(), idx)
                    &&& steps + (self.blocks().len() - idx) == old(self).blocks().len()
                    &&& idx <= steps
                    &&& self.stats().coalesce_count == spec_clamp(
                        old(self).stats().coalesce_count + old(self).blocks().len()
                            - self.blocks().len(),
                    )
                },
            decreases COALESCE_SCAN - steps,
        {
            let ghost before = *self;
            proof {
                if old(self).sound() {
                    assert(idx < self.blocks().len());
                    assert(spec_member_ok(self.memory(), self.page_end(), self.blocks(), idx));
                    assert(self.blocks().contains(cur));
                    lemma_blocks_distinct(
                        self.memory(),
                        self.page_end(),
                        self.first(),
                        self.blocks(),
                    );
                    assert(self.index_of(cur) == idx);
                    self.lemma_neighbours(cur);
                }
            }
            let found: Option<HeapBlock> = self.check_block(cur);
            match found {
                None => {
                    return ;
                },
                Some(h) => {
                    let mut merged: bool = false;
                    if h.flags == 1 {
                        merged = self.coalesce_with_next(cur, h);
                    }
                    proof {
                        if old(self).sound() {
                            if h.flags != 1 {
                                before.lemma_quiet_same(*self);
                                before.lemma_touch_same(*self);
                            }
                            old(self).lemma_quiet_quiet(before, *self);
                            old(self).lemma_touch_trans(before, *self);
                            if merged {
                                assert(self.blocks()[idx] == before.blocks()[idx]);
                            }
                        }
                    }
                    if !merged {
                        cur = if h.next <= self.brk as u64 {
                            h.next as usize
                        } else {
                            0
                        };
                        proof {
                            if old(self).sound() {
                                assert(!spec_mergeable(self.memory(), self.blocks(), idx));
                                assert forall|i: int| 0 <= i < idx + 1 implies !#[trigger] spec_mergeable(
                                    self.memory(),
                                    self.blocks(),
                                    i,
                                ) by {
                                    if i < idx {
                                        assert(!spec_mergeable(before.memory(), before.blocks(), i));
                                    }
                                }
                                idx = idx + 1;
                            }
                        }
                    }
                },
            }
            steps = steps + 1;
        }
        proof {
            if old(self).sound() && idx < self.blocks().len() {
                assert(spec_member_ok(self.memory(), self.page_end(), self.blocks(), idx));
            }
        }
    }

    /// The class whose fast cache takes a freed block of payload size
    /// `size`: the class of exactly that size, if its stack has room.
    #[verifier::opaque]
    pub open spec fn spec_cache_target(&self, size: int) -> Option<usize> {
        if exists|c: usize|
            c < NUM_SIZE_CLASSES && spec_class_size(c as int) == size && self.caches()[c as int].count
                < FAST_CACHE_SIZE {
            Some(
                choose|c: usize|
                    c < NUM_SIZE_CLASSES && spec_class_size(c as int) == size
                        && self.caches()[c as int].count < FAST_CACHE_SIZE,
            )
        } else {
            None
        }
    }

    /// The fast cache that takes a freed block of payload size `size`, if
    /// there is one.
    fn cache_target(&self, size: usize) -> (target: Option<usize>)
        requires
            self.wf(),
        ensures
            target == self.spec_cache_target(size as int),
            target matches Some(c) ==> {
                &&& c < NUM_SIZE_CLASSES
                &&& spec_class_size(c as int) == size
                &&& self.caches()[c as int].count < FAST_CACHE_SIZE
            },
    {
        proof {
            reveal(Heap::spec_cache_target);
        }
        match get_size_class(size) {
            Some(c) => {
                if class_size(c) == size && self.caches[c].count < FAST_CACHE_SIZE {
                    proof {
                        assert forall|d: usize|
                            d < NUM_SIZE_CLASSES && spec_class_size(d as int) == size implies d
                            == c by {
                            if d != c {
                                lemma_class_sizes_differ(c as int, d as int);
                            }
                        }
                    }
                    Some(c)
                } else {
                    proof {
                        assert forall|d: usize|
                            d < NUM_SIZE_CLASSES && spec_class_size(d as int) == size implies d
                            == c by {
                            crate::heap::layout::lemma_class_of_class_size(d as int);
                        }
                    }
                    None
                }
            },
            None => {
                None
            },
        }
    }

    /// What `kfree` does for a pointer `ptr` that is not null.
    ///
    /// A pointer that fails the checks is counted as corruption, and
    /// nothing else changes. For a pointer that passes them a free is
    /// counted, and the other counters of calls, the pages handed out and
    /// the requests turned down stay. If the heap was intact and the
    /// block allocated, the heap is intact with that block allocated no
    /// more, the payload in front of the canary is poison, and the block
    /// is on top of the fast cache of its class, flagged as cached, if its
    /// size is that of a class whose cache has room; if not, it is free
    /// and in no cache, a free past the caches is counted, and with the
    /// count at the threshold a coalescing scan was made.
    pub open spec fn spec_freed(&self, after: Heap, ptr: usize) -> bool {
        &&& after.memory().len() == self.memory().len()
        &&& !spec_free_ok(self.memory(), self.page_end(), ptr as int)
            ==> self.only_corruption_counted(after)
        &&& spec_free_ok(self.memory(), self.page_end(), ptr as int) ==> {
            &&& after.stats().corruption_count == self.stats().corruption_count
            &&& after.stats().free_count == spec_bump(self.stats().free_count)
            &&& after.stats().alloc_count == self.stats().alloc_count
            &&& after.stats().cache_hits == self.stats().cache_hits
            &&& after.stats().cache_misses == self.stats().cache_misses
            &&& after.page_end() == self.page_end()
            &&& after.failed() == self.failed()
        }
        &&& self.intact() && self.is_live(ptr) && spec_free_ok(
            self.memory(),
            self.page_end(),
            ptr as int,
        ) ==> {
            &&& after.intact()
            &&& self.release_step(after, ptr)
            &&& forall|at: int|
                ptr <= at < ptr + self.payload_size(ptr) - CANARY_SIZE ==> #[trigger] after.memory()[at]
                    == POISON
            &&& after.blocks().contains((ptr - HEADER_SIZE) as usize) ==> after.header(
                ptr - HEADER_SIZE,
            ).flags == if self.spec_cache_target(self.payload_size(ptr)).is_some() {
                3u32
            } else {
                1u32
            }
            &&& match self.spec_cache_target(self.payload_size(ptr)) {
                Some(c) => {
                    &&& after.stacks() == self.spec_pushed((ptr - HEADER_SIZE) as usize, Some(c))
                    &&& after.blocks() == self.blocks()
                    &&& after.slow_frees() == self.slow_frees()
                    &&& after.stats().coalesce_count == self.stats().coalesce_count
                },
                None => {
                    &&& after.stacks() == self.stacks()
                    &&& after.slow_frees() == if self.slow_frees() + 1 >= COALESCE_THRESHOLD {
                        0
                    } else {
                        self.slow_frees() + 1
                    }
                    &&& self.slow_frees() + 1 < COALESCE_THRESHOLD ==> {
                        &&& after.blocks() == self.blocks()
                        &&& after.stats().coalesce_count == self.stats().coalesce_count
                    }
                    &&& self.slow_frees() + 1 >= COALESCE_THRESHOLD ==> {
                        &&& spec_settled(
                            after.memory(),
                            after.blocks(),
                            after.blocks().len() - Self::spec_unscanned(
                                self.blocks().len() as int,
                            ),
                        )
                        &&& after.stats().coalesce_count == spec_clamp(
                            self.stats().coalesce_count + self.blocks().len()
                                - after.blocks().len(),
                        )
                    }
                },
            }
        }
    }

    /// Frees the block whose payload is at `ptr`.
    ///
    /// Null is ignored. A pointer that fails the checks (a sound header in
    /// front of it, the magic of an allocated block, the canary in place)
    /// is counted as corruption, and nothing else happens: so for a block
    /// that was freed already. Else the payload in front of the canary is
    /// poisoned and the block is marked free; it goes onto the fast cache
    /// of its class if its size is that of a class whose cache has room;
    /// if not, every `COALESCE_THRESHOLD`th such free is followed by a
    /// coalescing scan.
    pub fn kfree(&mut self, ptr: usize)
        requires
            old(self).wf(),
        ensures
            final(self).wf(),
            final(self).memory().len() == old(self).memory().len(),
            ptr == 0 ==> old(self).same_books(*final(self)) && final(self).memory() == old(self).memory(),
            ptr != 0 ==> old(self).spec_freed(*final(self), ptr),
    {
        if ptr == 0 {
            return ;
        }
        let checked: Option<(usize, HeapBlock)> = self.check_allocated(ptr);
        let (a, h) = match checked {
            Some(pair) => pair,
            None => {
                self.corruption_count = if self.corruption_count < u64::MAX {
                    self.corruption_count + 1
                } else {
                    self.corruption_count
                };
                return ;
            },
        };
        let size: usize = h.size as usize;
        assert(size >= HEAP_ALIGN);
        let target: Option<usize> = self.cache_target(size);
        proof {
            reveal(Heap::is_live);
        }
        self.retire(a, h, target);
        let ghost retired = *self;
        fill(&mut self.mem, ptr, size - CANARY_SIZE, POISON);
        let ghost poisoned = *self;
        proof {
            if old(self).sound() && old(self).is_live(ptr) {
                retired.lemma_free_payload_write(
                    poisoned,
                    a,
                    ptr as int,
                    ptr + size - CANARY_SIZE,
                );
                old(self).lemma_release_quiet(retired, poisoned, ptr);
                lemma_header_frame(
                    retired.memory(),
                    poisoned.memory(),
                    ptr as int,
                    ptr + size - CANARY_SIZE,
                    a as int,
                );
            }
        }
        if target.is_none() {
            if self.free_counter >= COALESCE_THRESHOLD - 1 {
                self.free_counter = 0;
                let ghost counted = *self;
                self.coalesce_free_blocks();
                proof {
                    if old(self).sound() && old(self).is_live(ptr) {
                        poisoned.lemma_quiet_same(counted);
                        old(self).lemma_release_quiet(poisoned, counted, ptr);
                        old(self).lemma_release_quiet(counted, *self, ptr);
                        assert forall|at: int|
                            ptr <= at < ptr + size - CANARY_SIZE implies #[trigger] self.memory()[at]
                            == POISON by {
                            counted.lemma_payload_untouched(*self, a, at);
                        }
                        if self.blocks().contains(a) {
                            reveal(Heap::touches_headers_only);
                            let i = self.index_of(a);
                            assert(self.header(self.blocks()[i] as int).flags == counted.header(
                                self.blocks()[i] as int,
                            ).flags);
                        }
                    }
                }
            } else {
                self.free_counter = self.free_counter + 1;
                proof {
                    if old(self).sound() && old(self).is_live(ptr) {
                        poisoned.lemma_quiet_same(*self);
                        old(self).lemma_release_quiet(poisoned, *self, ptr);
                    }
                }
            }
        }
        let ghost settled = *self;
        self.free_count = if self.free_count < u64::MAX {
            self.free_count + 1
        } else {
            self.free_count
        };
        proof {
            if old(self).intact() && old(self).is_live(ptr) {
                settled.lemma_quiet_same(*self);
                old(self).lemma_release_quiet(settled, *self, ptr);
                reveal(Heap::release_step);
                old(self).lemma_live_count_positive();
            }
        }
    }

    /// Reads and checks the header in front of `ptr` as `kfree` does: the
    /// address of the header and the header, if it is a sound header of an
    /// allocated block with its canary in place.
    pub fn check_allocated(&self, ptr: usize) -> (found: Option<(usize, HeapBlock)>)
        requires
            self.wf(),
        ensures
            found.is_some() == spec_free_ok(self.memory(), self.page_end(), ptr as int),
            found matches Some((a, h)) ==> a == ptr - HEADER_SIZE && h == self.header(a as int)
                && ptr + h.size <= usize::MAX,
    {
        if ptr < HEADER_SIZE {
            return None;
        }
        let a: usize = ptr - HEADER_SIZE;
        match self.check_block(a) {
            Some(h) => {
                if h.magic != ALLOC_MAGIC {
                    return None;
                }
                let at: usize = ptr + (h.size as usize) - CANARY_SIZE;
                if read_u64(&self.mem, at) != canary_for(a as u64) {
                    return None;
                }
                Some((a, h))
            },
            None => None,
        }
    }

    /// In a sound heap the number of allocated blocks is not negative.
    pub proof fn lemma_live_count_positive(&self)
        ensures
            self.live_count() >= 0,
    {
        let mem = self.memory();
        lemma_sum_at_least(
            self.blocks(),
            |x: usize| crate::heap::model::spec_allocated_one(mem, x),
            0,
        );
    }
}

} // verus!
