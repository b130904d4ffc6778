//! Taking blocks: the fast-cache pop, the search of the global list, the
//! split, the new chunk, and `kmalloc` on top of them.

use vstd::prelude::*;
use crate::heap::block::{HeapBlock, lemma_header_frame, load_header, spec_header_at};
use crate::heap::bytes::{fill, spec_same_outside, write_u64};
use crate::heap::layout::{
    ALLOC_MAGIC, CANARY_SIZE, FIT_SLACK, FLAG_FREE, FREE_MAGIC, HEADER_SIZE, HEAP_ALIGN, MAX_ALLOC,
    MAX_SCAN, MIN_BLOCK_SIZE, NUM_SIZE_CLASSES, PAGE_SIZE, block_size_for, canary_for, chunk_bytes,
    class_size, get_size_class, spec_block_size, spec_chunk_bytes, spec_class_size, spec_size_class,
};
use crate::heap::model::{
    FastCache, lemma_blocks_distinct, lemma_extent_frame, lemma_extent_frame_on, lemma_first_fit,
    lemma_grow, lemma_not_stacked, lemma_restamp, lemma_split, lemma_stacks_kept,
    lemma_stacks_moved, spec_allocated_bytes, spec_apart, spec_block_ok, spec_canary_ok, spec_end,
    spec_entry_ok, spec_first_fit, spec_fits, spec_free_ok, spec_grow_pre, spec_linked,
    spec_member_ok, spec_split_of, spec_stack_ok, spec_with_prev,
};
use crate::heap::backend::{
    lemma_cache_sum_positive, lemma_cache_sum_term, lemma_cache_sum_update,
    lemma_class_sizes_differ, lemma_page_multiples, spec_bump, Heap, HeapStats,
};

verus! {

impl Heap {
    /// A free block of the list that is on no stack, stamped as allocated,
    /// leaves the heap sound with one more allocated block, and every other
    /// allocated block as it was.
    pub proof fn lemma_claimed(&self, after: Heap, a: usize)
        requires
            self.sound(),
            self.blocks().contains(a),
            self.header(a as int).spec_is_free(),
            forall|c: int| 0 <= c < NUM_SIZE_CLASSES ==> !(#[trigger] self.stacks()[c]).contains(a),
            after.memory().len() == self.memory().len(),
            after.page_end() == self.page_end(),
            after.first() == self.first(),
            after.caches() == self.caches(),
            after.blocks() == self.blocks(),
            after.stacks() == self.stacks(),
            spec_same_outside(
                self.memory(),
                after.memory(),
                a as int,
                spec_end(self.memory(), a as int),
            ),
            spec_block_ok(after.memory(), after.page_end(), a as int),
            after.header(a as int).magic == ALLOC_MAGIC,
            after.header(a as int).size == self.header(a as int).size,
            after.header(a as int).next == self.header(a as int).next,
            after.header(a as int).prev == self.header(a as int).prev,
            after.stats().total_allocated == self.stats().total_allocated + self.header(
                a as int,
            ).size,
            after.stats().peak_allocated >= after.stats().total_allocated,
            after.stats().peak_allocated == if self.stats().peak_allocated
                >= after.stats().total_allocated {
                self.stats().peak_allocated
            } else {
                after.stats().total_allocated
            },
        ensures
            after.sound(),
            self.grant_step(after, (a + HEADER_SIZE) as usize),
    {
        reveal(Heap::is_live);
        reveal(Heap::keeps_live);
        reveal(Heap::grant_step);
        let before = self.memory();
        let later = after.memory();
        let blocks = self.blocks();
        let k = choose|k: int| 0 <= k < blocks.len() && blocks[k] == a;
        assert(spec_member_ok(before, self.page_end(), blocks, k));
        lemma_extent_frame(
            before,
            later,
            self.page_end(),
            self.first(),
            blocks,
            k,
            a as int,
            spec_end(before, a as int),
        );
        lemma_restamp(before, later, self.page_end(), self.first(), blocks, k);
        lemma_stacks_kept(before, later, blocks, self.caches(), self.stacks(), k);
        lemma_blocks_distinct(before, self.page_end(), self.first(), blocks);
        assert forall|p: usize| #[trigger] self.is_live(p) implies {
            &&& after.is_live(p)
            &&& after.payload_size(p) == self.payload_size(p)
            &&& forall|at: int|
                p <= at < p + self.payload_size(p) ==> #[trigger] after.memory()[at]
                    == self.memory()[at]
        } by {
            let i = choose|i: int| 0 <= i < blocks.len() && blocks[i] == (p - HEADER_SIZE) as usize;
            assert(i != k);
            assert(spec_header_at(later, blocks[i] as int) == spec_header_at(
                before,
                blocks[i] as int,
            ));
        }
        assert forall|p: usize| after.is_live(p) == (self.is_live(p) || p == a + HEADER_SIZE) by {
            if p >= HEADER_SIZE && blocks.contains((p - HEADER_SIZE) as usize) {
                let i = choose|i: int|
                    0 <= i < blocks.len() && blocks[i] == (p - HEADER_SIZE) as usize;
                if i != k {
                    assert(spec_header_at(later, blocks[i] as int) == spec_header_at(
                        before,
                        blocks[i] as int,
                    ));
                }
            }
        }
    }

    /// Raises the peak of the bytes in use to `new_total` if that is more.
    pub fn update_peak(&mut self, new_total: usize)
        ensures
            final(self).memory() == old(self).memory(),
            final(self).page_end() == old(self).page_end(),
            final(self).first() == old(self).first(),
            final(self).caches() == old(self).caches(),
            final(self).blocks() == old(self).blocks(),
            final(self).stacks() == old(self).stacks(),
            final(self).slow_frees() == old(self).slow_frees(),
            final(self).failed() == old(self).failed(),
            final(self).stats() == (HeapStats {
                peak_allocated: if new_total > old(self).stats().peak_allocated {
                    new_total
                } else {
                    old(self).stats().peak_allocated
                },
                ..old(self).stats()
            }),
            old(self).wf() ==> final(self).wf(),
    {
        if new_total > self.peak_allocated {
            self.peak_allocated = new_total;
        }
    }

    /// Turns the free block at `a`, whose header is `h`, into an allocated
    /// one: stamps the header, installs the canary, and counts the bytes.
    /// Returns the address of the payload.
    fn claim(&mut self, a: usize, h: HeapBlock) -> (ptr: usize)
        requires
            old(self).wf(),
            spec_block_ok(old(self).memory(), old(self).page_end(), a as int),
            h.size == old(self).header(a as int).size,
            h.next == old(self).header(a as int).next,
            h.prev == old(self).header(a as int).prev,
        ensures
            final(self).wf(),
            ptr == a + HEADER_SIZE,
            final(self).header(a as int) == h.spec_init(a as int, h.size, false),
            spec_block_ok(final(self).memory(), final(self).page_end(), a as int),
            spec_canary_ok(final(self).memory(), a as int),
            final(self).memory().len() == old(self).memory().len(),
            final(self).page_end() == old(self).page_end(),
            final(self).first() == old(self).first(),
            final(self).caches() == old(self).caches(),
            final(self).blocks() == old(self).blocks(),
            final(self).stacks() == old(self).stacks(),
            final(self).slow_frees() == old(self).slow_frees(),
            final(self).failed() == old(self).failed(),
            final(self).stats().alloc_count == old(self).stats().alloc_count,
            final(self).stats().free_count == old(self).stats().free_count,
            final(self).stats().cache_hits == old(self).stats().cache_hits,
            final(self).stats().cache_misses == old(self).stats().cache_misses,
            final(self).stats().coalesce_count == old(self).stats().coalesce_count,
            final(self).stats().corruption_count == old(self).stats().corruption_count,
            forall|at: int|
                a + HEADER_SIZE <= at < a + HEADER_SIZE + h.size - CANARY_SIZE ==> #[trigger] final(self).memory()[at] == old(self).memory()[at],
            old(self).sound() && old(self).blocks().contains(a) && old(self).header(
                a as int,
            ).spec_is_free() && (forall|c: int|
                0 <= c < NUM_SIZE_CLASSES ==> !(#[trigger] old(self).stacks()[c]).contains(a)) ==> {
                &&& final(self).sound()
                &&& old(self).grant_step(*final(self), ptr)
            },
    {
        let mut stamped: HeapBlock = h;
        stamped.init(a, h.size, false);
        self.put_header(a, &stamped);
        let ghost mid = self.mem@;
        let size: usize = h.size as usize;
        assert(size >= HEAP_ALIGN);
        let at: usize = a + HEADER_SIZE + size - CANARY_SIZE;
        write_u64(&mut self.mem, at, canary_for(a as u64));
        proof {
            lemma_header_frame(mid, self.mem@, at as int, at + CANARY_SIZE, a as int);
        }
        self.total_allocated = self.total_allocated.wrapping_add(size);
        self.update_peak(self.total_allocated);
        proof {
            if old(self).sound() && old(self).blocks().contains(a) && old(self).header(
                a as int,
            ).spec_is_free() && (forall|c: int|
                0 <= c < NUM_SIZE_CLASSES ==> !(#[trigger] old(self).stacks()[c]).contains(a)) {
                old(self).lemma_in_use_bounded();
                let k = choose|k: int|
                    0 <= k < old(self).blocks().len() && old(self).blocks()[k] == a;
                assert(spec_member_ok(
                    old(self).memory(),
                    old(self).page_end(),
                    old(self).blocks(),
                    k,
                ));
                assert(spec_allocated_bytes(old(self).memory(), old(self).blocks()[k]) == 0);
                old(self).lemma_claimed(*self, a);
            }
        }
        a + HEADER_SIZE
    }

    /// The position of block `a` in the global list.
    pub open spec fn index_of(&self, a: usize) -> int {
        choose|k: int| 0 <= k < self.blocks().len() && self.blocks()[k] == a
    }

    /// The other heap has the books of this one, but for the bytes of the
    /// arena and the list of blocks.
    pub open spec fn same_books_but_blocks(&self, other: Heap) -> bool {
        &&& other.memory().len() == self.memory().len()
        &&& other.page_end() == self.page_end()
        &&& other.first() == self.first()
        &&& other.caches() == self.caches()
        &&& other.stacks() == self.stacks()
        &&& other.slow_frees() == self.slow_frees()
        &&& other.failed() == self.failed()
        &&& other.stats() == self.stats()
    }

    /// The same blocks are allocated in both heaps.
    pub open spec fn same_live(&self, other: Heap) -> bool {
        forall|p: usize| other.is_live(p) == self.is_live(p)
    }

    /// A split of a free block that is in no cache, done in three writes
    /// (the successor's link, the header of the rest, the header of the
    /// block), leaves a sound heap sound and every allocated block as it
    /// was.
    pub proof fn lemma_split_done(
        &self,
        after: Heap,
        a: usize,
        need: usize,
        m1: Seq<u8>,
        m2: Seq<u8>,
    )
        requires
            self.sound(),
            self.blocks().contains(a),
            self.header(a as int).flags == 1,
            0 < need,
            need % HEAP_ALIGN == 0,
            need + MIN_BLOCK_SIZE + HEADER_SIZE < self.header(a as int).size,
            self.same_books_but_blocks(after),
            after.blocks() == self.blocks().insert(
                self.index_of(a) + 1,
                (a + HEADER_SIZE + need) as usize,
            ),
            self.header(a as int).next != 0 ==> {
                &&& spec_same_outside(
                    self.memory(),
                    m1,
                    self.header(a as int).next as int,
                    self.header(a as int).next + HEADER_SIZE,
                )
                &&& spec_header_at(m1, self.header(a as int).next as int) == spec_with_prev(
                    self.header(self.header(a as int).next as int),
                    a + HEADER_SIZE + need,
                )
            },
            self.header(a as int).next == 0 ==> m1 == self.memory(),
            spec_same_outside(m1, m2, a + HEADER_SIZE + need, a + HEADER_SIZE + need + HEADER_SIZE),
            spec_header_at(m2, a + HEADER_SIZE + need) == (HeapBlock {
                next: self.header(a as int).next,
                prev: a as u64,
                ..self.header(a as int)
            }).spec_init(
                a + HEADER_SIZE + need,
                (self.header(a as int).size - need - HEADER_SIZE) as u64,
                true,
            ),
            spec_same_outside(m2, after.memory(), a as int, a + HEADER_SIZE),
            after.header(a as int) == (HeapBlock {
                size: need as u64,
                next: (a + HEADER_SIZE + need) as u64,
                checksum: after.header(a as int).checksum,
                ..self.header(a as int)
            }),
            after.header(a as int).checksum == after.header(a as int).spec_compute_checksum(
                a as int,
            ),
        ensures
            after.sound(),
            self.quiet_step(after),
            after.blocks().contains(a),
            forall|c: int| 0 <= c < NUM_SIZE_CLASSES ==> !(#[trigger] after.stacks()[c]).contains(a),
    {
        reveal(Heap::quiet_step);
        let base = self.memory();
        let m3 = after.memory();
        let blocks = self.blocks();
        let brk = self.page_end();
        let k = self.index_of(a);
        let b = a + HEADER_SIZE + need;
        let h = self.header(a as int);
        assert(spec_member_ok(base, brk, blocks, k));
        assert(spec_linked(base, blocks, k));
        lemma_not_stacked(base, blocks, self.caches(), self.stacks(), a);
        if k + 1 < blocks.len() {
            assert(spec_member_ok(base, brk, blocks, k + 1));
        }
        if h.next != 0 {
            assert(k + 1 < blocks.len());
            assert(spec_member_ok(base, brk, blocks, k + 1));
            lemma_extent_frame_on(
                base,
                base,
                m1,
                brk,
                self.first(),
                blocks,
                k + 1,
                h.next as int,
                h.next + HEADER_SIZE,
            );
        }
        lemma_extent_frame_on(base, m1, m2, brk, self.first(), blocks, k, b, b + HEADER_SIZE);
        lemma_extent_frame_on(base, m2, m3, brk, self.first(), blocks, k, a as int, a + HEADER_SIZE);
        lemma_header_frame(m2, m3, a as int, a + HEADER_SIZE, b);
        assert(spec_split_of(base, m3, blocks, k, need as int)) by {
            assert forall|i: int| 0 <= i < blocks.len() && i != k && i != k + 1 implies spec_header_at(
                m3,
                #[trigger] blocks[i] as int,
            ) == spec_header_at(base, blocks[i] as int) by {
                assert(spec_header_at(m2, blocks[i] as int) == spec_header_at(m1, blocks[i] as int));
            }
            if k + 1 < blocks.len() {
                assert(spec_header_at(m2, blocks[k + 1] as int) == spec_header_at(
                    m1,
                    blocks[k + 1] as int,
                ));
            }
        }
        assert(spec_block_ok(m3, brk, a as int));
        assert((h.size - need - HEADER_SIZE) % 16 == 0) by {
            assert(h.size % 16 == 0);
            assert(need % 16 == 0);
        }
        assert(spec_block_ok(m3, brk, b));
        lemma_split(base, m3, brk, self.first(), blocks, k, need as int);
        assert forall|i: int|
            0 <= i < blocks.len() && spec_header_at(base, #[trigger] blocks[i] as int).flags
                == 3 implies {
            &&& after.blocks().contains(blocks[i])
            &&& spec_header_at(m3, blocks[i] as int).flags == 3
            &&& spec_header_at(m3, blocks[i] as int).size == spec_header_at(
                base,
                blocks[i] as int,
            ).size
            &&& spec_header_at(m3, blocks[i] as int).cache_next == spec_header_at(
                base,
                blocks[i] as int,
            ).cache_next
        } by {
            if i <= k {
                assert(after.blocks()[i] == blocks[i]);
            } else {
                assert(after.blocks()[i + 1] == blocks[i]);
            }
            if i != k + 1 {
                assert(spec_header_at(m2, blocks[i] as int) == spec_header_at(m1, blocks[i] as int));
            } else {
                assert(spec_header_at(m2, blocks[k + 1] as int) == spec_header_at(
                    m1,
                    blocks[k + 1] as int,
                ));
            }
        }
        lemma_stacks_moved(base, m3, blocks, after.blocks(), self.caches(), self.stacks());
        assert(after.blocks()[k] == a);
        self.lemma_split_keeps_live(after, a, need, m1, m2);
    }

    /// The part of `lemma_split_done` on the allocated blocks.
    proof fn lemma_split_keeps_live(
        &self,
        after: Heap,
        a: usize,
        need: usize,
        m1: Seq<u8>,
        m2: Seq<u8>,
    )
        requires
            self.sound(),
            self.blocks().contains(a),
            self.header(a as int).flags == 1,
            0 < need,
            need + MIN_BLOCK_SIZE + HEADER_SIZE < self.header(a as int).size,
            after.memory().len() == self.memory().len(),
            after.blocks() == self.blocks().insert(
                self.index_of(a) + 1,
                (a + HEADER_SIZE + need) as usize,
            ),
            self.header(a as int).next != 0 ==> {
                &&& spec_same_outside(
                    self.memory(),
                    m1,
                    self.header(a as int).next as int,
                    self.header(a as int).next + HEADER_SIZE,
                )
                &&& spec_header_at(m1, self.header(a as int).next as int) == spec_with_prev(
                    self.header(self.header(a as int).next as int),
                    a + HEADER_SIZE + need,
                )
            },
            self.header(a as int).next == 0 ==> m1 == self.memory(),
            spec_same_outside(m1, m2, a + HEADER_SIZE + need, a + HEADER_SIZE + need + HEADER_SIZE),
            spec_same_outside(m2, after.memory(), a as int, a + HEADER_SIZE),
            after.header(a as int).magic == self.header(a as int).magic,
            after.header((a + HEADER_SIZE + need) as int).magic == FREE_MAGIC,
        ensures
            self.keeps_live(after),
            self.same_live(after),
    {
        reveal(Heap::is_live);
        reveal(Heap::keeps_live);
        let base = self.memory();
        let m3 = after.memory();
        let blocks = self.blocks();
        let brk = self.page_end();
        let k = self.index_of(a);
        let b = (a + HEADER_SIZE + need) as usize;
        let h = self.header(a as int);
        assert(spec_member_ok(base, brk, blocks, k));
        assert(spec_linked(base, blocks, k));
        lemma_blocks_distinct(base, brk, self.first(), blocks);
        if h.next != 0 {
            assert(k + 1 < blocks.len());
            assert(spec_member_ok(base, brk, blocks, k + 1));
            lemma_extent_frame_on(
                base,
                base,
                m1,
                brk,
                self.first(),
                blocks,
                k + 1,
                h.next as int,
                h.next + HEADER_SIZE,
            );
        }
        lemma_extent_frame_on(base, m1, m2, brk, self.first(), blocks, k, b as int, b + HEADER_SIZE);
        lemma_extent_frame_on(base, m2, m3, brk, self.first(), blocks, k, a as int, a + HEADER_SIZE);
        assert forall|i: int| 0 <= i < blocks.len() && i != k implies {
            &&& spec_header_at(m3, #[trigger] blocks[i] as int).magic == spec_header_at(
                base,
                blocks[i] as int,
            ).magic
            &&& spec_header_at(m3, blocks[i] as int).size == spec_header_at(
                base,
                blocks[i] as int,
            ).size
            &&& forall|at: int|
                blocks[i] + HEADER_SIZE <= at < spec_end(base, blocks[i] as int) ==> #[trigger] m3[at]
                    == base[at]
        } by {
            assert(spec_header_at(m3, blocks[i] as int) == spec_header_at(m2, blocks[i] as int));
            assert(spec_header_at(m2, blocks[i] as int) == spec_header_at(m1, blocks[i] as int));
            assert(spec_member_ok(base, brk, blocks, i));
            assert forall|at: int|
                blocks[i] + HEADER_SIZE <= at < spec_end(base, blocks[i] as int) implies #[trigger] m3[at]
                    == base[at] by {
                assert(m3[at] == m2[at]);
                assert(m2[at] == m1[at]);
            }
        }
        assert forall|p: usize| #[trigger] self.is_live(p) implies {
            &&& after.is_live(p)
            &&& after.payload_size(p) == self.payload_size(p)
            &&& forall|at: int|
                p <= at < p + self.payload_size(p) ==> #[trigger] after.memory()[at]
                    == self.memory()[at]
        } by {
            let i = choose|i: int| 0 <= i < blocks.len() && blocks[i] == (p - HEADER_SIZE) as usize;
            assert(i != k);
            assert(spec_header_at(m3, blocks[i] as int).magic == spec_header_at(
                base,
                blocks[i] as int,
            ).magic);
            if i < k {
                assert(after.blocks()[i] == blocks[i]);
            } else {
                assert(after.blocks()[i + 1] == blocks[i]);
            }
        }
        assert forall|p: usize| after.is_live(p) == self.is_live(p) by {
            if after.is_live(p) {
                let j = choose|j: int|
                    0 <= j < after.blocks().len() && after.blocks()[j] == (p - HEADER_SIZE) as usize;
                if j <= k {
                    assert(after.blocks()[j] == blocks[j]);
                    assert(j != k);
                    assert(spec_header_at(m3, blocks[j] as int).magic == spec_header_at(
                        base,
                        blocks[j] as int,
                    ).magic);
                } else if j == k + 1 {
                    assert(after.blocks()[j] == b);
                } else {
                    assert(after.blocks()[j] == blocks[j - 1]);
                    assert(spec_header_at(m3, blocks[j - 1] as int).magic == spec_header_at(
                        base,
                        blocks[j - 1] as int,
                    ).magic);
                }
            }
        }
    }

    /// Cuts the free block at `a`, whose header is `h`, down to a payload
    /// of `need` bytes. The rest becomes a free block of its own, behind
    /// `a` in memory and in the global list. Returns the new header of `a`.
    fn split_block(&mut self, a: usize, h: HeapBlock, need: usize) -> (cut: HeapBlock)
        requires
            old(self).wf(),
            spec_block_ok(old(self).memory(), old(self).page_end(), a as int),
            h == old(self).header(a as int),
            h.flags == 1,
            0 < need,
            need % HEAP_ALIGN == 0,
            need + MIN_BLOCK_SIZE + HEADER_SIZE < h.size,
        ensures
            final(self).wf(),
            old(self).same_books_but_blocks(*final(self)),
            spec_block_ok(final(self).memory(), final(self).page_end(), a as int),
            cut == final(self).header(a as int),
            cut.size == need,
            cut.flags == 1,
            old(self).sound() && old(self).blocks().contains(a) ==> {
                &&& final(self).sound()
                &&& old(self).quiet_step(*final(self))
                &&& final(self).blocks() == old(self).blocks().insert(
                    old(self).index_of(a) + 1,
                    (a + HEADER_SIZE + need) as usize,
                )
                &&& final(self).blocks().contains(a)
                &&& forall|c: int|
                    0 <= c < NUM_SIZE_CLASSES ==> !(#[trigger] final(self).stacks()[c]).contains(a)
                &&& forall|at: int|
                    a + HEADER_SIZE <= at < a + HEADER_SIZE + need ==> #[trigger] final(self).memory()[at] == old(self).memory()[at]
            },
            !(old(self).sound() && old(self).blocks().contains(a)) ==> final(self).blocks() == old(self).blocks(),
    {
        let b: usize = a + HEADER_SIZE + need;
        let rest: u64 = h.size - need as u64 - HEADER_SIZE as u64;
        proof {
            if old(self).sound() && old(self).blocks().contains(a) {
                let k = old(self).index_of(a);
                assert(spec_linked(old(self).memory(), old(self).blocks(), k));
                if h.next != 0 {
                    assert(spec_member_ok(
                        old(self).memory(),
                        old(self).page_end(),
                        old(self).blocks(),
                        k + 1,
                    ));
                }
            }
        }
        if h.next != 0 && h.next <= (self.brk - HEADER_SIZE) as u64 {
            let n: usize = h.next as usize;
            let mut hn: HeapBlock = load_header(&self.mem, n);
            hn.prev = b as u64;
            self.put_header(n, &hn);
        }
        let ghost m1 = self.mem@;
        let mut hb: HeapBlock = HeapBlock { next: h.next, prev: a as u64, ..h };
        hb.init(b, rest, true);
        self.put_header(b, &hb);
        let ghost m2 = self.mem@;
        let mut cut: HeapBlock = h;
        cut.size = need as u64;
        cut.next = b as u64;
        cut.seal(a);
        self.put_header(a, &cut);
        self.blocks = Ghost(
            if old(self).sound() && old(self).blocks().contains(a) {
                old(self).blocks().insert(old(self).index_of(a) + 1, b)
            } else {
                old(self).blocks()
            },
        );
        proof {
            if old(self).sound() && old(self).blocks().contains(a) {
                old(self).lemma_split_done(*self, a, need, m1, m2);
                let k = old(self).index_of(a);
                let blocks = old(self).blocks();
                let mem = old(self).memory();
                assert(spec_member_ok(mem, old(self).page_end(), blocks, k));
                assert(spec_linked(mem, blocks, k));
                if h.next != 0 {
                    assert(spec_member_ok(mem, old(self).page_end(), blocks, k + 1));
                    assert(spec_apart(mem, blocks, k, k + 1));
                }
                assert forall|at: int|
                    a + HEADER_SIZE <= at < a + HEADER_SIZE + need implies #[trigger] self.memory()[at]
                    == old(self).memory()[at] by {
                    assert(self.memory()[at] == m2[at]);
                    assert(m2[at] == m1[at]);
                    assert(m1[at] == mem[at]);
                }
            }
        }
        cut
    }

    /// Scans the first `MAX_SCAN` blocks of the global list for the first
    /// free block, in no cache, whose size is between `need` and
    /// `FIT_SLACK * need`. Returns its address, 0 if there is none.
    pub fn find_free_block(&self, need: usize) -> (found: usize)
        requires
            self.wf(),
            0 < need <= MAX_ALLOC + CANARY_SIZE + HEAP_ALIGN,
        ensures
            found != 0 ==> spec_block_ok(self.memory(), self.page_end(), found as int) && spec_fits(
                self.header(found as int),
                need as int,
            ),
            self.sound() ==> found == match spec_first_fit(
                self.memory(),
                self.blocks(),
                need as int,
                0,
            ) {
                Some(a) => a,
                None => 0,
            },
            self.sound() && found != 0 ==> self.blocks().contains(found),
    {
        let mut cur: usize = self.head;
        let mut scanned: usize = 0;
        proof {
            lemma_first_fit(self.memory(), self.blocks(), need as int, 0);
        }
        while cur != 0 && scanned < MAX_SCAN
            invariant
                self.wf(),
                scanned <= MAX_SCAN,
                0 < need <= MAX_ALLOC + CANARY_SIZE + HEAP_ALIGN,
                self.sound() ==> cur == (if scanned < self.blocks().len() {
                    self.blocks()[scanned as int]
                } else {
                    0
                }),
                self.sound() ==> spec_first_fit(self.memory(), self.blocks(), need as int, 0)
                    == spec_first_fit(self.memory(), self.blocks(), need as int, scanned as int),
            decreases MAX_SCAN - scanned,
        {
            proof {
                if self.sound() {
                    assert(scanned < self.blocks().len()) by {
                        if self.blocks().len() > 0 {
                            assert(spec_member_ok(
                                self.memory(),
                                self.page_end(),
                                self.blocks(),
                                0,
                            ));
                        }
                    }
                    assert(spec_member_ok(
                        self.memory(),
                        self.page_end(),
                        self.blocks(),
                        scanned as int,
                    ));
                    assert(spec_linked(self.memory(), self.blocks(), scanned as int));
                    if scanned + 1 < self.blocks().len() {
                        assert(spec_member_ok(
                            self.memory(),
                            self.page_end(),
                            self.blocks(),
                            scanned + 1,
                        ));
                    }
                }
            }
            match self.check_block(cur) {
                None => {
                    return 0;
                },
                Some(h) => {
                    if h.is_free() && !h.in_cache() && h.size >= need as u64 && h.size <= (
                    FIT_SLACK as u64) * (need as u64) {
                        return cur;
                    }
                    if h.next > self.brk as u64 {
                        return 0;
                    }
                    cur = h.next as usize;
                },
            }
            scanned = scanned + 1;
        }
        proof {
            if self.sound() && scanned < self.blocks().len() {
                assert(spec_member_ok(
                    self.memory(),
                    self.page_end(),
                    self.blocks(),
                    scanned as int,
                ));
            }
        }
        0
    }

    /// The other heap has the books of this one, but for the fast caches,
    /// their stacks and the counter of corruptions; the arena and the list
    /// of blocks are the same.
    pub open spec fn same_but_caches(&self, other: Heap) -> bool {
        &&& other.memory() == self.memory()
        &&& other.page_end() == self.page_end()
        &&& other.first() == self.first()
        &&& other.blocks() == self.blocks()
        &&& other.slow_frees() == self.slow_frees()
        &&& other.failed() == self.failed()
        &&& other.caches().len() == self.caches().len()
        &&& other.stats().total_allocated == self.stats().total_allocated
        &&& other.stats().peak_allocated == self.stats().peak_allocated
        &&& other.stats().alloc_count == self.stats().alloc_count
        &&& other.stats().free_count == self.stats().free_count
        &&& other.stats().coalesce_count == self.stats().coalesce_count
    }

    /// Takes the block on top of the fast cache of class `class` off its
    /// stack, and returns its address, 0 if the stack is empty. The header
    /// of the block is left as it is. A block that fails the check is not
    /// handed out: it is counted as corruption, and the stack is dropped.
    fn take_cached(&mut self, class: usize) -> (a: usize)
        requires
            old(self).wf(),
            class < NUM_SIZE_CLASSES,
        ensures
            final(self).wf(),
            old(self).same_but_caches(*final(self)),
            a != 0 ==> {
                &&& spec_block_ok(final(self).memory(), final(self).page_end(), a as int)
                &&& final(self).header(a as int).size == spec_class_size(class as int)
                &&& final(self).header(a as int).flags == 3
            },
            old(self).sound() ==> {
                &&& final(self).sound()
                &&& old(self).quiet_step(*final(self))
                &&& final(self).stats().corruption_count == old(self).stats().corruption_count
                &&& old(self).stacks()[class as int].len() > 0 ==> {
                    &&& a == old(self).stacks()[class as int][0]
                    &&& final(self).stacks() == old(self).stacks().update(
                        class as int,
                        old(self).stacks()[class as int].drop_first(),
                    )
                    &&& final(self).blocks().contains(a)
                    &&& forall|c: int|
                        0 <= c < NUM_SIZE_CLASSES ==> !(#[trigger] final(self).stacks()[c]).contains(
                            a,
                        )
                    &&& final(self).stats().cache_hits == spec_bump(old(self).stats().cache_hits)
                    &&& final(self).stats().cache_misses == old(self).stats().cache_misses
                }
                &&& old(self).stacks()[class as int].len() == 0 ==> {
                    &&& a == 0
                    &&& final(self).stacks() == old(self).stacks()
                    &&& final(self).stats().cache_hits == old(self).stats().cache_hits
                    &&& final(self).stats().cache_misses == spec_bump(
                        old(self).stats().cache_misses,
                    )
                }
            },
    {
        let cache: FastCache = self.caches[class];
        proof {
            lemma_cache_sum_positive(self.caches@, NUM_SIZE_CLASSES as int, true);
            lemma_cache_sum_positive(self.caches@, NUM_SIZE_CLASSES as int, false);
            lemma_cache_sum_term(self.caches@, class as int, NUM_SIZE_CLASSES as int, true);
            lemma_cache_sum_term(self.caches@, class as int, NUM_SIZE_CLASSES as int, false);
            if old(self).sound() {
                assert(spec_stack_ok(
                    self.memory(),
                    self.blocks(),
                    self.caches()[class as int],
                    self.stacks()[class as int],
                    class as int,
                ));
                if self.stacks()[class as int].len() > 0 {
                    assert(spec_entry_ok(
                        self.memory(),
                        self.blocks(),
                        self.stacks()[class as int],
                        class as int,
                        0,
                    ));
                    let i = self.index_of(self.stacks()[class as int][0]);
                    assert(spec_member_ok(self.memory(), self.page_end(), self.blocks(), i));
                    if self.stacks()[class as int].len() > 1 {
                        assert(spec_entry_ok(
                            self.memory(),
                            self.blocks(),
                            self.stacks()[class as int],
                            class as int,
                            1,
                        ));
                        let j = self.index_of(self.stacks()[class as int][1]);
                        assert(spec_member_ok(self.memory(), self.page_end(), self.blocks(), j));
                    }
                }
            }
        }
        if cache.head == 0 {
            let missed: FastCache = FastCache {
                misses: if cache.misses < u64::MAX {
                    cache.misses + 1
                } else {
                    cache.misses
                },
                ..cache
            };
            proof {
                lemma_cache_sum_update(
                    self.caches@,
                    class as int,
                    missed,
                    NUM_SIZE_CLASSES as int,
                    true,
                );
                lemma_cache_sum_update(
                    self.caches@,
                    class as int,
                    missed,
                    NUM_SIZE_CLASSES as int,
                    false,
                );
            }
            self.caches[class] = missed;
            proof {
                if old(self).sound() {
                    old(self).lemma_cache_counted(*self, class as int);
                    old(self).lemma_quiet_same(*self);
                }
            }
            return 0;
        }
        let found: Option<HeapBlock> = self.check_block(cache.head);
        let good: bool = match found {
            Some(h) => h.flags == 3 && h.size == class_size(class) as u64,
            None => false,
        };
        if !good {
            let dropped: FastCache = FastCache {
                head: 0,
                count: 0,
                misses: if cache.misses < u64::MAX {
                    cache.misses + 1
                } else {
                    cache.misses
                },
                ..cache
            };
            self.caches[class] = dropped;
            self.corruption_count = if self.corruption_count < u64::MAX {
                self.corruption_count + 1
            } else {
                self.corruption_count
            };
            return 0;
        }
        let h: HeapBlock = found.unwrap();
        let below: usize = if h.cache_next <= self.brk as u64 {
            h.cache_next as usize
        } else {
            0
        };
        let popped: FastCache = FastCache {
            head: below,
            count: if cache.count > 0 {
                (cache.count - 1) as usize
            } else {
                0
            },
            hits: if cache.hits < u64::MAX {
                cache.hits + 1
            } else {
                cache.hits
            },
            ..cache
        };
        proof {
            lemma_cache_sum_update(self.caches@, class as int, popped, NUM_SIZE_CLASSES as int, true);
            lemma_cache_sum_update(
                self.caches@,
                class as int,
                popped,
                NUM_SIZE_CLASSES as int,
                false,
            );
        }
        self.caches[class] = popped;
        self.stacks = Ghost(
            if old(self).sound() {
                old(self).stacks().update(
                    class as int,
                    old(self).stacks()[class as int].drop_first(),
                )
            } else {
                old(self).stacks()
            },
        );
        proof {
            if old(self).sound() {
                old(self).lemma_popped(*self, class as int);
                old(self).lemma_quiet_same(*self);
            }
        }
        cache.head
    }

    /// A cache whose counters of hits and misses alone have moved leaves a
    /// sound heap sound.
    proof fn lemma_cache_counted(&self, after: Heap, class: int)
        requires
            self.sound(),
            0 <= class < NUM_SIZE_CLASSES,
            self.same_but_caches(after),
            after.stacks() == self.stacks(),
            after.caches()[class].head == self.caches()[class].head,
            after.caches()[class].count == self.caches()[class].count,
            forall|c: int|
                0 <= c < NUM_SIZE_CLASSES && c != class ==> #[trigger] after.caches()[c]
                    == self.caches()[c],
        ensures
            after.sound(),
    {
        assert forall|c: int| 0 <= c < NUM_SIZE_CLASSES implies #[trigger] spec_stack_ok(
            after.memory(),
            after.blocks(),
            after.caches()[c],
            after.stacks()[c],
            c,
        ) by {
            assert(spec_stack_ok(
                self.memory(),
                self.blocks(),
                self.caches()[c],
                self.stacks()[c],
                c,
            ));
        }
    }

    /// Taking the top off the stack of a class leaves a sound heap sound,
    /// and the block that was taken on no stack.
    proof fn lemma_popped(&self, after: Heap, class: int)
        requires
            self.sound(),
            0 <= class < NUM_SIZE_CLASSES,
            self.stacks()[class].len() > 0,
            self.same_but_caches(after),
            after.stacks() == self.stacks().update(class, self.stacks()[class].drop_first()),
            after.caches()[class].head == self.header(self.stacks()[class][0] as int).cache_next,
            after.caches()[class].count == self.caches()[class].count - 1,
            forall|c: int|
                0 <= c < NUM_SIZE_CLASSES && c != class ==> #[trigger] after.caches()[c]
                    == self.caches()[c],
        ensures
            after.sound(),
            after.blocks().contains(self.stacks()[class][0]),
            forall|c: int|
                0 <= c < NUM_SIZE_CLASSES ==> !(#[trigger] after.stacks()[c]).contains(
                    self.stacks()[class][0],
                ),
    {
        let mem = self.memory();
        let blocks = self.blocks();
        let stack = self.stacks()[class];
        let top = stack[0];
        assert(spec_stack_ok(mem, blocks, self.caches()[class], stack, class));
        assert(spec_entry_ok(mem, blocks, stack, class, 0));
        assert forall|c: int| 0 <= c < NUM_SIZE_CLASSES implies #[trigger] spec_stack_ok(
            mem,
            blocks,
            after.caches()[c],
            after.stacks()[c],
            c,
        ) && !after.stacks()[c].contains(top) by {
            assert(spec_stack_ok(mem, blocks, self.caches()[c], self.stacks()[c], c));
            if c == class {
                let rest = stack.drop_first();
                assert forall|e: int| 0 <= e < rest.len() implies #[trigger] spec_entry_ok(
                    mem,
                    blocks,
                    rest,
                    c,
                    e,
                ) by {
                    assert(spec_entry_ok(mem, blocks, stack, c, e + 1));
                    assert(rest[e] == stack[e + 1]);
                    if e + 1 < rest.len() {
                        assert(rest[e + 1] == stack[e + 2]);
                    }
                }
                assert forall|e: int, f: int| 0 <= e < rest.len() && 0 <= f < rest.len() && e
                    != f implies rest[e] != rest[f] by {
                    assert(rest[e] == stack[e + 1]);
                    assert(rest[f] == stack[f + 1]);
                }
                if rest.contains(top) {
                    let e = choose|e: int| 0 <= e < rest.len() && rest[e] == top;
                    assert(stack[e + 1] == top);
                }
                if rest.len() > 0 {
                    assert(rest[0] == stack[1]);
                }
            } else {
                if self.stacks()[c].contains(top) {
                    let e = choose|e: int|
                        0 <= e < self.stacks()[c].len() && self.stacks()[c][e] == top;
                    assert(spec_entry_ok(mem, blocks, self.stacks()[c], c, e));
                    lemma_class_sizes_differ(c, class);
                }
            }
        }
        assert forall|c: int| 0 <= c < NUM_SIZE_CLASSES implies !(#[trigger] after.stacks()[c]).contains(
            top,
        ) by {
            assert(spec_stack_ok(mem, blocks, after.caches()[c], after.stacks()[c], c));
        }
    }

    /// Takes a chunk for a block of payload size `need` from the pages not
    /// handed out yet, zeroes it, and links it in front of the global list
    /// as one free block. Returns the address of the block, 0 if the arena
    /// has not that many pages left.
    fn create_new_block(&mut self, need: usize) -> (a: usize)
        requires
            old(self).wf(),
            0 < need <= MAX_ALLOC + CANARY_SIZE + HEAP_ALIGN,
            need % HEAP_ALIGN == 0,
        ensures
            final(self).wf(),
            (a == 0) == (old(self).page_end() + spec_chunk_bytes(need as int) > old(self).memory().len()),
            a == 0 ==> old(self).same_books(*final(self)) && final(self).memory() == old(self).memory(),
            final(self).memory().len() == old(self).memory().len(),
            final(self).caches() == old(self).caches(),
            final(self).stacks() == old(self).stacks(),
            final(self).slow_frees() == old(self).slow_frees(),
            final(self).failed() == old(self).failed(),
            final(self).stats() == old(self).stats(),
            a != 0 ==> {
                &&& a == old(self).page_end()
                &&& final(self).page_end() == old(self).page_end() + spec_chunk_bytes(need as int)
                &&& final(self).first() == a
                &&& spec_block_ok(final(self).memory(), final(self).page_end(), a as int)
                &&& final(self).header(a as int).flags == 1
                &&& final(self).header(a as int).size == spec_chunk_bytes(need as int)
                    - HEADER_SIZE
                &&& forall|at: int|
                    a + HEADER_SIZE <= at < final(self).page_end() ==> #[trigger] final(self).memory()[at] == 0
            },
            old(self).sound() && a != 0 ==> {
                &&& final(self).sound()
                &&& old(self).quiet_step(*final(self))
                &&& final(self).blocks() == old(self).blocks().insert(0, a)
                &&& final(self).blocks().contains(a)
                &&& forall|c: int|
                    0 <= c < NUM_SIZE_CLASSES ==> !(#[trigger] final(self).stacks()[c]).contains(a)
            },
            !old(self).sound() ==> final(self).blocks() == old(self).blocks(),
    {
        let chunk: usize = chunk_bytes(need);
        if chunk > self.mem.len() - self.brk {
            return 0;
        }
        let a: usize = self.brk;
        fill(&mut self.mem, a, chunk, 0);
        let ghost m1 = self.mem@;
        let old_head: usize = self.head;
        proof {
            if old(self).sound() && old(self).blocks().len() > 0 {
                assert(spec_member_ok(
                    old(self).memory(),
                    old(self).page_end(),
                    old(self).blocks(),
                    0,
                ));
            }
        }
        if old_head != 0 && old_head <= a - HEADER_SIZE {
            let mut hh: HeapBlock = load_header(&self.mem, old_head);
            hh.prev = a as u64;
            self.put_header(old_head, &hh);
        }
        let ghost m2 = self.mem@;
        let mut h: HeapBlock = HeapBlock {
            magic: FREE_MAGIC,
            flags: FLAG_FREE,
            size: 0,
            next: old_head as u64,
            prev: 0,
            cache_next: 0,
            checksum: 0,
        };
        h.init(a, (chunk - HEADER_SIZE) as u64, true);
        self.put_header(a, &h);
        self.brk = a + chunk;
        self.head = a;
        self.blocks = Ghost(
            if old(self).sound() {
                old(self).blocks().insert(0, a)
            } else {
                old(self).blocks()
            },
        );
        proof {
            lemma_page_multiples(a as int, chunk as int);
            assert forall|at: int| a + HEADER_SIZE <= at < self.page_end() implies #[trigger] self.memory()[at]
                == 0 by {
                assert(m2[at] == m1[at]);
            }
            if old(self).sound() {
                old(self).lemma_grown(*self, chunk as int, m1, m2);
            }
        }
        a
    }

    /// What the lemmas on a new chunk take for granted: the chunk was made
    /// in three writes (zeroing the chunk, the link of the old first block,
    /// the header of the new block).
    pub open spec fn spec_grown(&self, after: Heap, chunk: int, m1: Seq<u8>, m2: Seq<u8>) -> bool {
        &&& self.sound()
        &&& chunk > HEADER_SIZE
        &&& chunk % (PAGE_SIZE as int) == 0
        &&& self.page_end() + chunk <= self.memory().len()
        &&& after.memory().len() == self.memory().len()
        &&& after.page_end() == self.page_end() + chunk
        &&& after.first() == self.page_end()
        &&& after.caches() == self.caches()
        &&& after.stacks() == self.stacks()
        &&& after.stats() == self.stats()
        &&& after.blocks() == self.blocks().insert(0, self.page_end() as usize)
        &&& spec_same_outside(self.memory(), m1, self.page_end(), self.page_end() + chunk)
        &&& self.first() != 0 ==> {
            &&& spec_same_outside(m1, m2, self.first(), self.first() + HEADER_SIZE)
            &&& spec_header_at(m2, self.first()) == spec_with_prev(
                spec_header_at(m1, self.first()),
                self.page_end(),
            )
        }
        &&& self.first() == 0 ==> m2 == m1
        &&& spec_same_outside(m2, after.memory(), self.page_end(), self.page_end() + HEADER_SIZE)
        &&& spec_block_ok(after.memory(), after.page_end(), self.page_end())
        &&& after.header(self.page_end()).flags == 1
        &&& after.header(self.page_end()).size == chunk - HEADER_SIZE
        &&& after.header(self.page_end()).next == self.first()
        &&& after.header(self.page_end()).prev == 0
    }

    /// After a new chunk, every block that was in the list has its header
    /// as it was, but for the link of the old first block, and its payload
    /// as it was.
    proof fn lemma_grown_frame(&self, after: Heap, chunk: int, m1: Seq<u8>, m2: Seq<u8>)
        requires
            self.spec_grown(after, chunk, m1, m2),
        ensures
            forall|i: int|
                1 <= i < self.blocks().len() ==> spec_header_at(
                    after.memory(),
                    #[trigger] self.blocks()[i] as int,
                ) == spec_header_at(self.memory(), self.blocks()[i] as int),
            self.blocks().len() > 0 ==> spec_header_at(after.memory(), self.blocks()[0] as int)
                == spec_with_prev(
                spec_header_at(self.memory(), self.blocks()[0] as int),
                self.page_end(),
            ),
            forall|i: int, at: int|
                0 <= i < self.blocks().len() && self.blocks()[i] + HEADER_SIZE <= at < spec_end(
                    self.memory(),
                    #[trigger] self.blocks()[i] as int,
                ) ==> #[trigger] after.memory()[at] == self.memory()[at],
    {
        let base = self.memory();
        let m3 = after.memory();
        let blocks = self.blocks();
        let brk = self.page_end();
        if blocks.len() > 0 {
            assert(spec_member_ok(base, brk, blocks, 0));
            lemma_extent_frame_on(
                base,
                m1,
                m2,
                brk,
                self.first(),
                blocks,
                0,
                self.first(),
                self.first() + HEADER_SIZE,
            );
            lemma_header_frame(base, m1, brk, brk + chunk, blocks[0] as int);
            lemma_header_frame(m2, m3, brk, brk + HEADER_SIZE, blocks[0] as int);
        }
        assert forall|i: int| 1 <= i < blocks.len() implies spec_header_at(
            m3,
            #[trigger] blocks[i] as int,
        ) == spec_header_at(base, blocks[i] as int) by {
            assert(spec_member_ok(base, brk, blocks, i));
            lemma_header_frame(base, m1, brk, brk + chunk, blocks[i] as int);
            lemma_header_frame(m2, m3, brk, brk + HEADER_SIZE, blocks[i] as int);
            assert(spec_header_at(m2, blocks[i] as int) == spec_header_at(m1, blocks[i] as int));
        }
        assert forall|i: int, at: int|
            0 <= i < blocks.len() && blocks[i] + HEADER_SIZE <= at < spec_end(
                base,
                #[trigger] blocks[i] as int,
            ) implies #[trigger] m3[at] == base[at] by {
            assert(spec_member_ok(base, brk, blocks, i));
            if self.first() != 0 {
                assert(spec_member_ok(base, brk, blocks, 0));
                if i > 0 {
                    assert(spec_apart(base, blocks, 0, i));
                }
            }
            assert(m3[at] == m2[at]);
            assert(m2[at] == m1[at]);
            assert(m1[at] == base[at]);
        }
    }

    /// A new chunk leaves a sound heap sound.
    proof fn lemma_grown_sound(&self, after: Heap, chunk: int, m1: Seq<u8>, m2: Seq<u8>)
        requires
            self.spec_grown(after, chunk, m1, m2),
        ensures
            after.sound(),
            after.live_count() == self.live_count(),
            after.blocks().contains(self.page_end() as usize),
            forall|c: int|
                0 <= c < NUM_SIZE_CLASSES ==> !(#[trigger] after.stacks()[c]).contains(
                    self.page_end() as usize,
                ),
    {
        let base = self.memory();
        let m3 = after.memory();
        let blocks = self.blocks();
        let brk = self.page_end();
        let a = brk as usize;
        self.lemma_grown_frame(after, chunk, m1, m2);
        assert(spec_grow_pre(base, m3, brk, self.first(), blocks, chunk));
        lemma_grow(base, m3, brk, self.first(), blocks, chunk);
        assert(after.blocks()[0] == a);
        assert forall|i: int|
            0 <= i < blocks.len() && spec_header_at(base, #[trigger] blocks[i] as int).flags
                == 3 implies {
            &&& after.blocks().contains(blocks[i])
            &&& spec_header_at(m3, blocks[i] as int).flags == 3
            &&& spec_header_at(m3, blocks[i] as int).size == spec_header_at(
                base,
                blocks[i] as int,
            ).size
            &&& spec_header_at(m3, blocks[i] as int).cache_next == spec_header_at(
                base,
                blocks[i] as int,
            ).cache_next
        } by {
            assert(after.blocks()[i + 1] == blocks[i]);
        }
        lemma_stacks_moved(base, m3, blocks, after.blocks(), self.caches(), self.stacks());
        assert forall|c: int| 0 <= c < NUM_SIZE_CLASSES implies !(#[trigger] after.stacks()[c]).contains(
            a,
        ) by {
            assert(spec_stack_ok(m3, after.blocks(), after.caches()[c], after.stacks()[c], c));
            if after.stacks()[c].contains(a) {
                let e = choose|e: int| 0 <= e < after.stacks()[c].len() && after.stacks()[c][e] == a;
                assert(spec_entry_ok(m3, after.blocks(), after.stacks()[c], c, e));
            }
        }
    }

    /// A new chunk leaves every allocated block as it was, and allocates
    /// none.
    proof fn lemma_grown_live(&self, after: Heap, chunk: int, m1: Seq<u8>, m2: Seq<u8>)
        requires
            self.spec_grown(after, chunk, m1, m2),
        ensures
            self.keeps_live(after),
            self.same_live(after),
    {
        reveal(Heap::is_live);
        reveal(Heap::keeps_live);
        let base = self.memory();
        let m3 = after.memory();
        let blocks = self.blocks();
        self.lemma_grown_frame(after, chunk, m1, m2);
        assert forall|p: usize| #[trigger] self.is_live(p) implies {
            &&& after.is_live(p)
            &&& after.payload_size(p) == self.payload_size(p)
            &&& forall|at: int|
                p <= at < p + self.payload_size(p) ==> #[trigger] after.memory()[at]
                    == self.memory()[at]
        } by {
            let i = choose|i: int| 0 <= i < blocks.len() && blocks[i] == (p - HEADER_SIZE) as usize;
            assert(after.blocks()[i + 1] == blocks[i]);
            if i > 0 {
                assert(spec_header_at(m3, blocks[i] as int) == spec_header_at(
                    base,
                    blocks[i] as int,
                ));
            }
        }
        assert forall|p: usize| after.is_live(p) == self.is_live(p) by {
            if after.is_live(p) {
                let j = choose|j: int|
                    0 <= j < after.blocks().len() && after.blocks()[j] == (p - HEADER_SIZE) as usize;
                if j > 0 {
                    assert(after.blocks()[j] == blocks[j - 1]);
                    if j > 1 {
                        assert(spec_header_at(m3, blocks[j - 1] as int) == spec_header_at(
                            base,
                            blocks[j - 1] as int,
                        ));
                    }
                }
            }
        }
    }

    /// A new chunk is a quiet step.
    proof fn lemma_grown(&self, after: Heap, chunk: int, m1: Seq<u8>, m2: Seq<u8>)
        requires
            self.spec_grown(after, chunk, m1, m2),
        ensures
            after.sound(),
            self.quiet_step(after),
            after.blocks().contains(self.page_end() as usize),
            forall|c: int|
                0 <= c < NUM_SIZE_CLASSES ==> !(#[trigger] after.stacks()[c]).contains(
                    self.page_end() as usize,
                ),
    {
        reveal(Heap::quiet_step);
        self.lemma_grown_sound(after, chunk, m1, m2);
        self.lemma_grown_live(after, chunk, m1, m2);
    }

    /// The address of the block that `allocate(need)` takes on a sound
    /// heap: the top of the fast cache of the class of `need`; with that
    /// cache empty, the first block of the global list that fits; with none
    /// that fits, the start of a new chunk; and 0 with no room for a chunk.
    #[verifier::opaque]
    pub open spec fn spec_allocate(&self, need: int) -> int {
        let class = spec_size_class(need);
        if class.is_some() && self.stacks()[class.unwrap()].len() > 0 {
            self.stacks()[class.unwrap()][0] as int
        } else {
            self.spec_allocate_slow(need)
        }
    }

    /// The pointer that `kmalloc(size)` returns on a sound heap: null for
    /// a size that is not served or for want of memory, else the payload
    /// of the block that `spec_allocate` names.
    #[verifier::opaque]
    pub open spec fn spec_kmalloc(&self, size: usize) -> int {
        if size == 0 || size > MAX_ALLOC || self.spec_allocate(spec_block_size(size as int))
            == 0 {
            0
        } else {
            self.spec_allocate(spec_block_size(size as int)) + HEADER_SIZE
        }
    }

    /// What an allocation of a block of payload size `need` does to the
    /// fast caches: with a block on the stack of the class of `need`, that
    /// block is taken off and a hit is counted, and the global list and the
    /// pages handed out stay as they are; else the stacks stay as they
    /// are, and a miss is counted if `need` has a class.
    pub open spec fn spec_cache_use(&self, after: Heap, need: int) -> bool {
        let class = spec_size_class(need);
        if class.is_some() && self.stacks()[class.unwrap()].len() > 0 {
            &&& after.stacks() == self.stacks().update(
                class.unwrap(),
                self.stacks()[class.unwrap()].drop_first(),
            )
            &&& after.stats().cache_hits == spec_bump(self.stats().cache_hits)
            &&& after.stats().cache_misses == self.stats().cache_misses
            &&& after.blocks() == self.blocks()
            &&& after.page_end() == self.page_end()
        } else {
            &&& after.stacks() == self.stacks()
            &&& after.stats().cache_hits == self.stats().cache_hits
            &&& after.stats().cache_misses == if class.is_some() {
                spec_bump(self.stats().cache_misses)
            } else {
                self.stats().cache_misses
            }
        }
    }

    /// The payload size of a block that is carved out of a free block of
    /// payload size `avail` for a need of `need` bytes: `need`, if the
    /// block is cut, and all of it, if what would be left is not worth a
    /// block of its own.
    pub open spec fn spec_carved(avail: int, need: int) -> int {
        if avail > need + MIN_BLOCK_SIZE + HEADER_SIZE {
            need
        } else {
            avail
        }
    }

    /// The payload size of the block that serves a need of `need` bytes on
    /// a sound heap with room for it: the size of the class, for a block
    /// from a fast cache; else what is carved out of the block that fits,
    /// or out of a new chunk.
    pub open spec fn spec_served_size(&self, need: int) -> int {
        let class = spec_size_class(need);
        if class.is_some() && self.stacks()[class.unwrap()].len() > 0 {
            spec_class_size(class.unwrap())
        } else {
            match spec_first_fit(self.memory(), self.blocks(), need, 0) {
                Some(a) => Self::spec_carved(self.header(a as int).size as int, need),
                None => Self::spec_carved(spec_chunk_bytes(need) - HEADER_SIZE, need),
            }
        }
    }

    /// The payload at `ptr`, in front of its canary, holds in the other
    /// heap the bytes that it holds in this one.
    pub open spec fn spec_payload_kept(&self, after: Heap, ptr: usize) -> bool {
        forall|at: int|
            ptr <= at < ptr + after.payload_size(ptr) - CANARY_SIZE ==> #[trigger] after.memory()[at]
                == self.memory()[at]
    }

    /// The payload at `ptr` is zero in front of its canary.
    pub open spec fn spec_zeroed(&self, ptr: usize) -> bool {
        forall|at: int|
            ptr <= at < ptr + self.payload_size(ptr) - CANARY_SIZE ==> #[trigger] self.memory()[at]
                == 0
    }

    /// The other heap has the calls counted as this one, and the same
    /// number of frees past the fast caches.
    pub open spec fn same_calls(&self, other: Heap) -> bool {
        &&& other.memory().len() == self.memory().len()
        &&& other.stats().alloc_count == self.stats().alloc_count
        &&& other.stats().free_count == self.stats().free_count
        &&& other.stats().coalesce_count == self.stats().coalesce_count
        &&& other.slow_frees() == self.slow_frees()
        &&& other.failed() == self.failed()
    }

    /// Serves a block of payload size `class_size(class)` from the fast
    /// cache of class `class`. Returns the address of the payload, 0 if
    /// the cache is empty.
    fn allocate_cached(&mut self, class: usize) -> (ptr: usize)
        requires
            old(self).wf(),
            class < NUM_SIZE_CLASSES,
        ensures
            final(self).wf(),
            old(self).same_calls(*final(self)),
            ptr == 0 ==> old(self).same_but_caches(*final(self)),
            ptr != 0 ==> {
                &&& ptr % HEAP_ALIGN == 0
                &&& spec_free_ok(final(self).memory(), final(self).page_end(), ptr as int)
                &&& final(self).payload_size(ptr) == spec_class_size(class as int)
            },
            old(self).sound() ==> {
                &&& final(self).sound()
                &&& final(self).stats().corruption_count == old(self).stats().corruption_count
                &&& (ptr == 0) == (old(self).stacks()[class as int].len() == 0)
                &&& ptr != 0 ==> {
                    &&& ptr == old(self).stacks()[class as int][0] + HEADER_SIZE
                    &&& old(self).grant_step(*final(self), ptr)
                    &&& final(self).stats().cache_hits == spec_bump(old(self).stats().cache_hits)
                    &&& final(self).stats().cache_misses == old(self).stats().cache_misses
                    &&& final(self).stacks() == old(self).stacks().update(
                        class as int,
                        old(self).stacks()[class as int].drop_first(),
                    )
                    &&& final(self).blocks() == old(self).blocks()
                    &&& final(self).page_end() == old(self).page_end()
                    &&& old(self).spec_payload_kept(*final(self), ptr)
                }
                &&& ptr == 0 ==> {
                    &&& old(self).quiet_step(*final(self))
                    &&& final(self).stacks() == old(self).stacks()
                    &&& final(self).stats().cache_hits == old(self).stats().cache_hits
                    &&& final(self).stats().cache_misses == spec_bump(
                        old(self).stats().cache_misses,
                    )
                }
            },
    {
        let a: usize = self.take_cached(class);
        if a == 0 {
            proof {
                if old(self).sound() && old(self).stacks()[class as int].len() > 0 {
                    let top = old(self).stacks()[class as int][0];
                    assert(spec_stack_ok(
                        old(self).memory(),
                        old(self).blocks(),
                        old(self).caches()[class as int],
                        old(self).stacks()[class as int],
                        class as int,
                    ));
                    assert(spec_entry_ok(
                        old(self).memory(),
                        old(self).blocks(),
                        old(self).stacks()[class as int],
                        class as int,
                        0,
                    ));
                    let i = old(self).index_of(top);
                    assert(spec_member_ok(
                        old(self).memory(),
                        old(self).page_end(),
                        old(self).blocks(),
                        i,
                    ));
                }
            }
            return 0;
        }
        let h: HeapBlock = load_header(&self.mem, a);
        let ghost taken = *self;
        let ptr: usize = self.claim(a, h);
        proof {
            if old(self).sound() {
                old(self).lemma_quiet_grant(taken, *self, ptr);
            }
        }
        ptr
    }

    /// Serves a block of payload size `need` at least from the free block
    /// at `a`, which is cut down to `need` bytes if it is larger by more
    /// than a header and a block of the smallest size. Returns the address
    /// of the payload.
    fn allocate_from(&mut self, a: usize, need: usize) -> (ptr: usize)
        requires
            old(self).wf(),
            0 < need,
            need % HEAP_ALIGN == 0,
            spec_block_ok(old(self).memory(), old(self).page_end(), a as int),
            old(self).header(a as int).flags == 1,
            old(self).header(a as int).size >= need,
        ensures
            final(self).wf(),
            old(self).same_calls(*final(self)),
            final(self).page_end() == old(self).page_end(),
            final(self).first() == old(self).first(),
            final(self).caches() == old(self).caches(),
            final(self).stacks() == old(self).stacks(),
            final(self).stats().cache_hits == old(self).stats().cache_hits,
            final(self).stats().cache_misses == old(self).stats().cache_misses,
            final(self).stats().corruption_count == old(self).stats().corruption_count,
            ptr == a + HEADER_SIZE,
            ptr % HEAP_ALIGN == 0,
            spec_free_ok(final(self).memory(), final(self).page_end(), ptr as int),
            final(self).payload_size(ptr) >= need,
            final(self).payload_size(ptr) == Self::spec_carved(
                old(self).header(a as int).size as int,
                need as int,
            ),
            old(self).sound() && old(self).blocks().contains(a) ==> {
                &&& final(self).sound()
                &&& old(self).grant_step(*final(self), ptr)
                &&& forall|at: int|
                    ptr <= at < ptr + final(self).payload_size(ptr) - CANARY_SIZE ==> #[trigger] final(self).memory()[at] == old(self).memory()[at]
            },
    {
        let mut h: HeapBlock = load_header(&self.mem, a);
        proof {
            if old(self).sound() && old(self).blocks().contains(a) {
                lemma_not_stacked(self.memory(), self.blocks(), self.caches(), self.stacks(), a);
                old(self).lemma_quiet_same(*self);
            }
        }
        if h.size > (need + MIN_BLOCK_SIZE + HEADER_SIZE) as u64 {
            h = self.split_block(a, h, need);
        }
        let ghost cut = *self;
        let ptr: usize = self.claim(a, h);
        proof {
            if old(self).sound() && old(self).blocks().contains(a) {
                old(self).lemma_quiet_grant(cut, *self, ptr);
            }
        }
        ptr
    }

    /// The address of the block that `allocate_slow(need)` takes on a
    /// sound heap: the first block of the global list that fits; with none
    /// that fits, the start of a new chunk; and 0 with no room for a chunk.
    #[verifier::opaque]
    pub open spec fn spec_allocate_slow(&self, need: int) -> int {
        match spec_first_fit(self.memory(), self.blocks(), need, 0) {
            Some(a) => a as int,
            None => if self.page_end() + spec_chunk_bytes(need) <= self.memory().len() {
                self.page_end()
            } else {
                0
            },
        }
    }

    /// In a sound heap, what `spec_first_fit` finds is not null.
    proof fn lemma_fit_not_null(&self, need: int)
        requires
            self.sound(),
        ensures
            spec_first_fit(self.memory(), self.blocks(), need, 0) matches Some(a) ==> a != 0
                && self.blocks().contains(a),
    {
        lemma_first_fit(self.memory(), self.blocks(), need, 0);
        if let Some(a) = spec_first_fit(self.memory(), self.blocks(), need, 0) {
            let i = self.index_of(a);
            assert(spec_member_ok(self.memory(), self.page_end(), self.blocks(), i));
        }
    }

    /// Serves a block of payload size `need` at least from the global
    /// list, else from a new chunk. Returns the address of the payload, 0
    /// for want of memory.
    fn allocate_slow(&mut self, need: usize) -> (ptr: usize)
        requires
            old(self).wf(),
            0 < need <= MAX_ALLOC + CANARY_SIZE + HEAP_ALIGN,
            need % HEAP_ALIGN == 0,
        ensures
            final(self).wf(),
            old(self).same_calls(*final(self)),
            final(self).caches() == old(self).caches(),
            final(self).stacks() == old(self).stacks(),
            final(self).stats().cache_hits == old(self).stats().cache_hits,
            final(self).stats().cache_misses == old(self).stats().cache_misses,
            final(self).stats().corruption_count == old(self).stats().corruption_count,
            ptr != 0 ==> {
                &&& ptr % HEAP_ALIGN == 0
                &&& spec_free_ok(final(self).memory(), final(self).page_end(), ptr as int)
                &&& final(self).payload_size(ptr) >= need
            },
            old(self).sound() ==> {
                &&& final(self).sound()
                &&& (ptr == 0) == (old(self).spec_allocate_slow(need as int) == 0)
                &&& ptr != 0 ==> ptr == old(self).spec_allocate_slow(need as int) + HEADER_SIZE
                &&& ptr != 0 ==> old(self).grant_step(*final(self), ptr)
                &&& ptr == 0 ==> old(self).quiet_step(*final(self))
                &&& ptr != 0 && ptr == old(self).page_end() + HEADER_SIZE ==> final(self).spec_zeroed(ptr)
                &&& ptr != 0 && ptr != old(self).page_end() + HEADER_SIZE ==> old(self).spec_payload_kept(*final(self), ptr)
                &&& ptr != 0 ==> final(self).payload_size(ptr) == match spec_first_fit(
                    old(self).memory(),
                    old(self).blocks(),
                    need as int,
                    0,
                ) {
                    Some(a) => Self::spec_carved(old(self).header(a as int).size as int, need as int),
                    None => Self::spec_carved(
                        spec_chunk_bytes(need as int) - HEADER_SIZE,
                        need as int,
                    ),
                }
            },
    {
        proof {
            reveal(Heap::spec_allocate_slow);
            if old(self).sound() {
                old(self).lemma_fit_not_null(need as int);
            }
        }
        let found: usize = self.find_free_block(need);
        let a: usize = if found != 0 {
            found
        } else {
            self.create_new_block(need)
        };
        if a == 0 {
            proof {
                if old(self).sound() {
                    old(self).lemma_quiet_same(*self);
                }
            }
            return 0;
        }
        let ghost grown = *self;
        proof {
            if old(self).sound() && found != 0 {
                old(self).lemma_quiet_same(grown);
            }
        }
        let ptr: usize = self.allocate_from(a, need);
        proof {
            if old(self).sound() {
                old(self).lemma_quiet_grant(grown, *self, ptr);
            }
        }
        ptr
    }

    /// Serves a block of payload size `need` at least: from the fast cache
    /// of the class of `need`, else from the global list, else from a new
    /// chunk. Returns the address of the payload, 0 for want of memory.
    fn allocate(&mut self, need: usize) -> (ptr: usize)
        requires
            old(self).wf(),
            0 < need <= MAX_ALLOC + CANARY_SIZE + HEAP_ALIGN,
            need % HEAP_ALIGN == 0,
        ensures
            final(self).wf(),
            old(self).same_calls(*final(self)),
            ptr != 0 ==> {
                &&& ptr % HEAP_ALIGN == 0
                &&& spec_free_ok(final(self).memory(), final(self).page_end(), ptr as int)
                &&& final(self).payload_size(ptr) >= need
            },
            old(self).sound() ==> {
                &&& final(self).sound()
                &&& final(self).stats().corruption_count == old(self).stats().corruption_count
                &&& (ptr == 0) == (old(self).spec_allocate(need as int) == 0)
                &&& ptr != 0 ==> ptr == old(self).spec_allocate(need as int) + HEADER_SIZE
                &&& ptr != 0 ==> old(self).grant_step(*final(self), ptr)
                &&& ptr == 0 ==> old(self).quiet_step(*final(self))
                &&& old(self).spec_cache_use(*final(self), need as int)
                &&& ptr != 0 && ptr == old(self).page_end() + HEADER_SIZE ==> final(self).spec_zeroed(ptr)
                &&& ptr != 0 ==> final(self).payload_size(ptr) == old(self).spec_served_size(
                    need as int,
                )
                &&& ptr != 0 && ptr != old(self).page_end() + HEADER_SIZE ==> old(self).spec_payload_kept(*final(self), ptr)
            },
    {
        let class: Option<usize> = get_size_class(need);
        proof {
            reveal(Heap::spec_allocate);
            reveal(Heap::spec_allocate_slow);
        }
        match class {
            Some(class) => {
                let ptr: usize = self.allocate_cached(class);
                if ptr != 0 {
                    return ptr;
                }
            },
            None => {},
        }
        let ghost missed = *self;
        proof {
            if old(self).sound() && class.is_none() {
                old(self).lemma_quiet_same(missed);
            }
        }
        let ptr: usize = self.allocate_slow(need);
        proof {
            if old(self).sound() {
                assert(missed.spec_allocate_slow(need as int) == old(self).spec_allocate_slow(
                    need as int,
                ));
                if ptr != 0 {
                    old(self).lemma_quiet_grant(missed, *self, ptr);
                } else {
                    old(self).lemma_quiet_quiet(missed, *self);
                }
            }
        }
        ptr
    }

    /// What `kmalloc(size)` does, and returns as `ptr`.
    ///
    /// A size that is not served gives null and changes nothing; any other
    /// is counted. A pointer that is returned is aligned, passes the
    /// checks of `kfree`, and has room for the request and the canary. On
    /// an intact heap, the pointer and the size of its payload are those
    /// that the state of the heap fixes, the heap is intact with that one
    /// block allocated in addition, or with none if null is returned and
    /// the request counted as turned down, the fast cache is used as
    /// `spec_cache_use` says, a block from a new chunk is zero in front of
    /// its canary, and any other block holds there what it held.
    pub open spec fn spec_allocated(&self, after: Heap, size: usize, ptr: usize) -> bool {
        &&& after.memory().len() == self.memory().len()
        &&& size == 0 || size > MAX_ALLOC ==> {
            &&& ptr == 0
            &&& self.same_books(after)
            &&& after.memory() == self.memory()
        }
        &&& 0 < size <= MAX_ALLOC ==> after.stats().alloc_count == spec_bump(
            self.stats().alloc_count,
        )
        &&& after.stats().free_count == self.stats().free_count
        &&& after.stats().coalesce_count == self.stats().coalesce_count
        &&& after.slow_frees() == self.slow_frees()
        &&& ptr != 0 ==> {
            &&& ptr % HEAP_ALIGN == 0
            &&& spec_free_ok(after.memory(), after.page_end(), ptr as int)
            &&& after.payload_size(ptr) >= size + CANARY_SIZE
        }
        &&& self.intact() ==> {
            &&& after.intact()
            &&& ptr == self.spec_kmalloc(size)
            &&& after.stats().corruption_count == self.stats().corruption_count
            &&& ptr != 0 ==> self.grant_step(after, ptr)
            &&& ptr != 0 ==> after.failed() == self.failed()
            &&& ptr == 0 ==> self.quiet_step(after)
            &&& ptr == 0 ==> after.failed() == self.failed() + if 0 < size <= MAX_ALLOC {
                1int
            } else {
                0int
            }
            &&& 0 < size <= MAX_ALLOC ==> self.spec_cache_use(after, spec_block_size(size as int))
            &&& ptr != 0 && ptr == self.page_end() + HEADER_SIZE ==> after.spec_zeroed(ptr)
            &&& ptr != 0 && ptr != self.page_end() + HEADER_SIZE ==> self.spec_payload_kept(
                after,
                ptr,
            )
            &&& ptr != 0 ==> after.payload_size(ptr) == self.spec_served_size(
                spec_block_size(size as int),
            )
        }
    }

    /// Allocates `size` bytes and returns the address of the payload, or
    /// null (0) for a size of 0, a size above `MAX_ALLOC`, or want of
    /// memory.
    ///
    /// The block has room for the request and the canary behind it. It
    /// comes from the fast cache of its class if that holds a block, else
    /// from the first free block of the global list that fits, split if
    /// it is much larger than needed, else from a new chunk, zeroed and
    /// split down to the request.
    pub fn kmalloc(&mut self, size: usize) -> (ptr: usize)
        requires
            old(self).wf(),
        ensures
            final(self).wf(),
            old(self).spec_allocated(*final(self), size, ptr),
    {
        proof {
            reveal(Heap::spec_kmalloc);
        }
        if size == 0 || size > MAX_ALLOC {
            proof {
                if old(self).sound() {
                    old(self).lemma_quiet_same(*self);
                }
            }
            return 0;
        }
        let need: usize = block_size_for(size);
        let ptr: usize = self.allocate(need);
        let ghost served = *self;
        self.alloc_count = if self.alloc_count < u64::MAX {
            self.alloc_count + 1
        } else {
            self.alloc_count
        };
        if ptr == 0 {
            self.failed = Ghost(self.failed@ + 1);
        }
        proof {
            if old(self).intact() {
                reveal(Heap::quiet_step);
                reveal(Heap::grant_step);
                served.lemma_keeps_live_same(*self);
                if ptr != 0 {
                    old(self).lemma_keeps_live_trans(served, *self);
                    assert forall|p: usize|
                        self.is_live(p) == (old(self).is_live(p) || p == ptr) by {
                        assert(self.is_live(p) == served.is_live(p));
                    }
                } else {
                    old(self).lemma_keeps_live_trans(served, *self);
                    old(self).lemma_same_live_trans(served, *self);
                }
            }
        }
        ptr
    }
}

} // verus!
