//! The heap backend: `kmalloc`, `kfree`, `krealloc`, `kcalloc`, statistics
//! and validation over one arena.
//!
//! The arena is a vector of bytes; an address is an index into it, and
//! address 0 is null: the first page is never handed out. Pages are taken
//! from the arena in address order and never given back. Block headers lie
//! in the arena, in front of their payloads, so a store through a stray
//! address can damage them. Every operation is safe on any arena; what an
//! operation promises beyond that, it promises for a heap that is
//! [`Heap::intact`].

use vstd::prelude::*;
use crate::heap::block::{HeapBlock, load_header, spec_header_at, store_header};
use crate::heap::bytes::{fill, spec_same_outside};
use crate::heap::layout::{
    ALLOC_MAGIC, FREE_MAGIC, HEADER_SIZE, HEAP_ALIGN, NUM_SIZE_CLASSES, PAGE_SIZE, spec_class_size,
};
use crate::heap::model::{
    FastCache, lemma_blocks_distinct, lemma_headers_kept, lemma_payload_frame, lemma_sum_at_least,
    lemma_sum_le, lemma_sum_update, spec_allocated_bytes, spec_block_ok, spec_caches_ok,
    spec_chain_ok, spec_covered, spec_end, spec_extent, spec_headers_kept, spec_in_use,
    spec_live_count,
};

pub mod acquire;
pub mod laws;
pub mod park;
pub mod release;
pub mod report;
pub mod resize;
pub mod sweep;

verus! {

/// The counters of the heap.
#[derive(Clone, Copy, Debug, PartialEq, Eq, Structural)]
pub struct HeapStats {
    /// Payload bytes of the blocks that are allocated.
    pub total_allocated: usize,
    /// The most that `total_allocated` has been.
    pub peak_allocated: usize,
    /// Requests of a size that is served, whether they were served or not.
    pub alloc_count: u64,
    /// Blocks freed.
    pub free_count: u64,
    /// Allocations served from a fast cache.
    pub cache_hits: u64,
    /// Allocations that found the fast cache of their class empty.
    pub cache_misses: u64,
    /// Pairs of free blocks merged.
    pub coalesce_count: u64,
    /// Pointers and blocks that failed a check.
    pub corruption_count: u64,
}

/// The heap backend.
pub struct Heap {
    mem: Vec<u8>,
    brk: usize,
    head: usize,
    caches: Vec<FastCache>,
    free_counter: usize,
    total_allocated: usize,
    peak_allocated: usize,
    alloc_count: u64,
    free_count: u64,
    coalesce_count: u64,
    corruption_count: u64,
    blocks: Ghost<Seq<usize>>,
    stacks: Ghost<Seq<Seq<usize>>>,
    failed: Ghost<int>,
}

/// `x + 1`, or `x` at the top of the range.
pub open spec fn spec_bump(x: u64) -> u64 {
    if x < u64::MAX {
        (x + 1) as u64
    } else {
        x
    }
}

/// The sum of the hits, or of the misses, of the first `n` caches.
pub open spec fn spec_cache_sum(caches: Seq<FastCache>, n: int, hits: bool) -> int
    decreases n,
{
    if n <= 0 {
        0
    } else {
        spec_cache_sum(caches, n - 1, hits) + if hits {
            caches[n - 1].hits as int
        } else {
            caches[n - 1].misses as int
        }
    }
}

/// `sum` as a 64-bit counter that stays at the top of its range.
pub open spec fn spec_clamp(sum: int) -> u64 {
    if sum > u64::MAX {
        u64::MAX
    } else if sum < 0 {
        0
    } else {
        sum as u64
    }
}

impl Heap {
    /// The bytes of the arena.
    pub closed spec fn memory(&self) -> Seq<u8> {
        self.mem@
    }

    /// The end of the pages handed out so far.
    pub closed spec fn page_end(&self) -> int {
        self.brk as int
    }

    /// The first block of the global list, 0 if there is none.
    pub closed spec fn first(&self) -> int {
        self.head as int
    }

    /// The fast caches.
    pub closed spec fn caches(&self) -> Seq<FastCache> {
        self.caches@
    }

    /// The blocks of the global list, in list order.
    pub closed spec fn blocks(&self) -> Seq<usize> {
        self.blocks@
    }

    /// The blocks in the fast caches, by class, top first.
    pub closed spec fn stacks(&self) -> Seq<Seq<usize>> {
        self.stacks@
    }

    /// Frees that went past the fast caches.
    pub closed spec fn slow_frees(&self) -> int {
        self.free_counter as int
    }

    /// Requests of a valid size that were turned down for want of memory.
    pub closed spec fn failed(&self) -> int {
        self.failed@
    }

    /// The counters.
    pub closed spec fn stats(&self) -> HeapStats {
        HeapStats {
            total_allocated: self.total_allocated,
            peak_allocated: self.peak_allocated,
            alloc_count: self.alloc_count,
            free_count: self.free_count,
            cache_hits: spec_clamp(spec_cache_sum(self.caches@, NUM_SIZE_CLASSES as int, true)),
            cache_misses: spec_clamp(
                spec_cache_sum(self.caches@, NUM_SIZE_CLASSES as int, false),
            ),
            coalesce_count: self.coalesce_count,
            corruption_count: self.corruption_count,
        }
    }

    /// The header that the arena holds at `a`.
    pub open spec fn header(&self, a: int) -> HeapBlock {
        spec_header_at(self.memory(), a)
    }

    /// What holds of the heap whatever has been stored into the arena: the
    /// pages handed out lie in the arena, behind the null page, and there
    /// is one fast cache for each class.
    pub open spec fn wf(&self) -> bool {
        &&& PAGE_SIZE <= self.page_end() <= self.memory().len()
        &&& self.page_end() % (PAGE_SIZE as int) == 0
        &&& self.caches().len() == NUM_SIZE_CLASSES
    }

    /// The arena holds the global list and the stacks of the fast caches as
    /// the bookkeeping has them, the blocks of the list tile the pages
    /// handed out, and the bytes in use are counted.
    pub open spec fn sound(&self) -> bool {
        &&& self.wf()
        &&& spec_chain_ok(self.memory(), self.page_end(), self.first(), self.blocks())
        &&& spec_caches_ok(self.memory(), self.blocks(), self.caches(), self.stacks())
        &&& spec_covered(self.memory(), self.blocks()) == self.page_end() - PAGE_SIZE
        &&& self.stats().total_allocated == spec_in_use(self.memory(), self.blocks())
        &&& self.stats().peak_allocated >= self.stats().total_allocated
    }

    /// The number of allocated blocks.
    pub open spec fn live_count(&self) -> int {
        spec_live_count(self.memory(), self.blocks())
    }

    /// The heap is sound, and its counters of calls count what is there:
    /// unless the counter of allocations has reached the top of its range,
    /// every request of a valid size was turned down, or has been freed, or
    /// is allocated now.
    pub open spec fn intact(&self) -> bool {
        &&& self.sound()
        &&& self.failed() >= 0
        &&& self.stats().alloc_count < u64::MAX ==> self.stats().alloc_count
            == self.stats().free_count + self.live_count() + self.failed()
    }

    /// Whether `ptr` is the payload address of an allocated block.
    #[verifier::opaque]
    pub open spec fn is_live(&self, ptr: usize) -> bool {
        &&& ptr >= HEADER_SIZE
        &&& self.blocks().contains((ptr - HEADER_SIZE) as usize)
        &&& self.header(ptr - HEADER_SIZE).magic == ALLOC_MAGIC
    }

    /// Bytes of the payload at `ptr`, canary included.
    pub open spec fn payload_size(&self, ptr: usize) -> int {
        self.header(ptr - HEADER_SIZE).size as int
    }

    /// Whether `addr` lies in the payload of an allocated block.
    pub open spec fn owns(&self, addr: usize) -> bool {
        exists|ptr: usize| #[trigger]
            self.is_live(ptr) && ptr <= addr < ptr + self.payload_size(ptr)
    }

    /// The other heap differs from this one in the bytes of the arena at
    /// most.
    pub open spec fn same_books(&self, other: Heap) -> bool {
        &&& other.memory().len() == self.memory().len()
        &&& other.page_end() == self.page_end()
        &&& other.first() == self.first()
        &&& other.caches() == self.caches()
        &&& other.blocks() == self.blocks()
        &&& other.stacks() == self.stacks()
        &&& other.slow_frees() == self.slow_frees()
        &&& other.failed() == self.failed()
        &&& other.stats() == self.stats()
    }

    /// Every block that is allocated in this heap is allocated in the
    /// other, with the same size and the same bytes in its payload.
    #[verifier::opaque]
    pub open spec fn keeps_live(&self, other: Heap) -> bool {
        forall|p: usize| #[trigger]
            self.is_live(p) ==> {
                &&& other.is_live(p)
                &&& other.payload_size(p) == self.payload_size(p)
                &&& forall|at: int|
                    p <= at < p + self.payload_size(p) ==> #[trigger] other.memory()[at]
                        == self.memory()[at]
            }
    }

    /// A step that allocates nothing and frees nothing: the other heap is
    /// sound, every allocated block is as it was, no other block is
    /// allocated, and the bytes in use and their peak are the same.
    #[verifier::opaque]
    pub open spec fn quiet_step(&self, after: Heap) -> bool {
        &&& after.sound()
        &&& self.keeps_live(after)
        &&& self.same_live(after)
        &&& after.live_count() == self.live_count()
        &&& after.stats().total_allocated == self.stats().total_allocated
        &&& after.stats().peak_allocated == self.stats().peak_allocated
    }

    /// A step that allocates the block at `ptr`: the other heap is sound,
    /// every block that was allocated is as it was, `ptr` was not allocated
    /// and is the one block that is allocated in addition, and its payload
    /// is counted in the bytes in use, whose peak follows.
    #[verifier::opaque]
    pub open spec fn grant_step(&self, after: Heap, ptr: usize) -> bool {
        &&& after.sound()
        &&& self.keeps_live(after)
        &&& !self.is_live(ptr)
        &&& forall|p: usize| after.is_live(p) == (self.is_live(p) || p == ptr)
        &&& after.live_count() == self.live_count() + 1
        &&& after.stats().total_allocated == self.stats().total_allocated + after.payload_size(
            ptr,
        )
        &&& after.stats().peak_allocated == if self.stats().peak_allocated
            >= after.stats().total_allocated {
            self.stats().peak_allocated
        } else {
            after.stats().total_allocated
        }
    }

    /// A sound heap with the same arena, list of blocks, bytes in use and
    /// peak is a quiet step away.
    pub proof fn lemma_quiet_same(&self, after: Heap)
        requires
            after.sound(),
            after.memory() == self.memory(),
            after.blocks() == self.blocks(),
            after.stats().total_allocated == self.stats().total_allocated,
            after.stats().peak_allocated == self.stats().peak_allocated,
        ensures
            self.quiet_step(after),
    {
        reveal(Heap::quiet_step);
        self.lemma_keeps_live_same(after);
    }

    /// Two quiet steps make a quiet step.
    pub proof fn lemma_quiet_quiet(&self, mid: Heap, after: Heap)
        requires
            self.quiet_step(mid),
            mid.quiet_step(after),
        ensures
            self.quiet_step(after),
    {
        reveal(Heap::quiet_step);
        self.lemma_keeps_live_trans(mid, after);
        self.lemma_same_live_trans(mid, after);
    }

    /// A quiet step and a step that allocates make a step that allocates.
    pub proof fn lemma_quiet_grant(&self, mid: Heap, after: Heap, ptr: usize)
        requires
            self.quiet_step(mid),
            mid.grant_step(after, ptr),
        ensures
            self.grant_step(after, ptr),
    {
        reveal(Heap::quiet_step);
        reveal(Heap::grant_step);
        self.lemma_keeps_live_trans(mid, after);
        assert forall|p: usize| after.is_live(p) == (self.is_live(p) || p == ptr) by {
            assert(mid.is_live(p) == self.is_live(p));
        }
    }

    /// In a sound heap the bytes in use, and the bytes of every single
    /// block, lie within the pages handed out.
    pub proof fn lemma_in_use_bounded(&self)
        requires
            self.sound(),
        ensures
            0 <= spec_in_use(self.memory(), self.blocks()) <= self.page_end() - PAGE_SIZE,
            forall|i: int|
                0 <= i < self.blocks().len() ==> spec_in_use(self.memory(), self.blocks())
                    + spec_extent(self.memory(), #[trigger] self.blocks()[i]) <= self.page_end()
                    - PAGE_SIZE + spec_allocated_bytes(self.memory(), self.blocks()[i]),
    {
        let mem = self.memory();
        let blocks = self.blocks();
        lemma_sum_le(
            blocks,
            |a: usize| spec_allocated_bytes(mem, a),
            |a: usize| spec_extent(mem, a),
        );
        lemma_sum_at_least(blocks, |a: usize| spec_allocated_bytes(mem, a), 0);
        assert forall|i: int| 0 <= i < blocks.len() implies spec_in_use(mem, blocks) + spec_extent(
            mem,
            #[trigger] blocks[i],
        ) <= self.page_end() - PAGE_SIZE + spec_allocated_bytes(mem, blocks[i]) by {
            let f = |a: usize| spec_allocated_bytes(mem, a);
            let g = |a: usize|
                if a == blocks[i] {
                    spec_extent(mem, a)
                } else {
                    spec_allocated_bytes(mem, a)
                };
            lemma_blocks_distinct(mem, self.page_end(), self.first(), blocks);
            lemma_sum_update(blocks, f, g, i);
            lemma_sum_le(blocks, g, |a: usize| spec_extent(mem, a));
        }
    }

    /// What one heap keeps of a second, and the second of a third, the
    /// first keeps of the third.
    pub proof fn lemma_keeps_live_trans(&self, mid: Heap, after: Heap)
        requires
            self.keeps_live(mid),
            mid.keeps_live(after),
        ensures
            self.keeps_live(after),
    {
        reveal(Heap::keeps_live);
        assert forall|p: usize| #[trigger] self.is_live(p) implies {
            &&& after.is_live(p)
            &&& after.payload_size(p) == self.payload_size(p)
            &&& forall|at: int|
                p <= at < p + self.payload_size(p) ==> #[trigger] after.memory()[at]
                    == self.memory()[at]
        } by {
            assert(mid.is_live(p));
            assert forall|at: int| p <= at < p + self.payload_size(p) implies #[trigger] after.memory()[at]
                == self.memory()[at] by {
                assert(mid.memory()[at] == self.memory()[at]);
            }
        }
    }

    /// A heap with the same arena and the same list of blocks has the same
    /// allocated blocks.
    pub proof fn lemma_keeps_live_same(&self, after: Heap)
        requires
            after.memory() == self.memory(),
            after.blocks() == self.blocks(),
        ensures
            self.keeps_live(after),
            self.same_live(after),
            after.live_count() == self.live_count(),
    {
        reveal(Heap::keeps_live);
        reveal(Heap::is_live);
    }

    /// Heaps with the same allocated blocks, one after the other.
    pub proof fn lemma_same_live_trans(&self, mid: Heap, after: Heap)
        requires
            self.same_live(mid),
            mid.same_live(after),
        ensures
            self.same_live(after),
    {
        assert forall|p: usize| after.is_live(p) == self.is_live(p) by {
            assert(mid.is_live(p) == self.is_live(p));
        }
    }

    /// A write into the payload of a block of the list leaves a sound heap
    /// sound, and every header of the list as it was.
    pub proof fn lemma_payload_write(&self, after: Heap, a: usize, lo: int, hi: int)
        requires
            self.sound(),
            self.same_books(after),
            self.blocks().contains(a),
            a + HEADER_SIZE <= lo,
            hi <= spec_end(self.memory(), a as int),
            spec_same_outside(self.memory(), after.memory(), lo, hi),
        ensures
            after.sound(),
            after.live_count() == self.live_count(),
            self.intact() ==> after.intact(),
            spec_headers_kept(self.memory(), after.memory(), self.blocks()),
            forall|p: usize| after.is_live(p) == self.is_live(p),
            forall|p: usize| self.is_live(p) ==> after.payload_size(p) == self.payload_size(p),
    {
        reveal(Heap::is_live);
        reveal(Heap::keeps_live);
        let k = choose|k: int| 0 <= k < self.blocks().len() && self.blocks()[k] == a;
        lemma_payload_frame(
            self.memory(),
            after.memory(),
            self.page_end(),
            self.first(),
            self.blocks(),
            k,
            lo,
            hi,
        );
        lemma_headers_kept(
            self.memory(),
            after.memory(),
            self.page_end(),
            self.first(),
            self.blocks(),
            self.caches(),
            self.stacks(),
        );
        assert forall|p: usize| after.is_live(p) == self.is_live(p) by {
            if p >= HEADER_SIZE && self.blocks().contains((p - HEADER_SIZE) as usize) {
                let i = choose|i: int|
                    0 <= i < self.blocks().len() && self.blocks()[i] == (p - HEADER_SIZE) as usize;
                assert(spec_header_at(after.memory(), self.blocks()[i] as int) == spec_header_at(
                    self.memory(),
                    self.blocks()[i] as int,
                ));
            }
        }
        assert forall|p: usize| self.is_live(p) implies after.payload_size(p) == self.payload_size(
            p,
        ) by {
            let i = choose|i: int|
                0 <= i < self.blocks().len() && self.blocks()[i] == (p - HEADER_SIZE) as usize;
            assert(spec_header_at(after.memory(), self.blocks()[i] as int) == spec_header_at(
                self.memory(),
                self.blocks()[i] as int,
            ));
        }
    }

    /// The heap is as `new(pages, fill)` makes it: intact, over an arena
    /// of `pages` pages behind the null page, every byte of it `fill`, with
    /// no page handed out, no block, empty fast caches, and all counters
    /// at 0.
    pub open spec fn spec_fresh(&self, pages: usize, fill: u8) -> bool {
        &&& self.intact()
        &&& self.memory().len() == (pages + 1) * PAGE_SIZE
        &&& forall|i: int| 0 <= i < self.memory().len() ==> self.memory()[i] == fill
        &&& self.page_end() == PAGE_SIZE
        &&& self.blocks().len() == 0
        &&& self.failed() == 0
        &&& self.slow_frees() == 0
        &&& self.stats() == (HeapStats {
            total_allocated: 0,
            peak_allocated: 0,
            alloc_count: 0,
            free_count: 0,
            cache_hits: 0,
            cache_misses: 0,
            coalesce_count: 0,
            corruption_count: 0,
        })
        &&& forall|c: int| 0 <= c < NUM_SIZE_CLASSES ==> (#[trigger] self.stacks()[c]).len() == 0
    }

    /// A heap over a fresh arena of `pages` pages behind the null page,
    /// every byte of it `fill`.
    pub fn new(pages: usize, fill: u8) -> (heap: Heap)
        requires
            (pages + 1) * PAGE_SIZE <= usize::MAX,
        ensures
            heap.spec_fresh(pages, fill),
    {
        let mem: Vec<u8> = vec![fill; (pages + 1) * PAGE_SIZE];
        let mut caches: Vec<FastCache> = Vec::new();
        let ghost mut stacks: Seq<Seq<usize>> = Seq::empty();
        let mut c: usize = 0;
        while c < NUM_SIZE_CLASSES
            invariant
                c <= NUM_SIZE_CLASSES,
                caches.len() == c,
                stacks.len() == c,
                forall|i: int|
                    0 <= i < c ==> #[trigger] caches@[i] == (FastCache {
                        head: 0,
                        count: 0,
                        hits: 0,
                        misses: 0,
                    }),
                forall|i: int| 0 <= i < c ==> (#[trigger] stacks[i]).len() == 0,
                spec_cache_sum(caches@, c as int, true) == 0,
                spec_cache_sum(caches@, c as int, false) == 0,
            decreases NUM_SIZE_CLASSES - c,
        {
            let ghost before = caches@;
            caches.push(FastCache { head: 0, count: 0, hits: 0, misses: 0 });
            proof {
                stacks = stacks.push(Seq::empty());
                lemma_cache_sum_prefix(before, caches@, c as int, true);
                lemma_cache_sum_prefix(before, caches@, c as int, false);
            }
            c = c + 1;
        }
        let heap = Heap {
            mem,
            brk: PAGE_SIZE,
            head: 0,
            caches,
            free_counter: 0,
            total_allocated: 0,
            peak_allocated: 0,
            alloc_count: 0,
            free_count: 0,
            coalesce_count: 0,
            corruption_count: 0,
            blocks: Ghost(Seq::empty()),
            stacks: Ghost(stacks),
            failed: Ghost(0),
        };
        proof {
            assert(heap.blocks() =~= Seq::<usize>::empty());
        }
        heap
    }

    /// Reads and checks the header at `a`: the header, if it is that of a
    /// sound block, else `None`.
    pub fn check_block(&self, a: usize) -> (found: Option<HeapBlock>)
        requires
            self.wf(),
        ensures
            found.is_some() == spec_block_ok(self.memory(), self.page_end(), a as int),
            found matches Some(h) ==> h == self.header(a as int),
    {
        if a % HEAP_ALIGN != 0 || a < PAGE_SIZE || a > self.brk - HEADER_SIZE {
            return None;
        }
        let h: HeapBlock = load_header(&self.mem, a);
        if !h.validate(a) || h.flags >= 4 || h.is_free() != (h.magic == FREE_MAGIC) || (h.in_cache()
            && !h.is_free()) || h.size == 0 || h.size % (HEAP_ALIGN as u64) != 0 {
            return None;
        }
        let room: usize = self.brk - a - HEADER_SIZE;
        if h.size > room as u64 {
            return None;
        }
        Some(h)
    }

    /// Writes `header` at `a`.
    fn put_header(&mut self, a: usize, header: &HeapBlock)
        requires
            a + HEADER_SIZE <= old(self).memory().len(),
        ensures
            old(self).same_books(*final(self)),
            spec_same_outside(
                old(self).memory(),
                final(self).memory(),
                a as int,
                a + HEADER_SIZE,
            ),
            final(self).header(a as int) == *header,
            old(self).wf() ==> final(self).wf(),
    {
        store_header(&mut self.mem, a, header);
    }

    /// Whether the heap is well formed.
    pub fn is_wf(&self) -> (ok: bool)
        ensures
            ok == self.wf(),
    {
        PAGE_SIZE <= self.brk && self.brk <= self.mem.len() && self.brk % PAGE_SIZE == 0
            && self.caches.len() == NUM_SIZE_CLASSES
    }

    /// Reads the header at `a`, unchecked.
    pub fn peek_header(&self, a: usize) -> (header: HeapBlock)
        requires
            a + HEADER_SIZE <= self.memory().len(),
        ensures
            header == self.header(a as int),
    {
        load_header(&self.mem, a)
    }

    /// Bytes of the arena.
    pub fn capacity(&self) -> (n: usize)
        ensures
            n == self.memory().len(),
    {
        self.mem.len()
    }

    /// Reads the byte at `addr`, `None` outside the arena.
    pub fn load(&self, addr: usize) -> (byte: Option<u8>)
        ensures
            byte == if addr < self.memory().len() {
                Some(self.memory()[addr as int])
            } else {
                None
            },
    {
        if addr < self.mem.len() {
            Some(self.mem[addr])
        } else {
            None
        }
    }

    /// Stores `byte` at `addr`, wherever in the arena that is, and says
    /// whether `addr` lies in the arena. A store into the payload of an
    /// allocated block leaves the heap intact and the block allocated.
    pub fn store(&mut self, addr: usize, byte: u8) -> (stored: bool)
        ensures
            stored == (addr < old(self).memory().len()),
            old(self).same_books(*final(self)),
            stored ==> final(self).memory() == old(self).memory().update(addr as int, byte),
            !stored ==> final(self).memory() == old(self).memory(),
            old(self).wf() ==> final(self).wf(),
            old(self).sound() && old(self).owns(addr) ==> final(self).sound(),
            old(self).intact() && old(self).owns(addr) ==> final(self).intact(),
            old(self).sound() && old(self).owns(addr) ==> forall|p: usize|
                final(self).is_live(p) == old(self).is_live(p),
    {
        if addr < self.mem.len() {
            self.mem[addr] = byte;
            proof {
                reveal(Heap::is_live);
                if old(self).sound() && old(self).owns(addr) {
                    let ptr = choose|ptr: usize| #[trigger]
                        old(self).is_live(ptr) && ptr <= addr < ptr + old(self).payload_size(ptr);
                    old(self).lemma_payload_write(
                        *self,
                        (ptr - HEADER_SIZE) as usize,
                        addr as int,
                        addr + 1,
                    );
                }
            }
            true
        } else {
            false
        }
    }
}

/// The sum over the first `n` caches looks at the first `n` caches only.
pub proof fn lemma_cache_sum_prefix(a: Seq<FastCache>, b: Seq<FastCache>, n: int, hits: bool)
    requires
        n <= a.len(),
        n <= b.len(),
        forall|i: int| 0 <= i < n ==> a[i] == b[i],
    ensures
        spec_cache_sum(a, n, hits) == spec_cache_sum(b, n, hits),
    decreases n,
{
    if n > 0 {
        lemma_cache_sum_prefix(a, b, n - 1, hits);
    }
}

/// A sum of counters is not negative.
pub proof fn lemma_cache_sum_positive(a: Seq<FastCache>, n: int, hits: bool)
    requires
        n <= a.len(),
    ensures
        spec_cache_sum(a, n, hits) >= 0,
    decreases n,
{
    if n > 0 {
        lemma_cache_sum_positive(a, n - 1, hits);
    }
}

/// Replacing cache `c` moves the sums by what the hits and the misses of
/// that cache move.
pub proof fn lemma_cache_sum_update(a: Seq<FastCache>, c: int, cache: FastCache, n: int, hits: bool)
    requires
        0 <= c < a.len(),
        n <= a.len(),
    ensures
        spec_cache_sum(a.update(c, cache), n, hits) == spec_cache_sum(a, n, hits) + if c < n {
            if hits {
                cache.hits - a[c].hits
            } else {
                cache.misses - a[c].misses
            }
        } else {
            0
        },
    decreases n,
{
    if n > 0 {
        lemma_cache_sum_update(a, c, cache, n - 1, hits);
    }
}

/// A sum of counters is at least each of them.
pub proof fn lemma_cache_sum_term(a: Seq<FastCache>, c: int, n: int, hits: bool)
    requires
        0 <= c < n <= a.len(),
    ensures
        spec_cache_sum(a, n, hits) >= if hits {
            a[c].hits
        } else {
            a[c].misses
        },
    decreases n,
{
    lemma_cache_sum_positive(a, n - 1, hits);
    if c < n - 1 {
        lemma_cache_sum_term(a, c, n - 1, hits);
    }
}

/// Different classes have different sizes.
pub proof fn lemma_class_sizes_differ(c: int, d: int)
    requires
        0 <= c < NUM_SIZE_CLASSES,
        0 <= d < NUM_SIZE_CLASSES,
        c != d,
    ensures
        spec_class_size(c) != spec_class_size(d),
{
}

/// Multiples of the page size are multiples of the alignment, and so is
/// their sum and what is left of one behind a header.
pub proof fn lemma_page_multiples(a: int, chunk: int)
    requires
        a % (PAGE_SIZE as int) == 0,
        chunk % (PAGE_SIZE as int) == 0,
    ensures
        (a + chunk) % (PAGE_SIZE as int) == 0,
        a % (HEAP_ALIGN as int) == 0,
        chunk % (HEAP_ALIGN as int) == 0,
        (chunk - HEADER_SIZE) % (HEAP_ALIGN as int) == 0,
{
}

} // verus!
