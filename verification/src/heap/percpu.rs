//! The front door of the heap: per-CPU caches of payload pointers on top of
//! the backend.
//!
//! Each CPU has one bounded stack of pointers for each of eight size
//! classes. A block whose pointer is on a stack is parked: to the backend
//! it is allocated still, and in the place of its canary it carries a
//! mark. To callers it is free: the counters of the front door count it as
//! freed, and a second free of it fails the checks. It is handed out again
//! if it is sound and has room for the request, and goes back to the
//! backend when its CPU is flushed.

use vstd::prelude::*;
use crate::heap::backend::{Heap, HeapStats, spec_bump, spec_clamp};
use crate::heap::backend::park::spec_parked_ok;
use crate::heap::layout::{CANARY_SIZE, HEADER_SIZE, HEAP_ALIGN, MAX_ALLOC, PAGE_SIZE};
use crate::heap::model::{
    lemma_blocks_distinct, lemma_sum_same, lemma_sum_term, lemma_sum_update, spec_allocated_bytes,
    spec_allocated_one, spec_free_ok, spec_sum,
};

verus! {

/// CPUs that have caches of their own. A CPU is mapped to its caches by its
/// identity modulo this number.
pub const MAX_CPUS: usize = 64;

/// Size classes of the per-CPU caches: up to 32, 64, 128, ... 4096 bytes.
pub const PERCPU_SIZE_CLASSES: usize = 8;

/// Pointers that one stack holds at most.
pub const PERCPU_CACHE_SIZE: usize = 32;

/// Stacks in all.
pub const PERCPU_STACKS: usize = 512;

/// Slots of all stacks.
pub const PERCPU_SLOTS: usize = 16384;

/// The per-CPU class of `size`: class `k` takes the sizes above `16 * 2^k`
/// up to `32 * 2^k`, class 0 all sizes from 1 to 32, and there is no class
/// for 0 or above 4096.
pub open spec fn spec_percpu_size_class(size: int) -> Option<int> {
    if size < 1 || size > 4096 {
        None
    } else if size <= 32 {
        Some(0)
    } else if size <= 64 {
        Some(1)
    } else if size <= 128 {
        Some(2)
    } else if size <= 256 {
        Some(3)
    } else if size <= 512 {
        Some(4)
    } else if size <= 1024 {
        Some(5)
    } else if size <= 2048 {
        Some(6)
    } else {
        Some(7)
    }
}

/// The per-CPU class of `size`.
pub fn get_percpu_size_class(size: usize) -> (class: Option<usize>)
    ensures
        class.is_some() == spec_percpu_size_class(size as int).is_some(),
        class matches Some(k) ==> k < PERCPU_SIZE_CLASSES && spec_percpu_size_class(size as int)
            == Some(k as int),
{
    if size < 1 || size > 4096 {
        None
    } else if size <= 32 {
        Some(0)
    } else if size <= 64 {
        Some(1)
    } else if size <= 128 {
        Some(2)
    } else if size <= 256 {
        Some(3)
    } else if size <= 512 {
        Some(4)
    } else if size <= 1024 {
        Some(5)
    } else if size <= 2048 {
        Some(6)
    } else {
        Some(7)
    }
}

/// The number of the stack of class `class` of the CPU with identity `cpu`.
pub open spec fn spec_stack_of(cpu: int, class: int) -> int {
    (cpu % (MAX_CPUS as int)) * PERCPU_SIZE_CLASSES + class
}

/// Entry `j` of stack `s`, counted from the bottom.
pub open spec fn spec_entry(slots: Seq<usize>, s: int, j: int) -> usize {
    slots[s * PERCPU_CACHE_SIZE + j]
}

/// The pointers on stack `s`, bottom first.
pub open spec fn spec_stack(slots: Seq<usize>, counts: Seq<usize>, s: int) -> Seq<usize> {
    Seq::new(counts[s] as nat, |j: int| spec_entry(slots, s, j))
}

/// Every stack is within its bound.
pub open spec fn spec_shaped(slots: Seq<usize>, counts: Seq<usize>) -> bool {
    &&& slots.len() == PERCPU_SLOTS
    &&& counts.len() == PERCPU_STACKS
    &&& forall|s: int| 0 <= s < PERCPU_STACKS ==> #[trigger] counts[s] <= PERCPU_CACHE_SIZE
}

/// Whether `ptr` is on some stack.
pub open spec fn spec_cached(slots: Seq<usize>, counts: Seq<usize>, ptr: usize) -> bool {
    exists|s: int, j: int|
        0 <= s < PERCPU_STACKS && 0 <= j < counts[s] && #[trigger] spec_entry(slots, s, j) == ptr
}

/// Every pointer on a stack is allocated in the backend.
pub open spec fn spec_entries_live(backend: Heap, slots: Seq<usize>, counts: Seq<usize>) -> bool {
    forall|s: int, j: int|
        0 <= s < PERCPU_STACKS && 0 <= j < counts[s] ==> backend.is_live(
            #[trigger] spec_entry(slots, s, j),
        )
}

/// No pointer is on a stack twice, or on two stacks.
pub open spec fn spec_entries_distinct(slots: Seq<usize>, counts: Seq<usize>) -> bool {
    forall|s: int, j: int, t: int, k: int|
        0 <= s < PERCPU_STACKS && 0 <= j < counts[s] && 0 <= t < PERCPU_STACKS && 0 <= k
            < counts[t] && (s != t || j != k) ==> #[trigger] spec_entry(slots, s, j)
            != #[trigger] spec_entry(slots, t, k)
}

/// Every pointer on a stack is the payload of a parked block.
pub open spec fn spec_entries_parked(backend: Heap, slots: Seq<usize>, counts: Seq<usize>) -> bool {
    forall|s: int, j: int|
        0 <= s < PERCPU_STACKS && 0 <= j < counts[s] ==> spec_parked_ok(
            backend.memory(),
            backend.page_end(),
            #[trigger] spec_entry(slots, s, j) as int,
        )
}

/// Whether slot `i` of the table of all stacks holds a pointer.
pub open spec fn spec_occupied(counts: Seq<usize>, i: int) -> bool {
    i % (PERCPU_CACHE_SIZE as int) < counts[i / (PERCPU_CACHE_SIZE as int)]
}

/// The numbers of all slots.
pub open spec fn spec_slot_numbers() -> Seq<usize> {
    Seq::new(PERCPU_SLOTS as nat, |i: int| i as usize)
}

/// The larger of a peak and a number of bytes in use.
pub open spec fn spec_peak(peak: usize, in_use: usize) -> usize {
    if peak >= in_use {
        peak
    } else {
        in_use
    }
}

/// `x - y`, or 0 if `y` is larger.
pub open spec fn spec_less(x: usize, y: usize) -> usize {
    if x >= y {
        (x - y) as usize
    } else {
        0
    }
}

/// `x + y` on a number that stays at the top of its range.
pub open spec fn spec_more(x: usize, y: usize) -> usize {
    if x + y <= usize::MAX {
        (x + y) as usize
    } else {
        usize::MAX
    }
}

/// The heap with its per-CPU caches.
pub struct KernelHeap {
    backend: Heap,
    slots: Vec<usize>,
    counts: Vec<usize>,
    hits: Vec<u64>,
    misses: Vec<u64>,
    enabled: bool,
    parked: usize,
    parked_bytes: usize,
    served: u64,
    peak: usize,
}

impl KernelHeap {
    /// The backend.
    pub closed spec fn backend(&self) -> Heap {
        self.backend
    }

    /// Whether the per-CPU caches are in use.
    pub closed spec fn enabled(&self) -> bool {
        self.enabled
    }

    /// The slots of all stacks: stack `s` begins at slot
    /// `s * PERCPU_CACHE_SIZE`.
    pub closed spec fn slots(&self) -> Seq<usize> {
        self.slots@
    }

    /// The number of pointers on each stack.
    pub closed spec fn counts(&self) -> Seq<usize> {
        self.counts@
    }

    /// Allocations served from each stack.
    pub closed spec fn hits(&self) -> Seq<u64> {
        self.hits@
    }

    /// Allocations that found each stack empty.
    pub closed spec fn misses(&self) -> Seq<u64> {
        self.misses@
    }

    /// The number of parked blocks, as counted.
    pub closed spec fn parked(&self) -> usize {
        self.parked
    }

    /// The payload bytes of the parked blocks, as counted.
    pub closed spec fn parked_bytes(&self) -> usize {
        self.parked_bytes
    }

    /// Allocations served from the stacks.
    pub closed spec fn served(&self) -> u64 {
        self.served
    }

    /// The most bytes that callers have held at one time.
    pub closed spec fn peak(&self) -> usize {
        self.peak
    }

    /// The pointers on stack `s`, bottom first.
    pub open spec fn stack(&self, s: int) -> Seq<usize> {
        spec_stack(self.slots(), self.counts(), s)
    }

    /// The counters of the front door. A parked block is counted as
    /// freed: its bytes are not in use, and parking it was a free. A
    /// block served from a stack is counted as allocated. The other
    /// counters are those of the backend.
    pub open spec fn stats(&self) -> HeapStats {
        HeapStats {
            total_allocated: spec_less(self.backend().stats().total_allocated, self.parked_bytes()),
            peak_allocated: self.peak(),
            alloc_count: spec_clamp(self.backend().stats().alloc_count + self.served()),
            free_count: spec_clamp(
                self.backend().stats().free_count + self.served() + self.parked(),
            ),
            ..self.backend().stats()
        }
    }

    /// What slot `i` adds to the count of the parked blocks, or to their
    /// bytes.
    pub open spec fn spec_parked_term(&self, bytes: bool, i: usize) -> int {
        if spec_occupied(self.counts(), i as int) {
            if bytes {
                self.backend().payload_size(self.slots()[i as int])
            } else {
                1
            }
        } else {
            0
        }
    }

    /// What each slot adds.
    pub open spec fn spec_parked_terms(&self, bytes: bool) -> spec_fn(usize) -> int {
        |i: usize| self.spec_parked_term(bytes, i)
    }

    /// The number of the pointers on all stacks, or the payload bytes of
    /// their blocks.
    pub open spec fn spec_parked_sum(&self, bytes: bool) -> int {
        spec_sum(spec_slot_numbers(), self.spec_parked_terms(bytes))
    }

    /// What holds of the heap whatever has been stored into the arena:
    /// the backend is well formed, and the tables of the per-CPU caches
    /// have their sizes.
    pub open spec fn wf(&self) -> bool {
        &&& self.backend().wf()
        &&& self.slots().len() == PERCPU_SLOTS
        &&& self.counts().len() == PERCPU_STACKS
        &&& self.hits().len() == PERCPU_STACKS
        &&& self.misses().len() == PERCPU_STACKS
    }

    /// Whether `ptr` is on some stack.
    pub open spec fn cached(&self, ptr: usize) -> bool {
        spec_cached(self.slots(), self.counts(), ptr)
    }

    /// Whether `ptr` is held by a caller: allocated, and on no stack.
    pub open spec fn holds(&self, ptr: usize) -> bool {
        self.backend().is_live(ptr) && !self.cached(ptr)
    }

    /// The heap is sound: the backend is, every pointer on a stack is the
    /// payload of a parked block of the backend, no pointer is on a stack
    /// twice or on two stacks, and the parked blocks and their bytes are
    /// counted.
    pub open spec fn intact(&self) -> bool {
        &&& self.wf()
        &&& spec_shaped(self.slots(), self.counts())
        &&& self.backend().intact()
        &&& spec_entries_live(self.backend(), self.slots(), self.counts())
        &&& spec_entries_distinct(self.slots(), self.counts())
        &&& spec_entries_parked(self.backend(), self.slots(), self.counts())
        &&& self.parked() == self.spec_parked_sum(false)
        &&& self.parked_bytes() == self.spec_parked_sum(true)
    }

    /// The other heap has the same per-CPU caches.
    pub open spec fn same_caches(&self, other: KernelHeap) -> bool {
        &&& other.enabled() == self.enabled()
        &&& other.slots() == self.slots()
        &&& other.counts() == self.counts()
        &&& other.hits() == self.hits()
        &&& other.misses() == self.misses()
        &&& other.parked() == self.parked()
        &&& other.parked_bytes() == self.parked_bytes()
        &&& other.served() == self.served()
    }

    /// Sums over slots that add the same in both heaps are the same.
    proof fn lemma_terms_same(&self, after: KernelHeap, bytes: bool)
        requires
            forall|i: int|
                0 <= i < PERCPU_SLOTS ==> #[trigger] after.spec_parked_term(bytes, i as usize)
                    == self.spec_parked_term(bytes, i as usize),
        ensures
            after.spec_parked_sum(bytes) == self.spec_parked_sum(bytes),
    {
        let numbers = spec_slot_numbers();
        assert forall|i: int| 0 <= i < numbers.len() implies self.spec_parked_terms(bytes)(
            #[trigger] numbers[i],
        ) == after.spec_parked_terms(bytes)(numbers[i]) by {
            assert(after.spec_parked_term(bytes, i as usize) == self.spec_parked_term(
                bytes,
                i as usize,
            ));
        }
        lemma_sum_same(numbers, self.spec_parked_terms(bytes), after.spec_parked_terms(bytes));
    }

    /// Sums over slots that add the same in both heaps but at slot `k`
    /// differ by what slot `k` adds.
    proof fn lemma_term_moved(&self, after: KernelHeap, bytes: bool, k: int)
        requires
            0 <= k < PERCPU_SLOTS,
            forall|i: int|
                0 <= i < PERCPU_SLOTS && i != k ==> #[trigger] after.spec_parked_term(
                    bytes,
                    i as usize,
                ) == self.spec_parked_term(bytes, i as usize),
        ensures
            after.spec_parked_sum(bytes) == self.spec_parked_sum(bytes) - self.spec_parked_term(
                bytes,
                k as usize,
            ) + after.spec_parked_term(bytes, k as usize),
    {
        let numbers = spec_slot_numbers();
        assert forall|i: int| 0 <= i < numbers.len() && i != k implies self.spec_parked_terms(
            bytes,
        )(#[trigger] numbers[i]) == after.spec_parked_terms(bytes)(numbers[i]) by {
            assert(after.spec_parked_term(bytes, i as usize) == self.spec_parked_term(
                bytes,
                i as usize,
            ));
        }
        lemma_sum_update(
            numbers,
            self.spec_parked_terms(bytes),
            after.spec_parked_terms(bytes),
            k,
        );
    }

    /// With the stacks as they were, and every block on them allocated as
    /// it was, with its size and its payload, the blocks on the stacks are
    /// parked still, and they and their bytes add up to what they did.
    proof fn lemma_entries_kept(&self, after: KernelHeap)
        requires
            self.intact(),
            after.backend().sound(),
            after.backend().memory().len() == self.backend().memory().len(),
            after.slots() == self.slots(),
            after.counts() == self.counts(),
            forall|t: int, k: int|
                0 <= t < PERCPU_STACKS && 0 <= k < self.counts()[t] ==> {
                    &&& after.backend().is_live(#[trigger] spec_entry(self.slots(), t, k))
                    &&& after.backend().payload_size(spec_entry(self.slots(), t, k))
                        == self.backend().payload_size(spec_entry(self.slots(), t, k))
                    &&& forall|at: int|
                        spec_entry(self.slots(), t, k) <= at < spec_entry(self.slots(), t, k)
                            + self.backend().payload_size(spec_entry(self.slots(), t, k))
                            ==> #[trigger] after.backend().memory()[at]
                            == self.backend().memory()[at]
                },
        ensures
            spec_entries_parked(after.backend(), after.slots(), after.counts()),
            after.spec_parked_sum(false) == self.spec_parked_sum(false),
            after.spec_parked_sum(true) == self.spec_parked_sum(true),
    {
        let slots = self.slots();
        assert forall|t: int, k: int|
            0 <= t < PERCPU_STACKS && 0 <= k < after.counts()[t] implies spec_parked_ok(
            after.backend().memory(),
            after.backend().page_end(),
            #[trigger] spec_entry(after.slots(), t, k) as int,
        ) by {
            let e = spec_entry(slots, t, k);
            assert(self.backend().is_live(e));
            assert(after.backend().is_live(e));
            self.backend().lemma_parked_agrees(after.backend(), e);
        }
        assert forall|i: int| 0 <= i < PERCPU_SLOTS implies #[trigger] after.spec_parked_term(
            true,
            i as usize,
        ) == self.spec_parked_term(true, i as usize) by {
            if spec_occupied(self.counts(), i) {
                let t = i / (PERCPU_CACHE_SIZE as int);
                let k = i % (PERCPU_CACHE_SIZE as int);
                assert(spec_entry(slots, t, k) == slots[i]);
                assert(after.backend().is_live(spec_entry(slots, t, k)));
            }
        }
        self.lemma_terms_same(after, true);
        self.lemma_terms_same(after, false);
    }

    /// A heap over a fresh arena of `pages` pages behind the null page,
    /// every byte of it `fill`, with empty per-CPU caches in use.
    pub fn new(pages: usize, fill: u8) -> (heap: KernelHeap)
        requires
            (pages + 1) * PAGE_SIZE <= usize::MAX,
        ensures
            heap.intact(),
            heap.enabled(),
            heap.backend().spec_fresh(pages, fill),
            forall|s: int| 0 <= s < PERCPU_STACKS ==> #[trigger] heap.counts()[s] == 0,
            forall|s: int| 0 <= s < PERCPU_STACKS ==> #[trigger] heap.hits()[s] == 0,
            forall|s: int| 0 <= s < PERCPU_STACKS ==> #[trigger] heap.misses()[s] == 0,
            heap.parked() == 0,
            heap.parked_bytes() == 0,
            heap.served() == 0,
            heap.peak() == 0,
    {
        let heap = KernelHeap {
            backend: Heap::new(pages, fill),
            slots: vec![0usize; PERCPU_SLOTS],
            counts: vec![0usize; PERCPU_STACKS],
            hits: vec![0u64; PERCPU_STACKS],
            misses: vec![0u64; PERCPU_STACKS],
            enabled: true,
            parked: 0,
            parked_bytes: 0,
            served: 0,
            peak: 0,
        };
        proof {
            heap.lemma_empty_sums();
        }
        heap
    }

    /// With every stack empty, nothing is parked.
    proof fn lemma_empty_sums(&self)
        requires
            self.counts().len() == PERCPU_STACKS,
            forall|s: int| 0 <= s < PERCPU_STACKS ==> #[trigger] self.counts()[s] == 0,
        ensures
            self.spec_parked_sum(false) == 0,
            self.spec_parked_sum(true) == 0,
    {
        let numbers = spec_slot_numbers();
        assert forall|i: int| 0 <= i < numbers.len() implies self.spec_parked_terms(true)(
            #[trigger] numbers[i],
        ) == (|a: usize| 0int)(numbers[i]) by {
            assert(self.counts()[i / (PERCPU_CACHE_SIZE as int)] == 0);
        }
        assert forall|i: int| 0 <= i < numbers.len() implies self.spec_parked_terms(false)(
            #[trigger] numbers[i],
        ) == (|a: usize| 0int)(numbers[i]) by {
            assert(self.counts()[i / (PERCPU_CACHE_SIZE as int)] == 0);
        }
        lemma_sum_same(numbers, self.spec_parked_terms(true), |a: usize| 0int);
        lemma_sum_same(numbers, self.spec_parked_terms(false), |a: usize| 0int);
        crate::heap::backend::laws::lemma_sum_zero(numbers);
    }

    /// Whether the heap is well formed.
    pub fn is_wf(&self) -> (ok: bool)
        ensures
            ok == self.wf(),
    {
        self.backend.is_wf() && self.slots.len() == PERCPU_SLOTS && self.counts.len()
            == PERCPU_STACKS && self.hits.len() == PERCPU_STACKS && self.misses.len()
            == PERCPU_STACKS
    }

    /// Puts the per-CPU caches to use.
    pub fn enable_percpu(&mut self)
        ensures
            final(self).enabled(),
            final(self).backend() == old(self).backend(),
            final(self).slots() == old(self).slots(),
            final(self).counts() == old(self).counts(),
            final(self).hits() == old(self).hits(),
            final(self).misses() == old(self).misses(),
            final(self).parked() == old(self).parked(),
            final(self).parked_bytes() == old(self).parked_bytes(),
            final(self).served() == old(self).served(),
            final(self).peak() == old(self).peak(),
    {
        self.enabled = true;
    }

    /// Takes the per-CPU caches out of use. What is on the stacks stays
    /// there until its CPU is flushed.
    pub fn disable_percpu(&mut self)
        ensures
            !final(self).enabled(),
            final(self).backend() == old(self).backend(),
            final(self).slots() == old(self).slots(),
            final(self).counts() == old(self).counts(),
            final(self).hits() == old(self).hits(),
            final(self).misses() == old(self).misses(),
            final(self).parked() == old(self).parked(),
            final(self).parked_bytes() == old(self).parked_bytes(),
            final(self).served() == old(self).served(),
            final(self).peak() == old(self).peak(),
    {
        self.enabled = false;
    }

    /// Every pointer that a caller holds in this heap is held in the
    /// other, with the same size and the same bytes in its payload.
    #[verifier::opaque]
    pub open spec fn keeps_held(&self, other: KernelHeap) -> bool {
        forall|p: usize| #[trigger]
            self.holds(p) ==> {
                &&& other.holds(p)
                &&& other.backend().payload_size(p) == self.backend().payload_size(p)
                &&& forall|at: int|
                    p <= at < p + self.backend().payload_size(p) ==> #[trigger] other.backend().memory()[at]
                        == self.backend().memory()[at]
            }
    }

    /// What one heap keeps of a second, and the second of a third, the
    /// first keeps of the third.
    pub proof fn lemma_keeps_held_trans(&self, mid: KernelHeap, after: KernelHeap)
        requires
            self.keeps_held(mid),
            mid.keeps_held(after),
        ensures
            self.keeps_held(after),
    {
        reveal(KernelHeap::keeps_held);
        assert forall|p: usize| #[trigger] self.holds(p) implies {
            &&& after.holds(p)
            &&& after.backend().payload_size(p) == self.backend().payload_size(p)
            &&& forall|at: int|
                p <= at < p + self.backend().payload_size(p) ==> #[trigger] after.backend().memory()[at]
                    == self.backend().memory()[at]
        } by {
            assert(mid.holds(p));
            assert forall|at: int|
                p <= at < p + self.backend().payload_size(p) implies #[trigger] after.backend().memory()[at]
                == self.backend().memory()[at] by {
                assert(mid.backend().memory()[at] == self.backend().memory()[at]);
            }
        }
    }

    /// Non-overlap at the front door. In a sound heap, the blocks of two
    /// different pointers that callers hold share no byte: one block ends
    /// before the header of the other begins.
    pub proof fn lemma_held_disjoint(&self, p: usize, q: usize)
        requires
            self.intact(),
            self.holds(p),
            self.holds(q),
            p != q,
        ensures
            p + self.backend().payload_size(p) <= q - HEADER_SIZE || q
                + self.backend().payload_size(q) <= p - HEADER_SIZE,
            p % HEAP_ALIGN == 0,
            q % HEAP_ALIGN == 0,
    {
        self.backend().lemma_live_disjoint(p, q);
        self.backend().lemma_live_aligned(p);
        self.backend().lemma_live_aligned(q);
    }

    /// The stack that `kmalloc(cpu, size)` looks at.
    pub open spec fn spec_stack_for(cpu: usize, size: int) -> int {
        spec_stack_of(cpu as int, spec_percpu_size_class(size).unwrap())
    }

    /// Every pointer that a caller holds in this heap, but `ptr`, is held
    /// in the other, with the same size and the same bytes in its payload.
    #[verifier::opaque]
    pub open spec fn keeps_held_but(&self, other: KernelHeap, ptr: usize) -> bool {
        forall|p: usize| #[trigger]
            self.holds(p) && p != ptr ==> {
                &&& other.holds(p)
                &&& other.backend().payload_size(p) == self.backend().payload_size(p)
                &&& forall|at: int|
                    p <= at < p + self.backend().payload_size(p) ==> #[trigger] other.backend().memory()[at]
                        == self.backend().memory()[at]
            }
    }

    /// A step of the backend that allocates `ptr`, with the per-CPU caches
    /// as they were: the heap is sound still, and the pointer is held.
    proof fn lemma_granted(&self, after: KernelHeap, ptr: usize)
        requires
            self.intact(),
            self.backend().grant_step(after.backend(), ptr),
            after.backend().intact(),
            after.slots() == self.slots(),
            after.counts() == self.counts(),
            after.hits().len() == PERCPU_STACKS,
            after.misses().len() == PERCPU_STACKS,
            after.parked() == self.parked(),
            after.parked_bytes() == self.parked_bytes(),
            after.backend().memory().len() == self.backend().memory().len(),
        ensures
            after.intact(),
            self.keeps_held(after),
            !self.holds(ptr),
            after.holds(ptr),
            forall|p: usize| p != ptr ==> after.holds(p) == self.holds(p),
    {
        reveal(KernelHeap::keeps_held);
        reveal(Heap::grant_step);
        reveal(Heap::keeps_live);
        let slots = self.slots();
        assert forall|t: int, k: int|
            0 <= t < PERCPU_STACKS && 0 <= k < after.counts()[t] implies after.backend().is_live(
            #[trigger] spec_entry(after.slots(), t, k),
        ) by {
            assert(self.backend().is_live(spec_entry(slots, t, k)));
        }
        if self.cached(ptr) {
            let (t, k) = choose|t: int, k: int|
                0 <= t < PERCPU_STACKS && 0 <= k < self.counts()[t] && #[trigger] spec_entry(
                    slots,
                    t,
                    k,
                ) == ptr;
            assert(self.backend().is_live(spec_entry(slots, t, k)));
        }
        assert forall|t: int, k: int|
            0 <= t < PERCPU_STACKS && 0 <= k < self.counts()[t] implies {
            &&& after.backend().is_live(#[trigger] spec_entry(self.slots(), t, k))
            &&& after.backend().payload_size(spec_entry(self.slots(), t, k))
                == self.backend().payload_size(spec_entry(self.slots(), t, k))
            &&& forall|at: int|
                spec_entry(self.slots(), t, k) <= at < spec_entry(self.slots(), t, k)
                    + self.backend().payload_size(spec_entry(self.slots(), t, k))
                    ==> #[trigger] after.backend().memory()[at] == self.backend().memory()[at]
        } by {
            let e = spec_entry(self.slots(), t, k);
            assert(self.backend().is_live(e));
        }
        self.lemma_entries_kept(after);
    }

    /// A step of the backend that allocates nothing and frees nothing,
    /// with the per-CPU caches as they were: the heap is sound still.
    proof fn lemma_quiet(&self, after: KernelHeap)
        requires
            self.intact(),
            self.backend().quiet_step(after.backend()),
            after.backend().intact(),
            after.slots() == self.slots(),
            after.counts() == self.counts(),
            after.hits().len() == PERCPU_STACKS,
            after.misses().len() == PERCPU_STACKS,
            after.parked() == self.parked(),
            after.parked_bytes() == self.parked_bytes(),
            after.backend().memory().len() == self.backend().memory().len(),
        ensures
            after.intact(),
            self.keeps_held(after),
            forall|p: usize| after.holds(p) == self.holds(p),
    {
        reveal(KernelHeap::keeps_held);
        reveal(Heap::quiet_step);
        reveal(Heap::keeps_live);
        let slots = self.slots();
        assert forall|t: int, k: int|
            0 <= t < PERCPU_STACKS && 0 <= k < after.counts()[t] implies after.backend().is_live(
            #[trigger] spec_entry(after.slots(), t, k),
        ) by {
            assert(self.backend().is_live(spec_entry(slots, t, k)));
        }
        assert forall|t: int, k: int|
            0 <= t < PERCPU_STACKS && 0 <= k < self.counts()[t] implies {
            &&& after.backend().is_live(#[trigger] spec_entry(self.slots(), t, k))
            &&& after.backend().payload_size(spec_entry(self.slots(), t, k))
                == self.backend().payload_size(spec_entry(self.slots(), t, k))
            &&& forall|at: int|
                spec_entry(self.slots(), t, k) <= at < spec_entry(self.slots(), t, k)
                    + self.backend().payload_size(spec_entry(self.slots(), t, k))
                    ==> #[trigger] after.backend().memory()[at] == self.backend().memory()[at]
        } by {
            let e = spec_entry(self.slots(), t, k);
            assert(self.backend().is_live(e));
        }
        self.lemma_entries_kept(after);
    }

    /// A step of the backend that frees the held pointer `ptr`, with the
    /// per-CPU caches as they were: the heap is sound still, and the
    /// pointer is held no more.
    proof fn lemma_released(&self, after: KernelHeap, ptr: usize)
        requires
            self.intact(),
            self.holds(ptr),
            self.backend().release_step(after.backend(), ptr),
            after.backend().intact(),
            after.slots() == self.slots(),
            after.counts() == self.counts(),
            after.hits().len() == PERCPU_STACKS,
            after.misses().len() == PERCPU_STACKS,
            after.parked() == self.parked(),
            after.parked_bytes() == self.parked_bytes(),
            after.backend().memory().len() == self.backend().memory().len(),
        ensures
            after.intact(),
            self.keeps_held_but(after, ptr),
            !after.holds(ptr),
            forall|p: usize| p != ptr ==> after.holds(p) == self.holds(p),
    {
        reveal(KernelHeap::keeps_held_but);
        reveal(Heap::release_step);
        reveal(Heap::keeps_live_but);
        let slots = self.slots();
        assert forall|t: int, k: int|
            0 <= t < PERCPU_STACKS && 0 <= k < after.counts()[t] implies after.backend().is_live(
            #[trigger] spec_entry(after.slots(), t, k),
        ) by {
            assert(self.backend().is_live(spec_entry(slots, t, k)));
        }
        assert forall|t: int, k: int|
            0 <= t < PERCPU_STACKS && 0 <= k < self.counts()[t] implies {
            &&& after.backend().is_live(#[trigger] spec_entry(self.slots(), t, k))
            &&& after.backend().payload_size(spec_entry(self.slots(), t, k))
                == self.backend().payload_size(spec_entry(self.slots(), t, k))
            &&& forall|at: int|
                spec_entry(self.slots(), t, k) <= at < spec_entry(self.slots(), t, k)
                    + self.backend().payload_size(spec_entry(self.slots(), t, k))
                    ==> #[trigger] after.backend().memory()[at] == self.backend().memory()[at]
        } by {
            let e = spec_entry(self.slots(), t, k);
            assert(self.backend().is_live(e));
            if e == ptr {
                assert(self.cached(e));
            }
        }
        self.lemma_entries_kept(after);
    }

    /// A pointer refused by the backend, with the per-CPU caches as they
    /// were: the heap is sound still, and holds what it held.
    proof fn lemma_refused(&self, after: KernelHeap)
        requires
            self.intact(),
            self.backend().only_corruption_counted(after.backend()),
            after.slots() == self.slots(),
            after.counts() == self.counts(),
            after.hits().len() == PERCPU_STACKS,
            after.misses().len() == PERCPU_STACKS,
            after.parked() == self.parked(),
            after.parked_bytes() == self.parked_bytes(),
            after.backend().memory().len() == self.backend().memory().len(),
        ensures
            after.intact(),
            self.keeps_held(after),
            forall|p: usize| after.holds(p) == self.holds(p),
    {
        reveal(KernelHeap::keeps_held);
        reveal(Heap::is_live);
        let slots = self.slots();
        assert forall|t: int, k: int|
            0 <= t < PERCPU_STACKS && 0 <= k < after.counts()[t] implies after.backend().is_live(
            #[trigger] spec_entry(after.slots(), t, k),
        ) by {
            assert(self.backend().is_live(spec_entry(slots, t, k)));
        }
        assert forall|t: int, k: int|
            0 <= t < PERCPU_STACKS && 0 <= k < self.counts()[t] implies {
            &&& after.backend().is_live(#[trigger] spec_entry(self.slots(), t, k))
            &&& after.backend().payload_size(spec_entry(self.slots(), t, k))
                == self.backend().payload_size(spec_entry(self.slots(), t, k))
            &&& forall|at: int|
                spec_entry(self.slots(), t, k) <= at < spec_entry(self.slots(), t, k)
                    + self.backend().payload_size(spec_entry(self.slots(), t, k))
                    ==> #[trigger] after.backend().memory()[at] == self.backend().memory()[at]
        } by {
            let e = spec_entry(self.slots(), t, k);
            assert(self.backend().is_live(e));
        }
        self.lemma_entries_kept(after);
    }

    /// In a sound heap no pointer on a stack is null.
    proof fn lemma_entry_not_null(&self, s: int, j: int)
        requires
            self.intact(),
            0 <= s < PERCPU_STACKS,
            0 <= j < self.counts()[s],
        ensures
            spec_entry(self.slots(), s, j) != 0,
    {
        reveal(Heap::is_live);
        assert(self.backend().is_live(spec_entry(self.slots(), s, j)));
    }

    /// The stack that `kfree(cpu, ptr)` looks at.
    pub open spec fn spec_stack_to(&self, cpu: usize, ptr: usize) -> int {
        spec_stack_of(
            cpu as int,
            spec_percpu_size_class(self.backend().payload_size(ptr)).unwrap(),
        )
    }

    /// The pointers that a flush of the CPU `cpu` gives to the backend, in
    /// the order in which it gives them: the stacks of the first `classes`
    /// classes, one after the other, each from its top down.
    pub open spec fn spec_flush_order(&self, cpu: int, classes: int) -> Seq<usize>
        decreases classes,
    {
        if classes <= 0 {
            Seq::empty()
        } else {
            self.spec_flush_order(cpu, classes - 1) + spec_stack_order(
                self.slots(),
                cpu * PERCPU_SIZE_CLASSES + classes - 1,
                0,
                spec_drained(self.counts()[cpu * PERCPU_SIZE_CLASSES + classes - 1]),
            )
        }
    }

    /// A heap with the same backend and the same stacks holds the same.
    proof fn lemma_keeps_held_same(&self, after: KernelHeap)
        requires
            after.backend() == self.backend(),
            after.slots() == self.slots(),
            after.counts() == self.counts(),
        ensures
            self.keeps_held(after),
    {
        reveal(KernelHeap::keeps_held);
    }

    /// The hits and the misses of the CPU `cpu`, each summed over its
    /// stacks and held at the top of the range; `None` for a `cpu` of
    /// `MAX_CPUS` or more.
    pub fn get_percpu_stats(&self, cpu: usize) -> (stats: Option<(u64, u64)>)
        requires
            self.wf(),
        ensures
            stats.is_some() == (cpu < MAX_CPUS),
            stats matches Some((hits, misses)) ==> {
                &&& hits == spec_sum_clamped(
                    self.hits(),
                    cpu * PERCPU_SIZE_CLASSES,
                    PERCPU_SIZE_CLASSES as int,
                )
                &&& misses == spec_sum_clamped(
                    self.misses(),
                    cpu * PERCPU_SIZE_CLASSES,
                    PERCPU_SIZE_CLASSES as int,
                )
            },
    {
        if cpu >= MAX_CPUS {
            return None;
        }
        let mut hits: u64 = 0;
        let mut misses: u64 = 0;
        let mut class: usize = 0;
        while class < PERCPU_SIZE_CLASSES
            invariant
                class <= PERCPU_SIZE_CLASSES,
                cpu < MAX_CPUS,
                self.hits@.len() == PERCPU_STACKS,
                self.misses@.len() == PERCPU_STACKS,
                hits == spec_sum_clamped(self.hits@, cpu * PERCPU_SIZE_CLASSES, class as int),
                misses == spec_sum_clamped(self.misses@, cpu * PERCPU_SIZE_CLASSES, class as int),
            decreases PERCPU_SIZE_CLASSES - class,
        {
            hits = hits.saturating_add(self.hits[cpu * PERCPU_SIZE_CLASSES + class]);
            misses = misses.saturating_add(self.misses[cpu * PERCPU_SIZE_CLASSES + class]);
            class = class + 1;
        }
        Some((hits, misses))
    }

    /// A step of the backend that moves the held pointer `ptr` to `q`,
    /// with the per-CPU caches as they were: the heap is sound still, `q`
    /// is held and `ptr` is held no more.
    proof fn lemma_moved(&self, after: KernelHeap, ptr: usize, q: usize)
        requires
            self.intact(),
            self.holds(ptr),
            self.backend().move_step(after.backend(), ptr, q),
            after.backend().intact(),
            after.slots() == self.slots(),
            after.counts() == self.counts(),
            after.hits().len() == PERCPU_STACKS,
            after.misses().len() == PERCPU_STACKS,
            after.parked() == self.parked(),
            after.parked_bytes() == self.parked_bytes(),
            after.backend().memory().len() == self.backend().memory().len(),
        ensures
            after.intact(),
            self.keeps_held_but(after, ptr),
            after.holds(q),
            !after.holds(ptr),
            forall|p: usize| p != ptr && p != q ==> after.holds(p) == self.holds(p),
    {
        reveal(KernelHeap::keeps_held_but);
        reveal(Heap::move_step);
        reveal(Heap::keeps_live_but);
        let slots = self.slots();
        assert forall|t: int, k: int|
            0 <= t < PERCPU_STACKS && 0 <= k < after.counts()[t] implies after.backend().is_live(
            #[trigger] spec_entry(after.slots(), t, k),
        ) by {
            assert(self.backend().is_live(spec_entry(slots, t, k)));
        }
        if self.cached(q) {
            let (t, k) = choose|t: int, k: int|
                0 <= t < PERCPU_STACKS && 0 <= k < self.counts()[t] && #[trigger] spec_entry(
                    slots,
                    t,
                    k,
                ) == q;
            assert(self.backend().is_live(spec_entry(slots, t, k)));
        }
        assert forall|t: int, k: int|
            0 <= t < PERCPU_STACKS && 0 <= k < self.counts()[t] implies {
            &&& after.backend().is_live(#[trigger] spec_entry(self.slots(), t, k))
            &&& after.backend().payload_size(spec_entry(self.slots(), t, k))
                == self.backend().payload_size(spec_entry(self.slots(), t, k))
            &&& forall|at: int|
                spec_entry(self.slots(), t, k) <= at < spec_entry(self.slots(), t, k)
                    + self.backend().payload_size(spec_entry(self.slots(), t, k))
                    ==> #[trigger] after.backend().memory()[at] == self.backend().memory()[at]
        } by {
            let e = spec_entry(self.slots(), t, k);
            assert(self.backend().is_live(e));
            if e == ptr {
                assert(self.cached(e));
            }
        }
        self.lemma_entries_kept(after);
    }

    /// Allocates `count * size` bytes and zeroes them, past the per-CPU
    /// caches: this is `kcalloc` of the backend.
    pub fn kcalloc(&mut self, count: usize, size: usize) -> (ptr: usize)
        requires
            old(self).wf(),
        ensures
            final(self).wf(),
            old(self).same_caches(*final(self)),
            final(self).peak() == spec_peak(old(self).peak(), final(self).stats().total_allocated),
            count * size == 0 || count * size > MAX_ALLOC ==> {
                &&& ptr == 0
                &&& old(self).backend().same_books(final(self).backend())
                &&& final(self).backend().memory() == old(self).backend().memory()
            },
            ptr != 0 ==> {
                &&& ptr % HEAP_ALIGN == 0
                &&& spec_free_ok(
                    final(self).backend().memory(),
                    final(self).backend().page_end(),
                    ptr as int,
                )
                &&& final(self).backend().payload_size(ptr) >= count * size + CANARY_SIZE
                &&& forall|at: int|
                    ptr <= at < ptr + count * size ==> #[trigger] final(self).backend().memory()[at]
                        == 0
            },
            0 < count * size <= MAX_ALLOC ==> final(self).backend().stats().alloc_count
                == spec_bump(old(self).backend().stats().alloc_count),
            final(self).backend().stats().free_count == old(self).backend().stats().free_count,
            final(self).backend().stats().coalesce_count == old(self).backend().stats().coalesce_count,
            final(self).backend().slow_frees() == old(self).backend().slow_frees(),
            old(self).backend().intact() ==> {
                &&& final(self).backend().intact()
                &&& count * size <= usize::MAX ==> ptr == old(self).backend().spec_kmalloc(
                    (count * size) as usize,
                )
                &&& final(self).backend().stats().corruption_count == old(self).backend().stats().corruption_count
                &&& ptr != 0 ==> old(self).backend().grant_step(final(self).backend(), ptr)
                &&& ptr != 0 ==> final(self).backend().failed() == old(self).backend().failed()
                &&& ptr == 0 ==> old(self).backend().quiet_step(final(self).backend())
                &&& ptr == 0 ==> final(self).backend().failed() == old(self).backend().failed()
                    + if 0 < count * size <= MAX_ALLOC {
                    1int
                } else {
                    0int
                }
            },
            old(self).intact() ==> {
                &&& final(self).intact()
                &&& old(self).keeps_held(*final(self))
                &&& ptr != 0 ==> !old(self).holds(ptr) && final(self).holds(ptr)
                &&& forall|p: usize| p != ptr ==> final(self).holds(p) == old(self).holds(p)
            },
    {
        let ptr: usize = self.backend.kcalloc(count, size);
        self.note_peak();
        proof {
            if old(self).intact() {
                if ptr != 0 {
                    old(self).lemma_granted(*self, ptr);
                } else {
                    old(self).lemma_quiet(*self);
                }
            }
        }
        ptr
    }

    /// Changes the size of the allocation at `ptr`, past the per-CPU
    /// caches: this is `krealloc` of the backend.
    pub fn krealloc(&mut self, ptr: usize, new_size: usize) -> (q: usize)
        requires
            old(self).wf(),
        ensures
            final(self).wf(),
            old(self).same_caches(*final(self)),
            final(self).peak() == spec_peak(old(self).peak(), final(self).stats().total_allocated),
            new_size == 0 ==> q == 0,
            new_size > MAX_ALLOC && !(ptr != 0 && spec_free_ok(
                old(self).backend().memory(),
                old(self).backend().page_end(),
                ptr as int,
            ) && Heap::spec_in_place(old(self).backend().payload_size(ptr), new_size as int))
                ==> q == 0,
            q != 0 ==> q % HEAP_ALIGN == 0,
            ptr == 0 && (new_size == 0 || new_size > MAX_ALLOC) ==> {
                &&& old(self).backend().same_books(final(self).backend())
                &&& final(self).backend().memory() == old(self).backend().memory()
            },
            ptr == 0 && old(self).backend().intact() ==> {
                &&& final(self).backend().intact()
                &&& q == old(self).backend().spec_kmalloc(new_size)
                &&& q != 0 ==> old(self).backend().grant_step(final(self).backend(), q)
                &&& q == 0 ==> old(self).backend().quiet_step(final(self).backend())
            },
            ptr != 0 && !spec_free_ok(
                old(self).backend().memory(),
                old(self).backend().page_end(),
                ptr as int,
            ) ==> {
                &&& q == 0
                &&& old(self).backend().only_corruption_counted(final(self).backend())
            },
            ptr == 0 ==> old(self).backend().spec_allocated(final(self).backend(), new_size, q),
            ptr != 0 && new_size == 0 ==> q == 0,
            ptr != 0 && new_size == 0 ==> old(self).backend().spec_freed(final(self).backend(), ptr),
            ptr != 0 && new_size == 0 && old(self).backend().intact() && old(self).backend().is_live(ptr) && spec_free_ok(
                old(self).backend().memory(),
                old(self).backend().page_end(),
                ptr as int,
            ) ==> {
                &&& final(self).backend().intact()
                &&& old(self).backend().release_step(final(self).backend(), ptr)
            },
            ptr != 0 && spec_free_ok(
                old(self).backend().memory(),
                old(self).backend().page_end(),
                ptr as int,
            ) && Heap::spec_in_place(old(self).backend().payload_size(ptr), new_size as int) ==> {
                &&& q == ptr
                &&& old(self).backend().same_books(final(self).backend())
                &&& final(self).backend().memory() == old(self).backend().memory()
            },
            ptr != 0 && new_size != 0 && old(self).backend().intact() && old(self).backend().is_live(ptr) && spec_free_ok(
                old(self).backend().memory(),
                old(self).backend().page_end(),
                ptr as int,
            ) && !Heap::spec_in_place(old(self).backend().payload_size(ptr), new_size as int) ==> {
                &&& final(self).backend().intact()
                &&& q == old(self).backend().spec_kmalloc(new_size)
                &&& q == 0 ==> old(self).backend().quiet_step(final(self).backend())
                &&& q != 0 ==> {
                    &&& old(self).backend().move_step(final(self).backend(), ptr, q)
                    &&& q % HEAP_ALIGN == 0
                    &&& final(self).backend().payload_size(q) >= new_size + CANARY_SIZE
                    &&& forall|i: int|
                        0 <= i < crate::heap::backend::resize::spec_copied(
                            old(self).backend().payload_size(ptr),
                            new_size as int,
                        ) ==> #[trigger] final(self).backend().memory()[q + i] == old(self).backend().memory()[ptr + i]
                }
            },
            old(self).intact() && old(self).holds(ptr) && spec_free_ok(
                old(self).backend().memory(),
                old(self).backend().page_end(),
                ptr as int,
            ) ==> {
                &&& final(self).intact()
                &&& old(self).keeps_held_but(*final(self), ptr)
                &&& q != 0 ==> final(self).holds(q)
                &&& final(self).holds(ptr) == (q == ptr || (q == 0 && new_size != 0))
                &&& forall|p: usize|
                    p != ptr && p != q ==> final(self).holds(p) == old(self).holds(p)
            },
    {
        let q: usize = self.backend.krealloc(ptr, new_size);
        self.note_peak();
        proof {
            if old(self).intact() && old(self).holds(ptr) && spec_free_ok(
                old(self).backend().memory(),
                old(self).backend().page_end(),
                ptr as int,
            ) {
                reveal(Heap::is_live);
                if new_size == 0 {
                    old(self).lemma_released(*self, ptr);
                } else if Heap::spec_in_place(
                    old(self).backend().payload_size(ptr),
                    new_size as int,
                ) {
                    old(self).lemma_unchanged(*self);
                    reveal(KernelHeap::keeps_held);
                    reveal(KernelHeap::keeps_held_but);
                } else if q == 0 {
                    old(self).lemma_quiet(*self);
                    reveal(KernelHeap::keeps_held);
                    reveal(KernelHeap::keeps_held_but);
                } else {
                    old(self).lemma_moved(*self, ptr, q);
                }
            }
        }
        q
    }

    /// A heap whose backend has the same books and the same arena, and
    /// whose per-CPU caches are the same, is sound if this one is, and
    /// holds what this one holds.
    proof fn lemma_unchanged(&self, after: KernelHeap)
        requires
            self.intact(),
            self.backend().same_books(after.backend()),
            after.backend().memory() == self.backend().memory(),
            after.slots() == self.slots(),
            after.counts() == self.counts(),
            after.hits().len() == PERCPU_STACKS,
            after.misses().len() == PERCPU_STACKS,
            after.parked() == self.parked(),
            after.parked_bytes() == self.parked_bytes(),
            after.backend().memory().len() == self.backend().memory().len(),
        ensures
            after.intact(),
            self.keeps_held(after),
            forall|p: usize| after.holds(p) == self.holds(p),
    {
        reveal(KernelHeap::keeps_held);
        reveal(Heap::keeps_live);
        self.backend().lemma_keeps_live_same(after.backend());
        let slots = self.slots();
        assert forall|t: int, k: int|
            0 <= t < PERCPU_STACKS && 0 <= k < after.counts()[t] implies after.backend().is_live(
            #[trigger] spec_entry(after.slots(), t, k),
        ) by {
            assert(self.backend().is_live(spec_entry(slots, t, k)));
        }
        assert forall|t: int, k: int|
            0 <= t < PERCPU_STACKS && 0 <= k < self.counts()[t] implies {
            &&& after.backend().is_live(#[trigger] spec_entry(self.slots(), t, k))
            &&& after.backend().payload_size(spec_entry(self.slots(), t, k))
                == self.backend().payload_size(spec_entry(self.slots(), t, k))
            &&& forall|at: int|
                spec_entry(self.slots(), t, k) <= at < spec_entry(self.slots(), t, k)
                    + self.backend().payload_size(spec_entry(self.slots(), t, k))
                    ==> #[trigger] after.backend().memory()[at] == self.backend().memory()[at]
        } by {
            let e = spec_entry(self.slots(), t, k);
            assert(self.backend().is_live(e));
        }
        self.lemma_entries_kept(after);
    }

    /// Whether one of the first `n` slots holds `ptr`.
    pub open spec fn spec_within(&self, n: int, ptr: usize) -> bool {
        exists|i: int|
            0 <= i < n && #[trigger] spec_occupied(self.counts(), i) && self.slots()[i] == ptr
    }

    /// What the block at `a` adds to the count of the parked blocks among
    /// the first `n` slots, or to their bytes.
    pub open spec fn spec_block_term(&self, bytes: bool, n: int, a: usize) -> int {
        if a + HEADER_SIZE <= usize::MAX && self.backend().is_live((a + HEADER_SIZE) as usize)
            && self.spec_within(n, (a + HEADER_SIZE) as usize) {
            if bytes {
                self.backend().payload_size((a + HEADER_SIZE) as usize)
            } else {
                1
            }
        } else {
            0
        }
    }

    /// What each block adds.
    pub open spec fn spec_block_terms(&self, bytes: bool, n: int) -> spec_fn(usize) -> int {
        |a: usize| self.spec_block_term(bytes, n, a)
    }

    /// A pointer is on a stack if and only if a slot holds it.
    proof fn lemma_cached_within(&self, ptr: usize)
        requires
            self.wf(),
            spec_shaped(self.slots(), self.counts()),
        ensures
            self.cached(ptr) == self.spec_within(PERCPU_SLOTS as int, ptr),
    {
        if self.cached(ptr) {
            let (s, j) = choose|s: int, j: int|
                0 <= s < PERCPU_STACKS && 0 <= j < self.counts()[s] && #[trigger] spec_entry(
                    self.slots(),
                    s,
                    j,
                ) == ptr;
            assert(self.counts()[s] <= PERCPU_CACHE_SIZE);
            let i = s * PERCPU_CACHE_SIZE + j;
            assert(spec_occupied(self.counts(), i));
        }
        if self.spec_within(PERCPU_SLOTS as int, ptr) {
            let i = choose|i: int|
                0 <= i < PERCPU_SLOTS && #[trigger] spec_occupied(self.counts(), i)
                    && self.slots()[i] == ptr;
            let s = i / (PERCPU_CACHE_SIZE as int);
            let j = i % (PERCPU_CACHE_SIZE as int);
            assert(spec_entry(self.slots(), s, j) == ptr);
        }
    }

    /// The blocks on the stacks, summed slot by slot, are the blocks of
    /// the global list that are on a stack, summed block by block.
    proof fn lemma_parked_in_blocks(&self, bytes: bool, n: int)
        requires
            self.wf(),
            spec_shaped(self.slots(), self.counts()),
            self.backend().sound(),
            spec_entries_live(self.backend(), self.slots(), self.counts()),
            spec_entries_distinct(self.slots(), self.counts()),
            0 <= n <= PERCPU_SLOTS,
        ensures
            spec_sum(spec_slot_numbers().take(n), self.spec_parked_terms(bytes)) == spec_sum(
                self.backend().blocks(),
                self.spec_block_terms(bytes, n),
            ),
        decreases n,
    {
        let blocks = self.backend().blocks();
        let numbers = spec_slot_numbers();
        if n == 0 {
            assert forall|i: int| 0 <= i < blocks.len() implies self.spec_block_terms(bytes, 0)(
                #[trigger] blocks[i],
            ) == (|a: usize| 0int)(blocks[i]) by {}
            lemma_sum_same(blocks, self.spec_block_terms(bytes, 0), |a: usize| 0int);
            crate::heap::backend::laws::lemma_sum_zero(blocks);
            assert(numbers.take(0).len() == 0);
        } else {
            let i = n - 1;
            self.lemma_parked_in_blocks(bytes, i);
            assert(numbers.take(n).drop_last() =~= numbers.take(i));
            assert(numbers.take(n).last() == i as usize);
            let s = i / (PERCPU_CACHE_SIZE as int);
            let j = i % (PERCPU_CACHE_SIZE as int);
            if spec_occupied(self.counts(), i) {
                let e = self.slots()[i];
                assert(spec_entry(self.slots(), s, j) == e);
                assert(self.backend().is_live(e));
                reveal(Heap::is_live);
                let a = (e - HEADER_SIZE) as usize;
                let m = self.backend().index_of(a);
                lemma_blocks_distinct(
                    self.backend().memory(),
                    self.backend().page_end(),
                    self.backend().first(),
                    blocks,
                );
                assert(!self.spec_within(i, e)) by {
                    if self.spec_within(i, e) {
                        let u = choose|u: int|
                            0 <= u < i && #[trigger] spec_occupied(self.counts(), u)
                                && self.slots()[u] == e;
                        let t = u / (PERCPU_CACHE_SIZE as int);
                        let k = u % (PERCPU_CACHE_SIZE as int);
                        assert(spec_entry(self.slots(), t, k) == spec_entry(self.slots(), s, j));
                    }
                }
                assert(self.spec_within(n, e)) by {
                    assert(spec_occupied(self.counts(), i) && self.slots()[i] == e);
                }
                assert forall|q: int| 0 <= q < blocks.len() && q != m implies self.spec_block_terms(
                    bytes,
                    i,
                )(#[trigger] blocks[q]) == self.spec_block_terms(bytes, n)(blocks[q]) by {
                    let b = blocks[q];
                    if b + HEADER_SIZE <= usize::MAX {
                        let p = (b + HEADER_SIZE) as usize;
                        assert(p != e);
                        if self.spec_within(n, p) {
                            let u = choose|u: int|
                                0 <= u < n && #[trigger] spec_occupied(self.counts(), u)
                                    && self.slots()[u] == p;
                            assert(u < i);
                        }
                        if self.spec_within(i, p) {
                            let u = choose|u: int|
                                0 <= u < i && #[trigger] spec_occupied(self.counts(), u)
                                    && self.slots()[u] == p;
                            assert(u < n);
                        }
                    }
                }
                lemma_sum_update(
                    blocks,
                    self.spec_block_terms(bytes, i),
                    self.spec_block_terms(bytes, n),
                    m,
                );
            } else {
                assert forall|q: int| 0 <= q < blocks.len() implies self.spec_block_terms(
                    bytes,
                    i,
                )(#[trigger] blocks[q]) == self.spec_block_terms(bytes, n)(blocks[q]) by {
                    let b = blocks[q];
                    if b + HEADER_SIZE <= usize::MAX {
                        let p = (b + HEADER_SIZE) as usize;
                        if self.spec_within(n, p) {
                            let u = choose|u: int|
                                0 <= u < n && #[trigger] spec_occupied(self.counts(), u)
                                    && self.slots()[u] == p;
                            assert(u < i);
                        }
                        if self.spec_within(i, p) {
                            let u = choose|u: int|
                                0 <= u < i && #[trigger] spec_occupied(self.counts(), u)
                                    && self.slots()[u] == p;
                            assert(u < n);
                        }
                    }
                }
                lemma_sum_same(
                    blocks,
                    self.spec_block_terms(bytes, i),
                    self.spec_block_terms(bytes, n),
                );
            }
        }
    }

    /// The parked blocks are among the allocated blocks of the backend:
    /// their bytes, and with them the payload of any block that a caller
    /// holds, are within the bytes that the backend has in use, and there
    /// are no more of them than slots.
    proof fn lemma_parked_bounded(&self, ptr: usize)
        requires
            self.wf(),
            spec_shaped(self.slots(), self.counts()),
            self.backend().sound(),
            spec_entries_live(self.backend(), self.slots(), self.counts()),
            spec_entries_distinct(self.slots(), self.counts()),
        ensures
            0 <= self.spec_parked_sum(true) <= self.backend().stats().total_allocated,
            0 <= self.spec_parked_sum(false) <= self.backend().live_count(),
            self.holds(ptr) ==> self.spec_parked_sum(true) + self.backend().payload_size(ptr)
                <= self.backend().stats().total_allocated,
            self.holds(ptr) ==> self.spec_parked_sum(false) + 1 <= self.backend().live_count(),
    {
        let blocks = self.backend().blocks();
        let mem = self.backend().memory();
        let n = PERCPU_SLOTS as int;
        assert(spec_slot_numbers().take(n) =~= spec_slot_numbers());
        self.lemma_parked_in_blocks(true, n);
        self.lemma_parked_in_blocks(false, n);
        self.lemma_cached_within(ptr);
        reveal(Heap::is_live);
        let held = self.holds(ptr);
        let a = (ptr - HEADER_SIZE) as usize;
        let more_bytes = |b: usize|
            self.spec_block_term(true, n, b) + if held && b == a {
                self.backend().payload_size(ptr)
            } else {
                0
            };
        let more_ones = |b: usize|
            self.spec_block_term(false, n, b) + if held && b == a {
                1int
            } else {
                0int
            };
        assert forall|q: int| 0 <= q < blocks.len() implies more_bytes(#[trigger] blocks[q]) <= (
        |b: usize| spec_allocated_bytes(mem, b))(blocks[q]) by {}
        assert forall|q: int| 0 <= q < blocks.len() implies more_ones(#[trigger] blocks[q]) <= (
        |b: usize| spec_allocated_one(mem, b))(blocks[q]) by {}
        crate::heap::model::lemma_sum_le(blocks, more_bytes, |b: usize| spec_allocated_bytes(mem, b));
        crate::heap::model::lemma_sum_le(blocks, more_ones, |b: usize| spec_allocated_one(mem, b));
        crate::heap::model::lemma_sum_at_least(blocks, self.spec_block_terms(true, n), 0);
        crate::heap::model::lemma_sum_at_least(blocks, self.spec_block_terms(false, n), 0);
        if held {
            let m = self.backend().index_of(a);
            lemma_blocks_distinct(mem, self.backend().page_end(), self.backend().first(), blocks);
            lemma_sum_update(blocks, self.spec_block_terms(true, n), more_bytes, m);
            lemma_sum_update(blocks, self.spec_block_terms(false, n), more_ones, m);
        } else {
            lemma_sum_same(blocks, self.spec_block_terms(true, n), more_bytes);
            lemma_sum_same(blocks, self.spec_block_terms(false, n), more_ones);
        }
    }

    /// Accounting at the front door. When no caller holds a pointer, no
    /// bytes are in use, whatever is parked on the stacks; and if no
    /// request was turned down for want of memory, as many frees as
    /// allocations have been counted, as long as the counter of
    /// allocations has not reached the top of its range.
    pub proof fn lemma_accounting_balanced(&self)
        requires
            self.intact(),
            forall|p: usize| !self.holds(p),
        ensures
            self.stats().total_allocated == 0,
            self.backend().failed() == 0 && self.stats().alloc_count < u64::MAX
                ==> self.stats().alloc_count == self.stats().free_count,
    {
        let blocks = self.backend().blocks();
        let mem = self.backend().memory();
        let n = PERCPU_SLOTS as int;
        assert(spec_slot_numbers().take(n) =~= spec_slot_numbers());
        self.lemma_parked_in_blocks(true, n);
        self.lemma_parked_in_blocks(false, n);
        reveal(Heap::is_live);
        self.backend().lemma_pages_bounded();
        assert forall|q: int| 0 <= q < blocks.len() implies self.spec_block_terms(true, n)(
            #[trigger] blocks[q],
        ) == (|b: usize| spec_allocated_bytes(mem, b))(blocks[q]) by {
            let b = blocks[q];
            assert(crate::heap::model::spec_member_ok(mem, self.backend().page_end(), blocks, q));
            if spec_allocated_bytes(mem, b) != 0 {
                let p = (b + HEADER_SIZE) as usize;
                assert(blocks.contains(b));
                assert(self.backend().is_live(p));
                assert(!self.holds(p));
                self.lemma_cached_within(p);
            }
        }
        assert forall|q: int| 0 <= q < blocks.len() implies self.spec_block_terms(false, n)(
            #[trigger] blocks[q],
        ) == (|b: usize| spec_allocated_one(mem, b))(blocks[q]) by {
            let b = blocks[q];
            assert(crate::heap::model::spec_member_ok(mem, self.backend().page_end(), blocks, q));
            if spec_allocated_one(mem, b) != 0 {
                let p = (b + HEADER_SIZE) as usize;
                assert(blocks.contains(b));
                assert(self.backend().is_live(p));
                assert(!self.holds(p));
                self.lemma_cached_within(p);
            }
        }
        lemma_sum_same(blocks, self.spec_block_terms(true, n), |b: usize| spec_allocated_bytes(mem, b));
        lemma_sum_same(blocks, self.spec_block_terms(false, n), |b: usize| spec_allocated_one(mem, b));
    }

    /// The pointer on top of stack `s`.
    pub open spec fn spec_top(&self, s: int) -> usize {
        spec_entry(self.slots(), s, self.counts()[s] - 1)
    }

    /// Whether `pop(s, need)` takes the pointer on top of stack `s`: if
    /// the stack holds one, and it is the payload of a parked block of
    /// `need` bytes at least.
    pub open spec fn spec_takes(&self, s: int, need: int) -> bool {
        &&& 0 < self.counts()[s] <= PERCPU_CACHE_SIZE
        &&& spec_parked_ok(
            self.backend().memory(),
            self.backend().page_end(),
            self.spec_top(s) as int,
        )
        &&& self.backend().payload_size(self.spec_top(s)) >= need
    }

    /// The other heap is this one with the pointer on top of stack `s`
    /// taken into use: off the stack, its canary back in place and the
    /// payload in front of it as it was, counted as a hit of the stack and
    /// as an allocation, its bytes in use again.
    pub open spec fn spec_taken(&self, after: KernelHeap, s: int) -> bool {
        &&& after.enabled() == self.enabled()
        &&& self.backend().restamped(after.backend(), self.spec_top(s))
        &&& self.backend().payload_kept(after.backend(), self.spec_top(s))
        &&& spec_free_ok(
            after.backend().memory(),
            after.backend().page_end(),
            self.spec_top(s) as int,
        )
        &&& after.slots() == self.slots()
        &&& after.counts() == self.counts().update(s, (self.counts()[s] - 1) as usize)
        &&& after.hits() == self.hits().update(s, spec_bump(self.hits()[s]))
        &&& after.misses() == self.misses()
        &&& after.parked() == spec_less(self.parked(), 1)
        &&& after.parked_bytes() == spec_less(
            self.parked_bytes(),
            self.backend().payload_size(self.spec_top(s)) as usize,
        )
        &&& after.served() == spec_bump(self.served())
        &&& after.peak() == spec_peak(self.peak(), after.stats().total_allocated)
    }

    /// The other heap is this one with a miss counted on stack `s`.
    pub open spec fn spec_missed(&self, after: KernelHeap, s: int) -> bool {
        &&& after.enabled() == self.enabled()
        &&& after.backend() == self.backend()
        &&& after.slots() == self.slots()
        &&& after.counts() == self.counts()
        &&& after.hits() == self.hits()
        &&& after.misses() == self.misses().update(s, spec_bump(self.misses()[s]))
        &&& after.parked() == self.parked()
        &&& after.parked_bytes() == self.parked_bytes()
        &&& after.served() == self.served()
        &&& after.peak() == self.peak()
    }

    /// The pointer on top of a stack taken into use: the heap is sound
    /// still, the pointer is held, and it is counted as an allocation of
    /// its payload.
    proof fn lemma_taken(&self, after: KernelHeap, s: int)
        requires
            self.intact(),
            0 <= s < PERCPU_STACKS,
            self.counts()[s] > 0,
            self.spec_taken(after, s),
            after.hits().len() == PERCPU_STACKS,
            after.misses().len() == PERCPU_STACKS,
        ensures
            after.intact(),
            self.keeps_held(after),
            !self.holds(self.spec_top(s)),
            after.holds(self.spec_top(s)),
            forall|p: usize| p != self.spec_top(s) ==> after.holds(p) == self.holds(p),
            after.stats().total_allocated == self.stats().total_allocated
                + self.backend().payload_size(self.spec_top(s)),
            after.stats().alloc_count == spec_bump(self.stats().alloc_count),
            after.stats().free_count == self.stats().free_count,
    {
        reveal(KernelHeap::keeps_held);
        let slots = self.slots();
        let c = self.counts()[s] as int;
        let top = self.spec_top(s);
        let k = s * PERCPU_CACHE_SIZE + c - 1;
        assert(self.backend().is_live(top));
        assert(self.counts()[s] <= PERCPU_CACHE_SIZE);
        self.backend().lemma_restamped(after.backend(), top);
        reveal(Heap::keeps_live_but);
        assert forall|p: usize| after.cached(p) == (self.cached(p) && p != top) by {
            if after.cached(p) {
                let (t, j) = choose|t: int, j: int|
                    0 <= t < PERCPU_STACKS && 0 <= j < after.counts()[t] && #[trigger] spec_entry(
                        slots,
                        t,
                        j,
                    ) == p;
                assert(spec_entry(slots, t, j) != spec_entry(slots, s, c - 1));
            }
            if self.cached(p) && p != top {
                let (t, j) = choose|t: int, j: int|
                    0 <= t < PERCPU_STACKS && 0 <= j < self.counts()[t] && #[trigger] spec_entry(
                        slots,
                        t,
                        j,
                    ) == p;
                assert(0 <= j < after.counts()[t]);
            }
        }
        assert forall|t: int, j: int|
            0 <= t < PERCPU_STACKS && 0 <= j < after.counts()[t] implies spec_parked_ok(
            after.backend().memory(),
            after.backend().page_end(),
            #[trigger] spec_entry(after.slots(), t, j) as int,
        ) && after.backend().is_live(spec_entry(after.slots(), t, j)) by {
            let e = spec_entry(slots, t, j);
            assert(e != spec_entry(slots, s, c - 1));
            assert(self.backend().is_live(e));
            self.backend().lemma_parked_agrees(after.backend(), e);
        }
        assert forall|i: int| 0 <= i < PERCPU_SLOTS && i != k implies (
        #[trigger] after.spec_parked_term(true, i as usize) == self.spec_parked_term(
            true,
            i as usize,
        ) && after.spec_parked_term(false, i as usize) == self.spec_parked_term(
            false,
            i as usize,
        )) by {
            if spec_occupied(self.counts(), i) {
                let t = i / (PERCPU_CACHE_SIZE as int);
                let j = i % (PERCPU_CACHE_SIZE as int);
                assert(spec_entry(slots, t, j) == slots[i]);
                assert(self.backend().is_live(spec_entry(slots, t, j)));
            }
        }
        assert(spec_occupied(self.counts(), k));
        assert(!spec_occupied(after.counts(), k));
        assert(slots[k] == top);
        self.lemma_term_moved(after, true, k);
        self.lemma_term_moved(after, false, k);
        lemma_sum_term(spec_slot_numbers(), self.spec_parked_terms(true), k);
        lemma_sum_term(spec_slot_numbers(), self.spec_parked_terms(false), k);
        self.lemma_parked_bounded(top);
    }

    /// Takes the pointer on top of stack `s` into use, if the stack holds
    /// one and it is the payload of a parked block of `need` bytes at
    /// least, and counts a hit; else counts a miss, and leaves the stack
    /// as it is.
    pub fn pop(&mut self, s: usize, need: usize) -> (top: Option<usize>)
        requires
            old(self).wf(),
            s < PERCPU_STACKS,
        ensures
            final(self).wf(),
            old(self).spec_takes(s as int, need as int) ==> top == Some(
                old(self).spec_top(s as int),
            ) && old(self).spec_taken(*final(self), s as int),
            !old(self).spec_takes(s as int, need as int) ==> top.is_none() && old(self).spec_missed(*final(self), s as int),
            top matches Some(ptr) ==> spec_free_ok(
                final(self).backend().memory(),
                final(self).backend().page_end(),
                ptr as int,
            ) && final(self).backend().payload_size(ptr) >= need,
            old(self).intact() ==> {
                &&& final(self).intact()
                &&& old(self).keeps_held(*final(self))
                &&& top matches Some(ptr) ==> !old(self).holds(ptr) && final(self).holds(ptr)
                &&& forall|p: usize| top != Some(p) ==> final(self).holds(p) == old(self).holds(p)
                &&& top matches Some(ptr) ==> {
                    &&& final(self).stats().total_allocated == old(self).stats().total_allocated
                        + final(self).backend().payload_size(ptr)
                    &&& final(self).stats().alloc_count == spec_bump(
                        old(self).stats().alloc_count,
                    )
                    &&& final(self).stats().free_count == old(self).stats().free_count
                }
            },
    {
        let count: usize = self.counts[s];
        if count > 0 && count <= PERCPU_CACHE_SIZE {
            let ptr: usize = self.slots[s * PERCPU_CACHE_SIZE + count - 1];
            let size: usize = self.backend.unpark(ptr, need);
            if size != 0 {
                self.counts[s] = count - 1;
                let hits: u64 = self.hits[s];
                self.hits[s] = if hits < u64::MAX {
                    hits + 1
                } else {
                    hits
                };
                self.parked = if self.parked >= 1 {
                    self.parked - 1
                } else {
                    0
                };
                self.parked_bytes = if self.parked_bytes >= size {
                    self.parked_bytes - size
                } else {
                    0
                };
                self.served = if self.served < u64::MAX {
                    self.served + 1
                } else {
                    self.served
                };
                self.note_peak();
                proof {
                    if old(self).intact() {
                        old(self).lemma_taken(*self, s as int);
                    }
                }
                return Some(ptr);
            }
        }
        let misses: u64 = self.misses[s];
        self.misses[s] = if misses < u64::MAX {
            misses + 1
        } else {
            misses
        };
        proof {
            if old(self).intact() {
                old(self).lemma_same_parking(*self);
            }
        }
        None
    }

    /// A heap with the same backend, stacks and parking is sound if this
    /// one is, and holds what this one holds.
    proof fn lemma_same_parking(&self, after: KernelHeap)
        requires
            self.intact(),
            after.backend() == self.backend(),
            after.slots() == self.slots(),
            after.counts() == self.counts(),
            after.parked() == self.parked(),
            after.parked_bytes() == self.parked_bytes(),
            after.hits().len() == PERCPU_STACKS,
            after.misses().len() == PERCPU_STACKS,
        ensures
            after.intact(),
            self.keeps_held(after),
            forall|p: usize| after.holds(p) == self.holds(p),
    {
        reveal(KernelHeap::keeps_held);
        assert forall|i: int| 0 <= i < PERCPU_SLOTS implies (#[trigger] after.spec_parked_term(
            true,
            i as usize,
        ) == self.spec_parked_term(true, i as usize)) by {}
        assert forall|i: int| 0 <= i < PERCPU_SLOTS implies (#[trigger] after.spec_parked_term(
            false,
            i as usize,
        ) == self.spec_parked_term(false, i as usize)) by {}
        self.lemma_terms_same(after, true);
        self.lemma_terms_same(after, false);
    }

    /// Moves the peak of the bytes in use up to the bytes in use.
    fn note_peak(&mut self)
        requires
            old(self).wf(),
        ensures
            final(self).wf(),
            final(self).backend() == old(self).backend(),
            old(self).same_caches(*final(self)),
            final(self).peak() == spec_peak(old(self).peak(), old(self).stats().total_allocated),
    {
        let total: usize = self.backend.get_stats().total_allocated;
        let in_use: usize = if total >= self.parked_bytes {
            total - self.parked_bytes
        } else {
            0
        };
        if in_use > self.peak {
            self.peak = in_use;
        }
    }

    /// Whether `push(s, ptr)` parks `ptr` on stack `s`: if the stack has
    /// room and `ptr` passes the checks of `kfree`.
    pub open spec fn spec_parks(&self, s: int, ptr: usize) -> bool {
        &&& self.counts()[s] < PERCPU_CACHE_SIZE
        &&& spec_free_ok(self.backend().memory(), self.backend().page_end(), ptr as int)
    }

    /// The other heap is this one with the block at `ptr` parked on stack
    /// `s`: its payload poisoned, the mark in the place of its canary, the
    /// pointer on top of the stack, counted as a free of its payload.
    pub open spec fn spec_parked_on(&self, after: KernelHeap, s: int, ptr: usize) -> bool {
        &&& after.enabled() == self.enabled()
        &&& self.backend().restamped(after.backend(), ptr)
        &&& spec_parked_ok(after.backend().memory(), after.backend().page_end(), ptr as int)
        &&& after.backend().poisoned(ptr)
        &&& after.slots() == self.slots().update(s * PERCPU_CACHE_SIZE + self.counts()[s], ptr)
        &&& after.counts() == self.counts().update(s, (self.counts()[s] + 1) as usize)
        &&& after.hits() == self.hits()
        &&& after.misses() == self.misses()
        &&& after.parked() == spec_more(self.parked(), 1)
        &&& after.parked_bytes() == spec_more(
            self.parked_bytes(),
            self.backend().payload_size(ptr) as usize,
        )
        &&& after.served() == self.served()
        &&& after.peak() == self.peak()
    }

    /// A held block parked on a stack with room: the heap is sound still,
    /// the pointer is held no more, and it is counted as a free of its
    /// payload.
    proof fn lemma_parked(&self, after: KernelHeap, s: int, ptr: usize)
        requires
            self.intact(),
            self.holds(ptr),
            0 <= s < PERCPU_STACKS,
            self.spec_parks(s, ptr),
            self.spec_parked_on(after, s, ptr),
            after.hits().len() == PERCPU_STACKS,
            after.misses().len() == PERCPU_STACKS,
        ensures
            after.intact(),
            self.keeps_held_but(after, ptr),
            !after.holds(ptr),
            forall|p: usize| p != ptr ==> after.holds(p) == self.holds(p),
            after.stats().total_allocated == self.stats().total_allocated
                - self.backend().payload_size(ptr),
            after.stats().free_count == spec_bump(self.stats().free_count),
            after.stats().alloc_count == self.stats().alloc_count,
    {
        reveal(KernelHeap::keeps_held_but);
        let slots = self.slots();
        let c = self.counts()[s] as int;
        let k = s * PERCPU_CACHE_SIZE + c;
        self.backend().lemma_restamped(after.backend(), ptr);
        self.lemma_parked_bounded(ptr);
        reveal(Heap::keeps_live_but);
        assert forall|t: int, j: int|
            0 <= t < PERCPU_STACKS && 0 <= j < after.counts()[t] implies #[trigger] spec_entry(
            after.slots(),
            t,
            j,
        ) == if t == s && j == c {
            ptr
        } else {
            spec_entry(slots, t, j)
        } by {
            assert(self.counts()[t] <= PERCPU_CACHE_SIZE);
        }
        assert(spec_entry(after.slots(), s, c) == ptr);
        assert forall|t: int, j: int|
            0 <= t < PERCPU_STACKS && 0 <= j < after.counts()[t] implies after.backend().is_live(
            #[trigger] spec_entry(after.slots(), t, j),
        ) && spec_parked_ok(
            after.backend().memory(),
            after.backend().page_end(),
            spec_entry(after.slots(), t, j) as int,
        ) by {
            if !(t == s && j == c) {
                let e = spec_entry(slots, t, j);
                assert(self.backend().is_live(e));
                assert(self.cached(e));
                self.backend().lemma_parked_agrees(after.backend(), e);
            }
        }
        assert forall|t: int, j: int, u: int, l: int|
            0 <= t < PERCPU_STACKS && 0 <= j < after.counts()[t] && 0 <= u < PERCPU_STACKS && 0
                <= l < after.counts()[u] && (t != u || j != l) implies #[trigger] spec_entry(
            after.slots(),
            t,
            j,
        ) != #[trigger] spec_entry(after.slots(), u, l) by {
            if !(t == s && j == c) && !(u == s && l == c) {
                assert(spec_entry(slots, t, j) != spec_entry(slots, u, l));
            } else if !(t == s && j == c) {
                assert(self.cached(spec_entry(slots, t, j)));
            } else {
                assert(self.cached(spec_entry(slots, u, l)));
            }
        }
        assert forall|p: usize| p != ptr implies after.cached(p) == self.cached(p) by {
            if after.cached(p) {
                let (t, j) = choose|t: int, j: int|
                    0 <= t < PERCPU_STACKS && 0 <= j < after.counts()[t] && #[trigger] spec_entry(
                        after.slots(),
                        t,
                        j,
                    ) == p;
                assert(spec_entry(slots, t, j) == p);
            }
            if self.cached(p) {
                let (t, j) = choose|t: int, j: int|
                    0 <= t < PERCPU_STACKS && 0 <= j < self.counts()[t] && #[trigger] spec_entry(
                        slots,
                        t,
                        j,
                    ) == p;
                assert(spec_entry(after.slots(), t, j) == p);
            }
        }
        assert(after.cached(ptr));
        assert forall|i: int| 0 <= i < PERCPU_SLOTS && i != k implies (
        #[trigger] after.spec_parked_term(true, i as usize) == self.spec_parked_term(
            true,
            i as usize,
        ) && after.spec_parked_term(false, i as usize) == self.spec_parked_term(
            false,
            i as usize,
        )) by {
            if spec_occupied(self.counts(), i) {
                let t = i / (PERCPU_CACHE_SIZE as int);
                let j = i % (PERCPU_CACHE_SIZE as int);
                assert(spec_entry(slots, t, j) == slots[i]);
                assert(self.backend().is_live(spec_entry(slots, t, j)));
            }
        }
        assert(!spec_occupied(self.counts(), k));
        assert(spec_occupied(after.counts(), k));
        assert(after.slots()[k] == ptr);
        self.lemma_term_moved(after, true, k);
        self.lemma_term_moved(after, false, k);
        self.lemma_count_within_bytes();
    }

    /// Parks the block at `ptr`, which is not null, on stack `s`, if the
    /// stack has room and `ptr` passes the checks of `kfree`. Else the
    /// pointer goes to the backend: to be freed, where the stack is full,
    /// and to be counted as corruption, where it does not pass.
    pub fn push(&mut self, s: usize, ptr: usize)
        requires
            old(self).wf(),
            s < PERCPU_STACKS,
            ptr != 0,
        ensures
            final(self).wf(),
            old(self).spec_parks(s as int, ptr) ==> old(self).spec_parked_on(
                *final(self),
                s as int,
                ptr,
            ),
            !old(self).spec_parks(s as int, ptr) ==> old(self).spec_backend_freed(
                *final(self),
                ptr,
            ),
            old(self).intact() && old(self).holds(ptr) ==> {
                &&& final(self).intact()
                &&& old(self).keeps_held_but(*final(self), ptr)
                &&& forall|p: usize| p != ptr ==> final(self).holds(p) == old(self).holds(p)
                &&& final(self).holds(ptr) == !spec_free_ok(
                    old(self).backend().memory(),
                    old(self).backend().page_end(),
                    ptr as int,
                )
                &&& spec_free_ok(
                    old(self).backend().memory(),
                    old(self).backend().page_end(),
                    ptr as int,
                ) ==> {
                    &&& final(self).stats().total_allocated == old(self).stats().total_allocated
                        - old(self).backend().payload_size(ptr)
                    &&& final(self).stats().free_count == spec_bump(old(self).stats().free_count)
                    &&& final(self).stats().alloc_count == old(self).stats().alloc_count
                }
            },
    {
        let count: usize = self.counts[s];
        if count < PERCPU_CACHE_SIZE {
            let size: usize = self.backend.park(ptr);
            if size != 0 {
                self.slots[s * PERCPU_CACHE_SIZE + count] = ptr;
                self.counts[s] = count + 1;
                self.parked = if self.parked < usize::MAX {
                    self.parked + 1
                } else {
                    self.parked
                };
                self.parked_bytes = if size <= usize::MAX - self.parked_bytes {
                    self.parked_bytes + size
                } else {
                    usize::MAX
                };
                proof {
                    if old(self).intact() && old(self).holds(ptr) {
                        old(self).lemma_parked(*self, s as int, ptr);
                    }
                }
                return ;
            }
        }
        self.free_to_backend(ptr);
    }

    /// What `kfree` of the backend does to this heap for the pointer
    /// `ptr`, which is not null: the per-CPU caches stay as they are, and
    /// the backend is as `Heap::kfree` leaves it.
    pub open spec fn spec_backend_freed(&self, after: KernelHeap, ptr: usize) -> bool {
        &&& self.same_caches(after)
        &&& after.peak() == self.peak()
        &&& self.backend().spec_freed(after.backend(), ptr)
    }

    /// Gives `ptr`, which is not null, to the backend to be freed.
    fn free_to_backend(&mut self, ptr: usize)
        requires
            old(self).wf(),
            ptr != 0,
        ensures
            final(self).wf(),
            old(self).spec_backend_freed(*final(self), ptr),
            old(self).intact() && old(self).holds(ptr) ==> {
                &&& final(self).intact()
                &&& old(self).keeps_held_but(*final(self), ptr)
                &&& forall|p: usize| p != ptr ==> final(self).holds(p) == old(self).holds(p)
                &&& final(self).holds(ptr) == !spec_free_ok(
                    old(self).backend().memory(),
                    old(self).backend().page_end(),
                    ptr as int,
                )
                &&& spec_free_ok(
                    old(self).backend().memory(),
                    old(self).backend().page_end(),
                    ptr as int,
                ) ==> {
                    &&& final(self).stats().total_allocated == old(self).stats().total_allocated
                        - old(self).backend().payload_size(ptr)
                    &&& final(self).stats().free_count == spec_bump(old(self).stats().free_count)
                    &&& final(self).stats().alloc_count == old(self).stats().alloc_count
                }
            },
            old(self).intact() && !spec_free_ok(
                old(self).backend().memory(),
                old(self).backend().page_end(),
                ptr as int,
            ) ==> {
                &&& final(self).intact()
                &&& old(self).keeps_held(*final(self))
                &&& forall|p: usize| final(self).holds(p) == old(self).holds(p)
            },
    {
        self.backend.kfree(ptr);
        proof {
            if old(self).intact() {
                if spec_free_ok(
                    old(self).backend().memory(),
                    old(self).backend().page_end(),
                    ptr as int,
                ) {
                    if old(self).holds(ptr) {
                        old(self).lemma_released(*self, ptr);
                        old(self).lemma_parked_bounded(ptr);
                        reveal(Heap::release_step);
                    }
                } else {
                    old(self).lemma_refused(*self);
                    reveal(KernelHeap::keeps_held);
                    reveal(KernelHeap::keeps_held_but);
                }
            }
        }
    }

    /// Whether `kmalloc(cpu, size)` is served from a per-CPU stack: if
    /// the caches are in use, the size has a per-CPU class, and the
    /// pointer on top of the stack of that class of this CPU is the
    /// payload of a parked block with room for the request and the canary
    /// behind it.
    pub open spec fn spec_hit(&self, cpu: usize, size: usize) -> bool {
        &&& self.enabled()
        &&& spec_percpu_size_class(size as int) matches Some(k) && self.spec_takes(
            spec_stack_of(cpu as int, k),
            size + CANARY_SIZE,
        )
    }

    /// Allocates `size` bytes on behalf of the CPU with identity `cpu` and
    /// returns the address of the payload, null on failure.
    ///
    /// With the per-CPU caches in use and a size that has a per-CPU class,
    /// the block on top of the stack of that class of this CPU is taken
    /// into use, if it is a parked block with room for the request and
    /// the canary behind it. In every other case the backend serves the
    /// request. Either way the block that is returned has room for the
    /// request and its canary in place, and is counted as an allocation.
    pub fn kmalloc(&mut self, cpu: usize, size: usize) -> (ptr: usize)
        requires
            old(self).wf(),
        ensures
            final(self).wf(),
            final(self).enabled() == old(self).enabled(),
            size == 0 || size > MAX_ALLOC ==> {
                &&& ptr == 0
                &&& old(self).same_caches(*final(self))
                &&& old(self).backend().same_books(final(self).backend())
                &&& final(self).backend().memory() == old(self).backend().memory()
            },
            ptr != 0 ==> {
                &&& ptr % HEAP_ALIGN == 0
                &&& spec_free_ok(
                    final(self).backend().memory(),
                    final(self).backend().page_end(),
                    ptr as int,
                )
                &&& final(self).backend().payload_size(ptr) >= size + CANARY_SIZE
            },
            old(self).spec_hit(cpu, size) ==> {
                &&& ptr == old(self).spec_top(Self::spec_stack_for(cpu, size as int))
                &&& old(self).spec_taken(*final(self), Self::spec_stack_for(cpu, size as int))
            },
            !old(self).spec_hit(cpu, size) ==> {
                &&& final(self).slots() == old(self).slots()
                &&& final(self).counts() == old(self).counts()
                &&& final(self).hits() == old(self).hits()
                &&& final(self).misses() == if old(self).enabled() && spec_percpu_size_class(
                    size as int,
                ).is_some() {
                    old(self).misses().update(
                        Self::spec_stack_for(cpu, size as int),
                        spec_bump(old(self).misses()[Self::spec_stack_for(cpu, size as int)]),
                    )
                } else {
                    old(self).misses()
                }
                &&& final(self).parked() == old(self).parked()
                &&& final(self).parked_bytes() == old(self).parked_bytes()
                &&& final(self).served() == old(self).served()
                &&& final(self).peak() == spec_peak(
                    old(self).peak(),
                    final(self).stats().total_allocated,
                )
                &&& old(self).backend().spec_allocated(final(self).backend(), size, ptr)
            },
            old(self).intact() ==> {
                &&& final(self).intact()
                &&& old(self).keeps_held(*final(self))
                &&& ptr != 0 ==> !old(self).holds(ptr) && final(self).holds(ptr)
                &&& forall|p: usize| p != ptr ==> final(self).holds(p) == old(self).holds(p)
                &&& ptr != 0 ==> {
                    &&& final(self).stats().total_allocated == old(self).stats().total_allocated
                        + final(self).backend().payload_size(ptr)
                    &&& final(self).stats().alloc_count == spec_bump(
                        old(self).stats().alloc_count,
                    )
                    &&& final(self).stats().free_count == old(self).stats().free_count
                    &&& final(self).stats().peak_allocated == spec_peak(
                        old(self).stats().peak_allocated,
                        final(self).stats().total_allocated,
                    )
                }
            },
    {
        if self.enabled {
            match get_percpu_size_class(size) {
                Some(class) => {
                    let s: usize = (cpu % MAX_CPUS) * PERCPU_SIZE_CLASSES + class;
                    match self.pop(s, size + CANARY_SIZE) {
                        Some(ptr) => {
                            return ptr;
                        },
                        None => {},
                    }
                },
                None => {},
            }
        }
        let ghost missed = *self;
        let ptr: usize = self.backend.kmalloc(size);
        self.note_peak();
        proof {
            if old(self).intact() {
                if ptr != 0 {
                    missed.lemma_granted(*self, ptr);
                    missed.lemma_parked_bounded(ptr);
                    self.lemma_parked_bounded(ptr);
                    reveal(Heap::grant_step);
                } else {
                    missed.lemma_quiet(*self);
                }
                if missed.backend() == old(self).backend() && missed.counts() == old(self).counts() && missed.slots() == old(self).slots() {
                    old(self).lemma_keeps_held_same(missed);
                }
                old(self).lemma_keeps_held_trans(missed, *self);
            }
        }
        ptr
    }

    /// Whether `kfree(cpu, ptr)` parks the block at `ptr` on a per-CPU
    /// stack: with the per-CPU caches in use, if `ptr` passes the checks
    /// of `kfree`, the size of its payload has a per-CPU class, and the
    /// stack of that class of this CPU has room.
    pub open spec fn spec_cacheable(&self, cpu: usize, ptr: usize) -> bool {
        &&& self.enabled()
        &&& spec_free_ok(self.backend().memory(), self.backend().page_end(), ptr as int)
        &&& spec_percpu_size_class(self.backend().payload_size(ptr)) matches Some(k)
            && self.counts()[spec_stack_of(cpu as int, k)] < PERCPU_CACHE_SIZE
    }

    /// Frees the block whose payload is at `ptr`, on behalf of the CPU with
    /// identity `cpu`.
    ///
    /// Null is ignored. A pointer that fails the checks of `kfree` (one
    /// that is parked already among them) is counted as corruption, and
    /// nothing else changes. With the per-CPU caches in use, a block
    /// whose size has a per-CPU class is parked on the stack of that class
    /// of this CPU, if that has room. In every other case the backend
    /// frees it. Either way a block that is freed is counted as a free,
    /// and its payload is taken from the bytes in use.
    pub fn kfree(&mut self, cpu: usize, ptr: usize)
        requires
            old(self).wf(),
        ensures
            final(self).wf(),
            final(self).enabled() == old(self).enabled(),
            final(self).hits() == old(self).hits(),
            final(self).misses() == old(self).misses(),
            final(self).served() == old(self).served(),
            final(self).peak() == old(self).peak(),
            ptr == 0 ==> {
                &&& final(self).backend() == old(self).backend()
                &&& old(self).same_caches(*final(self))
            },
            ptr != 0 && !spec_free_ok(
                old(self).backend().memory(),
                old(self).backend().page_end(),
                ptr as int,
            ) ==> {
                &&& old(self).backend().only_corruption_counted(final(self).backend())
                &&& old(self).same_caches(*final(self))
            },
            ptr != 0 && old(self).spec_cacheable(cpu, ptr) ==> old(self).spec_parked_on(
                *final(self),
                old(self).spec_stack_to(cpu, ptr),
                ptr,
            ),
            ptr != 0 && !old(self).spec_cacheable(cpu, ptr) ==> old(self).spec_backend_freed(
                *final(self),
                ptr,
            ),
            old(self).intact() && old(self).cached(ptr) ==> {
                &&& old(self).backend().only_corruption_counted(final(self).backend())
                &&& old(self).same_caches(*final(self))
            },
            old(self).intact() && (ptr == 0 || !spec_free_ok(
                old(self).backend().memory(),
                old(self).backend().page_end(),
                ptr as int,
            )) ==> {
                &&& final(self).intact()
                &&& old(self).keeps_held(*final(self))
                &&& forall|p: usize| final(self).holds(p) == old(self).holds(p)
                &&& final(self).stats().total_allocated == old(self).stats().total_allocated
                &&& final(self).stats().free_count == old(self).stats().free_count
                &&& final(self).stats().alloc_count == old(self).stats().alloc_count
            },
            old(self).intact() && old(self).holds(ptr) ==> {
                &&& final(self).intact()
                &&& old(self).keeps_held_but(*final(self), ptr)
                &&& forall|p: usize| p != ptr ==> final(self).holds(p) == old(self).holds(p)
                &&& final(self).holds(ptr) == !spec_free_ok(
                    old(self).backend().memory(),
                    old(self).backend().page_end(),
                    ptr as int,
                )
                &&& spec_free_ok(
                    old(self).backend().memory(),
                    old(self).backend().page_end(),
                    ptr as int,
                ) ==> {
                    &&& final(self).stats().total_allocated == old(self).stats().total_allocated
                        - old(self).backend().payload_size(ptr)
                    &&& final(self).stats().free_count == spec_bump(old(self).stats().free_count)
                    &&& final(self).stats().alloc_count == old(self).stats().alloc_count
                }
            },
    {
        if ptr == 0 {
            proof {
                reveal(Heap::is_live);
                if old(self).intact() {
                    old(self).lemma_same_parking(*self);
                }
            }
            return ;
        }
        proof {
            if old(self).intact() && old(self).cached(ptr) {
                old(self).lemma_parked_refused(ptr);
            }
        }
        if self.enabled {
            match self.backend.check_allocated(ptr) {
                Some((_, h)) => {
                    if h.size <= 4096 {
                        match get_percpu_size_class(h.size as usize) {
                            Some(class) => {
                                let s: usize = (cpu % MAX_CPUS) * PERCPU_SIZE_CLASSES + class;
                                self.push(s, ptr);
                                return ;
                            },
                            None => {},
                        }
                    }
                },
                None => {},
            }
        }
        self.free_to_backend(ptr);
        proof {
            if old(self).intact() && !spec_free_ok(
                old(self).backend().memory(),
                old(self).backend().page_end(),
                ptr as int,
            ) {
                old(self).backend().lemma_corruption_counted(self.backend());
            }
        }
    }

    /// Double free at the front door. In a sound heap a pointer that is
    /// on a stack fails the checks of `kfree`: a second free of it is
    /// counted as corruption.
    pub proof fn lemma_parked_refused(&self, ptr: usize)
        requires
            self.intact(),
            self.cached(ptr),
        ensures
            !spec_free_ok(self.backend().memory(), self.backend().page_end(), ptr as int),
    {
        let (s, j) = choose|s: int, j: int|
            0 <= s < PERCPU_STACKS && 0 <= j < self.counts()[s] && #[trigger] spec_entry(
                self.slots(),
                s,
                j,
            ) == ptr;
        assert(spec_parked_ok(
            self.backend().memory(),
            self.backend().page_end(),
            spec_entry(self.slots(), s, j) as int,
        ));
    }

    /// In a sound backend there are no more allocated blocks than bytes in
    /// use.
    proof fn lemma_count_within_bytes(&self)
        requires
            self.backend().sound(),
        ensures
            self.backend().live_count() <= self.backend().stats().total_allocated,
    {
        let blocks = self.backend().blocks();
        let mem = self.backend().memory();
        assert forall|q: int| 0 <= q < blocks.len() implies (|b: usize| spec_allocated_one(mem, b))(
            #[trigger] blocks[q],
        ) <= (|b: usize| spec_allocated_bytes(mem, b))(blocks[q]) by {
            assert(crate::heap::model::spec_member_ok(mem, self.backend().page_end(), blocks, q));
        }
        crate::heap::model::lemma_sum_le(
            blocks,
            |b: usize| spec_allocated_one(mem, b),
            |b: usize| spec_allocated_bytes(mem, b),
        );
    }

    /// The heap `cur` is this intact heap in the course of a flush that
    /// has given the pointers `done` to the backend so far: its stacks are
    /// those of this heap, each cut down from the top, `done` are the
    /// pointers that were cut off, each of them was taken out of its
    /// parking and freed by the backend, and what callers hold is as it
    /// was.
    pub open spec fn flushing(&self, cur: KernelHeap, done: Seq<usize>) -> bool {
        &&& cur.intact()
        &&& cur.slots() == self.slots()
        &&& forall|t: int| 0 <= t < PERCPU_STACKS ==> #[trigger] cur.counts()[t] <= self.counts()[t]
        &&& self.backend().freed_all(cur.backend(), done)
        &&& self.backend().spec_refusals(done) == 0
        &&& cur.parked() == self.parked() - done.len()
        &&& cur.parked_bytes() == self.parked_bytes() - self.backend().spec_payloads(done)
        &&& cur.served() == self.served()
        &&& cur.peak() == self.peak()
        &&& forall|t: int, k: int|
            0 <= t < PERCPU_STACKS && 0 <= k < cur.counts()[t] ==> !done.contains(
                #[trigger] spec_entry(self.slots(), t, k),
            )
        &&& forall|t: int, k: int|
            0 <= t < PERCPU_STACKS && cur.counts()[t] <= k < self.counts()[t] ==> done.contains(
                #[trigger] spec_entry(self.slots(), t, k),
            )
        &&& self.keeps_held(cur)
    }

    /// At its start a flush has given nothing to the backend.
    proof fn lemma_flush_start(&self)
        requires
            self.intact(),
        ensures
            self.flushing(*self, Seq::<usize>::empty()),
    {
        self.backend().lemma_freed_none();
        self.lemma_keeps_held_same(*self);
    }

    /// A heap with the same backend, the same stacks and the same parking
    /// is as far in the flush.
    proof fn lemma_flush_same(&self, cur: KernelHeap, next: KernelHeap, done: Seq<usize>)
        requires
            self.flushing(cur, done),
            next.backend() == cur.backend(),
            next.slots() == cur.slots(),
            next.counts() == cur.counts(),
            next.parked() == cur.parked(),
            next.parked_bytes() == cur.parked_bytes(),
            next.served() == cur.served(),
            next.peak() == cur.peak(),
            next.hits().len() == PERCPU_STACKS,
            next.misses().len() == PERCPU_STACKS,
        ensures
            self.flushing(next, done),
    {
        cur.lemma_same_parking(next);
        self.lemma_keeps_held_trans(cur, next);
    }

    /// One step of a flush: the block on top of stack `s` is taken out of
    /// its parking and freed by the backend. `unparked` is the backend
    /// between the two.
    proof fn lemma_flush_step(
        &self,
        before: KernelHeap,
        unparked: Heap,
        after: KernelHeap,
        done: Seq<usize>,
        s: int,
    )
        requires
            self.intact(),
            self.flushing(before, done),
            0 <= s < PERCPU_STACKS,
            before.counts()[s] > 0,
            before.backend().restamped(unparked, before.spec_top(s)),
            spec_free_ok(unparked.memory(), unparked.page_end(), before.spec_top(s) as int),
            unparked.spec_freed(after.backend(), before.spec_top(s)),
            after.slots() == before.slots(),
            after.counts() == before.counts().update(s, (before.counts()[s] - 1) as usize),
            after.parked() == spec_less(before.parked(), 1),
            after.parked_bytes() == spec_less(
                before.parked_bytes(),
                before.backend().payload_size(before.spec_top(s)) as usize,
            ),
            after.served() == before.served(),
            after.peak() == before.peak(),
            after.hits().len() == PERCPU_STACKS,
            after.misses().len() == PERCPU_STACKS,
            after.backend().wf(),
        ensures
            self.flushing(after, done.push(before.spec_top(s))),
    {
        let slots = self.slots();
        let c = before.counts()[s] as int;
        let y = before.spec_top(s);
        let k = s * PERCPU_CACHE_SIZE + c - 1;
        let more = done.push(y);
        assert(y == spec_entry(slots, s, c - 1));
        assert(before.counts()[s] <= self.counts()[s]);
        assert(self.backend().is_live(y));
        assert(before.backend().is_live(spec_entry(before.slots(), s, c - 1)));
        assert(spec_parked_ok(
            before.backend().memory(),
            before.backend().page_end(),
            spec_entry(before.slots(), s, c - 1) as int,
        ));
        assert(spec_parked_ok(
            self.backend().memory(),
            self.backend().page_end(),
            spec_entry(slots, s, c - 1) as int,
        ));
        assert(!done.contains(y));
        before.backend().lemma_restamped(unparked, y);
        self.backend().lemma_freed_more(before.backend(), unparked, after.backend(), done, y);
        assert(more.drop_last() =~= done);
        assert(more.last() == y);
        assert(before.backend().payload_size(y) == self.backend().payload_size(y)) by {
            reveal(Heap::freed_all);
        }
        assert forall|x: usize| more.contains(x) == (done.contains(x) || x == y) by {
            if done.contains(x) {
                let i = choose|i: int| 0 <= i < done.len() && done[i] == x;
                assert(more[i] == x);
            }
            if x == y {
                assert(more[more.len() - 1] == x);
            }
            if more.contains(x) {
                let i = choose|i: int| 0 <= i < more.len() && more[i] == x;
                if i < done.len() {
                    assert(done[i] == x);
                }
            }
        }
        assert forall|t: int, j: int|
            0 <= t < PERCPU_STACKS && 0 <= j < after.counts()[t] implies !more.contains(
            #[trigger] spec_entry(slots, t, j),
        ) by {
            assert(!done.contains(spec_entry(slots, t, j)));
            assert(spec_entry(slots, t, j) != spec_entry(slots, s, c - 1));
        }
        assert forall|t: int, j: int|
            0 <= t < PERCPU_STACKS && after.counts()[t] <= j < self.counts()[t] implies more.contains(
            #[trigger] spec_entry(slots, t, j),
        ) by {
            if !(t == s && j == c - 1) {
                assert(done.contains(spec_entry(slots, t, j)));
            }
        }
        before.lemma_flush_intact(unparked, after, s);
        self.lemma_keeps_held_trans(before, after);
    }

    /// One step of a flush leaves the heap sound, and what callers hold
    /// as it was.
    proof fn lemma_flush_intact(&self, unparked: Heap, after: KernelHeap, s: int)
        requires
            self.intact(),
            0 <= s < PERCPU_STACKS,
            self.counts()[s] > 0,
            self.backend().restamped(unparked, self.spec_top(s)),
            spec_free_ok(unparked.memory(), unparked.page_end(), self.spec_top(s) as int),
            unparked.spec_freed(after.backend(), self.spec_top(s)),
            after.slots() == self.slots(),
            after.counts() == self.counts().update(s, (self.counts()[s] - 1) as usize),
            after.parked() == spec_less(self.parked(), 1),
            after.parked_bytes() == spec_less(
                self.parked_bytes(),
                self.backend().payload_size(self.spec_top(s)) as usize,
            ),
            after.hits().len() == PERCPU_STACKS,
            after.misses().len() == PERCPU_STACKS,
            after.backend().wf(),
        ensures
            after.intact(),
            self.keeps_held(after),
            after.parked() == self.parked() - 1,
            after.parked_bytes() == self.parked_bytes() - self.backend().payload_size(
                self.spec_top(s),
            ),
    {
        reveal(KernelHeap::keeps_held);
        let slots = self.slots();
        let c = self.counts()[s] as int;
        let y = self.spec_top(s);
        let k = s * PERCPU_CACHE_SIZE + c - 1;
        assert(self.counts()[s] <= PERCPU_CACHE_SIZE);
        assert(self.backend().is_live(spec_entry(slots, s, c - 1)));
        self.backend().lemma_restamped(unparked, y);
        reveal(Heap::release_step);
        reveal(Heap::keeps_live_but);
        assert(self.cached(y));
        assert forall|t: int, j: int|
            0 <= t < PERCPU_STACKS && 0 <= j < after.counts()[t] implies {
            &&& after.backend().is_live(#[trigger] spec_entry(after.slots(), t, j))
            &&& after.backend().payload_size(spec_entry(after.slots(), t, j))
                == self.backend().payload_size(spec_entry(after.slots(), t, j))
            &&& spec_parked_ok(
                after.backend().memory(),
                after.backend().page_end(),
                spec_entry(after.slots(), t, j) as int,
            )
        } by {
            let e = spec_entry(slots, t, j);
            assert(e != spec_entry(slots, s, c - 1));
            assert(self.backend().is_live(e));
            assert(unparked.is_live(e));
            assert(after.backend().is_live(e));
            assert forall|at: int| e <= at < e + self.backend().payload_size(e) implies #[trigger] after.backend().memory()[at]
                == self.backend().memory()[at] by {
                assert(unparked.memory()[at] == self.backend().memory()[at]);
            }
            self.backend().lemma_parked_agrees(after.backend(), e);
        }
        assert forall|p: usize| #[trigger] self.holds(p) implies {
            &&& after.holds(p)
            &&& after.backend().payload_size(p) == self.backend().payload_size(p)
            &&& forall|at: int|
                p <= at < p + self.backend().payload_size(p) ==> #[trigger] after.backend().memory()[at]
                    == self.backend().memory()[at]
        } by {
            assert(p != y);
            assert(unparked.is_live(p));
            assert forall|at: int| p <= at < p + self.backend().payload_size(p) implies #[trigger] after.backend().memory()[at]
                == self.backend().memory()[at] by {
                assert(unparked.memory()[at] == self.backend().memory()[at]);
            }
            if after.cached(p) {
                let (t, j) = choose|t: int, j: int|
                    0 <= t < PERCPU_STACKS && 0 <= j < after.counts()[t] && #[trigger] spec_entry(
                        after.slots(),
                        t,
                        j,
                    ) == p;
                assert(spec_entry(slots, t, j) == p);
                assert(self.cached(p));
            }
        }
        assert forall|i: int| 0 <= i < PERCPU_SLOTS && i != k implies (
        #[trigger] after.spec_parked_term(true, i as usize) == self.spec_parked_term(
            true,
            i as usize,
        ) && after.spec_parked_term(false, i as usize) == self.spec_parked_term(
            false,
            i as usize,
        )) by {
            if spec_occupied(self.counts(), i) {
                let t = i / (PERCPU_CACHE_SIZE as int);
                let j = i % (PERCPU_CACHE_SIZE as int);
                assert(spec_entry(slots, t, j) == slots[i]);
                assert(spec_entry(after.slots(), t, j) == slots[i]);
                assert(0 <= j < after.counts()[t]);
            }
        }
        assert(spec_occupied(self.counts(), k));
        assert(!spec_occupied(after.counts(), k));
        assert(slots[k] == y);
        self.lemma_term_moved(after, true, k);
        self.lemma_term_moved(after, false, k);
        lemma_sum_term(spec_slot_numbers(), self.spec_parked_terms(true), k);
        lemma_sum_term(spec_slot_numbers(), self.spec_parked_terms(false), k);
    }

    /// When a flush is done with the CPU `cpu`, no block that was on one
    /// of its stacks is allocated, and the counters of the front door are
    /// what they were.
    proof fn lemma_flush_done(&self, after: KernelHeap, done: Seq<usize>, cpu: int)
        requires
            self.intact(),
            self.flushing(after, done),
            0 <= cpu < MAX_CPUS,
            forall|s: int|
                cpu * PERCPU_SIZE_CLASSES <= s < (cpu + 1) * PERCPU_SIZE_CLASSES
                    ==> #[trigger] after.counts()[s] == 0,
        ensures
            forall|s: int, j: int|
                cpu * PERCPU_SIZE_CLASSES <= s < (cpu + 1) * PERCPU_SIZE_CLASSES && 0 <= j
                    < self.counts()[s] ==> !after.backend().is_live(
                    #[trigger] spec_entry(self.slots(), s, j),
                ),
            after.stats().total_allocated == self.stats().total_allocated,
            after.stats().alloc_count == self.stats().alloc_count,
            after.stats().free_count == self.stats().free_count,
            after.stats().corruption_count == self.stats().corruption_count,
    {
        reveal(Heap::freed_all);
        assert forall|s: int, j: int|
            cpu * PERCPU_SIZE_CLASSES <= s < (cpu + 1) * PERCPU_SIZE_CLASSES && 0 <= j
                < self.counts()[s] implies !after.backend().is_live(
            #[trigger] spec_entry(self.slots(), s, j),
        ) by {
            assert(after.counts()[s] == 0);
            assert(done.contains(spec_entry(self.slots(), s, j)));
            assert(spec_parked_ok(
                self.backend().memory(),
                self.backend().page_end(),
                spec_entry(self.slots(), s, j) as int,
            ));
        }
        self.lemma_parked_bounded(0);
    }

    /// Takes the blocks off stack `s`, top first, out of their parking,
    /// and gives each to the backend to be freed. Every pointer taken
    /// counts as a hit of the stack, and the look at the empty stack that
    /// ends the loop as a miss.
    fn drain(&mut self, s: usize, origin: Ghost<KernelHeap>, done: Ghost<Seq<usize>>)
        requires
            old(self).wf(),
            s < PERCPU_STACKS,
            origin@.intact() ==> {
                &&& origin@.flushing(*old(self), done@)
                &&& old(self).counts()[s as int] == origin@.counts()[s as int]
            },
        ensures
            final(self).wf(),
            final(self).enabled() == old(self).enabled(),
            final(self).slots() == old(self).slots(),
            final(self).counts() == old(self).counts().update(s as int, 0),
            final(self).hits() == old(self).hits().update(
                s as int,
                spec_add_clamped(old(self).hits()[s as int], spec_drained(old(self).counts()[s as int])),
            ),
            final(self).misses() == old(self).misses().update(
                s as int,
                spec_bump(old(self).misses()[s as int]),
            ),
            final(self).served() == old(self).served(),
            final(self).peak() == old(self).peak(),
            origin@.intact() ==> origin@.flushing(
                *final(self),
                done@ + spec_stack_order(
                    origin@.slots(),
                    s as int,
                    0,
                    origin@.counts()[s as int] as int,
                ),
            ),
    {
        let ghost mut given: Seq<usize> = done@;
        proof {
            assert(self.counts() =~= old(self).counts().update(s as int, self.counts()[s as int]));
            assert(self.hits() =~= old(self).hits().update(s as int, self.hits()[s as int]));
            assert(given =~= done@ + spec_stack_order(
                origin@.slots(),
                s as int,
                self.counts()[s as int] as int,
                old(self).counts()[s as int] as int,
            ));
        }
        while 0 < self.counts[s] && self.counts[s] <= PERCPU_CACHE_SIZE
            invariant
                self.wf(),
                s < PERCPU_STACKS,
                self.enabled() == old(self).enabled(),
                self.misses() == old(self).misses(),
                self.slots() == old(self).slots(),
                self.served() == old(self).served(),
                self.peak() == old(self).peak(),
                old(self).counts().len() == PERCPU_STACKS,
                old(self).hits().len() == PERCPU_STACKS,
                self.counts() == old(self).counts().update(s as int, self.counts()[s as int]),
                self.counts()[s as int] <= old(self).counts()[s as int],
                self.counts()[s as int] != old(self).counts()[s as int] ==> old(self).counts()[s as int]
                    <= PERCPU_CACHE_SIZE,
                self.hits() == old(self).hits().update(
                    s as int,
                    spec_add_clamped(
                        old(self).hits()[s as int],
                        old(self).counts()[s as int] - self.counts()[s as int],
                    ),
                ),
                origin@.intact() ==> {
                    &&& origin@.flushing(*self, given)
                    &&& old(self).counts()[s as int] == origin@.counts()[s as int]
                    &&& given == done@ + spec_stack_order(
                        origin@.slots(),
                        s as int,
                        self.counts()[s as int] as int,
                        old(self).counts()[s as int] as int,
                    )
                },
            decreases self.counts()[s as int],
        {
            let ghost before = *self;
            let count: usize = self.counts[s];
            let top: usize = self.slots[s * PERCPU_CACHE_SIZE + count - 1];
            let size: usize = self.backend.unpark(top, 0);
            let ghost unparked = self.backend;
            if top != 0 {
                self.backend.kfree(top);
            }
            self.counts[s] = count - 1;
            let hits: u64 = self.hits[s];
            self.hits[s] = if hits < u64::MAX {
                hits + 1
            } else {
                hits
            };
            self.parked = if self.parked >= 1 {
                self.parked - 1
            } else {
                0
            };
            self.parked_bytes = if self.parked_bytes >= size {
                self.parked_bytes - size
            } else {
                0
            };
            proof {
                if origin@.intact() {
                    assert(spec_parked_ok(
                        before.backend().memory(),
                        before.backend().page_end(),
                        spec_entry(before.slots(), s as int, count - 1) as int,
                    ));
                    assert(before.backend().is_live(
                        spec_entry(before.slots(), s as int, count - 1),
                    ));
                    before.lemma_entry_not_null(s as int, count - 1);
                    origin@.lemma_flush_step(before, unparked, *self, given, s as int);
                    given = given.push(top);
                    assert(given =~= done@ + spec_stack_order(
                        origin@.slots(),
                        s as int,
                        self.counts()[s as int] as int,
                        old(self).counts()[s as int] as int,
                    ));
                }
                assert(self.counts() =~= old(self).counts().update(
                    s as int,
                    self.counts()[s as int],
                ));
                assert(self.hits() =~= old(self).hits().update(s as int, self.hits()[s as int]));
            }
        }
        let ghost drained = *self;
        let misses: u64 = self.misses[s];
        self.misses[s] = if misses < u64::MAX {
            misses + 1
        } else {
            misses
        };
        self.counts[s] = 0;
        proof {
            assert(self.counts() =~= old(self).counts().update(s as int, 0));
            assert(self.hits() =~= old(self).hits().update(s as int, self.hits()[s as int]));
            if origin@.intact() {
                assert(self.counts() =~= drained.counts());
                origin@.lemma_flush_same(drained, *self, given);
            }
        }
    }

    /// Empties the per-CPU caches of the CPU `cpu`: every block on its
    /// stacks is taken out of its parking and goes to the backend to be
    /// freed. A `cpu` of `MAX_CPUS` or more is ignored.
    ///
    /// In an intact heap no block that was on one of the stacks is
    /// allocated afterwards, and the bytes that the backend has in use
    /// are fewer by the payloads of those blocks. The counters of the
    /// front door stay as they are: the blocks were counted as freed when
    /// they were parked. What callers hold is not touched.
    pub fn flush_cpu(&mut self, cpu: usize)
        requires
            old(self).wf(),
        ensures
            final(self).wf(),
            final(self).enabled() == old(self).enabled(),
            final(self).slots() == old(self).slots(),
            final(self).served() == old(self).served(),
            final(self).peak() == old(self).peak(),
            cpu >= MAX_CPUS ==> {
                &&& final(self).backend() == old(self).backend()
                &&& old(self).same_caches(*final(self))
            },
            cpu < MAX_CPUS ==> forall|s: int|
                0 <= s < PERCPU_STACKS ==> #[trigger] final(self).hits()[s] == if cpu
                    * PERCPU_SIZE_CLASSES <= s < (cpu + 1) * PERCPU_SIZE_CLASSES {
                    spec_add_clamped(old(self).hits()[s], spec_drained(old(self).counts()[s]))
                } else {
                    old(self).hits()[s]
                },
            cpu < MAX_CPUS ==> forall|s: int|
                0 <= s < PERCPU_STACKS ==> #[trigger] final(self).misses()[s] == if cpu
                    * PERCPU_SIZE_CLASSES <= s < (cpu + 1) * PERCPU_SIZE_CLASSES {
                    spec_bump(old(self).misses()[s])
                } else {
                    old(self).misses()[s]
                },
            cpu < MAX_CPUS ==> forall|s: int|
                0 <= s < PERCPU_STACKS ==> #[trigger] final(self).counts()[s] == if cpu
                    * PERCPU_SIZE_CLASSES <= s < (cpu + 1) * PERCPU_SIZE_CLASSES {
                    0
                } else {
                    old(self).counts()[s]
                },
            old(self).intact() ==> {
                &&& final(self).intact()
                &&& old(self).keeps_held(*final(self))
            },
            old(self).intact() && cpu < MAX_CPUS ==> old(self).backend().freed_all(
                final(self).backend(),
                old(self).spec_flush_order(cpu as int, PERCPU_SIZE_CLASSES as int),
            ),
            old(self).intact() && cpu < MAX_CPUS ==> {
                &&& final(self).backend().stats().total_allocated == old(self).backend().stats().total_allocated - old(self).backend().spec_payloads(
                    old(self).spec_flush_order(cpu as int, PERCPU_SIZE_CLASSES as int),
                )
                &&& final(self).parked_bytes() == old(self).parked_bytes() - old(self).backend().spec_payloads(
                    old(self).spec_flush_order(cpu as int, PERCPU_SIZE_CLASSES as int),
                )
                &&& final(self).parked() == old(self).parked() - old(self).spec_flush_order(
                    cpu as int,
                    PERCPU_SIZE_CLASSES as int,
                ).len()
                &&& old(self).backend().spec_refusals(
                    old(self).spec_flush_order(cpu as int, PERCPU_SIZE_CLASSES as int),
                ) == 0
                &&& final(self).backend().stats().corruption_count == old(self).backend().stats().corruption_count
                &&& final(self).backend().stats().free_count == spec_clamp(
                    old(self).backend().stats().free_count + old(self).spec_flush_order(
                        cpu as int,
                        PERCPU_SIZE_CLASSES as int,
                    ).len(),
                )
                &&& final(self).backend().stats().alloc_count == old(self).backend().stats().alloc_count
                &&& final(self).backend().failed() == old(self).backend().failed()
                &&& final(self).stats().total_allocated == old(self).stats().total_allocated
                &&& final(self).stats().alloc_count == old(self).stats().alloc_count
                &&& final(self).stats().free_count == old(self).stats().free_count
            },
            old(self).intact() && cpu < MAX_CPUS ==> forall|s: int, j: int|
                cpu * PERCPU_SIZE_CLASSES <= s < (cpu + 1) * PERCPU_SIZE_CLASSES && 0 <= j < old(self).counts()[s] ==> !final(self).backend().is_live(
                    #[trigger] spec_entry(old(self).slots(), s, j),
                ),
    {
        proof {
            if old(self).intact() {
                old(self).lemma_keeps_held_same(*self);
            }
        }
        if cpu >= MAX_CPUS {
            return ;
        }
        let ghost mut given: Seq<usize> = Seq::empty();
        proof {
            if old(self).intact() {
                old(self).lemma_flush_start();
            }
        }
        let mut class: usize = 0;
        while class < PERCPU_SIZE_CLASSES
            invariant
                class <= PERCPU_SIZE_CLASSES,
                cpu < MAX_CPUS,
                self.wf(),
                old(self).wf(),
                self.enabled() == old(self).enabled(),
                self.slots() == old(self).slots(),
                self.served() == old(self).served(),
                self.peak() == old(self).peak(),
                forall|s: int|
                    0 <= s < PERCPU_STACKS ==> #[trigger] self.counts()[s] == if cpu
                        * PERCPU_SIZE_CLASSES <= s < cpu * PERCPU_SIZE_CLASSES + class {
                        0
                    } else {
                        old(self).counts()[s]
                    },
                forall|s: int|
                    0 <= s < PERCPU_STACKS ==> #[trigger] self.hits()[s] == if cpu
                        * PERCPU_SIZE_CLASSES <= s < cpu * PERCPU_SIZE_CLASSES + class {
                        spec_add_clamped(old(self).hits()[s], spec_drained(old(self).counts()[s]))
                    } else {
                        old(self).hits()[s]
                    },
                forall|s: int|
                    0 <= s < PERCPU_STACKS ==> #[trigger] self.misses()[s] == if cpu
                        * PERCPU_SIZE_CLASSES <= s < cpu * PERCPU_SIZE_CLASSES + class {
                        spec_bump(old(self).misses()[s])
                    } else {
                        old(self).misses()[s]
                    },
                old(self).intact() ==> {
                    &&& old(self).flushing(*self, given)
                    &&& given == old(self).spec_flush_order(cpu as int, class as int)
                },
            decreases PERCPU_SIZE_CLASSES - class,
        {
            self.drain(cpu * PERCPU_SIZE_CLASSES + class, Ghost(*old(self)), Ghost(given));
            proof {
                if old(self).intact() {
                    given = given + spec_stack_order(
                        old(self).slots(),
                        cpu * PERCPU_SIZE_CLASSES + class,
                        0,
                        old(self).counts()[cpu * PERCPU_SIZE_CLASSES + class] as int,
                    );
                }
            }
            class = class + 1;
        }
        proof {
            if old(self).intact() {
                old(self).lemma_flush_done(*self, given, cpu as int);
                reveal(Heap::freed_all);
            }
        }
    }

    /// The counters of the front door.
    pub fn get_stats(&self) -> (stats: HeapStats)
        requires
            self.wf(),
        ensures
            stats == self.stats(),
    {
        let found: HeapStats = self.backend.get_stats();
        let in_use: usize = if found.total_allocated >= self.parked_bytes {
            found.total_allocated - self.parked_bytes
        } else {
            0
        };
        let allocs: u64 = found.alloc_count.saturating_add(self.served);
        let frees: u64 = found.free_count.saturating_add(self.served).saturating_add(
            self.parked as u64,
        );
        HeapStats {
            total_allocated: in_use,
            peak_allocated: self.peak,
            alloc_count: allocs,
            free_count: frees,
            cache_hits: found.cache_hits,
            cache_misses: found.cache_misses,
            coalesce_count: found.coalesce_count,
            corruption_count: found.corruption_count,
        }
    }

    /// Whether `addr` lies in the payload of a block that a caller holds.
    pub open spec fn holds_byte(&self, addr: usize) -> bool {
        exists|p: usize| #[trigger]
            self.holds(p) && p <= addr < p + self.backend().payload_size(p)
    }

    /// Stores `byte` at `addr`, wherever in the arena that is, and says
    /// whether `addr` lies in the arena. A store into the payload of a
    /// block that a caller holds leaves the heap intact.
    pub fn store(&mut self, addr: usize, byte: u8) -> (stored: bool)
        ensures
            stored == (addr < old(self).backend().memory().len()),
            old(self).same_caches(*final(self)),
            final(self).peak() == old(self).peak(),
            old(self).backend().same_books(final(self).backend()),
            stored ==> final(self).backend().memory() == old(self).backend().memory().update(
                addr as int,
                byte,
            ),
            !stored ==> final(self).backend().memory() == old(self).backend().memory(),
            old(self).wf() ==> final(self).wf(),
            old(self).intact() && old(self).holds_byte(addr) ==> {
                &&& final(self).intact()
                &&& forall|p: usize| final(self).holds(p) == old(self).holds(p)
            },
    {
        let stored: bool = self.backend.store(addr, byte);
        proof {
            if old(self).intact() && old(self).holds_byte(addr) {
                let p = choose|p: usize| #[trigger]
                    old(self).holds(p) && p <= addr < p + old(self).backend().payload_size(p);
                assert(old(self).backend().is_live(p));
                assert(old(self).backend().owns(addr));
                let slots = self.slots();
                old(self).backend().lemma_live_block(p);
                assert forall|t: int, k: int|
                    0 <= t < PERCPU_STACKS && 0 <= k < old(self).counts()[t] implies {
                    &&& self.backend().is_live(#[trigger] spec_entry(slots, t, k))
                    &&& self.backend().payload_size(spec_entry(slots, t, k)) == old(self).backend().payload_size(spec_entry(slots, t, k))
                    &&& forall|at: int|
                        spec_entry(slots, t, k) <= at < spec_entry(slots, t, k) + old(self).backend().payload_size(spec_entry(slots, t, k))
                            ==> #[trigger] self.backend().memory()[at] == old(self).backend().memory()[at]
                } by {
                    let e = spec_entry(slots, t, k);
                    assert(old(self).backend().is_live(e));
                    assert(old(self).cached(e));
                    old(self).backend().lemma_live_disjoint(e, p);
                    old(self).backend().lemma_live_block(e);
                    crate::heap::block::lemma_header_frame(
                        old(self).backend().memory(),
                        self.backend().memory(),
                        addr as int,
                        addr + 1,
                        e - HEADER_SIZE,
                    );
                }
                old(self).lemma_entries_kept(*self);
            }
        }
        stored
    }

    /// The size of the payload at `ptr`, canary included, if `ptr` passes
    /// the checks of `kfree`; 0 if it does not.
    pub fn allocated_size(&self, ptr: usize) -> (size: usize)
        requires
            self.wf(),
        ensures
            size == if spec_free_ok(
                self.backend().memory(),
                self.backend().page_end(),
                ptr as int,
            ) {
                self.backend().payload_size(ptr)
            } else {
                0
            },
            ptr == 0 ==> size == 0,
            spec_free_ok(self.backend().memory(), self.backend().page_end(), ptr as int) ==> size
                >= HEAP_ALIGN && size % HEAP_ALIGN == 0,
    {
        match self.backend.check_allocated(ptr) {
            Some((_, h)) => h.size as usize,
            None => 0,
        }
    }

    /// Walks the global list of the backend and counts the blocks that
    /// fail the check.
    pub fn validate(&self) -> (errors: usize)
        requires
            self.wf(),
        ensures
            errors == crate::heap::backend::report::spec_errors(
                self.backend().memory(),
                self.backend().page_end(),
                self.backend().first(),
                crate::heap::backend::report::spec_walk_limit(self.backend().page_end()),
            ),
            self.backend().sound() ==> errors == 0,
    {
        self.backend.validate()
    }

    /// Reads the byte at `addr` of the arena, `None` outside the arena.
    pub fn load(&self, addr: usize) -> (byte: Option<u8>)
        ensures
            byte == if addr < self.backend().memory().len() {
                Some(self.backend().memory()[addr as int])
            } else {
                None
            },
    {
        self.backend.load(addr)
    }

}

/// The pointers on stack `s` from entry `from` up to entry `count - 1`,
/// top first.
pub open spec fn spec_stack_order(slots: Seq<usize>, s: int, from: int, count: int) -> Seq<usize> {
    Seq::new((count - from) as nat, |i: int| spec_entry(slots, s, count - 1 - i))
}

/// `x + n` on a counter that stays at the top of its range.
pub open spec fn spec_add_clamped(x: u64, n: int) -> u64 {
    if x + n > u64::MAX {
        u64::MAX
    } else if n < 0 {
        x
    } else {
        (x + n) as u64
    }
}

/// Pointers that a flush takes off a stack that says it holds `count`:
/// all of them, and none off a stack whose count is out of bounds.
pub open spec fn spec_drained(count: usize) -> int {
    if count <= PERCPU_CACHE_SIZE {
        count as int
    } else {
        0
    }
}

/// The sum of the `n` counters from `from` on, where every partial sum is
/// held at the top of the range.
pub open spec fn spec_sum_clamped(counters: Seq<u64>, from: int, n: int) -> u64
    decreases n,
{
    if n <= 0 {
        0
    } else {
        let rest = spec_sum_clamped(counters, from, n - 1);
        if rest + counters[from + n - 1] > u64::MAX {
            u64::MAX
        } else {
            (rest + counters[from + n - 1]) as u64
        }
    }
}

} // verus!
