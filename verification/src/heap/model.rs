//! What it means for the arena to hold a sound heap.
//!
//! The arena is sound with respect to a list of block addresses, the order
//! of the global list, and one list of block addresses for each fast cache,
//! top first. All facts about blocks are read from the header bytes in the
//! arena.

use vstd::prelude::*;
use crate::heap::block::{HeapBlock, spec_header_at};
use crate::heap::layout::{
    ALLOC_MAGIC, CANARY_SIZE, FAST_CACHE_SIZE, FIT_SLACK, FREE_MAGIC, HEADER_SIZE, HEAP_ALIGN,
    MAX_SCAN, NUM_SIZE_CLASSES, PAGE_SIZE, spec_canary, spec_class_size,
};
use crate::heap::block::lemma_header_frame;
use crate::heap::bytes::{spec_same_outside, spec_u64_at};

verus! {

/// Bookkeeping of one fast cache.
#[derive(Clone, Copy, Debug, PartialEq, Eq, Structural)]
pub struct FastCache {
    /// The block on top of the stack, 0 if the stack is empty.
    pub head: usize,
    /// Blocks on the stack.
    pub count: usize,
    /// Allocations served from the stack.
    pub hits: u64,
    /// Allocations that found the stack empty.
    pub misses: u64,
}

/// The header at `a` is that of a block that lies in the pages handed out
/// so far: aligned, sealed, with flags that agree with its magic, and a
/// payload of a positive multiple of the alignment that ends before `brk`.
pub open spec fn spec_block_ok(mem: Seq<u8>, brk: int, a: int) -> bool {
    let h = spec_header_at(mem, a);
    &&& a % (HEAP_ALIGN as int) == 0
    &&& PAGE_SIZE <= a
    &&& a + HEADER_SIZE <= brk
    &&& h.spec_validate(a)
    &&& h.flags < 4
    &&& h.spec_is_free() == (h.magic == FREE_MAGIC)
    &&& h.spec_in_cache() ==> h.spec_is_free()
    &&& h.size > 0
    &&& h.size % (HEAP_ALIGN as u64) == 0
    &&& a + HEADER_SIZE + h.size <= brk
}

/// The canary of the block at `a` is in place.
pub open spec fn spec_canary_ok(mem: Seq<u8>, a: int) -> bool {
    spec_u64_at(mem, a + HEADER_SIZE + spec_header_at(mem, a).size - CANARY_SIZE) == spec_canary(
        a as u64,
    )
}

/// `ptr` passes the checks of `kfree`: behind it is a sound header of an
/// allocated block whose canary is in place.
pub open spec fn spec_free_ok(mem: Seq<u8>, brk: int, ptr: int) -> bool {
    &&& ptr >= HEADER_SIZE
    &&& spec_block_ok(mem, brk, ptr - HEADER_SIZE)
    &&& spec_header_at(mem, ptr - HEADER_SIZE).magic == ALLOC_MAGIC
    &&& spec_canary_ok(mem, ptr - HEADER_SIZE)
}

/// The address behind the last byte of the block at `a`.
pub open spec fn spec_end(mem: Seq<u8>, a: int) -> int {
    a + HEADER_SIZE + spec_header_at(mem, a).size
}

/// Block `i` of the list is sound.
pub open spec fn spec_member_ok(mem: Seq<u8>, brk: int, blocks: Seq<usize>, i: int) -> bool {
    spec_block_ok(mem, brk, blocks[i] as int)
}

/// Block `i` of the list points at its neighbours.
pub open spec fn spec_linked(mem: Seq<u8>, blocks: Seq<usize>, i: int) -> bool {
    let h = spec_header_at(mem, blocks[i] as int);
    &&& h.next == if i + 1 < blocks.len() {
        blocks[i + 1] as int
    } else {
        0
    }
    &&& h.prev == if i > 0 {
        blocks[i - 1] as int
    } else {
        0
    }
}

/// Blocks `i` and `j` of the list share no byte.
pub open spec fn spec_apart(mem: Seq<u8>, blocks: Seq<usize>, i: int, j: int) -> bool {
    spec_end(mem, blocks[i] as int) <= blocks[j] || spec_end(mem, blocks[j] as int) <= blocks[i]
}

/// The global list: `head` is its first block, every block is sound and
/// points at its neighbours, and no two blocks share a byte.
pub open spec fn spec_chain_ok(mem: Seq<u8>, brk: int, head: int, blocks: Seq<usize>) -> bool {
    &&& head == if blocks.len() > 0 {
        blocks[0] as int
    } else {
        0
    }
    &&& forall|i: int| 0 <= i < blocks.len() ==> #[trigger] spec_member_ok(mem, brk, blocks, i)
    &&& forall|i: int| 0 <= i < blocks.len() ==> #[trigger] spec_linked(mem, blocks, i)
    &&& forall|i: int, j: int|
        0 <= i < j < blocks.len() ==> #[trigger] spec_apart(mem, blocks, i, j)
}

/// Entry `k` of the stack of class `class`: a block of the global list,
/// free and cached, of exactly the class size, that points at the entry
/// below it.
pub open spec fn spec_entry_ok(
    mem: Seq<u8>,
    blocks: Seq<usize>,
    stack: Seq<usize>,
    class: int,
    k: int,
) -> bool {
    let h = spec_header_at(mem, stack[k] as int);
    &&& blocks.contains(stack[k])
    &&& h.flags == 3
    &&& h.size == spec_class_size(class)
    &&& h.cache_next == if k + 1 < stack.len() {
        stack[k + 1] as int
    } else {
        0
    }
}

/// The fast cache of class `class` and its stack.
pub open spec fn spec_stack_ok(
    mem: Seq<u8>,
    blocks: Seq<usize>,
    cache: FastCache,
    stack: Seq<usize>,
    class: int,
) -> bool {
    &&& cache.count == stack.len()
    &&& stack.len() <= FAST_CACHE_SIZE
    &&& cache.head == if stack.len() > 0 {
        stack[0] as int
    } else {
        0
    }
    &&& forall|k: int| 0 <= k < stack.len() ==> #[trigger] spec_entry_ok(mem, blocks, stack, class, k)
    &&& stack.no_duplicates()
}

/// All fast caches and their stacks.
pub open spec fn spec_caches_ok(
    mem: Seq<u8>,
    blocks: Seq<usize>,
    caches: Seq<FastCache>,
    stacks: Seq<Seq<usize>>,
) -> bool {
    &&& caches.len() == NUM_SIZE_CLASSES
    &&& stacks.len() == NUM_SIZE_CLASSES
    &&& forall|c: int|
        0 <= c < NUM_SIZE_CLASSES ==> #[trigger] spec_stack_ok(mem, blocks, caches[c], stacks[c], c)
}

/// Bytes that the block at `a` covers, header included.
pub open spec fn spec_extent(mem: Seq<u8>, a: usize) -> int {
    HEADER_SIZE + spec_header_at(mem, a as int).size
}

/// Payload bytes of the block at `a` if it is allocated, else 0.
pub open spec fn spec_allocated_bytes(mem: Seq<u8>, a: usize) -> int {
    if spec_header_at(mem, a as int).magic == ALLOC_MAGIC {
        spec_header_at(mem, a as int).size as int
    } else {
        0
    }
}

/// 1 if the block at `a` is allocated, else 0.
pub open spec fn spec_allocated_one(mem: Seq<u8>, a: usize) -> int {
    if spec_header_at(mem, a as int).magic == ALLOC_MAGIC {
        1
    } else {
        0
    }
}

/// The sum of `f` over the blocks of the list.
pub open spec fn spec_sum(blocks: Seq<usize>, f: spec_fn(usize) -> int) -> int
    decreases blocks.len(),
{
    if blocks.len() == 0 {
        0
    } else {
        spec_sum(blocks.drop_last(), f) + f(blocks.last())
    }
}

/// Bytes of all blocks of the list, headers included.
pub open spec fn spec_covered(mem: Seq<u8>, blocks: Seq<usize>) -> int {
    spec_sum(blocks, |a: usize| spec_extent(mem, a))
}

/// Payload bytes of the allocated blocks of the list.
pub open spec fn spec_in_use(mem: Seq<u8>, blocks: Seq<usize>) -> int {
    spec_sum(blocks, |a: usize| spec_allocated_bytes(mem, a))
}

/// Number of allocated blocks of the list.
pub open spec fn spec_live_count(mem: Seq<u8>, blocks: Seq<usize>) -> int {
    spec_sum(blocks, |a: usize| spec_allocated_one(mem, a))
}

/// A free block that is in no cache fits a request for a payload of `need`
/// bytes if it has at least that much and at most `FIT_SLACK` times as much.
pub open spec fn spec_fits(h: HeapBlock, need: int) -> bool {
    &&& h.spec_is_free()
    &&& !h.spec_in_cache()
    &&& need <= h.size <= FIT_SLACK * need
}

/// The first block among the first `MAX_SCAN` of the list, from index
/// `from` on, that fits a request for `need` bytes.
pub open spec fn spec_first_fit(mem: Seq<u8>, blocks: Seq<usize>, need: int, from: int) -> Option<
    usize,
>
    decreases blocks.len() - from,
{
    if from < 0 || from >= blocks.len() || from >= MAX_SCAN {
        None
    } else if spec_fits(spec_header_at(mem, blocks[from] as int), need) {
        Some(blocks[from])
    } else {
        spec_first_fit(mem, blocks, need, from + 1)
    }
}

/// Sums of functions that agree on the list are equal.
pub proof fn lemma_sum_same(blocks: Seq<usize>, f: spec_fn(usize) -> int, g: spec_fn(usize) -> int)
    requires
        forall|i: int| 0 <= i < blocks.len() ==> f(#[trigger] blocks[i]) == g(blocks[i]),
    ensures
        spec_sum(blocks, f) == spec_sum(blocks, g),
    decreases blocks.len(),
{
    if blocks.len() > 0 {
        let rest = blocks.drop_last();
        assert forall|i: int| 0 <= i < rest.len() implies f(#[trigger] rest[i]) == g(rest[i]) by {
            assert(rest[i] == blocks[i]);
        }
        lemma_sum_same(rest, f, g);
        assert(blocks.last() == blocks[blocks.len() - 1]);
    }
}

/// Sums of functions that agree on the list but at index `k` differ by
/// what they differ at `k`.
pub proof fn lemma_sum_update(
    blocks: Seq<usize>,
    f: spec_fn(usize) -> int,
    g: spec_fn(usize) -> int,
    k: int,
)
    requires
        0 <= k < blocks.len(),
        forall|i: int| 0 <= i < blocks.len() && i != k ==> f(#[trigger] blocks[i]) == g(blocks[i]),
    ensures
        spec_sum(blocks, g) == spec_sum(blocks, f) - f(blocks[k]) + g(blocks[k]),
    decreases blocks.len(),
{
    let rest = blocks.drop_last();
    assert(blocks.last() == blocks[blocks.len() - 1]);
    if k == blocks.len() - 1 {
        assert forall|i: int| 0 <= i < rest.len() implies f(#[trigger] rest[i]) == g(rest[i]) by {
            assert(rest[i] == blocks[i]);
        }
        lemma_sum_same(rest, f, g);
    } else {
        assert forall|i: int| 0 <= i < rest.len() && i != k implies f(#[trigger] rest[i]) == g(
            rest[i],
        ) by {
            assert(rest[i] == blocks[i]);
        }
        assert(rest[k] == blocks[k]);
        lemma_sum_update(rest, f, g, k);
    }
}

/// A block put into the list adds its value to the sum.
pub proof fn lemma_sum_insert(blocks: Seq<usize>, f: spec_fn(usize) -> int, k: int, a: usize)
    requires
        0 <= k <= blocks.len(),
    ensures
        spec_sum(blocks.insert(k, a), f) == spec_sum(blocks, f) + f(a),
    decreases blocks.len(),
{
    let more = blocks.insert(k, a);
    if k == blocks.len() {
        assert(more.drop_last() =~= blocks);
        assert(more.last() == a);
    } else {
        assert(more.last() == blocks.last());
        assert(more.drop_last() =~= blocks.drop_last().insert(k, a));
        lemma_sum_insert(blocks.drop_last(), f, k, a);
    }
}

/// A block taken out of the list takes its value from the sum.
pub proof fn lemma_sum_remove(blocks: Seq<usize>, f: spec_fn(usize) -> int, k: int)
    requires
        0 <= k < blocks.len(),
    ensures
        spec_sum(blocks.remove(k), f) == spec_sum(blocks, f) - f(blocks[k]),
    decreases blocks.len(),
{
    let fewer = blocks.remove(k);
    if k == blocks.len() - 1 {
        assert(fewer =~= blocks.drop_last());
        assert(blocks.last() == blocks[k]);
    } else {
        assert(fewer.last() == blocks.last());
        assert(fewer.drop_last() =~= blocks.drop_last().remove(k));
        assert(blocks.drop_last()[k] == blocks[k]);
        lemma_sum_remove(blocks.drop_last(), f, k);
    }
}

/// A sum is bounded by the sum of a function that bounds it on the list.
pub proof fn lemma_sum_le(blocks: Seq<usize>, f: spec_fn(usize) -> int, g: spec_fn(usize) -> int)
    requires
        forall|i: int| 0 <= i < blocks.len() ==> f(#[trigger] blocks[i]) <= g(blocks[i]),
    ensures
        spec_sum(blocks, f) <= spec_sum(blocks, g),
    decreases blocks.len(),
{
    if blocks.len() > 0 {
        let rest = blocks.drop_last();
        assert forall|i: int| 0 <= i < rest.len() implies f(#[trigger] rest[i]) <= g(rest[i]) by {
            assert(rest[i] == blocks[i]);
        }
        lemma_sum_le(rest, f, g);
        assert(blocks.last() == blocks[blocks.len() - 1]);
    }
}

/// A sum of values that are all at least `least` is at least `least` times
/// the length of the list.
pub proof fn lemma_sum_at_least(blocks: Seq<usize>, f: spec_fn(usize) -> int, least: int)
    requires
        forall|i: int| 0 <= i < blocks.len() ==> f(#[trigger] blocks[i]) >= least,
    ensures
        spec_sum(blocks, f) >= least * blocks.len(),
    decreases blocks.len(),
{
    if blocks.len() > 0 {
        let rest = blocks.drop_last();
        assert forall|i: int| 0 <= i < rest.len() implies f(#[trigger] rest[i]) >= least by {
            assert(rest[i] == blocks[i]);
        }
        lemma_sum_at_least(rest, f, least);
        assert(blocks.last() == blocks[blocks.len() - 1]);
        assert(least * blocks.len() == least * rest.len() + least) by (nonlinear_arith)
            requires
                blocks.len() == rest.len() + 1,
        ;
    }
}

/// The headers of all blocks of the list are the same in both arenas.
pub open spec fn spec_headers_kept(before: Seq<u8>, after: Seq<u8>, blocks: Seq<usize>) -> bool {
    forall|i: int|
        0 <= i < blocks.len() ==> spec_header_at(after, #[trigger] blocks[i] as int)
            == spec_header_at(before, blocks[i] as int)
}

/// What is sound stays sound while the headers of the blocks stay the same.
pub proof fn lemma_headers_kept(
    before: Seq<u8>,
    after: Seq<u8>,
    brk: int,
    head: int,
    blocks: Seq<usize>,
    caches: Seq<FastCache>,
    stacks: Seq<Seq<usize>>,
)
    requires
        spec_headers_kept(before, after, blocks),
        spec_chain_ok(before, brk, head, blocks),
        spec_caches_ok(before, blocks, caches, stacks),
    ensures
        spec_chain_ok(after, brk, head, blocks),
        spec_caches_ok(after, blocks, caches, stacks),
        spec_covered(after, blocks) == spec_covered(before, blocks),
        spec_in_use(after, blocks) == spec_in_use(before, blocks),
        spec_live_count(after, blocks) == spec_live_count(before, blocks),
{
    assert forall|i: int| 0 <= i < blocks.len() implies #[trigger] spec_member_ok(
        after,
        brk,
        blocks,
        i,
    ) by {
        assert(spec_member_ok(before, brk, blocks, i));
    }
    assert forall|i: int| 0 <= i < blocks.len() implies #[trigger] spec_linked(after, blocks, i) by {
        assert(spec_linked(before, blocks, i));
    }
    assert forall|i: int, j: int| 0 <= i < j < blocks.len() implies #[trigger] spec_apart(
        after,
        blocks,
        i,
        j,
    ) by {
        assert(spec_apart(before, blocks, i, j));
    }
    assert forall|c: int| 0 <= c < NUM_SIZE_CLASSES implies #[trigger] spec_stack_ok(
        after,
        blocks,
        caches[c],
        stacks[c],
        c,
    ) by {
        assert(spec_stack_ok(before, blocks, caches[c], stacks[c], c));
        assert forall|k: int| 0 <= k < stacks[c].len() implies #[trigger] spec_entry_ok(
            after,
            blocks,
            stacks[c],
            c,
            k,
        ) by {
            assert(spec_entry_ok(before, blocks, stacks[c], c, k));
            let i = choose|i: int| 0 <= i < blocks.len() && blocks[i] == stacks[c][k];
            assert(spec_header_at(after, blocks[i] as int) == spec_header_at(
                before,
                blocks[i] as int,
            ));
        }
    }
    lemma_sum_same(blocks, |a: usize| spec_extent(before, a), |a: usize| spec_extent(after, a));
    lemma_sum_same(
        blocks,
        |a: usize| spec_allocated_bytes(before, a),
        |a: usize| spec_allocated_bytes(after, a),
    );
    lemma_sum_same(
        blocks,
        |a: usize| spec_allocated_one(before, a),
        |a: usize| spec_allocated_one(after, a),
    );
}

/// A write into the payload of block `k` of the list changes no header of
/// the list.
pub proof fn lemma_payload_frame(
    before: Seq<u8>,
    after: Seq<u8>,
    brk: int,
    head: int,
    blocks: Seq<usize>,
    k: int,
    lo: int,
    hi: int,
)
    requires
        spec_chain_ok(before, brk, head, blocks),
        brk <= before.len(),
        0 <= k < blocks.len(),
        blocks[k] + HEADER_SIZE <= lo,
        hi <= spec_end(before, blocks[k] as int),
        spec_same_outside(before, after, lo, hi),
    ensures
        spec_headers_kept(before, after, blocks),
{
    assert forall|i: int| 0 <= i < blocks.len() implies spec_header_at(
        after,
        #[trigger] blocks[i] as int,
    ) == spec_header_at(before, blocks[i] as int) by {
        assert(spec_member_ok(before, brk, blocks, i));
        assert(spec_member_ok(before, brk, blocks, k));
        if i < k {
            assert(spec_apart(before, blocks, i, k));
        } else if k < i {
            assert(spec_apart(before, blocks, k, i));
        }
        lemma_header_frame(before, after, lo, hi, blocks[i] as int);
    }
}

/// The headers of all blocks of the list but block `k` are the same in
/// both arenas.
pub open spec fn spec_others_kept(before: Seq<u8>, after: Seq<u8>, blocks: Seq<usize>, k: int)
    -> bool {
    forall|i: int|
        0 <= i < blocks.len() && i != k ==> spec_header_at(after, #[trigger] blocks[i] as int)
            == spec_header_at(before, blocks[i] as int)
}

/// The blocks of a sound list are distinct.
pub proof fn lemma_blocks_distinct(mem: Seq<u8>, brk: int, head: int, blocks: Seq<usize>)
    requires
        spec_chain_ok(mem, brk, head, blocks),
    ensures
        blocks.no_duplicates(),
{
    assert forall|i: int, j: int| 0 <= i < blocks.len() && 0 <= j < blocks.len() && i != j implies blocks[i]
        != blocks[j] by {
        assert(spec_member_ok(mem, brk, blocks, i));
        assert(spec_member_ok(mem, brk, blocks, j));
        if i < j {
            assert(spec_apart(mem, blocks, i, j));
        } else {
            assert(spec_apart(mem, blocks, j, i));
        }
    }
}

/// A write into the bytes of block `k` of the list changes no header of
/// another block of the list and no byte of another block.
pub proof fn lemma_extent_frame(
    before: Seq<u8>,
    after: Seq<u8>,
    brk: int,
    head: int,
    blocks: Seq<usize>,
    k: int,
    lo: int,
    hi: int,
)
    requires
        spec_chain_ok(before, brk, head, blocks),
        brk <= before.len(),
        0 <= k < blocks.len(),
        blocks[k] <= lo,
        hi <= spec_end(before, blocks[k] as int),
        spec_same_outside(before, after, lo, hi),
    ensures
        spec_others_kept(before, after, blocks, k),
        forall|i: int, at: int|
            0 <= i < blocks.len() && i != k && blocks[i] <= at < spec_end(
                before,
                #[trigger] blocks[i] as int,
            ) ==> #[trigger] after[at] == before[at],
{
    assert forall|i: int| 0 <= i < blocks.len() && i != k implies spec_header_at(
        after,
        #[trigger] blocks[i] as int,
    ) == spec_header_at(before, blocks[i] as int) by {
        assert(spec_member_ok(before, brk, blocks, i));
        assert(spec_member_ok(before, brk, blocks, k));
        if i < k {
            assert(spec_apart(before, blocks, i, k));
        } else {
            assert(spec_apart(before, blocks, k, i));
        }
        lemma_header_frame(before, after, lo, hi, blocks[i] as int);
    }
    assert forall|i: int, at: int|
        0 <= i < blocks.len() && i != k && blocks[i] <= at < spec_end(
            before,
            #[trigger] blocks[i] as int,
        ) implies #[trigger] after[at] == before[at] by {
        assert(spec_member_ok(before, brk, blocks, i));
        assert(spec_member_ok(before, brk, blocks, k));
        if i < k {
            assert(spec_apart(before, blocks, i, k));
        } else {
            assert(spec_apart(before, blocks, k, i));
        }
    }
}

/// The global list stays sound when the header of block `k` is replaced by
/// a sound header of the same size with the same links, and the sums move
/// by what the block contributes.
pub proof fn lemma_restamp(
    before: Seq<u8>,
    after: Seq<u8>,
    brk: int,
    head: int,
    blocks: Seq<usize>,
    k: int,
)
    requires
        spec_chain_ok(before, brk, head, blocks),
        0 <= k < blocks.len(),
        spec_others_kept(before, after, blocks, k),
        spec_block_ok(after, brk, blocks[k] as int),
        spec_header_at(after, blocks[k] as int).size == spec_header_at(
            before,
            blocks[k] as int,
        ).size,
        spec_header_at(after, blocks[k] as int).next == spec_header_at(
            before,
            blocks[k] as int,
        ).next,
        spec_header_at(after, blocks[k] as int).prev == spec_header_at(
            before,
            blocks[k] as int,
        ).prev,
    ensures
        spec_chain_ok(after, brk, head, blocks),
        spec_covered(after, blocks) == spec_covered(before, blocks),
        spec_in_use(after, blocks) == spec_in_use(before, blocks) - spec_allocated_bytes(
            before,
            blocks[k],
        ) + spec_allocated_bytes(after, blocks[k]),
        spec_live_count(after, blocks) == spec_live_count(before, blocks) - spec_allocated_one(
            before,
            blocks[k],
        ) + spec_allocated_one(after, blocks[k]),
{
    assert forall|i: int| 0 <= i < blocks.len() implies #[trigger] spec_member_ok(
        after,
        brk,
        blocks,
        i,
    ) by {
        assert(spec_member_ok(before, brk, blocks, i));
    }
    assert forall|i: int| 0 <= i < blocks.len() implies #[trigger] spec_linked(after, blocks, i) by {
        assert(spec_linked(before, blocks, i));
    }
    assert forall|i: int, j: int| 0 <= i < j < blocks.len() implies #[trigger] spec_apart(
        after,
        blocks,
        i,
        j,
    ) by {
        assert(spec_apart(before, blocks, i, j));
    }
    lemma_sum_update(
        blocks,
        |a: usize| spec_extent(before, a),
        |a: usize| spec_extent(after, a),
        k,
    );
    lemma_sum_update(
        blocks,
        |a: usize| spec_allocated_bytes(before, a),
        |a: usize| spec_allocated_bytes(after, a),
        k,
    );
    lemma_sum_update(
        blocks,
        |a: usize| spec_allocated_one(before, a),
        |a: usize| spec_allocated_one(after, a),
        k,
    );
}

/// A block whose flags are not "free and cached" is on no stack.
pub proof fn lemma_not_stacked(
    mem: Seq<u8>,
    blocks: Seq<usize>,
    caches: Seq<FastCache>,
    stacks: Seq<Seq<usize>>,
    a: usize,
)
    requires
        spec_caches_ok(mem, blocks, caches, stacks),
        spec_header_at(mem, a as int).flags != 3,
    ensures
        forall|c: int| 0 <= c < NUM_SIZE_CLASSES ==> !(#[trigger] stacks[c]).contains(a),
{
    assert forall|c: int| 0 <= c < NUM_SIZE_CLASSES implies !(#[trigger] stacks[c]).contains(a) by {
        assert(spec_stack_ok(mem, blocks, caches[c], stacks[c], c));
        if stacks[c].contains(a) {
            let k = choose|k: int| 0 <= k < stacks[c].len() && stacks[c][k] == a;
            assert(spec_entry_ok(mem, blocks, stacks[c], c, k));
        }
    }
}

/// The stacks stay sound while the headers of their entries stay the same.
pub proof fn lemma_stacks_kept(
    before: Seq<u8>,
    after: Seq<u8>,
    blocks: Seq<usize>,
    caches: Seq<FastCache>,
    stacks: Seq<Seq<usize>>,
    k: int,
)
    requires
        spec_caches_ok(before, blocks, caches, stacks),
        0 <= k < blocks.len(),
        spec_others_kept(before, after, blocks, k),
        forall|c: int| 0 <= c < NUM_SIZE_CLASSES ==> !(#[trigger] stacks[c]).contains(blocks[k]),
    ensures
        spec_caches_ok(after, blocks, caches, stacks),
{
    assert forall|c: int| 0 <= c < NUM_SIZE_CLASSES implies #[trigger] spec_stack_ok(
        after,
        blocks,
        caches[c],
        stacks[c],
        c,
    ) by {
        assert(spec_stack_ok(before, blocks, caches[c], stacks[c], c));
        lemma_stack_kept(before, after, blocks, caches[c], stacks[c], c, k);
    }
}

/// One stack stays sound while the headers of its entries stay the same.
pub proof fn lemma_stack_kept(
    before: Seq<u8>,
    after: Seq<u8>,
    blocks: Seq<usize>,
    cache: FastCache,
    stack: Seq<usize>,
    class: int,
    k: int,
)
    requires
        spec_stack_ok(before, blocks, cache, stack, class),
        0 <= k < blocks.len(),
        spec_others_kept(before, after, blocks, k),
        !stack.contains(blocks[k]),
    ensures
        spec_stack_ok(after, blocks, cache, stack, class),
{
    assert forall|e: int| 0 <= e < stack.len() implies #[trigger] spec_entry_ok(
        after,
        blocks,
        stack,
        class,
        e,
    ) by {
        assert(spec_entry_ok(before, blocks, stack, class, e));
        let i = choose|i: int| 0 <= i < blocks.len() && blocks[i] == stack[e];
        assert(stack.contains(stack[e]));
        assert(i != k);
        assert(spec_header_at(after, blocks[i] as int) == spec_header_at(before, blocks[i] as int));
    }
}

/// A write into the bytes that block `k` of the list covers in the arena
/// `base` changes, in any arena of the same length, no header of another
/// block of the list and no byte of another block.
pub proof fn lemma_extent_frame_on(
    base: Seq<u8>,
    before: Seq<u8>,
    after: Seq<u8>,
    brk: int,
    head: int,
    blocks: Seq<usize>,
    k: int,
    lo: int,
    hi: int,
)
    requires
        spec_chain_ok(base, brk, head, blocks),
        brk <= base.len(),
        before.len() == base.len(),
        0 <= k < blocks.len(),
        blocks[k] <= lo,
        hi <= spec_end(base, blocks[k] as int),
        spec_same_outside(before, after, lo, hi),
    ensures
        spec_others_kept(before, after, blocks, k),
        forall|i: int, at: int|
            0 <= i < blocks.len() && i != k && blocks[i] <= at < spec_end(
                base,
                #[trigger] blocks[i] as int,
            ) ==> #[trigger] after[at] == before[at],
{
    assert forall|i: int| 0 <= i < blocks.len() && i != k implies spec_header_at(
        after,
        #[trigger] blocks[i] as int,
    ) == spec_header_at(before, blocks[i] as int) by {
        assert(spec_member_ok(base, brk, blocks, i));
        assert(spec_member_ok(base, brk, blocks, k));
        if i < k {
            assert(spec_apart(base, blocks, i, k));
        } else {
            assert(spec_apart(base, blocks, k, i));
        }
        lemma_header_frame(before, after, lo, hi, blocks[i] as int);
    }
    assert forall|i: int, at: int|
        0 <= i < blocks.len() && i != k && blocks[i] <= at < spec_end(
            base,
            #[trigger] blocks[i] as int,
        ) implies #[trigger] after[at] == before[at] by {
        assert(spec_member_ok(base, brk, blocks, i));
        assert(spec_member_ok(base, brk, blocks, k));
        if i < k {
            assert(spec_apart(base, blocks, i, k));
        } else {
            assert(spec_apart(base, blocks, k, i));
        }
    }
}

/// The header `h` with `prev` in place of its link to the previous block.
pub open spec fn spec_with_prev(h: HeapBlock, prev: int) -> HeapBlock {
    HeapBlock { prev: prev as u64, ..h }
}

/// The arena `after` is the arena `before` with block `k` of the list cut
/// down to a payload of `need` bytes and a new free block made of the rest.
pub open spec fn spec_split_of(
    before: Seq<u8>,
    after: Seq<u8>,
    blocks: Seq<usize>,
    k: int,
    need: int,
) -> bool {
    let a = blocks[k] as int;
    let h = spec_header_at(before, a);
    let b = a + HEADER_SIZE + need;
    let ha = spec_header_at(after, a);
    let hb = spec_header_at(after, b);
    &&& ha.magic == h.magic
    &&& ha.flags == h.flags
    &&& ha.size == need
    &&& ha.next == b
    &&& ha.prev == h.prev
    &&& hb.magic == FREE_MAGIC
    &&& hb.flags == 1
    &&& hb.size == h.size - need - HEADER_SIZE
    &&& hb.next == h.next
    &&& hb.prev == a
    &&& k + 1 < blocks.len() ==> spec_header_at(after, blocks[k + 1] as int) == spec_with_prev(
        spec_header_at(before, blocks[k + 1] as int),
        b,
    )
    &&& forall|i: int|
        0 <= i < blocks.len() && i != k && i != k + 1 ==> spec_header_at(
            after,
            #[trigger] blocks[i] as int,
        ) == spec_header_at(before, blocks[i] as int)
}

/// What the lemmas on a split take for granted.
pub open spec fn spec_split_pre(
    before: Seq<u8>,
    after: Seq<u8>,
    brk: int,
    head: int,
    blocks: Seq<usize>,
    k: int,
    need: int,
) -> bool {
    &&& spec_chain_ok(before, brk, head, blocks)
    &&& brk <= usize::MAX
    &&& 0 <= k < blocks.len()
    &&& spec_header_at(before, blocks[k] as int).flags == 1
    &&& 0 < need
    &&& need + HEADER_SIZE < spec_header_at(before, blocks[k] as int).size
    &&& spec_split_of(before, after, blocks, k, need)
    &&& spec_block_ok(after, brk, blocks[k] as int)
    &&& spec_block_ok(after, brk, blocks[k] + HEADER_SIZE + need)
}

/// After a split every block of the list is sound.
proof fn lemma_split_members(
    before: Seq<u8>,
    after: Seq<u8>,
    brk: int,
    head: int,
    blocks: Seq<usize>,
    k: int,
    need: int,
)
    requires
        spec_split_pre(before, after, brk, head, blocks, k, need),
    ensures
        forall|j: int|
            0 <= j < blocks.len() + 1 ==> #[trigger] spec_member_ok(
                after,
                brk,
                blocks.insert(k + 1, (blocks[k] + HEADER_SIZE + need) as usize),
                j,
            ),
{
    let b = (blocks[k] + HEADER_SIZE + need) as usize;
    let more = blocks.insert(k + 1, b);
    assert(spec_member_ok(before, brk, blocks, k));
    assert forall|j: int| 0 <= j < more.len() implies #[trigger] spec_member_ok(
        after,
        brk,
        more,
        j,
    ) by {
        if j <= k {
            assert(more[j] == blocks[j]);
            assert(spec_member_ok(before, brk, blocks, j));
        } else if j > k + 1 {
            assert(more[j] == blocks[j - 1]);
            assert(spec_member_ok(before, brk, blocks, j - 1));
        } else {
            assert(more[j] == b);
        }
    }
}

/// After a split every block of the list points at its neighbours.
proof fn lemma_split_links(
    before: Seq<u8>,
    after: Seq<u8>,
    brk: int,
    head: int,
    blocks: Seq<usize>,
    k: int,
    need: int,
)
    requires
        spec_split_pre(before, after, brk, head, blocks, k, need),
    ensures
        forall|j: int|
            0 <= j < blocks.len() + 1 ==> #[trigger] spec_linked(
                after,
                blocks.insert(k + 1, (blocks[k] + HEADER_SIZE + need) as usize),
                j,
            ),
{
    let b = (blocks[k] + HEADER_SIZE + need) as usize;
    let more = blocks.insert(k + 1, b);
    assert(spec_member_ok(before, brk, blocks, k));
    assert(spec_linked(before, blocks, k));
    assert forall|j: int| 0 <= j < more.len() implies #[trigger] spec_linked(after, more, j) by {
        if j <= k {
            assert(more[j] == blocks[j]);
            assert(spec_linked(before, blocks, j));
            if j > 0 {
                assert(more[j - 1] == blocks[j - 1]);
            }
            if j < k {
                assert(more[j + 1] == blocks[j + 1]);
            } else {
                assert(more[j + 1] == b);
            }
        } else if j == k + 1 {
            assert(more[j] == b);
            assert(more[j - 1] == blocks[k]);
            if j + 1 < more.len() {
                assert(more[j + 1] == blocks[k + 1]);
            }
        } else {
            assert(more[j] == blocks[j - 1]);
            assert(spec_linked(before, blocks, j - 1));
            if j + 1 < more.len() {
                assert(more[j + 1] == blocks[j]);
            }
            if j == k + 2 {
                assert(more[j - 1] == b);
            } else {
                assert(more[j - 1] == blocks[j - 2]);
            }
        }
    }
}

/// After a split no two blocks of the list share a byte.
proof fn lemma_split_apart(
    before: Seq<u8>,
    after: Seq<u8>,
    brk: int,
    head: int,
    blocks: Seq<usize>,
    k: int,
    need: int,
)
    requires
        spec_split_pre(before, after, brk, head, blocks, k, need),
    ensures
        forall|i: int, j: int|
            0 <= i < j < blocks.len() + 1 ==> #[trigger] spec_apart(
                after,
                blocks.insert(k + 1, (blocks[k] + HEADER_SIZE + need) as usize),
                i,
                j,
            ),
{
    let b = (blocks[k] + HEADER_SIZE + need) as usize;
    let more = blocks.insert(k + 1, b);
    assert(spec_member_ok(before, brk, blocks, k));
    assert forall|i: int, j: int| 0 <= i < j < more.len() implies #[trigger] spec_apart(
        after,
        more,
        i,
        j,
    ) by {
        let oi = if i <= k {
            i
        } else {
            i - 1
        };
        let oj = if j <= k {
            j
        } else {
            j - 1
        };
        assert(spec_member_ok(before, brk, blocks, oi));
        assert(spec_member_ok(before, brk, blocks, oj));
        if oi < oj {
            assert(spec_apart(before, blocks, oi, oj));
        }
        if i != k + 1 {
            assert(more[i] == blocks[oi]);
        } else {
            assert(more[i] == b);
        }
        if j != k + 1 {
            assert(more[j] == blocks[oj]);
        } else {
            assert(more[j] == b);
        }
    }
}

/// A split moves none of the sums.
proof fn lemma_split_sums(
    before: Seq<u8>,
    after: Seq<u8>,
    brk: int,
    head: int,
    blocks: Seq<usize>,
    k: int,
    need: int,
)
    requires
        spec_split_pre(before, after, brk, head, blocks, k, need),
    ensures
        spec_covered(after, blocks.insert(k + 1, (blocks[k] + HEADER_SIZE + need) as usize))
            == spec_covered(before, blocks),
        spec_in_use(after, blocks.insert(k + 1, (blocks[k] + HEADER_SIZE + need) as usize))
            == spec_in_use(before, blocks),
        spec_live_count(after, blocks.insert(k + 1, (blocks[k] + HEADER_SIZE + need) as usize))
            == spec_live_count(before, blocks),
{
    let b = (blocks[k] + HEADER_SIZE + need) as usize;
    assert(spec_member_ok(before, brk, blocks, k));
    if k + 1 < blocks.len() {
        assert(spec_header_at(after, blocks[k + 1] as int) == spec_with_prev(
            spec_header_at(before, blocks[k + 1] as int),
            b as int,
        ));
    }
    assert forall|i: int| 0 <= i < blocks.len() && i != k implies {
        &&& spec_extent(before, #[trigger] blocks[i]) == spec_extent(after, blocks[i])
        &&& spec_allocated_bytes(before, blocks[i]) == spec_allocated_bytes(after, blocks[i])
        &&& spec_allocated_one(before, blocks[i]) == spec_allocated_one(after, blocks[i])
    } by {
        if i != k + 1 {
            assert(spec_header_at(after, blocks[i] as int) == spec_header_at(
                before,
                blocks[i] as int,
            ));
        }
    }
    lemma_sum_insert(blocks, |x: usize| spec_extent(after, x), k + 1, b);
    lemma_sum_update(blocks, |x: usize| spec_extent(before, x), |x: usize| spec_extent(after, x), k);
    lemma_sum_insert(blocks, |x: usize| spec_allocated_bytes(after, x), k + 1, b);
    lemma_sum_update(
        blocks,
        |x: usize| spec_allocated_bytes(before, x),
        |x: usize| spec_allocated_bytes(after, x),
        k,
    );
    lemma_sum_insert(blocks, |x: usize| spec_allocated_one(after, x), k + 1, b);
    lemma_sum_update(
        blocks,
        |x: usize| spec_allocated_one(before, x),
        |x: usize| spec_allocated_one(after, x),
        k,
    );
}

/// A split keeps the global list sound, with the new block behind the one
/// that was cut, and moves none of the sums.
pub proof fn lemma_split(
    before: Seq<u8>,
    after: Seq<u8>,
    brk: int,
    head: int,
    blocks: Seq<usize>,
    k: int,
    need: int,
)
    requires
        spec_split_pre(before, after, brk, head, blocks, k, need),
    ensures
        spec_chain_ok(
            after,
            brk,
            head,
            blocks.insert(k + 1, (blocks[k] + HEADER_SIZE + need) as usize),
        ),
        spec_covered(after, blocks.insert(k + 1, (blocks[k] + HEADER_SIZE + need) as usize))
            == spec_covered(before, blocks),
        spec_in_use(after, blocks.insert(k + 1, (blocks[k] + HEADER_SIZE + need) as usize))
            == spec_in_use(before, blocks),
        spec_live_count(after, blocks.insert(k + 1, (blocks[k] + HEADER_SIZE + need) as usize))
            == spec_live_count(before, blocks),
{
    let more = blocks.insert(k + 1, (blocks[k] + HEADER_SIZE + need) as usize);
    assert(more[0] == blocks[0]);
    lemma_split_members(before, after, brk, head, blocks, k, need);
    lemma_split_links(before, after, brk, head, blocks, k, need);
    lemma_split_apart(before, after, brk, head, blocks, k, need);
    lemma_split_sums(before, after, brk, head, blocks, k, need);
}

/// The stacks stay sound when the list changes, as long as every block
/// that was free and cached is still in the list with the same flags, size
/// and link to the next entry of its stack.
pub proof fn lemma_stacks_moved(
    before: Seq<u8>,
    after: Seq<u8>,
    blocks: Seq<usize>,
    later: Seq<usize>,
    caches: Seq<FastCache>,
    stacks: Seq<Seq<usize>>,
)
    requires
        spec_caches_ok(before, blocks, caches, stacks),
        forall|i: int|
            0 <= i < blocks.len() && spec_header_at(before, #[trigger] blocks[i] as int).flags
                == 3 ==> {
                &&& later.contains(blocks[i])
                &&& spec_header_at(after, blocks[i] as int).flags == 3
                &&& spec_header_at(after, blocks[i] as int).size == spec_header_at(
                    before,
                    blocks[i] as int,
                ).size
                &&& spec_header_at(after, blocks[i] as int).cache_next == spec_header_at(
                    before,
                    blocks[i] as int,
                ).cache_next
            },
    ensures
        spec_caches_ok(after, later, caches, stacks),
{
    assert forall|c: int| 0 <= c < NUM_SIZE_CLASSES implies #[trigger] spec_stack_ok(
        after,
        later,
        caches[c],
        stacks[c],
        c,
    ) by {
        assert(spec_stack_ok(before, blocks, caches[c], stacks[c], c));
        assert forall|e: int| 0 <= e < stacks[c].len() implies #[trigger] spec_entry_ok(
            after,
            later,
            stacks[c],
            c,
            e,
        ) by {
            assert(spec_entry_ok(before, blocks, stacks[c], c, e));
            let i = choose|i: int| 0 <= i < blocks.len() && blocks[i] == stacks[c][e];
            assert(spec_header_at(before, blocks[i] as int).flags == 3);
        }
    }
}

/// What the lemmas on a new chunk take for granted: the arena `after` is
/// the arena `before` with a new block of `chunk` bytes at `brk`, linked in
/// front of the global list.
pub open spec fn spec_grow_pre(
    before: Seq<u8>,
    after: Seq<u8>,
    brk: int,
    head: int,
    blocks: Seq<usize>,
    chunk: int,
) -> bool {
    &&& spec_chain_ok(before, brk, head, blocks)
    &&& brk + chunk <= usize::MAX
    &&& 0 <= brk
    &&& chunk > HEADER_SIZE
    &&& spec_block_ok(after, brk + chunk, brk)
    &&& spec_header_at(after, brk).size == chunk - HEADER_SIZE
    &&& spec_header_at(after, brk).next == head
    &&& spec_header_at(after, brk).prev == 0
    &&& blocks.len() > 0 ==> spec_header_at(after, blocks[0] as int) == spec_with_prev(
        spec_header_at(before, blocks[0] as int),
        brk,
    )
    &&& forall|i: int|
        1 <= i < blocks.len() ==> spec_header_at(after, #[trigger] blocks[i] as int)
            == spec_header_at(before, blocks[i] as int)
}

/// A new chunk keeps the global list sound, with the new block in front,
/// and adds its bytes to the bytes covered.
pub proof fn lemma_grow(
    before: Seq<u8>,
    after: Seq<u8>,
    brk: int,
    head: int,
    blocks: Seq<usize>,
    chunk: int,
)
    requires
        spec_grow_pre(before, after, brk, head, blocks, chunk),
    ensures
        spec_chain_ok(after, brk + chunk, brk, blocks.insert(0, brk as usize)),
        spec_covered(after, blocks.insert(0, brk as usize)) == spec_covered(before, blocks) + chunk,
        spec_in_use(after, blocks.insert(0, brk as usize)) == spec_in_use(before, blocks)
            + spec_allocated_bytes(after, brk as usize),
        spec_live_count(after, blocks.insert(0, brk as usize)) == spec_live_count(before, blocks)
            + spec_allocated_one(after, brk as usize),
{
    let a = brk as usize;
    let more = blocks.insert(0, a);
    assert forall|j: int| 0 <= j < more.len() implies #[trigger] spec_member_ok(
        after,
        brk + chunk,
        more,
        j,
    ) by {
        if j > 0 {
            assert(more[j] == blocks[j - 1]);
            assert(spec_member_ok(before, brk, blocks, j - 1));
        }
    }
    assert forall|j: int| 0 <= j < more.len() implies #[trigger] spec_linked(after, more, j) by {
        if j > 0 {
            assert(more[j] == blocks[j - 1]);
            assert(spec_linked(before, blocks, j - 1));
            if j + 1 < more.len() {
                assert(more[j + 1] == blocks[j]);
            }
            if j > 1 {
                assert(more[j - 1] == blocks[j - 2]);
            }
        } else {
            if more.len() > 1 {
                assert(more[1] == blocks[0]);
            }
        }
    }
    assert forall|i: int, j: int| 0 <= i < j < more.len() implies #[trigger] spec_apart(
        after,
        more,
        i,
        j,
    ) by {
        assert(more[j] == blocks[j - 1]);
        assert(spec_member_ok(before, brk, blocks, j - 1));
        if i > 0 {
            assert(more[i] == blocks[i - 1]);
            assert(spec_member_ok(before, brk, blocks, i - 1));
            assert(spec_apart(before, blocks, i - 1, j - 1));
        }
    }
    assert forall|i: int| 0 <= i < blocks.len() implies {
        &&& spec_extent(before, #[trigger] blocks[i]) == spec_extent(after, blocks[i])
        &&& spec_allocated_bytes(before, blocks[i]) == spec_allocated_bytes(after, blocks[i])
        &&& spec_allocated_one(before, blocks[i]) == spec_allocated_one(after, blocks[i])
    } by {
        if i == 0 {
            assert(spec_header_at(after, blocks[0] as int) == spec_with_prev(
                spec_header_at(before, blocks[0] as int),
                brk,
            ));
        }
    }
    lemma_sum_insert(blocks, |x: usize| spec_extent(after, x), 0, a);
    lemma_sum_same(blocks, |x: usize| spec_extent(before, x), |x: usize| spec_extent(after, x));
    lemma_sum_insert(blocks, |x: usize| spec_allocated_bytes(after, x), 0, a);
    lemma_sum_same(
        blocks,
        |x: usize| spec_allocated_bytes(before, x),
        |x: usize| spec_allocated_bytes(after, x),
    );
    lemma_sum_insert(blocks, |x: usize| spec_allocated_one(after, x), 0, a);
    lemma_sum_same(
        blocks,
        |x: usize| spec_allocated_one(before, x),
        |x: usize| spec_allocated_one(after, x),
    );
}

/// In a sound list, what `spec_first_fit` finds is a block of the list that
/// fits.
pub proof fn lemma_first_fit(mem: Seq<u8>, blocks: Seq<usize>, need: int, from: int)
    requires
        0 <= from,
    ensures
        spec_first_fit(mem, blocks, need, from) matches Some(a) ==> blocks.contains(a) && spec_fits(
            spec_header_at(mem, a as int),
            need,
        ),
    decreases blocks.len() - from,
{
    if from < blocks.len() && from < MAX_SCAN {
        if !spec_fits(spec_header_at(mem, blocks[from] as int), need) {
            lemma_first_fit(mem, blocks, need, from + 1);
        }
    }
}

/// Block `k` of the list and its successor in the list are both free, in
/// no cache, and the successor begins where block `k` ends.
pub open spec fn spec_mergeable(mem: Seq<u8>, blocks: Seq<usize>, k: int) -> bool {
    &&& 0 <= k
    &&& k + 1 < blocks.len()
    &&& spec_header_at(mem, blocks[k] as int).flags == 1
    &&& spec_header_at(mem, blocks[k + 1] as int).flags == 1
    &&& spec_end(mem, blocks[k] as int) == blocks[k + 1]
}

/// The arena `after` is the arena `before` with block `k` of the list
/// grown over its successor, and the successor gone from the list.
pub open spec fn spec_merge_of(before: Seq<u8>, after: Seq<u8>, blocks: Seq<usize>, k: int) -> bool {
    let a = blocks[k] as int;
    let h = spec_header_at(before, a);
    let hs = spec_header_at(before, blocks[k + 1] as int);
    let ha = spec_header_at(after, a);
    &&& ha.magic == h.magic
    &&& ha.flags == h.flags
    &&& ha.size == h.size + HEADER_SIZE + hs.size
    &&& ha.next == hs.next
    &&& ha.prev == h.prev
    &&& k + 2 < blocks.len() ==> spec_header_at(after, blocks[k + 2] as int) == spec_with_prev(
        spec_header_at(before, blocks[k + 2] as int),
        a,
    )
    &&& forall|i: int|
        0 <= i < blocks.len() && i != k && i != k + 1 && i != k + 2 ==> spec_header_at(
            after,
            #[trigger] blocks[i] as int,
        ) == spec_header_at(before, blocks[i] as int)
}

/// What the lemmas on a merge take for granted.
pub open spec fn spec_merge_pre(
    before: Seq<u8>,
    after: Seq<u8>,
    brk: int,
    head: int,
    blocks: Seq<usize>,
    k: int,
) -> bool {
    &&& spec_chain_ok(before, brk, head, blocks)
    &&& spec_mergeable(before, blocks, k)
    &&& spec_merge_of(before, after, blocks, k)
    &&& spec_block_ok(after, brk, blocks[k] as int)
}

/// After a merge every block of the list is sound and points at its
/// neighbours.
proof fn lemma_merge_members(
    before: Seq<u8>,
    after: Seq<u8>,
    brk: int,
    head: int,
    blocks: Seq<usize>,
    k: int,
)
    requires
        spec_merge_pre(before, after, brk, head, blocks, k),
    ensures
        forall|j: int|
            0 <= j < blocks.len() - 1 ==> #[trigger] spec_member_ok(
                after,
                brk,
                blocks.remove(k + 1),
                j,
            ),
        forall|j: int|
            0 <= j < blocks.len() - 1 ==> #[trigger] spec_linked(after, blocks.remove(k + 1), j),
{
    let fewer = blocks.remove(k + 1);
    assert(spec_linked(before, blocks, k));
    assert(spec_linked(before, blocks, k + 1));
    assert forall|j: int| 0 <= j < fewer.len() implies #[trigger] spec_member_ok(
        after,
        brk,
        fewer,
        j,
    ) by {
        if j <= k {
            assert(fewer[j] == blocks[j]);
            assert(spec_member_ok(before, brk, blocks, j));
        } else {
            assert(fewer[j] == blocks[j + 1]);
            assert(spec_member_ok(before, brk, blocks, j + 1));
        }
    }
    assert forall|j: int| 0 <= j < fewer.len() implies #[trigger] spec_linked(after, fewer, j) by {
        if j <= k {
            assert(fewer[j] == blocks[j]);
            assert(spec_linked(before, blocks, j));
            if j > 0 {
                assert(fewer[j - 1] == blocks[j - 1]);
            }
            if j < k {
                assert(fewer[j + 1] == blocks[j + 1]);
            } else if j + 1 < fewer.len() {
                assert(fewer[j + 1] == blocks[k + 2]);
            }
        } else {
            assert(fewer[j] == blocks[j + 1]);
            assert(spec_linked(before, blocks, j + 1));
            if j + 1 < fewer.len() {
                assert(fewer[j + 1] == blocks[j + 2]);
            }
            if j == k + 1 {
                assert(fewer[j - 1] == blocks[k]);
            } else {
                assert(fewer[j - 1] == blocks[j]);
            }
        }
    }
}

/// After a merge no two blocks of the list share a byte.
proof fn lemma_merge_apart(
    before: Seq<u8>,
    after: Seq<u8>,
    brk: int,
    head: int,
    blocks: Seq<usize>,
    k: int,
)
    requires
        spec_merge_pre(before, after, brk, head, blocks, k),
    ensures
        forall|i: int, j: int|
            0 <= i < j < blocks.len() - 1 ==> #[trigger] spec_apart(
                after,
                blocks.remove(k + 1),
                i,
                j,
            ),
{
    let fewer = blocks.remove(k + 1);
    assert(spec_member_ok(before, brk, blocks, k));
    assert(spec_member_ok(before, brk, blocks, k + 1));
    assert forall|i: int, j: int| 0 <= i < j < fewer.len() implies #[trigger] spec_apart(
        after,
        fewer,
        i,
        j,
    ) by {
        let oi = if i <= k {
            i
        } else {
            i + 1
        };
        let oj = if j <= k {
            j
        } else {
            j + 1
        };
        assert(fewer[i] == blocks[oi]);
        assert(fewer[j] == blocks[oj]);
        assert(spec_member_ok(before, brk, blocks, oi));
        assert(spec_member_ok(before, brk, blocks, oj));
        assert(spec_apart(before, blocks, oi, oj));
        if oi == k {
            assert(spec_apart(before, blocks, k + 1, oj));
        }
        if oj == k {
            assert(spec_apart(before, blocks, oi, k + 1));
        }
    }
}

/// A merge moves none of the sums.
proof fn lemma_merge_sums(
    before: Seq<u8>,
    after: Seq<u8>,
    brk: int,
    head: int,
    blocks: Seq<usize>,
    k: int,
)
    requires
        spec_merge_pre(before, after, brk, head, blocks, k),
    ensures
        spec_covered(after, blocks.remove(k + 1)) == spec_covered(before, blocks),
        spec_in_use(after, blocks.remove(k + 1)) == spec_in_use(before, blocks),
        spec_live_count(after, blocks.remove(k + 1)) == spec_live_count(before, blocks),
{
    assert(spec_member_ok(before, brk, blocks, k));
    assert(spec_member_ok(before, brk, blocks, k + 1));
    if k + 2 < blocks.len() {
        assert(spec_header_at(after, blocks[k + 2] as int) == spec_with_prev(
            spec_header_at(before, blocks[k + 2] as int),
            blocks[k] as int,
        ));
    }
    let fewer = blocks.remove(k + 1);
    assert forall|i: int| 0 <= i < fewer.len() && i != k implies {
        &&& spec_extent(before, #[trigger] fewer[i]) == spec_extent(after, fewer[i])
        &&& spec_allocated_bytes(before, fewer[i]) == spec_allocated_bytes(after, fewer[i])
        &&& spec_allocated_one(before, fewer[i]) == spec_allocated_one(after, fewer[i])
    } by {
        if i < k {
            assert(fewer[i] == blocks[i]);
        } else {
            assert(fewer[i] == blocks[i + 1]);
            if i + 1 != k + 2 {
                assert(spec_header_at(after, blocks[i + 1] as int) == spec_header_at(
                    before,
                    blocks[i + 1] as int,
                ));
            }
        }
    }
    assert(fewer[k] == blocks[k]);
    lemma_sum_remove(blocks, |x: usize| spec_extent(before, x), k + 1);
    lemma_sum_update(fewer, |x: usize| spec_extent(before, x), |x: usize| spec_extent(after, x), k);
    lemma_sum_remove(blocks, |x: usize| spec_allocated_bytes(before, x), k + 1);
    lemma_sum_update(
        fewer,
        |x: usize| spec_allocated_bytes(before, x),
        |x: usize| spec_allocated_bytes(after, x),
        k,
    );
    lemma_sum_remove(blocks, |x: usize| spec_allocated_one(before, x), k + 1);
    lemma_sum_update(
        fewer,
        |x: usize| spec_allocated_one(before, x),
        |x: usize| spec_allocated_one(after, x),
        k,
    );
}

/// A merge keeps the global list sound, without the block that was merged
/// into its predecessor, and moves none of the sums.
pub proof fn lemma_merge(
    before: Seq<u8>,
    after: Seq<u8>,
    brk: int,
    head: int,
    blocks: Seq<usize>,
    k: int,
)
    requires
        spec_merge_pre(before, after, brk, head, blocks, k),
    ensures
        spec_chain_ok(after, brk, head, blocks.remove(k + 1)),
        spec_covered(after, blocks.remove(k + 1)) == spec_covered(before, blocks),
        spec_in_use(after, blocks.remove(k + 1)) == spec_in_use(before, blocks),
        spec_live_count(after, blocks.remove(k + 1)) == spec_live_count(before, blocks),
{
    assert(blocks.remove(k + 1)[0] == blocks[0]);
    lemma_merge_members(before, after, brk, head, blocks, k);
    lemma_merge_apart(before, after, brk, head, blocks, k);
    lemma_merge_sums(before, after, brk, head, blocks, k);
}

/// A sum of values that are not negative is at least each of them.
pub proof fn lemma_sum_term(blocks: Seq<usize>, f: spec_fn(usize) -> int, k: int)
    requires
        0 <= k < blocks.len(),
        forall|i: int| 0 <= i < blocks.len() ==> f(#[trigger] blocks[i]) >= 0,
    ensures
        spec_sum(blocks, f) >= f(blocks[k]),
    decreases blocks.len(),
{
    let rest = blocks.drop_last();
    assert forall|i: int| 0 <= i < rest.len() implies f(#[trigger] rest[i]) >= 0 by {
        assert(rest[i] == blocks[i]);
    }
    lemma_sum_at_least(rest, f, 0);
    assert(blocks.last() == blocks[blocks.len() - 1]);
    if k < blocks.len() - 1 {
        assert(rest[k] == blocks[k]);
        lemma_sum_term(rest, f, k);
    }
}

/// None of the first `upto` blocks of the list can be merged with its
/// successor.
pub open spec fn spec_settled(mem: Seq<u8>, blocks: Seq<usize>, upto: int) -> bool {
    forall|i: int| 0 <= i < upto ==> !#[trigger] spec_mergeable(mem, blocks, i)
}

/// A merge of block `k` with its successor settles what was settled before
/// block `k`.
pub proof fn lemma_merge_settled(
    before: Seq<u8>,
    after: Seq<u8>,
    brk: int,
    head: int,
    blocks: Seq<usize>,
    k: int,
)
    requires
        spec_merge_pre(before, after, brk, head, blocks, k),
        spec_settled(before, blocks, k),
    ensures
        spec_settled(after, blocks.remove(k + 1), k),
{
    let fewer = blocks.remove(k + 1);
    assert forall|i: int| 0 <= i < k implies !#[trigger] spec_mergeable(after, fewer, i) by {
        assert(!spec_mergeable(before, blocks, i));
        assert(fewer[i] == blocks[i]);
        assert(fewer[i + 1] == blocks[i + 1]);
        assert(spec_header_at(after, blocks[i] as int) == spec_header_at(before, blocks[i] as int));
        if i + 1 < k {
            assert(spec_header_at(after, blocks[i + 1] as int) == spec_header_at(
                before,
                blocks[i + 1] as int,
            ));
        }
    }
}

} // verus!
