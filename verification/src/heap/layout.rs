//! Sizes, size classes and the corruption signatures of the heap.

use vstd::prelude::*;

verus! {

/// Alignment of every block header and every payload.
pub const HEAP_ALIGN: usize = 16;

/// Bytes of a block header.
pub const HEADER_SIZE: usize = 48;

/// Bytes at the end of every payload that hold the canary.
pub const CANARY_SIZE: usize = 8;

/// Smallest payload worth splitting off as a block of its own.
pub const MIN_BLOCK_SIZE: usize = 32;

/// Largest request that is served.
pub const MAX_ALLOC: usize = 0x4000_0000;

/// Number of size classes.
pub const NUM_SIZE_CLASSES: usize = 16;

/// Largest size that falls into a class.
pub const MAX_CLASS_SIZE: usize = 4096;

/// Blocks a fast cache holds at most.
pub const FAST_CACHE_SIZE: usize = 32;

/// Frees past the fast caches between two coalescing scans.
pub const COALESCE_THRESHOLD: usize = 1000;

/// Blocks a coalescing scan visits at most.
pub const COALESCE_SCAN: usize = 256;

/// Blocks a search for a free block visits at most.
pub const MAX_SCAN: usize = 64;

/// A free block fits a request of `n` bytes if its size is between `n` and
/// `FIT_SLACK * n`.
pub const FIT_SLACK: usize = 2;

/// Bytes of a page of the page allocator.
pub const PAGE_SIZE: usize = 4096;

/// Granule of the chunks that serve large requests.
pub const LARGE_CHUNK: usize = 65536;

/// Requests up to this size are served from a chunk of one page.
pub const SMALL_REQUEST: usize = 1024;

/// Magic of an allocated block.
pub const ALLOC_MAGIC: u32 = 0xDEAD_BEEF;

/// Magic of a free block.
pub const FREE_MAGIC: u32 = 0xFEED_FACE;

/// Flag bit of a free block.
pub const FLAG_FREE: u32 = 1;

/// Flag bit of a block that sits in a fast cache.
pub const FLAG_CACHED: u32 = 2;

/// Byte written over a payload when it is freed.
pub const POISON: u8 = 0xCC;

/// Constant that is mixed with the header address to give the canary.
pub const CANARY_SEED: u64 = 0xC0DE_CAFE_5AFE_B10C;

/// Start value of the checksum.
pub const CHECKSUM_BASIS: u64 = 0xCBF2_9CE4_8422_2325;

/// Multiplier of the checksum.
pub const CHECKSUM_PRIME: u64 = 0x0000_0100_0000_01B3;

/// The smallest multiple of `HEAP_ALIGN` that is not below `size`.
pub open spec fn spec_align_size(size: int) -> int {
    (size + HEAP_ALIGN - 1) / (HEAP_ALIGN as int) * HEAP_ALIGN
}

/// The size of class `class`: 16, 32, 48, 64, 96, 128, ... 3072, 4096.
pub open spec fn spec_class_size(class: int) -> int {
    if class == 0 {
        16
    } else if class == 1 {
        32
    } else if class == 2 {
        48
    } else if class == 3 {
        64
    } else if class == 4 {
        96
    } else if class == 5 {
        128
    } else if class == 6 {
        192
    } else if class == 7 {
        256
    } else if class == 8 {
        384
    } else if class == 9 {
        512
    } else if class == 10 {
        768
    } else if class == 11 {
        1024
    } else if class == 12 {
        1536
    } else if class == 13 {
        2048
    } else if class == 14 {
        3072
    } else {
        4096
    }
}

/// The first class from `from` on whose size is not below `size`, the last
/// class if there is none.
pub open spec fn spec_first_class(size: int, from: int) -> int
    decreases NUM_SIZE_CLASSES - from,
{
    if from >= NUM_SIZE_CLASSES - 1 || size <= spec_class_size(from) {
        from
    } else {
        spec_first_class(size, from + 1)
    }
}

/// The class of `size`: the smallest class whose size is not below `size`,
/// and none above the largest class.
pub open spec fn spec_size_class(size: int) -> Option<int> {
    if size > MAX_CLASS_SIZE {
        None
    } else {
        Some(spec_first_class(size, 0))
    }
}

/// The payload size of the block that serves a request of `size` bytes:
/// the request and its canary, rounded up to the alignment, and from there
/// up to the size of its class if it falls into one.
pub open spec fn spec_block_size(size: int) -> int {
    let padded = spec_align_size(size + CANARY_SIZE);
    match spec_size_class(padded) {
        Some(class) => spec_class_size(class),
        None => padded,
    }
}

/// `n` rounded up to a multiple of `granule`.
pub open spec fn spec_round_up(n: int, granule: int) -> int {
    (n + granule - 1) / granule * granule
}

/// Bytes of the chunk that is taken from the page allocator for a block of
/// payload size `need`, header included: one page for small requests, whole
/// pages up to 64 KiB, and multiples of 64 KiB above.
pub open spec fn spec_chunk_bytes(need: int) -> int {
    if need <= SMALL_REQUEST {
        PAGE_SIZE as int
    } else if need <= LARGE_CHUNK {
        spec_round_up(HEADER_SIZE + need, PAGE_SIZE as int)
    } else {
        spec_round_up(HEADER_SIZE + need, LARGE_CHUNK as int)
    }
}

/// One round of the checksum: the word is folded in, then the state is
/// multiplied by the prime, modulo 2^64.
pub open spec fn spec_mix(state: u64, word: u64) -> u64 {
    (state ^ word).wrapping_mul(CHECKSUM_PRIME)
}

/// The checksum of a header at `addr` with the given magic, size and flags.
pub open spec fn spec_checksum(addr: u64, magic: u32, size: u64, flags: u32) -> u32 {
    let h = spec_mix(
        spec_mix(spec_mix(spec_mix(CHECKSUM_BASIS, addr), magic as u64), size),
        flags as u64,
    );
    ((h / 0x1_0000_0000) as u32) ^ ((h % 0x1_0000_0000) as u32)
}

/// The canary of the block whose header is at `addr`.
pub open spec fn spec_canary(addr: u64) -> u64 {
    addr ^ CANARY_SEED
}

/// Rounds `size` up to the alignment.
pub fn align_size(size: usize) -> (aligned: usize)
    requires
        size <= usize::MAX - (HEAP_ALIGN - 1),
    ensures
        aligned == spec_align_size(size as int),
        aligned % HEAP_ALIGN == 0,
        size <= aligned < size + HEAP_ALIGN,
{
    (size + (HEAP_ALIGN - 1)) / HEAP_ALIGN * HEAP_ALIGN
}

/// The size of class `class`.
pub fn class_size(class: usize) -> (size: usize)
    requires
        class < NUM_SIZE_CLASSES,
    ensures
        size == spec_class_size(class as int),
        size % HEAP_ALIGN == 0,
        HEAP_ALIGN <= size <= MAX_CLASS_SIZE,
{
    if class == 0 {
        16
    } else if class == 1 {
        32
    } else {
        let pair: usize = (class - 2) / 2;
        let base: usize = if class % 2 == 0 {
            48
        } else {
            64
        };
        let mut size: usize = base;
        let mut doubled: usize = 0;
        while doubled < pair
            invariant
                doubled <= pair <= 6,
                2 <= class < NUM_SIZE_CLASSES,
                pair == (class - 2) / 2,
                size == spec_class_size(class - 2 * (pair - doubled)),
            decreases pair - doubled,
        {
            size = size * 2;
            doubled = doubled + 1;
        }
        size
    }
}

/// The class that serves `size`, `None` above the largest class.
pub fn get_size_class(size: usize) -> (class: Option<usize>)
    ensures
        class.is_some() == (size <= MAX_CLASS_SIZE),
        class matches Some(c) ==> {
            &&& spec_size_class(size as int) == Some(c as int)
            &&& c < NUM_SIZE_CLASSES
            &&& size <= spec_class_size(c as int)
            &&& c == 0 || size > spec_class_size(c - 1)
        },
{
    let mut i: usize = 0;
    while i < NUM_SIZE_CLASSES
        invariant
            i <= NUM_SIZE_CLASSES,
            i == 0 || size > spec_class_size(i - 1),
            i < NUM_SIZE_CLASSES ==> spec_first_class(size as int, 0) == spec_first_class(
                size as int,
                i as int,
            ),
        decreases NUM_SIZE_CLASSES - i,
    {
        if size <= class_size(i) {
            return Some(i);
        }
        i = i + 1;
    }
    None
}

/// The payload size of the block that serves a request of `size` bytes.
pub fn block_size_for(size: usize) -> (need: usize)
    requires
        0 < size <= MAX_ALLOC,
    ensures
        need == spec_block_size(size as int),
        need % HEAP_ALIGN == 0,
        size + CANARY_SIZE <= need <= MAX_ALLOC + CANARY_SIZE + HEAP_ALIGN,
{
    let padded: usize = align_size(size + CANARY_SIZE);
    match get_size_class(padded) {
        Some(class) => class_size(class),
        None => padded,
    }
}

/// Bytes of the chunk for a block of payload size `need`, header included.
pub fn chunk_bytes(need: usize) -> (bytes: usize)
    requires
        0 < need <= MAX_ALLOC + CANARY_SIZE + HEAP_ALIGN,
        need % HEAP_ALIGN == 0,
    ensures
        bytes == spec_chunk_bytes(need as int),
        bytes % PAGE_SIZE == 0,
        HEADER_SIZE + need <= bytes <= HEADER_SIZE + need + LARGE_CHUNK,
{
    if need <= SMALL_REQUEST {
        PAGE_SIZE
    } else if need <= LARGE_CHUNK {
        (HEADER_SIZE + need + (PAGE_SIZE - 1)) / PAGE_SIZE * PAGE_SIZE
    } else {
        let rounded: usize = (HEADER_SIZE + need + (LARGE_CHUNK - 1)) / LARGE_CHUNK * LARGE_CHUNK;
        assert(rounded % PAGE_SIZE == 0) by {
            let k = (HEADER_SIZE + need + (LARGE_CHUNK - 1)) / (LARGE_CHUNK as int);
            assert(rounded == k * 65536);
            assert(k * 65536 == (k * 16) * 4096);
        }
        rounded
    }
}

/// The checksum of a header at `addr` with the given magic, size and flags.
pub fn compute_checksum(addr: u64, magic: u32, size: u64, flags: u32) -> (sum: u32)
    ensures
        sum == spec_checksum(addr, magic, size, flags),
{
    let mut h: u64 = (CHECKSUM_BASIS ^ addr).wrapping_mul(CHECKSUM_PRIME);
    h = (h ^ (magic as u64)).wrapping_mul(CHECKSUM_PRIME);
    h = (h ^ size).wrapping_mul(CHECKSUM_PRIME);
    h = (h ^ (flags as u64)).wrapping_mul(CHECKSUM_PRIME);
    ((h / 0x1_0000_0000) as u32) ^ ((h % 0x1_0000_0000) as u32)
}

/// The canary of the block whose header is at `addr`.
pub fn canary_for(addr: u64) -> (canary: u64)
    ensures
        canary == spec_canary(addr),
{
    addr ^ CANARY_SEED
}

/// The size of a class falls into that class.
pub proof fn lemma_class_of_class_size(class: int)
    requires
        0 <= class < NUM_SIZE_CLASSES,
    ensures
        spec_size_class(spec_class_size(class)) == Some(class),
{
    reveal_with_fuel(spec_first_class, 17);
}

} // verus!
