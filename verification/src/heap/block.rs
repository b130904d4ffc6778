//! The block header, as a value and as 48 bytes in the arena.
//!
//! Layout, low byte first: magic (4 bytes), flags (4), size (8), next (8),
//! prev (8), cache_next (8), checksum (4), and 4 bytes unused.

use vstd::prelude::*;
use crate::heap::bytes::{
    lemma_u32_frame, lemma_u64_frame, read_u32, read_u64, spec_same_outside, spec_u32_at,
    spec_u64_at, write_u32, write_u64,
};
use crate::heap::layout::{
    ALLOC_MAGIC, FLAG_CACHED, FLAG_FREE, FREE_MAGIC, HEADER_SIZE, compute_checksum, spec_checksum,
};

verus! {

/// A block header. Addresses are offsets into the arena, and 0 is null.
#[derive(Clone, Copy, Debug, PartialEq, Eq, Structural)]
pub struct HeapBlock {
    /// `ALLOC_MAGIC` or `FREE_MAGIC`.
    pub magic: u32,
    /// `FLAG_FREE` and `FLAG_CACHED`.
    pub flags: u32,
    /// Bytes of the payload, canary included.
    pub size: u64,
    /// The next block of the global list.
    pub next: u64,
    /// The previous block of the global list.
    pub prev: u64,
    /// The next block of the fast cache that this block sits in.
    pub cache_next: u64,
    /// Checksum over address, magic, size and flags.
    pub checksum: u32,
}

/// The header that the 48 bytes from `at` on spell.
pub open spec fn spec_header_at(mem: Seq<u8>, at: int) -> HeapBlock {
    HeapBlock {
        magic: spec_u32_at(mem, at),
        flags: spec_u32_at(mem, at + 4),
        size: spec_u64_at(mem, at + 8),
        next: spec_u64_at(mem, at + 16),
        prev: spec_u64_at(mem, at + 24),
        cache_next: spec_u64_at(mem, at + 32),
        checksum: spec_u32_at(mem, at + 40),
    }
}

/// A header is read from its own 48 bytes only.
pub proof fn lemma_header_frame(before: Seq<u8>, after: Seq<u8>, lo: int, hi: int, at: int)
    requires
        spec_same_outside(before, after, lo, hi),
        0 <= at,
        at + HEADER_SIZE <= before.len(),
        at + HEADER_SIZE <= lo || hi <= at,
    ensures
        spec_header_at(after, at) == spec_header_at(before, at),
{
    lemma_u32_frame(before, after, at);
    lemma_u32_frame(before, after, at + 4);
    lemma_u64_frame(before, after, at + 8);
    lemma_u64_frame(before, after, at + 16);
    lemma_u64_frame(before, after, at + 24);
    lemma_u64_frame(before, after, at + 32);
    lemma_u32_frame(before, after, at + 40);
}

impl HeapBlock {
    /// Whether the free flag is set.
    pub open spec fn spec_is_free(&self) -> bool {
        self.flags % 2 == 1
    }

    /// Whether the cached flag is set.
    pub open spec fn spec_in_cache(&self) -> bool {
        (self.flags / 2) % 2 == 1
    }

    /// The checksum that a header with these fields has at `addr`.
    pub open spec fn spec_compute_checksum(&self, addr: int) -> u32 {
        spec_checksum(addr as u64, self.magic, self.size, self.flags)
    }

    /// The magic is one of the two, and the checksum is that of the fields
    /// at `addr`.
    pub open spec fn spec_validate(&self, addr: int) -> bool {
        &&& self.magic == ALLOC_MAGIC || self.magic == FREE_MAGIC
        &&& self.checksum == self.spec_compute_checksum(addr)
    }

    /// The header of a fresh block at `addr`: allocated or free as asked,
    /// in no cache, the links as they were.
    pub open spec fn spec_init(&self, addr: int, size: u64, is_free: bool) -> HeapBlock {
        let magic = if is_free {
            FREE_MAGIC
        } else {
            ALLOC_MAGIC
        };
        let flags = if is_free {
            FLAG_FREE
        } else {
            0u32
        };
        HeapBlock {
            magic,
            flags,
            size,
            next: self.next,
            prev: self.prev,
            cache_next: 0,
            checksum: spec_checksum(addr as u64, magic, size, flags),
        }
    }

    /// Whether the block is free.
    pub fn is_free(&self) -> (r: bool)
        ensures
            r == self.spec_is_free(),
    {
        self.flags % 2 == 1
    }

    /// Sets or clears the free flag.
    pub fn set_free(&mut self, free: bool)
        ensures
            final(self).spec_is_free() == free,
            final(self).spec_in_cache() == old(self).spec_in_cache(),
            final(self).flags == old(self).flags - (if old(self).spec_is_free() {
                1int
            } else {
                0int
            }) + (if free {
                1int
            } else {
                0int
            }),
            *final(self) == (HeapBlock { flags: final(self).flags, ..*old(self) }),
    {
        if free && self.flags % 2 == 0 {
            self.flags = self.flags + 1;
        } else if !free && self.flags % 2 == 1 {
            self.flags = self.flags - 1;
        }
    }

    /// Whether the block sits in a fast cache.
    pub fn in_cache(&self) -> (r: bool)
        ensures
            r == self.spec_in_cache(),
    {
        (self.flags / 2) % 2 == 1
    }

    /// Sets or clears the cached flag.
    pub fn set_in_cache(&mut self, cached: bool)
        ensures
            final(self).spec_in_cache() == cached,
            final(self).spec_is_free() == old(self).spec_is_free(),
            final(self).flags == old(self).flags - (if old(self).spec_in_cache() {
                2int
            } else {
                0int
            }) + (if cached {
                2int
            } else {
                0int
            }),
            *final(self) == (HeapBlock { flags: final(self).flags, ..*old(self) }),
    {
        if cached && (self.flags / 2) % 2 == 0 {
            self.flags = self.flags + 2;
        } else if !cached && (self.flags / 2) % 2 == 1 {
            self.flags = self.flags - 2;
        }
    }

    /// The checksum of this header at `addr`.
    pub fn compute_checksum(&self, addr: usize) -> (sum: u32)
        ensures
            sum == self.spec_compute_checksum(addr as int),
    {
        compute_checksum(addr as u64, self.magic, self.size, self.flags)
    }

    /// Stamps the checksum of the fields at `addr` into the header.
    pub fn seal(&mut self, addr: usize)
        ensures
            *final(self) == (HeapBlock {
                checksum: old(self).spec_compute_checksum(addr as int),
                ..*old(self)
            }),
            final(self).checksum == final(self).spec_compute_checksum(addr as int),
    {
        self.checksum = self.compute_checksum(addr);
    }

    /// Checks magic and checksum of this header at `addr`.
    pub fn validate(&self, addr: usize) -> (ok: bool)
        ensures
            ok == self.spec_validate(addr as int),
    {
        (self.magic == ALLOC_MAGIC || self.magic == FREE_MAGIC) && self.checksum
            == self.compute_checksum(addr)
    }

    /// Makes this the header of a fresh block at `addr`.
    pub fn init(&mut self, addr: usize, size: u64, is_free: bool)
        ensures
            *final(self) == old(self).spec_init(addr as int, size, is_free),
            final(self).spec_is_free() == is_free,
            !final(self).spec_in_cache(),
            final(self).magic == ALLOC_MAGIC || final(self).magic == FREE_MAGIC,
            final(self).checksum == final(self).spec_compute_checksum(addr as int),
    {
        self.magic = if is_free {
            FREE_MAGIC
        } else {
            ALLOC_MAGIC
        };
        self.size = size;
        self.flags = if is_free {
            FLAG_FREE
        } else {
            0
        };
        self.cache_next = 0;
        self.checksum = self.compute_checksum(addr);
    }

    /// The payload address of the block whose header is at `addr`.
    pub fn to_user_ptr(addr: usize) -> (ptr: usize)
        requires
            addr + HEADER_SIZE <= usize::MAX,
        ensures
            ptr == addr + HEADER_SIZE,
    {
        addr + HEADER_SIZE
    }

    /// The header address of the block whose payload is at `ptr`.
    pub fn from_user_ptr(ptr: usize) -> (addr: usize)
        requires
            ptr >= HEADER_SIZE,
        ensures
            addr == ptr - HEADER_SIZE,
    {
        ptr - HEADER_SIZE
    }

    /// Whether the block at `other` begins where this block, at `addr`, ends.
    pub fn are_adjacent(&self, addr: usize, other: usize) -> (r: bool)
        ensures
            r == (addr + HEADER_SIZE + self.size == other),
    {
        let end: u128 = addr as u128 + HEADER_SIZE as u128 + self.size as u128;
        end == other as u128
    }
}

/// Reads the header at `at`.
pub fn load_header(mem: &Vec<u8>, at: usize) -> (header: HeapBlock)
    requires
        at + HEADER_SIZE <= mem.len(),
    ensures
        header == spec_header_at(mem@, at as int),
{
    HeapBlock {
        magic: read_u32(mem, at),
        flags: read_u32(mem, at + 4),
        size: read_u64(mem, at + 8),
        next: read_u64(mem, at + 16),
        prev: read_u64(mem, at + 24),
        cache_next: read_u64(mem, at + 32),
        checksum: read_u32(mem, at + 40),
    }
}

/// Writes `header` at `at`.
pub fn store_header(mem: &mut Vec<u8>, at: usize, header: &HeapBlock)
    requires
        at + HEADER_SIZE <= old(mem).len(),
    ensures
        spec_same_outside(old(mem)@, final(mem)@, at as int, at + HEADER_SIZE),
        spec_header_at(final(mem)@, at as int) == *header,
{
    write_u32(mem, at, header.magic);
    let ghost m1 = mem@;
    write_u32(mem, at + 4, header.flags);
    let ghost m2 = mem@;
    write_u64(mem, at + 8, header.size);
    let ghost m3 = mem@;
    write_u64(mem, at + 16, header.next);
    let ghost m4 = mem@;
    write_u64(mem, at + 24, header.prev);
    let ghost m5 = mem@;
    write_u64(mem, at + 32, header.cache_next);
    let ghost m6 = mem@;
    write_u32(mem, at + 40, header.checksum);
    proof {
        let m7 = mem@;
        lemma_u32_frame(m1, m2, at as int);
        lemma_u32_frame(m2, m3, at as int);
        lemma_u32_frame(m3, m4, at as int);
        lemma_u32_frame(m4, m5, at as int);
        lemma_u32_frame(m5, m6, at as int);
        lemma_u32_frame(m6, m7, at as int);
        lemma_u32_frame(m2, m3, at + 4);
        lemma_u32_frame(m3, m4, at + 4);
        lemma_u32_frame(m4, m5, at + 4);
        lemma_u32_frame(m5, m6, at + 4);
        lemma_u32_frame(m6, m7, at + 4);
        lemma_u64_frame(m3, m4, at + 8);
        lemma_u64_frame(m4, m5, at + 8);
        lemma_u64_frame(m5, m6, at + 8);
        lemma_u64_frame(m6, m7, at + 8);
        lemma_u64_frame(m4, m5, at + 16);
        lemma_u64_frame(m5, m6, at + 16);
        lemma_u64_frame(m6, m7, at + 16);
        lemma_u64_frame(m5, m6, at + 24);
        lemma_u64_frame(m6, m7, at + 24);
        lemma_u64_frame(m6, m7, at + 32);
    }
}

} // verus!
