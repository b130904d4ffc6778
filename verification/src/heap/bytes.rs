//! Little-endian words in a byte arena.

use vstd::prelude::*;

verus! {

/// The 32-bit word that the four bytes from `at` on spell, low byte first.
#[verifier::opaque]
pub open spec fn spec_u32_at(mem: Seq<u8>, at: int) -> u32 {
    (mem[at] + 0x100 * mem[at + 1] + 0x1_0000 * mem[at + 2] + 0x100_0000 * mem[at + 3]) as u32
}

/// The 64-bit word that the eight bytes from `at` on spell, low byte first.
#[verifier::opaque]
pub open spec fn spec_u64_at(mem: Seq<u8>, at: int) -> u64 {
    (spec_u32_at(mem, at) + 0x1_0000_0000 * spec_u32_at(mem, at + 4)) as u64
}

/// `after` is `before` but for the bytes from `lo` up to `hi`.
pub open spec fn spec_same_outside(before: Seq<u8>, after: Seq<u8>, lo: int, hi: int) -> bool {
    &&& after.len() == before.len()
    &&& forall|i: int| 0 <= i < before.len() && !(lo <= i < hi) ==> after[i] == before[i]
}

/// A 32-bit word is read from its own four bytes only.
pub proof fn lemma_u32_frame(before: Seq<u8>, after: Seq<u8>, at: int)
    requires
        0 <= at,
        at + 4 <= before.len(),
        after.len() == before.len(),
        forall|i: int| at <= i < at + 4 ==> after[i] == before[i],
    ensures
        spec_u32_at(after, at) == spec_u32_at(before, at),
{
    reveal(spec_u32_at);
}

/// A 64-bit word is read from its own eight bytes only.
pub proof fn lemma_u64_frame(before: Seq<u8>, after: Seq<u8>, at: int)
    requires
        0 <= at,
        at + 8 <= before.len(),
        after.len() == before.len(),
        forall|i: int| at <= i < at + 8 ==> after[i] == before[i],
    ensures
        spec_u64_at(after, at) == spec_u64_at(before, at),
{
    reveal(spec_u64_at);
    lemma_u32_frame(before, after, at);
    lemma_u32_frame(before, after, at + 4);
}

/// Reads the 32-bit word at `at`.
pub fn read_u32(mem: &Vec<u8>, at: usize) -> (word: u32)
    requires
        at + 4 <= mem.len(),
    ensures
        word == spec_u32_at(mem@, at as int),
{
    proof {
        reveal(spec_u32_at);
    }
    let b0: u32 = mem[at] as u32;
    let b1: u32 = mem[at + 1] as u32;
    let b2: u32 = mem[at + 2] as u32;
    let b3: u32 = mem[at + 3] as u32;
    b0 + 0x100 * b1 + 0x1_0000 * b2 + 0x100_0000 * b3
}

/// Reads the 64-bit word at `at`.
pub fn read_u64(mem: &Vec<u8>, at: usize) -> (word: u64)
    requires
        at + 8 <= mem.len(),
    ensures
        word == spec_u64_at(mem@, at as int),
{
    proof {
        reveal(spec_u64_at);
    }
    let low: u64 = read_u32(mem, at) as u64;
    let high: u64 = read_u32(mem, at + 4) as u64;
    low + 0x1_0000_0000 * high
}

/// Writes the 32-bit word `word` at `at`.
pub fn write_u32(mem: &mut Vec<u8>, at: usize, word: u32)
    requires
        at + 4 <= old(mem).len(),
    ensures
        spec_same_outside(old(mem)@, final(mem)@, at as int, at + 4),
        spec_u32_at(final(mem)@, at as int) == word,
{
    let b0: u32 = word % 0x100;
    let r1: u32 = word / 0x100;
    let b1: u32 = r1 % 0x100;
    let r2: u32 = r1 / 0x100;
    let b2: u32 = r2 % 0x100;
    let b3: u32 = r2 / 0x100;
    mem[at] = b0 as u8;
    mem[at + 1] = b1 as u8;
    mem[at + 2] = b2 as u8;
    mem[at + 3] = b3 as u8;
    proof {
        reveal(spec_u32_at);
    }
}

/// Writes the 64-bit word `word` at `at`.
pub fn write_u64(mem: &mut Vec<u8>, at: usize, word: u64)
    requires
        at + 8 <= old(mem).len(),
    ensures
        spec_same_outside(old(mem)@, final(mem)@, at as int, at + 8),
        spec_u64_at(final(mem)@, at as int) == word,
{
    let low: u32 = (word % 0x1_0000_0000) as u32;
    let high: u32 = (word / 0x1_0000_0000) as u32;
    write_u32(mem, at, low);
    let ghost mid = mem@;
    write_u32(mem, at + 4, high);
    proof {
        reveal(spec_u64_at);
        lemma_u32_frame(mid, mem@, at as int);
    }
}

/// Sets the `len` bytes from `at` on to `byte`.
pub fn fill(mem: &mut Vec<u8>, at: usize, len: usize, byte: u8)
    requires
        at + len <= old(mem).len(),
    ensures
        spec_same_outside(old(mem)@, final(mem)@, at as int, at + len),
        forall|i: int| at <= i < at + len ==> final(mem)@[i] == byte,
{
    let mut done: usize = 0;
    while done < len
        invariant
            done <= len,
            at + len <= mem.len(),
            spec_same_outside(old(mem)@, mem@, at as int, at + done),
            forall|i: int| at <= i < at + done ==> mem@[i] == byte,
        decreases len - done,
    {
        mem[at + done] = byte;
        done = done + 1;
    }
}

/// Copies the `len` bytes from `from` on to `to` on. The two ranges must not
/// overlap.
pub fn copy(mem: &mut Vec<u8>, from: usize, to: usize, len: usize)
    requires
        from + len <= old(mem).len(),
        to + len <= old(mem).len(),
        from + len <= to || to + len <= from,
    ensures
        spec_same_outside(old(mem)@, final(mem)@, to as int, to + len),
        forall|i: int| to <= i < to + len ==> final(mem)@[i] == old(mem)@[i - to + from],
{
    let mut done: usize = 0;
    while done < len
        invariant
            done <= len,
            from + len <= mem.len(),
            to + len <= mem.len(),
            from + len <= to || to + len <= from,
            spec_same_outside(old(mem)@, mem@, to as int, to + done),
            forall|i: int| to <= i < to + done ==> mem@[i] == old(mem)@[i - to + from],
        decreases len - done,
    {
        let byte: u8 = mem[from + done];
        mem[to + done] = byte;
        done = done + 1;
    }
}

} // verus!
