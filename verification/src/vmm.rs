//! The mapper of virtual memory: a walker of four levels of page tables.
//!
//! Physical memory is a vector of 64-bit words, and a physical address is a
//! byte address into it. Tables are pages of 512 entries, taken from the
//! memory in address order by the mapper's own page allocator; page 0 is
//! never handed out, so that address 0 can stand for "no table". Leaf
//! entries hold whatever physical address the caller maps.

use vstd::prelude::*;

verus! {

/// Bytes of a page.
pub const PAGE_BYTES: u64 = 4096;

/// Entries of a table.
pub const ENTRIES: usize = 512;

/// Flag of an entry that is in use.
pub const PAGE_PRESENT: u64 = 0x001;

/// Flag of an entry through which writes are allowed.
pub const PAGE_WRITABLE: u64 = 0x002;

/// Mask of the index into a table.
pub const PT_INDEX_MASK: u64 = 0x1FF;

/// Mask of the address in an entry.
pub const PT_ADDR_MASK: u64 = 0x000F_FFFF_FFFF_F000;

/// Most pages that the mapper manages.
pub const MAX_PAGES: usize = 0x10_0000;

/// Levels of tables above the leaf entry.
pub const LEVELS: u64 = 4;

/// Why a mapping was not made.
#[derive(Clone, Copy, Debug, PartialEq, Eq, Structural)]
pub enum MapError {
    /// No page was left for a table.
    NoMemory,
    /// `init` has not been called.
    NotInitialised,
    /// The page is mapped already.
    AlreadyMapped,
}

impl MapError {
    /// The code by which the host knows the error: -1, -2 and -3.
    pub fn code(&self) -> (code: i32)
        ensures
            code == match *self {
                MapError::NoMemory => -1i32,
                MapError::NotInitialised => -2i32,
                MapError::AlreadyMapped => -3i32,
            },
    {
        match self {
            MapError::NoMemory => -1,
            MapError::NotInitialised => -2,
            MapError::AlreadyMapped => -3,
        }
    }
}

/// One entry of a page table.
#[derive(Clone, Copy, Debug, PartialEq, Eq, Structural)]
pub struct PageTableEntry(pub u64);

impl PageTableEntry {
    /// Whether the entry is in use.
    pub open spec fn spec_is_present(&self) -> bool {
        self.0 & PAGE_PRESENT != 0
    }

    /// The physical address that the entry holds.
    pub open spec fn spec_address(&self) -> u64 {
        self.0 & PT_ADDR_MASK
    }

    /// The entry with the address bits of `addr` in place of its own.
    pub open spec fn spec_set_address(&self, addr: u64) -> PageTableEntry {
        PageTableEntry((self.0 & !PT_ADDR_MASK) | (addr & PT_ADDR_MASK))
    }

    /// The entry with `flags` in place of everything but its address.
    pub open spec fn spec_set_flags(&self, flags: u64) -> PageTableEntry {
        PageTableEntry((self.0 & PT_ADDR_MASK) | flags)
    }

    /// Whether the entry is in use.
    pub fn is_present(&self) -> (r: bool)
        ensures
            r == self.spec_is_present(),
    {
        (self.0 & PAGE_PRESENT) != 0
    }

    /// The physical address that the entry holds.
    pub fn address(&self) -> (addr: u64)
        ensures
            addr == self.spec_address(),
    {
        self.0 & PT_ADDR_MASK
    }

    /// Puts the address bits of `addr` in place of those of the entry.
    pub fn set_address(&mut self, addr: u64)
        ensures
            *final(self) == old(self).spec_set_address(addr),
    {
        self.0 = (self.0 & !PT_ADDR_MASK) | (addr & PT_ADDR_MASK);
    }

    /// Puts `flags` in place of everything but the address of the entry.
    pub fn set_flags(&mut self, flags: u64)
        ensures
            *final(self) == old(self).spec_set_flags(flags),
    {
        self.0 = (self.0 & PT_ADDR_MASK) | flags;
    }
}

/// The entry that names the table at `addr`: present and writable.
pub open spec fn spec_table_entry(addr: u64) -> PageTableEntry {
    PageTableEntry(0).spec_set_address(addr).spec_set_flags(PAGE_PRESENT | PAGE_WRITABLE)
}

/// The leaf entry that maps to `paddr` with `flags`, written over `was`.
pub open spec fn spec_leaf_entry(was: PageTableEntry, paddr: u64, flags: u64) -> PageTableEntry {
    was.spec_set_address(paddr).spec_set_flags(flags | PAGE_PRESENT)
}

/// The index into the table of level `level` (0 for the top) that
/// `vaddr` selects.
pub open spec fn spec_index(vaddr: u64, level: u64) -> int {
    ((vaddr >> ((39 - 9 * level) as u64)) & PT_INDEX_MASK) as int
}

/// Entry `index` of the table at physical address `table`.
pub open spec fn spec_entry(mem: Seq<u64>, table: u64, index: int) -> PageTableEntry {
    PageTableEntry(mem[table / 8 + index])
}

/// The table of level `level + 1` that the walk for `vaddr` finds in the
/// table `table` of level `level`, 0 if the entry is not in use.
pub open spec fn spec_next_table(mem: Seq<u64>, table: u64, vaddr: u64, level: u64) -> u64 {
    let e = spec_entry(mem, table, spec_index(vaddr, level));
    if e.spec_is_present() {
        e.spec_address()
    } else {
        0
    }
}

/// The page table (the table of level 3) for `vaddr` under the top table
/// `top`, 0 if a table on the way is missing.
pub open spec fn spec_leaf_table(mem: Seq<u64>, top: u64, vaddr: u64) -> u64 {
    let pdp = if top == 0 {
        0
    } else {
        spec_next_table(mem, top, vaddr, 0)
    };
    let pd = if pdp == 0 {
        0
    } else {
        spec_next_table(mem, pdp, vaddr, 1)
    };
    if pd == 0 {
        0
    } else {
        spec_next_table(mem, pd, vaddr, 2)
    }
}

/// What `vaddr` is mapped to under the top table `top`: the leaf entry, if
/// all tables on the way are there and the entry is in use.
pub open spec fn spec_lookup(mem: Seq<u64>, top: u64, vaddr: u64) -> Option<PageTableEntry> {
    let pt = spec_leaf_table(mem, top, vaddr);
    if pt == 0 {
        None
    } else {
        let e = spec_entry(mem, pt, spec_index(vaddr, 3));
        if e.spec_is_present() {
            Some(e)
        } else {
            None
        }
    }
}

/// An entry that names a table holds the address of the table, and is in
/// use.
pub proof fn lemma_table_entry(addr: u64)
    requires
        addr % PAGE_BYTES == 0,
        addr < 0x10_0000_0000_0000,
    ensures
        spec_table_entry(addr).spec_is_present(),
        spec_table_entry(addr).spec_address() == addr,
{
    assert(((((0u64 & !0x000F_FFFF_FFFF_F000u64) | (addr & 0x000F_FFFF_FFFF_F000u64))
        & 0x000F_FFFF_FFFF_F000u64) | (1u64 | 2u64)) & 1u64 != 0) by (bit_vector);
    assert(addr % 4096 == 0 && addr < 0x10_0000_0000_0000u64 ==> ((((0u64
        & !0x000F_FFFF_FFFF_F000u64) | (addr & 0x000F_FFFF_FFFF_F000u64))
        & 0x000F_FFFF_FFFF_F000u64) | (1u64 | 2u64)) & 0x000F_FFFF_FFFF_F000u64 == addr)
        by (bit_vector);
}

/// A leaf entry is in use.
pub proof fn lemma_leaf_entry(was: PageTableEntry, paddr: u64, flags: u64)
    ensures
        spec_leaf_entry(was, paddr, flags).spec_is_present(),
{
    let w = was.0;
    assert(((((w & !0x000F_FFFF_FFFF_F000u64) | (paddr & 0x000F_FFFF_FFFF_F000u64))
        & 0x000F_FFFF_FFFF_F000u64) | (flags | 1u64)) & 1u64 != 0) by (bit_vector);
}

/// An entry of zero is not in use.
pub proof fn lemma_zero_entry()
    ensures
        !PageTableEntry(0).spec_is_present(),
{
    assert(0u64 & 1u64 == 0) by (bit_vector);
}

/// The address in an entry is a multiple of the page size below 2^52, and
/// an index is below 512.
pub proof fn lemma_entry_bounds(e: PageTableEntry, vaddr: u64, level: u64)
    requires
        level < LEVELS,
    ensures
        e.spec_address() % PAGE_BYTES == 0,
        e.spec_address() < 0x10_0000_0000_0000,
        0 <= spec_index(vaddr, level) < ENTRIES,
{
    let v = e.0;
    assert((v & 0x000F_FFFF_FFFF_F000u64) % 4096 == 0) by (bit_vector);
    assert((v & 0x000F_FFFF_FFFF_F000u64) < 0x10_0000_0000_0000u64) by (bit_vector);
    let shift = (39 - 9 * level) as u64;
    assert((vaddr >> shift) & 0x1FFu64 < 512) by (bit_vector);
}

/// Tables that the walk for `vaddr` under the top table `top` misses on
/// its way to the leaf entry.
pub open spec fn spec_missing(mem: Seq<u64>, top: u64, vaddr: u64) -> int {
    let pdp = spec_next_table(mem, top, vaddr, 0);
    if pdp == 0 {
        3
    } else {
        let pd = spec_next_table(mem, pdp, vaddr, 1);
        if pd == 0 {
            2
        } else if spec_next_table(mem, pd, vaddr, 2) == 0 {
            1
        } else {
            0
        }
    }
}

/// The page at `addr` is a table of level `level`: a page that was handed
/// out for that level.
pub open spec fn spec_is_table(levels: Seq<int>, addr: u64, level: int) -> bool {
    &&& addr % PAGE_BYTES == 0
    &&& 0 < addr / PAGE_BYTES < levels.len()
    &&& levels[(addr / PAGE_BYTES) as int] == level
}

/// Entry `i` of page `p`.
pub open spec fn spec_slot(mem: Seq<u64>, p: int, i: int) -> PageTableEntry {
    PageTableEntry(mem[p * ENTRIES + i])
}

/// The entry `e`, entry `i` of page `p`, names a table of the next level,
/// which is reached by the indices that lead to page `p` and then `i`.
pub open spec fn spec_child_ok(
    levels: Seq<int>,
    paths: Seq<int>,
    p: int,
    i: int,
    e: PageTableEntry,
) -> bool {
    &&& spec_is_table(levels, e.spec_address(), levels[p] + 1)
    &&& paths[(e.spec_address() / PAGE_BYTES) as int] == paths[p] * ENTRIES + i
}

/// Every entry in use of a table above the page tables names a table of
/// the next level, and no table is reached by two ways.
pub open spec fn spec_tables_ok(mem: Seq<u64>, levels: Seq<int>, paths: Seq<int>) -> bool {
    forall|p: int, i: int|
        0 < p < levels.len() && 0 <= levels[p] <= 2 && 0 <= i < ENTRIES && (#[trigger] spec_slot(
            mem,
            p,
            i,
        )).spec_is_present() ==> spec_child_ok(levels, paths, p, i, spec_slot(mem, p, i))
}

/// The indices that `vaddr` selects in the tables above level `level`, as
/// one number: the way to the table of level `level` for `vaddr`.
pub open spec fn spec_prefix(vaddr: u64, level: int) -> int {
    if level <= 0 {
        0
    } else if level == 1 {
        spec_index(vaddr, 0)
    } else if level == 2 {
        spec_index(vaddr, 0) * ENTRIES + spec_index(vaddr, 1)
    } else {
        (spec_index(vaddr, 0) * ENTRIES + spec_index(vaddr, 1)) * ENTRIES + spec_index(vaddr, 2)
    }
}

/// Whether two addresses select the same entry at every level: whether
/// they lie in the same page, as far as the tables can tell.
pub open spec fn spec_same_page(a: u64, b: u64) -> bool {
    &&& spec_index(a, 0) == spec_index(b, 0)
    &&& spec_index(a, 1) == spec_index(b, 1)
    &&& spec_index(a, 2) == spec_index(b, 2)
    &&& spec_index(a, 3) == spec_index(b, 3)
}

/// The mapper, with the physical memory that holds its tables.
pub struct Vmm {
    mem: Vec<u64>,
    next_page: usize,
    pml4: u64,
    levels: Ghost<Seq<int>>,
    paths: Ghost<Seq<int>>,
}

impl Vmm {
    /// The words of physical memory.
    pub closed spec fn memory(&self) -> Seq<u64> {
        self.mem@
    }

    /// The number of the next page to hand out.
    pub closed spec fn next_page(&self) -> int {
        self.next_page as int
    }

    /// The physical address of the top table, 0 before `init`.
    pub closed spec fn top(&self) -> u64 {
        self.pml4
    }

    /// The level of the table that each page handed out holds.
    pub closed spec fn levels(&self) -> Seq<int> {
        self.levels@
    }

    /// The way to the table that each page handed out holds: the indices
    /// that lead to it from the top table, as one number.
    pub closed spec fn paths(&self) -> Seq<int> {
        self.paths@
    }

    /// Pages of physical memory.
    pub open spec fn page_count(&self) -> int {
        (self.memory().len() as int) / (ENTRIES as int)
    }

    /// Pages that can still be handed out.
    pub open spec fn free_pages(&self) -> int {
        self.page_count() - self.next_page()
    }

    /// The tables form four levels under the top table, all in pages that
    /// were handed out.
    pub open spec fn wf(&self) -> bool {
        &&& (self.memory().len() as int) % (ENTRIES as int) == 0
        &&& 1 <= self.next_page() <= self.page_count()
        &&& self.page_count() <= MAX_PAGES
        &&& self.levels().len() == self.next_page()
        &&& self.paths().len() == self.next_page()
        &&& self.top() != 0 ==> spec_is_table(self.levels(), self.top(), 0) && self.paths()[(
        self.top() / PAGE_BYTES) as int] == 0
        &&& spec_tables_ok(self.memory(), self.levels(), self.paths())
    }

    /// What `vaddr` is mapped to.
    pub open spec fn spec_translate(&self, vaddr: u64) -> Option<PageTableEntry> {
        spec_lookup(self.memory(), self.top(), vaddr)
    }

    /// A mapper over a fresh memory of `pages` pages behind page 0, every
    /// word of it `fill`, with no top table yet.
    pub fn new(pages: usize, fill: u64) -> (vmm: Vmm)
        requires
            pages < MAX_PAGES,
        ensures
            vmm.wf(),
            vmm.top() == 0,
            vmm.next_page() == 1,
            vmm.memory().len() == (pages + 1) * ENTRIES,
            vmm.free_pages() == pages,
            forall|i: int| 0 <= i < vmm.memory().len() ==> vmm.memory()[i] == fill,
    {
        let vmm = Vmm {
            mem: vec![fill; (pages + 1) * ENTRIES],
            next_page: 1,
            pml4: 0,
            levels: Ghost(Seq::empty().push(-1int)),
            paths: Ghost(Seq::empty().push(0int)),
        };
        assert(vmm.page_count() == pages + 1) by {
            assert(((pages + 1) * 512) / 512 == pages + 1);
        }
        vmm
    }

    /// The physical address of the top table, 0 before `init`.
    pub fn pml4_phys_addr(&self) -> (addr: u64)
        ensures
            addr == self.top(),
    {
        self.pml4
    }

    /// Hands out the next page, zeroed, for a table of level `level`.
    /// Returns its physical address, 0 if no page is left.
    fn alloc_table(&mut self, level: Ghost<int>, path: Ghost<int>) -> (addr: u64)
        requires
            old(self).wf(),
            0 <= level@ <= 3,
        ensures
            final(self).wf(),
            final(self).top() == old(self).top(),
            final(self).memory().len() == old(self).memory().len(),
            (addr == 0) == (old(self).free_pages() == 0),
            addr == 0 ==> *final(self) == *old(self),
            addr != 0 ==> {
                &&& addr == old(self).next_page() * PAGE_BYTES
                &&& final(self).next_page() == old(self).next_page() + 1
                &&& final(self).levels() == old(self).levels().push(level@)
                &&& final(self).paths() == old(self).paths().push(path@)
                &&& spec_is_table(final(self).levels(), addr, level@)
                &&& forall|i: int|
                    0 <= i < old(self).next_page() * ENTRIES ==> #[trigger] final(self).memory()[i]
                        == old(self).memory()[i]
                &&& forall|i: int|
                    0 <= i < ENTRIES ==> #[trigger] final(self).memory()[old(self).next_page()
                        * ENTRIES + i] == 0
            },
    {
        if self.next_page >= self.mem.len() / ENTRIES {
            return 0;
        }
        let page: usize = self.next_page;
        let base: usize = page * ENTRIES;
        let mut i: usize = 0;
        while i < ENTRIES
            invariant
                i <= ENTRIES,
                base == page * ENTRIES,
                page == old(self).next_page(),
                page < (self.mem@.len() as int) / (ENTRIES as int),
                self.mem@.len() == old(self).memory().len(),
                self.next_page == old(self).next_page,
                self.pml4 == old(self).pml4,
                self.levels@ == old(self).levels@,
                self.paths@ == old(self).paths@,
                forall|k: int| 0 <= k < base ==> #[trigger] self.mem@[k] == old(self).memory()[k],
                forall|k: int| 0 <= k < i ==> #[trigger] self.mem@[base + k] == 0,
            decreases ENTRIES - i,
        {
            self.mem[base + i] = 0;
            i = i + 1;
        }
        self.next_page = page + 1;
        self.levels = Ghost(self.levels@.push(level@));
        self.paths = Ghost(self.paths@.push(path@));
        proof {
            lemma_zero_entry();
            assert forall|p: int, k: int|
                0 < p < self.levels().len() && 0 <= self.levels()[p] <= 2 && 0 <= k < ENTRIES && (
                #[trigger] spec_slot(self.memory(), p, k)).spec_is_present() implies spec_child_ok(
                self.levels(),
                self.paths(),
                p,
                k,
                spec_slot(self.memory(), p, k),
            ) by {
                if p < page {
                    assert(self.memory()[p * ENTRIES + k] == old(self).memory()[p * ENTRIES + k]);
                    assert(spec_slot(old(self).memory(), p, k).spec_is_present());
                    assert(spec_child_ok(
                        old(self).levels(),
                        old(self).paths(),
                        p,
                        k,
                        spec_slot(old(self).memory(), p, k),
                    ));
                } else {
                    assert(self.memory()[base + k] == 0);
                }
            }
        }
        (page as u64) * PAGE_BYTES
    }

    /// Makes the top table, once: a second call changes nothing.
    pub fn init(&mut self) -> (r: Result<(), MapError>)
        requires
            old(self).wf(),
        ensures
            final(self).wf(),
            final(self).memory().len() == old(self).memory().len(),
            old(self).top() != 0 ==> r.is_ok() && *final(self) == *old(self),
            old(self).top() == 0 ==> {
                &&& r.is_ok() == (old(self).free_pages() > 0)
                &&& r.is_err() ==> r == Err::<(), MapError>(MapError::NoMemory) && *final(self)
                    == *old(self)
                &&& r.is_ok() ==> {
                    &&& final(self).top() == old(self).next_page() * PAGE_BYTES
                    &&& final(self).next_page() == old(self).next_page() + 1
                    &&& forall|vaddr: u64| final(self).spec_translate(vaddr).is_none()
                }
            },
    {
        if self.pml4 != 0 {
            return Ok(());
        }
        let addr: u64 = self.alloc_table(Ghost(0), Ghost(0));
        if addr == 0 {
            return Err(MapError::NoMemory);
        }
        self.pml4 = addr;
        proof {
            lemma_zero_entry();
            assert forall|vaddr: u64| self.spec_translate(vaddr).is_none() by {
                lemma_entry_bounds(PageTableEntry(0), vaddr, 0);
                assert(self.memory()[old(self).next_page() * ENTRIES + spec_index(vaddr, 0)]
                    == 0);
            }
        }
        Ok(())
    }

    /// The memory `after` is the memory `before` with page `page` zeroed
    /// and word `slot` set to the entry that names that page.
    pub open spec fn spec_installed(before: Seq<u64>, after: Seq<u64>, slot: int, page: int) -> bool {
        &&& after.len() == before.len()
        &&& after[slot] == spec_table_entry((page * PAGE_BYTES) as u64).0
        &&& forall|i: int|
            0 <= i < page * ENTRIES && i != slot ==> #[trigger] after[i] == before[i]
        &&& forall|i: int| 0 <= i < ENTRIES ==> #[trigger] after[page * ENTRIES + i] == 0
    }

    /// The tables on the walk for `vaddr` are tables of their levels, each
    /// reached by the indices that `vaddr` selects above it.
    pub proof fn lemma_walk(&self, vaddr: u64)
        requires
            self.wf(),
            self.top() != 0,
        ensures
            ({
                let pdp = spec_next_table(self.memory(), self.top(), vaddr, 0);
                pdp != 0 ==> {
                    &&& spec_is_table(self.levels(), pdp, 1)
                    &&& self.paths()[(pdp / PAGE_BYTES) as int] == spec_prefix(vaddr, 1)
                    &&& ({
                        let pd = spec_next_table(self.memory(), pdp, vaddr, 1);
                        pd != 0 ==> {
                            &&& spec_is_table(self.levels(), pd, 2)
                            &&& self.paths()[(pd / PAGE_BYTES) as int] == spec_prefix(vaddr, 2)
                            &&& ({
                                let pt = spec_next_table(self.memory(), pd, vaddr, 2);
                                pt != 0 ==> {
                                    &&& spec_is_table(self.levels(), pt, 3)
                                    &&& self.paths()[(pt / PAGE_BYTES) as int] == spec_prefix(
                                        vaddr,
                                        3,
                                    )
                                    &&& pt == spec_leaf_table(self.memory(), self.top(), vaddr)
                                }
                            })
                        }
                    })
                }
            }),
    {
        let mem = self.memory();
        lemma_entry_bounds(PageTableEntry(0), vaddr, 0);
        lemma_entry_bounds(PageTableEntry(0), vaddr, 1);
        lemma_entry_bounds(PageTableEntry(0), vaddr, 2);
        let top = self.top();
        assert(spec_entry(mem, top, spec_index(vaddr, 0)) == spec_slot(
            mem,
            (top / PAGE_BYTES) as int,
            spec_index(vaddr, 0),
        )) by {
            assert(top / 8 + spec_index(vaddr, 0) == (top / PAGE_BYTES) * ENTRIES + spec_index(
                vaddr,
                0,
            ));
        }
        let pdp = spec_next_table(mem, top, vaddr, 0);
        if pdp != 0 {
            assert(spec_entry(mem, pdp, spec_index(vaddr, 1)) == spec_slot(
                mem,
                (pdp / PAGE_BYTES) as int,
                spec_index(vaddr, 1),
            )) by {
                assert(pdp / 8 + spec_index(vaddr, 1) == (pdp / PAGE_BYTES) * ENTRIES
                    + spec_index(vaddr, 1));
            }
            let pd = spec_next_table(mem, pdp, vaddr, 1);
            if pd != 0 {
                assert(spec_entry(mem, pd, spec_index(vaddr, 2)) == spec_slot(
                    mem,
                    (pd / PAGE_BYTES) as int,
                    spec_index(vaddr, 2),
                )) by {
                    assert(pd / 8 + spec_index(vaddr, 2) == (pd / PAGE_BYTES) * ENTRIES
                        + spec_index(vaddr, 2));
                }
            }
        }
    }

    /// Making a table maps nothing: after a missing table was installed,
    /// every address is mapped to what it was mapped to.
    pub proof fn lemma_install_keeps(
        &self,
        after: Vmm,
        table: u64,
        vaddr: u64,
        level: u64,
        other: u64,
    )
        requires
            self.wf(),
            after.wf(),
            after.top() == self.top(),
            level <= 2,
            spec_is_table(self.levels(), table, level as int),
            spec_next_table(self.memory(), table, vaddr, level) == 0,
            Self::spec_installed(
                self.memory(),
                after.memory(),
                table / 8 + spec_index(vaddr, level),
                self.next_page(),
            ),
        ensures
            spec_lookup(after.memory(), after.top(), other) == spec_lookup(
                self.memory(),
                self.top(),
                other,
            ),
    {
        if self.top() != 0 {
            let m = self.memory();
            let n = after.memory();
            let top = self.top();
            let fresh = (self.next_page() * PAGE_BYTES) as u64;
            let slot = table / 8 + spec_index(vaddr, level);
            self.lemma_walk(other);
            lemma_zero_entry();
            lemma_table_entry(fresh);
            lemma_entry_bounds(PageTableEntry(0), vaddr, level);
            lemma_entry_bounds(PageTableEntry(0), other, 0);
            lemma_entry_bounds(PageTableEntry(0), other, 1);
            lemma_entry_bounds(PageTableEntry(0), other, 2);
            lemma_entry_bounds(PageTableEntry(0), other, 3);
            assert(slot == (table / PAGE_BYTES) * ENTRIES + spec_index(vaddr, level));
            assert(fresh / 8 == self.next_page() * ENTRIES);
            let i0 = spec_index(other, 0);
            let i1 = spec_index(other, 1);
            let i2 = spec_index(other, 2);
            let i3 = spec_index(other, 3);
            assert(n[fresh / 8 + i1] == 0);
            assert(n[fresh / 8 + i2] == 0);
            assert(n[fresh / 8 + i3] == 0);
            assert(top / 8 + i0 == (top / PAGE_BYTES) * ENTRIES + i0);
            if top / 8 + i0 == slot {
                assert(spec_next_table(n, top, other, 0) == fresh);
            } else {
                assert(n[top / 8 + i0] == m[top / 8 + i0]);
                let pdp = spec_next_table(m, top, other, 0);
                if pdp != 0 {
                    assert(pdp / 8 + i1 == (pdp / PAGE_BYTES) * ENTRIES + i1);
                    if pdp / 8 + i1 == slot {
                        assert(spec_next_table(n, pdp, other, 1) == fresh);
                    } else {
                        assert(n[pdp / 8 + i1] == m[pdp / 8 + i1]);
                        let pd = spec_next_table(m, pdp, other, 1);
                        if pd != 0 {
                            assert(pd / 8 + i2 == (pd / PAGE_BYTES) * ENTRIES + i2);
                            if pd / 8 + i2 == slot {
                                assert(spec_next_table(n, pd, other, 2) == fresh);
                            } else {
                                assert(n[pd / 8 + i2] == m[pd / 8 + i2]);
                                let pt = spec_next_table(m, pd, other, 2);
                                if pt != 0 {
                                    assert(pt / 8 + i3 == (pt / PAGE_BYTES) * ENTRIES + i3);
                                    assert(n[pt / 8 + i3] == m[pt / 8 + i3]);
                                }
                            }
                        }
                    }
                }
            }
        }
    }

    /// A leaf entry maps its own page only: after the leaf entry for
    /// `vaddr` was written, every address in another page is mapped to
    /// what it was mapped to.
    pub proof fn lemma_leaf_keeps(&self, after: Vmm, vaddr: u64, other: u64, value: u64)
        requires
            self.wf(),
            after.top() == self.top(),
            spec_leaf_table(self.memory(), self.top(), vaddr) != 0,
            after.memory() == self.memory().update(
                spec_leaf_table(self.memory(), self.top(), vaddr) / 8 + spec_index(vaddr, 3),
                value,
            ),
            !spec_same_page(other, vaddr),
        ensures
            spec_lookup(after.memory(), after.top(), other) == spec_lookup(
                self.memory(),
                self.top(),
                other,
            ),
    {
        let m = self.memory();
        let n = after.memory();
        let top = self.top();
        let leaf = spec_leaf_table(m, top, vaddr);
        self.lemma_walk(other);
        self.lemma_walk(vaddr);
        lemma_entry_bounds(PageTableEntry(0), vaddr, 0);
        lemma_entry_bounds(PageTableEntry(0), vaddr, 1);
        lemma_entry_bounds(PageTableEntry(0), vaddr, 2);
        lemma_entry_bounds(PageTableEntry(0), vaddr, 3);
        lemma_entry_bounds(PageTableEntry(0), other, 0);
        lemma_entry_bounds(PageTableEntry(0), other, 1);
        lemma_entry_bounds(PageTableEntry(0), other, 2);
        lemma_entry_bounds(PageTableEntry(0), other, 3);
        let slot = leaf / 8 + spec_index(vaddr, 3);
        assert(slot == (leaf / PAGE_BYTES) * ENTRIES + spec_index(vaddr, 3));
        let i0 = spec_index(other, 0);
        let i1 = spec_index(other, 1);
        let i2 = spec_index(other, 2);
        let i3 = spec_index(other, 3);
        assert(top / 8 + i0 == (top / PAGE_BYTES) * ENTRIES + i0);
        assert(n[top / 8 + i0] == m[top / 8 + i0]);
        let pdp = spec_next_table(m, top, other, 0);
        if pdp != 0 {
            assert(pdp / 8 + i1 == (pdp / PAGE_BYTES) * ENTRIES + i1);
            assert(n[pdp / 8 + i1] == m[pdp / 8 + i1]);
            let pd = spec_next_table(m, pdp, other, 1);
            if pd != 0 {
                assert(pd / 8 + i2 == (pd / PAGE_BYTES) * ENTRIES + i2);
                assert(n[pd / 8 + i2] == m[pd / 8 + i2]);
                let pt = spec_next_table(m, pd, other, 2);
                if pt != 0 {
                    assert(pt / 8 + i3 == (pt / PAGE_BYTES) * ENTRIES + i3);
                    if pt == leaf {
                        assert(spec_prefix(other, 3) == spec_prefix(vaddr, 3));
                        assert(i3 != spec_index(vaddr, 3));
                    }
                    assert(n[pt / 8 + i3] == m[pt / 8 + i3]);
                }
            }
        }
    }

    /// The index into the table of level `level` that `vaddr` selects.
    pub fn index_of(vaddr: u64, level: u64) -> (index: usize)
        requires
            level < LEVELS,
        ensures
            index == spec_index(vaddr, level),
            index < ENTRIES,
    {
        let shift: u64 = 39 - 9 * level;
        proof {
            lemma_entry_bounds(PageTableEntry(0), vaddr, level);
        }
        ((vaddr >> shift) & PT_INDEX_MASK) as usize
    }

    /// The table of the next level that the walk for `vaddr` finds in the
    /// table `table` of level `level`. If the entry is not in use and
    /// `create` is set, a fresh page is zeroed and installed as that table.
    /// Returns the physical address of the table, 0 if there is none and
    /// none was made.
    pub fn get_or_create_page_table(
        &mut self,
        table: u64,
        vaddr: u64,
        level: u64,
        create: bool,
    ) -> (next: u64)
        requires
            old(self).wf(),
            level <= 2,
            spec_is_table(old(self).levels(), table, level as int),
        ensures
            final(self).wf(),
            final(self).top() == old(self).top(),
            final(self).memory().len() == old(self).memory().len(),
            spec_next_table(old(self).memory(), table, vaddr, level) != 0 ==> {
                &&& next == spec_next_table(old(self).memory(), table, vaddr, level)
                &&& *final(self) == *old(self)
            },
            spec_next_table(old(self).memory(), table, vaddr, level) == 0 && (!create || old(self).free_pages() == 0) ==> next == 0 && *final(self) == *old(self),
            spec_next_table(old(self).memory(), table, vaddr, level) == 0 && create && old(self).free_pages() > 0 ==> {
                &&& next == old(self).next_page() * PAGE_BYTES
                &&& final(self).next_page() == old(self).next_page() + 1
                &&& final(self).levels() == old(self).levels().push(level + 1)
                &&& final(self).paths() == old(self).paths().push(
                    old(self).paths()[(table / PAGE_BYTES) as int] * ENTRIES + spec_index(
                        vaddr,
                        level,
                    ),
                )
                &&& Self::spec_installed(
                    old(self).memory(),
                    final(self).memory(),
                    table / 8 + spec_index(vaddr, level),
                    old(self).next_page(),
                )
            },
            next != 0 ==> {
                &&& spec_is_table(final(self).levels(), next, level + 1)
                &&& spec_next_table(final(self).memory(), table, vaddr, level) == next
            },
            forall|other: u64| #[trigger]
                final(self).spec_translate(other) == old(self).spec_translate(other),
    {
        let index: usize = Self::index_of(vaddr, level);
        let slot: usize = (table / 8) as usize + index;
        let entry: PageTableEntry = PageTableEntry(self.mem[slot]);
        proof {
            assert(slot == (table / PAGE_BYTES) * ENTRIES + index);
            assert(spec_slot(self.memory(), (table / PAGE_BYTES) as int, index as int) == entry);
            lemma_entry_bounds(entry, vaddr, level);
        }
        if entry.is_present() {
            return entry.address();
        }
        if !create {
            return 0;
        }
        let fresh: u64 = self.alloc_table(
            Ghost(level + 1),
            Ghost(self.paths@[(table / PAGE_BYTES) as int] * ENTRIES + index),
        );
        if fresh == 0 {
            return 0;
        }
        let ghost zeroed = self.mem@;
        let mut made: PageTableEntry = PageTableEntry(0);
        made.set_address(fresh);
        made.set_flags(PAGE_PRESENT | PAGE_WRITABLE);
        self.mem[slot] = made.0;
        proof {
            lemma_table_entry(fresh);
            lemma_zero_entry();
            let page = old(self).next_page();
            assert forall|p: int, k: int|
                0 < p < self.levels().len() && 0 <= self.levels()[p] <= 2 && 0 <= k < ENTRIES && (
                #[trigger] spec_slot(self.memory(), p, k)).spec_is_present() implies spec_child_ok(
                self.levels(),
                self.paths(),
                p,
                k,
                spec_slot(self.memory(), p, k),
            ) by {
                if p * ENTRIES + k == slot {
                    assert(p == table / PAGE_BYTES);
                    assert(k == index);
                } else {
                    assert(self.memory()[p * ENTRIES + k] == zeroed[p * ENTRIES + k]);
                    assert(spec_slot(zeroed, p, k).spec_is_present());
                    assert(spec_child_ok(
                        self.levels(),
                        self.paths(),
                        p,
                        k,
                        spec_slot(zeroed, p, k),
                    ));
                }
            }
            assert forall|other: u64| #[trigger]
                self.spec_translate(other) == old(self).spec_translate(other) by {
                old(self).lemma_install_keeps(*self, table, vaddr, level, other);
            }
        }
        fresh
    }

    /// What `vaddr` is mapped to: the leaf entry, if all tables on the way
    /// are there and the entry is in use.
    pub fn translate(&self, vaddr: u64) -> (found: Option<PageTableEntry>)
        requires
            self.wf(),
        ensures
            found == self.spec_translate(vaddr),
    {
        if self.pml4 == 0 {
            return None;
        }
        let mut table: u64 = self.pml4;
        let mut level: u64 = 0;
        while level < 3
            invariant
                self.wf(),
                level <= 3,
                table != 0,
                self.top() != 0,
                spec_is_table(self.levels(), table, level as int),
                level == 0 ==> table == self.top(),
                level == 1 ==> table == spec_next_table(self.memory(), self.top(), vaddr, 0),
                level == 2 ==> spec_next_table(self.memory(), self.top(), vaddr, 0) != 0 && table
                    == spec_next_table(
                    self.memory(),
                    spec_next_table(self.memory(), self.top(), vaddr, 0),
                    vaddr,
                    1,
                ),
                level == 3 ==> table == spec_leaf_table(self.memory(), self.top(), vaddr),
            decreases 3 - level,
        {
            let index: usize = Self::index_of(vaddr, level);
            let slot: usize = (table / 8) as usize + index;
            let entry: PageTableEntry = PageTableEntry(self.mem[slot]);
            proof {
                assert(slot == (table / PAGE_BYTES) * ENTRIES + index);
                assert(spec_slot(self.memory(), (table / PAGE_BYTES) as int, index as int)
                    == entry);
            }
            if !entry.is_present() {
                return None;
            }
            proof {
                assert(spec_entry(self.memory(), table, spec_index(vaddr, level)) == entry);
                assert(spec_next_table(self.memory(), table, vaddr, level) == entry.spec_address());
            }
            table = entry.address();
            level = level + 1;
        }
        let index: usize = Self::index_of(vaddr, 3);
        let slot: usize = (table / 8) as usize + index;
        let entry: PageTableEntry = PageTableEntry(self.mem[slot]);
        if entry.is_present() {
            Some(entry)
        } else {
            None
        }
    }

    /// The leaf entry for `vaddr` as it is before a mapping is made: the
    /// entry in the page table, and zero if there is no page table yet.
    pub open spec fn spec_leaf_before(&self, vaddr: u64) -> PageTableEntry {
        let pt = spec_leaf_table(self.memory(), self.top(), vaddr);
        if pt == 0 {
            PageTableEntry(0)
        } else {
            spec_entry(self.memory(), pt, spec_index(vaddr, 3))
        }
    }

    /// A step of the walk that found or made the table `next` in the
    /// table `table` leaves the entries of every other table that was
    /// there as they were.
    proof fn lemma_step_frame(
        &self,
        after: Vmm,
        table: u64,
        vaddr: u64,
        level: u64,
        other: u64,
        other_level: int,
        index: int,
    )
        requires
            self.wf(),
            level <= 2,
            spec_is_table(self.levels(), table, level as int),
            spec_is_table(self.levels(), other, other_level),
            other_level != level,
            0 <= index < ENTRIES,
            after == *self || (after.levels() == self.levels().push(level + 1)
                && Self::spec_installed(
                self.memory(),
                after.memory(),
                table / 8 + spec_index(vaddr, level),
                self.next_page(),
            )),
        ensures
            spec_entry(after.memory(), other, index) == spec_entry(self.memory(), other, index),
            spec_is_table(after.levels(), other, other_level),
    {
        lemma_entry_bounds(PageTableEntry(0), vaddr, level);
        assert(other / 8 + index == (other / PAGE_BYTES) * ENTRIES + index);
        assert(table / 8 + spec_index(vaddr, level) == (table / PAGE_BYTES) * ENTRIES + spec_index(
            vaddr,
            level,
        ));
    }

    /// Maps the page of `vaddr` to the physical address `paddr` with the
    /// flags `flags`.
    ///
    /// The walk goes from the top table down to the page table, and makes
    /// every table that is missing on the way. The leaf entry gets the
    /// address bits of `paddr` and the flags, with the present flag set. A
    /// page that is mapped already is left as it is.
    pub fn map(&mut self, vaddr: u64, paddr: u64, flags: u64) -> (r: Result<(), MapError>)
        requires
            old(self).wf(),
        ensures
            final(self).wf(),
            final(self).top() == old(self).top(),
            final(self).memory().len() == old(self).memory().len(),
            r.is_ok() == (old(self).top() != 0 && old(self).spec_translate(vaddr).is_none()
                && spec_missing(old(self).memory(), old(self).top(), vaddr) <= old(self).free_pages()),
            old(self).top() == 0 ==> r == Err::<(), MapError>(MapError::NotInitialised) && *final(self) == *old(self),
            old(self).top() != 0 ==> {
                &&& (r == Err::<(), MapError>(MapError::AlreadyMapped)) == old(self).spec_translate(vaddr).is_some()
                &&& r == Err::<(), MapError>(MapError::AlreadyMapped) ==> *final(self) == *old(self)
                &&& (r == Err::<(), MapError>(MapError::NoMemory)) == (spec_missing(
                    old(self).memory(),
                    old(self).top(),
                    vaddr,
                ) > old(self).free_pages())
                &&& r != Err::<(), MapError>(MapError::NotInitialised)
                &&& forall|other: u64|
                    r.is_err() || !spec_same_page(other, vaddr) ==> #[trigger] final(self).spec_translate(other) == old(self).spec_translate(other)
                &&& r.is_ok() ==> {
                    &&& final(self).spec_translate(vaddr) == Some(
                        spec_leaf_entry(old(self).spec_leaf_before(vaddr), paddr, flags),
                    )
                    &&& final(self).next_page() == old(self).next_page() + spec_missing(
                        old(self).memory(),
                        old(self).top(),
                        vaddr,
                    )
                }
            },
    {
        if self.pml4 == 0 {
            return Err(MapError::NotInitialised);
        }
        let top: u64 = self.pml4;
        proof {
            lemma_zero_entry();
            lemma_entry_bounds(PageTableEntry(0), vaddr, 0);
            lemma_entry_bounds(PageTableEntry(0), vaddr, 1);
            lemma_entry_bounds(PageTableEntry(0), vaddr, 2);
            lemma_entry_bounds(PageTableEntry(0), vaddr, 3);
        }
        let pdp: u64 = self.get_or_create_page_table(top, vaddr, 0, true);
        if pdp == 0 {
            return Err(MapError::NoMemory);
        }
        let ghost s1 = *self;
        proof {
            assert(pdp / 8 + spec_index(vaddr, 1) == (pdp / PAGE_BYTES) * ENTRIES + spec_index(
                vaddr,
                1,
            ));
        }
        let pd: u64 = self.get_or_create_page_table(pdp, vaddr, 1, true);
        proof {
            s1.lemma_step_frame(*self, pdp, vaddr, 1, top, 0, spec_index(vaddr, 0));
        }
        if pd == 0 {
            return Err(MapError::NoMemory);
        }
        let ghost s2 = *self;
        proof {
            assert(pd / 8 + spec_index(vaddr, 2) == (pd / PAGE_BYTES) * ENTRIES + spec_index(
                vaddr,
                2,
            ));
        }
        let pt: u64 = self.get_or_create_page_table(pd, vaddr, 2, true);
        proof {
            s2.lemma_step_frame(*self, pd, vaddr, 2, top, 0, spec_index(vaddr, 0));
            s2.lemma_step_frame(*self, pd, vaddr, 2, pdp, 1, spec_index(vaddr, 1));
        }
        if pt == 0 {
            return Err(MapError::NoMemory);
        }
        let ghost s3 = *self;
        let index: usize = Self::index_of(vaddr, 3);
        let slot: usize = (pt / 8) as usize + index;
        let mut entry: PageTableEntry = PageTableEntry(self.mem[slot]);
        proof {
            assert(slot == (pt / PAGE_BYTES) * ENTRIES + index);
            assert(spec_leaf_table(s3.memory(), top, vaddr) == pt);
            assert(spec_entry(s3.memory(), pt, index as int) == entry);
            assert(entry == old(self).spec_leaf_before(vaddr));
        }
        if entry.is_present() {
            return Err(MapError::AlreadyMapped);
        }
        entry.set_address(paddr);
        entry.set_flags(flags | PAGE_PRESENT);
        self.mem[slot] = entry.0;
        proof {
            assert forall|other: u64| !spec_same_page(other, vaddr) implies #[trigger] self.spec_translate(
                other,
            ) == old(self).spec_translate(other) by {
                s3.lemma_leaf_keeps(*self, vaddr, other, entry.0);
                assert(s3.spec_translate(other) == s2.spec_translate(other));
                assert(s2.spec_translate(other) == s1.spec_translate(other));
                assert(s1.spec_translate(other) == old(self).spec_translate(other));
            }
            lemma_leaf_entry(old(self).spec_leaf_before(vaddr), paddr, flags);
            assert(top / 8 + spec_index(vaddr, 0) == (top / PAGE_BYTES) * ENTRIES + spec_index(
                vaddr,
                0,
            ));
            assert(pdp / 8 + spec_index(vaddr, 1) == (pdp / PAGE_BYTES) * ENTRIES + spec_index(
                vaddr,
                1,
            ));
            assert(pd / 8 + spec_index(vaddr, 2) == (pd / PAGE_BYTES) * ENTRIES + spec_index(
                vaddr,
                2,
            ));
            assert(spec_entry(self.memory(), top, spec_index(vaddr, 0)) == spec_entry(
                s3.memory(),
                top,
                spec_index(vaddr, 0),
            ));
            assert(spec_entry(self.memory(), pdp, spec_index(vaddr, 1)) == spec_entry(
                s3.memory(),
                pdp,
                spec_index(vaddr, 1),
            ));
            assert(spec_entry(self.memory(), pd, spec_index(vaddr, 2)) == spec_entry(
                s3.memory(),
                pd,
                spec_index(vaddr, 2),
            ));
            assert forall|p: int, k: int|
                0 < p < self.levels().len() && 0 <= self.levels()[p] <= 2 && 0 <= k < ENTRIES && (
                #[trigger] spec_slot(self.memory(), p, k)).spec_is_present() implies spec_child_ok(
                self.levels(),
                self.paths(),
                p,
                k,
                spec_slot(self.memory(), p, k),
            ) by {
                assert(p != pt / PAGE_BYTES);
                assert(self.memory()[p * ENTRIES + k] == s3.memory()[p * ENTRIES + k]);
                assert(spec_slot(s3.memory(), p, k).spec_is_present());
                assert(spec_child_ok(
                    s3.levels(),
                    s3.paths(),
                    p,
                    k,
                    spec_slot(s3.memory(), p, k),
                ));
            }
        }
        Ok(())
    }
}

} // verus!
