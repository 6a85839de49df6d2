use vstd::prelude::*;

use crate::memory::PhysicalAddress;

verus! {

/// Number of entries of a page table.
pub const ENTRY_COUNT: usize = 512;

/// Bits of an entry that hold the physical address of the next level or of the frame.
pub const ADDRESS_MASK: u64 = 0x000F_FFFF_FFFF_F000;

/// Bits of an entry that hold flags.
pub const FLAGS_MASK: u64 = 0xFFF0_0000_0000_0FFF;

/// (P) The page is present in physical memory.
pub const PRESENT: u64 = 1;

/// (RW) Writes are allowed.
pub const WRITABLE: u64 = 2;

/// (US) Ring 3 may access the page.
pub const USER_ACCESSIBLE: u64 = 4;

/// (PWT) Write-through caching.
pub const CACHING_POLICY: u64 = 8;

/// (PCD) Caching is disabled.
pub const DISABLE_CACHING: u64 = 0x10;

/// (A) Set by the CPU when the entry is used.
pub const ACCESSED: u64 = 0x20;

/// (D) Set by the CPU when the page is written.
pub const DIRTY: u64 = 0x40;

/// (PS) The entry maps a huge page.
pub const HUGE_PAGE: u64 = 0x80;

/// (G) The translation survives address-space switches.
pub const GLOBAL_PAGE: u64 = 0x100;

/// (NX) Code may not run from the page.
pub const NO_EXECUTE: u64 = 0x8000_0000_0000_0000;

/// Flag bits of a page table entry.
#[derive(PartialEq, Eq, Structural, Clone, Copy, Debug)]
pub struct PageTableEntryFlags(u64);

impl PageTableEntryFlags {
    pub closed spec fn view_bits(self) -> u64 {
        self.0
    }

    /// The flags among `bits`; other bits are dropped.
    pub fn from_bits_truncate(bits: u64) -> (r: Self)
        ensures
            r.view_bits() == bits & FLAGS_MASK,
    {
        PageTableEntryFlags(bits & FLAGS_MASK)
    }

    pub fn bits(&self) -> (r: u64)
        ensures
            r == self.view_bits(),
    {
        self.0
    }

    pub fn contains(&self, flag: u64) -> (r: bool)
        ensures
            r == (self.view_bits() & flag == flag),
    {
        self.0 & flag == flag
    }
}

/// A 64-bit page table entry: a frame address and flags.
#[derive(PartialEq, Eq, Structural, Clone, Copy, Debug)]
pub struct PageTableEntry(u64);

impl PageTableEntry {
    pub closed spec fn raw(self) -> u64 {
        self.0
    }

    pub fn new() -> (r: Self)
        ensures
            r.raw() == 0,
    {
        PageTableEntry(0)
    }

    pub fn is_unused(&self) -> (r: bool)
        ensures
            r == (self.raw() == 0),
    {
        self.0 == 0
    }

    /// The physical address that the entry holds.
    pub fn address(&self) -> (r: PhysicalAddress)
        ensures
            r.0 == (self.raw() & ADDRESS_MASK) as usize,
    {
        PhysicalAddress::from((self.0 & ADDRESS_MASK) as usize)
    }

    pub fn flags(&self) -> (r: PageTableEntryFlags)
        ensures
            r.view_bits() == self.raw() & FLAGS_MASK,
    {
        PageTableEntryFlags::from_bits_truncate(self.0)
    }

    /// Replaces the flags, keeping the address.
    pub fn set_flags(&mut self, flags: PageTableEntryFlags)
        ensures
            final(self).raw() == (old(self).raw() & ADDRESS_MASK) | flags.view_bits(),
    {
        self.0 = (self.0 & ADDRESS_MASK) | flags.bits();
    }
}

/// A page table of `ENTRY_COUNT` entries.
pub struct PageTable {
    entries: Vec<PageTableEntry>,
}

impl PageTable {
    pub closed spec fn view_entries(&self) -> Seq<PageTableEntry> {
        self.entries@
    }

    /// A table of unused entries.
    pub fn new() -> (r: Self)
        ensures
            r.view_entries().len() == ENTRY_COUNT,
            forall|i: int| 0 <= i < ENTRY_COUNT ==> #[trigger] r.view_entries()[i].raw() == 0,
    {
        let mut entries: Vec<PageTableEntry> = Vec::new();
        while entries.len() < ENTRY_COUNT
            invariant
                entries@.len() <= ENTRY_COUNT,
                forall|i: int| 0 <= i < entries@.len() ==> #[trigger] entries@[i].raw() == 0,
            decreases ENTRY_COUNT - entries@.len(),
        {
            entries.push(PageTableEntry::new());
        }
        PageTable { entries }
    }

    /// Marks every entry unused.
    pub fn clear(&mut self)
        requires
            old(self).view_entries().len() == ENTRY_COUNT,
        ensures
            final(self).view_entries().len() == ENTRY_COUNT,
            forall|i: int| 0 <= i < ENTRY_COUNT ==> #[trigger] final(self).view_entries()[i].raw() == 0,
    {
        let mut i: usize = 0;
        while i < self.entries.len()
            invariant
                self.view_entries().len() == ENTRY_COUNT,
                i <= ENTRY_COUNT,
                forall|j: int| 0 <= j < i ==> #[trigger] self.view_entries()[j].raw() == 0,
            decreases ENTRY_COUNT - i,
        {
            self.entries.set(i, PageTableEntry::new());
            i = i + 1;
        }
    }

    /// The entries, in order.
    pub fn entries(&self) -> (r: &[PageTableEntry])
        ensures
            r@ == self.view_entries(),
    {
        self.entries.as_slice()
    }

    pub fn index(&self, index: usize) -> (r: PageTableEntry)
        requires
            index < self.view_entries().len(),
        ensures
            r == self.view_entries()[index as int],
    {
        self.entries[index]
    }

    pub fn set_entry(&mut self, index: usize, entry: PageTableEntry)
        requires
            index < old(self).view_entries().len(),
        ensures
            final(self).view_entries() == old(self).view_entries().update(index as int, entry),
    {
        self.entries.set(index, entry);
    }
}

} // verus!
