use vstd::prelude::*;

verus! {

/// Kind of a region in the bootloader's memory map.
#[derive(PartialEq, Eq, Structural, Clone, Copy, Debug)]
pub enum EntryType {
    Usable,
    Reserved,
    AcpiReclaimable,
    AcpiNvs,
    BadMemory,
    BootloaderReclaimable,
    ExecutableAndModules,
    Framebuffer,
}

/// One region of the bootloader's memory map.
#[derive(PartialEq, Eq, Structural, Clone, Copy, Debug)]
pub struct MemoryMapEntry {
    pub base: usize,
    pub length: usize,
    pub entry_type: EntryType,
}

/// The usable entries of `entries`, in their order.
pub open spec fn usable_of(entries: Seq<MemoryMapEntry>) -> Seq<MemoryMapEntry>
    decreases entries.len(),
{
    if entries.len() == 0 {
        Seq::empty()
    } else {
        let rest = usable_of(entries.drop_last());
        if entries.last().entry_type == EntryType::Usable {
            rest.push(entries.last())
        } else {
            rest
        }
    }
}

/// The memory map handed over by the bootloader, in increasing order of base address.
#[derive(Clone, Debug)]
pub struct MemoryMap {
    entries: Vec<MemoryMapEntry>,
}

impl View for MemoryMap {
    type V = Seq<MemoryMapEntry>;

    closed spec fn view(&self) -> Seq<MemoryMapEntry> {
        self.entries@
    }
}

impl MemoryMap {
    pub fn new(entries: Vec<MemoryMapEntry>) -> (r: Self)
        ensures
            r@ == entries@,
    {
        MemoryMap { entries }
    }

    pub fn entries(&self) -> (r: &Vec<MemoryMapEntry>)
        ensures
            r@ == self@,
    {
        &self.entries
    }

    /// The entries of kind `Usable`, in map order.
    pub fn usable_entries(&self) -> (r: Vec<MemoryMapEntry>)
        ensures
            r@ == usable_of(self@),
    {
        let mut out: Vec<MemoryMapEntry> = Vec::new();
        let mut i: usize = 0;
        while i < self.entries.len()
            invariant
                i <= self.entries@.len(),
                out@ == usable_of(self.entries@.take(i as int)),
            decreases self.entries@.len() - i,
        {
            let e = self.entries[i];
            proof {
                assert(self.entries@.take(i as int + 1).drop_last() =~= self.entries@.take(
                    i as int,
                ));
            }
            if e.entry_type == EntryType::Usable {
                out.push(e);
            }
            i = i + 1;
        }
        assert(self.entries@.take(i as int) =~= self.entries@);
        out
    }
}

} // verus!
