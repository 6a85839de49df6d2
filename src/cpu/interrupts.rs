use vstd::prelude::*;

pub mod interrupt_descriptor_table;

use crate::cpu::segments::SegmentSelector;
use crate::memory::VirtualAddress;

verus! {

/// What the CPU pushes on the stack when it enters an interrupt handler.
#[derive(Clone, Copy, Debug)]
pub struct InterruptStackFrame {
    pub instruction_pointer: VirtualAddress,
    pub code_segment: SegmentSelector,
    pub cpu_flags: u64,
    pub stack_pointer: VirtualAddress,
    pub stack_segment: SegmentSelector,
}

/// The table that a selector error code points into.
#[derive(PartialEq, Eq, Structural, Clone, Copy, Debug)]
pub enum SelectorErrorTable {
    GDT,
    IDT,
    LDT,
}

impl SelectorErrorTable {
    /// The table that the two table bits `value` name.
    pub fn try_from_bits(value: usize) -> (r: Option<Self>)
        ensures
            value == 0 ==> r == Some(SelectorErrorTable::GDT),
            value == 1 || value == 3 ==> r == Some(SelectorErrorTable::IDT),
            value == 2 ==> r == Some(SelectorErrorTable::LDT),
            value > 3 ==> r is None,
    {
        match value {
            0 => Some(SelectorErrorTable::GDT),
            1 | 3 => Some(SelectorErrorTable::IDT),
            2 => Some(SelectorErrorTable::LDT),
            _ => None,
        }
    }
}

/// The error code that a segment-related exception pushes.
#[derive(PartialEq, Eq, Structural, Clone, Copy, Debug)]
pub struct SegmentSelectorError(pub usize);

impl SegmentSelectorError {
    /// Whether the exception originated outside the processor.
    pub fn external(&self) -> (r: bool)
        ensures
            r == (self.0 % 2 == 1),
    {
        self.0 % 2 == 1
    }

    pub fn table(&self) -> (r: SelectorErrorTable)
        ensures
            (self.0 / 2) % 4 == 0 ==> r == SelectorErrorTable::GDT,
            (self.0 / 2) % 4 == 2 ==> r == SelectorErrorTable::LDT,
            (self.0 / 2) % 2 == 1 ==> r == SelectorErrorTable::IDT,
    {
        match SelectorErrorTable::try_from_bits((self.0 / 2) % 4) {
            Some(t) => t,
            None => SelectorErrorTable::GDT,
        }
    }

    /// The selector index bits of the code.
    pub fn index(&self) -> (r: u16)
        ensures
            r == (self.0 % 0x10000) / 8 * 8,
    {
        let low = (self.0 % 0x10000) as u16;
        low / 8 * 8
    }

    pub fn is_present(&self) -> (r: bool)
        ensures
            r == (self.0 != 0),
    {
        self.0 != 0
    }
}

} // verus!
