use vstd::prelude::*;

use crate::cpu::{PrivilegeLevel, ring_number};

verus! {

/// Which descriptor table a selector points into.
#[derive(PartialEq, Eq, Structural, Clone, Copy, Debug)]
pub enum DescriptorTable {
    GDT,
    LDT,
}

/// A segment selector: index, table bit and requested privilege level.
#[derive(PartialEq, Eq, Structural, Clone, Copy, Debug)]
pub struct SegmentSelector(pub u16);

impl SegmentSelector {
    pub fn new(index: u16, descriptor_table: DescriptorTable, privilege_level: PrivilegeLevel) -> (r:
        Self)
        requires
            index < 0x2000,
        ensures
            r.0 == index * 8 + (if descriptor_table == DescriptorTable::LDT {
                4int
            } else {
                0
            }) + ring_number(privilege_level),
    {
        let table: u16 = match descriptor_table {
            DescriptorTable::GDT => 0,
            DescriptorTable::LDT => 1,
        };
        let ring = privilege_level.number();
        assert(index << 3 | (table << 2) | ring == index * 8 + table * 4 + ring) by (bit_vector)
            requires
                index < 0x2000,
                table <= 1,
                ring <= 3,
        ;
        SegmentSelector(index << 3 | (table << 2) | ring)
    }

    pub fn index(&self) -> (r: u16)
        ensures
            r == self.0 / 8,
    {
        let v = self.0;
        assert(v >> 3 == v / 8) by (bit_vector);
        v >> 3
    }

    /// The table that bit 2 of the selector names.
    pub fn descriptor_table(&self) -> (r: DescriptorTable)
        ensures
            r == if (self.0 / 4) % 2 == 1 {
                DescriptorTable::LDT
            } else {
                DescriptorTable::GDT
            },
    {
        let v = self.0;
        assert((v >> 2) & 1 == (v / 4) % 2) by (bit_vector);
        if (v >> 2) & 1 == 1 {
            DescriptorTable::LDT
        } else {
            DescriptorTable::GDT
        }
    }
}

} // verus!
