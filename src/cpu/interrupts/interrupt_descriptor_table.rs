use vstd::prelude::*;

use crate::cpu::segments::SegmentSelector;
use crate::cpu::{PrivilegeLevel, ring_number};

verus! {

/// Number of gates of the table.
pub const GATE_COUNT: usize = 256;

/// Index, in the global descriptor table, of the kernel's code segment.
pub const KERNEL_CODE_INDEX: u16 = 5;

#[derive(PartialEq, Eq, Structural, Clone, Copy, Debug)]
pub enum GateType {
    Interrupt,
    Trap,
}

pub open spec fn gate_bits(g: GateType) -> int {
    match g {
        GateType::Interrupt => 0x0E,
        GateType::Trap => 0x0F,
    }
}

impl GateType {
    pub fn try_from_u8(value: u8) -> (r: Option<Self>)
        ensures
            value == 0x0E ==> r == Some(GateType::Interrupt),
            value == 0x0F ==> r == Some(GateType::Trap),
            value != 0x0E && value != 0x0F ==> r is None,
    {
        match value {
            0x0E => Some(GateType::Interrupt),
            0x0F => Some(GateType::Trap),
            _ => None,
        }
    }

    fn bits(&self) -> (r: u8)
        ensures
            r == gate_bits(*self),
    {
        match self {
            GateType::Interrupt => 0x0E,
            GateType::Trap => 0x0F,
        }
    }
}

#[derive(PartialEq, Eq, Structural, Clone, Copy, Debug)]
pub enum Presence {
    Missing,
    Present,
}

impl Presence {
    pub fn try_from_u8(value: u8) -> (r: Option<Self>)
        ensures
            value == 0 ==> r == Some(Presence::Missing),
            value == 1 ==> r == Some(Presence::Present),
            value > 1 ==> r is None,
    {
        match value {
            0 => Some(Presence::Missing),
            1 => Some(Presence::Present),
            _ => None,
        }
    }
}

/// The type byte of a gate: presence (bit 7), privilege level (bits 5 and 6) and gate type
/// (bits 0 to 3).
pub open spec fn type_byte(present: bool, ring: int, gate: int) -> int {
    (if present {
        128int
    } else {
        0
    }) + ring * 32 + gate
}

/// Options of a gate.
#[derive(PartialEq, Eq, Structural, Clone, Copy, Debug)]
pub struct Attributes {
    pub interrupt_stack_table: u8,
    pub attributes: u8,
}

impl Attributes {
    /// A missing interrupt gate for ring 0.
    pub fn missing() -> (r: Self)
        ensures
            r.interrupt_stack_table == 0,
            r.attributes == type_byte(false, 0, 0x0E),
    {
        Attributes {
            interrupt_stack_table: 0,
            attributes: Self::attributes_from(Presence::Missing, PrivilegeLevel::Ring0, GateType::Interrupt),
        }
    }

    /// A present gate of the given level and type.
    pub fn from(privilege_level: PrivilegeLevel, gate_type: GateType) -> (r: Self)
        ensures
            r.interrupt_stack_table == 0,
            r.attributes == type_byte(true, ring_number(privilege_level), gate_bits(gate_type)),
    {
        Attributes {
            interrupt_stack_table: 0,
            attributes: Self::attributes_from(Presence::Present, privilege_level, gate_type),
        }
    }

    fn attributes_from(presence: Presence, privilege_level: PrivilegeLevel, gate_type: GateType) -> (r:
        u8)
        ensures
            r == type_byte(presence == Presence::Present, ring_number(privilege_level), gate_bits(gate_type)),
    {
        let p: u8 = match presence {
            Presence::Missing => 0,
            Presence::Present => 1,
        };
        let ring = privilege_level.number() as u8;
        let gate = gate_type.bits();
        assert((p << 7) | (ring << 5) | gate == p * 128 + ring * 32 + gate) by (bit_vector)
            requires
                p <= 1,
                ring <= 3,
                gate <= 15,
        ;
        (p << 7) | (ring << 5) | gate
    }

    pub fn set_present(&mut self)
        ensures
            final(self).interrupt_stack_table == old(self).interrupt_stack_table,
            final(self).attributes == old(self).attributes | 0x80,
    {
        self.attributes = self.attributes | 0x80;
    }

    /// Clears the type byte.
    pub fn set_missing(&mut self)
        ensures
            final(self).interrupt_stack_table == old(self).interrupt_stack_table,
            final(self).attributes == 0,
    {
        let a = self.attributes;
        assert(a & 0 == 0) by (bit_vector);
        self.attributes = a & 0;
    }

    pub fn set_privilege_level(&mut self, privilege_level: PrivilegeLevel)
        ensures
            final(self).interrupt_stack_table == old(self).interrupt_stack_table,
            final(self).attributes == (old(self).attributes & 0x9F) | (ring_number(privilege_level)
                * 32) as u8,
    {
        let ring = privilege_level.number() as u8;
        assert(ring << 5 == ring * 32) by (bit_vector)
            requires
                ring <= 3,
        ;
        self.attributes = (self.attributes & 0x9F) | (ring << 5);
    }

    pub fn set_gate_type(&mut self, gate_type: GateType)
        ensures
            final(self).interrupt_stack_table == old(self).interrupt_stack_table,
            final(self).attributes == (old(self).attributes & 0xF0) | gate_bits(gate_type) as u8,
    {
        self.attributes = (self.attributes & 0xF0) | gate_type.bits();
    }

    pub fn status(&self) -> (r: Presence)
        ensures
            r == if self.attributes >= 128 {
                Presence::Present
            } else {
                Presence::Missing
            },
    {
        let a = self.attributes;
        assert(a >> 7 == if a >= 128 { 1u8 } else { 0u8 }) by (bit_vector);
        if a >> 7 == 1 {
            Presence::Present
        } else {
            Presence::Missing
        }
    }

    pub fn privilege_level(&self) -> (r: PrivilegeLevel)
        ensures
            ring_number(r) == (self.attributes / 32) % 4,
    {
        let a = self.attributes;
        assert((a >> 5) & 3 == (a / 32) % 4) by (bit_vector);
        match (a >> 5) & 3 {
            0 => PrivilegeLevel::Ring0,
            1 => PrivilegeLevel::Ring1,
            2 => PrivilegeLevel::Ring2,
            _ => PrivilegeLevel::Ring3,
        }
    }

    pub fn gate_type(&self) -> (r: GateType)
        requires
            self.attributes % 16 == 0x0E || self.attributes % 16 == 0x0F,
        ensures
            gate_bits(r) == self.attributes % 16,
    {
        let a = self.attributes;
        assert(a & 0xF == a % 16) by (bit_vector);
        if a & 0xF == 0x0E {
            GateType::Interrupt
        } else {
            GateType::Trap
        }
    }
}

/// One gate of the interrupt descriptor table: the handler's address in three parts, the code
/// segment it runs in, and its options.
#[derive(PartialEq, Eq, Structural, Clone, Copy, Debug)]
pub struct Descriptor {
    pub address_1: u16,
    pub selector: SegmentSelector,
    pub attributes: Attributes,
    pub address_2: u16,
    pub address_3: u32,
    pub zero: u32,
}

/// The handler address that a descriptor holds.
pub open spec fn handler_address(d: Descriptor) -> int {
    d.address_1 + d.address_2 * 0x10000 + d.address_3 * 0x1_0000_0000
}

impl Descriptor {
    /// A gate with no handler, in the kernel's code segment.
    pub fn missing() -> (r: Self)
        ensures
            handler_address(r) == 0,
            r.attributes.attributes == type_byte(false, 0, 0x0E),
            r.selector.0 == KERNEL_CODE_INDEX * 8,
    {
        Descriptor {
            address_1: 0,
            selector: SegmentSelector::new(
                KERNEL_CODE_INDEX,
                crate::cpu::segments::DescriptorTable::GDT,
                PrivilegeLevel::Ring0,
            ),
            attributes: Attributes::missing(),
            address_2: 0,
            address_3: 0,
            zero: 0,
        }
    }

    /// Sets the handler address to `address` and sets the presence bit.
    pub fn set_handler_address(&mut self, address: u64)
        ensures
            handler_address(*final(self)) == address as int,
            final(self).attributes.attributes == old(self).attributes.attributes | 0x80,
            final(self).selector == old(self).selector,
    {
        assert((address & 0xFFFF) <= 0xFFFF && ((address >> 16) & 0xFFFF) <= 0xFFFF && ((address
            >> 32) & 0xFFFF_FFFF) <= 0xFFFF_FFFF) by (bit_vector);
        let a1 = (address & 0xFFFF) as u16;
        let a2 = ((address >> 16) & 0xFFFF) as u16;
        let a3 = ((address >> 32) & 0xFFFF_FFFF) as u32;
        assert((address & 0xFFFF) + ((address >> 16) & 0xFFFF) * 0x10000 + ((address >> 32)
            & 0xFFFF_FFFF) * 0x1_0000_0000 == address) by (bit_vector);
        self.address_1 = a1;
        self.address_2 = a2;
        self.address_3 = a3;
        self.attributes.set_present();
    }

    /// The handler address.
    pub fn address(&self) -> (r: u64)
        ensures
            r == handler_address(*self),
    {
        let a1 = self.address_1 as u64;
        let a2 = self.address_2 as u64;
        let a3 = self.address_3 as u64;
        assert(a1 | a2 << 16 | a3 << 32 == a1 + a2 * 0x10000 + a3 * 0x1_0000_0000) by (bit_vector)
            requires
                a1 <= 0xFFFF,
                a2 <= 0xFFFF,
                a3 <= 0xFFFF_FFFF,
        ;
        a1 | a2 << 16 | a3 << 32
    }
}

/// The interrupt descriptor table: `GATE_COUNT` gates.
pub struct InterruptDescriptorTable {
    gates: Vec<Descriptor>,
}

impl InterruptDescriptorTable {
    pub closed spec fn view_gates(&self) -> Seq<Descriptor> {
        self.gates@
    }

    /// A table whose gates all have no handler.
    pub fn new() -> (r: Self)
        ensures
            r.view_gates().len() == GATE_COUNT,
            forall|i: int| 0 <= i < GATE_COUNT ==> handler_address(#[trigger] r.view_gates()[i]) == 0
                && r.view_gates()[i].attributes.attributes == type_byte(false, 0, 0x0E),
    {
        let mut gates: Vec<Descriptor> = Vec::new();
        while gates.len() < GATE_COUNT
            invariant
                gates@.len() <= GATE_COUNT,
                forall|i: int| 0 <= i < gates@.len() ==> handler_address(#[trigger] gates@[i]) == 0
                    && gates@[i].attributes.attributes == type_byte(false, 0, 0x0E),
            decreases GATE_COUNT - gates@.len(),
        {
            gates.push(Descriptor::missing());
        }
        InterruptDescriptorTable { gates }
    }

    pub fn gate(&self, vector: usize) -> (r: Descriptor)
        requires
            vector < self.view_gates().len(),
        ensures
            r == self.view_gates()[vector as int],
    {
        self.gates[vector]
    }

    /// Points gate `vector` at `address` with the given level and type, present.
    pub fn set_handler(&mut self, vector: usize, address: u64, privilege_level: PrivilegeLevel, gate_type: GateType)
        requires
            vector < old(self).view_gates().len(),
        ensures
            final(self).view_gates().len() == old(self).view_gates().len(),
            forall|i: int| 0 <= i < final(self).view_gates().len() && i != vector ==> #[trigger] final(self).view_gates()[i]
                == old(self).view_gates()[i],
            handler_address(final(self).view_gates()[vector as int]) == address as int,
            final(self).view_gates()[vector as int].attributes == Attributes::from_spec(privilege_level, gate_type),
    {
        let mut d = self.gates[vector];
        d.set_handler_address(address);
        d.attributes = Attributes::from(privilege_level, gate_type);
        self.gates.set(vector, d);
    }
}

impl Attributes {
    pub open spec fn from_spec(privilege_level: PrivilegeLevel, gate_type: GateType) -> Attributes {
        Attributes {
            interrupt_stack_table: 0,
            attributes: type_byte(true, ring_number(privilege_level), gate_bits(gate_type)) as u8,
        }
    }
}

} // verus!
