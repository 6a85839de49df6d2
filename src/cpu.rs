use vstd::prelude::*;

pub mod interrupts;
pub mod segments;

verus! {

/// CPU protection ring.
#[derive(PartialEq, Eq, Structural, Clone, Copy, Debug)]
pub enum PrivilegeLevel {
    Ring0,
    Ring1,
    Ring2,
    Ring3,
}

pub open spec fn ring_number(p: PrivilegeLevel) -> int {
    match p {
        PrivilegeLevel::Ring0 => 0,
        PrivilegeLevel::Ring1 => 1,
        PrivilegeLevel::Ring2 => 2,
        PrivilegeLevel::Ring3 => 3,
    }
}

impl PrivilegeLevel {
    /// The ring with number `value`, if there is one.
    pub fn try_from_u8(value: u8) -> (r: Option<Self>)
        ensures
            value <= 3 ==> (r matches Some(p) && ring_number(p) == value),
            value > 3 ==> r is None,
    {
        match value {
            0 => Some(PrivilegeLevel::Ring0),
            1 => Some(PrivilegeLevel::Ring1),
            2 => Some(PrivilegeLevel::Ring2),
            3 => Some(PrivilegeLevel::Ring3),
            _ => None,
        }
    }

    pub fn number(&self) -> (r: u16)
        ensures
            r == ring_number(*self),
    {
        match self {
            PrivilegeLevel::Ring0 => 0,
            PrivilegeLevel::Ring1 => 1,
            PrivilegeLevel::Ring2 => 2,
            PrivilegeLevel::Ring3 => 3,
        }
    }
}

} // verus!
