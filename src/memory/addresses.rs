use vstd::prelude::*;

verus! {

/// A physical memory address.
#[derive(PartialEq, Eq, Structural, Clone, Copy, Debug)]
pub struct PhysicalAddress(pub usize);

/// Whether `v` is in 48-bit canonical form: bits 48 to 63 all copy bit 47.
pub open spec fn canonical(v: usize) -> bool {
    (v as int) < 0x8000_0000_0000int || (v as int) >= 0xFFFF_8000_0000_0000int
}

/// A canonical virtual address.
#[derive(PartialEq, Eq, Structural, Clone, Copy, Debug)]
pub struct VirtualAddress(usize);

impl View for VirtualAddress {
    type V = usize;

    closed spec fn view(&self) -> usize {
        self.0
    }
}

impl PhysicalAddress {
    pub fn null() -> (r: Self)
        ensures
            r.0 == 0,
    {
        PhysicalAddress(0)
    }

    pub fn value(&self) -> (r: usize)
        ensures
            r == self.0,
    {
        self.0
    }

    pub fn from(address: usize) -> (r: Self)
        ensures
            r.0 == address,
    {
        PhysicalAddress(address)
    }

    pub fn from_u64(address: u64) -> (r: Self)
        ensures
            r.0 == address as usize,
    {
        PhysicalAddress(address as usize)
    }

    /// The address in the higher-half direct map that starts at `hhdm_offset`.
    pub fn to_virtual(self, hhdm_offset: usize) -> (r: VirtualAddress)
        requires
            self.0 + hhdm_offset <= usize::MAX,
            canonical((self.0 + hhdm_offset) as usize),
        ensures
            r@ == self.0 + hhdm_offset,
    {
        VirtualAddress(hhdm_offset + self.0)
    }

    pub fn add(self, rhs: usize) -> (r: Self)
        requires
            self.0 + rhs <= usize::MAX,
        ensures
            r.0 == self.0 + rhs,
    {
        PhysicalAddress(self.0 + rhs)
    }

    pub fn sub(self, rhs: usize) -> (r: Self)
        requires
            self.0 >= rhs,
        ensures
            r.0 == self.0 - rhs,
    {
        PhysicalAddress(self.0 - rhs)
    }

    pub fn add_address(self, rhs: PhysicalAddress) -> (r: Self)
        requires
            self.0 + rhs.0 <= usize::MAX,
        ensures
            r.0 == self.0 + rhs.0,
    {
        PhysicalAddress(self.0 + rhs.0)
    }

    pub fn sub_address(self, rhs: PhysicalAddress) -> (r: Self)
        requires
            self.0 >= rhs.0,
        ensures
            r.0 == self.0 - rhs.0,
    {
        PhysicalAddress(self.0 - rhs.0)
    }

    pub fn add_assign(&mut self, rhs: usize)
        requires
            old(self).0 + rhs <= usize::MAX,
        ensures
            final(self).0 == old(self).0 + rhs,
    {
        self.0 = self.0 + rhs;
    }

    pub fn sub_assign(&mut self, rhs: usize)
        requires
            old(self).0 >= rhs,
        ensures
            final(self).0 == old(self).0 - rhs,
    {
        self.0 = self.0 - rhs;
    }
}

impl VirtualAddress {
    pub fn value(&self) -> (r: usize)
        ensures
            r == self@,
    {
        self.0
    }

    pub fn null() -> (r: Self)
        ensures
            r@ == 0,
    {
        VirtualAddress(0)
    }

    /// Wraps `address`, which must be canonical.
    pub fn from(address: usize) -> (r: Self)
        requires
            canonical(address),
        ensures
            r@ == address,
    {
        VirtualAddress(address)
    }

    /// The bits 48 to 63 of the address.
    pub fn sign_extension(&self) -> (r: u16)
        ensures
            r as int == self@ as int / 0x1_0000_0000_0000int,
    {
        let w = self.0 as u64;
        assert(w >> 48 == w / 0x1_0000_0000_0000 && w >> 48 <= 0xFFFF) by (bit_vector);
        (w >> 48) as u16
    }

    pub fn is_canonical(&self) -> (r: bool)
        ensures
            r == canonical(self@),
    {
        let w = self.0 as u64;
        let last_bit_set = w & (1u64 << 47) != 0;
        let ext = self.sign_extension();
        assert(((w & (1u64 << 47) != 0) && w / 0x1_0000_0000_0000 == 0xFFFF)
            <==> w >= 0xFFFF_8000_0000_0000u64) by (bit_vector);
        assert(((w & (1u64 << 47) == 0) && w / 0x1_0000_0000_0000 == 0)
            <==> w < 0x8000_0000_0000u64) by (bit_vector);
        assert(w / 0x1_0000_0000_0000 != 0xFFFF && w / 0x1_0000_0000_0000 != 0
            ==> !(w < 0x8000_0000_0000u64 || w >= 0xFFFF_8000_0000_0000u64)) by (bit_vector);
        if ext == 0xFFFF {
            last_bit_set
        } else if ext == 0 {
            !last_bit_set
        } else {
            false
        }
    }

    /// Copies bit 47 of `value` into bits 48 to 63.
    pub fn sign_extend_value(value: usize) -> (r: usize)
        ensures
            canonical(r),
            r as int % 0x1_0000_0000_0000int == value as int % 0x1_0000_0000_0000int,
            canonical(value) ==> r == value,
    {
        let w = value as u64;
        let last_bit_set = w & (1u64 << 47) != 0;
        if last_bit_set {
            let r = (0xFFFFu64 << 48) | w;
            assert((w & (1u64 << 47) != 0) ==> ((0xFFFFu64 << 48) | w)
                >= 0xFFFF_8000_0000_0000u64) by (bit_vector);
            assert(((0xFFFFu64 << 48) | w) % 0x1_0000_0000_0000 == w % 0x1_0000_0000_0000)
                by (bit_vector);
            assert((w & (1u64 << 47) != 0) ==> w >= 0x8000_0000_0000u64) by (bit_vector);
            assert(w >= 0xFFFF_8000_0000_0000u64 ==> ((0xFFFFu64 << 48) | w) == w)
                by (bit_vector);
            r as usize
        } else {
            let r = !(0xFFFFu64 << 48) & w;
            assert((w & (1u64 << 47) == 0) ==> (!(0xFFFFu64 << 48) & w) < 0x8000_0000_0000u64)
                by (bit_vector);
            assert((!(0xFFFFu64 << 48) & w) % 0x1_0000_0000_0000 == w % 0x1_0000_0000_0000)
                by (bit_vector);
            assert((w & (1u64 << 47) == 0) ==> w < 0xFFFF_8000_0000_0000u64) by (bit_vector);
            assert(w < 0x8000_0000_0000u64 ==> (!(0xFFFFu64 << 48) & w) == w) by (bit_vector);
            assert((!(0xFFFFu64 << 48) & w) <= w) by (bit_vector);
            r as usize
        }
    }

    /// The direct-map address of the physical address `address`.
    pub fn from_physical(address: usize, hhdm_offset: usize) -> (r: Self)
        requires
            address + hhdm_offset <= usize::MAX,
            canonical((address + hhdm_offset) as usize),
        ensures
            r@ == address + hhdm_offset,
    {
        PhysicalAddress::from(address).to_virtual(hhdm_offset)
    }

    /// The physical address behind this direct-map address.
    pub fn to_physical(self, hhdm_offset: usize) -> (r: PhysicalAddress)
        requires
            self@ >= hhdm_offset,
        ensures
            r.0 == self@ - hhdm_offset,
    {
        PhysicalAddress(self.0 - hhdm_offset)
    }

    pub fn add(self, rhs: usize) -> (r: Self)
        requires
            self@ + rhs <= usize::MAX,
            canonical((self@ + rhs) as usize),
        ensures
            r@ == self@ + rhs,
    {
        VirtualAddress(self.0 + rhs)
    }

    pub fn sub(self, rhs: usize) -> (r: Self)
        requires
            self@ >= rhs,
            canonical((self@ - rhs) as usize),
        ensures
            r@ == self@ - rhs,
    {
        VirtualAddress(self.0 - rhs)
    }

    pub fn add_assign(&mut self, rhs: usize)
        requires
            old(self)@ + rhs <= usize::MAX,
            canonical((old(self)@ + rhs) as usize),
        ensures
            final(self)@ == old(self)@ + rhs,
    {
        self.0 = self.0 + rhs;
    }

    pub fn sub_assign(&mut self, rhs: usize)
        requires
            old(self)@ >= rhs,
            canonical((old(self)@ - rhs) as usize),
        ensures
            final(self)@ == old(self)@ - rhs,
    {
        self.0 = self.0 - rhs;
    }
}

} // verus!
