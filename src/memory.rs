use vstd::prelude::*;

pub mod addresses;

pub mod frame_allocator;
pub mod paging;

pub use addresses::{PhysicalAddress, VirtualAddress};

verus! {

/// Size in bytes of one physical frame.
pub const PAGE_SIZE: usize = 4096;

/// Whether `value` is a power of two (zero is not).
pub open spec fn is_pow2(value: nat) -> bool
    decreases value,
{
    if value == 1 {
        true
    } else if value == 0 || value % 2 != 0 {
        false
    } else {
        is_pow2(value / 2)
    }
}

pub fn is_power_of_two(value: usize) -> (r: bool)
    ensures
        r == is_pow2(value as nat),
{
    let mut v: usize = value;
    while v > 1 && v % 2 == 0
        invariant
            is_pow2(v as nat) == is_pow2(value as nat),
        decreases v,
    {
        v = v / 2;
    }
    v == 1
}

/// Whether `value` is a multiple of `alignment`.
pub fn is_aligned(value: usize, alignment: usize) -> (r: bool)
    requires
        alignment > 0,
    ensures
        r == (value % alignment == 0),
{
    value % alignment == 0
}

/// The smallest multiple of `alignment` that is not below `value`.
pub fn align_up(value: usize, alignment: usize) -> (r: usize)
    requires
        alignment > 0,
        value + alignment - 1 <= usize::MAX,
    ensures
        r % alignment == 0,
        value <= r,
        r < value + alignment,
{
    let s = value + (alignment - 1);
    let q = s / alignment;
    proof {
        let a = alignment as int;
        let si = s as int;
        assert(q * a + si % a == si && 0 <= si % a < a) by (nonlinear_arith)
            requires q == si / a, a > 0;
        assert((q * a) % a == 0) by (nonlinear_arith)
            requires a > 0;
    }
    let r = q * alignment;
    r
}

/// The largest multiple of `alignment` that is not above `value`.
pub fn align_down(value: usize, alignment: usize) -> (r: usize)
    requires
        alignment > 0,
    ensures
        r % alignment == 0,
        r <= value,
        value < r + alignment,
{
    assert(value % alignment <= value) by (nonlinear_arith) requires alignment > 0;
    let r = value - value % alignment;
    proof {
        let a = alignment as int;
        let v = value as int;
        assert((v - v % a) % a == 0 && 0 <= v % a < a) by (nonlinear_arith)
            requires a > 0;
    }
    r
}

} // verus!
