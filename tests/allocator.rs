use buddy_kernel::boot::{EntryType, MemoryMap, MemoryMapEntry};
use buddy_kernel::memory::frame_allocator::{BlockState, BuddyAllocator, InitializationError};
use buddy_kernel::memory::{PhysicalAddress, PAGE_SIZE};

fn entry(base: usize, length: usize, entry_type: EntryType) -> MemoryMapEntry {
    MemoryMapEntry { base, length, entry_type }
}

fn one_usable_region_map() -> MemoryMap {
    MemoryMap::new(vec![
        entry(0, 0x1000, EntryType::Reserved),
        entry(0x1000, 0x1000000, EntryType::Usable),
    ])
}

fn free_leaves(a: &BuddyAllocator) -> usize {
    let first = 1usize << a.max_order();
    (first..2 * first).filter(|&i| a.block_state(i) == BlockState::Free).count()
}

#[test]
fn pages_run_out_after_every_free_page() {
    let mut a = BuddyAllocator::new_embedded(one_usable_region_map()).unwrap();
    assert_eq!(a.max_order(), 12);
    // metadata: 13 words of hints and 8192 cells, from 0x1000, rounded up to a page
    assert_eq!(a.region_start(), PhysicalAddress(0x4000));
    assert_eq!(a.region_end(), PhysicalAddress(0x1001000));
    let n = free_leaves(&a);
    assert_eq!(n, (0x1001000 - 0x4000) / PAGE_SIZE);
    for _ in 0..n {
        assert!(a.can_allocate_order(12));
        a.allocate_exact(PAGE_SIZE);
    }
    assert!(!a.can_allocate_order(12));
    assert_eq!(free_leaves(&a), 0);
}

#[test]
fn fill_and_drain_restores_free_count() {
    let mut a = BuddyAllocator::new_embedded(one_usable_region_map()).unwrap();
    let n = free_leaves(&a);
    let mut got = Vec::new();
    for _ in 0..n {
        got.push(a.allocate_exact(PAGE_SIZE));
    }
    assert!(!a.can_allocate_order(a.max_order()));
    for p in got {
        assert!(a.allocated_block_at(p).is_some());
        a.free(p);
    }
    assert_eq!(free_leaves(&a), n);
}

#[test]
fn coverage_of_reserved_leaves() {
    let map = MemoryMap::new(vec![
        entry(0x1000, 0x10000, EntryType::Usable),
        entry(0x11000, 0x3000, EntryType::AcpiReclaimable),
        entry(0x14000, 0x8000, EntryType::Usable),
        entry(0x20000, 0x4000, EntryType::Usable),
    ]);
    let a = BuddyAllocator::new_embedded(map).unwrap();
    let start = a.region_start().value();
    let first = 1usize << a.max_order();
    let usable = [(0x1000, 0x11000), (0x14000, 0x1c000), (0x20000, 0x24000)];
    for v in 0..first {
        let page = start + v * PAGE_SIZE;
        let inside = usable.iter().any(|&(b, e)| b <= page && page < e);
        assert_eq!(a.block_state(first + v) == BlockState::Reserved, !inside, "page {page:#x}");
    }
}

#[test]
fn same_address_after_free() {
    let mut a = BuddyAllocator::new_embedded(one_usable_region_map()).unwrap();
    let p = a.allocate_exact(PAGE_SIZE);
    a.free(p);
    let q = a.allocate_exact(PAGE_SIZE);
    assert_eq!(p, q);
}

#[test]
fn buddies_coalesce_into_parent() {
    let mut a = BuddyAllocator::new_embedded(one_usable_region_map()).unwrap();
    let p = a.allocate_exact(PAGE_SIZE);
    let q = a.allocate_exact(PAGE_SIZE);
    assert_eq!(p, a.region_start());
    assert_eq!(q.value(), p.value() + PAGE_SIZE);
    a.free(p);
    a.free(q);
    let r = a.allocate_exact(2 * PAGE_SIZE);
    assert_eq!(r, a.region_start());
}

#[test]
fn halves_and_quarters_of_a_region() {
    let map = MemoryMap::new(vec![entry(0, 0x1000000, EntryType::Usable)]);
    let mut a = BuddyAllocator::new_embedded(map).unwrap();
    let half = 0x800000;
    assert!(a.can_allocate_order(1));
    let p = a.allocate_exact(half);
    assert_eq!(p, a.region_start());
    assert!(!a.can_allocate_order(1));
    a.free(p);
    assert!(!a.can_allocate_order(0));
    let x = a.allocate_exact(half / 2);
    let y = a.allocate_exact(half / 2);
    assert_eq!(x, a.region_start());
    assert_eq!(y.value(), x.value() + half / 2);
}

#[test]
fn allocate_rounds_up() {
    let mut a = BuddyAllocator::new_embedded(one_usable_region_map()).unwrap();
    let p = a.allocate(5000);
    assert_eq!(p, a.region_start());
    // the 8 KiB block at the start is taken: its two pages are allocated
    let first = 1usize << a.max_order();
    assert_eq!(a.block_state(first), BlockState::Allocated);
    assert_eq!(a.block_state(first + 1), BlockState::Allocated);
    assert_eq!(a.block_state(first / 2), BlockState::Allocated);
}

#[test]
fn round_trip_restores_tree() {
    let mut a = BuddyAllocator::new_embedded(one_usable_region_map()).unwrap();
    a.allocate_exact(PAGE_SIZE);
    let before: Vec<BlockState> = (0..a.tree_len()).map(|i| a.block_state(i)).collect();
    let p = a.allocate_exact(4 * PAGE_SIZE);
    a.free(p);
    let after: Vec<BlockState> = (0..a.tree_len()).map(|i| a.block_state(i)).collect();
    assert_eq!(before, after);
}

#[test]
fn markers_move_forward_and_back() {
    let mut a = BuddyAllocator::new_embedded(one_usable_region_map()).unwrap();
    let m = a.max_order();
    let m0 = a.marker(m);
    let p = a.allocate_exact(PAGE_SIZE);
    let m1 = a.marker(m);
    let q = a.allocate_exact(PAGE_SIZE);
    let m2 = a.marker(m);
    assert!(m0 <= m1 && m1 <= m2);
    a.free(q);
    assert!(a.marker(m) <= (1usize << m) + 1);
    a.free(p);
    assert_eq!(a.marker(m), 1usize << m);
}

#[test]
fn parent_rule_holds_after_operations() {
    let mut a = BuddyAllocator::new_embedded(one_usable_region_map()).unwrap();
    let p = a.allocate_exact(PAGE_SIZE);
    let q = a.allocate_exact(8 * PAGE_SIZE);
    a.free(p);
    let _ = a.allocate(3 * PAGE_SIZE);
    a.free(q);
    let first = 1usize << a.max_order();
    for i in 1..first {
        let (s, l, r) = (a.block_state(i), a.block_state(2 * i), a.block_state(2 * i + 1));
        if s == BlockState::Allocated {
            assert_eq!((l, r), (BlockState::Allocated, BlockState::Allocated));
        } else {
            let usable = |b: BlockState| b == BlockState::Free || b == BlockState::Split;
            let expect = if l == BlockState::Free && r == BlockState::Free {
                BlockState::Free
            } else if usable(l) || usable(r) {
                BlockState::Split
            } else {
                BlockState::Full
            };
            assert_eq!(s, expect, "node {i}");
        }
    }
}

#[test]
fn init_errors() {
    let none = MemoryMap::new(vec![entry(0, 0x1000, EntryType::Reserved)]);
    assert_eq!(BuddyAllocator::new_embedded(none).err(), Some(InitializationError::NoUsableMemory));
    let tiny = MemoryMap::new(vec![
        entry(0x1000, 0x1000, EntryType::Usable),
        entry(0x100000, 0x1000000, EntryType::Reserved),
        entry(0x2000000, 0x1000, EntryType::Usable),
    ]);
    assert_eq!(
        BuddyAllocator::new_embedded(tiny).err(),
        Some(InitializationError::NotEnoughAvailableMemory)
    );
}

#[test]
fn reserve_range_rejects_empty_range() {
    let mut a = BuddyAllocator::new_embedded(one_usable_region_map()).unwrap();
    let s = PhysicalAddress(0x8000);
    assert_eq!(a.reserve_range(s, s), Err(InitializationError::BadRange(s, s)));
    assert_eq!(a.reserve_range(PhysicalAddress(0x8000), PhysicalAddress(0x9001)), Ok(()));
    let first = 1usize << a.max_order();
    let v = (0x8000 - a.region_start().value()) / PAGE_SIZE;
    assert_eq!(a.block_state(first + v), BlockState::Reserved);
    assert_eq!(a.block_state(first + v + 1), BlockState::Reserved);
    assert_eq!(a.block_state(first + v + 2), BlockState::Free);
}
