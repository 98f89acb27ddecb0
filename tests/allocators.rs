use kernel_core::buddy::BuddyAllocator;
use kernel_core::bump::BumpAllocator;
use kernel_core::free_list::FreeListAllocator;
use kernel_core::slab::SlabAllocator;

#[test]
fn bump_capacity_accounts_for_padding() {
    let mut bump = BumpAllocator::from_size(0x1000, 100);
    assert_eq!(bump.allocate(10, 1), Some(0x1000));
    assert_eq!(bump.allocate(8, 16), Some(0x1010));
    assert_eq!(bump.remaining(), 100 - 10 - 6 - 8);
    assert_eq!(bump.allocate(100, 1), None);
    assert_eq!(bump.remaining(), 76);
    bump.free(0x1000);
    assert_eq!(bump.remaining(), 76);
    bump.increase_size(24);
    assert_eq!(bump.end_address(), 0x1000 + 124);
    assert_eq!(bump.allocate(100, 1), Some(0x1018));
    assert_eq!(bump.remaining(), 0);
}

#[test]
fn bump_region_queries() {
    let bump = BumpAllocator::from_address(0x2000, 0x3000);
    assert_eq!(bump.start_address(), 0x2000);
    assert!(bump.is_inside_address_space(0x2FFF));
    assert!(!bump.is_inside_address_space(0x3000));
}

#[test]
fn free_list_reuses_last_freed_block() {
    let mut list = FreeListAllocator::from_size(0x1000, 64, 16);
    let first = list.allocate_size().unwrap();
    assert_eq!(first, 0x1000);
    list.free_size(first);
    assert_eq!(list.allocate_size(), Some(first));
    assert_eq!(list.allocate_size(), Some(0x1010));
}

#[test]
fn free_list_never_hands_out_a_live_block() {
    let mut list = FreeListAllocator::from_address(0x1000, 0x1040, 16);
    let mut seen = Vec::new();
    while let Some(p) = list.allocate_size() {
        assert!(!seen.contains(&p));
        seen.push(p);
    }
    assert_eq!(seen, vec![0x1000, 0x1010, 0x1020, 0x1030]);
    assert!(list.fully_occupied());
    list.free_size(0x1010);
    list.free_size(0x1030);
    assert!(!list.fully_occupied());
    assert_eq!(list.allocate_size(), Some(0x1030));
    assert_eq!(list.allocate_size(), Some(0x1010));
    assert_eq!(list.allocate_size(), None);
}

#[test]
fn free_list_fully_free_and_ownership() {
    let mut list = FreeListAllocator::from_size(0x1000, 64, 16);
    assert!(list.fully_free());
    let p = list.allocate_size().unwrap();
    assert!(!list.fully_free());
    assert!(list.owns(p));
    assert!(!list.owns(0x1010));
    list.free_size(p);
    assert!(list.fully_free());
    assert!(!list.owns(p));
    assert!(list.is_inside_address_space(0x103F));
    assert_eq!(FreeListAllocator::aux_data_structures_size_for(0x1000, 64, 16), 5 * 16);
}

#[test]
fn buddy_split_and_merge() {
    let mut buddy = BuddyAllocator::new(0x100000, 0x200000);
    assert_eq!(buddy.frames_count(), 256);
    assert_eq!(buddy.max_order(), 8);
    assert_eq!(buddy.allocate(4096), Some(0x100000));
    assert_eq!(buddy.allocate(4096), Some(0x101000));
    buddy.free(0x101000, 4096);
    buddy.free(0x100000, 4096);
    assert_eq!(buddy.free_block_order(0x100000), Some(8));
    assert_eq!(buddy.allocate(8192), Some(0x100000));
}

#[test]
fn buddy_splits_leave_upper_halves_free() {
    let mut buddy = BuddyAllocator::new(0x100000, 0x200000);
    assert_eq!(buddy.allocate(4096), Some(0x100000));
    assert_eq!(buddy.free_block_order(0x101000), Some(0));
    assert_eq!(buddy.free_block_order(0x102000), Some(1));
    assert_eq!(buddy.free_block_order(0x180000), Some(7));
    assert_eq!(buddy.free_block_order(0x100000), None);
    assert_eq!(buddy.allocate(3 * 4096), Some(0x104000));
}

#[test]
fn buddy_out_of_memory() {
    let mut buddy = BuddyAllocator::new(0x100000, 0x104000);
    assert_eq!(buddy.allocate(5 * 4096), None);
    assert_eq!(buddy.allocate(4 * 4096), Some(0x100000));
    assert_eq!(buddy.allocate(4096), None);
    buddy.free(0x100000, 4 * 4096);
    assert_eq!(buddy.allocate(4096), Some(0x100000));
}

#[test]
fn buddy_range_not_a_power_of_two() {
    let mut buddy = BuddyAllocator::new(0, 3 * 4096);
    assert_eq!(buddy.max_order(), 1);
    assert_eq!(buddy.free_block_order(0), Some(1));
    assert_eq!(buddy.free_block_order(0x2000), Some(0));
    assert_eq!(buddy.allocate(4096), Some(0x2000));
    assert_eq!(buddy.allocate(8192), Some(0));
    assert_eq!(buddy.allocate(1), None);
}

#[test]
fn slab_class_routing() {
    let mut slab = SlabAllocator::new(0x100000, 0x200000);
    let a = slab.allocate(33).unwrap();
    let b = slab.allocate(64).unwrap();
    assert_eq!(b - a, 64);
    assert_eq!(slab.cache_count(3), 1);
    assert_eq!(slab.cache_start(3, 0), a);
    let c = slab.allocate(8).unwrap();
    assert_eq!(slab.cache_count(0), 1);
    assert_ne!(c, a);
}

#[test]
fn slab_reuses_freed_object() {
    let mut slab = SlabAllocator::new(0x100000, 0x200000);
    let p = slab.allocate(100).unwrap();
    let q = slab.allocate(100).unwrap();
    assert_eq!(q - p, 128);
    slab.free(p);
    assert_eq!(slab.allocate(100), Some(p));
}

#[test]
fn slab_rejects_oversized_requests() {
    let mut slab = SlabAllocator::new(0x100000, 0x200000);
    assert_eq!(slab.allocate(4097), None);
    assert!(slab.allocate(4096).is_some());
}

#[test]
fn slab_grows_by_doubling_frames() {
    let mut slab = SlabAllocator::new(0x100000, 0x200000);
    let first = slab.allocate(4096).unwrap();
    let second = slab.allocate(4096).unwrap();
    assert_eq!(slab.cache_count(9), 2);
    assert_ne!(first, second);
    let third = slab.allocate(4096).unwrap();
    assert_eq!(slab.cache_count(9), 2);
    assert_eq!(third, second + 4096);
}

#[test]
fn slab_fully_free_after_freeing_everything() {
    let mut slab = SlabAllocator::new(0x100000, 0x200000);
    assert!(slab.is_fully_free());
    let p = slab.allocate(48).unwrap();
    let q = slab.allocate(2000).unwrap();
    assert!(!slab.is_fully_free());
    slab.free(q);
    slab.free(p);
    assert!(slab.is_fully_free());
}

#[test]
fn slab_out_of_frames() {
    let mut slab = SlabAllocator::new(0x100000, 0x101000);
    assert!(slab.allocate(4096).is_some());
    assert_eq!(slab.allocate(4096), None);
    assert_eq!(slab.allocate(8), None);
}

#[test]
fn buddy_round_trip_restores_free_blocks() {
    let mut buddy = BuddyAllocator::new(0x100000, 0x200000);
    let a = buddy.allocate(4096).unwrap();
    let b = buddy.allocate(8192).unwrap();
    let c = buddy.allocate(3 * 4096).unwrap();
    assert_eq!((a, b, c), (0x100000, 0x102000, 0x104000));
    buddy.free(c, 3 * 4096);
    buddy.free(b, 8192);
    buddy.free(a, 4096);
    assert_eq!(buddy.free_block_order(0x100000), Some(8));
    assert_eq!(buddy.free_block_order(0x180000), None);
    assert_eq!(buddy.allocate(256 * 4096), Some(0x100000));
}

#[test]
fn buddy_live_blocks_never_overlap() {
    let mut buddy = BuddyAllocator::new(0x100000, 0x140000);
    let mut blocks: Vec<(usize, usize)> = Vec::new();
    for size in [4096usize, 8192, 4096, 16384, 4096, 8192] {
        let a = buddy.allocate(size).unwrap();
        for &(s, e) in &blocks {
            assert!(a + size <= s || e <= a);
        }
        blocks.push((a, a + size));
    }
}
