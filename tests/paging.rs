use kernel_core::buddy::BuddyAllocator;
use kernel_core::paging::{PageTable, PagingError, NO_EXECUTE, PRESENT, WRITABLE};

#[test]
fn page_map_round_trip() {
    let mut buddy = BuddyAllocator::new(0x100000, 0x200000);
    let p4 = buddy.allocate(4096).unwrap() as u64;
    let mut table = PageTable::new(p4);
    let phys = buddy.allocate(4096).unwrap() as u64;
    let virt: u64 = 0x4000_0000_0000;
    assert_eq!(table.translate(virt), None);
    assert_eq!(table.map_page(virt, phys, PRESENT | WRITABLE, &mut buddy), Ok(()));
    assert_eq!(table.translate(virt + 0xABC), Some(phys + 0xABC));
    assert_eq!(table.translate(virt), Some(phys));
    assert_eq!(table.translate(virt + 0x1000), None);
    table.unmap_page(virt);
    assert_eq!(table.translate(virt + 0xABC), None);
}

#[test]
fn page_map_neighbours_share_tables() {
    let mut buddy = BuddyAllocator::new(0x100000, 0x200000);
    let mut table = PageTable::new(0x100000);
    let virt: u64 = 42 * 512 * 512 * 4096;
    assert_eq!(table.map_page(virt, 0x5000, PRESENT, &mut buddy), Ok(()));
    assert_eq!(table.map_page(virt + 4096, 0x9000, PRESENT | NO_EXECUTE, &mut buddy), Ok(()));
    assert_eq!(table.translate(virt + 5), Some(0x5005));
    assert_eq!(table.translate(virt + 4096 + 7), Some(0x9007));
    table.unmap_page(virt);
    assert_eq!(table.translate(virt + 5), None);
    assert_eq!(table.translate(virt + 4096), Some(0x9000));
}

#[test]
fn page_map_out_of_frames() {
    let mut buddy = BuddyAllocator::new(0x100000, 0x102000);
    let mut table = PageTable::new(0x200000);
    assert_eq!(table.map_page(0x4000_0000_0000, 0x7000, PRESENT, &mut buddy), Err(PagingError::OutOfMemory));
    assert_eq!(table.translate(0x4000_0000_0000), None);
}

#[test]
fn unmap_of_unmapped_page_is_harmless() {
    let mut table = PageTable::new(0x1000);
    table.unmap_page(0x1234_5000);
    assert_eq!(table.translate(0x1234_5000), None);
}

#[test]
fn unmap_releases_tables_that_become_empty() {
    let mut buddy = BuddyAllocator::new(0x100000, 0x200000);
    let mut table = PageTable::new(0x300000);
    let virt: u64 = 0x4000_0000_0000;
    let vpn = virt / 4096;
    assert_eq!(table.map_page(virt, 0x5000, PRESENT, &mut buddy), Ok(()));
    assert!(table.has_table(0, vpn / 512));
    assert!(table.has_table(1, vpn / (512 * 512)));
    assert!(table.has_table(2, vpn / (512 * 512 * 512)));
    table.unmap_page(virt);
    assert!(!table.has_table(0, vpn / 512));
    assert!(!table.has_table(1, vpn / (512 * 512)));
    assert!(!table.has_table(2, vpn / (512 * 512 * 512)));
    assert!(table.has_table(3, 0));
    assert_eq!(table.translate(virt), None);
}

#[test]
fn unmap_keeps_tables_still_in_use() {
    let mut buddy = BuddyAllocator::new(0x100000, 0x200000);
    let mut table = PageTable::new(0x300000);
    let virt: u64 = 0x4000_0000_0000;
    let vpn = virt / 4096;
    assert_eq!(table.map_page(virt, 0x5000, PRESENT, &mut buddy), Ok(()));
    assert_eq!(table.map_page(virt + 4096, 0x6000, PRESENT, &mut buddy), Ok(()));
    table.unmap_page(virt);
    assert!(table.has_table(0, vpn / 512));
    assert_eq!(table.translate(virt + 4096), Some(0x6000));
}

#[test]
fn identity_mapping() {
    let mut buddy = BuddyAllocator::new(0x100000, 0x200000);
    let mut table = PageTable::new(0x300000);
    assert_eq!(table.map_page_1_to_1(0x7000, PRESENT | WRITABLE, &mut buddy), Ok(()));
    assert_eq!(table.translate(0x7123), Some(0x7123));
}
