use kernel_core::frame_bitmap::FrameBitMap;

#[test]
fn bitmap_starts_all_free() {
    let bitmap = FrameBitMap::new(20);
    assert_eq!(bitmap.frames_count(), 20);
    for n in 0..20 {
        assert!(bitmap.is_free(n));
        assert!(!bitmap.is_in_use(n));
    }
}

#[test]
fn bitmap_mem_size_rounds_up_to_whole_bytes() {
    assert_eq!(FrameBitMap::mem_size_for(0), 0);
    assert_eq!(FrameBitMap::mem_size_for(1), 1);
    assert_eq!(FrameBitMap::mem_size_for(8), 1);
    assert_eq!(FrameBitMap::mem_size_for(9), 2);
    assert_eq!(FrameBitMap::mem_size_for(17), 3);
    assert_eq!(FrameBitMap::new(17).size(), 3);
}

#[test]
fn bitmap_set_in_use_then_free() {
    let mut bitmap = FrameBitMap::new(16);
    bitmap.set_in_use(5);
    assert!(bitmap.is_in_use(5));
    bitmap.set_free(5);
    assert!(!bitmap.is_in_use(5));
    assert!(bitmap.is_free(5));
}

#[test]
fn bitmap_disjoint_frames_do_not_interfere() {
    let mut bitmap = FrameBitMap::new(24);
    bitmap.set_in_use(0);
    bitmap.set_in_use(7);
    bitmap.set_in_use(8);
    bitmap.set_in_use(23);
    for n in 0..24 {
        assert_eq!(bitmap.is_in_use(n), n == 0 || n == 7 || n == 8 || n == 23);
    }
    bitmap.set_free(7);
    for n in 0..24 {
        assert_eq!(bitmap.is_in_use(n), n == 0 || n == 8 || n == 23);
    }
}

#[test]
fn bitmap_from_available_memory() {
    let bitmap = FrameBitMap::new_from_available_memory(10 * 4096 + 100, 4096);
    assert_eq!(bitmap.frames_count(), 10);
    assert_eq!(bitmap.size(), 2);
}

#[test]
fn bitmap_bits_are_most_significant_first() {
    let mut bitmap = FrameBitMap::new(16);
    assert_eq!(bitmap.byte(0), 0);
    bitmap.set_in_use(0);
    assert_eq!(bitmap.byte(0), 0x80);
    bitmap.set_in_use(7);
    assert_eq!(bitmap.byte(0), 0x81);
    bitmap.set_in_use(9);
    assert_eq!(bitmap.byte(1), 0x40);
    bitmap.set_free(0);
    assert_eq!(bitmap.byte(0), 0x01);
}
