use kernel_core::idt::{
    GDTSelector, HardwareInterrupts, InterruptOptions, InterruptOptionsFlags, InterruptTable,
    InterruptTableEntry, DISABLE_INTERRUPT,
};

#[test]
fn options_minimal_sets_bits_nine_to_eleven() {
    assert_eq!(InterruptOptions::minimal().value(), 0x0E00);
}

#[test]
fn options_new_is_present_gate() {
    assert_eq!(InterruptOptions::new().value(), 0x8E00);
    assert_eq!(InterruptOptions::new().flags().bits(), 0x8E00);
}

#[test]
fn options_set_unused_and_present() {
    let mut options = InterruptOptions::new();
    options.set_unused();
    assert_eq!(options.value(), 0x0E00);
    options.set_present();
    assert_eq!(options.value(), 0x8E00);
}

#[test]
fn options_disable_interrupt_clears_bit_eight() {
    let mut options = InterruptOptions::minimal();
    options.set_flags(InterruptOptionsFlags::from_bits_truncate(0x8F00));
    assert_eq!(options.value(), 0x8F00);
    options.disable_interrupt();
    assert_eq!(options.value(), 0x8E00);
}

#[test]
fn options_flags_drop_unknown_bits() {
    let flags = InterruptOptionsFlags::from_bits_truncate(0xFFFF);
    assert_eq!(flags.bits(), 0x8F00);
    assert!(flags.contains(DISABLE_INTERRUPT));
}

#[test]
fn entry_splits_and_joins_handler_address() {
    let entry = InterruptTableEntry::create_present_entry(0x1234_5678_9ABC_DEF0, 8);
    assert_eq!(entry.handler_address(), 0x1234_5678_9ABC_DEF0);
    assert_eq!(entry.selector(), 8);
    assert_eq!(entry.options().value(), 0x8E00);
    let with_code = InterruptTableEntry::create_present_entry1(0xFFFF_8000_0010_2030, 0x10);
    assert_eq!(with_code.handler_address(), 0xFFFF_8000_0010_2030);
    assert_eq!(with_code.selector(), 0x10);
}

#[test]
fn empty_entry_is_not_present() {
    let entry = InterruptTableEntry::empty();
    assert_eq!(entry.handler_address(), 0);
    assert_eq!(entry.options().value(), 0x0E00);
    assert_eq!(GDTSelector::empty().value(), 0);
}

#[test]
fn idt_install_timer_handler() {
    let timer: u64 = 0xFFFF_8000_0000_4321;
    let mut table = InterruptTable::new();
    assert_eq!(table.entry(32).options().value() & 0x8000, 0);
    table.set_interrupt_handler(HardwareInterrupts::Timer.vector(), timer, 8);
    let entry = table.entry(32);
    assert_eq!(entry.handler_address(), timer);
    assert_eq!(entry.options().value() >> 15, 1);
    assert_eq!((entry.options().value() >> 9) & 0b111, 0b111);
    assert_eq!(table.entry(33).options().value(), 0x0E00);
    assert_eq!(table.limit(), 4095);
}

#[test]
fn idt_exception_handler() {
    let mut table = InterruptTable::new();
    table.set_exception_handler(14, 0x5000, 8);
    assert_eq!(table.entry(14).handler_address(), 0x5000);
    assert_eq!(table.entry(14).options().value(), 0x8E00);
}

#[test]
fn timer_arrives_at_vector_thirty_two() {
    assert_eq!(HardwareInterrupts::Timer.irq(), 0);
    assert_eq!(HardwareInterrupts::Timer.vector(), 32);
}

#[test]
fn options_updates_change_one_bit_only() {
    let mut flags = InterruptOptionsFlags::from_bits_truncate(0x0E00);
    flags.insert(1);
    let mut options = InterruptOptions::minimal();
    options.set_flags(flags);
    assert_eq!(options.value(), 0x0E01);
    assert_eq!(options.flags(), flags);
    options.set_present();
    assert_eq!(options.value(), 0x8E01);
    options.set_unused();
    assert_eq!(options.value(), 0x0E01);
    options.set_flags(InterruptOptionsFlags::from_bits_retain(0xEF03));
    options.disable_interrupt();
    assert_eq!(options.value(), 0xEE03);
}

#[test]
fn entry_bytes_are_little_endian() {
    let entry = InterruptTableEntry::create_present_entry(0x1122_3344_5566_7788, 0x08);
    assert_eq!(
        entry.to_bytes(),
        vec![0x88, 0x77, 0x08, 0x00, 0x00, 0x8E, 0x66, 0x55, 0x44, 0x33, 0x22, 0x11, 0, 0, 0, 0]
    );
}

#[test]
fn table_image_and_descriptor() {
    let mut table = InterruptTable::new();
    table.set_interrupt_handler(32, 0xABCD, 0x08);
    let image = table.encode();
    assert_eq!(image.len(), 4096);
    assert_eq!(&image[32 * 16..32 * 16 + 6], &[0xCD, 0xAB, 0x08, 0x00, 0x00, 0x8E]);
    assert_eq!(&image[0..6], &[0, 0, 0, 0, 0x00, 0x0E]);
    assert_eq!(table.descriptor(0x1000), vec![0xFF, 0x0F, 0x00, 0x10, 0, 0, 0, 0, 0, 0]);
}
