use bring_up::config::{Aarch64, ArchConfig, Config, Rpi3Config};
use bring_up::descriptor::{PageDescriptor, TableDescriptor};
use bring_up::error::BringUpError;
use bring_up::region::MemoryMapDescriptor;
use bring_up::slots::AddressedSlots;
use bring_up::translation::TranslationAddress;
use bring_up::PAGE_SIZE;

#[test]
fn table_descriptor_fields_round_trip() {
    let mut d = TableDescriptor(0);
    assert!(!d.valid());
    d.set_ns_table(true);
    d.set_ap_table(0b10);
    d.set_xn_table(false);
    d.set_pxn_table(true);
    d.set_next_address(0xdead_beef);
    d.set_valid();
    assert!(d.valid());
    assert!(d.ns_table());
    assert_eq!(d.ap_table(), 0b10);
    assert!(!d.xn_table());
    assert!(d.pxn_table());
    assert_eq!(d.next_address(), 0xdead_beef);
    assert_eq!(d.marker(), 0b11);
    assert_eq!(d.0, (1 << 63) | (0b10 << 61) | (1 << 59) | (0xdead_beef << 16) | 0b11);
}

#[test]
fn page_descriptor_fields_round_trip() {
    let mut d = PageDescriptor(0);
    d.set_output_address(0x1234_5678);
    d.set_access_flag(true);
    d.set_valid();
    assert!(d.valid());
    assert!(d.access_flag());
    assert_eq!(d.output_address(), 0x1234_5678);
    assert_eq!(d.0, (0x1234_5678 << 16) | (1 << 10) | 0b01);
}

#[test]
fn markers_are_distinct_per_format() {
    // A valid table marker is not a valid page marker, and the reverse.
    assert!(!PageDescriptor(0b11).valid());
    assert!(!TableDescriptor(0b01).valid());
    assert!(TableDescriptor(0b11).valid());
    assert!(PageDescriptor(0b01).valid());
}

#[test]
fn setters_keep_other_bits() {
    let mut d = PageDescriptor(u64::MAX);
    d.set_output_address(0);
    assert_eq!(d.0, u64::MAX & !0x0000_ffff_ffff_0000);
    d.set_access_flag(false);
    assert!(!d.access_flag());
    assert_eq!(d.marker(), 0b11);
    d.set_valid();
    assert_eq!(d.marker(), 0b01);
}

#[test]
fn translation_indices() {
    let t = TranslationAddress(0x1000_0000);
    assert_eq!(t.l1_index(), 0);
    assert_eq!(t.l2_index(), 0);
    assert_eq!(t.l3_index(), 4096);
    assert_eq!(t.offset(), 0);

    let t = TranslationAddress(0x0000_ffff_ffff_ffff);
    assert_eq!(t.l1_index(), 0x3f);
    assert_eq!(t.l2_index(), 0x1fff);
    assert_eq!(t.l3_index(), 0x1fff);
    assert_eq!(t.offset(), 0xffff);
    assert_eq!(t.address(), 0x0000_ffff_ffff_ffff);
}

#[test]
fn translation_index_round_trip() {
    for va in [0u64, 0x1000_0000, 0x1234_5678_9abc, 0x0000_ffff_ffff_ffff, 0x0000_8000_0000_0001] {
        let t = TranslationAddress(va);
        let back = TranslationAddress::from_indices(t.l1_index(), t.l2_index(), t.l3_index(), t.offset());
        assert_eq!(back.address(), va);
    }
}

#[test]
fn region_pages_are_consecutive() {
    let r = MemoryMapDescriptor {
        physical_address: 0x20_0000,
        virtual_address: 0xffff_0000_0000,
        size: 4 * PAGE_SIZE,
    };
    let pages = r.pages();
    assert_eq!(pages.len(), 4);
    for (i, (virt, phys)) in pages.iter().enumerate() {
        assert_eq!(virt.address(), 0xffff_0000_0000 + i as u64 * PAGE_SIZE);
        assert_eq!(*phys, 0x20_0000 + i as u64 * PAGE_SIZE);
    }
}

#[test]
fn region_partial_page_rounds_up() {
    let r = MemoryMapDescriptor::from_symbols(0x1000_0000, 0x8_0000, 0x8_0000 + PAGE_SIZE + 1);
    assert_eq!(r.size, PAGE_SIZE + 1);
    assert_eq!(r.physical_address, 0x8_0000);
    assert_eq!(r.virtual_address, 0x1000_0000);
    let pages = r.pages();
    assert_eq!(pages.len(), 2);
    assert_eq!(pages[1].0.address(), 0x1001_0000);
    assert_eq!(pages[1].1, 0x9_0000);
}

#[test]
fn empty_region_has_no_pages() {
    let r = MemoryMapDescriptor::from_symbols(0x1000_0000, 0x8_0000, 0x8_0000);
    assert!(r.pages().is_empty());
}

#[test]
fn pool_lends_slots_in_order_until_full() {
    let backing = vec![0u64; 3 * 8192];
    let mut p = AddressedSlots::new(backing, 0x10_0000);
    assert_eq!(p.fetch_for_address(0x10_0000), None);
    assert_eq!(p.new_slot(), Ok((0x10_0000, 0)));
    assert_eq!(p.new_slot(), Ok((0x11_0000, 1)));
    assert_eq!(p.new_slot(), Ok((0x12_0000, 2)));
    assert_eq!(p.new_slot(), Err(BringUpError::OutOfSlots));
    assert_eq!(p.fetch_for_address(0x11_0000), Some(1));
    assert_eq!(p.fetch_for_address(0x13_0000), None);
    assert_eq!(p.fetch_for_address(0x11_0001), None);
}

#[test]
fn pool_entries_are_separate_per_slot() {
    let backing = vec![0u64; 2 * 8192];
    let mut p = AddressedSlots::new(backing, 0x0);
    assert_eq!(p.new_slot(), Ok((0x0, 0)));
    assert_eq!(p.new_slot(), Ok((0x1_0000, 1)));
    p.set_entry(1, 5, 42);
    assert_eq!(p.get_entry(1, 5), 42);
    assert_eq!(p.get_entry(0, 5), 0);
    assert_eq!(p.get_entry(1, 4), 0);
}

struct Kernel;

impl Rpi3Config for Kernel {
    fn kernel_main() {}
}

#[test]
fn core_zero_boots_on_the_pi() {
    assert!(Aarch64::<ArchConfig<Kernel>>::is_boot_core(0));
    assert!(!Aarch64::<ArchConfig<Kernel>>::is_boot_core(1));
    assert!(!Aarch64::<ArchConfig<Kernel>>::is_boot_core(3));
    // Only the core-number bits count.
    assert!(Aarch64::<ArchConfig<Kernel>>::is_boot_core(0x8000_0000));
    assert!(Aarch64::<Config<Kernel>>::is_boot_core(0x4));
}
