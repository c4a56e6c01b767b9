use bring_up::descriptor::{PageDescriptor, TableDescriptor};
use bring_up::error::BringUpError;
use bring_up::region::MemoryMapDescriptor;
use bring_up::space::AddressSpace;
use bring_up::translation::TranslationAddress;
use bring_up::PAGE_SIZE;

const L2_BASE: u64 = 0x8000_0000;
const L3_BASE: u64 = 0x9000_0000;

fn space(l2_tables: usize, l3_tables: usize) -> AddressSpace {
    AddressSpace::new(L2_BASE, l2_tables, L3_BASE, l3_tables)
}

fn region(virt: u64, phys: u64, pages: u64) -> MemoryMapDescriptor {
    MemoryMapDescriptor {
        physical_address: phys,
        virtual_address: virt,
        size: pages * PAGE_SIZE,
    }
}

/// Walks the three levels by hand and returns the leaf descriptor.
fn walk(space: &AddressSpace, va: u64) -> Option<PageDescriptor> {
    let t = TranslationAddress(va);
    let d1 = space.l1_entry(t.l1_index() as usize);
    if !d1.valid() {
        return None;
    }
    let s2 = space.l2_slots().fetch_for_address((d1.next_address() as u64) << 16)?;
    let d2: TableDescriptor = space.l2_slots().get_entry(s2, t.l2_index() as usize);
    if !d2.valid() {
        return None;
    }
    let s3 = space.l3_slots().fetch_for_address((d2.next_address() as u64) << 16)?;
    Some(space.l3_slots().get_entry(s3, t.l3_index() as usize))
}

#[test]
fn one_region_of_three_pages_is_walkable() {
    let mut s = space(1, 1);
    let regions = vec![region(0x1000_0000, 0x0, 3)];
    assert_eq!(s.map_regions(&regions), Ok(()));

    let t = TranslationAddress(0x1000_0000);
    assert!(s.l1_entry(t.l1_index() as usize).valid());

    let expected = [0x0u64, 0x1_0000, 0x2_0000];
    for (i, phys) in expected.iter().enumerate() {
        let leaf = walk(&s, 0x1000_0000 + i as u64 * PAGE_SIZE).unwrap();
        assert!(leaf.valid());
        assert!(leaf.access_flag());
        assert_eq!((leaf.output_address() as u64) << 16, *phys);
    }
    assert_eq!(walk(&s, 0x1000_0000 + 3 * PAGE_SIZE).map(|d| d.valid()), Some(false));
}

#[test]
fn overlapping_regions_with_different_targets_conflict() {
    let mut s = space(2, 2);
    // The last page of the first region is the first page of the second.
    let regions = vec![
        region(0x1000_0000, 0x0, 3),
        region(0x1002_0000, 0x40_0000, 2),
    ];
    assert_eq!(s.map_regions(&regions), Err(BringUpError::MappingConflict));

    // Every page mapped before the failure keeps its target.
    for i in 0..3u64 {
        let va = 0x1000_0000 + i * PAGE_SIZE;
        assert_eq!(s.lookup(TranslationAddress(va)), Some((i * PAGE_SIZE >> 16) as u32));
    }
    // The page after the conflict was never mapped.
    assert_eq!(s.lookup(TranslationAddress(0x1003_0000)), None);
}

#[test]
fn overlapping_regions_with_equal_targets_agree() {
    let mut s = space(1, 1);
    let regions = vec![
        region(0x1000_0000, 0x0, 3),
        region(0x1002_0000, 0x2_0000, 2),
    ];
    assert_eq!(s.map_regions(&regions), Ok(()));
    assert_eq!(s.lookup(TranslationAddress(0x1003_0000)), Some(3));
}

#[test]
fn mapping_twice_is_idempotent() {
    let mut s = space(1, 1);
    let va = TranslationAddress(0x4_0000);
    assert_eq!(s.map_page(va, 0x7_0000), Ok(()));
    let before = walk(&s, 0x4_0000).unwrap();
    assert_eq!(s.map_page(va, 0x7_0000), Ok(()));
    assert_eq!(walk(&s, 0x4_0000).unwrap(), before);
    assert_eq!(s.lookup(va), Some(7));
}

#[test]
fn remapping_to_another_page_conflicts_in_either_order() {
    let va = TranslationAddress(0x4_0000);

    let mut a = space(1, 1);
    assert_eq!(a.map_page(va, 0x7_0000), Ok(()));
    assert_eq!(a.map_page(va, 0x8_0000), Err(BringUpError::MappingConflict));
    assert_eq!(a.lookup(va), Some(7));

    let mut b = space(1, 1);
    assert_eq!(b.map_page(va, 0x8_0000), Ok(()));
    assert_eq!(b.map_page(va, 0x7_0000), Err(BringUpError::MappingConflict));
    assert_eq!(b.lookup(va), Some(8));
}

#[test]
fn level_two_pool_runs_out_at_capacity_plus_one() {
    let mut s = space(2, 8);
    // Each of these lies under its own level-1 entry (bits 47:42 differ).
    assert_eq!(s.map_page(TranslationAddress(0x0), 0x0), Ok(()));
    assert_eq!(s.map_page(TranslationAddress(1 << 42), 0x0), Ok(()));
    assert_eq!(s.map_page(TranslationAddress(2 << 42), 0x0), Err(BringUpError::OutOfSlots));
    assert_eq!(s.lookup(TranslationAddress(2 << 42)), None);
    assert_eq!(s.lookup(TranslationAddress(1 << 42)), Some(0));
}

#[test]
fn level_three_pool_runs_out_at_capacity_plus_one() {
    let mut s = space(1, 2);
    // Same level-1 entry, different level-2 entries (bits 41:29 differ).
    assert_eq!(s.map_page(TranslationAddress(0x0), 0x0), Ok(()));
    assert_eq!(s.map_page(TranslationAddress(1 << 29), 0x1_0000), Ok(()));
    assert_eq!(s.map_page(TranslationAddress(2 << 29), 0x2_0000), Err(BringUpError::OutOfSlots));
    // Pages under tables that exist still map.
    assert_eq!(s.map_page(TranslationAddress(0x1_0000), 0x3_0000), Ok(()));
    assert_eq!(s.lookup(TranslationAddress(0x1_0000)), Some(3));
}

#[test]
fn empty_pools_refuse_the_first_page() {
    let mut s = space(0, 0);
    assert_eq!(s.map_page(TranslationAddress(0x0), 0x0), Err(BringUpError::OutOfSlots));
    assert_eq!(s.lookup(TranslationAddress(0x0)), None);
}

#[test]
fn pages_under_one_table_share_it() {
    let mut s = space(1, 1);
    let regions = vec![region(0x0, 0x100_0000, 16)];
    assert_eq!(s.map_regions(&regions), Ok(()));
    for i in 0..16u64 {
        assert_eq!(s.lookup(TranslationAddress(i * PAGE_SIZE)), Some(0x100 + i as u32));
    }
}

#[test]
fn table_descriptors_point_at_pool_slots() {
    let mut s = space(1, 1);
    assert_eq!(s.map_page(TranslationAddress(0x0), 0x0), Ok(()));
    let d1 = s.l1_entry(0);
    assert!(d1.valid());
    assert_eq!((d1.next_address() as u64) << 16, L2_BASE);
    let d2 = s.l2_slots().get_entry(0, 0);
    assert!(d2.valid());
    assert_eq!((d2.next_address() as u64) << 16, L3_BASE);
}

#[test]
fn conflict_at_the_shared_page_leaves_the_rest_intact() {
    let mut s = space(5, 5);
    let regions = vec![
        MemoryMapDescriptor { virtual_address: 0x1000_0000, physical_address: 0x0, size: 0x2_0000 },
        MemoryMapDescriptor { virtual_address: 0x1001_0000, physical_address: 0x10_0000, size: 0x2_0000 },
    ];
    assert_eq!(s.map_regions(&regions), Err(BringUpError::MappingConflict));

    let d1 = s.l1_entry(0);
    assert!(d1.valid());
    assert_eq!((d1.next_address() as u64) << 16, L2_BASE);
    assert!(s.l2_slots().get_entry(0, 0).valid());

    let first = walk(&s, 0x1000_0000).unwrap();
    assert!(first.valid() && first.access_flag());
    assert_eq!(first.output_address(), 0x0);
    let shared = walk(&s, 0x1001_0000).unwrap();
    assert!(shared.valid() && shared.access_flag());
    assert_eq!(shared.output_address(), 0x1);
    // The page after the conflict was never processed.
    assert!(!walk(&s, 0x1002_0000).unwrap().valid());

    assert_eq!(s.l2_slots().lent_out(), 1);
    assert_eq!(s.l3_slots().lent_out(), 1);
}

#[test]
fn slots_taken_match_distinct_tables() {
    let mut s = space(5, 5);
    let regions = vec![
        region(0x0, 0x0, 2),
        region(1 << 29, 0x10_0000, 2),
        region(1 << 42, 0x20_0000, 2),
    ];
    assert_eq!(s.map_regions(&regions), Ok(()));
    // Two level-1 indices, three (level-1, level-2) pairs.
    assert_eq!(s.l2_slots().lent_out(), 2);
    assert_eq!(s.l3_slots().lent_out(), 3);
}

#[test]
fn region_build_stops_at_the_first_missing_table() {
    let mut s = space(1, 1);
    // Page 0 needs the only level-3 table; page 1 lies under another level-2 entry.
    let regions = vec![region(0x0, 0x0, 1), region(1 << 29, 0x10_0000, 2)];
    assert_eq!(s.map_regions(&regions), Err(BringUpError::OutOfSlots));
    assert_eq!(s.lookup(TranslationAddress(0x0)), Some(0));
    assert_eq!(s.lookup(TranslationAddress(1 << 29)), None);
    assert_eq!(s.lookup(TranslationAddress((1 << 29) + PAGE_SIZE)), None);
    assert_eq!(s.l3_slots().lent_out(), 1);
}
