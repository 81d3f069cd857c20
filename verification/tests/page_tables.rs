use kernel::memory::address::{PhysAddrPageAligned, VirtAddrPageAligned};
use kernel::memory::physical::PhysicalMemorySpace;
use kernel::memory::{FLAGS_DEFAULT_RO, FLAGS_DEFAULT_RW};
use kernel::memory::hhdm::{set_offset, Hhdm};
use kernel::memory::physical::map::{
    DumpLine,
    MapEntry, MemoryMap, PageTables, FLAGS_DEFAULT, FLAG_PRESENT, FLAG_USER, FLAG_WRITE,
};
use kernel::memory::physical::EarlyAllocator;

const OFFSET: usize = 0x1000_0000;

fn page(addr: usize) -> VirtAddrPageAligned {
    VirtAddrPageAligned::new(addr).unwrap()
}

fn setup() -> (PageTables, EarlyAllocator, Hhdm) {
    let mut hhdm = Hhdm::new();
    set_offset(&mut hhdm, OFFSET);
    let early = EarlyAllocator::new(OFFSET + 0x10_0000, 0x8000);
    let mut tables = PageTables::new();
    tables.add_table(0x5000);
    (tables, early, hhdm)
}

#[test]
fn entries_hold_an_address_and_flags() {
    let e = MapEntry::new(0x1234_5678);
    assert_eq!(e.addr(), 0x1234_5000);
    assert_eq!(e.flags(), FLAGS_DEFAULT);
    assert!(e.is_present());
    assert!(e.is_no_exec());
    assert!(!e.is_write());
    let w = e.write().user();
    assert!(w.is_write() && w.is_user());
    assert_eq!(w.addr(), 0x1234_5000);
    let f = MapEntry::new_with_flags(0x2000, 0x7);
    assert_eq!(f.0, 0x2007);
    assert_eq!(f.with_flags(0x1).0, 0x2001);
    assert!(!MapEntry::zero().is_present());
    let l = MapEntry::zero().large().no_exec().no_cache().write_through();
    assert!(l.is_large() && l.is_no_exec() && l.is_no_cache() && l.is_write_through());
    let d = MapEntry(0x60).no_accessed().no_dirty();
    assert!(!d.is_accessed() && !d.is_dirty());
    let a = MapEntry::zero().with_avl(5);
    assert_eq!(a.get_avl(), 5);
    assert_eq!(a.0, 5 << 9);
    assert!(MapEntry::zero().present().is_present());
}

#[test]
fn addresses_split_into_table_indices() {
    let a = page(0xffff_8000_4020_3000);
    assert_eq!(MemoryMap::get_indices(a), [256, 1, 1, 3]);
    assert_eq!(MemoryMap::get_index(a, 4), 256);
    assert_eq!(MemoryMap::get_index(a, 1), 3);
    assert_eq!(MemoryMap::get_index_c::<2>(a), 1);
    assert_eq!(MemoryMap::index_to_page_count(3, 2).count(), 3 * 512);
    assert_eq!(MemoryMap::index_to_page_count(2, 1).count(), 2);
    assert_eq!(MemoryMap::sign_extend_addr(0x8000_0000_0000), 0xffff_8000_0000_0000);
    assert_eq!(MemoryMap::sign_extend_addr(0x7fff_ffff_f000), 0x7fff_ffff_f000);
}

#[test]
fn a_table_of_entries() {
    let mut m = MemoryMap::new();
    assert_eq!(m.at(7).0, 0);
    m.set(7, MapEntry::new(0x3000));
    assert_eq!(m.at(7).addr(), 0x3000);
}

#[test]
fn missing_tables_are_made_from_early_memory() {
    let (mut tables, mut early, hhdm) = setup();
    assert!(tables.contains(0x5000));
    assert!(!tables.contains(0x10_0000));
    assert_eq!(tables.map_or_insert(0x5000, 0, &mut early, &hhdm), Some(0x10_0000));
    assert_eq!(early.used(), 0x1000);
    let e = tables.entry(0x5000, 0);
    assert_eq!(e.addr(), 0x10_0000);
    assert_eq!(e.flags(), FLAG_PRESENT | FLAG_WRITE | FLAG_USER);
    assert_eq!(tables.map_or_insert(0x5000, 0, &mut early, &hhdm), Some(0x10_0000));
    assert_eq!(early.used(), 0x1000);
    assert_eq!(tables.map_or_insert(0x5000, 300, &mut early, &hhdm), Some(0x10_1000));
    assert_eq!(tables.entry(0x5000, 300).flags(), FLAG_PRESENT | FLAG_WRITE);
    assert_eq!(tables.map_or_insert_with_flags(0x5000, 301, 0x3, &mut early, &hhdm), Some(0x10_2000));
    assert_eq!(tables.entry(0x5000, 301).flags(), 0x3);
    assert!(tables.contains(0x10_2000));
    assert_eq!(MapEntry::from_map(&tables, 0x10_2000).addr(), 0x10_2000);
    assert_eq!(MapEntry::from_map_with_flags(&tables, 0x10_2000, 0x3).0, 0x10_2003);
}

#[test]
fn early_memory_runs_out() {
    let mut hhdm = Hhdm::new();
    set_offset(&mut hhdm, OFFSET);
    let mut early = EarlyAllocator::new(OFFSET + 0x10_0000, 0x1000);
    let mut tables = PageTables::new();
    tables.add_table(0x5000);
    assert_eq!(tables.map_or_insert(0x5000, 1, &mut early, &hhdm), Some(0x10_0000));
    assert_eq!(tables.map_or_insert(0x5000, 2, &mut early, &hhdm), None);
    assert_eq!(tables.entry(0x5000, 2).0, 0);
}

#[test]
fn iterators_walk_and_fill_the_slots() {
    let (mut tables, mut early, hhdm) = setup();
    assert_eq!(tables.at_addr(0x5000, page(0x40_3000)), None);
    let mut it = tables.iterate(0x5000, page(0x40_3000), &mut early, &hhdm).unwrap();
    assert!(it.has());
    assert_eq!(early.used(), 0x3000);
    assert_eq!(it.next(&mut tables, &mut early, &hhdm), Some((0x10_2000, 3)));
    assert_eq!(it.next(&mut tables, &mut early, &hhdm), Some((0x10_2000, 4)));
    assert!(it.write_next(&mut tables, &mut early, &hhdm, MapEntry::new(0x7000)));
    assert_eq!(tables.entry(0x10_2000, 5).addr(), 0x7000);
    assert_eq!(tables.at_addr(0x5000, page(0x40_3000)), Some((0x10_2000, 3)));
    let slots: Vec<(usize, usize, usize)> = tables
        .iter_present_in_range(0x5000, page(0x40_3000), page(0x40_6000))
        .iter()
        .map(|(t, i, a)| (*t, *i, a.addr()))
        .collect();
    assert_eq!(slots, vec![(0x10_2000, 3, 0x40_3000), (0x10_2000, 4, 0x40_4000), (0x10_2000, 5, 0x40_5000)]);
    assert!(tables.iter_present_in_range(0x5000, page(0x80_0000), page(0x80_2000)).is_empty());
}

#[test]
fn large_page_iterators_stop_one_level_up() {
    let (mut tables, mut early, hhdm) = setup();
    let mut it = tables.iterate_3(0x5000, page(0x40_0000), &mut early, &hhdm).unwrap();
    assert_eq!(early.used(), 0x2000);
    assert_eq!(it.next(&mut tables, &mut early, &hhdm), Some((0x10_1000, 2)));
    assert_eq!(it.next(&mut tables, &mut early, &hhdm), Some((0x10_1000, 3)));
}

#[test]
fn dumps_list_mappings_and_tables() {
    let (mut tables, mut early, hhdm) = setup();
    let mut it = tables.iterate(0x5000, page(0x40_3000), &mut early, &hhdm).unwrap();
    assert!(it.write_next(&mut tables, &mut early, &hhdm, MapEntry::new(0x7000)));
    assert!(it.write_next(&mut tables, &mut early, &hhdm, MapEntry::new(0x8000)));
    assert!(it.write_next(&mut tables, &mut early, &hhdm, MapEntry::new(0x2_0000)));
    let lines = tables.dump(0x5000, 0, 0, 0);
    assert_eq!(
        lines,
        vec![
            DumpLine::Table(0, 0, 0x10_0000),
            DumpLine::Table(1, 0, 0x10_1000),
            DumpLine::Table(2, 0x40_0000, 0x10_2000),
            DumpLine::Mapping(3, 0x40_3000, 0x7000),
            DumpLine::Continued(3),
            DumpLine::Mapping(3, 0x40_5000, 0x2_0000),
        ]
    );
    assert!(tables.dump(0x5000, 0, 0, 1).is_empty());
    let mut empty = PageTables::new();
    empty.add_table(0x9000);
    assert!(empty.dump(0x9000, 0, 0, 0).is_empty());
}

#[test]
fn dumps_sign_extend_the_upper_half() {
    let (mut tables, mut early, hhdm) = setup();
    let t = tables.map_or_insert(0x5000, 256, &mut early, &hhdm).unwrap();
    tables.set_entry(t, 0, MapEntry::new(0x4000_0000).large());
    let lines = tables.dump(0x5000, 0, 0, 0);
    assert_eq!(
        lines,
        vec![
            DumpLine::Table(0, 0xffff_8000_0000_0000, t),
            DumpLine::Mapping(1, 0xffff_8000_0000_0000, 0x4000_0000),
        ]
    );
}

#[test]
fn pages_are_mapped_with_their_own_flags() {
    let (tables, mut early, hhdm) = setup();
    let mut space = PhysicalMemorySpace::new(0x5000, tables);
    let phys = PhysAddrPageAligned::new(0x20_0000).unwrap();
    let flags = vec![FLAGS_DEFAULT_RO, FLAGS_DEFAULT_RW, FLAGS_DEFAULT_RW];
    assert!(space.map_flag_func(&mut early, &hhdm, phys, page(0x40_3000), &flags));
    let t = space.tables();
    let (leaf, i) = t.at_addr(0x5000, page(0x40_3000)).unwrap();
    assert_eq!(i, 3);
    let first = t.entry(leaf, 3);
    assert_eq!(first.addr(), 0x20_0000);
    assert!(first.is_present());
    assert!(!first.is_write());
    assert!(first.is_no_exec());
    let second = t.entry(leaf, 4);
    assert_eq!(second.addr(), 0x20_1000);
    assert!(second.is_present() && second.is_write());
    assert_eq!(t.entry(leaf, 5).addr(), 0x20_2000);
    assert_eq!(t.entry(leaf, 6).0, 0);
}

#[test]
fn a_run_of_pages_crosses_into_the_next_table() {
    let (tables, mut early, hhdm) = setup();
    let mut space = PhysicalMemorySpace::new(0x5000, tables);
    let phys = PhysAddrPageAligned::new(0x20_0000).unwrap();
    let flags = vec![FLAGS_DEFAULT_RW, FLAGS_DEFAULT_RW, FLAGS_DEFAULT_RW];
    // slot 510 of the table for 0x40_0000: the third page is in the next table
    assert!(space.map_flag_func(&mut early, &hhdm, phys, page(0x40_0000 + 510 * 0x1000), &flags));
    let t = space.tables();
    let a = t.at_addr(0x5000, page(0x40_0000 + 510 * 0x1000)).unwrap();
    let b = t.at_addr(0x5000, page(0x60_0000)).unwrap();
    assert_eq!((a.1, b.1), (510, 0));
    assert_ne!(a.0, b.0);
    assert_eq!(t.entry(a.0, 511).addr(), 0x20_1000);
    assert_eq!(t.entry(b.0, 0).addr(), 0x20_2000);
    // three tables for the way down, one more for the next last-level table
    assert_eq!(early.used(), 0x4000);
}
