use kernel::memory::physical::{check_memory_map, memory_map_fits};
use kernel::memory::address::VirtAddrPageAligned;
use kernel::memory::hhdm::{get_offset, Hhdm};
use kernel::memory::physical::allocator::MemoryAllocator;
use kernel::memory::physical::buddy_allocator::BuddyAllocator;
use kernel::memory::physical::map::{MapEntry, PageTables};
use kernel::memory::physical::{
    check_hhdm_mapped, check_kernel_mapped, check_upper_half, scan_memory_map, EarlyAllocator,
    EntryType, InitError, MemoryManager, MemoryMapEntry,
};

const HHDM: usize = 0xffff_8000_0000_0000;
const EXEC: usize = 0xffff_ffff_8000_0000;

fn entry(base: u64, length: u64, entry_type: EntryType) -> MemoryMapEntry {
    MemoryMapEntry { base, length, entry_type }
}

fn kernel_pages(base: usize, n: usize) -> Vec<MapEntry> {
    (0..n).map(|k| MapEntry::new(base + k * 0x1000)).collect()
}

fn run(entries: Vec<MemoryMapEntry>) -> Result<usize, InitError> {
    let mut pmm = MemoryManager::default(BuddyAllocator::<9>::new(), BuddyAllocator::<9>::new());
    let mut hhdm = Hhdm::new();
    let current = kernel_pages(0x100_0000, 256);
    let r = pmm.init(&entries, &mut hhdm, HHDM, VirtAddrPageAligned::new(EXEC).unwrap(), &current);
    assert_eq!(get_offset(&hhdm), HHDM);
    r.map(|space| space.map_addr())
}

#[test]
fn scan_finds_the_end_the_largest_block_and_the_kernel() {
    let es = vec![
        entry(0x1000, 0x9e000, EntryType::Usable),
        entry(0x10_0000, 0xf0_0000, EntryType::Usable),
        entry(0x100_0000, 0x10_0000, EntryType::ExecutableAndModules),
        entry(0x200_0000, 0x1000, EntryType::Reserved),
        entry(0x300_0000, 0x10_0000, EntryType::Usable),
    ];
    let s = scan_memory_map(&es);
    assert_eq!(s.memory_end, 0x310_0000);
    assert_eq!(s.largest, Some(1));
    assert_eq!(s.kernel, Some(2));
    assert_eq!(s.kernel_count, 1);
    let empty = scan_memory_map(&vec![]);
    assert_eq!(empty.memory_end, 0);
    assert_eq!(empty.largest, None);
    assert_eq!(empty.kernel, None);
}

#[test]
fn the_first_of_equal_blocks_is_the_largest() {
    let es = vec![
        entry(0x10_0000, 0x10_0000, EntryType::Usable),
        entry(0x30_0000, 0x10_0000, EntryType::Usable),
    ];
    assert_eq!(scan_memory_map(&es).largest, Some(0));
}

#[test]
fn init_sets_up_the_allocators_and_the_page_tables() {
    let r = run(vec![
        entry(0x10_0000, 0xf0_0000, EntryType::Usable),
        entry(0x100_0000, 0x10_0000, EntryType::ExecutableAndModules),
        entry(0x110_0000, 0x1000, EntryType::Reserved),
    ]);
    // the allocators' bookkeeping takes the first page of the largest block, the top-level
    // table the page after it
    assert_eq!(r, Ok(0x10_1000));
}

#[test]
fn init_maps_the_kernel_and_the_direct_map() {
    let entries = vec![
        entry(0x10_0000, 0xf0_0000, EntryType::Usable),
        entry(0x100_0000, 0x10_0000, EntryType::ExecutableAndModules),
    ];
    let mut pmm = MemoryManager::default(BuddyAllocator::<9>::new(), BuddyAllocator::<9>::new());
    let mut hhdm = Hhdm::new();
    let current = kernel_pages(0x100_0000, 256);
    let exec = VirtAddrPageAligned::new(EXEC).unwrap();
    let space = match pmm.init(&entries, &mut hhdm, HHDM, exec, &current) {
        Ok(space) => space,
        Err(e) => panic!("init failed: {:?}", e),
    };
    assert!(pmm.is_initialized());
    let root = space.map_addr();
    let t = space.tables();
    assert!(check_kernel_mapped(t, root, exec, &current, 256));
    assert!(t.maps(root, VirtAddrPageAligned::new(EXEC + 0x5000).unwrap(), MapEntry::new(0x100_5000)));
    assert!(!t.maps(root, VirtAddrPageAligned::new(EXEC + 0x5000).unwrap(), MapEntry::new(0x100_6000)));
    // memory ends at 17 MiB: nine large pages of direct map
    assert!(check_hhdm_mapped(t, root, HHDM, 9));
    let e = t.at_addr_large(root, VirtAddrPageAligned::new(HHDM + 0x40_0000).unwrap()).unwrap();
    assert_eq!(t.entry(e.0, e.1).addr(), 0x40_0000);
    assert!(t.entry(e.0, e.1).is_large());
    assert!(check_upper_half(t, root));
    assert!(t.at_addr(root, VirtAddrPageAligned::new(0x40_0000).unwrap()).is_none());
}

#[test]
fn mapping_checks_fail_on_missing_tables() {
    let mut tables = PageTables::new();
    tables.add_table(0x5000);
    assert!(!check_upper_half(&tables, 0x5000));
    assert!(!check_hhdm_mapped(&tables, 0x5000, HHDM, 1));
    assert!(check_hhdm_mapped(&tables, 0x5000, HHDM, 0));
    let exec = VirtAddrPageAligned::new(EXEC).unwrap();
    assert!(!check_kernel_mapped(&tables, 0x5000, exec, &kernel_pages(0, 1), 1));
}

#[test]
fn init_rejects_two_kernel_blocks() {
    assert_eq!(check_memory_map(&vec![
        entry(0x10_0000, 0xf0_0000, EntryType::Usable),
        entry(0x100_0000, 0x1000, EntryType::ExecutableAndModules),
        entry(0x110_0000, 0x1000, EntryType::ExecutableAndModules),
    ]), Err(InitError::MultipleKernelEntries));
}

#[test]
fn init_needs_free_memory() {
    assert_eq!(check_memory_map(&vec![entry(0x100_0000, 0x1000, EntryType::ExecutableAndModules)]), Err(InitError::NoFreeMemory));
}

#[test]
fn init_needs_the_kernel() {
    assert_eq!(check_memory_map(&vec![entry(0x10_0000, 0xf0_0000, EntryType::Usable)]), Err(InitError::NoKernelEntry));
}

#[test]
fn init_rejects_a_kernel_of_more_than_one_table() {
    assert_eq!(check_memory_map(&vec![
        entry(0x10_0000, 0xf0_0000, EntryType::Usable),
        entry(0x100_0000, 0x30_0000, EntryType::ExecutableAndModules),
    ]), Err(InitError::KernelTooLarge));
}

#[test]
fn init_needs_room_for_the_bookkeeping() {
    let r = run(vec![
        entry(0x10_0000, 0x1000, EntryType::Usable),
        entry(0x7f0_0000, 0x10_0000, EntryType::ExecutableAndModules),
    ]);
    assert_eq!(r, Err(InitError::NoAllocatorMemory));
}

#[test]
fn init_needs_room_for_the_top_level_table() {
    let r = run(vec![
        entry(0x10_0000, 0x1000, EntryType::Usable),
        entry(0x100_0000, 0x10_0000, EntryType::ExecutableAndModules),
    ]);
    assert_eq!(r, Err(InitError::NoMapMemory));
}

#[test]
fn early_allocation_rounds_up_to_pages() {
    let mut e = EarlyAllocator::new(0x10_0000, 0x3000);
    assert_eq!(e.allocate_bytes(1), Some(0x10_0000));
    assert_eq!(e.used(), 0x1000);
    assert_eq!(e.allocate_bytes(0x1001), Some(0x10_1000));
    assert_eq!(e.used(), 0x3000);
    assert_eq!(e.allocate_bytes(1), None);
    let mut f = EarlyAllocator::new(0x20_0000, 0x1000);
    assert_eq!(f.allocate_map(), 0x20_0000);
}

#[test]
fn a_new_buddy_allocator_manages_nothing() {
    let mut b = BuddyAllocator::<9>::new();
    assert_eq!(b.data_size(), 0);
    assert_eq!(b.alloc_page(), None);
    assert_eq!(b.alloc_pages(2), None);
    assert!(!b.dealloc_page(0x1000));
    assert!(!b.dealloc_pages(0x1000, 2));
}

#[test]
fn buddy_bookkeeping_size() {
    let mut b = BuddyAllocator::<9>::new();
    b.init(0, 0x40_0000);
    assert_eq!(b.data_size(), (1024 >> 2) + 1);
    let mut c = BuddyAllocator::<9>::new();
    c.init(0x5000, 0x5000);
    assert_eq!(c.data_size(), 0);
    assert_eq!(c.alloc_page(), None);
}

#[test]
fn buddy_pages_given_back_are_handed_out_again() {
    let mut b = BuddyAllocator::<9>::new();
    b.init(0, 0x40_0000);
    b.set_data(b.data_size());
    // the bookkeeping words start as 0xff: the first eight pages count as used
    assert!(b.dealloc_pages(0, 4));
    assert_eq!(b.alloc_page(), Some(0));
    assert_eq!(b.alloc_page(), Some(0x1000));
    assert_eq!(b.alloc_pages(2), Some(0x2000));
    assert_eq!(b.alloc_page(), None);
}

#[test]
fn buddy_pages_freed_after_alloc_pages_are_free_again() {
    let mut b = BuddyAllocator::<9>::new();
    b.init(0, 0x40_0000);
    b.set_data(b.data_size());
    assert!(b.dealloc_pages(0, 4));
    assert_eq!(b.alloc_pages(3), Some(0));
    assert!(b.dealloc_pages(0, 3));
    assert_eq!(b.alloc_pages(3), Some(0));
    assert_eq!(b.alloc_page(), Some(0x3000));
}

#[test]
fn buddy_dealloc_page_marks_the_page_used() {
    let mut b = BuddyAllocator::<9>::new();
    b.init(0, 0x40_0000);
    b.set_data(b.data_size());
    assert!(b.dealloc_page(0x9000));
    // the page given back is not handed out; the search goes on past it
    assert_eq!(b.alloc_page(), Some(0xa000));
}

#[test]
fn memory_maps_must_fit_the_address_space() {
    let good = vec![
        entry(0x10_0000, 0xf0_0000, EntryType::Usable),
        entry(0x100_0000, 0x10_0123, EntryType::ExecutableAndModules),
    ];
    assert!(memory_map_fits(&good, HHDM));
    assert!(memory_map_fits(&vec![], HHDM));
    let unaligned = vec![entry(0x10_0800, 0x1000, EntryType::Usable)];
    assert!(!memory_map_fits(&unaligned, HHDM));
    let huge = vec![entry(0x10_0000_0000_0000, 0x1000, EntryType::Reserved)];
    assert!(!memory_map_fits(&huge, HHDM));
    let wraps = vec![entry(u64::MAX, 2, EntryType::Reserved)];
    assert!(!memory_map_fits(&wraps, HHDM));
    let past_direct_map = vec![entry(0x8000_0000_0000, 0x1000, EntryType::Usable)];
    assert!(!memory_map_fits(&past_direct_map, HHDM));
}

#[test]
fn a_map_with_one_small_kernel_and_free_memory_can_be_booted() {
    let es = vec![
        entry(0x10_0000, 0xf0_0000, EntryType::Usable),
        entry(0x100_0000, 0x20_0000, EntryType::ExecutableAndModules),
    ];
    assert_eq!(check_memory_map(&es), Ok(()));
}

#[test]
fn init_maps_a_kernel_that_runs_into_the_next_table() {
    let entries = vec![
        entry(0x10_0000, 0xf0_0000, EntryType::Usable),
        entry(0x100_0000, 0x10_0000, EntryType::ExecutableAndModules),
    ];
    let mut pmm = MemoryManager::default(BuddyAllocator::<9>::new(), BuddyAllocator::<9>::new());
    let mut hhdm = Hhdm::new();
    let current = kernel_pages(0x100_0000, 256);
    // slot 400 of its last-level table: pages 112.. go to the next table
    let exec = VirtAddrPageAligned::new(EXEC + 400 * 0x1000).unwrap();
    let space = match pmm.init(&entries, &mut hhdm, HHDM, exec, &current) {
        Ok(space) => space,
        Err(e) => panic!("init failed: {:?}", e),
    };
    let root = space.map_addr();
    let t = space.tables();
    assert!(check_kernel_mapped(t, root, exec, &current, 256));
    let first = t.at_addr(root, exec).unwrap();
    let later = t.at_addr(root, VirtAddrPageAligned::new(EXEC + 512 * 0x1000).unwrap()).unwrap();
    assert_eq!(first.1, 400);
    assert_eq!(later.1, 0);
    assert_ne!(first.0, later.0);
    assert_eq!(t.entry(later.0, 0).addr(), 0x100_0000 + 112 * 0x1000);
}
