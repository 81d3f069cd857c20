use kernel::core_local::{block_words, core_info, core_local_block_pointer, layout, place, CoreLocal, CORE_INFO_SIZE};
use kernel::lock::{InterruptLockGuard, Lock};
use kernel::log::{level_tag, LogLevel, Logger};
use kernel::memory::hhdm::{add, get_offset, set_offset, sub, Hhdm};
use kernel::memory::physical::allocator::MemoryAllocator;
use kernel::memory::physical::buddy_allocator::BuddyAllocator;
use kernel::memory::physical::MemoryManager;
use kernel::memory::slab::{size_class, source, SlabAllocator, Slabs, Source};
use kernel::memory::{MemoryFlags, FLAG_USER, FLAG_WRITE};
use kernel::volatile::Volatile;

#[test]
fn variables_are_placed_at_their_alignment() {
    assert_eq!(place(0, 8, 8), (0, 8));
    assert_eq!(place(9, 4, 8), (16, 20));
    assert_eq!(place(17, 1, 1), (17, 18));
    let (offsets, end) = layout(&vec![(8, 8), (1, 1), (16, 16), (4, 4)]);
    assert_eq!(offsets, vec![CORE_INFO_SIZE, CORE_INFO_SIZE + 8, 48, 64]);
    assert_eq!(end, 68);
    assert_eq!(layout(&vec![]), (vec![], CORE_INFO_SIZE));
    assert_eq!(block_words(68), 9);
    assert_eq!(block_words(64), 8);
}

#[test]
fn core_local_offsets() {
    let mut offset = 33usize;
    let mut v: CoreLocal<u64> = CoreLocal::new();
    assert_eq!(v.offset(), 0);
    v.init_offset(&mut offset);
    assert_eq!(v.offset(), 40);
    assert_eq!(offset, 48);
    assert_eq!(core_local_block_pointer().offset(), 0);
    assert_eq!(core_info().offset(), 0);
}

#[test]
fn direct_map_offsets() {
    let mut h = Hhdm::new();
    assert_eq!(get_offset(&h), 0);
    set_offset(&mut h, 0xffff_8000_0000_0000);
    assert_eq!(add(&h, 0x1000), 0xffff_8000_0000_1000);
    assert_eq!(sub(&h, 0xffff_8000_0000_1000), 0x1000);
}

#[test]
fn locks_and_cells_hold_their_value() {
    let mut l = Lock::new(5u32);
    *l.write() += 1;
    assert_eq!(*l.read(), 6);
    assert!(InterruptLockGuard::new(true).release());
    assert!(!InterruptLockGuard::new(false).release());
    let mut v = Volatile::new(3u8);
    v.set(4);
    assert_eq!(v.get(), 4);
    *v.get_mut() = 7;
    assert_eq!(*v.get_ref(), 7);
}

#[test]
fn log_tags_are_colored_letters() {
    assert_eq!(level_tag(LogLevel::Debug), "\x1b[34mD\x1b[0m");
    assert_eq!(level_tag(LogLevel::Info), "\x1b[32mI\x1b[0m");
    assert_eq!(level_tag(LogLevel::Warning), "\x1b[33m\x1b[1mW\x1b[0m");
    assert_eq!(level_tag(LogLevel::Error), "\x1b[31m\x1b[1mE\x1b[0m");
    assert_eq!(Logger::new("PMM").name(), "PMM");
}

#[test]
fn memory_flags_combine_bits() {
    let f = MemoryFlags::from_bits(FLAG_USER) | MemoryFlags::from_bits(FLAG_WRITE);
    assert_eq!(f.bits(), 0x6);
}

#[test]
fn size_classes_are_powers_of_two() {
    assert_eq!(size_class(1), 3);
    assert_eq!(size_class(8), 3);
    assert_eq!(size_class(9), 4);
    assert_eq!(size_class(16), 4);
    assert_eq!(size_class(17), 5);
    assert_eq!(size_class(1024), 10);
    assert_eq!(size_class(1025), 11);
    assert_eq!(size_class(2048), 11);
    assert!(matches!(source(2048), Source::Slab(11)));
    match source(2049) {
        Source::Pages(c) => assert_eq!(c.count(), 1),
        _ => panic!("whole pages expected"),
    }
    match source(0x3001) {
        Source::Pages(c) => assert_eq!(c.count(), 4),
        _ => panic!("whole pages expected"),
    }
}

#[test]
fn the_last_chunk_freed_is_the_first_handed_out() {
    let mut pmm = MemoryManager::default(BuddyAllocator::<9>::new(), BuddyAllocator::<9>::new());
    let hhdm = Hhdm::new();
    let mut slab: SlabAllocator<64> = SlabAllocator::new();
    slab.deallocate(0x1000);
    slab.deallocate(0x2000);
    assert_eq!(slab.allocate(&mut pmm, &hhdm), Some(0x2000));
    assert_eq!(slab.allocate(&mut pmm, &hhdm), Some(0x1000));
    let mut slabs = Slabs::new();
    slabs.deallocate(100, 0x5000, &mut pmm, &hhdm);
    slabs.deallocate(20, 0x6000, &mut pmm, &hhdm);
    assert_eq!(slabs.allocate(128, &mut pmm, &hhdm), Some(0x5000));
    assert_eq!(slabs.allocate(32, &mut pmm, &hhdm), Some(0x6000));
}

#[test]
fn log_lines_start_with_tag_and_name() {
    let l = Logger::new("PMM");
    assert_eq!(l.header(LogLevel::Info), b"[\x1b[32mI\x1b[0m] [PMM] ".to_vec());
    assert_eq!(l.header(LogLevel::Error), b"[\x1b[31m\x1b[1mE\x1b[0m] [PMM] ".to_vec());
}

#[test]
fn the_direct_map_goes_there_and_back() {
    let mut h = Hhdm::new();
    set_offset(&mut h, 0xffff_8000_0000_0000);
    let p = kernel::memory::address::PhysAddr::new(0x12_3456);
    let v = p.hhdm_to_virt(&h);
    assert_eq!(v.addr(), 0xffff_8000_0012_3456);
    assert_eq!(v.hhdm_to_phys(&h).addr(), 0x12_3456);
}
