use kernel::memory::address::{
    align_page_range, is_large_page_aligned, is_page_aligned, large_page_align_down,
    large_page_align_up, large_page_count_down, large_page_count_up, page_align_down,
    page_align_up, page_count_down, page_count_up, PageCount, PhysAddr, PhysAddrPageAligned,
    VirtAddr, VirtAddrPageAligned,
};
use kernel::memory::hhdm;

#[test]
fn page_alignment_rounds_to_page_boundaries() {
    assert!(is_page_aligned(0));
    assert!(is_page_aligned(0x2000));
    assert!(!is_page_aligned(0x2001));
    assert_eq!(page_align_up(0), 0);
    assert_eq!(page_align_up(1), 0x1000);
    assert_eq!(page_align_up(0x1000), 0x1000);
    assert_eq!(page_align_up(0x1001), 0x2000);
    assert_eq!(page_align_down(0x1fff), 0x1000);
    assert_eq!(page_align_down(0x2000), 0x2000);
}

#[test]
fn page_counts_round_up_and_down() {
    assert_eq!(page_count_up(0), 0);
    assert_eq!(page_count_up(1), 1);
    assert_eq!(page_count_up(0x1000), 1);
    assert_eq!(page_count_up(0x1001), 2);
    assert_eq!(page_count_down(0x1fff), 1);
    assert_eq!(PageCount::pages_up(0x3001).count(), 4);
    assert_eq!(PageCount::pages_down(0x3001).count(), 3);
    assert_eq!(PageCount::new(3).size(), 0x3000);
}

#[test]
fn large_pages_are_two_mebibytes() {
    assert!(is_large_page_aligned(0x40_0000));
    assert!(!is_large_page_aligned(0x40_1000));
    assert_eq!(large_page_align_up(1), 0x20_0000);
    assert_eq!(large_page_align_down(0x3f_ffff), 0x20_0000);
    assert_eq!(large_page_count_up(0x20_0001), 2);
    assert_eq!(large_page_count_down(0x3f_ffff), 1);
}

#[test]
fn aligned_addresses_only_from_aligned_values() {
    assert!(PhysAddrPageAligned::new(0x1234).is_none());
    assert_eq!(PhysAddrPageAligned::new(0x5000).unwrap().addr(), 0x5000);
    assert_eq!(PhysAddrPageAligned::new(0x5000).unwrap().page_count().count(), 5);
    assert!(VirtAddr::new(0x1234).as_page_aligned().is_none());
    assert_eq!(VirtAddr::new(0x1234).page_align_up().addr(), 0x2000);
    assert_eq!(VirtAddr::new(0x1234).page_align_down().addr(), 0x1000);
    assert_eq!(PhysAddr::new(0x1234).page_count_up().count(), 2);
}

#[test]
fn page_range_covers_the_bytes() {
    let (start, count) = align_page_range(0x1ff0, 0x20);
    assert_eq!(start.addr(), 0x1000);
    assert_eq!(count.count(), 2);
    let (start, count) = align_page_range(0x3000, 0x1000);
    assert_eq!(start.addr(), 0x3000);
    assert_eq!(count.count(), 1);
}

#[test]
fn direct_map_translates_both_ways() {
    let mut h = hhdm::Hhdm::new();
    hhdm::set_offset(&mut h, 0xffff_8000_0000_0000);
    assert_eq!(hhdm::get_offset(&h), 0xffff_8000_0000_0000);
    assert_eq!(hhdm::add(&h, 0x1000), 0xffff_8000_0000_1000);
    assert_eq!(hhdm::sub(&h, 0xffff_8000_0000_1000), 0x1000);
    let v = PhysAddr::new(0x2000).hhdm_to_virt(&h);
    assert_eq!(v.addr(), 0xffff_8000_0000_2000);
    assert_eq!(v.hhdm_to_phys(&h).addr(), 0x2000);
    assert_eq!(VirtAddrPageAligned::hhdm_offset(&h).addr(), 0xffff_8000_0000_0000);
}
