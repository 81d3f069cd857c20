use kernel::memory::address::UserVirtAddr;
use kernel::memory::address::{PageCount, VirtAddr, VirtAddrPageAligned};
use kernel::memory::virt::{AddrIntersection, BaseWithLength, VirtualMemorySpace};

fn page(addr: usize) -> VirtAddrPageAligned {
    VirtAddrPageAligned::new(addr).unwrap()
}

fn space() -> VirtualMemorySpace {
    VirtualMemorySpace::new(VirtAddr::new(0x10000), PageCount::new(16))
}

fn pieces(v: &[(VirtAddrPageAligned, PageCount)]) -> Vec<(usize, usize)> {
    v.iter().map(|(a, c)| (a.addr(), c.count())).collect()
}

#[test]
fn allocate_takes_the_first_free_run() {
    let mut s = space();
    assert_eq!(s.allocate(PageCount::new(4)).map(|a| a.addr()), Some(0x10000));
    assert_eq!(s.allocate(PageCount::new(4)).map(|a| a.addr()), Some(0x14000));
    assert!(s.allocate(PageCount::new(9)).is_none());
    assert_eq!(s.allocate(PageCount::new(8)).map(|a| a.addr()), Some(0x18000));
    assert!(s.allocate(PageCount::new(1)).is_none());
}

#[test]
fn new_space_starts_at_a_page_boundary() {
    let mut s = VirtualMemorySpace::new(VirtAddr::new(0x10001), PageCount::new(2));
    assert_eq!(s.allocate(PageCount::new(2)).map(|a| a.addr()), Some(0x11000));
}

#[test]
fn freed_pages_are_allocated_again() {
    let mut s = space();
    s.allocate(PageCount::new(4)).unwrap();
    s.allocate(PageCount::new(4)).unwrap();
    let freed = s.deallocate(page(0x10000), PageCount::new(4));
    assert_eq!(pieces(&freed), vec![(0x10000, 4)]);
    assert_eq!(s.allocate(PageCount::new(2)).map(|a| a.addr()), Some(0x10000));
    assert_eq!(s.allocate(PageCount::new(2)).map(|a| a.addr()), Some(0x12000));
    assert_eq!(s.allocate(PageCount::new(8)).map(|a| a.addr()), Some(0x18000));
}

#[test]
fn allocate_at_inside_a_free_region() {
    let mut s = space();
    assert_eq!(s.allocate_at(page(0x13000), PageCount::new(2), false).map(|a| a.addr()), Some(0x13000));
    assert!(s.allocate_at(page(0x13000), PageCount::new(2), false).is_none());
    assert_eq!(s.allocate_at(page(0x13000), PageCount::new(2), true).map(|a| a.addr()), Some(0x15000));
    assert!(s.allocate_at(page(0x10000), PageCount::new(4), false).is_none());
    assert_eq!(s.allocate_at(page(0x10000), PageCount::new(4), true).map(|a| a.addr()), Some(0x17000));
    assert_eq!(s.allocate(PageCount::new(3)).map(|a| a.addr()), Some(0x10000));
}

#[test]
fn deallocate_frees_the_part_of_each_region_in_range() {
    let mut s = space();
    s.allocate_at(page(0x10000), PageCount::new(4), false).unwrap();
    s.allocate_at(page(0x16000), PageCount::new(4), false).unwrap();
    let freed = s.deallocate(page(0x12000), PageCount::new(6));
    assert_eq!(pieces(&freed), vec![(0x12000, 2), (0x16000, 2)]);
    assert_eq!(s.allocate(PageCount::new(6)).map(|a| a.addr()), Some(0x12000));
}

#[test]
fn deallocate_gives_one_piece_per_region() {
    let mut s = space();
    s.allocate(PageCount::new(4)).unwrap();
    s.allocate(PageCount::new(4)).unwrap();
    let freed = s.deallocate(page(0x12000), PageCount::new(4));
    assert_eq!(pieces(&freed), vec![(0x12000, 2), (0x14000, 2)]);
    assert_eq!(s.allocate(PageCount::new(4)).map(|a| a.addr()), Some(0x12000));
}

#[test]
fn deallocate_in_the_middle_of_a_region() {
    let mut s = space();
    s.allocate(PageCount::new(8)).unwrap();
    let freed = s.deallocate(page(0x12000), PageCount::new(2));
    assert_eq!(pieces(&freed), vec![(0x12000, 2)]);
    assert_eq!(s.allocate(PageCount::new(2)).map(|a| a.addr()), Some(0x12000));
    assert_eq!(s.allocate(PageCount::new(8)).map(|a| a.addr()), Some(0x18000));
}

#[test]
fn allocation_that_ends_at_an_allocated_region_joins_it() {
    let mut s = space();
    s.allocate_at(page(0x18000), PageCount::new(8), false).unwrap();
    s.allocate_at(page(0x14000), PageCount::new(4), false).unwrap();
    let freed = s.deallocate(page(0x10000), PageCount::new(16));
    assert_eq!(pieces(&freed), vec![(0x14000, 12)]);
}

#[test]
fn deallocate_of_free_pages_frees_nothing() {
    let mut s = space();
    let freed = s.deallocate(page(0x10000), PageCount::new(16));
    assert!(freed.is_empty());
    assert_eq!(s.allocate(PageCount::new(16)).map(|a| a.addr()), Some(0x10000));
}

#[test]
fn intersections_of_ranges() {
    let r = |a: usize, n: usize| BaseWithLength(page(a), PageCount::new(n));
    assert!(matches!(r(0x1000, 2).intersect(r(0x4000, 1)), AddrIntersection::NoOverlap));
    assert!(matches!(r(0x2000, 1).intersect(r(0x1000, 4)), AddrIntersection::All));
    match r(0x1000, 8).intersect(r(0x2000, 2)) {
        AddrIntersection::PartialMid(b) => {
            assert_eq!(b.start().addr(), 0x2000);
            assert_eq!(b.length().count(), 2);
            assert_eq!(b.end().addr(), 0x4000);
        }
        other => panic!("unexpected {:?}", other),
    }
    match r(0x1000, 2).intersect(r(0x2000, 4)) {
        AddrIntersection::PartialUp(a) => assert_eq!(a.addr(), 0x2000),
        other => panic!("unexpected {:?}", other),
    }
    match r(0x2000, 4).intersect(r(0x1000, 2)) {
        AddrIntersection::PartialDown(a) => assert_eq!(a.addr(), 0x3000),
        other => panic!("unexpected {:?}", other),
    }
}

#[test]
fn user_buffers_must_lie_in_allocated_pages() {
    let mut s = space();
    s.allocate_at(page(0x12000), PageCount::new(2), false).unwrap();
    assert_eq!(s.first_address(), 0x10000);
    let ok = UserVirtAddr::new(0x12ff0).check_read(&s, 0x20);
    assert_eq!(ok.map(|a| a.addr()), Some(0x12ff0));
    assert!(UserVirtAddr::new(0x13ff0).check_read(&s, 0x20).is_none());
    assert!(UserVirtAddr::new(0x11ff0).check_write(&s, 0x20).is_none());
    assert_eq!(UserVirtAddr::new(0x12000).check_write(&s, 0x2000).map(|a| a.addr()), Some(0x12000));
    assert!(UserVirtAddr::new(0x12000).check_write(&s, 0x2001).is_none());
    assert!(UserVirtAddr::new(0x1000).check_read(&s, 1).is_none());
    assert!(UserVirtAddr::new(0x1f000).check_read(&s, 0x2000).is_none());
    assert!(UserVirtAddr::new(usize::MAX).check_read(&s, 2).is_none());
    assert!(UserVirtAddr::new(0x5).check_read(&s, 0).is_some());
    assert!(s.pages_allocated(2, 4));
    assert!(!s.pages_allocated(1, 3));
    assert!(s.pages_allocated(5, 5));
    assert!(!s.pages_allocated(15, 17));
}
