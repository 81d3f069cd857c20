//! Physical and virtual addresses, page-aligned addresses and page counts.
use vstd::prelude::*;
use crate::memory::hhdm;
use crate::memory::hhdm::Hhdm;
use crate::memory::virt::VirtualMemorySpace;

verus! {

pub const PAGE_SHIFT: u8 = 12;
pub const PAGE_SIZE: usize = 4096;
pub const PAGE_MASK: usize = 4095;

pub const LARGE_PAGE_SHIFT: u8 = 21;
pub const LARGE_PAGE_SIZE: usize = 0x20_0000;
pub const LARGE_PAGE_MASK: usize = 0x1f_ffff;

/// The smallest multiple of `size` that is at least `addr`.
pub open spec fn round_up(addr: int, size: int) -> int {
    ((addr + size - 1) / size) * size
}

/// The largest multiple of `size` that is at most `addr`.
pub open spec fn round_down(addr: int, size: int) -> int {
    (addr / size) * size
}

/// `n * 4096` reduced to the width of `usize`, which is what a shift by the page shift gives.
pub open spec fn pages_to_bytes(n: usize) -> usize {
    (n * 4096) as usize
}

/// Page counts and page-aligned addresses convert into each other without loss: `c` pages
/// as an address give back `c` pages (`as_phys_addr`, `as_virt_addr`, then `page_count`), and
/// the page count of an aligned address gives it back.
pub proof fn lemma_page_count_round_trip(c: int, a: int)
    requires
        c >= 0,
        a >= 0,
        a % 4096 == 0,
    ensures
        (c * 4096) / 4096 == c,
        (c * 4096) % 4096 == 0,
        (a / 4096) * 4096 == a,
{
    vstd::arithmetic::div_mod::lemma_fundamental_div_mod_converse(c * 4096, 4096, c, 0);
}

/// Shift and mask identities on `usize` that the address arithmetic rests on.
pub proof fn lemma_usize_bits(x: usize)
    by (bit_vector)
    ensures
        x >> 12usize == x / 4096,
        x >> 21usize == x / 0x20_0000,
        x >> 9usize == x / 512,
        x >> 6usize == x / 64,
        x >> 2usize == x / 4,
        x >> 1usize == x / 2,
        x & 63usize == x % 64,
        (x & 4095usize == 0) == (x % 4096 == 0),
        (x & 0x1f_ffffusize == 0) == (x % 0x20_0000 == 0),
        x & !4095usize == (x / 4096) * 4096,
        x & !0x1f_ffffusize == (x / 0x20_0000) * 0x20_0000,
        x << 12usize == ((x * 4096) as usize),
{
}

proof fn lemma_shl_page(n: usize)
    ensures
        n << 12usize == pages_to_bytes(n),
        n * 4096 <= usize::MAX ==> pages_to_bytes(n) == n * 4096,
{
    lemma_usize_bits(n);
}

/// Whether `addr` is a multiple of the page size.
pub fn is_page_aligned(addr: usize) -> (r: bool)
    ensures
        r == (addr % 4096 == 0),
{
    proof {
        lemma_usize_bits(addr);
    }
    addr & PAGE_MASK == 0
}

/// The first page boundary at or above `addr`.
pub fn page_align_up(addr: usize) -> (r: usize)
    requires
        addr + PAGE_MASK <= usize::MAX,
    ensures
        r == round_up(addr as int, 4096),
        r % 4096 == 0,
        addr <= r < addr + 4096,
{
    let y = addr + PAGE_MASK;
    proof {
        lemma_usize_bits(y);
    }
    assert((y / 4096) * 4096 <= y) by (nonlinear_arith);
    assert(((addr + 4095) / 4096) * 4096 >= addr) by (nonlinear_arith);
    y & !PAGE_MASK
}

/// The last page boundary at or below `addr`.
pub fn page_align_down(addr: usize) -> (r: usize)
    ensures
        r == round_down(addr as int, 4096),
        r % 4096 == 0,
        r <= addr < r + 4096,
{
    proof {
        lemma_usize_bits(addr);
    }
    addr & !PAGE_MASK
}

/// The number of pages needed to hold `addr` bytes.
pub fn page_count_up(addr: usize) -> (r: usize)
    requires
        addr + PAGE_MASK <= usize::MAX,
    ensures
        r == (addr + 4095) / 4096,
{
    let y = addr + PAGE_MASK;
    proof {
        lemma_usize_bits(y);
    }
    y >> (PAGE_SHIFT as usize)
}

/// The number of whole pages in `addr` bytes.
pub fn page_count_down(addr: usize) -> (r: usize)
    ensures
        r == addr / 4096,
{
    proof {
        lemma_usize_bits(addr);
    }
    addr >> (PAGE_SHIFT as usize)
}

/// Whether `addr` is a multiple of the large (2 MiB) page size.
pub fn is_large_page_aligned(addr: usize) -> (r: bool)
    ensures
        r == (addr % 0x20_0000 == 0),
{
    proof {
        lemma_usize_bits(addr);
    }
    addr & LARGE_PAGE_MASK == 0
}

/// The first large page boundary at or above `addr`.
pub fn large_page_align_up(addr: usize) -> (r: usize)
    requires
        addr + LARGE_PAGE_MASK <= usize::MAX,
    ensures
        r == round_up(addr as int, 0x20_0000),
        r % 0x20_0000 == 0,
        addr <= r < addr + 0x20_0000,
{
    let y = addr + LARGE_PAGE_MASK;
    proof {
        lemma_usize_bits(y);
    }
    assert((y / 0x20_0000) * 0x20_0000 <= y) by (nonlinear_arith);
    assert(((addr + 0x1f_ffff) / 0x20_0000) * 0x20_0000 >= addr) by (nonlinear_arith);
    y & !LARGE_PAGE_MASK
}

/// The last large page boundary at or below `addr`.
pub fn large_page_align_down(addr: usize) -> (r: usize)
    ensures
        r == round_down(addr as int, 0x20_0000),
        r % 0x20_0000 == 0,
        r <= addr < r + 0x20_0000,
{
    proof {
        lemma_usize_bits(addr);
    }
    addr & !LARGE_PAGE_MASK
}

/// The number of large pages needed to hold `addr` bytes.
pub fn large_page_count_up(addr: usize) -> (r: usize)
    requires
        addr + LARGE_PAGE_MASK <= usize::MAX,
    ensures
        r == (addr + 0x1f_ffff) / 0x20_0000,
{
    let y = addr + LARGE_PAGE_MASK;
    proof {
        lemma_usize_bits(y);
    }
    y >> (LARGE_PAGE_SHIFT as usize)
}

/// The number of whole large pages in `addr` bytes.
pub fn large_page_count_down(addr: usize) -> (r: usize)
    ensures
        r == addr / 0x20_0000,
{
    proof {
        lemma_usize_bits(addr);
    }
    addr >> (LARGE_PAGE_SHIFT as usize)
}

/// A number of pages.
#[derive(Debug, Copy, Clone, PartialEq, Eq, Structural, PartialOrd, Ord)]
pub struct PageCount(usize);

impl View for PageCount {
    type V = usize;

    closed spec fn view(&self) -> usize {
        self.0
    }
}

impl PageCount {
    /// A count of `count` pages.
    pub fn new(count: usize) -> (r: Self)
        ensures
            r@ == count,
    {
        PageCount(count)
    }

    /// No pages.
    pub fn zero() -> (r: Self)
        ensures
            r@ == 0,
    {
        PageCount(0)
    }

    /// The size of the pages, as a page-aligned physical address.
    pub fn as_phys_addr(self) -> (r: PhysAddrPageAligned)
        requires
            self@ * 4096 <= usize::MAX,
        ensures
            r@ == self@ * 4096,
    {
        PhysAddrPageAligned::from_page_count(self)
    }

    /// The size of the pages, as a page-aligned virtual address.
    pub fn as_virt_addr(self) -> (r: VirtAddrPageAligned)
        requires
            self@ * 4096 <= usize::MAX,
        ensures
            r@ == self@ * 4096,
    {
        VirtAddrPageAligned::from_page_count(self)
    }

    /// The number of pages.
    pub fn count(self) -> (r: usize)
        ensures
            r == self@,
    {
        self.0
    }

    /// The size of the pages in bytes, reduced to the width of `usize`.
    pub fn size(self) -> (r: usize)
        ensures
            r == pages_to_bytes(self@),
            self@ * 4096 <= usize::MAX ==> r == self@ * 4096,
    {
        proof {
            lemma_shl_page(self.0);
        }
        self.0 << (PAGE_SHIFT as usize)
    }

    /// The pages needed to hold `addr` bytes.
    pub fn pages_up(addr: usize) -> (r: PageCount)
        requires
            addr + PAGE_MASK <= usize::MAX,
        ensures
            r@ == (addr + 4095) / 4096,
    {
        PageCount(page_count_up(addr))
    }

    /// The whole pages in `addr` bytes.
    pub fn pages_down(addr: usize) -> (r: PageCount)
        ensures
            r@ == addr / 4096,
    {
        PageCount(page_count_down(addr))
    }
}

/// A physical address.
#[derive(Debug, Copy, Clone, PartialEq, Eq, Structural, PartialOrd, Ord)]
pub struct PhysAddr(usize);

impl View for PhysAddr {
    type V = usize;

    closed spec fn view(&self) -> usize {
        self.0
    }
}

impl PhysAddr {
    /// The address `addr`.
    pub fn new(addr: usize) -> (r: Self)
        ensures
            r@ == addr,
    {
        PhysAddr(addr)
    }

    /// The address zero.
    pub fn zero() -> (r: Self)
        ensures
            r@ == 0,
    {
        PhysAddr(0)
    }

    /// The address as a number.
    pub fn addr(self) -> (r: usize)
        ensures
            r == self@,
    {
        self.0
    }

    /// Where this physical address is seen through the direct map.
    pub fn hhdm_to_virt(self, hhdm: &Hhdm) -> (r: VirtAddr)
        requires
            self@ + hhdm.spec_offset() <= usize::MAX,
        ensures
            r@ == self@ + hhdm.spec_offset(),
    {
        VirtAddr::new(hhdm::add(hhdm, self.0))
    }

    /// Whether the address is page aligned.
    pub fn is_page_aligned(self) -> (r: bool)
        ensures
            r == (self@ % 4096 == 0),
    {
        is_page_aligned(self.0)
    }

    /// The address as a page-aligned address, if it is one.
    pub fn as_page_aligned(self) -> (r: Option<PhysAddrPageAligned>)
        ensures
            self@ % 4096 == 0 <==> r is Some,
            r matches Some(a) ==> a@ == self@,
    {
        PhysAddrPageAligned::new(self.0)
    }

    /// The first page boundary at or above this address.
    pub fn page_align_up(self) -> (r: PhysAddrPageAligned)
        requires
            self@ + PAGE_MASK <= usize::MAX,
        ensures
            r@ == round_up(self@ as int, 4096),
    {
        PhysAddrPageAligned::new_unchecked(page_align_up(self.0))
    }

    /// The last page boundary at or below this address.
    pub fn page_align_down(self) -> (r: PhysAddrPageAligned)
        ensures
            r@ == round_down(self@ as int, 4096),
    {
        PhysAddrPageAligned::new_unchecked(page_align_down(self.0))
    }

    /// The pages needed to cover this many bytes.
    pub fn page_count_up(self) -> (r: PageCount)
        requires
            self@ + PAGE_MASK <= usize::MAX,
        ensures
            r@ == (self@ + 4095) / 4096,
    {
        PageCount(page_count_up(self.0))
    }

    /// The whole pages in this many bytes.
    pub fn page_count_down(self) -> (r: PageCount)
        ensures
            r@ == self@ / 4096,
    {
        PageCount(page_count_down(self.0))
    }
}

/// A page-aligned physical address.
#[derive(Debug, Copy, Clone, PartialEq, Eq, Structural, PartialOrd, Ord)]
pub struct PhysAddrPageAligned(usize);

impl View for PhysAddrPageAligned {
    type V = usize;

    closed spec fn view(&self) -> usize {
        self.0
    }
}

impl PhysAddrPageAligned {
    /// Every value of this type is page aligned.
    #[verifier::type_invariant]
    pub open spec fn aligned(self) -> bool {
        self@ % 4096 == 0
    }

    /// The address `addr`, if it is page aligned.
    pub fn new(addr: usize) -> (r: Option<Self>)
        ensures
            addr % 4096 == 0 <==> r is Some,
            r matches Some(a) ==> a@ == addr,
    {
        if is_page_aligned(addr) {
            Some(PhysAddrPageAligned(addr))
        } else {
            None
        }
    }

    /// The address `addr`, which the caller knows to be page aligned.
    pub fn new_unchecked(addr: usize) -> (r: Self)
        requires
            addr % 4096 == 0,
        ensures
            r@ == addr,
    {
        PhysAddrPageAligned(addr)
    }

    fn from_page_count(count: PageCount) -> (r: Self)
        requires
            count@ * 4096 <= usize::MAX,
        ensures
            r@ == count@ * 4096,
    {
        let size = count.size();
        assert(size % 4096 == 0);
        PhysAddrPageAligned(size)
    }

    /// The address zero.
    pub fn zero() -> (r: Self)
        ensures
            r@ == 0,
    {
        PhysAddrPageAligned(0)
    }

    /// The address as a number.
    pub fn addr(self) -> (r: usize)
        ensures
            r == self@,
            r % 4096 == 0,
    {
        proof {
            use_type_invariant(self);
        }
        self.0
    }

    /// The number of the page that starts at this address.
    pub fn page_count(self) -> (r: PageCount)
        ensures
            r@ == self@ / 4096,
            r@ * 4096 == self@,
    {
        proof {
            use_type_invariant(self);
        }
        let v = self.0;
        proof {
            lemma_usize_bits(v);
        }
        PageCount(v >> (PAGE_SHIFT as usize))
    }

    /// Where this physical page is seen through the direct map.
    pub fn hhdm_to_virt(self, hhdm: &Hhdm) -> (r: VirtAddrPageAligned)
        requires
            self@ + hhdm.spec_offset() <= usize::MAX,
        ensures
            r@ == self@ + hhdm.spec_offset(),
    {
        proof {
            use_type_invariant(self);
            use_type_invariant(hhdm);
        }
        VirtAddrPageAligned::new_unchecked(hhdm::add(hhdm, self.0))
    }

    /// The address `count` pages above this one.
    pub fn add_pages(self, count: PageCount) -> (r: Self)
        requires
            self@ + count@ * 4096 <= usize::MAX,
        ensures
            r@ == self@ + count@ * 4096,
    {
        proof {
            use_type_invariant(self);
        }
        let size = count.size();
        PhysAddrPageAligned(self.0 + size)
    }

    /// The number of pages from `other` up to this address.
    pub fn pages_since(self, other: Self) -> (r: PageCount)
        requires
            other@ <= self@,
        ensures
            r@ * 4096 == self@ - other@,
    {
        proof {
            use_type_invariant(self);
            use_type_invariant(other);
        }
        PageCount(page_count_down(self.0 - other.0))
    }
}

/// A virtual address.
#[derive(Debug, Copy, Clone, PartialEq, Eq, Structural, PartialOrd, Ord)]
pub struct VirtAddr(usize);

impl View for VirtAddr {
    type V = usize;

    closed spec fn view(&self) -> usize {
        self.0
    }
}

impl VirtAddr {
    /// The address `addr`.
    pub fn new(addr: usize) -> (r: Self)
        ensures
            r@ == addr,
    {
        VirtAddr(addr)
    }

    /// The address zero.
    pub fn zero() -> (r: Self)
        ensures
            r@ == 0,
    {
        VirtAddr(0)
    }

    /// The address as a number.
    pub fn addr(self) -> (r: usize)
        ensures
            r == self@,
    {
        self.0
    }

    /// The physical address behind this direct-map address.
    pub fn hhdm_to_phys(self, hhdm: &Hhdm) -> (r: PhysAddr)
        requires
            self@ >= hhdm.spec_offset(),
        ensures
            r@ == self@ - hhdm.spec_offset(),
    {
        PhysAddr(hhdm::sub(hhdm, self.0))
    }

    /// Whether the address is page aligned.
    pub fn is_page_aligned(self) -> (r: bool)
        ensures
            r == (self@ % 4096 == 0),
    {
        is_page_aligned(self.0)
    }

    /// The address as a page-aligned address, if it is one.
    pub fn as_page_aligned(self) -> (r: Option<VirtAddrPageAligned>)
        ensures
            self@ % 4096 == 0 <==> r is Some,
            r matches Some(a) ==> a@ == self@,
    {
        VirtAddrPageAligned::new(self.0)
    }

    /// The first page boundary at or above this address.
    pub fn page_align_up(self) -> (r: VirtAddrPageAligned)
        requires
            self@ + PAGE_MASK <= usize::MAX,
        ensures
            r@ == round_up(self@ as int, 4096),
            self@ <= r@ < self@ + 4096,
    {
        VirtAddrPageAligned::new_unchecked(page_align_up(self.0))
    }

    /// The last page boundary at or below this address.
    pub fn page_align_down(self) -> (r: VirtAddrPageAligned)
        ensures
            r@ == round_down(self@ as int, 4096),
            r@ <= self@ < r@ + 4096,
    {
        VirtAddrPageAligned::new_unchecked(page_align_down(self.0))
    }

    /// The pages needed to cover this many bytes.
    pub fn page_count_up(self) -> (r: PageCount)
        requires
            self@ + PAGE_MASK <= usize::MAX,
        ensures
            r@ == (self@ + 4095) / 4096,
    {
        PageCount(page_count_up(self.0))
    }

    /// The whole pages in this many bytes.
    pub fn page_count_down(self) -> (r: PageCount)
        ensures
            r@ == self@ / 4096,
    {
        PageCount(page_count_down(self.0))
    }
}

/// A page-aligned virtual address.
#[derive(Debug, Copy, Clone, PartialEq, Eq, Structural, PartialOrd, Ord)]
pub struct VirtAddrPageAligned(usize);

impl View for VirtAddrPageAligned {
    type V = usize;

    closed spec fn view(&self) -> usize {
        self.0
    }
}

impl VirtAddrPageAligned {
    /// Every value of this type is page aligned.
    #[verifier::type_invariant]
    pub open spec fn aligned(self) -> bool {
        self@ % 4096 == 0
    }

    /// The address `addr`, if it is page aligned.
    pub fn new(addr: usize) -> (r: Option<Self>)
        ensures
            addr % 4096 == 0 <==> r is Some,
            r matches Some(a) ==> a@ == addr,
    {
        if is_page_aligned(addr) {
            Some(VirtAddrPageAligned(addr))
        } else {
            None
        }
    }

    /// The address `addr`, which the caller knows to be page aligned.
    pub fn new_unchecked(addr: usize) -> (r: Self)
        requires
            addr % 4096 == 0,
        ensures
            r@ == addr,
    {
        VirtAddrPageAligned(addr)
    }

    fn from_page_count(count: PageCount) -> (r: Self)
        requires
            count@ * 4096 <= usize::MAX,
        ensures
            r@ == count@ * 4096,
    {
        let size = count.size();
        assert(size % 4096 == 0);
        VirtAddrPageAligned(size)
    }

    /// The address zero.
    pub fn zero() -> (r: Self)
        ensures
            r@ == 0,
    {
        VirtAddrPageAligned(0)
    }

    /// The address as a number.
    pub fn addr(self) -> (r: usize)
        ensures
            r == self@,
            r % 4096 == 0,
    {
        proof {
            use_type_invariant(self);
        }
        self.0
    }

    /// The number of the page that starts at this address.
    pub fn page_count(self) -> (r: PageCount)
        ensures
            r@ == self@ / 4096,
            r@ * 4096 == self@,
    {
        proof {
            use_type_invariant(self);
        }
        let v = self.0;
        proof {
            lemma_usize_bits(v);
        }
        PageCount(v >> (PAGE_SHIFT as usize))
    }

    /// The physical address behind this direct-map address.
    pub fn hhdm_to_phys(self, hhdm: &Hhdm) -> (r: PhysAddr)
        requires
            self@ >= hhdm.spec_offset(),
        ensures
            r@ == self@ - hhdm.spec_offset(),
    {
        PhysAddr(hhdm::sub(hhdm, self.0))
    }

    /// The start of the direct map.
    pub fn hhdm_offset(hhdm: &Hhdm) -> (r: Self)
        ensures
            r@ == hhdm.spec_offset(),
    {
        VirtAddrPageAligned::new_unchecked(hhdm::get_offset(hhdm))
    }

    /// The address `count` pages above this one.
    pub fn add_pages(self, count: PageCount) -> (r: Self)
        requires
            self@ + count@ * 4096 <= usize::MAX,
        ensures
            r@ == self@ + count@ * 4096,
    {
        proof {
            use_type_invariant(self);
        }
        let size = count.size();
        VirtAddrPageAligned(self.0 + size)
    }

    /// The address `count` pages below this one.
    pub fn sub_pages(self, count: PageCount) -> (r: Self)
        requires
            count@ * 4096 <= self@,
        ensures
            r@ == self@ - count@ * 4096,
    {
        proof {
            use_type_invariant(self);
        }
        let size = count.size();
        VirtAddrPageAligned(self.0 - size)
    }

    /// The number of pages from `other` up to this address.
    pub fn pages_since(self, other: Self) -> (r: PageCount)
        requires
            other@ <= self@,
        ensures
            r@ * 4096 == self@ - other@,
    {
        proof {
            use_type_invariant(self);
            use_type_invariant(other);
        }
        PageCount(page_count_down(self.0 - other.0))
    }
}

/// The direct map is one to one: a physical address taken to its direct-map address
/// (`hhdm_to_virt`) and back (`hhdm_to_phys`) is the same address, and so is a direct-map
/// address taken to its physical address and back.
pub proof fn lemma_direct_map_round_trip(h: Hhdm, phys: int, virt: int)
    requires
        0 <= phys,
        phys + h.spec_offset() <= usize::MAX,
        h.spec_offset() <= virt <= usize::MAX,
    ensures
        (phys + h.spec_offset()) - h.spec_offset() == phys,
        (virt - h.spec_offset()) + h.spec_offset() == virt,
{
}

/// The `length` bytes from `addr` lie in allocated pages of a space that starts at `start`
/// and whose pages are allocated as `pages` says: every page from the one of the first byte to
/// the one of the last byte is a page of the space and allocated. No bytes always do.
pub open spec fn user_range_ok(pages: Seq<bool>, start: int, addr: int, length: int) -> bool {
    length == 0 || ({
        let lo = (addr - start) / 4096;
        let hi = (addr + length - 1 - start) / 4096 + 1;
        &&& start <= addr
        &&& hi <= pages.len()
        &&& forall|p: int| lo <= p < hi ==> #[trigger] pages[p]
    })
}

/// A virtual address handed in by user code, not yet checked.
#[derive(Debug, Copy, Clone, PartialEq, Eq, Structural, PartialOrd, Ord)]
pub struct UserVirtAddr(usize);

impl View for UserVirtAddr {
    type V = usize;

    closed spec fn view(&self) -> usize {
        self.0
    }
}

impl UserVirtAddr {
    /// The address `addr`.
    pub fn new(addr: usize) -> (r: Self)
        ensures
            r@ == addr,
    {
        UserVirtAddr(addr)
    }

    /// The address zero.
    pub fn zero() -> (r: Self)
        ensures
            r@ == 0,
    {
        UserVirtAddr(0)
    }

    /// The `length` bytes from this address, checked against the user's virtual address
    /// space `space` before the kernel reads them: the address, when they all lie in
    /// allocated pages of the space.
    pub fn check_read(self, space: &VirtualMemorySpace, length: usize) -> (r: Option<VirtAddr>)
        requires
            space.wf(),
        ensures
            r is Some <==> user_range_ok(space.pages(), space.start(), self@ as int, length as int),
            r matches Some(v) ==> v@ == self@,
    {
        self.check_range(space, length)
    }

    /// The `length` bytes from this address, checked against the user's virtual address
    /// space `space` before the kernel writes them: the address, when they all lie in
    /// allocated pages of the space (the space keeps no access rights of its pages).
    pub fn check_write(self, space: &VirtualMemorySpace, length: usize) -> (r: Option<VirtAddr>)
        requires
            space.wf(),
        ensures
            r is Some <==> user_range_ok(space.pages(), space.start(), self@ as int, length as int),
            r matches Some(v) ==> v@ == self@,
    {
        self.check_range(space, length)
    }

    fn check_range(self, space: &VirtualMemorySpace, length: usize) -> (r: Option<VirtAddr>)
        requires
            space.wf(),
        ensures
            r is Some <==> user_range_ok(space.pages(), space.start(), self@ as int, length as int),
            r matches Some(v) ==> v@ == self@,
    {
        if length == 0 {
            return Some(VirtAddr::new(self.0));
        }
        let start = space.first_address();
        if self.0 < start {
            return None;
        }
        if self.0 > usize::MAX - (length - 1) {
            proof {
                let hi = (self@ + length - 1 - start) / 4096 + 1;
                assert(hi > space.pages().len()) by (nonlinear_arith)
                    requires
                        hi == (self@ + length - 1 - start) / 4096 + 1,
                        self@ + length - 1 > usize::MAX,
                        start + space.pages().len() * 4096 <= usize::MAX,
                ;
            }
            return None;
        }
        let lo = (self.0 - start) / 4096;
        let hi = (self.0 + (length - 1) - start) / 4096 + 1;
        if space.pages_allocated(lo, hi) {
            Some(VirtAddr::new(self.0))
        } else {
            None
        }
    }

    /// The address as a number.
    pub fn addr(self) -> (r: usize)
        ensures
            r == self@,
    {
        self.0
    }
}

/// The page range that covers `length` bytes from `addr`: its first page and its number of pages.
pub fn align_page_range(addr: usize, length: usize) -> (r: (VirtAddrPageAligned, PageCount))
    requires
        length + addr % 4096 + PAGE_MASK <= usize::MAX,
    ensures
        r.0@ == round_down(addr as int, 4096),
        r.1@ == (length + addr % 4096 + 4095) / 4096,
{
    let virt = VirtAddr::new(addr).page_align_down();
    assert(addr - virt@ == addr % 4096) by (nonlinear_arith)
        requires
            virt@ == (addr / 4096) * 4096,
    ;
    let count = PageCount::pages_up(length.saturating_add(addr - virt.addr()));
    (virt, count)
}

} // verus!
