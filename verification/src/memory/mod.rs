//! Memory management: addresses, the higher-half direct map, physical page
//! allocation, page tables and the virtual address space allocator.
use vstd::prelude::*;
use core::ops::BitOr;
use crate::memory::address::PhysAddrPageAligned;
use crate::memory::physical::{MemoryManager, PhysicalMemorySpace};
use crate::memory::virt::VirtualMemorySpace;
use crate::memory::address::{PageCount, VirtAddr};
use crate::memory::physical::allocator::{
    MemoryAllocator,
    lemma_alloc_aligned,
    pair_alloc_page,
    pair_alloc_page_ok,
    pair_alloc_pages,
    pair_alloc_pages_ok,
    pair_dealloc_page,
    pair_dealloc_page_ok,
    pair_dealloc_pages,
    pair_dealloc_pages_ok,
};

pub mod address;
pub mod hhdm;
pub mod physical;
pub mod slab;
pub mod virt;

verus! {

pub const FLAG_WRITE: u64 = 0x2;
pub const FLAG_USER: u64 = 0x4;
pub const FLAG_WRITE_THROUGH: u64 = 0x8;
pub const FLAG_NO_CACHE: u64 = 0x10;
pub const FLAG_NO_EXEC: u64 = 0x8000_0000_0000_0000;

/// Read-only data: not writable, not executable.
pub const FLAGS_DEFAULT_RO: u64 = 0x8000_0000_0000_0000;
/// Data: writable, not executable.
pub const FLAGS_DEFAULT_RW: u64 = 0x8000_0000_0000_0002;
/// Code: executable, not writable.
pub const FLAGS_DEFAULT_EXEC: u64 = 0;
/// User data: user accessible, writable, not executable.
pub const FLAGS_DEFAULT_URW: u64 = 0x8000_0000_0000_0006;

/// The access rights of a mapping, as page-table entry bits.
#[derive(Debug, Copy, Clone, PartialEq, Eq, Structural)]
pub struct MemoryFlags(u64);

impl View for MemoryFlags {
    type V = u64;

    closed spec fn view(&self) -> u64 {
        self.0
    }
}

impl MemoryFlags {
    /// The flags with the bits of `bits`.
    pub fn from_bits(bits: u64) -> (r: Self)
        ensures
            r@ == bits,
    {
        MemoryFlags(bits)
    }

    /// The bits of the flags.
    pub fn bits(self) -> (r: u64)
        ensures
            r == self@,
    {
        self.0
    }

    /// The union of two sets of flags.
    pub closed spec fn spec_or(self, rhs: Self) -> Self {
        MemoryFlags(self.0 | rhs.0)
    }

    /// The bits of a union are the union of the bits.
    pub proof fn lemma_or(a: Self, b: Self)
        ensures
            a.spec_or(b)@ == a@ | b@,
    {
    }
}

impl BitOr for MemoryFlags {
    type Output = Self;

    fn bitor(self, rhs: Self) -> (r: Self) {
        MemoryFlags(self.0 | rhs.0)
    }
}

impl vstd::std_specs::ops::BitOrSpecImpl for MemoryFlags {
    open spec fn obeys_bitor_spec() -> bool {
        true
    }

    open spec fn bitor_req(self, rhs: Self) -> bool {
        true
    }

    open spec fn bitor_spec(self, rhs: Self) -> Self {
        self.spec_or(rhs)
    }
}

/// The first address of the kernel's virtual address space.
pub const KERNEL_VIRT_START: u64 = 0xffff_f000_0000_0000;
/// The number of pages of the kernel's virtual address space: up to the kernel image in the
/// last two GiB.
pub const KERNEL_VIRT_PAGES: usize = 0xfff8_0000;

/// The memory the kernel starts with: physical memory, with its page tables, and the
/// kernel's virtual address space.
pub struct InitValues(pub PhysicalMemorySpace, pub VirtualMemorySpace);

/// What the kernel starts with, given the physical memory space that setting up the page
/// allocators gave: that space, and a kernel virtual address space all free.
pub fn init(phys: PhysicalMemorySpace) -> (r: InitValues)
    requires
        usize::BITS == 64,
    ensures
        r.0 == phys,
        r.1.wf(),
        r.1.start() == KERNEL_VIRT_START,
        r.1.pages() == Seq::new(KERNEL_VIRT_PAGES as nat, |i: int| false),
{
    let start: usize = KERNEL_VIRT_START as usize;
    proof {
        assert(start == KERNEL_VIRT_START);
        assert(crate::memory::address::round_up(start as int, 4096) == start as int);
    }
    let virt = VirtualMemorySpace::new(VirtAddr::new(start), PageCount::new(KERNEL_VIRT_PAGES));
    InitValues(phys, virt)
}

/// Takes one page from the page allocators.
pub fn alloc_page<A: MemoryAllocator>(pmm: &mut MemoryManager<A>) -> (r: Option<PhysAddrPageAligned>)
    requires
        old(pmm).wf(),
        old(pmm).spec_initialized(),
        pair_alloc_page_ok(old(pmm).spec_alloc_main().state(), old(pmm).spec_alloc_32().state()),
    ensures
        final(pmm).wf(),
        final(pmm).spec_initialized(),
        ({
            let (m2, l2, a) = pair_alloc_page(
                old(pmm).spec_alloc_main().state(),
                old(pmm).spec_alloc_32().state(),
            );
            &&& final(pmm).spec_alloc_main().state() == m2
            &&& final(pmm).spec_alloc_32().state() == l2
            &&& r is Some <==> a is Some
            &&& r matches Some(p) ==> p@ == a->0
        }),
{
    proof {
        lemma_alloc_aligned(pmm.spec_alloc_main().state(), 0);
        lemma_alloc_aligned(pmm.spec_alloc_32().state(), 0);
    }
    match pmm.alloc_page() {
        Some(addr) => Some(PhysAddrPageAligned::new_unchecked(addr)),
        None => None,
    }
}

/// Gives back one page to the page allocators.
pub fn dealloc_page<A: MemoryAllocator>(pmm: &mut MemoryManager<A>, addr: PhysAddrPageAligned)
    requires
        old(pmm).wf(),
        old(pmm).spec_initialized(),
        pair_dealloc_page_ok(old(pmm).spec_alloc_main().state(), old(pmm).spec_alloc_32().state(), addr@),
    ensures
        final(pmm).wf(),
        final(pmm).spec_initialized(),
        (final(pmm).spec_alloc_main().state(), final(pmm).spec_alloc_32().state())
            == pair_dealloc_page(
            old(pmm).spec_alloc_main().state(),
            old(pmm).spec_alloc_32().state(),
            addr@,
        ),
{
    pmm.dealloc_page(addr.addr())
}

/// Takes `count` consecutive pages from the page allocators.
pub fn alloc_pages<A: MemoryAllocator>(pmm: &mut MemoryManager<A>, count: address::PageCount) -> (r:
    Option<PhysAddrPageAligned>)
    requires
        old(pmm).wf(),
        old(pmm).spec_initialized(),
        pair_alloc_pages_ok(
            old(pmm).spec_alloc_main().state(),
            old(pmm).spec_alloc_32().state(),
            count@,
        ),
    ensures
        final(pmm).wf(),
        final(pmm).spec_initialized(),
        ({
            let (m2, l2, a) = pair_alloc_pages(
                old(pmm).spec_alloc_main().state(),
                old(pmm).spec_alloc_32().state(),
                count@,
            );
            &&& final(pmm).spec_alloc_main().state() == m2
            &&& final(pmm).spec_alloc_32().state() == l2
            &&& r is Some <==> a is Some
            &&& r matches Some(p) ==> p@ == a->0
        }),
{
    proof {
        lemma_alloc_aligned(pmm.spec_alloc_main().state(), count@);
        lemma_alloc_aligned(pmm.spec_alloc_32().state(), count@);
    }
    match pmm.alloc_pages(count.count()) {
        Some(addr) => Some(PhysAddrPageAligned::new_unchecked(addr)),
        None => None,
    }
}

/// Gives back `count` pages to the page allocators.
pub fn dealloc_pages<A: MemoryAllocator>(
    pmm: &mut MemoryManager<A>,
    addr: PhysAddrPageAligned,
    count: address::PageCount,
)
    requires
        old(pmm).wf(),
        old(pmm).spec_initialized(),
        pair_dealloc_pages_ok(
            old(pmm).spec_alloc_main().state(),
            old(pmm).spec_alloc_32().state(),
            addr@,
            count@,
        ),
    ensures
        final(pmm).wf(),
        final(pmm).spec_initialized(),
        (final(pmm).spec_alloc_main().state(), final(pmm).spec_alloc_32().state())
            == pair_dealloc_pages(
            old(pmm).spec_alloc_main().state(),
            old(pmm).spec_alloc_32().state(),
            addr@,
            count@,
        ),
{
    pmm.dealloc_pages(addr.addr(), count.count())
}

} // verus!
