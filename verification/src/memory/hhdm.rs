//! The higher-half direct map: every physical address is visible in the
//! kernel's address space at a fixed, page-aligned offset.
use vstd::prelude::*;

verus! {

/// The offset of the higher-half direct map.
pub struct Hhdm {
    offset: usize,
}

impl Hhdm {
    /// The offset is always page aligned.
    #[verifier::type_invariant]
    pub open spec fn aligned(self) -> bool {
        self.spec_offset() % 4096 == 0
    }

    /// The offset as a number.
    pub closed spec fn spec_offset(self) -> usize {
        self.offset
    }

    /// A direct map at offset zero, the state before the bootloader's answer is known.
    pub fn new() -> (h: Self)
        ensures
            h.spec_offset() == 0,
    {
        Hhdm { offset: 0 }
    }
}

/// Sets the offset of the direct map; the offset must be page aligned.
pub fn set_offset(hhdm: &mut Hhdm, offset: usize)
    requires
        offset % 4096 == 0,
    ensures
        final(hhdm).spec_offset() == offset,
{
    *hhdm = Hhdm { offset };
}

/// The offset of the direct map.
pub fn get_offset(hhdm: &Hhdm) -> (r: usize)
    ensures
        r == hhdm.spec_offset(),
        r % 4096 == 0,
{
    proof {
        use_type_invariant(hhdm);
    }
    hhdm.offset
}

/// The direct-map virtual address of a physical address.
pub fn add(hhdm: &Hhdm, addr: usize) -> (r: usize)
    requires
        addr + hhdm.spec_offset() <= usize::MAX,
    ensures
        r == addr + hhdm.spec_offset(),
{
    addr + get_offset(hhdm)
}

/// The physical address behind a direct-map virtual address.
pub fn sub(hhdm: &Hhdm, addr: usize) -> (r: usize)
    requires
        addr >= hhdm.spec_offset(),
    ensures
        r == addr - hhdm.spec_offset(),
{
    addr - get_offset(hhdm)
}

} // verus!
