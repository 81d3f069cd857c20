//! The global descriptor table: segment descriptors, the task-state segment and the
//! table the kernel loads.
use vstd::prelude::*;

verus! {

/// One 8-byte segment descriptor, field by field.
#[derive(Debug, Copy, Clone)]
pub struct Gdt {
    pub limit1: u16,
    pub base1: u16,
    pub base2: u8,
    pub access: u8,
    pub limit2_flags: u8,
    pub base3: u8,
}

/// The base address a descriptor holds.
pub open spec fn gdt_base(g: Gdt) -> int {
    g.base1 + g.base2 * 0x1_0000 + g.base3 * 0x100_0000
}

/// The 20-bit limit a descriptor holds.
pub open spec fn gdt_limit(g: Gdt) -> int {
    g.limit1 + (g.limit2_flags % 16) * 0x1_0000
}

/// The four flag bits a descriptor holds.
pub open spec fn gdt_flags(g: Gdt) -> int {
    (g.limit2_flags / 16) as int
}

proof fn lemma_gdt_bits(base: u32, limit: u32, flags: u8)
    by (bit_vector)
    ensures
        (base as u16) as u32 + ((base >> 16u32) as u8) as u32 * 0x1_0000 + ((base >> 24u32) as u8) as u32
            * 0x100_0000 == base,
        (limit as u16) as u32 + ((((limit >> 16u32) as u8) & 0xfu8) | (flags << 4u8)) as u32 % 16 * 0x1_0000
            == limit % 0x10_0000,
        flags < 16 ==> ((((limit >> 16u32) as u8) & 0xfu8) | (flags << 4u8)) / 16 == flags,
{
}

impl Gdt {
    /// The descriptor as the processor reads it: the fields packed from the low byte up.
    pub fn to_bits(&self) -> (r: u64)
        ensures
            r & 0xffff == self.limit1,
            (r >> 16) & 0xffff == self.base1,
            (r >> 32) & 0xff == self.base2,
            (r >> 40) & 0xff == self.access,
            (r >> 48) & 0xff == self.limit2_flags,
            r >> 56 == self.base3,
    {
        let a = self.limit1 as u64;
        let b = self.base1 as u64;
        let c = self.base2 as u64;
        let d = self.access as u64;
        let e = self.limit2_flags as u64;
        let f = self.base3 as u64;
        let r = a | b << 16 | c << 32 | d << 40 | e << 48 | f << 56;
        assert(r & 0xffff == a && (r >> 16) & 0xffff == b && (r >> 32) & 0xff == c && (r >> 40)
            & 0xff == d && (r >> 48) & 0xff == e && r >> 56 == f) by (bit_vector)
            requires
                a < 0x1_0000,
                b < 0x1_0000,
                c < 0x100,
                d < 0x100,
                e < 0x100,
                f < 0x100,
                r == a | b << 16 | c << 32 | d << 40 | e << 48 | f << 56,
        ;
        r
    }

    /// The descriptor of a segment at `base` with the 20-bit limit `limit`, the access byte
    /// `access` and the four flag bits `flags`.
    pub fn new(base: u32, limit: u32, access: u8, flags: u8) -> (r: Self)
        ensures
            r.limit1 == limit as u16,
            r.base1 == base as u16,
            r.base2 == (base >> 16) as u8,
            r.access == access,
            r.limit2_flags == ((limit >> 16) as u8 & 0xf) | (flags << 4),
            r.base3 == (base >> 24) as u8,
            gdt_base(r) == base,
            gdt_limit(r) == limit % 0x10_0000,
            flags < 16 ==> gdt_flags(r) == flags,
    {
        proof {
            lemma_gdt_bits(base, limit, flags);
        }
        Gdt {
            limit1: limit as u16,
            base1: base as u16,
            base2: (base >> 16) as u8,
            access,
            limit2_flags: ((limit >> 16) as u8 & 0xf) | (flags << 4),
            base3: (base >> 24) as u8,
        }
    }

    /// The two descriptors of a system segment at the 64-bit address `base`: the usual one
    /// for the low half of the address, then one whose first four bytes hold the high half
    /// and whose other four bytes are zero.
    pub fn new_double(base: u64, limit: u32, access: u8, flags: u8) -> (r: [Self; 2])
        ensures
            r[0] == Self::spec_new(base as u32, limit, access, flags),
            r[1].limit1 == (base >> 32) as u16,
            r[1].base1 == (base >> 48) as u16,
            r[1].base2 == 0,
            r[1].access == 0,
            r[1].limit2_flags == 0,
            r[1].base3 == 0,
    {
        let high = Gdt {
            limit1: (base >> 32) as u16,
            base1: (base >> 48) as u16,
            base2: 0,
            access: 0,
            limit2_flags: 0,
            base3: 0,
        };
        let low = Self::new(base as u32, limit, access, flags);
        [low, high]
    }

    /// The descriptor `new` builds.
    pub open spec fn spec_new(base: u32, limit: u32, access: u8, flags: u8) -> Self {
        Gdt {
            limit1: limit as u16,
            base1: base as u16,
            base2: (base >> 16) as u8,
            access,
            limit2_flags: ((limit >> 16) as u8 & 0xf) | (flags << 4),
            base3: (base >> 24) as u8,
        }
    }

    /// The null descriptor.
    pub fn default() -> (r: Self)
        ensures
            r == Self::spec_new(0, 0, 0, 0),
    {
        Self::new(0, 0, 0, 0)
    }
}

/// The number of descriptors in the table.
pub const GDT_SIZE: usize = 7;

/// The selector of the kernel code segment.
pub const KERNEL_CODE_SELECTOR: usize = 0x08;
/// The selector of the kernel stack segment.
pub const KERNEL_STACK_SELECTOR: usize = 0x10;
/// The selector of the task-state segment.
pub const TSS_SELECTOR: u16 = 0x28;
/// The size of the task-state segment in bytes.
pub const TSS_SIZE: u32 = 0x68;

/// The descriptor table the kernel loads, with its task-state segment at `tss`: the null
/// descriptor, kernel code, kernel stack, user stack, user code, and the two descriptors of
/// the task-state segment.
pub fn gdt_table(tss: u64) -> (r: [Gdt; 7])
    ensures
        r[0] == Gdt::spec_new(0, 0, 0, 0),
        r[1] == Gdt::spec_new(0, 0xffff_ffff, 0x9b, 0xa),
        r[2] == Gdt::spec_new(0, 0xffff_ffff, 0x93, 0xa),
        r[3] == Gdt::spec_new(0, 0xffff_ffff, 0xf3, 0xa),
        r[4] == Gdt::spec_new(0, 0xffff_ffff, 0xfb, 0xa),
        r[5] == Gdt::spec_new(tss as u32, 0x67, 0x89, 0),
        r[6].limit1 == (tss >> 32) as u16,
        r[6].base1 == (tss >> 48) as u16,
{
    let pair = Gdt::new_double(tss, TSS_SIZE - 1, 0x89, 0x0);
    let tss_low = pair[0];
    let tss_high = pair[1];
    [
        Gdt::default(),
        Gdt::new(0, 0xffff_ffff, 0x9b, 0xa),
        Gdt::new(0, 0xffff_ffff, 0x93, 0xa),
        Gdt::new(0, 0xffff_ffff, 0xf3, 0xa),
        Gdt::new(0, 0xffff_ffff, 0xfb, 0xa),
        tss_low,
        tss_high,
    ]
}

/// The limit field of the pointer that `lgdt` loads for a table of `len` descriptors: its
/// size in bytes, less one.
pub fn info_size(len: usize) -> (r: u16)
    requires
        1 <= len <= 8192,
    ensures
        r == len * 8 - 1,
{
    (len * 8 - 1) as u16
}

/// The task-state segment: the stacks the processor switches to.
#[derive(Debug, Copy, Clone)]
pub struct Tss {
    pub rsp: [u64; 3],
    pub ist: [u64; 7],
    pub iopb: u16,
}

impl Tss {
    /// A task-state segment of zeros.
    pub fn default() -> (r: Self)
        ensures
            forall|i: int| 0 <= i < 3 ==> r.rsp[i] == 0,
            forall|i: int| 0 <= i < 7 ==> r.ist[i] == 0,
            r.iopb == 0,
    {
        Tss { rsp: [0; 3], ist: [0; 7], iopb: 0 }
    }
}

/// Sets the stack the processor switches to on entering the kernel from user mode.
pub fn tss_set_kernel_stack(tss: &mut Tss, stack: u64)
    ensures
        final(tss).rsp@ == old(tss).rsp@.update(0, stack),
        final(tss).ist == old(tss).ist,
        final(tss).iopb == old(tss).iopb,
{
    tss.rsp[0] = stack;
}

/// Sets the stack the processor switches to for the interrupts that use the first
/// interrupt stack.
pub fn tss_set_exception_stack(tss: &mut Tss, stack: u64)
    ensures
        final(tss).ist@ == old(tss).ist@.update(0, stack),
        final(tss).rsp == old(tss).rsp,
        final(tss).iopb == old(tss).iopb,
{
    tss.ist[0] = stack;
}

} // verus!
