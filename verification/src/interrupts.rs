//! Interrupt descriptors, the table of handlers, the contexts handlers get, and the
//! programming of the interrupt controllers.
use vstd::prelude::*;

verus! {

/// The number of interrupt vectors.
pub const NUM_VECTORS: usize = 256;
/// The first vector that is not an exception.
pub const FIRST_IRQ: u16 = 32;
/// The code segment of user mode.
pub const USER_CS: u16 = 0x23;

/// One 16-byte interrupt descriptor, field by field.
#[derive(Debug, Copy, Clone)]
pub struct IdtEntry {
    pub offset_1: u16,
    pub selector: u16,
    pub ist: u8,
    pub type_attr: u8,
    pub offset_2: u16,
    pub offset_3: u32,
    pub zero: u32,
}

/// The handler address a descriptor holds.
pub open spec fn idt_offset(e: IdtEntry) -> int {
    e.offset_1 + e.offset_2 * 0x1_0000 + e.offset_3 * 0x1_0000_0000
}

proof fn lemma_offset_bits(offset: u64)
    by (bit_vector)
    ensures
        (offset as u16) as u64 + ((offset >> 16u64) as u16) as u64 * 0x1_0000 + ((offset >> 32u64)
            as u32) as u64 * 0x1_0000_0000 == offset,
{
}

impl IdtEntry {
    /// The descriptor as the processor reads it, as its low and high eight bytes: the fields
    /// packed from the low byte up.
    pub fn to_bits(&self) -> (r: (u64, u64))
        ensures
            r.0 & 0xffff == self.offset_1,
            (r.0 >> 16) & 0xffff == self.selector,
            (r.0 >> 32) & 0xff == self.ist,
            (r.0 >> 40) & 0xff == self.type_attr,
            r.0 >> 48 == self.offset_2,
            r.1 & 0xffff_ffff == self.offset_3,
            r.1 >> 32 == self.zero,
    {
        let a = self.offset_1 as u64;
        let b = self.selector as u64;
        let c = self.ist as u64;
        let d = self.type_attr as u64;
        let e = self.offset_2 as u64;
        let f = self.offset_3 as u64;
        let g = self.zero as u64;
        let low = a | b << 16 | c << 32 | d << 40 | e << 48;
        let high = f | g << 32;
        assert(low & 0xffff == a && (low >> 16) & 0xffff == b && (low >> 32) & 0xff == c && (low
            >> 40) & 0xff == d && low >> 48 == e) by (bit_vector)
            requires
                a < 0x1_0000,
                b < 0x1_0000,
                c < 0x100,
                d < 0x100,
                e < 0x1_0000,
                low == a | b << 16 | c << 32 | d << 40 | e << 48,
        ;
        assert(high & 0xffff_ffff == f && high >> 32 == g) by (bit_vector)
            requires
                f < 0x1_0000_0000,
                g < 0x1_0000_0000,
                high == f | g << 32,
        ;
        (low, high)
    }

    /// The descriptor of vector `i` whose handler is at `offset`: a trap gate when `trap`,
    /// else an interrupt gate, in the kernel code segment; the non-maskable interrupt, double
    /// fault and machine check (vectors 2, 8 and 18) run on their own stack.
    pub fn new(offset: u64, trap: bool, i: usize) -> (r: Self)
        ensures
            idt_offset(r) == offset,
            r.selector == 0x08,
            r.ist == if i == 2 || i == 8 || i == 18 {
                1u8
            } else {
                0u8
            },
            r.type_attr == if trap {
                0x8fu8
            } else {
                0x8eu8
            },
            r.zero == 0,
    {
        proof {
            lemma_offset_bits(offset);
        }
        IdtEntry {
            offset_1: offset as u16,
            selector: 0x08,
            ist: if i == 2 || i == 8 || i == 18 {
                0x1
            } else {
                0x0
            },
            type_attr: if trap {
                0x8f
            } else {
                0x8e
            },
            offset_2: (offset >> 16) as u16,
            offset_3: (offset >> 32) as u32,
            zero: 0x0,
        }
    }
}

/// What the processor pushes on an interrupt.
#[derive(Debug, Copy, Clone)]
pub struct InterruptStackFrame {
    pub ip: u64,
    pub cs: u16,
    pub flags: u64,
    pub sp: u64,
    pub ss: u16,
}

/// What a handler of a hardware interrupt gets.
#[derive(Debug, Copy, Clone)]
pub struct IrqContext {
    pub irq: u16,
    pub flags: u64,
}

/// What a handler of an exception gets.
#[derive(Debug, Copy, Clone)]
pub struct ExcContext {
    pub exc: u16,
    pub error: u64,
    pub address: u64,
    pub instruction: u64,
    pub user: bool,
    pub flags: u64,
}

/// Whether the interrupted code ran in user mode, so that the kernel's core-local base has to
/// be swapped in and out around the handler.
pub fn from_user(frame: &InterruptStackFrame) -> (r: bool)
    ensures
        r == (frame.cs == USER_CS),
{
    frame.cs == USER_CS
}

/// The context of hardware interrupt `irq` taken with the frame `frame`.
pub fn irq_context(frame: &InterruptStackFrame, irq: u16) -> (r: IrqContext)
    ensures
        r.irq == irq,
        r.flags == frame.flags,
{
    IrqContext { irq, flags: frame.flags }
}

/// The context of exception `exc` with error code `error`, taken with the frame `frame` while
/// the faulting address register held `address`.
pub fn exc_context(frame: &InterruptStackFrame, exc: u16, error: u64, address: u64) -> (r: ExcContext)
    ensures
        r.exc == exc,
        r.error == error,
        r.address == address,
        r.instruction == frame.ip,
        r.user == (frame.cs == USER_CS),
        r.flags == frame.flags,
{
    ExcContext {
        exc,
        error,
        address,
        instruction: frame.ip,
        user: from_user(frame),
        flags: frame.flags,
    }
}

/// The handler of each vector, by address, and whether it may still be replaced.
pub struct Handlers {
    handlers: Vec<u64>,
    replaceable: Vec<bool>,
}

impl Handlers {
    /// The handler of each vector.
    pub closed spec fn spec_handlers(&self) -> Seq<u64> {
        self.handlers@
    }

    /// Whether each vector's handler may be replaced.
    pub closed spec fn spec_replaceable(&self) -> Seq<bool> {
        self.replaceable@
    }

    /// There is a handler and a flag for each vector.
    pub open spec fn wf(&self) -> bool {
        &&& self.spec_handlers().len() == NUM_VECTORS
        &&& self.spec_replaceable().len() == NUM_VECTORS
    }

    /// The table `init` sets up: `default_exc` for the exceptions, `default_irq` for the
    /// other vectors, all replaceable.
    pub fn new(default_exc: u64, default_irq: u64) -> (r: Self)
        ensures
            r.wf(),
            forall|i: int| 0 <= i < 32 ==> #[trigger] r.spec_handlers()[i] == default_exc,
            forall|i: int| 32 <= i < 256 ==> #[trigger] r.spec_handlers()[i] == default_irq,
            forall|i: int| 0 <= i < 256 ==> #[trigger] r.spec_replaceable()[i],
    {
        let mut handlers: Vec<u64> = Vec::new();
        let mut replaceable: Vec<bool> = Vec::new();
        let mut i: usize = 0;
        while i < NUM_VECTORS
            invariant
                i <= NUM_VECTORS,
                handlers@.len() == i,
                replaceable@.len() == i,
                forall|j: int| 0 <= j < i && j < 32 ==> #[trigger] handlers@[j] == default_exc,
                forall|j: int| 32 <= j < i ==> #[trigger] handlers@[j] == default_irq,
                forall|j: int| 0 <= j < i ==> #[trigger] replaceable@[j],
            decreases NUM_VECTORS - i,
        {
            if i < 32 {
                handlers.push(default_exc);
            } else {
                handlers.push(default_irq);
            }
            replaceable.push(true);
            i = i + 1;
        }
        Handlers { handlers, replaceable }
    }

    /// The handler of vector `i`.
    pub fn handler(&self, i: usize) -> (r: u64)
        requires
            self.wf(),
            i < NUM_VECTORS,
        ensures
            r == self.spec_handlers()[i as int],
    {
        self.handlers[i]
    }

    /// Installs `handler` for vector `irq` unless the handler there may not be replaced;
    /// `replaceable` says whether the new one may be. Returns whether it was installed.
    pub fn attach(&mut self, irq: usize, handler: u64, replaceable: bool) -> (r: bool)
        requires
            old(self).wf(),
            irq < NUM_VECTORS,
        ensures
            final(self).wf(),
            r == old(self).spec_replaceable()[irq as int],
            r ==> final(self).spec_handlers() == old(self).spec_handlers().update(irq as int, handler)
                && final(self).spec_replaceable() == old(self).spec_replaceable().update(
                irq as int,
                replaceable,
            ),
            !r ==> final(self).spec_handlers() == old(self).spec_handlers()
                && final(self).spec_replaceable() == old(self).spec_replaceable(),
    {
        if !self.replaceable[irq] {
            false
        } else {
            self.replaceable.set(irq, replaceable);
            self.handlers.set(irq, handler);
            true
        }
    }

    /// Installs `handler` for the hardware interrupt `irq`, as `attach` does.
    pub fn attach_irq(&mut self, irq: u16, handler: u64, replaceable: bool) -> (r: bool)
        requires
            old(self).wf(),
            32 <= irq < 256,
        ensures
            final(self).wf(),
            r == old(self).spec_replaceable()[irq as int],
            r ==> final(self).spec_handlers() == old(self).spec_handlers().update(irq as int, handler)
                && final(self).spec_replaceable() == old(self).spec_replaceable().update(
                irq as int,
                replaceable,
            ),
            !r ==> final(self).spec_handlers() == old(self).spec_handlers()
                && final(self).spec_replaceable() == old(self).spec_replaceable(),
    {
        self.attach(irq as usize, handler, replaceable)
    }

    /// Installs `handler` for the exception `exc`, as `attach` does.
    pub fn attach_exc(&mut self, exc: u16, handler: u64, replaceable: bool) -> (r: bool)
        requires
            old(self).wf(),
            exc < 32,
        ensures
            final(self).wf(),
            r == old(self).spec_replaceable()[exc as int],
            r ==> final(self).spec_handlers() == old(self).spec_handlers().update(exc as int, handler)
                && final(self).spec_replaceable() == old(self).spec_replaceable().update(
                exc as int,
                replaceable,
            ),
            !r ==> final(self).spec_handlers() == old(self).spec_handlers()
                && final(self).spec_replaceable() == old(self).spec_replaceable(),
    {
        self.attach(exc as usize, handler, replaceable)
    }
}

/// Once a handler is installed as not replaceable, the vector's flag is off, so every later
/// attach to that vector fails and leaves the table as it is.
pub proof fn lemma_attach_pinned(rep: Seq<bool>, irq: int)
    requires
        0 <= irq < rep.len(),
    ensures
        !rep.update(irq, false)[irq],
{
}

/// The descriptors of all vectors: vector `i` gets the assembly entry `entries[i]`, as a trap
/// gate for the exceptions and an interrupt gate for the rest.
pub fn idt_table(entries: &Vec<u64>) -> (r: Vec<IdtEntry>)
    requires
        entries@.len() == NUM_VECTORS,
    ensures
        r@.len() == NUM_VECTORS,
        forall|i: int| 0 <= i < NUM_VECTORS ==> idt_offset(#[trigger] r@[i]) == entries@[i],
        forall|i: int| 0 <= i < NUM_VECTORS ==> (#[trigger] r@[i]).type_attr == if i < 32 {
            0x8fu8
        } else {
            0x8eu8
        },
        forall|i: int| 0 <= i < NUM_VECTORS ==> (#[trigger] r@[i]).ist == if i == 2 || i == 8 || i == 18 {
            1u8
        } else {
            0u8
        },
{
    let mut r: Vec<IdtEntry> = Vec::new();
    let mut i: usize = 0;
    while i < NUM_VECTORS
        invariant
            i <= NUM_VECTORS,
            entries@.len() == NUM_VECTORS,
            r@.len() == i,
            forall|j: int| 0 <= j < i ==> idt_offset(#[trigger] r@[j]) == entries@[j],
            forall|j: int| 0 <= j < i ==> (#[trigger] r@[j]).type_attr == if j < 32 {
                0x8fu8
            } else {
                0x8eu8
            },
            forall|j: int| 0 <= j < i ==> (#[trigger] r@[j]).ist == if j == 2 || j == 8 || j == 18 {
                1u8
            } else {
                0u8
            },
        decreases NUM_VECTORS - i,
    {
        r.push(IdtEntry::new(entries[i], i < 32, i));
        i = i + 1;
    }
    r
}

/// The limit field of the pointer that `lidt` loads for a table of `len` descriptors: its
/// size in bytes, less one.
pub fn info_size(len: usize) -> (r: u16)
    requires
        1 <= len <= 4096,
    ensures
        r == len * 16 - 1,
{
    (len * 16 - 1) as u16
}

/// The writes that program the two interrupt controllers, in order: which controller (0 the
/// first, 1 the second), which of its two ports, and the byte. The controllers are
/// initialised, their vectors moved to 32 and 40, chained, put in 8086 mode, and given the
/// mask `mask`, its low byte to the first.
pub fn pic_init_sequence(mask: u16) -> (r: Vec<(u8, u16, u8)>)
    ensures
        r@ == seq![
            (0u8, 0u16, 0x11u8),
            (1u8, 0u16, 0x11u8),
            (0u8, 1u16, 0x20u8),
            (1u8, 1u16, 0x28u8),
            (0u8, 1u16, 0x04u8),
            (1u8, 1u16, 0x02u8),
            (0u8, 1u16, 0x01u8),
            (1u8, 1u16, 0x01u8),
            (0u8, 1u16, mask as u8),
            (1u8, 1u16, (mask >> 8) as u8),
        ],
{
    let r = vec![
        (0u8, 0u16, 0x11u8),
        (1u8, 0u16, 0x11u8),
        (0u8, 1u16, 0x20u8),
        (1u8, 1u16, 0x28u8),
        (0u8, 1u16, 0x04u8),
        (1u8, 1u16, 0x02u8),
        (0u8, 1u16, 0x01u8),
        (1u8, 1u16, 0x01u8),
        (0u8, 1u16, mask as u8),
        (1u8, 1u16, (mask >> 8) as u8),
    ];
    r
}

/// What the entry stub of an interrupt vector does.
#[derive(Debug, Copy, Clone, PartialEq, Eq, Structural)]
pub enum VectorKind {
    /// An exception for which the processor pushes an error code.
    ExceptionWithCode,
    /// An exception without an error code.
    Exception,
    /// An interrupt of the primary interrupt controller.
    PrimaryIrq,
    /// An interrupt of the secondary interrupt controller.
    SecondaryIrq,
    /// Any other interrupt.
    Irq,
    /// The last vector, left without a handler.
    Spurious,
}

/// The exceptions for which the processor pushes an error code.
pub open spec fn has_error_code(n: int) -> bool {
    n == 8 || n == 10 || n == 11 || n == 12 || n == 13 || n == 14 || n == 17 || n == 21 || n == 29
        || n == 30
}

/// The exceptions below 32 that push an error code are exactly the architectural ones:
/// double fault (8), invalid TSS (10), segment not present (11), stack fault (12), general
/// protection (13), page fault (14), alignment check (17), control protection (21), VMM
/// communication (29) and security (30); the stub of every other exception pushes none.
pub proof fn lemma_error_code_vectors(n: int)
    requires
        0 <= n < 32,
    ensures
        has_error_code(n) <==> set![8int, 10int, 11int, 12int, 13int, 14int, 17int, 21int, 29int, 30int].contains(n),
{
}

/// What the entry stub of vector `n` does: exceptions below 32 (with an error code or not),
/// then the eight interrupts of each interrupt controller, then other interrupts, and the
/// last vector.
pub fn vector_kind(n: u16) -> (r: VectorKind)
    requires
        n < 256,
    ensures
        r == (if n < 32 {
            if has_error_code(n as int) {
                VectorKind::ExceptionWithCode
            } else {
                VectorKind::Exception
            }
        } else if n < 40 {
            VectorKind::PrimaryIrq
        } else if n < 48 {
            VectorKind::SecondaryIrq
        } else if n < 255 {
            VectorKind::Irq
        } else {
            VectorKind::Spurious
        }),
{
    if n < 32 {
        if n == 8 || n == 10 || n == 11 || n == 12 || n == 13 || n == 14 || n == 17 || n == 21 || n
            == 29 || n == 30 {
            VectorKind::ExceptionWithCode
        } else {
            VectorKind::Exception
        }
    } else if n < 40 {
        VectorKind::PrimaryIrq
    } else if n < 48 {
        VectorKind::SecondaryIrq
    } else if n < 255 {
        VectorKind::Irq
    } else {
        VectorKind::Spurious
    }
}

/// The command ports of the interrupt controllers that are told, in order, that an interrupt
/// of this kind is over: the primary for its own, the secondary then the primary for the
/// secondary's, none for the others.
pub fn end_of_interrupt_ports(kind: VectorKind) -> (r: Vec<u8>)
    ensures
        kind == VectorKind::PrimaryIrq ==> r@ == seq![0x20u8],
        kind == VectorKind::SecondaryIrq ==> r@ == seq![0xa0u8, 0x20u8],
        kind != VectorKind::PrimaryIrq && kind != VectorKind::SecondaryIrq ==> r@.len() == 0,
{
    match kind {
        VectorKind::PrimaryIrq => vec![0x20],
        VectorKind::SecondaryIrq => vec![0xa0, 0x20],
        _ => Vec::new(),
    }
}

} // verus!
