//! Per-core variables: each has an offset into the block of memory each core keeps for
//! them, after the core's information.
use vstd::prelude::*;
use core::marker::PhantomData;

verus! {

pub const MSR_GS_BASE: u32 = 0xc0000101;
pub const MSR_KERNEL_GS_BASE: u32 = 0xc0000102;

/// What each core keeps at the start of its block: where the block is, the core's number,
/// the stack for system calls and a scratch word for them.
#[derive(Debug, Copy, Clone)]
pub struct CoreInfo {
    pub core_local_data: usize,
    pub id: usize,
    pub syscall_kernel_stack: usize,
    pub syscall_buffer: usize,
}

/// The size of `CoreInfo`, where the per-core variables start.
pub const CORE_INFO_SIZE: usize = 32;
/// The offset of `core_local_data` in `CoreInfo`.
pub const OFFSET_CORE_LOCAL_DATA: usize = 0;
/// The offset of `syscall_kernel_stack` in `CoreInfo`.
pub const OFFSET_SYSCALL_KERNEL_STACK: usize = 16;
/// The offset of `syscall_buffer` in `CoreInfo`.
pub const OFFSET_SYSCALL_BUFFER: usize = 24;

/// The first multiple of `align` at or after `offset`.
pub open spec fn align_up(offset: int, align: int) -> int {
    ((offset + align - 1) / align) * align
}

/// Where a variable of `size` bytes aligned to `align` goes when the block is filled up to
/// `offset`, and where the block is filled up to after it.
pub fn place(offset: usize, size: usize, align: usize) -> (r: (usize, usize))
    requires
        align >= 1,
        offset + align - 1 + size <= usize::MAX,
    ensures
        r.0 == align_up(offset as int, align as int),
        r.1 == r.0 + size,
        r.0 % align == 0,
        offset <= r.0 < offset + align,
{
    let top = offset + (align - 1);
    let q = top / align;
    assert(q * align <= top && q * align + align > top && (q * align) % (align as int) == 0)
        by (nonlinear_arith)
        requires
            q == top / align,
            align >= 1,
    ;
    let slot = q * align;
    (slot, slot + size)
}

/// A per-core variable of type `T`.
pub struct CoreLocal<T> {
    offset: usize,
    marker: PhantomData<T>,
}

impl<T> CoreLocal<T> {
    /// The variable's offset in the block.
    pub closed spec fn spec_offset(&self) -> usize {
        self.offset
    }

    /// A variable not yet placed.
    pub fn new() -> (r: Self)
        ensures
            r.spec_offset() == 0,
    {
        CoreLocal { offset: 0, marker: PhantomData }
    }

    /// Places the variable in the block filled up to `*offset`, aligned for `T`, and moves
    /// `*offset` past it.
    pub fn init_offset(&mut self, offset: &mut usize)
        requires
            *old(offset) + vstd::layout::align_of::<T>() - 1 + vstd::layout::size_of::<T>()
                <= usize::MAX,
        ensures
            final(self).spec_offset() == align_up(
                *old(offset) as int,
                vstd::layout::align_of::<T>() as int,
            ),
            *final(offset) == final(self).spec_offset() + vstd::layout::size_of::<T>(),
    {
        proof {
            broadcast use vstd::layout::align_nonzero;
            assert(vstd::layout::align_of::<T>() > 0);
        }
        let align = core::mem::align_of::<T>();
        let size = core::mem::size_of::<T>();
        let (slot, next) = place(*offset, size, align);
        self.offset = slot;
        *offset = next;
    }

    /// The variable's offset in the block.
    pub fn offset(&self) -> (r: usize)
        ensures
            r == self.spec_offset(),
    {
        self.offset
    }
}

/// The variable that holds where the block is: the first word of the core's information.
pub fn core_local_block_pointer() -> (r: CoreLocal<usize>)
    ensures
        r.spec_offset() == OFFSET_CORE_LOCAL_DATA,
{
    CoreLocal { offset: OFFSET_CORE_LOCAL_DATA, marker: PhantomData }
}

/// The variable that holds the core's information: the start of the block.
pub fn core_info() -> (r: CoreLocal<CoreInfo>)
    ensures
        r.spec_offset() == 0,
{
    CoreLocal { offset: 0, marker: PhantomData }
}

/// The number of 8-byte words a block of `offset` bytes takes.
pub fn block_words(offset: usize) -> (r: usize)
    requires
        offset + 7 <= usize::MAX,
    ensures
        r == (offset + 7) / 8,
{
    (offset + 7) / 8
}

/// Where item `i` of a block may start at the earliest: after the per-core information for
/// the first item, else right after the item before it.
pub open spec fn item_start(offsets: Seq<usize>, items: Seq<(usize, usize)>, i: int) -> int {
    if i == 0 {
        CORE_INFO_SIZE as int
    } else {
        offsets[i - 1] + items[i - 1].0
    }
}

/// A variable that `layout` places is aligned and starts where the one before it ends, or
/// after; the first one starts after the core's information.
pub proof fn lemma_layout_disjoint(offsets: Seq<usize>, items: Seq<(usize, usize)>, i: int)
    requires
        0 <= i < offsets.len(),
        i < items.len(),
        items[i].1 >= 1,
        item_start(offsets, items, i) >= 0,
        offsets[i] == align_up(item_start(offsets, items, i), items[i].1 as int),
    ensures
        offsets[i] >= item_start(offsets, items, i),
        offsets[i] % items[i].1 == 0,
{
    let x = item_start(offsets, items, i);
    let a = items[i].1 as int;
    assert(((x + a - 1) / a) * a >= x && (((x + a - 1) / a) * a) % a == 0) by (nonlinear_arith)
        requires
            a >= 1,
            x >= 0,
    ;
}

/// Places variables of the given sizes and alignments one after the other after the core's
/// information: their offsets, and where the block ends.
pub fn layout(items: &Vec<(usize, usize)>) -> (r: (Vec<usize>, usize))
    requires
        forall|i: int| 0 <= i < items@.len() ==> (#[trigger] items@[i]).1 >= 1,
        forall|i: int| 0 <= i < items@.len() ==> (#[trigger] items@[i]).0 + items@[i].1 <= 0x1000,
        items@.len() <= 0x1000,
    ensures
        r.0@.len() == items@.len(),
        forall|i: int|
            0 <= i < items@.len() ==> r.0@[i] % (#[trigger] items@[i]).1 == 0,
        forall|i: int|
            0 <= i < items@.len() ==> #[trigger] r.0@[i] == align_up(
                item_start(r.0@, items@, i),
                items@[i].1 as int,
            ),
        items@.len() > 0 ==> r.1 == r.0@[items@.len() - 1] + items@[items@.len() - 1].0,
        items@.len() == 0 ==> r.1 == CORE_INFO_SIZE,
{
    let mut offsets: Vec<usize> = Vec::new();
    let mut offset: usize = CORE_INFO_SIZE;
    let mut i: usize = 0;
    while i < items.len()
        invariant
            i <= items@.len(),
            items@.len() <= 0x1000,
            forall|j: int| 0 <= j < items@.len() ==> (#[trigger] items@[j]).1 >= 1,
            forall|j: int| 0 <= j < items@.len() ==> (#[trigger] items@[j]).0 + items@[j].1 <= 0x1000,
            offsets@.len() == i,
            CORE_INFO_SIZE <= offset <= CORE_INFO_SIZE + i * 0x2000,
            forall|j: int| 0 <= j < i ==> offsets@[j] % (#[trigger] items@[j]).1 == 0,
            forall|j: int|
                0 <= j < i ==> #[trigger] offsets@[j] == align_up(
                    item_start(offsets@, items@, j),
                    items@[j].1 as int,
                ),
            i > 0 ==> offset == offsets@[i - 1] + items@[i - 1].0,
            i == 0 ==> offset == CORE_INFO_SIZE,
        decreases items@.len() - i,
    {
        let (size, align) = items[i];
        assert(offset + align - 1 + size <= usize::MAX && offset + 0x2000 <= CORE_INFO_SIZE + (i + 1)
            * 0x2000) by (nonlinear_arith)
            requires
                offset <= CORE_INFO_SIZE + i * 0x2000,
                i < 0x1000,
                size + align <= 0x1000,
                usize::MAX >= u32::MAX,
        ;
        let (slot, next) = place(offset, size, align);
        let ghost before = offsets@;
        offsets.push(slot);
        proof {
            assert forall|j: int| 0 <= j < i + 1 implies #[trigger] offsets@[j] == align_up(
                item_start(offsets@, items@, j),
                items@[j].1 as int,
            ) by {
                if j < i {
                    assert(offsets@[j] == before[j]);
                    if j > 0 {
                        assert(offsets@[j - 1] == before[j - 1]);
                    }
                } else if j > 0 {
                    assert(offsets@[j - 1] == before[j - 1]);
                }
            }
        }
        offset = next;
        i = i + 1;
    }
    (offsets, offset)
}

} // verus!
