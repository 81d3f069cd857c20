//! The kernel heap: small blocks come from free lists of fixed-size chunks carved out of
//! whole pages, large blocks are whole pages.
use vstd::prelude::*;
use crate::memory;
use crate::memory::address::{PageCount, PhysAddrPageAligned};
use crate::memory::hhdm::Hhdm;
use crate::memory::physical::MemoryManager;
use crate::memory::physical::allocator::{
    MemoryAllocator,
    pair_alloc_page,
    pair_alloc_page_ok,
    pair_alloc_pages,
    pair_alloc_pages_ok,
    pair_dealloc_pages,
    pair_dealloc_pages_ok,
};

verus! {

/// The largest block served from the free lists.
pub const MAX_SLAB: usize = 2048;

/// 2 to the power `k`.
pub open spec fn pow2(k: int) -> int
    decreases k,
{
    if k <= 0 {
        1
    } else {
        2 * pow2(k - 1)
    }
}

/// The free list a block of `size` bytes comes from: the smallest `k`, at least 3, with
/// `size <= 2^k`.
pub open spec fn is_size_class(size: int, k: int) -> bool {
    &&& k >= 3
    &&& size <= pow2(k)
    &&& (k == 3 || size > pow2(k - 1))
}

/// The free list a block of `size` bytes comes from, for blocks of 1 to 2048 bytes: chunks of
/// `2^k` bytes with `k` the number of bits of `size - 1`, and at least 3.
pub fn size_class(size: usize) -> (r: usize)
    requires
        1 <= size <= MAX_SLAB,
    ensures
        3 <= r <= 11,
        is_size_class(size as int, r as int),
{
    let mut k: usize = 3;
    let mut chunk: usize = 8;
    proof {
        reveal_with_fuel(pow2, 12);
        assert(pow2(3) == 8);
        assert(pow2(11) == 2048);
    }
    while chunk < size
        invariant
            3 <= k <= 11,
            chunk == pow2(k as int),
            1 <= size <= MAX_SLAB,
            k == 3 || size > pow2(k - 1),
            pow2(11) == 2048,
        decreases 11 - k,
    {
        proof {
            if k == 11 {
                assert(false);
            }
            lemma_pow2_mono(k as int, 10);
            reveal_with_fuel(pow2, 2);
        }
        k = k + 1;
        chunk = chunk * 2;
    }
    k
}

proof fn lemma_pow2_mono(a: int, b: int)
    requires
        0 <= a <= b,
    ensures
        pow2(a) <= pow2(b),
    decreases b - a,
{
    if a < b {
        lemma_pow2_mono(a, b - 1);
        reveal_with_fuel(pow2, 2);
        assert(pow2(b) == 2 * pow2(b - 1));
        lemma_pow2_pos(b - 1);
    }
}

proof fn lemma_pow2_pos(a: int)
    ensures
        pow2(a) >= 1,
    decreases a,
{
    if a > 0 {
        lemma_pow2_pos(a - 1);
    }
}

/// Where a block of `size` bytes comes from.
pub enum Source {
    /// Whole pages, this many.
    Pages(PageCount),
    /// The free list of chunks of `2^k` bytes, `k` given.
    Slab(usize),
}

/// Where a block of `size` bytes comes from: whole pages above 2048 bytes, else a free list.
pub fn source(size: usize) -> (r: Source)
    requires
        size >= 1,
        size + 4095 <= usize::MAX,
    ensures
        size > MAX_SLAB ==> (r matches Source::Pages(c) && c@ == (size + 4095) / 4096),
        size <= MAX_SLAB ==> (r matches Source::Slab(k) && is_size_class(size as int, k as int)),
{
    if size > MAX_SLAB {
        Source::Pages(PageCount::pages_up(size))
    } else {
        Source::Slab(size_class(size))
    }
}

/// The chunks a page at `base` is cut into, of `n` bytes each, in address order.
pub open spec fn chunks(base: int, n: int) -> Seq<usize> {
    Seq::new((4096int / n) as nat, |i: int| (base + i * n) as usize)
}

/// What taking a chunk of `n` bytes from a free list does: with `free0` the list before and
/// `free1` after, the page allocators `pmm0` before and `pmm1` after, `off` the direct-map
/// offset and `r` the chunk handed out. A non-empty list gives its last chunk; an empty one
/// takes a page from the allocators and cuts it into chunks, the last of which is handed out.
pub open spec fn slab_allocate_post<A: MemoryAllocator>(
    n: int,
    free0: Seq<usize>,
    free1: Seq<usize>,
    pmm0: MemoryManager<A>,
    pmm1: MemoryManager<A>,
    off: usize,
    r: Option<usize>,
) -> bool {
    &&& pmm1.wf()
    &&& pmm1.spec_initialized()
    &&& free0.len() > 0 ==> {
        &&& r == Some(free0.last())
        &&& free1 == free0.drop_last()
        &&& pmm1 == pmm0
    }
    &&& free0.len() == 0 ==> {
        let (m2, l2, a) = pair_alloc_page(pmm0.spec_alloc_main().state(), pmm0.spec_alloc_32().state());
        &&& pmm1.spec_alloc_main().state() == m2
        &&& pmm1.spec_alloc_32().state() == l2
        &&& match a {
            None => r is None && free1 == free0,
            Some(p) => if p + off + 4096 <= usize::MAX {
                let base = p + off;
                &&& r == Some((base + 4096 - n) as usize)
                &&& free1 == chunks(base, n).drop_last()
            } else {
                r is None
            },
        }
    }
}

/// A free list of chunks of `N` bytes; the last one in the list is handed out first.
pub struct SlabAllocator<const N: usize> {
    free: Vec<usize>,
}

impl<const N: usize> SlabAllocator<N> {
    /// The free chunks, the next one to hand out last.
    pub closed spec fn spec_free(&self) -> Seq<usize> {
        self.free@
    }

    /// An empty free list.
    pub fn new() -> (r: Self)
        ensures
            r.spec_free() == Seq::<usize>::empty(),
    {
        SlabAllocator { free: Vec::new() }
    }

    /// Puts the chunk at `data` on the free list.
    pub fn deallocate(&mut self, data: usize)
        ensures
            final(self).spec_free() == old(self).spec_free().push(data),
    {
        self.free.push(data);
    }

    /// A free chunk: the last one put on the list, or, when the list is empty, the last chunk
    /// of a new page whose other chunks go on the list. `None` when no page can be had.
    pub fn allocate<A: MemoryAllocator>(&mut self, pmm: &mut MemoryManager<A>, hhdm: &Hhdm) -> (r:
        Option<usize>)
        requires
            8 <= N <= 4096,
            4096usize % N == 0,
            old(pmm).wf(),
            old(pmm).spec_initialized(),
            pair_alloc_page_ok(old(pmm).spec_alloc_main().state(), old(pmm).spec_alloc_32().state()),
        ensures
            slab_allocate_post(
                N as int,
                old(self).spec_free(),
                final(self).spec_free(),
                *old(pmm),
                *final(pmm),
                hhdm.spec_offset(),
                r,
            ),
    {
        if let Some(node) = self.free.pop() {
            return Some(node);
        }
        let page = match memory::alloc_page(pmm) {
            None => return None,
            Some(p) => p,
        };
        let off = crate::memory::hhdm::get_offset(hhdm);
        if off > usize::MAX - 4096 || page.addr() > usize::MAX - 4096 - off {
            return None;
        }
        let base = page.hhdm_to_virt(hhdm).addr();
        let count = 4096 / N;
        let mut i: usize = 0;
        while i < count
            invariant
                count == 4096usize / N,
                8 <= N <= 4096,
                base + 4096 <= usize::MAX,
                i <= count,
                self.free@ == chunks(base as int, N as int).take(i as int),
            decreases count - i,
        {
            assert(base + i * N + N <= base + 4096) by (nonlinear_arith)
                requires
                    i < count,
                    count == 4096usize / N,
                    N > 0,
            ;
            self.deallocate(base + i * N);
            proof {
                assert(self.free@ =~= chunks(base as int, N as int).take(i + 1));
            }
            i = i + 1;
        }
        proof {
            assert(count >= 1) by (nonlinear_arith)
                requires
                    count == 4096usize / N,
                    N <= 4096,
                    N > 0,
            ;
            assert(self.free@ =~= chunks(base as int, N as int));
            assert((count - 1) * N == 4096 - N) by (nonlinear_arith)
                requires
                    count == 4096usize / N,
                    4096usize % N == 0,
                    N > 0,
            ;
        }
        self.free.pop()
    }
}

/// A chunk given back is the next one handed out.
pub proof fn lemma_last_freed_first(free: Seq<usize>, chunk: usize)
    ensures
        free.push(chunk).last() == chunk,
        free.push(chunk).drop_last() == free,
{
    assert(free.push(chunk).drop_last() =~= free);
}

/// A chunk is not handed out twice while no chunk is given back: a free list without
/// repeats hands out its last chunk and keeps the others, none of them that chunk, still
/// without repeats; a new page is cut into chunks that are all different, the one handed out
/// (the last) not among those that go on the list.
pub proof fn lemma_chunks_handed_out_once(free: Seq<usize>, base: int, n: int)
    requires
        8 <= n <= 4096,
        4096int % n == 0,
        0 <= base,
        base + 4096 <= usize::MAX,
    ensures
        free.no_duplicates() && free.len() > 0 ==> free.drop_last().no_duplicates() && !free.drop_last().contains(
            free.last(),
        ),
        chunks(base, n).no_duplicates(),
        forall|i: int, j: int|
            0 <= i < j < chunks(base, n).len() ==> #[trigger] chunks(base, n)[i] + n <= #[trigger] chunks(base, n)[j],
        chunks(base, n).last() == (base + 4096 - n) as usize,
        !chunks(base, n).drop_last().contains((base + 4096 - n) as usize),
{
    let c = chunks(base, n);
    let m = 4096int / n;
    assert(m >= 1 && m * n == 4096) by (nonlinear_arith)
        requires
            8 <= n <= 4096,
            4096int % n == 0,
            m == 4096int / n,
    ;
    assert forall|i: int| 0 <= i < m implies #[trigger] c[i] == base + i * n by {
        assert(0 <= i * n <= 4096 - n) by (nonlinear_arith)
            requires
                0 <= i < m,
                m * n == 4096,
                n >= 8,
        ;
    }
    assert forall|i: int, j: int| 0 <= i < j < m implies #[trigger] c[i] + n <= #[trigger] c[j] by {
        assert(i * n + n <= j * n) by (nonlinear_arith)
            requires
                0 <= i < j,
                n >= 8,
        ;
    }
    assert(c.last() == c[m - 1]);
    assert(c[m - 1] == base + 4096 - n) by {
        assert((m - 1) * n == 4096 - n) by (nonlinear_arith)
            requires
                m * n == 4096,
        ;
    }
    assert forall|i: int| 0 <= i < c.drop_last().len() implies c.drop_last()[i] != c.last() by {
        assert(c.drop_last()[i] == c[i]);
    }
    if free.no_duplicates() && free.len() > 0 {
        let d = free.drop_last();
        assert forall|i: int| 0 <= i < d.len() implies d[i] != free.last() by {
            assert(d[i] == free[i]);
        }
    }
}

/// The free list is last in, first out: taking a chunk right after `deallocate` put `chunk`
/// on the list hands out `chunk` and leaves the list as it was before.
pub proof fn lemma_freed_chunk_comes_back<A: MemoryAllocator>(
    n: int,
    free: Seq<usize>,
    chunk: usize,
    free1: Seq<usize>,
    pmm0: MemoryManager<A>,
    pmm1: MemoryManager<A>,
    off: usize,
    r: Option<usize>,
)
    requires
        slab_allocate_post(n, free.push(chunk), free1, pmm0, pmm1, off, r),
    ensures
        r == Some(chunk),
        free1 == free,
        pmm1 == pmm0,
{
    lemma_last_freed_first(free, chunk);
}

/// The free lists of the heap, one for each chunk size from 8 to 2048 bytes.
pub struct Slabs {
    slab_3: SlabAllocator<8>,
    slab_4: SlabAllocator<16>,
    slab_5: SlabAllocator<32>,
    slab_6: SlabAllocator<64>,
    slab_7: SlabAllocator<128>,
    slab_8: SlabAllocator<256>,
    slab_9: SlabAllocator<512>,
    slab_10: SlabAllocator<1024>,
    slab_11: SlabAllocator<2048>,
}

/// The address the direct map gives the physical address `p`, when there is one.
pub open spec fn mapped_block(p: int, off: int) -> Option<usize> {
    if p + off <= usize::MAX && p + off != 0 {
        Some((p + off) as usize)
    } else {
        None
    }
}

impl Slabs {
    /// The free list of chunks of `2^k` bytes, the next one to hand out last; empty for a `k`
    /// without a list.
    pub closed spec fn list(&self, k: int) -> Seq<usize> {
        if k == 3 {
            self.slab_3.spec_free()
        } else if k == 4 {
            self.slab_4.spec_free()
        } else if k == 5 {
            self.slab_5.spec_free()
        } else if k == 6 {
            self.slab_6.spec_free()
        } else if k == 7 {
            self.slab_7.spec_free()
        } else if k == 8 {
            self.slab_8.spec_free()
        } else if k == 9 {
            self.slab_9.spec_free()
        } else if k == 10 {
            self.slab_10.spec_free()
        } else if k == 11 {
            self.slab_11.spec_free()
        } else {
            Seq::empty()
        }
    }

    /// Empty free lists.
    pub fn new() -> (r: Self)
        ensures
            forall|k: int| #[trigger] r.list(k) == Seq::<usize>::empty(),
    {
        Slabs {
            slab_3: SlabAllocator::new(),
            slab_4: SlabAllocator::new(),
            slab_5: SlabAllocator::new(),
            slab_6: SlabAllocator::new(),
            slab_7: SlabAllocator::new(),
            slab_8: SlabAllocator::new(),
            slab_9: SlabAllocator::new(),
            slab_10: SlabAllocator::new(),
            slab_11: SlabAllocator::new(),
        }
    }

    /// A block of `size` bytes. Above 2048 bytes it is whole pages from the page allocators,
    /// at their direct-map address; else a chunk of the free list of the block's size class.
    /// `None` when no memory can be had.
    #[verifier::rlimit(60)]
    pub fn allocate<A: MemoryAllocator>(
        &mut self,
        size: usize,
        pmm: &mut MemoryManager<A>,
        hhdm: &Hhdm,
    ) -> (r: Option<usize>)
        requires
            size >= 1,
            size + 4095 <= usize::MAX,
            old(pmm).wf(),
            old(pmm).spec_initialized(),
            size <= MAX_SLAB ==> pair_alloc_page_ok(
                old(pmm).spec_alloc_main().state(),
                old(pmm).spec_alloc_32().state(),
            ),
            size > MAX_SLAB ==> pair_alloc_pages_ok(
                old(pmm).spec_alloc_main().state(),
                old(pmm).spec_alloc_32().state(),
                ((size + 4095) / 4096) as usize,
            ),
        ensures
            final(pmm).wf(),
            final(pmm).spec_initialized(),
            size <= MAX_SLAB ==> forall|k: int|
                #![trigger is_size_class(size as int, k)]
                is_size_class(size as int, k) ==> {
                    &&& slab_allocate_post(
                        pow2(k),
                        old(self).list(k),
                        final(self).list(k),
                        *old(pmm),
                        *final(pmm),
                        hhdm.spec_offset(),
                        r,
                    )
                    &&& forall|j: int| j != k ==> #[trigger] final(self).list(j) == old(self).list(j)
                },
            size > MAX_SLAB ==> {
                let (m2, l2, a) = pair_alloc_pages(
                    old(pmm).spec_alloc_main().state(),
                    old(pmm).spec_alloc_32().state(),
                    ((size + 4095) / 4096) as usize,
                );
                &&& final(pmm).spec_alloc_main().state() == m2
                &&& final(pmm).spec_alloc_32().state() == l2
                &&& r == match a {
                    None => None,
                    Some(p) => mapped_block(p as int, hhdm.spec_offset() as int),
                }
                &&& forall|j: int| #[trigger] final(self).list(j) == old(self).list(j)
            },
    {
        proof {
            reveal_with_fuel(pow2, 12);
        }
        if size > MAX_SLAB {
            let pages = memory::alloc_pages(pmm, PageCount::pages_up(size));
            match pages {
                None => None,
                Some(p) => {
                    let off = crate::memory::hhdm::get_offset(hhdm);
                    if p.addr() > usize::MAX - off {
                        None
                    } else {
                        let v = p.hhdm_to_virt(hhdm).addr();
                        if v == 0 {
                            None
                        } else {
                            Some(v)
                        }
                    }
                }
            }
        } else {
            let k = size_class(size);
            proof {
                lemma_size_class_unique(size as int, k as int);
            }
            if k == 3 {
                self.slab_3.allocate(pmm, hhdm)
            } else if k == 4 {
                self.slab_4.allocate(pmm, hhdm)
            } else if k == 5 {
                self.slab_5.allocate(pmm, hhdm)
            } else if k == 6 {
                self.slab_6.allocate(pmm, hhdm)
            } else if k == 7 {
                self.slab_7.allocate(pmm, hhdm)
            } else if k == 8 {
                self.slab_8.allocate(pmm, hhdm)
            } else if k == 9 {
                self.slab_9.allocate(pmm, hhdm)
            } else if k == 10 {
                self.slab_10.allocate(pmm, hhdm)
            } else {
                self.slab_11.allocate(pmm, hhdm)
            }
        }
    }

    /// Gives back the block at `memory` of `size` bytes: whole pages to the page allocators
    /// above 2048 bytes, else a chunk to the free list of the block's size class.
    #[verifier::rlimit(60)]
    pub fn deallocate<A: MemoryAllocator>(
        &mut self,
        size: usize,
        memory: usize,
        pmm: &mut MemoryManager<A>,
        hhdm: &Hhdm,
    )
        requires
            size >= 1,
            size + 4095 <= usize::MAX,
            old(pmm).wf(),
            old(pmm).spec_initialized(),
            size > MAX_SLAB ==> {
                &&& memory >= hhdm.spec_offset()
                &&& (memory - hhdm.spec_offset()) % 4096 == 0
                &&& pair_dealloc_pages_ok(
                    old(pmm).spec_alloc_main().state(),
                    old(pmm).spec_alloc_32().state(),
                    (memory - hhdm.spec_offset()) as usize,
                    ((size + 4095) / 4096) as usize,
                )
            },
        ensures
            final(pmm).wf(),
            final(pmm).spec_initialized(),
            size <= MAX_SLAB ==> {
                &&& *final(pmm) == *old(pmm)
                &&& forall|k: int|
                    #![trigger is_size_class(size as int, k)]
                    is_size_class(size as int, k) ==> {
                        &&& final(self).list(k) == old(self).list(k).push(memory)
                        &&& forall|j: int| j != k ==> #[trigger] final(self).list(j) == old(self).list(j)
                    }
            },
            size > MAX_SLAB ==> {
                &&& (final(pmm).spec_alloc_main().state(), final(pmm).spec_alloc_32().state())
                    == pair_dealloc_pages(
                    old(pmm).spec_alloc_main().state(),
                    old(pmm).spec_alloc_32().state(),
                    (memory - hhdm.spec_offset()) as usize,
                    ((size + 4095) / 4096) as usize,
                )
                &&& forall|j: int| #[trigger] final(self).list(j) == old(self).list(j)
            },
    {
        if size > MAX_SLAB {
            let phys = crate::memory::address::VirtAddr::new(memory).hhdm_to_phys(hhdm);
            let aligned = phys.as_page_aligned();
            match aligned {
                Some(a) => memory::dealloc_pages(pmm, a, PageCount::pages_up(size)),
                None => {},
            }
        } else {
            let k = size_class(size);
            proof {
                lemma_size_class_unique(size as int, k as int);
            }
            if k == 3 {
                self.slab_3.deallocate(memory)
            } else if k == 4 {
                self.slab_4.deallocate(memory)
            } else if k == 5 {
                self.slab_5.deallocate(memory)
            } else if k == 6 {
                self.slab_6.deallocate(memory)
            } else if k == 7 {
                self.slab_7.deallocate(memory)
            } else if k == 8 {
                self.slab_8.deallocate(memory)
            } else if k == 9 {
                self.slab_9.deallocate(memory)
            } else if k == 10 {
                self.slab_10.deallocate(memory)
            } else {
                self.slab_11.deallocate(memory)
            }
        }
    }
}

/// A size has one size class.
proof fn lemma_size_class_unique(size: int, k: int)
    requires
        is_size_class(size, k),
    ensures
        forall|j: int| #[trigger] is_size_class(size, j) ==> j == k,
{
    assert forall|j: int| #[trigger] is_size_class(size, j) implies j == k by {
        if j < k {
            lemma_pow2_mono(j, k - 1);
        } else if j > k {
            lemma_pow2_mono(k, j - 1);
        }
    }
}

} // verus!
