//! Physical memory: page tables, the page allocators and the manager that
//! puts two allocators together (one for memory below 4 GiB, one above).
use vstd::prelude::*;
use vstd::arithmetic::div_mod::{
    lemma_div_denominator,
    lemma_div_multiples_vanish,
    lemma_fundamental_div_mod_converse,
    lemma_mod_breakdown,
};
use crate::memory::address;
use crate::memory::hhdm;
use crate::memory::hhdm::Hhdm;
use crate::memory::physical::map::{
    below,
    early_ok,
    grows,
    keeps_tables,
    MapEntry,
    MemoryMapIterator,
    PageTables,
    pow512,
    digits,
    index_at,
    maps_page,
    maps_large_page,
    next_table,
};
use crate::memory::physical::allocator::{
    AllocState,
    init_spec,
    set_data_used,
    MemoryAllocator,
    pair_alloc_page,
    pair_alloc_page_ok,
    pair_alloc_pages,
    pair_alloc_pages_ok,
    pair_dealloc_page,
    pair_dealloc_page_ok,
    pair_dealloc_pages,
    pair_dealloc_pages_ok,
};

pub mod allocator;
pub mod bits;
pub mod buddy_allocator;
pub mod map;

verus! {

/// The physical side of an address space: its page tables and the top-level one among them.
pub struct PhysicalMemorySpace {
    map: usize,
    tables: PageTables,
}

impl PhysicalMemorySpace {
    /// An address space whose top-level page table sits at physical address `map`.
    pub fn new(map: usize, tables: PageTables) -> (r: Self)
        ensures
            r.spec_map() == map,
            r.spec_tables() == tables,
    {
        PhysicalMemorySpace { map, tables }
    }

    /// The physical address of the top-level page table.
    pub closed spec fn spec_map(&self) -> usize {
        self.map
    }

    /// The page tables.
    pub closed spec fn spec_tables(&self) -> PageTables {
        self.tables
    }

    /// The physical address of the top-level page table.
    pub fn map_addr(&self) -> (r: usize)
        ensures
            r == self.spec_map(),
    {
        self.map
    }

    /// The page tables.
    pub fn tables(&self) -> (r: &PageTables)
        ensures
            *r == self.spec_tables(),
    {
        &self.tables
    }

    /// Maps the pages from `virt` on, one for each element of `flags`: page `i` to the
    /// physical page `i` pages after `phys`, present and with the flags `flags[i]`. Lower
    /// tables are taken from `early`. `false` when a table could not be had or the slots ran
    /// out.
    pub fn map_flag_func(
        &mut self,
        early: &mut EarlyAllocator,
        hhdm: &Hhdm,
        phys: address::PhysAddrPageAligned,
        virt: address::VirtAddrPageAligned,
        flags: &Vec<u64>,
    ) -> (r: bool)
        requires
            flags@.len() >= 1,
            phys@ + flags@.len() * 4096 <= usize::MAX,
            old(self).spec_tables().wf(),
            old(self).spec_tables()@.dom().contains(old(self).spec_map()),
            early_ok(old(self).spec_tables()@, *old(early), *hhdm),
        ensures
            final(self).spec_map() == old(self).spec_map(),
            final(self).spec_tables().wf(),
            early_ok(final(self).spec_tables()@, *final(early), *hhdm),
            final(early).spec_start_length() == old(early).spec_start_length(),
            keeps_tables(old(self).spec_tables()@, final(self).spec_tables()@),
            r ==> virt@ + flags@.len() * 4096 <= usize::MAX,
            r ==> kernel_mapped(
                final(self).spec_tables()@,
                old(self).spec_map(),
                virt@ as int,
                flag_entries(phys@ as int, flags@),
                flags@.len() as int,
            ),
            ({
                let run = run_map(
                    old(self).spec_tables()@,
                    old(self).spec_map(),
                    virt@ as int,
                    flag_entries(phys@ as int, flags@),
                    old(early).spec_memory() - hhdm.spec_offset(),
                    (old(early).spec_length() / 4096) as int,
                );
                &&& r == (virt@ + flags@.len() * 4096 <= usize::MAX && run is Some && kernel_mapped(
                    (run->0).0,
                    old(self).spec_map(),
                    virt@ as int,
                    flag_entries(phys@ as int, flags@),
                    flags@.len() as int,
                ))
                &&& r ==> final(self).spec_tables()@ == (run->0).0
                &&& r ==> final(early).spec_memory() == old(early).spec_memory() + 4096 * (run->0).1
                &&& r ==> final(early).spec_length() == old(early).spec_length() - 4096 * (run->0).1
            }),
    {
        let entries = make_entries(phys, flags);
        proof {
            assert(entries@.subrange(0, flags@.len() as int) =~= flag_entries(phys@ as int, flags@));
        }
        map_kernel(&mut self.tables, self.map, early, hhdm, virt, &entries, flags.len())
    }
}

/// A bump allocator over one block of memory, used before the page allocators work.
pub struct EarlyAllocator {
    memory: usize,
    start_length: usize,
    length: usize,
}

impl EarlyAllocator {
    /// The allocator is consistent: it never has more left than it started with, and its
    /// block fits in the address space.
    pub closed spec fn wf(&self) -> bool {
        &&& self.length <= self.start_length
        &&& self.memory + self.length <= usize::MAX
    }

    /// Where the next block starts.
    pub closed spec fn spec_memory(&self) -> usize {
        self.memory
    }

    /// How many bytes are left.
    pub closed spec fn spec_length(&self) -> usize {
        self.length
    }

    /// How many bytes there were at the start.
    pub closed spec fn spec_start_length(&self) -> usize {
        self.start_length
    }

    /// An allocator over the `length` bytes at `memory`.
    pub fn new(memory: usize, length: usize) -> (r: Self)
        requires
            memory + length <= usize::MAX,
        ensures
            r.wf(),
            r.spec_memory() == memory,
            r.spec_length() == length,
            r.spec_start_length() == length,
    {
        EarlyAllocator { memory, start_length: length, length }
    }

    /// The number of bytes handed out so far.
    pub fn used(&self) -> (r: usize)
        requires
            self.wf(),
        ensures
            r == self.spec_start_length() - self.spec_length(),
    {
        self.start_length - self.length
    }

    /// Hands out `size` bytes rounded up to whole pages: the start of the block, or `None`
    /// when fewer bytes are left.
    pub fn allocate_bytes(&mut self, size: usize) -> (r: Option<usize>)
        requires
            old(self).wf(),
            size + address::PAGE_MASK <= usize::MAX,
        ensures
            final(self).wf(),
            final(self).spec_start_length() == old(self).spec_start_length(),
            address::round_up(size as int, 4096) > old(self).spec_length() ==> {
                &&& r is None
                &&& final(self).spec_memory() == old(self).spec_memory()
                &&& final(self).spec_length() == old(self).spec_length()
            },
            address::round_up(size as int, 4096) <= old(self).spec_length() ==> {
                &&& r == Some(old(self).spec_memory())
                &&& final(self).spec_memory() == old(self).spec_memory() + address::round_up(
                    size as int,
                    4096,
                )
                &&& final(self).spec_length() == old(self).spec_length() - address::round_up(
                    size as int,
                    4096,
                )
            },
    {
        let size = address::page_align_up(size);
        if size > self.length {
            None
        } else {
            let block = self.memory;
            self.length = self.length - size;
            self.memory = self.memory + size;
            Some(block)
        }
    }

    /// Hands out the address of the next page, for a page table; there must be a page left.
    /// The table it holds is the empty one that `PageTables::add_table` adds at that address.
    pub fn allocate_map(&mut self) -> (r: usize)
        requires
            old(self).wf(),
            old(self).spec_length() >= 4096,
        ensures
            final(self).wf(),
            r == old(self).spec_memory(),
            final(self).spec_memory() == old(self).spec_memory() + 4096,
            final(self).spec_length() == old(self).spec_length() - 4096,
            final(self).spec_start_length() == old(self).spec_start_length(),
    {
        match self.allocate_bytes(4096) {
            Some(addr) => addr,
            None => {
                proof {
                    assert(false);
                }
                0
            },
        }
    }
}

/// The entry of slot `i` that points to the new table at `t`.
pub open spec fn slot_entry(t: int, i: usize) -> MapEntry {
    map::table_entry(t as usize, map::table_flags(i as int))
}

/// The kernel's tables below the empty top-level table at `root`, three new tables from the
/// physical address `a` on, along the indices `ik`.
pub open spec fn kernel_path(root: usize, ik: Seq<usize>, a: int) -> Map<usize, Seq<MapEntry>> {
    let z = map::zero_table();
    Map::<usize, Seq<MapEntry>>::empty().insert(root, z.update(ik[0] as int, slot_entry(a, ik[0]))).insert(
        a as usize,
        z.update(ik[1] as int, slot_entry(a + 4096, ik[1])),
    ).insert((a + 4096) as usize, z.update(ik[2] as int, slot_entry(a + 8192, ik[2]))).insert(
        (a + 8192) as usize,
        z,
    )
}

/// The empty entry has no address.
proof fn lemma_zero_entry()
    ensures
        MapEntry(0).spec_addr() == 0,
{
    assert(0u64 & map::MASK_ADDR == 0) by (bit_vector);
}

/// A new table at a page-aligned address in physical memory is pointed to by its entry.
proof fn lemma_slot_entry(t: int, i: usize)
    requires
        0 < t < 0x10_0000_0000_0000,
        t <= usize::MAX,
        t % 4096 == 0,
    ensures
        slot_entry(t, i).spec_addr() == t,
        slot_entry(t, i).spec_addr() != 0,
{
    map::lemma_table_entry_points_to(t as usize, map::table_flags(i as int));
}

/// Making the kernel's way down below the empty top-level table takes three new tables.
proof fn lemma_kernel_path(t0: Map<usize, Seq<MapEntry>>, root: usize, ik: Seq<usize>, a: int)
    requires
        t0 == Map::<usize, Seq<MapEntry>>::empty().insert(root, map::zero_table()),
        ik.len() == 4,
        forall|l: int| 0 <= l < 4 ==> #[trigger] ik[l] < 512,
        root < a,
        a % 4096 == 0,
        a + 3 * 4096 <= 0x10_0000_0000_0000,
        a + 3 * 4096 <= usize::MAX,
    ensures
        map::path_fill(t0, root, ik, 0, 3, a) == kernel_path(root, ik, a),
        map::path_pages(t0, root, ik, 0, 3) == 3,
{
    let z = map::zero_table();
    lemma_zero_entry();
    let ta = a as usize;
    let tb = (a + 4096) as usize;
    let tc = (a + 8192) as usize;
    assert(t0[root][ik[0] as int] == MapEntry(0));
    let v1 = t0.insert(ta, z).insert(root, t0[root].update(ik[0] as int, slot_entry(a, ik[0])));
    assert(v1[ta][ik[1] as int] == MapEntry(0));
    let v2 = v1.insert(tb, z).insert(ta, v1[ta].update(ik[1] as int, slot_entry(a + 4096, ik[1])));
    assert(v2[tb][ik[2] as int] == MapEntry(0));
    let v3 = v2.insert(tc, z).insert(tb, v2[tb].update(ik[2] as int, slot_entry(a + 8192, ik[2])));
    assert(map::path_fill(v2, tb, ik, 2, 3, a + 8192) == map::path_fill(v3, tc, ik, 3, 3, a + 12288));
    assert(map::path_fill(v1, ta, ik, 1, 3, a + 4096) == map::path_fill(v2, tb, ik, 2, 3, a + 8192));
    assert(map::path_fill(t0, root, ik, 0, 3, a) == map::path_fill(v1, ta, ik, 1, 3, a + 4096));
    assert(v3 =~= kernel_path(root, ik, a));
    assert(map::path_pages(t0, root, ik, 0, 3) == 3);
}

/// Making the direct map's way down when the top-level table's slot is empty takes two new
/// tables.
proof fn lemma_hhdm_path(t1: Map<usize, Seq<MapEntry>>, root: usize, ih: Seq<usize>, a: int)
    requires
        t1.dom().contains(root),
        t1[root][ih[0] as int].spec_addr() == 0,
        ih.len() == 4,
        forall|l: int| 0 <= l < 4 ==> #[trigger] ih[l] < 512,
        map::below(t1, a),
        a % 4096 == 0,
        a + 2 * 4096 <= 0x10_0000_0000_0000,
        a + 2 * 4096 <= usize::MAX,
    ensures
        map::path_fill(t1, root, ih, 0, 2, a) == t1.insert(
            root,
            t1[root].update(ih[0] as int, slot_entry(a, ih[0])),
        ).insert(a as usize, map::zero_table().update(ih[1] as int, slot_entry(a + 4096, ih[1]))).insert(
            (a + 4096) as usize,
            map::zero_table(),
        ),
        map::path_pages(t1, root, ih, 0, 2) == 2,
{
    let z = map::zero_table();
    lemma_zero_entry();
    let tx = a as usize;
    let ty = (a + 4096) as usize;
    assert(!t1.dom().contains(tx));
    let v1 = t1.insert(tx, z).insert(root, t1[root].update(ih[0] as int, slot_entry(a, ih[0])));
    assert(v1[tx][ih[1] as int] == MapEntry(0));
    let v2 = v1.insert(ty, z).insert(tx, v1[tx].update(ih[1] as int, slot_entry(a + 4096, ih[1])));
    assert(map::path_fill(v1, tx, ih, 1, 2, a + 4096) == map::path_fill(v2, ty, ih, 2, 2, a + 8192));
    assert(map::path_fill(t1, root, ih, 0, 2, a) == map::path_fill(v1, tx, ih, 1, 2, a + 4096));
    assert(v2 =~= t1.insert(root, t1[root].update(ih[0] as int, slot_entry(a, ih[0]))).insert(
        a as usize,
        z.update(ih[1] as int, slot_entry(a + 4096, ih[1])),
    ).insert((a + 4096) as usize, z));
}

/// The kernel's tables below the empty top-level table at `root`, from the physical address
/// `a` on, when its `count` pages from a page with the indices `ik` are mapped to the entries
/// `current`. When the pages stay in one last-level table, the three tables of `kernel_path`
/// with the entries in the third. Otherwise the pages run on into the next last-level table
/// below the same table one level up: the first table's entries go up to its last slot, and a
/// fourth table, after the three, holds the rest from its first slot on (it is made even
/// when no entry is left for it).
pub open spec fn kernel_tables(
    root: usize,
    ik: Seq<usize>,
    a: int,
    current: Seq<MapEntry>,
    count: int,
) -> Map<usize, Seq<MapEntry>> {
    let z = map::zero_table();
    let tb = (a + 4096) as usize;
    let tc = (a + 8192) as usize;
    let td = (a + 12288) as usize;
    if ik[3] + count < 512 {
        kernel_path(root, ik, a).insert(tc, written(z, ik[3] as int, current, count))
    } else {
        let n1 = 512 - ik[3];
        let t1 = kernel_path(root, ik, a).insert(tc, written(z, ik[3] as int, current, n1));
        t1.insert(td, z).insert(tb, t1[tb].update(ik[2] + 1, slot_entry(a + 12288, (ik[2] + 1) as usize))).insert(
            td,
            written(z, 0, current.skip(n1), count - n1),
        )
    }
}

/// The number of tables of `kernel_tables`.
pub open spec fn kernel_table_count(ik: Seq<usize>, count: int) -> int {
    if ik[3] + count < 512 {
        3
    } else {
        4
    }
}

/// The kernel's tables keep the top-level table of `kernel_path`, and the first new table.
proof fn lemma_kernel_tables_root(root: usize, ik: Seq<usize>, a: int, current: Seq<MapEntry>, count: int)
    requires
        root < a,
        a + 4 * 4096 <= usize::MAX,
    ensures
        kernel_tables(root, ik, a, current, count)[root] == kernel_path(root, ik, a)[root],
        kernel_tables(root, ik, a, current, count).dom().contains(a as usize),
{
    assert((a + 4096) as usize != root && (a + 8192) as usize != root && (a + 12288) as usize != root);
    assert(a as usize != root);
}

/// On the empty top-level table, the kernel's pages give the tables `kernel_tables`, and
/// they map every page to its entry.
#[verifier::rlimit(100)]
#[verifier::spinoff_prover]
proof fn lemma_kernel_run(
    t0: Map<usize, Seq<MapEntry>>,
    root: usize,
    exec_base: int,
    ih: Seq<usize>,
    current: Seq<MapEntry>,
    count: int,
    a0: int,
    pages: int,
)
    requires
        t0 == Map::<usize, Seq<MapEntry>>::empty().insert(root, map::zero_table()),
        exec_base >= 0,
        exec_base % 4096 == 0,
        ih.len() == 4,
        ih[0] < 512,
        ih[0] != index_at(exec_base, 4),
        0 <= count <= current.len(),
        count <= 512,
        index_at(exec_base, 1) + count < 512 || index_at(exec_base, 2) < 511,
        root < a0,
        a0 % 4096 == 0,
        a0 + 4 * 4096 <= 0x10_0000_0000_0000,
        a0 + 4 * 4096 <= usize::MAX,
        pages >= 4,
    ensures
        ({
            let ik = indices_of(exec_base);
            let t = kernel_tables(root, ik, a0, current, count);
            &&& run_map(t0, root, exec_base, current.subrange(0, count), a0, pages) == Some((t, kernel_table_count(ik, count)))
            &&& kernel_mapped(t, root, exec_base, current, count)
            &&& t[root] == kernel_path(root, ik, a0)[root]
            &&& t.dom().contains(a0 as usize)
            &&& map::below(t, a0 + kernel_table_count(ik, count) * 4096)
            &&& forall|u: usize| #[trigger] t.dom().contains(u) ==> u == root || a0 <= u
        }),
{
    let ik = indices_of(exec_base);
    let all = current.subrange(0, count);
    let z = map::zero_table();
    let ta = a0 as usize;
    let tb = (a0 + 4096) as usize;
    let tc = (a0 + 8192) as usize;
    let td = (a0 + 12288) as usize;
    lemma_zero_entry();
    lemma_index_step(exec_base, 0);
    assert(0 <= ik[0] < 512 && 0 <= ik[1] < 512 && 0 <= ik[2] < 512 && 0 <= ik[3] < 512);
    lemma_kernel_path(t0, root, ik, a0);
    lemma_kernel_walk(root, ik, ih, a0, exec_base);
    map::lemma_chain_can_empty(t0, root, ik, 0, 3, seq![root], pages);
    lemma_run_step(t0, root, exec_base, all, a0, pages);
    lemma_slot_entry(a0, ik[0]);
    lemma_slot_entry(a0 + 4096, ik[1]);
    lemma_slot_entry(a0 + 8192, ik[2]);
    let kp = kernel_path(root, ik, a0);
    let t = kernel_tables(root, ik, a0, current, count);
    if ik[3] + count < 512 {
        assert(written(kp[tc], ik[3] as int, all, count) =~= written(z, ik[3] as int, current, count));
        assert(kp.insert(tc, written(kp[tc], ik[3] as int, all, count)) == t);
        assert forall|j: int| 0 <= j < count implies #[trigger] maps_page(t, root, exec_base + j * 4096, current[j]) by {
            lemma_index_step(exec_base, j);
            assert(next_table(t, root, ik[0] as int) == Some(ta));
            assert(next_table(t, ta, ik[1] as int) == Some(tb));
            assert(next_table(t, tb, ik[2] as int) == Some(tc));
            assert(t[tc][ik[3] + j] == current[j]);
        }
    } else {
        let n1 = 512 - ik[3];
        let v2 = kp.insert(tc, written(kp[tc], ik[3] as int, all, n1));
        assert(written(kp[tc], ik[3] as int, all, n1) =~= written(z, ik[3] as int, current, n1));
        assert(!last_table(exec_base));
        let e = exec_base + n1 * 4096;
        lemma_cross_step(exec_base, 0);
        let ie = indices_of(e);
        assert(ie[0] == ik[0] && ie[1] == ik[1] && ie[2] == ik[2] + 1 && ie[3] == 0);
        let rest = all.skip(n1);
        assert(rest.len() == count - n1);
        lemma_run_step(v2, root, e, rest, a0 + 12288, pages - 3);
        // the way down to the next last-level table
        assert(v2[root][ik[0] as int] == slot_entry(a0, ik[0]));
        assert(map::child(v2, root, ik[0] as int) == ta);
        assert(v2[ta][ik[1] as int] == slot_entry(a0 + 4096, ik[1]));
        assert(map::child(v2, ta, ik[1] as int) == tb);
        assert(v2[tb][ik[2] + 1] == MapEntry(0));
        assert(!seq![root].contains(ta));
        assert(!seq![root].push(ta).contains(tb));
        assert(map::chain_can(v2, tb, ie, 2, 3, seq![root].push(ta).push(tb), pages - 3));
        assert(map::chain_can(v2, ta, ie, 1, 3, seq![root].push(ta), pages - 3));
        assert(map::chain_can(v2, root, ie, 0, 3, seq![root], pages - 3));
        let v3 = v2.insert(td, z).insert(tb, v2[tb].update(ik[2] + 1, map::table_entry(td, map::table_flags(ik[2] + 1))));
        assert(map::path_fill(v2, tb, ie, 2, 3, a0 + 12288) == map::path_fill(v3, td, ie, 3, 3, a0 + 16384));
        assert(map::path_fill(v2, ta, ie, 1, 3, a0 + 12288) == map::path_fill(v2, tb, ie, 2, 3, a0 + 12288));
        assert(map::path_fill(v2, root, ie, 0, 3, a0 + 12288) == map::path_fill(v2, ta, ie, 1, 3, a0 + 12288));
        assert(map::path_pages(v2, tb, ie, 2, 3) == 1);
        assert(map::path_pages(v2, ta, ie, 1, 3) == 1);
        assert(map::path_pages(v2, root, ie, 0, 3) == 1);
        lemma_slot_entry(a0 + 12288, (ik[2] + 1) as usize);
        assert(map::walk(v3, root, e) == Some((td, 0int)));
        assert(written(v3[td], 0, rest, count - n1) =~= written(z, 0, current.skip(n1), count - n1));
        assert(v3.insert(td, written(v3[td], 0, rest, count - n1)) =~= t);
        assert forall|j: int| 0 <= j < count implies #[trigger] maps_page(t, root, exec_base + j * 4096, current[j]) by {
            if j < n1 {
                lemma_index_step(exec_base, j);
                assert(next_table(t, root, ik[0] as int) == Some(ta));
                assert(next_table(t, ta, ik[1] as int) == Some(tb));
                assert(next_table(t, tb, ik[2] as int) == Some(tc));
                assert(t[tc][ik[3] + j] == current[j]);
            } else {
                lemma_cross_step(exec_base, j - n1);
                assert(exec_base + (512 - ik[3] + (j - n1)) * 4096 == exec_base + j * 4096);
                assert(next_table(t, root, ik[0] as int) == Some(ta));
                assert(next_table(t, ta, ik[1] as int) == Some(tb));
                assert(next_table(t, tb, ik[2] + 1) == Some(td));
                assert(t[td][j - n1] == current[j]);
            }
        }
    }
}

/// The indices of the tables on the way to the page at `addr`, from the top level down.
pub open spec fn indices_of(addr: int) -> Seq<usize> {
    seq![index_at(addr, 4) as usize, index_at(addr, 3) as usize, index_at(addr, 2) as usize, index_at(addr, 1) as usize]
}

/// Page iterators count pages: the table indices of an address, read as the digits of a
/// number in base 512 (as an iterator's `position` reads them), give the number of its page,
/// modulo the 512^4 pages that the four levels cover.
pub proof fn lemma_indices_count_pages(a: int)
    requires
        a >= 0,
    ensures
        digits(indices_of(a), 4) == (a / 4096) % pow512(4),
{
    let c2: int = 0x4_0000;
    let c3: int = 0x800_0000;
    let b = a / 4096;
    lemma_div_denominator(a, 4096, 512);
    lemma_div_denominator(a, 4096, c2);
    lemma_div_denominator(a, 4096, c3);
    lemma_div_denominator(b, 512, 512);
    lemma_div_denominator(b, c2, 512);
    lemma_mod_breakdown(b, 512, c3);
    lemma_mod_breakdown(b / 512, 512, c2);
    lemma_mod_breakdown(b / (c2), 512, 512);
    let ind = indices_of(a);
    assert(ind[3] == b % 512);
    assert(ind[2] == (b / 512) % 512);
    assert(ind[1] == (b / (c2)) % 512);
    assert(ind[0] == (b / (c3)) % 512);
    reveal_with_fuel(digits, 5);
    reveal_with_fuel(pow512, 5);
}

/// Conversely, four table indices below 512, read as a number in base 512, are the table
/// indices of the address of the page with that number.
pub proof fn lemma_count_gives_indices(ind: Seq<usize>)
    requires
        ind.len() == 4,
        forall|i: int| 0 <= i < 4 ==> ind[i] < 512,
    ensures
        0 <= digits(ind, 4) < pow512(4),
        ind == indices_of(digits(ind, 4) * 4096),
{
    let c2: int = 0x4_0000;
    let c3: int = 0x800_0000;
    reveal_with_fuel(digits, 5);
    reveal_with_fuel(pow512, 5);
    let d1 = digits(ind, 1);
    let d2 = digits(ind, 2);
    let d3 = digits(ind, 3);
    let p = digits(ind, 4);
    assert(d1 == ind[0]);
    assert(d2 == d1 * 512 + ind[1]);
    assert(d3 == d2 * 512 + ind[2]);
    assert(p == d3 * 512 + ind[3]);
    lemma_fundamental_div_mod_converse(p, 512, d3, ind[3] as int);
    lemma_fundamental_div_mod_converse(d3, 512, d2, ind[2] as int);
    lemma_fundamental_div_mod_converse(d2, 512, d1, ind[1] as int);
    lemma_fundamental_div_mod_converse(d1, 512, 0, ind[0] as int);
    let a = p * 4096;
    lemma_div_multiples_vanish(p, 4096);
    assert(4096 * p == a);
    assert(a / 4096 == p);
    lemma_div_denominator(a, 4096, 512);
    lemma_div_denominator(a, 4096, c2);
    lemma_div_denominator(a, 4096, c3);
    lemma_div_denominator(p, 512, 512);
    lemma_div_denominator(p, c2, 512);
    assert(indices_of(a) =~= ind);
}

/// A memory map that the kernel can boot from: one block holds the kernel, and it takes no
/// more than 512 pages, and there is a usable block.
pub open spec fn boot_map_ok(es: Seq<MemoryMapEntry>) -> bool {
    &&& kernel_count(es) == 1
    &&& largest_usable(es) is Some
    &&& kernel_pages(es[kernel_index(es)->0].length) <= 512
}

/// Why a memory map cannot be booted from, in the order the checks are made: more than one
/// kernel block, no usable block, no kernel block, a kernel of more than 512 pages.
pub open spec fn boot_map_check(es: Seq<MemoryMapEntry>) -> Result<(), InitError> {
    if kernel_count(es) >= 2 {
        Err(InitError::MultipleKernelEntries)
    } else if largest_usable(es) is None {
        Err(InitError::NoFreeMemory)
    } else if kernel_count(es) == 0 {
        Err(InitError::NoKernelEntry)
    } else if kernel_pages(es[kernel_index(es)->0].length) > 512 {
        Err(InitError::KernelTooLarge)
    } else {
        Ok(())
    }
}

/// Checks that the kernel can boot from the memory map `entries`, as `MemoryManager::init`
/// needs; the error says why not.
pub fn check_memory_map(entries: &Vec<MemoryMapEntry>) -> (r: Result<(), InitError>)
    requires
        forall|i: int| 0 <= i < entries@.len() ==> entry_end(#[trigger] entries@[i]) + 0x20_0000 <= usize::MAX,
    ensures
        r == boot_map_check(entries@),
        r is Ok == boot_map_ok(entries@),
{
    proof {
        lemma_scan_bounds(entries@);
    }
    let n = entries.len();
    let scan = scan_memory_map(entries);
    if scan.kernel_count > 1 {
        return Err(InitError::MultipleKernelEntries);
    }
    if scan.largest.is_none() {
        return Err(InitError::NoFreeMemory);
    }
    let kernel = match scan.kernel {
        None => return Err(InitError::NoKernelEntry),
        Some(k) => k,
    };
    let kern = entries[kernel];
    proof {
        assert(entry_end(entries@[kernel as int]) + 0x20_0000 <= usize::MAX);
    }
    let kpages = address::page_count_up(kern.length as usize);
    proof {
        assert(scan.kernel == Some(kernel));
        assert(kernel_index(entries@) is Some);
        let j = kernel_index(entries@)->0;
        assert(0 <= j < entries@.len());
        assert(kernel == j as usize);
        assert(kernel_index(entries@) == Some(kernel as int));
        assert(kernel_count(entries@) == 1);
        assert(kpages == kernel_pages(kern.length));
    }
    if kpages > 512 {
        return Err(InitError::KernelTooLarge);
    }
    Ok(())
}

/// What `fill_tables` needs to succeed: only the empty top-level table at `root` is there,
/// and `tables_fit` holds.
pub open spec fn fill_ok(
    v: Map<usize, Seq<MapEntry>>,
    root: usize,
    early_length: int,
    exec_base: int,
    count: int,
    offset: int,
    large: int,
) -> bool {
    &&& v == Map::<usize, Seq<MapEntry>>::empty().insert(root, map::zero_table())
    &&& tables_fit(early_length, exec_base, count, offset, large)
}

/// The kernel's `count` pages from `exec_base` (at most 512) stay in one last-level table or
/// run on into the next one below the same table one level up, and the direct map's `large`
/// large pages from `offset` stay in one table of the level above; the two lie below
/// different slots of the top-level table; both ranges fit the address space; and the
/// `early_length` bytes of the early allocator hold a page for each of the (at most six)
/// lower tables they take and for each of the 256 tables of the upper half.
pub open spec fn tables_fit(early_length: int, exec_base: int, count: int, offset: int, large: int) -> bool {
    &&& count <= 512
    &&& (index_at(exec_base, 1) + count < 512 || index_at(exec_base, 2) < 511)
    &&& index_at(offset, 2) + large < 512
    &&& index_at(exec_base, 4) != index_at(offset, 4)
    &&& exec_base + count * 4096 <= usize::MAX
    &&& offset + large * 0x20_0000 <= usize::MAX + 0x20_0000
    &&& early_length >= 262 * 4096
}

/// Puts a lower table in every empty slot of the upper half of the top-level table at
/// `root`. `false` when a table could not be had. Every other table, and every slot of the
/// top-level table that held an entry, stays as it was.
fn fill_upper_half(tables: &mut PageTables, root: usize, early: &mut EarlyAllocator, hhdm: &Hhdm) -> (r: bool)
    requires
        old(tables).wf(),
        old(tables)@.dom().contains(root),
        early_ok(old(tables)@, *old(early), *hhdm),
    ensures
        final(tables).wf(),
        final(tables)@.dom().contains(root),
        early_ok(final(tables)@, *final(early), *hhdm),
        final(early).spec_start_length() == old(early).spec_start_length(),
        forall|u: usize| #[trigger] old(tables)@.dom().contains(u) ==> final(tables)@.dom().contains(u),
        forall|u: usize|
            old(tables)@.dom().contains(u) && u != root ==> #[trigger] final(tables)@[u] == old(tables)@[u],
        forall|j: int|
            0 <= j < 512 && (#[trigger] old(tables)@[root][j]).spec_addr() != 0 ==> final(tables)@[root][j]
                == old(tables)@[root][j],
        r ==> upper_half_present(final(tables)@, root),
        (forall|j: int|
            0 <= j < 512 && (#[trigger] old(tables)@[root][j]).spec_addr() != 0 ==> old(tables)@.dom().contains(
                map::child(old(tables)@, root, j),
            )) && old(early).spec_length() >= 256 * 4096 ==> r,
{
    let ghost t2 = tables@;
    let ghost good = (forall|j: int|
        0 <= j < 512 && (#[trigger] t2[root][j]).spec_addr() != 0 ==> t2.dom().contains(map::child(t2, root, j)))
        && early.spec_length() >= 256 * 4096;
    let mut i: usize = 256;
    while i < 512
        invariant
            256 <= i <= 512,
            tables.wf(),
            tables@.dom().contains(root),
            early_ok(tables@, *early, *hhdm),
            early.spec_start_length() == old(early).spec_start_length(),
            t2 == old(tables)@,
            forall|u: usize| #[trigger] t2.dom().contains(u) ==> tables@.dom().contains(u),
            forall|u: usize| t2.dom().contains(u) && u != root ==> #[trigger] tables@[u] == t2[u],
            forall|j: int|
                0 <= j < 512 && (#[trigger] t2[root][j]).spec_addr() != 0 ==> tables@[root][j] == t2[root][j],
            good ==> forall|j: int| 256 <= j < i ==> #[trigger] next_table(tables@, root, j) is Some,
            good == ((forall|j: int|
                0 <= j < 512 && (#[trigger] t2[root][j]).spec_addr() != 0 ==> t2.dom().contains(map::child(t2, root, j)))
                && old(early).spec_length() >= 256 * 4096),
            good ==> forall|j: int|
                0 <= j < 512 && (#[trigger] tables@[root][j]).spec_addr() != 0 ==> tables@.dom().contains(
                    map::child(tables@, root, j),
                ),
            good ==> early.spec_length() >= (512 - i) * 4096,
        decreases 512 - i,
    {
        proof {
            tables.lemma_tables_len();
        }
        let ghost v = tables@;
        let ghost ev = *early;
        let res = tables.map_or_insert(root, i, early, hhdm);
        if res.is_none() {
            return false;
        }
        proof {
            let w = tables@;
            if v[root][i as int].spec_addr() != 0 {
                assert(w == v);
                if good {
                    assert(next_table(w, root, i as int) is Some);
                }
            } else {
                let t = (ev.spec_memory() - hhdm.spec_offset()) as usize;
                assert(!v.dom().contains(t));
                assert forall|u: usize| t2.dom().contains(u) && u != root implies #[trigger] w[u] == t2[u] by {
                    assert(v.dom().contains(u));
                }
                assert forall|j: int| 0 <= j < 512 && (#[trigger] t2[root][j]).spec_addr() != 0 implies w[root][j]
                    == t2[root][j] by {
                    assert(v[root][j] == t2[root][j]);
                }
                if good {
                    assert forall|j: int| 256 <= j < i + 1 implies #[trigger] next_table(w, root, j) is Some by {
                        if j < i {
                            assert(next_table(v, root, j) is Some);
                            assert(w[root][j] == v[root][j]);
                        }
                    }
                    assert forall|j: int|
                        0 <= j < 512 && (#[trigger] w[root][j]).spec_addr() != 0 implies w.dom().contains(
                            map::child(w, root, j),
                        ) by {
                        if j != i {
                            assert(w[root][j] == v[root][j]);
                        }
                    }
                }
            }
        }
        i = i + 1;
    }
    check_upper_half(tables, root)
}

/// The kernel's way down, below the top-level table at `root`, ends in its third new table;
/// the top-level slot of another index stays empty.
proof fn lemma_kernel_walk(root: usize, ik: Seq<usize>, ih: Seq<usize>, a0: int, exec_base: int)
    requires
        ik == indices_of(exec_base),
        ih[0] != ik[0],
        ih.len() == 4,
        ih[0] < 512,
        exec_base >= 0,
        root < a0,
        a0 % 4096 == 0,
        a0 + 3 * 4096 <= 0x10_0000_0000_0000,
        a0 + 3 * 4096 <= usize::MAX,
    ensures
        map::walk(kernel_path(root, ik, a0), root, exec_base) == Some(
            ((a0 + 8192) as usize, index_at(exec_base, 1)),
        ),
        kernel_path(root, ik, a0)[root][ih[0] as int] == MapEntry(0),
{
    lemma_zero_entry();
    lemma_slot_entry(a0, ik[0]);
    lemma_slot_entry(a0 + 4096, ik[1]);
    lemma_slot_entry(a0 + 8192, ik[2]);
    lemma_index_step(exec_base - exec_base % 4096, 0);
    assert(0 <= index_at(exec_base, 4) < 512 && 0 <= index_at(exec_base, 3) < 512);
    assert(0 <= index_at(exec_base, 2) < 512 && 0 <= index_at(exec_base, 1) < 512);
}

/// The direct map's way down after its two new tables are made ends in the second one.
#[verifier::rlimit(60)]
#[verifier::spinoff_prover]
proof fn lemma_hhdm_walk(t1: Map<usize, Seq<MapEntry>>, root: usize, ih: Seq<usize>, a: int, off: int)
    requires
        ih == indices_of(off),
        off >= 0,
        t1.dom().contains(root),
        t1[root].len() == 512,
        root < a,
        a % 4096 == 0,
        a + 2 * 4096 <= 0x10_0000_0000_0000,
        a + 2 * 4096 <= usize::MAX,
    ensures
        map::walk_large(
            t1.insert(root, t1[root].update(ih[0] as int, slot_entry(a, ih[0]))).insert(
                a as usize,
                map::zero_table().update(ih[1] as int, slot_entry(a + 4096, ih[1])),
            ).insert((a + 4096) as usize, map::zero_table()),
            root,
            off,
        ) == Some(((a + 4096) as usize, index_at(off, 2))),
{
    lemma_slot_entry(a, ih[0]);
    lemma_slot_entry(a + 4096, ih[1]);
    assert(0 <= index_at(off, 4) < 512 && 0 <= index_at(off, 3) < 512 && 0 <= index_at(off, 2) < 512);
}

/// The tables after the direct map's two new tables, from the physical address `a` on, are
/// made below the top-level table at `root` of `t1` and hold its large pages.
pub open spec fn with_hhdm(
    t1: Map<usize, Seq<MapEntry>>,
    root: usize,
    ih: Seq<usize>,
    a: int,
    large: int,
) -> Map<usize, Seq<MapEntry>> {
    t1.insert(root, t1[root].update(ih[0] as int, slot_entry(a, ih[0]))).insert(
        a as usize,
        map::zero_table().update(ih[1] as int, slot_entry(a + 4096, ih[1])),
    ).insert((a + 4096) as usize, written_hhdm(map::zero_table(), ih[2] as int, large))
}

/// After the kernel's and the direct map's tables are made, every slot of the top-level table
/// that holds an entry points to one of the tables.
proof fn lemma_fill_tables_ready(
    t1: Map<usize, Seq<MapEntry>>,
    root: usize,
    ik: Seq<usize>,
    ih: Seq<usize>,
    a0: int,
    a: int,
    large: int,
)
    requires
        ik.len() == 4,
        ih.len() == 4,
        ik[0] < 512,
        ih[0] < 512,
        ih[0] != ik[0],
        root < a0,
        a0 % 4096 == 0,
        a0 + 4096 <= 0x10_0000_0000_0000,
        0 < a < 0x10_0000_0000_0000,
        a % 4096 == 0,
        a + 4096 <= usize::MAX,
        a0 + 3 * 4096 <= a,
        a0 + 3 * 4096 <= usize::MAX,
        t1[root] == kernel_path(root, ik, a0)[root],
        t1.dom().contains(a0 as usize),
    ensures
        forall|i: int| 0 <= i < 512 && (#[trigger] with_hhdm(t1, root, ih, a, large)[root][i]).spec_addr() != 0
            ==> with_hhdm(t1, root, ih, a, large).dom().contains(map::child(with_hhdm(t1, root, ih, a, large), root, i)),
{
    let t2 = with_hhdm(t1, root, ih, a, large);
    lemma_zero_entry();
    lemma_slot_entry(a0, ik[0]);
    lemma_slot_entry(a, ih[0]);
    assert(t1[root] == map::zero_table().update(ik[0] as int, slot_entry(a0, ik[0])));
    assert(t2[root] == t1[root].update(ih[0] as int, slot_entry(a, ih[0])));
    assert forall|i: int| 0 <= i < 512 && (#[trigger] t2[root][i]).spec_addr() != 0 implies t2.dom().contains(
        map::child(t2, root, i),
    ) by {
        if i != ik[0] && i != ih[0] {
            assert(t2[root][i] == MapEntry(0));
        }
    }
}

/// The kernel's tables made below the empty top-level table, as `fill_tables` makes them,
/// still map the kernel after the direct map's tables are made and the upper half is filled.
#[verifier::rlimit(100)]
#[verifier::spinoff_prover]
proof fn lemma_fill_kernel_mapped(
    t2: Map<usize, Seq<MapEntry>>,
    t3: Map<usize, Seq<MapEntry>>,
    root: usize,
    ik: Seq<usize>,
    ih: Seq<usize>,
    a0: int,
    exec_base: int,
    current: Seq<MapEntry>,
    count: int,
    off: int,
    large: int,
)
    requires
        ik == indices_of(exec_base),
        ih == indices_of(off),
        exec_base >= 0,
        exec_base % 4096 == 0,
        off >= 0,
        0 <= count <= 512,
        count <= current.len(),
        index_at(exec_base, 1) + count < 512 || index_at(exec_base, 2) < 511,
        index_at(off, 2) + large < 512,
        index_at(exec_base, 4) != index_at(off, 4),
        large >= 0,
        root < a0,
        a0 % 4096 == 0,
        a0 + 6 * 4096 <= 0x10_0000_0000_0000,
        a0 + 6 * 4096 <= usize::MAX,
        t2 == with_hhdm(
            kernel_tables(root, ik, a0, current, count),
            root,
            ih,
            a0 + kernel_table_count(ik, count) * 4096,
            large,
        ),
        forall|u: usize| #[trigger] t2.dom().contains(u) ==> t3.dom().contains(u),
        forall|u: usize| t2.dom().contains(u) && u != root ==> #[trigger] t3[u] == t2[u],
        forall|j: int| 0 <= j < 512 && (#[trigger] t2[root][j]).spec_addr() != 0 ==> t3[root][j] == t2[root][j],
    ensures
        kernel_mapped(t3, root, exec_base, current, count),
{
    let kn = kernel_table_count(ik, count);
    let ta = a0 as usize;
    let tb = (a0 + 4096) as usize;
    let tc = (a0 + 8192) as usize;
    let td = (a0 + 12288) as usize;
    let ax = a0 + kn * 4096;
    let t1 = kernel_tables(root, ik, a0, current, count);
    lemma_index_step(exec_base, 0);
    lemma_large_index_step(off, 0);
    lemma_slot_entry(a0, ik[0]);
    assert(t2.dom().contains(ta) && t2.dom().contains(tb) && t2.dom().contains(tc));
    assert(kn == 3 || kn == 4);
    assert(t2.dom().contains(root));
    assert(t3.dom().contains(root));
    assert(t3.dom().contains(ta) && t3.dom().contains(tb) && t3.dom().contains(tc));
    let tx = ax as usize;
    let ty = (ax + 4096) as usize;
    assert(tx as int == ax && ty as int == ax + 4096);
    assert(ta != tx && tb != tx && tc != tx && ta != ty && tb != ty && tc != ty);
    assert(ta != root && tb != root && tc != root);
    assert(t1.dom().contains(ta) && t1.dom().contains(tb) && t1.dom().contains(tc));
    assert(t2[ta] == t1[ta] && t2[tb] == t1[tb] && t2[tc] == t1[tc]);
    assert(t3[ta] == t2[ta] && t3[tb] == t2[tb] && t3[tc] == t2[tc]);
    assert(t2[root][ik[0] as int] == slot_entry(a0, ik[0]));
    assert(t3[root][ik[0] as int] == slot_entry(a0, ik[0]));
    if ik[3] + count >= 512 {
        assert(td != tx && td != ty && td != root);
        assert(t2.dom().contains(td));
        assert(t2[td] == t1[td]);
        assert(t3[td] == t2[td]);
        assert(t3.dom().contains(td));
    }
    lemma_kernel_kept(t1, t3, root, ik, a0, exec_base, current, count);
}

/// The kernel's tables still map its pages in tables that keep them and the kernel's slot of
/// the top-level table.
#[verifier::rlimit(100)]
#[verifier::spinoff_prover]
proof fn lemma_kernel_kept(
    t1: Map<usize, Seq<MapEntry>>,
    t3: Map<usize, Seq<MapEntry>>,
    root: usize,
    ik: Seq<usize>,
    a0: int,
    exec_base: int,
    current: Seq<MapEntry>,
    count: int,
)
    requires
        ik == indices_of(exec_base),
        exec_base >= 0,
        exec_base % 4096 == 0,
        0 <= count <= 512,
        count <= current.len(),
        index_at(exec_base, 1) + count < 512 || index_at(exec_base, 2) < 511,
        root < a0,
        a0 % 4096 == 0,
        a0 + 6 * 4096 <= 0x10_0000_0000_0000,
        a0 + 6 * 4096 <= usize::MAX,
        t1 == kernel_tables(root, ik, a0, current, count),
        t3.dom().contains(root),
        t3.dom().contains(a0 as usize),
        t3.dom().contains((a0 + 4096) as usize),
        t3.dom().contains((a0 + 8192) as usize),
        t3[root][ik[0] as int] == slot_entry(a0, ik[0]),
        t3[a0 as usize] == t1[a0 as usize],
        t3[(a0 + 4096) as usize] == t1[(a0 + 4096) as usize],
        t3[(a0 + 8192) as usize] == t1[(a0 + 8192) as usize],
        ik[3] + count >= 512 ==> t3.dom().contains((a0 + 12288) as usize) && t3[(a0 + 12288) as usize]
            == t1[(a0 + 12288) as usize],
    ensures
        kernel_mapped(t3, root, exec_base, current, count),
{
    let ta = a0 as usize;
    let tb = (a0 + 4096) as usize;
    let tc = (a0 + 8192) as usize;
    let td = (a0 + 12288) as usize;
    lemma_index_step(exec_base, 0);
    lemma_slot_entry(a0, ik[0]);
    lemma_slot_entry(a0 + 4096, ik[1]);
    lemma_slot_entry(a0 + 8192, ik[2]);
    assert(next_table(t3, root, ik[0] as int) == Some(ta));
    assert(t1[ta][ik[1] as int] == slot_entry(a0 + 4096, ik[1]));
    assert(next_table(t3, ta, ik[1] as int) == Some(tb));
    if ik[3] + count < 512 {
        assert(t1[tb][ik[2] as int] == slot_entry(a0 + 8192, ik[2]));
        assert(next_table(t3, tb, ik[2] as int) == Some(tc));
        assert forall|j: int| 0 <= j < count implies #[trigger] maps_page(t3, root, exec_base + j * 4096, current[j]) by {
            lemma_index_step(exec_base, j);
            assert(t3[tc][ik[3] + j] == current[j]);
        }
    } else {
        let n1 = 512 - ik[3];
        lemma_slot_entry(a0 + 12288, (ik[2] + 1) as usize);
        assert(t1[tb][ik[2] as int] == slot_entry(a0 + 8192, ik[2]));
        assert(t1[tb][ik[2] + 1] == slot_entry(a0 + 12288, (ik[2] + 1) as usize));
        assert(next_table(t3, tb, ik[2] as int) == Some(tc));
        assert(next_table(t3, tb, ik[2] + 1) == Some(td));
        assert forall|j: int| 0 <= j < count implies #[trigger] maps_page(t3, root, exec_base + j * 4096, current[j]) by {
            if j < n1 {
                lemma_index_step(exec_base, j);
                assert(t3[tc][ik[3] + j] == current[j]);
            } else {
                lemma_cross_step(exec_base, j - n1);
                assert(exec_base + (512 - ik[3] + (j - n1)) * 4096 == exec_base + j * 4096);
                assert(t3[td][j - n1] == current[j]);
            }
        }
    }
}

/// The direct map's tables made after the kernel's, as `fill_tables` makes them, still map the
/// direct map after the upper half is filled.
#[verifier::rlimit(100)]
#[verifier::spinoff_prover]
proof fn lemma_fill_hhdm_mapped(
    t2: Map<usize, Seq<MapEntry>>,
    t3: Map<usize, Seq<MapEntry>>,
    root: usize,
    ik: Seq<usize>,
    ih: Seq<usize>,
    a0: int,
    exec_base: int,
    current: Seq<MapEntry>,
    count: int,
    off: int,
    large: int,
)
    requires
        ik == indices_of(exec_base),
        ih == indices_of(off),
        exec_base >= 0,
        exec_base % 4096 == 0,
        off >= 0,
        0 <= count <= 512,
        count <= current.len(),
        index_at(exec_base, 1) + count < 512 || index_at(exec_base, 2) < 511,
        index_at(off, 2) + large < 512,
        index_at(exec_base, 4) != index_at(off, 4),
        large >= 0,
        root < a0,
        a0 % 4096 == 0,
        a0 + 6 * 4096 <= 0x10_0000_0000_0000,
        a0 + 6 * 4096 <= usize::MAX,
        t2 == with_hhdm(
            kernel_tables(root, ik, a0, current, count),
            root,
            ih,
            a0 + kernel_table_count(ik, count) * 4096,
            large,
        ),
        forall|u: usize| #[trigger] t2.dom().contains(u) ==> t3.dom().contains(u),
        forall|u: usize| t2.dom().contains(u) && u != root ==> #[trigger] t3[u] == t2[u],
        forall|j: int| 0 <= j < 512 && (#[trigger] t2[root][j]).spec_addr() != 0 ==> t3[root][j] == t2[root][j],
    ensures
        hhdm_mapped(t3, root, off, large),
{
    let kn = kernel_table_count(ik, count);
    let ta = a0 as usize;
    let tb = (a0 + 4096) as usize;
    let tc = (a0 + 8192) as usize;
    let td = (a0 + 12288) as usize;
    let ax = a0 + kn * 4096;
    let tx = ax as usize;
    let ty = (ax + 4096) as usize;
    lemma_index_step(exec_base, 0);
    lemma_large_index_step(off, 0);
    lemma_slot_entry(a0, ik[0]);
    lemma_slot_entry(a0 + 4096, ik[1]);
    lemma_slot_entry(a0 + 8192, ik[2]);
    lemma_slot_entry(ax, ih[0]);
    lemma_slot_entry(ax + 4096, ih[1]);
    let t1 = kernel_tables(root, ik, a0, current, count);
    assert(t2.dom().contains(ta) && t2.dom().contains(tb) && t2.dom().contains(tc));
    assert(t2.dom().contains(tx) && t2.dom().contains(ty) && t2.dom().contains(root));
    assert(t2[root][ik[0] as int] == slot_entry(a0, ik[0]));
    assert(t2[root][ih[0] as int] == slot_entry(ax, ih[0]));
    assert(t3[root][ik[0] as int] == slot_entry(a0, ik[0]));
    assert(t3[root][ih[0] as int] == slot_entry(ax, ih[0]));
    assert(t3[ta] == t2[ta] && t3[tb] == t2[tb] && t3[tc] == t2[tc] && t3[tx] == t2[tx] && t3[ty] == t2[ty]);
    assert forall|j: int| 0 <= j < large implies #[trigger] maps_large_page(
        t3,
        root,
        off + j * 0x20_0000,
        MapEntry(hhdm_entry(j as usize)),
    ) by {
        lemma_large_index_step(off, j);
        assert(next_table(t3, root, ih[0] as int) == Some(tx));
        assert(next_table(t3, tx, ih[1] as int) == Some(ty));
        assert(t3[ty][ih[2] + j] == MapEntry(hhdm_entry(j as usize)));
    }
}

/// Maps the kernel's `count` pages at `exec_base` and the direct map's `large` large pages
/// below the top-level table at `root`, as `fill_tables` does first. When `fill_ok` holds it
/// succeeds, and the tables are the top-level one, the kernel's new tables (`kernel_tables`)
/// and the direct map's two, from the early allocator's next page on.
#[verifier::rlimit(100)]
#[verifier::spinoff_prover]
fn map_kernel_and_hhdm(
    tables: &mut PageTables,
    root: usize,
    early: &mut EarlyAllocator,
    hhdm: &Hhdm,
    exec_base: address::VirtAddrPageAligned,
    current: &Vec<MapEntry>,
    count: usize,
    memory_end: usize,
) -> (r: bool)
    requires
        count <= current@.len(),
        memory_end + 0x20_0000 <= usize::MAX,
        old(tables).wf(),
        old(tables)@.dom().contains(root),
        early_ok(old(tables)@, *old(early), *hhdm),
    ensures
        final(tables).wf(),
        final(tables)@.dom().contains(root),
        early_ok(final(tables)@, *final(early), *hhdm),
        final(early).spec_start_length() == old(early).spec_start_length(),
        r ==> exec_base@ + count * 4096 <= usize::MAX,
        r ==> hhdm.spec_offset() + ((memory_end + 0x1f_ffff) / 0x20_0000) * 0x20_0000 <= usize::MAX + 0x20_0000,
        ({
            let off = hhdm.spec_offset() as int;
            let large = (memory_end + 0x1f_ffff) / 0x20_0000;
            let ik = indices_of(exec_base@ as int);
            let ih = indices_of(off);
            let a0 = old(early).spec_memory() - off;
            let kn = kernel_table_count(ik, count as int);
            fill_ok(old(tables)@, root, old(early).spec_length() as int, exec_base@ as int, count as int, off, large)
                ==> {
                &&& r
                &&& final(tables)@ == with_hhdm(
                    kernel_tables(root, ik, a0, current@, count as int),
                    root,
                    ih,
                    a0 + kn * 4096,
                    large,
                )
                &&& final(early).spec_length() == old(early).spec_length() - (kn + 2) * 4096
            }
        }),
{
    let ghost t0 = tables@;
    let ghost e0 = *early;
    let ghost off = hhdm.spec_offset() as int;
    let ghost large = (memory_end + 0x1f_ffff) / 0x20_0000;
    let ghost ok = fill_ok(t0, root, e0.spec_length() as int, exec_base@ as int, count as int, off, large);
    let ghost ik = indices_of(exec_base@ as int);
    let ghost ih = indices_of(off);
    let ghost a0 = e0.spec_memory() - off;
    let ghost kn = kernel_table_count(ik, count as int);
    let ghost kt = kernel_tables(root, ik, a0, current@, count as int);
    proof {
        use_type_invariant(hhdm);
        use_type_invariant(exec_base);
        if ok {
            lemma_large_index_step(off, 0);
            lemma_kernel_run(t0, root, exec_base@ as int, ih, current@, count as int, a0, (e0.spec_length() / 4096) as int);
        }
    }
    if !map_kernel(tables, root, early, hhdm, exec_base, current, count) {
        return false;
    }
    let ghost t1 = tables@;
    let ghost e1 = *early;
    let ghost a3 = a0 + kn * 4096;
    let ghost pf2 = t1.insert(root, t1[root].update(ih[0] as int, slot_entry(a3, ih[0]))).insert(
        a3 as usize,
        map::zero_table().update(ih[1] as int, slot_entry(a3 + 4096, ih[1])),
    ).insert((a3 + 4096) as usize, map::zero_table());
    proof {
        if ok {
            assert(t1 == kt);
            assert(t1[root] == kernel_path(root, ik, a0)[root]);
            assert(t1[root].len() == 512);
            lemma_zero_entry();
            assert(t1[root][ih[0] as int].spec_addr() == 0);
            assert(e1.spec_length() == e0.spec_length() - kn * 4096);
            assert(e1.spec_length() / 4096 >= 258);
            assert(map::chain_can(t1, root, ih, 0, 2, seq![root], (e1.spec_length() / 4096) as int)
                && map::path_fill(t1, root, ih, 0, 2, a3) == pf2 && map::walk_large(pf2, root, off) == Some(
                ((a3 + 4096) as usize, index_at(off, 2)),
            )) by {
                lemma_hhdm_path(t1, root, ih, a3);
                lemma_hhdm_walk(t1, root, ih, a3, off);
            }
        }
    }
    if !map_hhdm(tables, root, early, hhdm, hhdm::get_offset(hhdm), address::large_page_count_up(memory_end)) {
        return false;
    }
    proof {
        if ok {
            assert(tables@ =~= with_hhdm(kt, root, ih, a3, large));
        }
    }
    true
}

/// Builds the page tables below the top-level table at `root`: maps the kernel's `count`
/// pages at `exec_base` to the entries `current` gives, maps all of memory up to `memory_end`
/// at the direct-map offset, and puts a lower table in every slot of the upper half of the
/// top-level table. `false` when a table could not be had or the slots ran out; it succeeds
/// whenever `fill_ok` holds.
#[verifier::rlimit(100)]
#[verifier::spinoff_prover]
fn fill_tables(
    tables: &mut PageTables,
    root: usize,
    early: &mut EarlyAllocator,
    hhdm: &Hhdm,
    exec_base: address::VirtAddrPageAligned,
    current: &Vec<MapEntry>,
    count: usize,
    memory_end: usize,
) -> (r: bool)
    requires
        count <= current@.len(),
        memory_end + 0x20_0000 <= usize::MAX,
        old(tables).wf(),
        old(tables)@.dom().contains(root),
        early_ok(old(tables)@, *old(early), *hhdm),
    ensures
        final(tables).wf(),
        final(tables)@.dom().contains(root),
        early_ok(final(tables)@, *final(early), *hhdm),
        final(early).spec_start_length() == old(early).spec_start_length(),
        r ==> kernel_mapped(final(tables)@, root, exec_base@ as int, current@, count as int),
        r ==> hhdm_mapped(
            final(tables)@,
            root,
            hhdm.spec_offset() as int,
            (memory_end + 0x1f_ffff) / 0x20_0000,
        ),
        r ==> upper_half_present(final(tables)@, root),
        fill_ok(
            old(tables)@,
            root,
            old(early).spec_length() as int,
            exec_base@ as int,
            count as int,
            hhdm.spec_offset() as int,
            (memory_end + 0x1f_ffff) / 0x20_0000,
        ) ==> r,
{
    let ghost t0 = tables@;
    let ghost e0 = *early;
    let ghost off = hhdm.spec_offset() as int;
    let ghost large = (memory_end + 0x1f_ffff) / 0x20_0000;
    let ghost ok = fill_ok(t0, root, e0.spec_length() as int, exec_base@ as int, count as int, off, large);
    let ghost ik = indices_of(exec_base@ as int);
    let ghost ih = indices_of(off);
    let ghost a0 = e0.spec_memory() - off;
    if !map_kernel_and_hhdm(tables, root, early, hhdm, exec_base, current, count, memory_end) {
        return false;
    }
    let ghost kn = kernel_table_count(ik, count as int);
    let ghost t1 = kernel_tables(root, ik, a0, current@, count as int);
    let ghost t2 = tables@;
    proof {
        use_type_invariant(hhdm);
        if ok {
            lemma_kernel_tables_root(root, ik, a0, current@, count as int);
            lemma_fill_tables_ready(t1, root, ik, ih, a0, a0 + kn * 4096, large);
        }
    }
    let filled = fill_upper_half(tables, root, early, hhdm);
    proof {
        if ok {
            use_type_invariant(exec_base);
            assert(filled);
            lemma_fill_kernel_mapped(t2, tables@, root, ik, ih, a0, exec_base@ as int, current@, count as int, off, large);
            lemma_fill_hhdm_mapped(t2, tables@, root, ik, ih, a0, exec_base@ as int, current@, count as int, off, large);
        }
    }
    if !filled {
        return false;
    }
    let b1 = check_kernel_mapped(tables, root, exec_base, current, count);
    let b2 = check_hhdm_mapped(tables, root, hhdm::get_offset(hhdm), address::large_page_count_up(memory_end));
    b1 && b2
}

/// Why setting up physical memory failed.
#[derive(Debug, Copy, Clone, PartialEq, Eq, Structural)]
pub enum InitError {
    /// The memory map has more than one block that holds the kernel.
    MultipleKernelEntries,
    /// The memory map has no usable block.
    NoFreeMemory,
    /// The memory map has no block that holds the kernel.
    NoKernelEntry,
    /// The largest usable block cannot hold the allocators' bookkeeping.
    NoAllocatorMemory,
    /// The kernel takes more than 512 pages.
    KernelTooLarge,
    /// The largest usable block has no page left for the top-level page table.
    NoMapMemory,
    /// A lower page table could not be had, or the page slots ran out.
    PageTables,
}

/// Where the allocator for high memory starts: 4 GiB, where `usize` can hold it with a page
/// to spare, else 0.
pub open spec fn four_gib() -> usize {
    if 0x1_0000_0000 + 4095 <= usize::MAX {
        0x1_0000_0000u64 as usize
    } else {
        0
    }
}

/// Where the allocator for high memory starts.
fn high_start() -> (r: usize)
    ensures
        r == four_gib(),
        r + 4095 <= usize::MAX,
{
    let x: u64 = 0x1_0000_0000;
    if x <= (usize::MAX as u64) - 4095 {
        x as usize
    } else {
        0
    }
}

/// The end of the memory that the allocator for low memory manages.
pub open spec fn low_end(end: usize) -> usize {
    if (end as u64) < 0x1_0000_0000u64 {
        end
    } else {
        four_gib()
    }
}

/// The allocator state `s` after its bookkeeping memory has been handed over.
pub open spec fn with_data(s: AllocState) -> AllocState {
    AllocState { used: set_data_used(s), ..s }
}

/// The number of kernel pages that a kernel block of `length` bytes takes.
pub open spec fn kernel_pages(length: u64) -> int {
    (length + 4095) / 4096
}

/// The boot memory map is one this kernel can read: every block ends inside the physical
/// address space and inside the direct map, and usable blocks are page aligned.
pub open spec fn memory_map_ok(es: Seq<MemoryMapEntry>, hhdm_offset: usize) -> bool {
    forall|i: int|
        0 <= i < es.len() ==> {
            &&& entry_end(#[trigger] es[i]) <= 0x10_0000_0000_0000
            &&& entry_end(es[i]) + 0x20_0000 <= usize::MAX
            &&& hhdm_offset + entry_end(es[i]) <= usize::MAX
            &&& es[i].entry_type == EntryType::Usable ==> es[i].base % 4096 == 0 && es[i].length
                % 4096 == 0
        }
}

/// Whether the boot memory map is one this kernel can read, as `memory_map_ok` says.
pub fn memory_map_fits(entries: &Vec<MemoryMapEntry>, hhdm_offset: usize) -> (r: bool)
    ensures
        r == memory_map_ok(entries@, hhdm_offset),
{
    let mut i: usize = 0;
    while i < entries.len()
        invariant
            i <= entries@.len(),
            memory_map_ok(entries@.take(i as int), hhdm_offset),
        decreases entries@.len() - i,
    {
        let e = entries[i];
        proof {
            assert(entries@.take(i + 1) =~= entries@.take(i as int).push(e));
        }
        let end = match e.base.checked_add(e.length) {
            Some(end) => end,
            None => {
                proof {
                    assert(entries@[i as int] == e);
                    assert(!memory_map_ok(entries@, hhdm_offset));
                }
                return false;
            },
        };
        let ok = end <= 0x10_0000_0000_0000 && end <= (usize::MAX as u64) - 0x20_0000 && end
            <= ((usize::MAX - hhdm_offset) as u64) && (e.entry_type != EntryType::Usable || (e.base
            % 4096 == 0 && e.length % 4096 == 0));
        if !ok {
            proof {
                assert(entries@[i as int] == e);
                assert(!memory_map_ok(entries@, hhdm_offset));
            }
            return false;
        }
        i = i + 1;
    }
    proof {
        assert(entries@.take(i as int) =~= entries@);
    }
    true
}

/// Two page allocators: one for the memory below 4 GiB and one for the rest.
pub struct MemoryManager<A: MemoryAllocator> {
    alloc_32: A,
    alloc_main: A,
    initialized: bool,
}

impl<A: MemoryAllocator> MemoryManager<A> {
    /// Both allocators are consistent.
    pub open spec fn wf(&self) -> bool {
        self.spec_alloc_32().wf() && self.spec_alloc_main().wf()
    }

    /// The allocator for memory below 4 GiB.
    pub closed spec fn spec_alloc_32(&self) -> A {
        self.alloc_32
    }

    /// The allocator for the rest of memory.
    pub closed spec fn spec_alloc_main(&self) -> A {
        self.alloc_main
    }

    /// Whether the manager has been initialised.
    pub closed spec fn spec_initialized(&self) -> bool {
        self.initialized
    }

    /// Whether the allocators were set up from the memory map.
    pub fn is_initialized(&self) -> (r: bool)
        ensures
            r == self.spec_initialized(),
    {
        self.initialized
    }

    /// A manager over two allocators, not yet initialised.
    pub fn default(alloc_32: A, alloc_main: A) -> (r: Self)
        ensures
            r.spec_alloc_32() == alloc_32,
            r.spec_alloc_main() == alloc_main,
            !r.spec_initialized(),
    {
        MemoryManager { alloc_32, alloc_main, initialized: false }
    }

    /// Sets up physical memory from the boot memory map `entries`: sets the offset of the
    /// direct map, gives the memory below 4 GiB to one allocator and the rest to the other,
    /// takes their bookkeeping memory from the start of the largest usable block, and builds
    /// page tables in the pages after it. The page tables map the kernel at `exec_base`, whose
    /// pages the running page tables map with the entries `current`, and all of memory at the
    /// direct-map offset, and they have a lower table for every slot of the upper half. Then
    /// every usable block but what was taken goes to the allocators.
    #[verifier::rlimit(100)]
    #[verifier::spinoff_prover]
    pub fn init(
        &mut self,
        entries: &Vec<MemoryMapEntry>,
        hhdm: &mut Hhdm,
        hhdm_offset: usize,
        exec_base: address::VirtAddrPageAligned,
        current: &Vec<MapEntry>,
    ) -> (r: Result<PhysicalMemorySpace, InitError>)
        requires
            old(self).wf(),
            hhdm_offset % 4096 == 0,
            memory_map_ok(entries@, hhdm_offset),
            boot_map_ok(entries@),
            kernel_index(entries@) matches Some(j) ==> kernel_pages(entries@[j].length) <= 512
                ==> current@.len() >= kernel_pages(entries@[j].length),
        ensures
            final(hhdm).spec_offset() == hhdm_offset,
            r is Err ==> final(self).spec_initialized() == old(self).spec_initialized(),
            ({
                let es = entries@;
                let end = memory_end_of(es) as usize;
                let s32 = init_spec(A::initial(), 0, low_end(end));
                let smain = init_spec(A::initial(), four_gib(), end);
                let need = address::round_up(s32.page_data_size as int, 4096) + address::round_up(
                    smain.page_data_size as int,
                    4096,
                );
                {
                    let big = es[largest_usable(es)->0];
                    let kern = es[kernel_index(es)->0];
                    if need > big.length {
                        r == Err::<PhysicalMemorySpace, InitError>(InitError::NoAllocatorMemory)
                    } else if need + 4096 > big.length {
                        r == Err::<PhysicalMemorySpace, InitError>(InitError::NoMapMemory)
                    } else {
                        &&& r is Ok || r == Err::<PhysicalMemorySpace, InitError>(InitError::PageTables)
                        &&& tables_fit(
                            big.length - need - 4096,
                            exec_base@ as int,
                            kernel_pages(kern.length),
                            hhdm_offset as int,
                            (end + 0x1f_ffff) / 0x20_0000,
                        ) ==> r is Ok
                        &&& r matches Ok(space) ==> {
                            &&& final(self).wf()
                            &&& final(self).spec_initialized()
                            &&& final(self).spec_alloc_32().state() == with_data(s32)
                            &&& final(self).spec_alloc_main().state() == with_data(smain)
                            &&& space.spec_map() == big.base + need
                            &&& space.spec_tables().wf()
                            &&& space.spec_tables()@.dom().contains(space.spec_map())
                            &&& kernel_mapped(
                                space.spec_tables()@,
                                space.spec_map(),
                                exec_base@ as int,
                                current@,
                                kernel_pages(kern.length),
                            )
                            &&& hhdm_mapped(
                                space.spec_tables()@,
                                space.spec_map(),
                                hhdm_offset as int,
                                (end + 0x1f_ffff) / 0x20_0000,
                            )
                            &&& upper_half_present(space.spec_tables()@, space.spec_map())
                        }
                    }
                }
            }),
    {
        hhdm::set_offset(hhdm, hhdm_offset);
        self.alloc_32 = A::new();
        self.alloc_main = A::new();
        let ghost es = entries@;
        proof {
            assert forall|i: int| 0 <= i < es.len() implies entry_end(#[trigger] es[i]) <= usize::MAX by {
                assert(memory_map_ok(es, hhdm_offset));
            }
            lemma_scan_bounds(es);
        }
        let n = entries.len();
        let scan = scan_memory_map(entries);
        let largest = scan.largest.unwrap();
        let kernel = scan.kernel.unwrap();
        let memory_end = scan.memory_end;
        let big = entries[largest];
        let kern = entries[kernel];
        proof {
            assert(memory_map_ok(es, hhdm_offset));
            assert(entry_end(es[largest as int]) <= 0x10_0000_0000_0000);
            assert(entry_end(es[kernel as int]) <= 0x10_0000_0000_0000);
        }
        let four_g: u64 = 0x1_0000_0000;
        let low = if (memory_end as u64) < four_g {
            memory_end
        } else {
            four_g as usize
        };
        self.alloc_32.init(0, low);
        self.alloc_main.init(high_start(), memory_end);
        let ghost s32 = self.alloc_32.state();
        let ghost smain = self.alloc_main.state();
        let base = big.base as usize;
        let length = big.length as usize;
        let mut early = EarlyAllocator::new(hhdm::add(hhdm, base), length);
        let ds32 = self.alloc_32.data_size();
        proof {
            assert(ds32 + 4095 <= usize::MAX) by (nonlinear_arith)
                requires
                    s32.page_data_size == ds32,
                    ds32 == if s32.enabled {
                        ((((s32.end_page - s32.start_page) as usize) / 4) + 1) as usize
                    } else {
                        0usize
                    },
                    s32.end_page <= usize::MAX / 4096,
            ;
        }
        let block32 = early.allocate_bytes(ds32);
        if block32.is_none() {
            return Err(InitError::NoAllocatorMemory);
        }
        self.alloc_32.set_data(ds32);
        let dsmain = self.alloc_main.data_size();
        proof {
            assert(dsmain + 4095 <= usize::MAX) by (nonlinear_arith)
                requires
                    smain.page_data_size == dsmain,
                    dsmain == if smain.enabled {
                        ((((smain.end_page - smain.start_page) as usize) / 4) + 1) as usize
                    } else {
                        0usize
                    },
                    smain.end_page <= usize::MAX / 4096,
            ;
        }
        let blockmain = early.allocate_bytes(dsmain);
        if blockmain.is_none() {
            return Err(InitError::NoAllocatorMemory);
        }
        self.alloc_main.set_data(dsmain);
        let klen = kern.length as usize;
        let kpages = address::page_count_up(klen);
        proof {
            assert(kernel_index(es) == Some(kernel as int));
            assert(largest_usable(es) == Some(largest as int));
            assert(kernel_count(es) == 1);
            assert(memory_end == memory_end_of(es));
            assert(low == low_end(memory_end));
            assert(s32 == init_spec(A::initial(), 0, low_end(memory_end)));
            assert(smain == init_spec(A::initial(), four_gib(), memory_end));
            assert(kpages == kernel_pages(kern.length));
            assert(early.spec_length() == length - address::round_up(ds32 as int, 4096)
                - address::round_up(dsmain as int, 4096));
        }
        let root_virt = match early.allocate_bytes(address::PAGE_SIZE) {
            None => return Err(InitError::NoMapMemory),
            Some(v) => v,
        };
        let root = hhdm::sub(hhdm, root_virt);
        let mut tables = PageTables::new();
        tables.add_table(root);
        proof {
            use_type_invariant(&*hhdm);
            assert(tables@.dom() =~= set![root]);
            assert(early_ok(tables@, early, *hhdm));
            assert(tables@ =~= Map::<usize, Seq<MapEntry>>::empty().insert(root, map::zero_table()));
        }
        proof {
            lemma_memory_end_bound(es, usize::MAX - 0x20_0000);
        }
        if !fill_tables(&mut tables, root, &mut early, hhdm, exec_base, current, kpages, memory_end) {
            return Err(InitError::PageTables);
        }
        let used = early.used();
        self.include_usable(entries, largest, used);
        self.initialized = true;
        Ok(PhysicalMemorySpace::new(root, tables))
    }

    /// Hands the usable blocks of `entries` to both allocators, the largest one, block
    /// `largest`, without its first `used` bytes. The allocators' `include_range` adds no page
    /// of its managed range, so their states stay as they were.
    fn include_usable(&mut self, entries: &Vec<MemoryMapEntry>, largest: usize, used: usize)
        requires
            old(self).wf(),
            largest < entries@.len(),
            used <= entries@[largest as int].length,
            forall|i: int| 0 <= i < entries@.len() ==> entry_end(#[trigger] entries@[i]) <= 0x10_0000_0000_0000,
            forall|i: int| 0 <= i < entries@.len() ==> entry_end(#[trigger] entries@[i]) + 0x20_0000 <= usize::MAX,
        ensures
            final(self).wf(),
            final(self).spec_alloc_32().state() == old(self).spec_alloc_32().state(),
            final(self).spec_alloc_main().state() == old(self).spec_alloc_main().state(),
            final(self).spec_initialized() == old(self).spec_initialized(),
    {
        let mut k: usize = 0;
        while k < entries.len()
            invariant
                self.wf(),
                self.alloc_32.state() == old(self).spec_alloc_32().state(),
                self.alloc_main.state() == old(self).spec_alloc_main().state(),
                self.initialized == old(self).spec_initialized(),
                largest < entries@.len(),
                used <= entries@[largest as int].length,
                forall|i: int| 0 <= i < entries@.len() ==> entry_end(#[trigger] entries@[i]) <= 0x10_0000_0000_0000,
                forall|i: int| 0 <= i < entries@.len() ==> entry_end(#[trigger] entries@[i]) + 0x20_0000 <= usize::MAX,
            decreases entries@.len() - k,
        {
            let e = entries[k];
            if e.entry_type == EntryType::Usable {
                proof {
                    assert(entry_end(entries@[k as int]) <= 0x10_0000_0000_0000);
                    assert(entry_end(entries@[k as int]) + 0x20_0000 <= usize::MAX);
                }
                let (start, len) = if k == largest {
                    ((e.base as usize) + used, (e.length as usize) - used)
                } else {
                    (e.base as usize, e.length as usize)
                };
                self.alloc_32.include_range(start, start + len);
                self.alloc_main.include_range(start, start + len);
            }
            k = k + 1;
        }
    }

    /// Takes one page, from the main allocator if it has one, else from the one below 4 GiB.
    pub fn alloc_page(&mut self) -> (r: Option<usize>)
        requires
            old(self).wf(),
            old(self).spec_initialized(),
            pair_alloc_page_ok(old(self).spec_alloc_main().state(), old(self).spec_alloc_32().state()),
        ensures
            final(self).wf(),
            final(self).spec_initialized(),
            (final(self).spec_alloc_main().state(), final(self).spec_alloc_32().state(), r)
                == pair_alloc_page(old(self).spec_alloc_main().state(), old(self).spec_alloc_32().state()),
    {
        if let Some(page) = self.alloc_main.alloc_page() {
            return Some(page);
        }
        self.alloc_32.alloc_page()
    }

    /// Gives back one page to whichever allocator it belongs to; one of them must take it.
    pub fn dealloc_page(&mut self, addr: usize)
        requires
            old(self).wf(),
            old(self).spec_initialized(),
            pair_dealloc_page_ok(
                old(self).spec_alloc_main().state(),
                old(self).spec_alloc_32().state(),
                addr,
            ),
        ensures
            final(self).wf(),
            final(self).spec_initialized(),
            (final(self).spec_alloc_main().state(), final(self).spec_alloc_32().state())
                == pair_dealloc_page(
                old(self).spec_alloc_main().state(),
                old(self).spec_alloc_32().state(),
                addr,
            ),
    {
        if self.alloc_main.dealloc_page(addr) {
            return;
        }
        let taken = self.alloc_32.dealloc_page(addr);
        assert(taken);
    }

    /// Takes `count` consecutive pages, from the main allocator if it has them, else from the
    /// one below 4 GiB.
    pub fn alloc_pages(&mut self, count: usize) -> (r: Option<usize>)
        requires
            old(self).wf(),
            old(self).spec_initialized(),
            pair_alloc_pages_ok(
                old(self).spec_alloc_main().state(),
                old(self).spec_alloc_32().state(),
                count,
            ),
        ensures
            final(self).wf(),
            final(self).spec_initialized(),
            (final(self).spec_alloc_main().state(), final(self).spec_alloc_32().state(), r)
                == pair_alloc_pages(
                old(self).spec_alloc_main().state(),
                old(self).spec_alloc_32().state(),
                count,
            ),
    {
        if let Some(page) = self.alloc_main.alloc_pages(count) {
            return Some(page);
        }
        self.alloc_32.alloc_pages(count)
    }

    /// Gives back `count` pages to whichever allocator they belong to; one of them must take
    /// them.
    pub fn dealloc_pages(&mut self, addr: usize, count: usize)
        requires
            old(self).wf(),
            old(self).spec_initialized(),
            pair_dealloc_pages_ok(
                old(self).spec_alloc_main().state(),
                old(self).spec_alloc_32().state(),
                addr,
                count,
            ),
        ensures
            final(self).wf(),
            final(self).spec_initialized(),
            (final(self).spec_alloc_main().state(), final(self).spec_alloc_32().state())
                == pair_dealloc_pages(
                old(self).spec_alloc_main().state(),
                old(self).spec_alloc_32().state(),
                addr,
                count,
            ),
    {
        if self.alloc_main.dealloc_pages(addr, count) {
            return;
        }
        let taken = self.alloc_32.dealloc_pages(addr, count);
        assert(taken);
    }
}

/// The kind of a block of the boot memory map.
#[derive(Debug, Copy, Clone, PartialEq, Eq, Structural)]
pub enum EntryType {
    Usable,
    Reserved,
    AcpiReclaimable,
    AcpiNvs,
    BadMemory,
    BootloaderReclaimable,
    ExecutableAndModules,
    Framebuffer,
}

/// A block of the boot memory map.
#[derive(Debug, Copy, Clone)]
pub struct MemoryMapEntry {
    pub base: u64,
    pub length: u64,
    pub entry_type: EntryType,
}

/// The address of the first byte after a block.
pub open spec fn entry_end(e: MemoryMapEntry) -> int {
    e.base + e.length
}

/// Whether a block of this kind counts towards the end of memory: all but reserved and bad
/// memory do.
pub open spec fn counts_for_end(t: EntryType) -> bool {
    !(t == EntryType::Reserved || t == EntryType::BadMemory)
}

/// The end of the last block that counts towards the end of memory; 0 when there is none.
pub open spec fn memory_end_of(es: Seq<MemoryMapEntry>) -> int
    decreases es.len(),
{
    if es.len() == 0 {
        0
    } else {
        let m = memory_end_of(es.drop_last());
        let e = es.last();
        if counts_for_end(e.entry_type) && entry_end(e) > m {
            entry_end(e)
        } else {
            m
        }
    }
}

/// Reserved and bad blocks never raise the end of memory: adding one to a map leaves the end
/// where it was. Any other block raises it to its own end when that lies higher.
pub proof fn lemma_memory_end_blocks(es: Seq<MemoryMapEntry>, e: MemoryMapEntry)
    ensures
        e.entry_type == EntryType::Reserved || e.entry_type == EntryType::BadMemory ==> memory_end_of(
            es.push(e),
        ) == memory_end_of(es),
        !(e.entry_type == EntryType::Reserved || e.entry_type == EntryType::BadMemory) ==> memory_end_of(
            es.push(e),
        ) == if e.base + e.length > memory_end_of(es) {
            e.base + e.length
        } else {
            memory_end_of(es)
        },
{
    assert(es.push(e).drop_last() =~= es);
}

/// The first of the largest usable blocks, when some usable block is not empty.
pub open spec fn largest_usable(es: Seq<MemoryMapEntry>) -> Option<int>
    decreases es.len(),
{
    if es.len() == 0 {
        None
    } else {
        let prev = largest_usable(es.drop_last());
        let i = es.len() - 1;
        let best: int = match prev {
            Some(j) => es[j].length as int,
            None => 0,
        };
        if es[i].entry_type == EntryType::Usable && es[i].length > best {
            Some(i)
        } else {
            prev
        }
    }
}

/// The number of blocks that hold the kernel.
pub open spec fn kernel_count(es: Seq<MemoryMapEntry>) -> nat
    decreases es.len(),
{
    if es.len() == 0 {
        0
    } else {
        kernel_count(es.drop_last()) + if es.last().entry_type == EntryType::ExecutableAndModules {
            1nat
        } else {
            0nat
        }
    }
}

/// The last block that holds the kernel, when there is one.
pub open spec fn kernel_index(es: Seq<MemoryMapEntry>) -> Option<int>
    decreases es.len(),
{
    if es.len() == 0 {
        None
    } else if es.last().entry_type == EntryType::ExecutableAndModules {
        Some(es.len() - 1)
    } else {
        kernel_index(es.drop_last())
    }
}

/// What a pass over the boot memory map finds.
pub struct MemoryScan {
    /// The end of the last block that counts towards the end of memory.
    pub memory_end: usize,
    /// The first of the largest usable blocks.
    pub largest: Option<usize>,
    /// The last block that holds the kernel.
    pub kernel: Option<usize>,
    /// The number of blocks that hold the kernel.
    pub kernel_count: usize,
}

proof fn lemma_scan_bounds(es: Seq<MemoryMapEntry>)
    requires
        forall|i: int| 0 <= i < es.len() ==> entry_end(#[trigger] es[i]) <= usize::MAX,
    ensures
        0 <= memory_end_of(es) <= usize::MAX,
        kernel_count(es) <= es.len(),
        largest_usable(es) matches Some(j) ==> 0 <= j < es.len() && es[j].entry_type
            == EntryType::Usable && es[j].length > 0,
        kernel_index(es) matches Some(j) ==> 0 <= j < es.len() && es[j].entry_type
            == EntryType::ExecutableAndModules,
        kernel_index(es) is None <==> kernel_count(es) == 0,
    decreases es.len(),
{
    if es.len() > 0 {
        let d = es.drop_last();
        assert forall|i: int| 0 <= i < d.len() implies entry_end(#[trigger] d[i]) <= usize::MAX by {
            assert(d[i] == es[i]);
        }
        lemma_scan_bounds(d);
        if let Some(j) = largest_usable(d) {
            assert(d[j] == es[j]);
        }
        if let Some(j) = kernel_index(d) {
            assert(d[j] == es[j]);
        }
    }
}

/// The end of memory is no later than a bound on the end of every block.
proof fn lemma_memory_end_bound(es: Seq<MemoryMapEntry>, bound: int)
    requires
        bound >= 0,
        forall|i: int| 0 <= i < es.len() ==> entry_end(#[trigger] es[i]) <= bound,
    ensures
        memory_end_of(es) <= bound,
    decreases es.len(),
{
    if es.len() > 0 {
        let d = es.drop_last();
        assert forall|i: int| 0 <= i < d.len() implies entry_end(#[trigger] d[i]) <= bound by {
            assert(d[i] == es[i]);
        }
        lemma_memory_end_bound(d, bound);
        assert(entry_end(es[es.len() - 1]) <= bound);
    }
}

/// One pass over the boot memory map: the end of memory, the largest usable block and the
/// block that holds the kernel.
pub fn scan_memory_map(entries: &Vec<MemoryMapEntry>) -> (r: MemoryScan)
    requires
        forall|i: int| 0 <= i < entries@.len() ==> entry_end(#[trigger] entries@[i]) + 0x20_0000 <= usize::MAX,
    ensures
        r.memory_end == memory_end_of(entries@),
        r.largest == match largest_usable(entries@) {
            Some(j) => Some(j as usize),
            None => None::<usize>,
        },
        r.kernel == match kernel_index(entries@) {
            Some(j) => Some(j as usize),
            None => None::<usize>,
        },
        r.kernel_count == kernel_count(entries@),
{
    let mut memory_end: usize = 0;
    let mut largest: Option<usize> = None;
    let mut best: u64 = 0;
    let mut kernel: Option<usize> = None;
    let mut count: usize = 0;
    let mut i: usize = 0;
    while i < entries.len()
        invariant
            i <= entries@.len(),
            forall|k: int| 0 <= k < entries@.len() ==> entry_end(#[trigger] entries@[k]) <= usize::MAX,
            memory_end == memory_end_of(entries@.take(i as int)),
            largest == match largest_usable(entries@.take(i as int)) {
                Some(j) => Some(j as usize),
                None => None::<usize>,
            },
            best == match largest_usable(entries@.take(i as int)) {
                Some(j) => entries@[j].length,
                None => 0u64,
            },
            kernel == match kernel_index(entries@.take(i as int)) {
                Some(j) => Some(j as usize),
                None => None::<usize>,
            },
            count == kernel_count(entries@.take(i as int)),
            count <= i,
        decreases entries@.len() - i,
    {
        let e = entries[i];
        let ghost pre = entries@.take(i as int);
        let ghost next = entries@.take(i + 1);
        proof {
            assert(next.drop_last() =~= pre);
            assert(next.last() == e);
            assert forall|k: int| 0 <= k < pre.len() implies entry_end(#[trigger] pre[k]) <= usize::MAX by {
                assert(pre[k] == entries@[k]);
            }
            lemma_scan_bounds(pre);
            if let Some(j) = largest_usable(pre) {
                assert(pre[j] == entries@[j]);
                assert(next[j] == entries@[j]);
            }
            assert(entry_end(entries@[i as int]) <= usize::MAX);
        }
        if e.entry_type != EntryType::Reserved && e.entry_type != EntryType::BadMemory {
            let end = (e.base + e.length) as usize;
            if end > memory_end {
                memory_end = end;
            }
        }
        if e.entry_type == EntryType::Usable {
            if e.length > best {
                largest = Some(i);
                best = e.length;
            }
        }
        if e.entry_type == EntryType::ExecutableAndModules {
            kernel = Some(i);
            count = count + 1;
        }
        i = i + 1;
    }
    proof {
        assert(entries@.take(i as int) =~= entries@);
    }
    MemoryScan { memory_end, largest, kernel, kernel_count: count }
}

/// The entries `s` with the positions `i..i + k` holding the first `k` of `cur`.
pub open spec fn written(s: Seq<MapEntry>, i: int, cur: Seq<MapEntry>, k: int) -> Seq<MapEntry> {
    Seq::new(s.len(), |j: int| if i <= j < i + k { cur[j - i] } else { s[j] })
}

/// The pages after a page-aligned address `a`, while they stay in the same last-level
/// table, have the same table indices but the last, which counts on.
proof fn lemma_index_step(a: int, k: int)
    requires
        a >= 0,
        a % 4096 == 0,
        k >= 0,
        map::index_at(a, 1) + k < 512,
    ensures
        map::index_at(a + k * 4096, 1) == map::index_at(a, 1) + k,
        map::index_at(a + k * 4096, 2) == map::index_at(a, 2),
        map::index_at(a + k * 4096, 3) == map::index_at(a, 3),
        map::index_at(a + k * 4096, 4) == map::index_at(a, 4),
{
    let x = a + k * 4096;
    let b = a / 4096;
    assert(a == 4096 * b);
    let q = b / 512;
    let i1 = b % 512;
    assert(b == 512 * q + i1);
    assert(i1 == map::index_at(a, 1));
    lemma_fundamental_div_mod_converse(x, 4096, b + k, 0);
    lemma_fundamental_div_mod_converse(b + k, 512, q, i1 + k);
    lemma_fundamental_div_mod_converse(x, 0x20_0000, q, 4096 * (i1 + k));
    lemma_fundamental_div_mod_converse(a, 0x20_0000, q, 4096 * i1);
    let q2 = q / 512;
    let r2 = q % 512;
    assert(q == 512 * q2 + r2);
    lemma_fundamental_div_mod_converse(x, 0x4000_0000, q2, 0x20_0000 * r2 + 4096 * (i1 + k));
    lemma_fundamental_div_mod_converse(a, 0x4000_0000, q2, 0x20_0000 * r2 + 4096 * i1);
    let q3 = q2 / 512;
    let r3 = q2 % 512;
    assert(q2 == 512 * q3 + r3);
    lemma_fundamental_div_mod_converse(
        x,
        0x80_0000_0000,
        q3,
        0x4000_0000 * r3 + 0x20_0000 * r2 + 4096 * (i1 + k),
    );
    lemma_fundamental_div_mod_converse(a, 0x80_0000_0000, q3, 0x4000_0000 * r3 + 0x20_0000 * r2 + 4096 * i1);
}

/// The pages from the first slot of the next last-level table on, after a page-aligned
/// address `a` whose table is not the last below its upper table, have the next index one
/// level up and count on from 0 in the last level.
proof fn lemma_cross_step(a: int, k: int)
    requires
        a >= 0,
        a % 4096 == 0,
        0 <= k < 512,
        map::index_at(a, 2) < 511,
    ensures
        map::index_at(a + (512 - map::index_at(a, 1) + k) * 4096, 1) == k,
        map::index_at(a + (512 - map::index_at(a, 1) + k) * 4096, 2) == map::index_at(a, 2) + 1,
        map::index_at(a + (512 - map::index_at(a, 1) + k) * 4096, 3) == map::index_at(a, 3),
        map::index_at(a + (512 - map::index_at(a, 1) + k) * 4096, 4) == map::index_at(a, 4),
{
    let b = a / 4096;
    assert(a == 4096 * b);
    let q = b / 512;
    let i1 = b % 512;
    assert(b == 512 * q + i1);
    assert(i1 == map::index_at(a, 1));
    let x = a + (512 - i1 + k) * 4096;
    assert(x == 4096 * (512 * (q + 1) + k));
    lemma_fundamental_div_mod_converse(x, 4096, 512 * (q + 1) + k, 0);
    lemma_fundamental_div_mod_converse(512 * (q + 1) + k, 512, q + 1, k);
    lemma_fundamental_div_mod_converse(x, 0x20_0000, q + 1, 4096 * k);
    lemma_fundamental_div_mod_converse(a, 0x20_0000, q, 4096 * i1);
    let q2 = q / 512;
    let r2 = q % 512;
    assert(q == 512 * q2 + r2);
    assert(r2 == map::index_at(a, 2));
    lemma_fundamental_div_mod_converse(q + 1, 512, q2, r2 + 1);
    lemma_fundamental_div_mod_converse(x, 0x4000_0000, q2, 0x20_0000 * (r2 + 1) + 4096 * k);
    lemma_fundamental_div_mod_converse(a, 0x4000_0000, q2, 0x20_0000 * r2 + 4096 * i1);
    let q3 = q2 / 512;
    let r3 = q2 % 512;
    assert(q2 == 512 * q3 + r3);
    lemma_fundamental_div_mod_converse(
        x,
        0x80_0000_0000,
        q3,
        0x4000_0000 * r3 + 0x20_0000 * (r2 + 1) + 4096 * k,
    );
    lemma_fundamental_div_mod_converse(a, 0x80_0000_0000, q3, 0x4000_0000 * r3 + 0x20_0000 * r2 + 4096 * i1);
}

/// The entries `s` with the positions `i..i + k` holding the entries of the direct map for
/// the large pages `0..k`.
pub open spec fn written_hhdm(s: Seq<MapEntry>, i: int, k: int) -> Seq<MapEntry> {
    Seq::new(s.len(), |j: int| if i <= j < i + k { MapEntry(hhdm_entry((j - i) as usize)) } else { s[j] })
}

/// The large pages after an address `a`, while they stay in the same table, have the same
/// table indices but the last, which counts on.
proof fn lemma_large_index_step(a: int, k: int)
    requires
        a >= 0,
        k >= 0,
        map::index_at(a, 2) + k < 512,
    ensures
        map::index_at(a + k * 0x20_0000, 2) == map::index_at(a, 2) + k,
        map::index_at(a + k * 0x20_0000, 3) == map::index_at(a, 3),
        map::index_at(a + k * 0x20_0000, 4) == map::index_at(a, 4),
{
    let x = a + k * 0x20_0000;
    let b = a / 0x20_0000;
    let r = a % 0x20_0000;
    assert(a == 0x20_0000 * b + r);
    let q = b / 512;
    let i2 = b % 512;
    assert(b == 512 * q + i2);
    lemma_fundamental_div_mod_converse(x, 0x20_0000, b + k, r);
    lemma_fundamental_div_mod_converse(b + k, 512, q, i2 + k);
    lemma_fundamental_div_mod_converse(x, 0x4000_0000, q, 0x20_0000 * (i2 + k) + r);
    lemma_fundamental_div_mod_converse(a, 0x4000_0000, q, 0x20_0000 * i2 + r);
    let q2 = q / 512;
    let r2 = q % 512;
    assert(q == 512 * q2 + r2);
    lemma_fundamental_div_mod_converse(x, 0x80_0000_0000, q2, 0x4000_0000 * r2 + 0x20_0000 * (i2 + k) + r);
    lemma_fundamental_div_mod_converse(a, 0x80_0000_0000, q2, 0x4000_0000 * r2 + 0x20_0000 * i2 + r);
}

/// The run of page slots at `a`, in its last-level table, ends at the last slot of the
/// whole top-level table: there is no page after it.
pub open spec fn last_table(a: int) -> bool {
    index_at(a, 2) == 511 && index_at(a, 3) == 511 && index_at(a, 4) == 511
}

/// The tables after the entries `cur` are written to the slots of the pages from `a` on,
/// below the top-level table at `root`, and the number of new tables this takes; `None` when
/// a table on the way cannot be had. The pages go one last-level table at a time: the way
/// down to the first page in that table is made first (as `path_fill` makes it, new tables
/// coming from the physical address `next` on, with `pages` pages for them), then the
/// entries go into its slots. When the entries fill a table up to its last slot, the way
/// down to the page after it is made too, unless that table was the last of all, and then
/// no entry may be left.
#[verifier::opaque]
pub open spec fn run_map(
    v: Map<usize, Seq<MapEntry>>,
    root: usize,
    a: int,
    cur: Seq<MapEntry>,
    next: int,
    pages: int,
) -> Option<(Map<usize, Seq<MapEntry>>, int)>
    decreases cur.len(),
{
    let ind = indices_of(a);
    let i1 = index_at(a, 1);
    let n = if cur.len() < 512 - i1 {
        cur.len() as int
    } else {
        512 - i1
    };
    if !map::chain_can(v, root, ind, 0, 3, seq![root], pages) {
        None
    } else {
        let pf = map::path_fill(v, root, ind, 0, 3, next);
        let kp = map::path_pages(v, root, ind, 0, 3);
        let leaf = (map::walk(pf, root, a)->0).0;
        let v2 = pf.insert(leaf, written(pf[leaf], i1, cur, n));
        if n < 512 - i1 || last_table(a) {
            if n == cur.len() {
                Some((v2, kp))
            } else {
                None
            }
        } else if 0 <= i1 < 512 && n >= 1 {
            match run_map(v2, root, a + n * 4096, cur.skip(n), next + 4096 * kp, pages - kp) {
                Some((v3, k3)) => Some((v3, kp + k3)),
                None => None,
            }
        } else {
            None
        }
    }
}

/// What `run_map` gives after the first last-level table: nothing when the way down to `a`
/// cannot be made; else the tables and the count of new tables, when the entries end in that
/// table, or what the rest of the entries give from the page after it on.
proof fn lemma_run_step(
    v: Map<usize, Seq<MapEntry>>,
    root: usize,
    a: int,
    cur: Seq<MapEntry>,
    next: int,
    pages: int,
)
    requires
        a >= 0,
    ensures
        ({
            let ind = indices_of(a);
            let i1 = index_at(a, 1);
            let n = if cur.len() < 512 - i1 {
                cur.len() as int
            } else {
                512 - i1
            };
            let pf = map::path_fill(v, root, ind, 0, 3, next);
            let kp = map::path_pages(v, root, ind, 0, 3);
            let leaf = (map::walk(pf, root, a)->0).0;
            let v2 = pf.insert(leaf, written(pf[leaf], i1, cur, n));
            &&& 0 <= i1 < 512
            &&& !map::chain_can(v, root, ind, 0, 3, seq![root], pages) ==> run_map(v, root, a, cur, next, pages) is None
            &&& map::chain_can(v, root, ind, 0, 3, seq![root], pages) && (n < 512 - i1 || last_table(a))
                ==> run_map(v, root, a, cur, next, pages) == if n == cur.len() {
                Some((v2, kp))
            } else {
                None
            }
            &&& map::chain_can(v, root, ind, 0, 3, seq![root], pages) && !(n < 512 - i1 || last_table(a))
                ==> n >= 1 && run_map(v, root, a, cur, next, pages) == match run_map(
                v2,
                root,
                a + n * 4096,
                cur.skip(n),
                next + 4096 * kp,
                pages - kp,
            ) {
                Some((v3, k3)) => Some((v3, kp + k3)),
                None => None,
            }
        }),
{
    reveal_with_fuel(run_map, 1);
}

/// `run0` is what the pages from `a` on, with the entries `cur`, give on the tables `v`, with
/// `made` more new tables.
#[verifier::opaque]
spec fn run_tail(
    run0: Option<(Map<usize, Seq<MapEntry>>, int)>,
    v: Map<usize, Seq<MapEntry>>,
    root: usize,
    a: int,
    cur: Seq<MapEntry>,
    next: int,
    pages: int,
    made: int,
) -> bool {
    run0 == match run_map(v, root, a, cur, next, pages) {
        Some((w, kk)) => Some((w, kk + made)),
        None => None,
    }
}

/// One last-level table of a run, as `map_kernel` takes it.
proof fn lemma_run_tail_step(
    run0: Option<(Map<usize, Seq<MapEntry>>, int)>,
    v: Map<usize, Seq<MapEntry>>,
    root: usize,
    a: int,
    cur: Seq<MapEntry>,
    next: int,
    pages: int,
    made: int,
)
    requires
        a >= 0,
        run_tail(run0, v, root, a, cur, next, pages, made),
    ensures
        ({
            let ind = indices_of(a);
            let i1 = index_at(a, 1);
            let n = if cur.len() < 512 - i1 {
                cur.len() as int
            } else {
                512 - i1
            };
            let pf = map::path_fill(v, root, ind, 0, 3, next);
            let kp = map::path_pages(v, root, ind, 0, 3);
            let leaf = (map::walk(pf, root, a)->0).0;
            let v2 = pf.insert(leaf, written(pf[leaf], i1, cur, n));
            &&& !map::chain_can(v, root, ind, 0, 3, seq![root], pages) ==> run0 is None
            &&& map::chain_can(v, root, ind, 0, 3, seq![root], pages) && (n < 512 - i1 || last_table(a))
                ==> run0 == if n == cur.len() {
                Some((v2, kp + made))
            } else {
                None
            }
            &&& map::chain_can(v, root, ind, 0, 3, seq![root], pages) && !(n < 512 - i1 || last_table(a))
                ==> run_tail(run0, v2, root, a + n * 4096, cur.skip(n), next + 4096 * kp, pages - kp, made + kp)
        }),
{
    reveal(run_tail);
    lemma_run_step(v, root, a, cur, next, pages);
}

/// Makes the way down to the page at `a` below the top-level table at `root`, as `iterate`
/// does, then writes the entries `current[k..k + n]` to the slots of the pages from `a` on,
/// which all lie in the last-level table of `a`.
#[verifier::rlimit(60)]
#[verifier::spinoff_prover]
fn map_run(
    tables: &mut PageTables,
    root: usize,
    early: &mut EarlyAllocator,
    hhdm: &Hhdm,
    a: address::VirtAddrPageAligned,
    current: &Vec<MapEntry>,
    k: usize,
    n: usize,
    end: usize,
) -> (r: bool)
    requires
        k + n <= end <= current@.len(),
        index_at(a@ as int, 1) + n <= 512,
        old(tables).wf(),
        old(tables)@.dom().contains(root),
        early_ok(old(tables)@, *old(early), *hhdm),
    ensures
        final(tables).wf(),
        final(tables)@.dom().contains(root),
        early_ok(final(tables)@, *final(early), *hhdm),
        final(early).spec_start_length() == old(early).spec_start_length(),
        keeps_tables(old(tables)@, final(tables)@),
        ({
            let v = old(tables)@;
            let ind = indices_of(a@ as int);
            let i1 = index_at(a@ as int, 1);
            let pf = map::path_fill(v, root, ind, 0, 3, old(early).spec_memory() - hhdm.spec_offset());
            let kp = map::path_pages(v, root, ind, 0, 3);
            let leaf = (map::walk(pf, root, a@ as int)->0).0;
            &&& r == map::chain_can(v, root, ind, 0, 3, seq![root], (old(early).spec_length() / 4096) as int)
            &&& r ==> map::walk(pf, root, a@ as int) == Some((leaf, i1))
            &&& r ==> final(tables)@ == pf.insert(
                leaf,
                written(pf[leaf], i1, current@.subrange(k as int, end as int), n as int),
            )
            &&& r ==> final(early).spec_memory() == old(early).spec_memory() + 4096 * kp
            &&& r ==> final(early).spec_length() == old(early).spec_length() - 4096 * kp
            &&& r ==> forall|j: int|
                0 <= j < n ==> #[trigger] maps_page(final(tables)@, root, a@ + j * 4096, current@[k + j])
        }),
{
    let ghost cur = current@.subrange(k as int, end as int);
    let it = match tables.iterate(root, a, early, hhdm) {
        Some(it) => it,
        None => return false,
    };
    let ghost pf = tables@;
    let ghost maps = it.spec_maps();
    let ghost ind = it.spec_indices();
    let ghost i1 = index_at(a@ as int, 1);
    proof {
        use_type_invariant(a);
        assert(map::chain_ok(pf, maps, ind, 4));
        assert(maps[0int + 1] == maps[1] && maps[1int + 1] == maps[2] && maps[2int + 1] == maps[3]);
        assert(next_table(pf, maps[0], ind[0] as int) == Some(maps[1]));
        assert(next_table(pf, maps[1], ind[1] as int) == Some(maps[2]));
        assert(next_table(pf, maps[2], ind[2] as int) == Some(maps[3]));
        assert(map::walk(pf, root, a@ as int) == Some((maps[3], i1)));
        assert(pf.dom().contains(maps[3]));
        assert(pf[maps[3]].len() == 512);
        assert(written(pf[maps[3]], i1, cur, 0) =~= pf[maps[3]]);
        assert(pf.insert(maps[3], written(pf[maps[3]], i1, cur, 0)) =~= pf);
    }
    let (leaf, i1x) = match tables.at_addr(root, a) {
        Some(slot) => slot,
        None => return false,
    };
    let ghost e1 = *early;
    let mut j: usize = 0;
    while j < n
        invariant
            k + n <= end <= current@.len(),
            cur == current@.subrange(k as int, end as int),
            i1x == i1,
            leaf == maps[3],
            0 <= i1 < 512,
            i1 + n <= 512,
            j <= n,
            pf.dom().contains(leaf),
            pf[leaf].len() == 512,
            tables.wf(),
            tables@ == pf.insert(leaf, written(pf[leaf], i1, cur, j as int)),
            *early == e1,
        decreases n - j,
    {
        tables.set_entry(leaf, i1x + j, current[k + j]);
        proof {
            assert(written(pf[leaf], i1, cur, j as int).update(i1 + j, current@[k + j]) =~= written(
                pf[leaf],
                i1,
                cur,
                j + 1,
            ));
            assert(tables@ =~= pf.insert(leaf, written(pf[leaf], i1, cur, j + 1)));
        }
        j = j + 1;
    }
    proof {
        let t = tables@;
        assert(t.dom() =~= pf.dom());
        assert(map::below(t, early.spec_memory() - hhdm.spec_offset()));
        assert(maps[0] != leaf && maps[1] != leaf && maps[2] != leaf);
        assert forall|jj: int| 0 <= jj < n implies #[trigger] maps_page(t, root, a@ + jj * 4096, current@[k + jj]) by {
            lemma_index_step(a@ as int, jj);
            assert(next_table(t, maps[0], ind[0] as int) == Some(maps[1]));
            assert(next_table(t, maps[1], ind[1] as int) == Some(maps[2]));
            assert(next_table(t, maps[2], ind[2] as int) == Some(maps[3]));
            assert(t[leaf][i1 + jj] == cur[jj]);
        }
    }
    true
}

/// Maps `count` pages from `source` on below the top-level table at `root`, each to
/// the entry that `current` gives for it, one last-level table after the other as `run_map`
/// says. Lower tables are taken from `early`. `false` when the pages do not fit the address
/// space, a table could not be had, or the pages, once written, do not all map to their
/// entries (which only tables that point back into themselves can cause).
#[verifier::rlimit(100)]
#[verifier::spinoff_prover]
pub fn map_kernel(
    tables: &mut PageTables,
    root: usize,
    early: &mut EarlyAllocator,
    hhdm: &Hhdm,
    source: address::VirtAddrPageAligned,
    current: &Vec<MapEntry>,
    count: usize,
) -> (r: bool)
    requires
        count <= current@.len(),
        old(tables).wf(),
        old(tables)@.dom().contains(root),
        early_ok(old(tables)@, *old(early), *hhdm),
    ensures
        final(tables).wf(),
        early_ok(final(tables)@, *final(early), *hhdm),
        final(early).spec_start_length() == old(early).spec_start_length(),
        keeps_tables(old(tables)@, final(tables)@),
        r ==> source@ + count * 4096 <= usize::MAX,
        r ==> kernel_mapped(final(tables)@, root, source@ as int, current@, count as int),
        ({
            let run = run_map(
                old(tables)@,
                root,
                source@ as int,
                current@.subrange(0, count as int),
                old(early).spec_memory() - hhdm.spec_offset(),
                (old(early).spec_length() / 4096) as int,
            );
            &&& r == (source@ + count * 4096 <= usize::MAX && run is Some && kernel_mapped(
                (run->0).0,
                root,
                source@ as int,
                current@,
                count as int,
            ))
            &&& r ==> final(tables)@ == (run->0).0
            &&& r ==> final(early).spec_memory() == old(early).spec_memory() + 4096 * (run->0).1
            &&& r ==> final(early).spec_length() == old(early).spec_length() - 4096 * (run->0).1
        }),
        index_at(source@ as int, 1) + count < 512 ==> r == (source@ + count * 4096 <= usize::MAX
            && map::chain_can(
            old(tables)@,
            root,
            indices_of(source@ as int),
            0,
            3,
            seq![root],
            (old(early).spec_length() / 4096) as int,
        )),
        index_at(source@ as int, 1) + count < 512 && r ==> {
            let ind = indices_of(source@ as int);
            let pf = map::path_fill(old(tables)@, root, ind, 0, 3, old(early).spec_memory() - hhdm.spec_offset());
            let k = map::path_pages(old(tables)@, root, ind, 0, 3);
            let leaf = (map::walk(pf, root, source@ as int)->0).0;
            &&& map::walk(pf, root, source@ as int) is Some
            &&& (map::walk(pf, root, source@ as int)->0).1 == index_at(source@ as int, 1)
            &&& final(tables)@ == pf.insert(leaf, written(pf[leaf], index_at(source@ as int, 1), current@, count as int))
            &&& final(early).spec_memory() == old(early).spec_memory() + 4096 * k
            &&& final(early).spec_length() == old(early).spec_length() - 4096 * k
        },
{
    if count > (usize::MAX - source.addr()) / 4096 {
        proof {
            assert(source@ + count * 4096 > usize::MAX) by (nonlinear_arith)
                requires
                    count > (usize::MAX - source@) / 4096,
            ;
        }
        return false;
    }
    proof {
        assert(count * 4096 <= usize::MAX - source@) by (nonlinear_arith)
            requires
                count <= (usize::MAX - source@) / 4096,
        ;
    }
    let ghost v0 = tables@;
    let ghost e0 = *early;
    let ghost off = hhdm.spec_offset() as int;
    let ghost all = current@.subrange(0, count as int);
    let ghost run0 = run_map(v0, root, source@ as int, all, e0.spec_memory() - off, (e0.spec_length() / 4096) as int);
    let ghost nc = index_at(source@ as int, 1) + count < 512;
    let ghost ind0 = indices_of(source@ as int);
    let ghost pf0 = map::path_fill(v0, root, ind0, 0, 3, e0.spec_memory() - off);
    let ghost kp0 = map::path_pages(v0, root, ind0, 0, 3);
    let ghost leaf0 = (map::walk(pf0, root, source@ as int)->0).0;
    let ghost i10 = index_at(source@ as int, 1);
    let ghost mut made: int = 0;
    proof {
        use_type_invariant(source);
        reveal(run_tail);
        assert(current@.subrange(0, count as int) == all);
        lemma_run_tail_step(run0, v0, root, source@ as int, all, e0.spec_memory() - off, (e0.spec_length() / 4096) as int, 0);
    }
    let i10x = map::MemoryMap::get_index(source, 1);
    let room0 = 512 - i10x;
    let n0 = if count < room0 {
        count
    } else {
        room0
    };
    if !map_run(tables, root, early, hhdm, source, current, 0, n0, count) {
        return false;
    }
    let ghost t1 = tables@;
    proof {
        assert((e0.spec_length() - 4096 * kp0) / 4096 == e0.spec_length() / 4096 - kp0) by {
            let len: int = e0.spec_length() as int;
            lemma_fundamental_div_mod_converse(len - 4096 * kp0, 4096, len / 4096 - kp0, len % 4096);
        }
        made = kp0;
        if nc {
            assert(n0 == count);
            assert(written(pf0[leaf0], i10, all, count as int) =~= written(pf0[leaf0], i10, current@, count as int));
            assert forall|j: int| 0 <= j < count implies #[trigger] maps_page(t1, root, source@ + j * 4096, current@[j]) by {
                assert(maps_page(t1, root, source@ + j * 4096, current@[0 + j]));
            }
        }
    }
    let mut a = source;
    let mut k: usize = n0;
    let mut more = true;
    if n0 < room0 {
        more = false;
    } else if map::MemoryMap::get_index(source, 2) == 511 && map::MemoryMap::get_index(source, 3) == 511
        && map::MemoryMap::get_index(source, 4) == 511 {
        if k < count {
            return false;
        }
        more = false;
    } else {
        proof {
            assert(all.skip(n0 as int) =~= current@.subrange(k as int, count as int));
        }
        a = a.add_pages(address::PageCount::new(n0));
    }
    while more
        invariant
            count <= current@.len(),
            v0 == old(tables)@,
            e0 == *old(early),
            tables.wf(),
            tables@.dom().contains(root),
            early_ok(tables@, *early, *hhdm),
            early.spec_start_length() == e0.spec_start_length(),
            keeps_tables(v0, tables@),
            off == hhdm.spec_offset(),
            k <= count,
            more ==> a@ == source@ + k * 4096,
            source@ + count * 4096 <= usize::MAX,
            early.spec_memory() == e0.spec_memory() + 4096 * made,
            early.spec_length() == e0.spec_length() - 4096 * made,
            run0 == run_map(v0, root, source@ as int, all, e0.spec_memory() - off, (e0.spec_length() / 4096) as int),
            more ==> run_tail(
                run0,
                tables@,
                root,
                a@ as int,
                current@.subrange(k as int, count as int),
                early.spec_memory() - off,
                (early.spec_length() / 4096) as int,
                made,
            ),
            !more ==> k == count && run0 == Some((tables@, made)),
            nc ==> !more && tables@ == t1 && made == kp0,
            nc == (index_at(source@ as int, 1) + count < 512),
            all == current@.subrange(0, count as int),
        decreases count - k + if more {
            1int
        } else {
            0int
        },
    {
        let ghost v1 = tables@;
        let ghost e1 = *early;
        let ghost cur = current@.subrange(k as int, count as int);
        let ghost made1 = made;
        let i1 = map::MemoryMap::get_index(a, 1);
        let room = 512 - i1;
        let n = if count - k < room {
            count - k
        } else {
            room
        };
        let ghost ind = indices_of(a@ as int);
        let ghost next1 = e1.spec_memory() - off;
        let ghost pages1 = (e1.spec_length() / 4096) as int;
        let ghost pf = map::path_fill(v1, root, ind, 0, 3, next1);
        let ghost kp = map::path_pages(v1, root, ind, 0, 3);
        let ghost leaf = (map::walk(pf, root, a@ as int)->0).0;
        let ghost v2 = pf.insert(leaf, written(pf[leaf], i1 as int, cur, n as int));
        proof {
            use_type_invariant(a);
            lemma_run_tail_step(run0, v1, root, a@ as int, cur, next1, pages1, made1);
        }
        if !map_run(tables, root, early, hhdm, a, current, k, n, count) {
            proof {
                assert(run0 is None);
            }
            return false;
        }
        proof {
            assert(tables@ == v2);
            assert((e1.spec_length() - 4096 * kp) / 4096 == pages1 - kp) by {
                let len: int = e1.spec_length() as int;
                lemma_fundamental_div_mod_converse(len - 4096 * kp, 4096, len / 4096 - kp, len % 4096);
            }
            made = made + kp;
        }
        k = k + n;
        if n < room {
            proof {
                assert(run0 == Some((v2, kp + made1)));
            }
            more = false;
        } else if map::MemoryMap::get_index(a, 2) == 511 && map::MemoryMap::get_index(a, 3) == 511
            && map::MemoryMap::get_index(a, 4) == 511 {
            if k < count {
                proof {
                    assert(run0 is None);
                }
                return false;
            }
            proof {
                assert(run0 == Some((v2, kp + made1)));
            }
            more = false;
        } else {
            proof {
                assert(run_tail(run0, v2, root, a@ + n * 4096, cur.skip(n as int), next1 + 4096 * kp, pages1 - kp, made1 + kp));
                assert(cur.skip(n as int) =~= current@.subrange(k as int, count as int));
            }
            a = a.add_pages(address::PageCount::new(n));
        }
    }
    let ok = check_kernel_mapped(tables, root, source, current, count);
    ok
}

/// The present entry that maps a page to the physical address `addr`, with the flag bits of
/// `flags`.
pub open spec fn page_entry(addr: int, flags: u64) -> MapEntry {
    MapEntry(((addr as u64 & map::MASK_ADDR) | (flags & map::MASK_FLAGS)) | map::FLAG_PRESENT)
}

/// The entries that map page `i` of a run, for each `i < flags.len()`, to the physical page
/// `i` pages after `phys`, with the flags `flags[i]`.
pub open spec fn flag_entries(phys: int, flags: Seq<u64>) -> Seq<MapEntry> {
    Seq::new(flags.len(), |i: int| page_entry(phys + i * 4096, flags[i]))
}

/// The entries of `flag_entries`.
fn make_entries(phys: address::PhysAddrPageAligned, flags: &Vec<u64>) -> (r: Vec<MapEntry>)
    requires
        phys@ + flags@.len() * 4096 <= usize::MAX,
    ensures
        r@ == flag_entries(phys@ as int, flags@),
{
    let mut out: Vec<MapEntry> = Vec::new();
    let mut i: usize = 0;
    while i < flags.len()
        invariant
            i <= flags@.len(),
            phys@ + flags@.len() * 4096 <= usize::MAX,
            out@ == flag_entries(phys@ as int, flags@).take(i as int),
        decreases flags@.len() - i,
    {
        proof {
            assert(i * 4096 <= flags@.len() * 4096) by (nonlinear_arith)
                requires
                    i <= flags@.len(),
            ;
        }
        let addr = phys.add_pages(address::PageCount::new(i));
        let e = MapEntry::new_with_flags(addr.addr(), flags[i]).present();
        out.push(e);
        proof {
            assert(out@ =~= flag_entries(phys@ as int, flags@).take(i + 1));
        }
        i = i + 1;
    }
    proof {
        assert(out@ =~= flag_entries(phys@ as int, flags@));
    }
    out
}

/// The entry of the direct map for large page `i`: present, writable and large, at `i`
/// large pages.
pub open spec fn hhdm_entry(i: usize) -> u64 {
    (((i << 21usize) as u64 & map::MASK_ADDR) | (0u64 & map::MASK_FLAGS)) | map::FLAG_PRESENT
        | map::FLAG_WRITE | map::FLAG_LARGE
}

/// Maps `large_page_count` large pages from the virtual address `offset` on below the
/// top-level table at `root` to the physical memory from 0 on. Lower tables are taken from
/// `early`. `false` when a table could not be had or the slots ran out.
pub fn map_hhdm(
    tables: &mut PageTables,
    root: usize,
    early: &mut EarlyAllocator,
    hhdm: &Hhdm,
    offset: usize,
    large_page_count: usize,
) -> (r: bool)
    requires
        old(tables).wf(),
        old(tables)@.dom().contains(root),
        early_ok(old(tables)@, *old(early), *hhdm),
        offset % 4096 == 0,
    ensures
        final(tables).wf(),
        early_ok(final(tables)@, *final(early), *hhdm),
        final(early).spec_start_length() == old(early).spec_start_length(),
        keeps_tables(old(tables)@, final(tables)@),
        r ==> offset + large_page_count * 0x20_0000 <= usize::MAX + 0x20_0000,
        r ==> hhdm_mapped(final(tables)@, root, offset as int, large_page_count as int),
        index_at(offset as int, 2) + large_page_count < 512 ==> r == (offset + large_page_count
            * 0x20_0000 <= usize::MAX + 0x20_0000 && map::chain_can(
            old(tables)@,
            root,
            seq![
                index_at(offset as int, 4) as usize,
                index_at(offset as int, 3) as usize,
                index_at(offset as int, 2) as usize,
                index_at(offset as int, 1) as usize,
            ],
            0,
            2,
            seq![root],
            (old(early).spec_length() / 4096) as int,
        )),
        index_at(offset as int, 2) + large_page_count < 512 && r ==> {
            let ind = seq![
                index_at(offset as int, 4) as usize,
                index_at(offset as int, 3) as usize,
                index_at(offset as int, 2) as usize,
                index_at(offset as int, 1) as usize,
            ];
            let pf = map::path_fill(old(tables)@, root, ind, 0, 2, old(early).spec_memory() - hhdm.spec_offset());
            let k = map::path_pages(old(tables)@, root, ind, 0, 2);
            let leaf = (map::walk_large(pf, root, offset as int)->0).0;
            &&& map::walk_large(pf, root, offset as int) is Some
            &&& (map::walk_large(pf, root, offset as int)->0).1 == index_at(offset as int, 2)
            &&& final(tables)@ == pf.insert(leaf, written_hhdm(pf[leaf], index_at(offset as int, 2), large_page_count as int))
            &&& final(early).spec_memory() == old(early).spec_memory() + 4096 * k
            &&& final(early).spec_length() == old(early).spec_length() - 4096 * k
        },
{
    if large_page_count > (usize::MAX - offset) / 0x20_0000 + 1 {
        proof {
            assert(offset + large_page_count * 0x20_0000 > usize::MAX + 0x20_0000) by (nonlinear_arith)
                requires
                    large_page_count > (usize::MAX - offset) / 0x20_0000 + 1,
                    offset <= usize::MAX,
            ;
        }
        return false;
    }
    proof {
        assert(offset + large_page_count * 0x20_0000 <= usize::MAX + 0x20_0000) by (nonlinear_arith)
            requires
                large_page_count <= (usize::MAX - offset) / 0x20_0000 + 1,
                offset <= usize::MAX,
        ;
    }
    let ghost v0 = tables@;
    let start = address::VirtAddrPageAligned::new_unchecked(offset);
    let mut it = match tables.iterate_3(root, start, early, hhdm) {
        Some(it) => it,
        None => return false,
    };
    let ghost i2 = index_at(offset as int, 2);
    let ghost nc = i2 + large_page_count < 512;
    let ghost v_it = tables@;
    let ghost e_it = *early;
    let ghost maps_it = it.spec_maps();
    let ghost ind_it = it.spec_indices();
    let ghost leaf = maps_it[2];
    proof {
        assert(v_it.dom().contains(leaf));
        assert(v_it[leaf].len() == 512);
        assert(written_hhdm(v_it[leaf], i2, 0) =~= v_it[leaf]);
        assert(v_it.insert(leaf, written_hhdm(v_it[leaf], i2, 0)) =~= v_it);
    }
    let mut i: usize = 0;
    while i < large_page_count
        invariant
            tables.wf(),
            early_ok(tables@, *early, *hhdm),
            early.spec_start_length() == old(early).spec_start_length(),
            keeps_tables(v0, tables@),
            v0 == old(tables)@,
            it.wf(tables@),
            i <= large_page_count,
            it.spec_maps()[0] == root,
            nc == (i2 + large_page_count < 512),
            i2 == index_at(offset as int, 2),
            ind_it == seq![
                index_at(offset as int, 4) as usize,
                index_at(offset as int, 3) as usize,
                index_at(offset as int, 2) as usize,
            ],
            leaf == maps_it[2],
            v_it.dom().contains(leaf),
            v_it[leaf].len() == 512,
            0 <= i2 < 512,
            nc ==> {
                &&& it.spec_has()
                &&& it.spec_maps() == maps_it
                &&& it.spec_indices() == ind_it.update(2, (i2 + i) as usize)
                &&& tables@ == v_it.insert(leaf, written_hhdm(v_it[leaf], i2, i as int))
                &&& *early == e_it
            },
        decreases large_page_count - i,
    {
        if !it.has() {
            return false;
        }
        let addr = i << address::LARGE_PAGE_SHIFT;
        let entry = MapEntry::new_with_flags(addr, 0).present().write().large();
        let ghost v1 = tables@;
        let ok = it.write_next(tables, early, hhdm, entry);
        if !ok {
            return false;
        }
        proof {
            if nc {
                assert(entry == MapEntry(hhdm_entry(i)));
                assert(0 <= i2 + i < 512);
                assert(written_hhdm(v_it[leaf], i2, i as int).update(i2 + i, entry) =~= written_hhdm(
                    v_it[leaf],
                    i2,
                    i + 1,
                ));
                assert(it.spec_indices() =~= ind_it.update(2, (i2 + i + 1) as usize));
                assert(tables@ =~= v_it.insert(leaf, written_hhdm(v_it[leaf], i2, i + 1)));
            }
        }
        i = i + 1;
    }
    proof {
        assert(tables@.dom().contains(root));
        if nc {
            let t = tables@;
            assert forall|j: int| 0 <= j < large_page_count implies #[trigger] maps_large_page(
                t,
                root,
                offset + j * 0x20_0000,
                MapEntry(hhdm_entry(j as usize)),
            ) by {
                lemma_large_index_step(offset as int, j);
                let ind = it.spec_indices();
                assert(map::chain_ok(t, maps_it, ind, 3));
                assert(maps_it[0int + 1] == maps_it[1] && maps_it[1int + 1] == maps_it[2]);
                assert(ind[0] == ind_it[0] && ind[1] == ind_it[1]);
                assert(next_table(t, maps_it[0], ind[0] as int) == Some(maps_it[1]));
                assert(next_table(t, maps_it[1], ind[1] as int) == Some(maps_it[2]));
                assert(t[leaf][i2 + j] == MapEntry(hhdm_entry(j as usize)));
            }
            lemma_large_index_step(offset as int, 0);
            assert(map::walk_large(v_it, root, offset as int) == Some((leaf, i2))) by {
                let ind = ind_it;
                assert(map::chain_ok(v_it, maps_it, ind, 3));
                assert(maps_it[0int + 1] == maps_it[1] && maps_it[1int + 1] == maps_it[2]);
                assert(next_table(v_it, maps_it[0], ind[0] as int) == Some(maps_it[1]));
                assert(next_table(v_it, maps_it[1], ind[1] as int) == Some(maps_it[2]));
            }
        }
    }
    check_hhdm_mapped(tables, root, offset, large_page_count)
}

/// Below `root`, the `count` pages from `source` have the entries `current`, in order.
pub open spec fn kernel_mapped(
    v: Map<usize, Seq<MapEntry>>,
    root: usize,
    source: int,
    current: Seq<MapEntry>,
    count: int,
) -> bool {
    forall|k: int| 0 <= k < count ==> #[trigger] maps_page(v, root, source + k * 4096, current[k])
}

/// Below `root`, the `count` large pages from `offset` have the entries of the direct map:
/// large page `i` maps the physical memory at `i` large pages.
pub open spec fn hhdm_mapped(v: Map<usize, Seq<MapEntry>>, root: usize, offset: int, count: int) -> bool {
    forall|i: int|
        0 <= i < count ==> #[trigger] maps_large_page(
            v,
            root,
            offset + i * 0x20_0000,
            MapEntry(hhdm_entry(i as usize)),
        )
}

/// Every entry of the upper half of the top-level table at `root` points to a table.
pub open spec fn upper_half_present(v: Map<usize, Seq<MapEntry>>, root: usize) -> bool {
    forall|i: int| 256 <= i < 512 ==> #[trigger] next_table(v, root, i) is Some
}

/// Whether, below `root`, the `count` pages from `source` have the entries `current`.
pub fn check_kernel_mapped(
    tables: &PageTables,
    root: usize,
    source: address::VirtAddrPageAligned,
    current: &Vec<MapEntry>,
    count: usize,
) -> (r: bool)
    requires
        tables.wf(),
        tables@.dom().contains(root),
        count <= current@.len(),
        source@ + count * 4096 <= usize::MAX,
    ensures
        r == kernel_mapped(tables@, root, source@ as int, current@, count as int),
{
    let mut k: usize = 0;
    while k < count
        invariant
            tables.wf(),
            tables@.dom().contains(root),
            count <= current@.len(),
            source@ + count * 4096 <= usize::MAX,
            k <= count,
            forall|j: int| 0 <= j < k ==> #[trigger] maps_page(tables@, root, source@ + j * 4096, current@[j]),
        decreases count - k,
    {
        let addr = source.add_pages(address::PageCount::new(k));
        if !tables.maps(root, addr, current[k]) {
            return false;
        }
        k = k + 1;
    }
    true
}

/// Whether, below `root`, the `count` large pages from `offset` have the entries of the
/// direct map.
pub fn check_hhdm_mapped(tables: &PageTables, root: usize, offset: usize, count: usize) -> (r: bool)
    requires
        tables.wf(),
        tables@.dom().contains(root),
        offset % 4096 == 0,
        offset + count * 0x20_0000 <= usize::MAX + 0x20_0000,
    ensures
        r == hhdm_mapped(tables@, root, offset as int, count as int),
{
    let mut i: usize = 0;
    while i < count
        invariant
            tables.wf(),
            tables@.dom().contains(root),
            offset % 4096 == 0,
            offset + count * 0x20_0000 <= usize::MAX + 0x20_0000,
            i <= count,
            forall|j: int|
                0 <= j < i ==> #[trigger] maps_large_page(
                    tables@,
                    root,
                    offset + j * 0x20_0000,
                    MapEntry(hhdm_entry(j as usize)),
                ),
        decreases count - i,
    {
        assert(i * 0x20_0000 + 0x20_0000 <= count * 0x20_0000) by (nonlinear_arith)
            requires
                i < count,
        ;
        let a = offset + i * 0x20_0000;
        assert(a % 4096 == 0) by (nonlinear_arith)
            requires
                a == offset + i * 0x20_0000,
                offset % 4096 == 0,
        ;
        let addr = address::VirtAddrPageAligned::new_unchecked(a);
        let e = MapEntry::new_with_flags(i << address::LARGE_PAGE_SHIFT, 0).present().write().large();
        proof {
            assert(e.0 == hhdm_entry(i));
        }
        if !tables.maps_large(root, addr, e) {
            proof {
                assert(e == MapEntry(hhdm_entry(i)));
                assert(!maps_large_page(
                    tables@,
                    root,
                    offset + i * 0x20_0000,
                    MapEntry(hhdm_entry(i as usize)),
                ));
            }
            return false;
        }
        i = i + 1;
    }
    true
}

/// Whether every entry of the upper half of the top-level table at `root` points to a table.
pub fn check_upper_half(tables: &PageTables, root: usize) -> (r: bool)
    requires
        tables.wf(),
        tables@.dom().contains(root),
    ensures
        r == upper_half_present(tables@, root),
{
    let mut i: usize = 256;
    while i < 512
        invariant
            tables.wf(),
            tables@.dom().contains(root),
            256 <= i <= 512,
            forall|j: int| 256 <= j < i ==> #[trigger] next_table(tables@, root, j) is Some,
        decreases 512 - i,
    {
        let e = tables.entry(root, i);
        if e.0 & map::MASK_ADDR == 0 || !tables.contains(e.addr()) {
            proof {
                assert(next_table(tables@, root, i as int) is None);
            }
            return false;
        }
        i = i + 1;
    }
    true
}

} // verus!
