//! x86-64 page-table entries and page-table pages.
use vstd::prelude::*;
use crate::memory::address::{PageCount, VirtAddrPageAligned, PAGE_SIZE};
use crate::memory::hhdm;
use crate::memory::hhdm::Hhdm;
use crate::memory::physical::EarlyAllocator;

verus! {

/// The bits of an entry that hold the physical address it points to.
pub const MASK_ADDR: u64 = 0x000f_ffff_ffff_f000;
/// The bits of an entry that hold its flags.
pub const MASK_FLAGS: u64 = 0xfff0_0000_0000_0fff;

pub const SHIFT_AVL: u8 = 9;
pub const MASK_AVL: u64 = 0xe00;

pub const FLAG_PRESENT: u64 = 0x1;
pub const FLAG_WRITE: u64 = 0x2;
pub const FLAG_USER: u64 = 0x4;
pub const FLAG_WRITE_THROUGH: u64 = 0x8;
pub const FLAG_NO_CACHE: u64 = 0x10;
pub const FLAG_ACCESSED: u64 = 0x20;
pub const FLAG_DIRTY: u64 = 0x40;
pub const FLAG_LARGE: u64 = 0x80;
pub const FLAG_NO_EXEC: u64 = 0x8000_0000_0000_0000;

/// What a new entry carries: present, and not executable.
pub const FLAGS_DEFAULT: u64 = 0x8000_0000_0000_0001;

/// One 64-bit entry of a page table.
#[derive(Debug, Copy, Clone)]
pub struct MapEntry(pub u64);

impl MapEntry {
    /// The physical address the entry points to.
    pub open spec fn spec_addr(self) -> u64 {
        self.0 & MASK_ADDR
    }

    /// The flag bits of the entry.
    pub open spec fn spec_flags(self) -> u64 {
        self.0 & MASK_FLAGS
    }

    /// Whether the bit `flag` is set.
    pub open spec fn has(self, flag: u64) -> bool {
        self.0 & flag != 0
    }

    /// The three bits available to the operating system.
    pub open spec fn spec_avl(self) -> u64 {
        (self.0 & MASK_AVL) >> 9
    }

    /// The entry `v` with the bit `flag` set, all other bits kept.
    pub open spec fn sets(self, v: u64, flag: u64) -> bool {
        &&& self.0 == v | flag
        &&& self.0 & flag != 0
        &&& self.0 & !flag == v & !flag
        &&& self.0 & MASK_ADDR == v & MASK_ADDR
    }

    /// The entry `v` with the bit `flag` cleared, all other bits kept.
    pub open spec fn clears(self, v: u64, flag: u64) -> bool {
        &&& self.0 == v & !flag
        &&& self.0 & flag == 0
        &&& self.0 & !flag == v & !flag
        &&& self.0 & MASK_ADDR == v & MASK_ADDR
    }

    /// An empty entry: not present, pointing nowhere.
    pub fn zero() -> (r: Self)
        ensures
            r.0 == 0,
    {
        MapEntry(0)
    }

    /// A present, non-executable entry pointing to `addr`.
    pub fn new(addr: usize) -> (r: Self)
        ensures
            r.0 == (addr as u64 & MASK_ADDR) | FLAGS_DEFAULT,
            r.spec_addr() == addr as u64 & MASK_ADDR,
            r.spec_flags() == FLAGS_DEFAULT,
    {
        let a = addr as u64;
        assert(((a & 0x000f_ffff_ffff_f000u64) | 0x8000_0000_0000_0001u64) & 0x000f_ffff_ffff_f000u64
            == a & 0x000f_ffff_ffff_f000u64 && ((a & 0x000f_ffff_ffff_f000u64)
            | 0x8000_0000_0000_0001u64) & 0xfff0_0000_0000_0fffu64 == 0x8000_0000_0000_0001u64)
            by (bit_vector);
        MapEntry((a & MASK_ADDR) | FLAGS_DEFAULT)
    }

    /// A present, non-executable entry pointing to the table at `table` of `tables`.
    pub fn from_map(tables: &PageTables, table: usize) -> (r: Self)
        requires
            tables@.dom().contains(table),
        ensures
            r.0 == (table as u64 & MASK_ADDR) | FLAGS_DEFAULT,
            r.spec_addr() == table as u64 & MASK_ADDR,
            r.spec_flags() == FLAGS_DEFAULT,
    {
        Self::new(table)
    }

    /// An entry pointing to the table at `table` of `tables`, with the flag bits of `flags`.
    pub fn from_map_with_flags(tables: &PageTables, table: usize, flags: u64) -> (r: Self)
        requires
            tables@.dom().contains(table),
        ensures
            r.0 == (table as u64 & MASK_ADDR) | (flags & MASK_FLAGS),
            r.spec_addr() == table as u64 & MASK_ADDR,
            r.spec_flags() == flags & MASK_FLAGS,
    {
        Self::new_with_flags(table, flags)
    }

    /// An entry pointing to `addr` with the flag bits of `flags`.
    pub fn new_with_flags(addr: usize, flags: u64) -> (r: Self)
        ensures
            r.0 == (addr as u64 & MASK_ADDR) | (flags & MASK_FLAGS),
            r.spec_addr() == addr as u64 & MASK_ADDR,
            r.spec_flags() == flags & MASK_FLAGS,
    {
        let a = addr as u64;
        proof {
            lemma_compose(a, flags);
        }
        MapEntry((a & MASK_ADDR) | (flags & MASK_FLAGS))
    }

    /// This entry's address with the flag bits of `flags`.
    pub fn with_flags(self, flags: u64) -> (r: Self)
        ensures
            r.0 == (self.0 & MASK_ADDR) | (flags & MASK_FLAGS),
            r.spec_addr() == self.spec_addr(),
            r.spec_flags() == flags & MASK_FLAGS,
    {
        proof {
            lemma_compose(self.0, flags);
        }
        MapEntry((self.0 & MASK_ADDR) | (flags & MASK_FLAGS))
    }

    /// The physical address the entry points to.
    pub fn addr(self) -> (r: usize)
        ensures
            r == self.spec_addr() as usize,
    {
        (self.0 & MASK_ADDR) as usize
    }

    /// The flag bits of the entry.
    pub fn flags(self) -> (r: u64)
        ensures
            r == self.spec_flags(),
    {
        self.0 & MASK_FLAGS
    }

    /// The entry with the present bit set.
    pub fn present(self) -> (r: Self)
        ensures
            r.sets(self.0, FLAG_PRESENT),
    {
        proof {
            lemma_set_bit(self.0, FLAG_PRESENT);
        }
        MapEntry(self.0 | FLAG_PRESENT)
    }

    /// Whether the present bit is set.
    pub fn is_present(self) -> (r: bool)
        ensures
            r == self.has(FLAG_PRESENT),
    {
        self.0 & FLAG_PRESENT != 0
    }

    /// The entry with the write bit set.
    pub fn write(self) -> (r: Self)
        ensures
            r.sets(self.0, FLAG_WRITE),
    {
        proof {
            lemma_set_bit(self.0, FLAG_WRITE);
        }
        MapEntry(self.0 | FLAG_WRITE)
    }

    /// Whether the write bit is set.
    pub fn is_write(self) -> (r: bool)
        ensures
            r == self.has(FLAG_WRITE),
    {
        self.0 & FLAG_WRITE != 0
    }

    /// The entry with the user bit set.
    pub fn user(self) -> (r: Self)
        ensures
            r.sets(self.0, FLAG_USER),
    {
        proof {
            lemma_set_bit(self.0, FLAG_USER);
        }
        MapEntry(self.0 | FLAG_USER)
    }

    /// Whether the user bit is set.
    pub fn is_user(self) -> (r: bool)
        ensures
            r == self.has(FLAG_USER),
    {
        self.0 & FLAG_USER != 0
    }

    /// The entry with the write-through bit set.
    pub fn write_through(self) -> (r: Self)
        ensures
            r.sets(self.0, FLAG_WRITE_THROUGH),
    {
        proof {
            lemma_set_bit(self.0, FLAG_WRITE_THROUGH);
        }
        MapEntry(self.0 | FLAG_WRITE_THROUGH)
    }

    /// Whether the write-through bit is set.
    pub fn is_write_through(self) -> (r: bool)
        ensures
            r == self.has(FLAG_WRITE_THROUGH),
    {
        self.0 & FLAG_WRITE_THROUGH != 0
    }

    /// The entry with the cache-disable bit set.
    pub fn no_cache(self) -> (r: Self)
        ensures
            r.sets(self.0, FLAG_NO_CACHE),
    {
        proof {
            lemma_set_bit(self.0, FLAG_NO_CACHE);
        }
        MapEntry(self.0 | FLAG_NO_CACHE)
    }

    /// Whether the cache-disable bit is set.
    pub fn is_no_cache(self) -> (r: bool)
        ensures
            r == self.has(FLAG_NO_CACHE),
    {
        self.0 & FLAG_NO_CACHE != 0
    }

    /// The entry with the accessed bit cleared.
    pub fn no_accessed(self) -> (r: Self)
        ensures
            r.clears(self.0, FLAG_ACCESSED),
    {
        proof {
            lemma_clear_bit(self.0, FLAG_ACCESSED);
        }
        MapEntry(self.0 & !FLAG_ACCESSED)
    }

    /// Whether the accessed bit is set.
    pub fn is_accessed(self) -> (r: bool)
        ensures
            r == self.has(FLAG_ACCESSED),
    {
        self.0 & FLAG_ACCESSED != 0
    }

    /// The entry with the dirty bit cleared.
    pub fn no_dirty(self) -> (r: Self)
        ensures
            r.clears(self.0, FLAG_DIRTY),
    {
        proof {
            lemma_clear_bit(self.0, FLAG_DIRTY);
        }
        MapEntry(self.0 & !FLAG_DIRTY)
    }

    /// Whether the dirty bit is set.
    pub fn is_dirty(self) -> (r: bool)
        ensures
            r == self.has(FLAG_DIRTY),
    {
        self.0 & FLAG_DIRTY != 0
    }

    /// The entry with the large-page bit set.
    pub fn large(self) -> (r: Self)
        ensures
            r.sets(self.0, FLAG_LARGE),
    {
        proof {
            lemma_set_bit(self.0, FLAG_LARGE);
        }
        MapEntry(self.0 | FLAG_LARGE)
    }

    /// Whether the large-page bit is set.
    pub fn is_large(self) -> (r: bool)
        ensures
            r == self.has(FLAG_LARGE),
    {
        self.0 & FLAG_LARGE != 0
    }

    /// The entry with the no-execute bit set.
    pub fn no_exec(self) -> (r: Self)
        ensures
            r.sets(self.0, FLAG_NO_EXEC),
    {
        proof {
            lemma_set_bit(self.0, FLAG_NO_EXEC);
        }
        MapEntry(self.0 | FLAG_NO_EXEC)
    }

    /// Whether the no-execute bit is set.
    pub fn is_no_exec(self) -> (r: bool)
        ensures
            r == self.has(FLAG_NO_EXEC),
    {
        self.0 & FLAG_NO_EXEC != 0
    }

    /// The entry with the low three bits of `avl` added to its available bits.
    pub fn with_avl(self, avl: u8) -> (r: Self)
        ensures
            r.0 == self.0 | (((avl as u64) << 9) & MASK_AVL),
            r.spec_avl() == self.spec_avl() | (avl as u64 & 7),
            r.0 & !MASK_AVL == self.0 & !MASK_AVL,
    {
        let v = self.0;
        let a = avl as u64;
        assert((a < 256 ==> (((v | ((a << 9u64) & 0xe00u64)) & 0xe00u64) >> 9u64) == (((v & 0xe00u64)
            >> 9u64) | (a & 7u64))) && (v | ((a << 9u64) & 0xe00u64)) & !0xe00u64 == v & !0xe00u64)
            by (bit_vector);
        MapEntry(self.0 | (((avl as u64) << (SHIFT_AVL as u64)) & MASK_AVL))
    }

    /// The three bits available to the operating system.
    pub fn get_avl(self) -> (r: u8)
        ensures
            r as u64 == self.spec_avl(),
            r < 8,
    {
        let v = self.0;
        assert((v & 0xe00u64) >> 9u64 < 8) by (bit_vector);
        ((self.0 & MASK_AVL) >> (SHIFT_AVL as u64)) as u8
    }
}

proof fn lemma_compose(a: u64, flags: u64)
    ensures
        ((a & MASK_ADDR) | (flags & MASK_FLAGS)) & MASK_ADDR == a & MASK_ADDR,
        ((a & MASK_ADDR) | (flags & MASK_FLAGS)) & MASK_FLAGS == flags & MASK_FLAGS,
{
    assert(((a & 0x000f_ffff_ffff_f000u64) | (flags & 0xfff0_0000_0000_0fffu64))
        & 0x000f_ffff_ffff_f000u64 == a & 0x000f_ffff_ffff_f000u64 && ((a & 0x000f_ffff_ffff_f000u64)
        | (flags & 0xfff0_0000_0000_0fffu64)) & 0xfff0_0000_0000_0fffu64 == flags
        & 0xfff0_0000_0000_0fffu64) by (bit_vector);
}

/// The single flag bits that entries are built from.
pub open spec fn is_flag_bit(f: u64) -> bool {
    f == FLAG_PRESENT || f == FLAG_WRITE || f == FLAG_USER || f == FLAG_WRITE_THROUGH || f
        == FLAG_NO_CACHE || f == FLAG_ACCESSED || f == FLAG_DIRTY || f == FLAG_LARGE || f
        == FLAG_NO_EXEC
}

/// What setting or clearing one flag bit does to an entry.
proof fn lemma_flag_bit(v: u64, f: u64)
    by (bit_vector)
    requires
        f == 1u64 || f == 2u64 || f == 4u64 || f == 8u64 || f == 0x10u64 || f == 0x20u64 || f
            == 0x40u64 || f == 0x80u64 || f == 0x8000_0000_0000_0000u64,
    ensures
        (v | f) & f != 0,
        (v | f) & !f == v & !f,
        (v | f) & 0x000f_ffff_ffff_f000u64 == v & 0x000f_ffff_ffff_f000u64,
        (v & !f) & f == 0,
        (v & !f) & !f == v & !f,
        (v & !f) & 0x000f_ffff_ffff_f000u64 == v & 0x000f_ffff_ffff_f000u64,
{
}

proof fn lemma_set_bit(v: u64, f: u64)
    requires
        is_flag_bit(f),
    ensures
        (v | f) & f != 0,
        (v | f) & !f == v & !f,
        (v | f) & MASK_ADDR == v & MASK_ADDR,
{
    lemma_flag_bit(v, f);
}

proof fn lemma_clear_bit(v: u64, f: u64)
    requires
        is_flag_bit(f),
    ensures
        (v & !f) & f == 0,
        (v & !f) & !f == v & !f,
        (v & !f) & MASK_ADDR == v & MASK_ADDR,
{
    lemma_flag_bit(v, f);
}

/// The number of bytes that one entry covers at page-table level `level` (1 to 4).
pub open spec fn level_size(level: int) -> int {
    if level == 1 {
        0x1000
    } else if level == 2 {
        0x20_0000
    } else if level == 3 {
        0x4000_0000
    } else {
        0x80_0000_0000
    }
}

/// The number of pages that one entry covers at page-table level `level` (1 to 4).
pub open spec fn level_pages(level: int) -> int {
    level_size(level) / 4096
}

/// The index, in the table of level `level`, of the entry that maps the address `addr`.
pub open spec fn index_at(addr: int, level: int) -> int {
    (addr / level_size(level)) % 512
}

/// Shifts and masks that pick the table indices out of an address.
proof fn lemma_index_bits(x: u64)
    by (bit_vector)
    ensures
        (x >> 12u64) & 0x1ffu64 == (x / 0x1000) % 512,
        (x >> 21u64) & 0x1ffu64 == (x / 0x20_0000) % 512,
        (x >> 30u64) & 0x1ffu64 == (x / 0x4000_0000) % 512,
        (x >> 39u64) & 0x1ffu64 == (x / 0x80_0000_0000) % 512,
        x << 0u64 == x,
        x << 9u64 == ((x * 512) as u64),
        x << 18u64 == ((x * 0x4_0000) as u64),
        x << 27u64 == ((x * 0x800_0000) as u64),
{
}

/// One page table: 512 entries.
pub struct MemoryMap {
    data: [MapEntry; 512],
}

impl MemoryMap {
    /// The entries of the table.
    pub closed spec fn entries(&self) -> Seq<MapEntry> {
        self.data@
    }

    /// A table of empty entries.
    pub fn new() -> (r: Self)
        ensures
            r.entries().len() == 512,
            forall|i: int| 0 <= i < 512 ==> (#[trigger] r.entries()[i]).0 == 0,
    {
        MemoryMap { data: [MapEntry(0); 512] }
    }

    /// The index, in the table of level `level`, of the entry that maps `addr`.
    pub fn get_index(addr: VirtAddrPageAligned, level: usize) -> (r: usize)
        requires
            1 <= level <= 4,
        ensures
            r == index_at(addr@ as int, level as int),
            r < 512,
    {
        let a = addr.addr() as u64;
        proof {
            lemma_index_bits(a);
        }
        ((a >> (12 + 9 * (level as u64 - 1))) & 0x1ff) as usize
    }

    /// The index, in the table of level `L`, of the entry that maps `addr`.
    pub fn get_index_c<const L: usize>(addr: VirtAddrPageAligned) -> (r: usize)
        requires
            1 <= L <= 4,
        ensures
            r == index_at(addr@ as int, L as int),
            r < 512,
    {
        let a = addr.addr() as u64;
        proof {
            lemma_index_bits(a);
        }
        ((a >> (12 + 9 * (L as u64 - 1))) & 0x1ff) as usize
    }

    /// The indices of the entries that map `addr`, from the top level down.
    pub fn get_indices(addr: VirtAddrPageAligned) -> (r: [usize; 4])
        ensures
            r@ == seq![
                index_at(addr@ as int, 4) as usize,
                index_at(addr@ as int, 3) as usize,
                index_at(addr@ as int, 2) as usize,
                index_at(addr@ as int, 1) as usize,
            ],
    {
        [
            Self::get_index_c::<4>(addr),
            Self::get_index_c::<3>(addr),
            Self::get_index_c::<2>(addr),
            Self::get_index_c::<1>(addr),
        ]
    }

    /// The number of pages that `index` entries of level `level` cover.
    pub fn index_to_page_count(index: usize, level: usize) -> (r: PageCount)
        requires
            1 <= level <= 4,
            index * level_pages(level as int) <= usize::MAX,
        ensures
            r@ == index * level_pages(level as int),
    {
        let i = index as u64;
        proof {
            lemma_index_bits(i);
        }
        PageCount::new((i << (9 * (level as u64 - 1))) as usize)
    }

    /// The entry at `index`.
    pub fn at(&self, index: usize) -> (r: MapEntry)
        requires
            index < 512,
        ensures
            r == self.entries()[index as int],
    {
        self.data[index]
    }

    /// Replaces the entry at `index`.
    pub fn set(&mut self, index: usize, entry: MapEntry)
        requires
            index < 512,
            old(self).entries().len() == 512,
        ensures
            final(self).entries() == old(self).entries().update(index as int, entry),
    {
        self.data[index] = entry;
    }

    /// The canonical form of a 48-bit address: bit 47 copied into the bits above it.
    pub fn sign_extend_addr(a: u64) -> (r: u64)
        ensures
            a < 0x8000_0000_0000 ==> r == a,
            a >= 0x8000_0000_0000 ==> r == a | 0xffff_8000_0000_0000,
    {
        if a >= 0x8000_0000_0000 {
            a | 0xffff_8000_0000_0000
        } else {
            a
        }
    }
}

/// An empty table.
pub open spec fn zero_table() -> Seq<MapEntry> {
    Seq::new(512, |i: int| MapEntry(0))
}

/// The entry that points to the table at `addr` with the flag bits of `flags`.
pub open spec fn table_entry(addr: usize, flags: u64) -> MapEntry {
    MapEntry((addr as u64 & MASK_ADDR) | (flags & MASK_FLAGS))
}

/// The flags of an entry that points to a lower table: present and writable, and user
/// accessible in the lower half of the address space.
pub open spec fn table_flags(index: int) -> u64 {
    if index < 256 {
        FLAG_PRESENT | FLAG_WRITE | FLAG_USER
    } else {
        FLAG_PRESENT | FLAG_WRITE
    }
}

/// The page tables in physical memory, each known by the physical address it sits at.
/// Table `i` sits at `addrs[i]`; its entries are `entries[512 * i .. 512 * i + 512]`.
pub struct PageTables {
    addrs: Vec<usize>,
    entries: Vec<MapEntry>,
}

/// The position of the table at `addr` among `addrs`.
pub open spec fn table_pos(addrs: Seq<usize>, addr: usize) -> int {
    choose|i: int| 0 <= i < addrs.len() && addrs[i] == addr
}

impl PageTables {
    /// No two tables sit at the same address, and every table has 512 entries.
    pub closed spec fn wf(&self) -> bool {
        &&& self.entries@.len() == 512 * self.addrs@.len()
        &&& forall|i: int, j: int|
            0 <= i < j < self.addrs@.len() ==> self.addrs@[i] != self.addrs@[j]
    }

    /// The tables, by physical address.
    pub closed spec fn view(&self) -> Map<usize, Seq<MapEntry>> {
        Map::new(
            |a: usize| exists|i: int| 0 <= i < self.addrs@.len() && self.addrs@[i] == a,
            |a: usize|
                {
                    let i = table_pos(self.addrs@, a);
                    self.entries@.subrange(512 * i, 512 * i + 512)
                },
        )
    }

    proof fn lemma_view_at(&self, i: int)
        requires
            self.wf(),
            0 <= i < self.addrs@.len(),
        ensures
            self.view().dom().contains(self.addrs@[i]),
            self.view()[self.addrs@[i]] == self.entries@.subrange(512 * i, 512 * i + 512),
            self.view()[self.addrs@[i]].len() == 512,
    {
        let a = self.addrs@[i];
        assert(self.view().dom().contains(a));
        let j = table_pos(self.addrs@, a);
        assert(0 <= j < self.addrs@.len() && self.addrs@[j] == a);
        if j != i {
            if j < i {
                assert(self.addrs@[j] != self.addrs@[i]);
            } else {
                assert(self.addrs@[i] != self.addrs@[j]);
            }
        }
        assert(512 * i + 512 <= self.entries@.len()) by (nonlinear_arith)
            requires
                0 <= i < self.addrs@.len(),
                self.entries@.len() == 512 * self.addrs@.len(),
        ;
    }

    /// No tables.
    pub fn new() -> (r: Self)
        ensures
            r.wf(),
            r@ == Map::<usize, Seq<MapEntry>>::empty(),
    {
        let r = PageTables { addrs: Vec::new(), entries: Vec::new() };
        assert(r@ =~= Map::<usize, Seq<MapEntry>>::empty());
        r
    }

    /// The position of the table at `addr`.
    fn find(&self, addr: usize) -> (r: Option<usize>)
        requires
            self.wf(),
        ensures
            match r {
                Some(i) => i < self.addrs@.len() && self.addrs@[i as int] == addr,
                None => !self@.dom().contains(addr),
            },
    {
        let mut i: usize = 0;
        while i < self.addrs.len()
            invariant
                i <= self.addrs@.len(),
                forall|j: int| 0 <= j < i ==> self.addrs@[j] != addr,
            decreases self.addrs@.len() - i,
        {
            if self.addrs[i] == addr {
                return Some(i);
            }
            i = i + 1;
        }
        None
    }

    /// The addresses of the tables, each once.
    pub fn table_addrs(&self) -> (r: Vec<usize>)
        requires
            self.wf(),
        ensures
            r@.no_duplicates(),
            forall|a: usize| #[trigger] r@.contains(a) <==> self@.dom().contains(a),
    {
        let mut r: Vec<usize> = Vec::new();
        let mut i: usize = 0;
        while i < self.addrs.len()
            invariant
                i <= self.addrs@.len(),
                r@ == self.addrs@.take(i as int),
            decreases self.addrs@.len() - i,
        {
            r.push(self.addrs[i]);
            proof {
                assert(self.addrs@.take(i + 1) =~= self.addrs@.take(i as int).push(self.addrs@[i as int]));
            }
            i = i + 1;
        }
        proof {
            assert(self.addrs@.take(i as int) =~= self.addrs@);
            assert forall|a: usize| #[trigger] r@.contains(a) <==> self@.dom().contains(a) by {
                if r@.contains(a) {
                    let k = choose|k: int| 0 <= k < r@.len() && r@[k] == a;
                    assert(self.addrs@[k] == a);
                }
                if self@.dom().contains(a) {
                    let k = choose|k: int| 0 <= k < self.addrs@.len() && self.addrs@[k] == a;
                    assert(r@[k] == a);
                }
            }
        }
        r
    }

    /// Puts an empty table at `addr`, in place of the table that sat there, if any.
    pub fn add_table(&mut self, addr: usize)
        requires
            old(self).wf(),
        ensures
            final(self).wf(),
            final(self)@ == old(self)@.insert(addr, zero_table()),
    {
        let ghost old_self = *self;
        match self.find(addr) {
            Some(i) => {
                let mut k: usize = 0;
                proof {
                    old_self.lemma_view_at(i as int);
                }
                while k < 512
                    invariant
                        k <= 512,
                        i < self.addrs@.len(),
                        self.addrs@ == old_self.addrs@,
                        self.entries@.len() == old_self.entries@.len(),
                        self.entries@.len() == 512 * self.addrs@.len(),
                        forall|j: int|
                            0 <= j < self.entries@.len() ==> #[trigger] self.entries@[j] == if 512 * i
                                <= j < 512 * i + k {
                                MapEntry(0)
                            } else {
                                old_self.entries@[j]
                            },
                    decreases 512 - k,
                {
                    let n = self.entries.len();
                    assert(512 * i + k < self.entries@.len()) by (nonlinear_arith)
                        requires
                            i < self.addrs@.len(),
                            k < 512,
                            self.entries@.len() == 512 * self.addrs@.len(),
                    ;
                    self.entries.set(512 * i + k, MapEntry(0));
                    k = k + 1;
                }
                proof {
                    assert forall|a: usize| #[trigger] self@.dom().contains(a) <==> old_self@.insert(
                        addr,
                        zero_table(),
                    ).dom().contains(a) by {
                        if old_self@.dom().contains(a) {
                            let j = choose|j: int|
                                0 <= j < old_self.addrs@.len() && old_self.addrs@[j] == a;
                            assert(self.addrs@[j] == a);
                        }
                    }
                    assert forall|a: usize| #[trigger] self@.dom().contains(a) implies self@[a]
                        == old_self@.insert(addr, zero_table())[a] by {
                        let j = choose|j: int| 0 <= j < self.addrs@.len() && self.addrs@[j] == a;
                        self.lemma_view_at(j);
                        old_self.lemma_view_at(j);
                        if a == addr {
                            assert(j == i) by {
                                if j != i {
                                    if j < i {
                                        assert(self.addrs@[j] != self.addrs@[i as int]);
                                    } else {
                                        assert(self.addrs@[i as int] != self.addrs@[j]);
                                    }
                                }
                            }
                            assert(self@[a] =~= zero_table());
                        } else {
                            assert(j != i);
                            assert forall|t: int| 0 <= t < 512 implies self@[a][t] == old_self@[a][t] by {
                                assert(self@[a][t] == self.entries@[512 * j + t]);
                                assert(512 * j + t < 512 * i || 512 * j + t >= 512 * i + 512) by (
                                nonlinear_arith)
                                    requires
                                        j != i,
                                        0 <= t < 512,
                                ;
                            }
                            assert(self@[a] =~= old_self@[a]);
                        }
                    }
                    assert(self@ =~= old_self@.insert(addr, zero_table()));
                }
            },
            None => {
                self.addrs.push(addr);
                let mut k: usize = 0;
                while k < 512
                    invariant
                        k <= 512,
                        self.addrs@ == old_self.addrs@.push(addr),
                        self.entries@.len() == old_self.entries@.len() + k,
                        old_self.entries@.len() == 512 * old_self.addrs@.len(),
                        forall|j: int|
                            0 <= j < old_self.entries@.len() ==> #[trigger] self.entries@[j]
                                == old_self.entries@[j],
                        forall|j: int|
                            old_self.entries@.len() <= j < self.entries@.len() ==> #[trigger] self.entries@[j]
                                == MapEntry(0),
                    decreases 512 - k,
                {
                    self.entries.push(MapEntry(0));
                    k = k + 1;
                }
                proof {
                    let n = old_self.addrs@.len() as int;
                    assert forall|x: int, y: int|
                        0 <= x < y < self.addrs@.len() implies self.addrs@[x] != self.addrs@[y] by {
                        if y == n {
                            assert(old_self@.dom().contains(self.addrs@[x]) ==> false || true);
                            if self.addrs@[x] == addr {
                                assert(old_self@.dom().contains(addr));
                            }
                        }
                    }
                    assert forall|a: usize| #[trigger] self@.dom().contains(a) <==> old_self@.insert(
                        addr,
                        zero_table(),
                    ).dom().contains(a) by {
                        if self@.dom().contains(a) {
                            let j = choose|j: int| 0 <= j < self.addrs@.len() && self.addrs@[j] == a;
                            if j < n {
                                assert(old_self.addrs@[j] == a);
                            }
                        }
                        if old_self@.dom().contains(a) {
                            let j = choose|j: int|
                                0 <= j < old_self.addrs@.len() && old_self.addrs@[j] == a;
                            assert(self.addrs@[j] == a);
                        }
                        if a == addr {
                            assert(self.addrs@[n] == a);
                        }
                    }
                    assert forall|a: usize| #[trigger] self@.dom().contains(a) implies self@[a]
                        == old_self@.insert(addr, zero_table())[a] by {
                        let j = choose|j: int| 0 <= j < self.addrs@.len() && self.addrs@[j] == a;
                        self.lemma_view_at(j);
                        if j == n {
                            assert(self@[a] =~= zero_table());
                        } else {
                            old_self.lemma_view_at(j);
                            assert(512 * j + 512 <= 512 * n) by (nonlinear_arith)
                                requires
                                    j < n,
                            ;
                            assert(self@[a] =~= old_self@[a]);
                        }
                    }
                    assert(self@ =~= old_self@.insert(addr, zero_table()));
                }
            },
        }
    }
}

/// The address that entry `i` of the table at `t` points to.
pub open spec fn child(v: Map<usize, Seq<MapEntry>>, t: usize, i: int) -> usize {
    v[t][i].spec_addr() as usize
}

/// Every table sits below `mark`: a table taken from memory at or above it is new.
pub open spec fn below(v: Map<usize, Seq<MapEntry>>, mark: int) -> bool {
    forall|t: usize| #[trigger] v.dom().contains(t) ==> t < mark
}

/// `new` keeps every table of `old` and every entry of it that points somewhere; only empty
/// entries were filled and tables added.
pub open spec fn grows(old: Map<usize, Seq<MapEntry>>, new: Map<usize, Seq<MapEntry>>) -> bool {
    &&& forall|t: usize| #[trigger] old.dom().contains(t) ==> new.dom().contains(t)
    &&& forall|t: usize, i: int|
        old.dom().contains(t) && 0 <= i < 512 && (#[trigger] old[t][i]).spec_addr() != 0
            ==> new[t][i] == old[t][i]
    &&& forall|t: usize| #[trigger] new.dom().contains(t) ==> new[t].len() == 512
}

/// Every table of `old` is still a table in `new`.
pub open spec fn keeps_tables(old: Map<usize, Seq<MapEntry>>, new: Map<usize, Seq<MapEntry>>) -> bool {
    forall|t: usize| #[trigger] old.dom().contains(t) ==> new.dom().contains(t)
}

/// An entry made to point to a table points to it: a page-aligned table address inside the
/// physical address space comes back unchanged from the entry, whatever its flags.
pub proof fn lemma_table_entry_points_to(t: usize, flags: u64)
    requires
        t % 4096 == 0,
        t < 0x10_0000_0000_0000,
    ensures
        table_entry(t, flags).spec_addr() == t,
{
    let x = t as u64;
    assert(x & 0xfffu64 == 0) by (bit_vector)
        requires
            x % 4096 == 0,
    ;
    lemma_table_addr(x, flags);
}

/// A table address fits in an entry unchanged.
proof fn lemma_table_addr(t: u64, flags: u64)
    by (bit_vector)
    requires
        t & 0xfffu64 == 0,
        t < 0x10_0000_0000_0000u64,
    ensures
        ((t & 0x000f_ffff_ffff_f000u64) | (flags & 0xfff0_0000_0000_0fffu64))
            & 0x000f_ffff_ffff_f000u64 == t,
{
}

impl PageTables {
    /// Every table has 512 entries.
    pub proof fn lemma_tables_len(&self)
        requires
            self.wf(),
        ensures
            forall|t: usize| #[trigger] self@.dom().contains(t) ==> self@[t].len() == 512,
    {
        assert forall|t: usize| #[trigger] self@.dom().contains(t) implies self@[t].len() == 512 by {
            let j = choose|j: int| 0 <= j < self.addrs@.len() && self.addrs@[j] == t;
            self.lemma_view_at(j);
        }
    }

    /// Entry `index` of the table at `table`.
    pub fn entry(&self, table: usize, index: usize) -> (r: MapEntry)
        requires
            self.wf(),
            self@.dom().contains(table),
            index < 512,
        ensures
            r == self@[table][index as int],
    {
        let i = self.find(table).unwrap();
        proof {
            self.lemma_view_at(i as int);
            assert(512 * i + index < self.entries@.len()) by (nonlinear_arith)
                requires
                    i < self.addrs@.len(),
                    index < 512,
                    self.entries@.len() == 512 * self.addrs@.len(),
            ;
        }
        let n = self.entries.len();
        self.entries[512 * i + index]
    }

    /// Replaces entry `index` of the table at `table`.
    pub fn set_entry(&mut self, table: usize, index: usize, e: MapEntry)
        requires
            old(self).wf(),
            old(self)@.dom().contains(table),
            index < 512,
        ensures
            final(self).wf(),
            final(self)@ == old(self)@.insert(table, old(self)@[table].update(index as int, e)),
    {
        let ghost old_self = *self;
        let i = self.find(table).unwrap();
        proof {
            old_self.lemma_view_at(i as int);
            assert(512 * i + index < self.entries@.len()) by (nonlinear_arith)
                requires
                    i < self.addrs@.len(),
                    index < 512,
                    self.entries@.len() == 512 * self.addrs@.len(),
            ;
        }
        let n = self.entries.len();
        self.entries.set(512 * i + index, e);
        proof {
            let target = old_self@.insert(table, old_self@[table].update(index as int, e));
            assert forall|a: usize| #[trigger] self@.dom().contains(a) <==> target.dom().contains(a) by {
                if old_self@.dom().contains(a) {
                    let j = choose|j: int| 0 <= j < old_self.addrs@.len() && old_self.addrs@[j] == a;
                    assert(self.addrs@[j] == a);
                }
            }
            assert forall|a: usize| #[trigger] self@.dom().contains(a) implies self@[a] == target[a] by {
                let j = choose|j: int| 0 <= j < self.addrs@.len() && self.addrs@[j] == a;
                self.lemma_view_at(j);
                old_self.lemma_view_at(j);
                if j == i {
                    assert(self@[a] =~= target[a]);
                } else {
                    assert(a != table);
                    assert forall|t: int| 0 <= t < 512 implies self@[a][t] == old_self@[a][t] by {
                        assert(512 * j + t != 512 * i + index) by (nonlinear_arith)
                            requires
                                j != i,
                                0 <= t < 512,
                                index < 512,
                        ;
                    }
                    assert(self@[a] =~= old_self@[a]);
                }
            }
            assert(self@ =~= target);
        }
    }

    /// The table that entry `index` of the table at `table` points to, with a new empty table
    /// put there first when the entry points nowhere; the new table comes from `early`, and the
    /// entry that points to it gets the flag bits of `flags`. `None` when a new table is needed
    /// and `early` has no page left.
    pub fn map_or_insert_with_flags(
        &mut self,
        table: usize,
        index: usize,
        flags: u64,
        early: &mut EarlyAllocator,
        hhdm: &Hhdm,
    ) -> (r: Option<usize>)
        requires
            old(self).wf(),
            old(self)@.dom().contains(table),
            index < 512,
            old(early).wf(),
            old(early).spec_memory() > hhdm.spec_offset(),
            old(early).spec_memory() % 4096 == 0,
            old(early).spec_memory() - hhdm.spec_offset() + old(early).spec_length()
                <= 0x10_0000_0000_0000,
            below(old(self)@, old(early).spec_memory() - hhdm.spec_offset()),
        ensures
            final(self).wf(),
            final(early).wf(),
            final(early).spec_memory() - hhdm.spec_offset() + final(early).spec_length()
                <= 0x10_0000_0000_0000,
            final(early).spec_memory() % 4096 == 0,
            final(early).spec_memory() >= old(early).spec_memory(),
            final(early).spec_start_length() == old(early).spec_start_length(),
            below(final(self)@, final(early).spec_memory() - hhdm.spec_offset()),
            grows(old(self)@, final(self)@),
            ({
                let e = old(self)@[table][index as int];
                if e.spec_addr() != 0 {
                    &&& r == Some(e.spec_addr() as usize)
                    &&& final(self)@ == old(self)@
                    &&& *final(early) == *old(early)
                } else if old(early).spec_length() < 4096 {
                    &&& r is None
                    &&& final(self)@ == old(self)@
                    &&& *final(early) == *old(early)
                } else {
                    let t = (old(early).spec_memory() - hhdm.spec_offset()) as usize;
                    &&& r == Some(t)
                    &&& t != 0
                    &&& final(self)@ == old(self)@.insert(t, zero_table()).insert(
                        table,
                        old(self)@[table].update(index as int, table_entry(t, flags)),
                    )
                    &&& child(final(self)@, table, index as int) == t
                    &&& final(early).spec_memory() == old(early).spec_memory() + 4096
                    &&& final(early).spec_length() == old(early).spec_length() - 4096
                }
            }),
    {
        let ghost v0 = self@;
        proof {
            self.lemma_tables_len();
        }
        let e = self.entry(table, index);
        if e.0 & MASK_ADDR != 0 {
            return Some(e.addr());
        }
        let block = early.allocate_bytes(PAGE_SIZE);
        match block {
            None => None,
            Some(virt) => {
                let t = hhdm::sub(hhdm, virt);
                proof {
                    use_type_invariant(hhdm);
                    assert(t % 4096 == 0) by (nonlinear_arith)
                        requires
                            t == virt - hhdm.spec_offset(),
                            virt % 4096 == 0,
                            hhdm.spec_offset() % 4096 == 0,
                            virt >= hhdm.spec_offset(),
                    ;
                    assert(!v0.dom().contains(t));
                    assert(t & 0xfff == 0) by (bit_vector)
                        requires
                            t % 4096 == 0,
                    ;
                }
                self.add_table(t);
                let entry = MapEntry::new_with_flags(t, flags);
                self.set_entry(table, index, entry);
                proof {
                    lemma_table_addr(t as u64, flags);
                    let v1 = v0.insert(t, zero_table());
                    assert(table != t);
                    assert(self@ == v1.insert(table, v0[table].update(index as int, table_entry(t, flags))));
                    assert(child(self@, table, index as int) == t);
                    assert forall|a: usize| #[trigger] self@.dom().contains(a) implies a < early.spec_memory()
                        - hhdm.spec_offset() by {
                        if a != t && a != table {
                            assert(v0.dom().contains(a));
                        }
                    }
                    assert forall|a: usize, i: int|
                        v0.dom().contains(a) && 0 <= i < 512 && (#[trigger] v0[a][i]).spec_addr() != 0
                        implies self@[a][i] == v0[a][i] by {
                        assert(a != t);
                        if a == table {
                            assert(i != index);
                        }
                    }
                    self.lemma_tables_len();
                }
                Some(t)
            },
        }
    }

    /// As `map_or_insert_with_flags`, with the flags of an entry that points to a lower table.
    pub fn map_or_insert(
        &mut self,
        table: usize,
        index: usize,
        early: &mut EarlyAllocator,
        hhdm: &Hhdm,
    ) -> (r: Option<usize>)
        requires
            old(self).wf(),
            old(self)@.dom().contains(table),
            index < 512,
            old(early).wf(),
            old(early).spec_memory() > hhdm.spec_offset(),
            old(early).spec_memory() % 4096 == 0,
            old(early).spec_memory() - hhdm.spec_offset() + old(early).spec_length()
                <= 0x10_0000_0000_0000,
            below(old(self)@, old(early).spec_memory() - hhdm.spec_offset()),
        ensures
            final(self).wf(),
            final(early).wf(),
            final(early).spec_memory() - hhdm.spec_offset() + final(early).spec_length()
                <= 0x10_0000_0000_0000,
            final(early).spec_memory() % 4096 == 0,
            final(early).spec_memory() >= old(early).spec_memory(),
            final(early).spec_start_length() == old(early).spec_start_length(),
            below(final(self)@, final(early).spec_memory() - hhdm.spec_offset()),
            grows(old(self)@, final(self)@),
            ({
                let e = old(self)@[table][index as int];
                if e.spec_addr() != 0 {
                    &&& r == Some(e.spec_addr() as usize)
                    &&& final(self)@ == old(self)@
                    &&& *final(early) == *old(early)
                } else if old(early).spec_length() < 4096 {
                    &&& r is None
                    &&& final(self)@ == old(self)@
                    &&& *final(early) == *old(early)
                } else {
                    let t = (old(early).spec_memory() - hhdm.spec_offset()) as usize;
                    &&& r == Some(t)
                    &&& t != 0
                    &&& final(self)@ == old(self)@.insert(t, zero_table()).insert(
                        table,
                        old(self)@[table].update(index as int, table_entry(t, table_flags(index as int))),
                    )
                    &&& child(final(self)@, table, index as int) == t
                    &&& final(early).spec_memory() == old(early).spec_memory() + 4096
                    &&& final(early).spec_length() == old(early).spec_length() - 4096
                }
            }),
    {
        let flags = if index < 256 {
            FLAG_PRESENT | FLAG_WRITE | FLAG_USER
        } else {
            FLAG_PRESENT | FLAG_WRITE
        };
        self.map_or_insert_with_flags(table, index, flags, early, hhdm)
    }
}

/// The table that entry `i` of the table at `t` points to, when it points to one of the tables.
pub open spec fn next_table(v: Map<usize, Seq<MapEntry>>, t: usize, i: int) -> Option<usize> {
    if v.dom().contains(t) && v[t][i].spec_addr() != 0 && v.dom().contains(child(v, t, i)) {
        Some(child(v, t, i))
    } else {
        None
    }
}

/// The slot that maps `addr` below the top-level table at `root`: the last-level table and
/// the index in it; `None` when the path leaves the tables.
pub open spec fn walk(v: Map<usize, Seq<MapEntry>>, root: usize, addr: int) -> Option<(usize, int)> {
    match next_table(v, root, index_at(addr, 4)) {
        None => None,
        Some(t3) => match next_table(v, t3, index_at(addr, 3)) {
            None => None,
            Some(t2) => match next_table(v, t2, index_at(addr, 2)) {
                None => None,
                Some(t1) => Some((t1, index_at(addr, 1))),
            },
        },
    }
}

/// The slot that maps the large page at `addr` below the top-level table at `root`: the
/// table one level above the last and the index in it; `None` when the path leaves the tables.
pub open spec fn walk_large(v: Map<usize, Seq<MapEntry>>, root: usize, addr: int) -> Option<(usize, int)> {
    match next_table(v, root, index_at(addr, 4)) {
        None => None,
        Some(t3) => match next_table(v, t3, index_at(addr, 3)) {
            None => None,
            Some(t2) => Some((t2, index_at(addr, 2))),
        },
    }
}

/// Below `root`, the entry of the page at `addr` is `e`.
pub open spec fn maps_page(v: Map<usize, Seq<MapEntry>>, root: usize, addr: int, e: MapEntry) -> bool {
    match walk(v, root, addr) {
        Some((t, i)) => v[t][i] == e,
        None => false,
    }
}

/// Below `root`, the entry of the large page at `addr` is `e`.
pub open spec fn maps_large_page(v: Map<usize, Seq<MapEntry>>, root: usize, addr: int, e: MapEntry) -> bool {
    match walk_large(v, root, addr) {
        Some((t, i)) => v[t][i] == e,
        None => false,
    }
}

/// One line of a dump of page tables.
#[derive(Debug, Copy, Clone, PartialEq, Eq, Structural)]
pub enum DumpLine {
    /// A mapped page or large page, indented by the level of its table: its virtual address,
    /// sign extended, and the physical address it maps.
    Mapping(usize, u64, u64),
    /// A mapped page that follows on from the one before it, virtually and physically.
    Continued(usize),
    /// A lower table that maps something, indented by the level of the table above: the
    /// virtual address it starts at, sign extended, and the table's address.
    Table(usize, u64, usize),
    /// A present entry that points to no table: the entry and its address.
    Unknown(u64, u64),
}

/// The bit position of the first address bit that indexes a table of dump level `level`
/// (0 for the top-level table, 3 for the last).
pub open spec fn dump_shift(level: int) -> int {
    12 + 9 * (3 - level)
}

/// The address `a`, sign extended from bit 47.
pub open spec fn sign_extended(a: u64) -> u64 {
    if a >= 0x8000_0000_0000 {
        a | 0xffff_8000_0000_0000
    } else {
        a
    }
}

/// Whether some entry of the table at `t` is present.
pub open spec fn any_present(v: Map<usize, Seq<MapEntry>>, t: usize) -> bool {
    exists|j: int| 0 <= j < 512 && (#[trigger] v[t][j]).has(FLAG_PRESENT)
}

/// The lines of a dump of the table at `t` of dump level `level`, which maps from `virt` on,
/// from entry `i` on, with `prev` the addresses of the last mapping shown: each present entry
/// of the last level, or large, is a mapping (or continues the one before it, but at the last
/// index); each that points to a table that maps something shows that table, then its dump
/// one level down; any other present entry is unknown.
pub open spec fn dump_lines(
    v: Map<usize, Seq<MapEntry>>,
    t: usize,
    level: int,
    virt: u64,
    i: int,
    prev: Option<(u64, u64)>,
) -> Seq<DumpLine>
    decreases 4 - level, 512 - i,
{
    if level < 0 || level > 3 || i < 0 || i >= 512 || !v.dom().contains(t) {
        Seq::empty()
    } else {
        let e = v[t][i];
        let addr = (virt | ((i as u64) << (dump_shift(level) as u64))) as u64;
        let sx = sign_extended(addr);
        if !e.has(FLAG_PRESENT) {
            dump_lines(v, t, level, virt, i + 1, prev)
        } else if level == 3 || e.has(FLAG_LARGE) {
            let ad = e.spec_addr();
            let size = pow2_shift(dump_shift(level));
            let line = match prev {
                Some((psx, pad)) => if i != 511 && sx == psx + size && ad == pad + size {
                    DumpLine::Continued(level as usize)
                } else {
                    DumpLine::Mapping(level as usize, sx, ad)
                },
                None => DumpLine::Mapping(level as usize, sx, ad),
            };
            seq![line] + dump_lines(v, t, level, virt, i + 1, Some((sx, ad)))
        } else if next_table(v, t, i) is Some {
            let c = child(v, t, i);
            if any_present(v, c) {
                seq![DumpLine::Table(level as usize, sx, c)] + dump_lines(v, c, level + 1, addr, 0, None)
                    + dump_lines(v, t, level, virt, i + 1, prev)
            } else {
                dump_lines(v, t, level, virt, i + 1, prev)
            }
        } else {
            seq![DumpLine::Unknown(e.0, e.spec_addr())] + dump_lines(v, t, level, virt, i + 1, prev)
        }
    }
}

/// 2 to the power `k`, for the shifts of the dump.
pub open spec fn pow2_shift(k: int) -> int {
    if k == 12 {
        0x1000
    } else if k == 21 {
        0x20_0000
    } else if k == 30 {
        0x4000_0000
    } else {
        0x80_0000_0000
    }
}

/// The slots, with their addresses, of the pages `[lo, hi)` that `walk` finds.
pub open spec fn slots(v: Map<usize, Seq<MapEntry>>, root: usize, lo: int, hi: int) -> Seq<
    (usize, int, int),
>
    decreases hi - lo,
{
    if hi <= lo {
        Seq::empty()
    } else {
        let s = slots(v, root, lo, hi - 1);
        match walk(v, root, (hi - 1) * 4096) {
            Some((t, i)) => s.push((t, i, (hi - 1) * 4096)),
            None => s,
        }
    }
}

/// The number that the first `n` indices give as digits in base 512, the first one highest.
pub open spec fn digits(ind: Seq<usize>, n: int) -> int
    decreases n,
{
    if n <= 0 {
        0
    } else {
        digits(ind, n - 1) * 512 + ind[n - 1]
    }
}

/// 512 to the power `n`.
pub open spec fn pow512(n: int) -> int
    decreases n,
{
    if n <= 0 {
        1
    } else {
        pow512(n - 1) * 512
    }
}

/// The tables `maps[0..k]` are tables, all different, each pointing at the index `ind` gives
/// for it to the next.
pub open spec fn chain_ok(v: Map<usize, Seq<MapEntry>>, maps: Seq<usize>, ind: Seq<usize>, k: int) -> bool {
    &&& forall|l: int| 0 <= l < k ==> v.dom().contains(#[trigger] maps[l])
    &&& forall|l: int| 0 <= l < k - 1 ==> next_table(v, maps[l], ind[l] as int) == Some(#[trigger] maps[l + 1])
    &&& forall|a: int, b: int| 0 <= a < b < k ==> #[trigger] maps[a] != #[trigger] maps[b]
}

/// Whether the way down from the table `t` at level `l` to level `n`, along the indices
/// `ind`, can be made with `pages` pages of memory for new tables: at each level the entry
/// is empty, and then a new, empty table is needed for it and for each level after it, or it
/// points to a table that is not one of `seen`, the tables already on the way.
pub open spec fn chain_can(
    v: Map<usize, Seq<MapEntry>>,
    t: usize,
    ind: Seq<usize>,
    l: int,
    n: int,
    seen: Seq<usize>,
    pages: int,
) -> bool
    decreases n - l,
{
    if l >= n {
        true
    } else if v[t][ind[l] as int].spec_addr() == 0 {
        pages >= n - l
    } else {
        let c = child(v, t, ind[l] as int);
        v.dom().contains(c) && !seen.contains(c) && chain_can(v, c, ind, l + 1, n, seen.push(c), pages)
    }
}

/// The tables after the way down from the table `t` at level `l` to level `n`, along the
/// indices `ind`, is made: an empty entry on the way gets a new, empty table at the next
/// free page, from the physical address `next` on, with the flags of its slot; nothing else
/// changes.
pub open spec fn path_fill(
    v: Map<usize, Seq<MapEntry>>,
    t: usize,
    ind: Seq<usize>,
    l: int,
    n: int,
    next: int,
) -> Map<usize, Seq<MapEntry>>
    decreases n - l,
{
    if l >= n {
        v
    } else if v[t][ind[l] as int].spec_addr() != 0 {
        path_fill(v, child(v, t, ind[l] as int), ind, l + 1, n, next)
    } else {
        let nt = next as usize;
        let v2 = v.insert(nt, zero_table()).insert(
            t,
            v[t].update(ind[l] as int, table_entry(nt, table_flags(ind[l] as int))),
        );
        path_fill(v2, nt, ind, l + 1, n, next + 4096)
    }
}

/// The number of new tables that the way down from `t` at level `l` to level `n` takes.
pub open spec fn path_pages(v: Map<usize, Seq<MapEntry>>, t: usize, ind: Seq<usize>, l: int, n: int) -> int
    decreases n - l,
{
    if l >= n {
        0
    } else if v[t][ind[l] as int].spec_addr() != 0 {
        path_pages(v, child(v, t, ind[l] as int), ind, l + 1, n)
    } else {
        n - l
    }
}

/// Below an empty table every entry is empty, so the way down needs one new table per level.
pub(crate) proof fn lemma_chain_can_empty(
    v: Map<usize, Seq<MapEntry>>,
    t: usize,
    ind: Seq<usize>,
    l: int,
    n: int,
    seen: Seq<usize>,
    pages: int,
)
    requires
        v.dom().contains(t),
        v[t] == zero_table(),
        0 <= l < ind.len(),
        ind[l] < 512,
    ensures
        chain_can(v, t, ind, l, n, seen, pages) == (l >= n || pages >= n - l),
        path_pages(v, t, ind, l, n) == if l >= n {
            0
        } else {
            n - l
        },
{
    let z = MapEntry(0);
    assert(z.spec_addr() == 0) by {
        assert(0u64 & MASK_ADDR == 0) by (bit_vector);
    }
    assert(v[t][ind[l] as int] == z);
}

/// The deepest level in `[0, idx]` whose index can move on to the next slot of its table;
/// -1 when every index there is at the last slot.
pub open spec fn carry_level(ind: Seq<usize>, idx: int) -> int
    decreases idx + 1,
{
    if idx < 0 {
        -1
    } else if ind[idx] + 1 < 512 {
        idx
    } else {
        carry_level(ind, idx - 1)
    }
}

/// The indices after moving on at level `c`: index `c` one more, the indices of the levels
/// after it, up to `idx`, back to 0.
pub open spec fn bumped(ind: Seq<usize>, c: int, idx: int) -> Seq<usize> {
    Seq::new(
        ind.len(),
        |l: int|
            if l == c {
                (ind[c] + 1) as usize
            } else if c < l <= idx {
                0usize
            } else {
                ind[l]
            },
    )
}

proof fn lemma_carry_level(ind: Seq<usize>, idx: int)
    requires
        -1 <= idx < ind.len(),
        forall|l: int| 0 <= l < ind.len() ==> #[trigger] ind[l] < 512,
    ensures
        -1 <= carry_level(ind, idx) <= idx,
        carry_level(ind, idx) >= 0 ==> ind[carry_level(ind, idx)] + 1 < 512,
        idx >= 0 ==> carry_level(ind, idx) == if ind[idx] + 1 < 512 {
            idx
        } else {
            carry_level(ind, idx - 1)
        },
    decreases idx + 1,
{
    if idx >= 0 && ind[idx] + 1 >= 512 {
        lemma_carry_level(ind, idx - 1);
    }
}

/// The carry level of indices that agree up to level `k` is the same.
proof fn lemma_carry_agree(a: Seq<usize>, b: Seq<usize>, k: int)
    requires
        forall|l: int| 0 <= l <= k ==> #[trigger] a[l] == b[l],
    ensures
        carry_level(a, k) == carry_level(b, k),
    decreases k + 1,
{
    if k >= 0 {
        assert(a[k] == b[k]);
        lemma_carry_agree(a, b, k - 1);
    }
}

/// A way down that can be made to level `n` can be made to any level before it.
proof fn lemma_chain_can_prefix(
    v: Map<usize, Seq<MapEntry>>,
    t: usize,
    ind: Seq<usize>,
    l: int,
    m: int,
    n: int,
    seen: Seq<usize>,
    pages: int,
)
    requires
        m <= n,
        chain_can(v, t, ind, l, n, seen, pages),
    ensures
        chain_can(v, t, ind, l, m, seen, pages),
    decreases n - l,
{
    if l < m && v[t][ind[l] as int].spec_addr() != 0 {
        let c = child(v, t, ind[l] as int);
        lemma_chain_can_prefix(v, c, ind, l + 1, m, n, seen.push(c), pages);
    }
}

/// One step of the way down, at level `l`: into the table `m` the entry points to, or into
/// the new, empty table `m` made for an empty entry with one of the `p1` pages.
proof fn lemma_chain_step(
    v1: Map<usize, Seq<MapEntry>>,
    v2: Map<usize, Seq<MapEntry>>,
    t: usize,
    m: usize,
    ind: Seq<usize>,
    l: int,
    n: int,
    seen: Seq<usize>,
    p1: int,
    p2: int,
)
    requires
        0 <= l < n <= ind.len(),
        forall|k: int| 0 <= k < ind.len() ==> #[trigger] ind[k] < 512,
        v1[t][ind[l] as int].spec_addr() != 0 ==> {
            &&& m == child(v1, t, ind[l] as int)
            &&& v1.dom().contains(m)
            &&& !seen.contains(m)
            &&& v2 == v1
            &&& p2 == p1
        },
        v1[t][ind[l] as int].spec_addr() == 0 ==> {
            &&& v2.dom().contains(m)
            &&& v2[m] == zero_table()
            &&& p1 >= 1
            &&& p2 == p1 - 1
        },
    ensures
        chain_can(v1, t, ind, l, n, seen, p1) == chain_can(v2, m, ind, l + 1, n, seen.push(m), p2),
{
    if v1[t][ind[l] as int].spec_addr() == 0 && l + 1 < n {
        lemma_chain_can_empty(v2, m, ind, l + 1, n, seen.push(m), p2);
    }
}

/// What taking the next slot from a page-table iterator gave.
pub enum Next {
    /// The slot: the table and the index of the entry in it.
    Slot(usize, usize),
    /// The iterator has gone past the last slot.
    End,
    /// A table was needed and no memory was left for it, or a table pointed to memory that
    /// is not one of the tables, or back to a table above it.
    Failed,
}

/// Walks the last-level slots of page tables one after the other, from a given address on,
/// creating the tables on the way. `N` levels are walked: 4 for pages, 3 for large pages.
pub struct MemoryMapIterator<const N: usize> {
    indices: Vec<usize>,
    maps: Vec<usize>,
    has: bool,
}

/// The conditions under which tables can be taken from the early allocator.
pub open spec fn early_ok(v: Map<usize, Seq<MapEntry>>, early: EarlyAllocator, hhdm: Hhdm) -> bool {
    &&& early.wf()
    &&& early.spec_memory() > hhdm.spec_offset()
    &&& early.spec_memory() % 4096 == 0
    &&& early.spec_memory() - hhdm.spec_offset() + early.spec_length() <= 0x10_0000_0000_0000
    &&& below(v, early.spec_memory() - hhdm.spec_offset())
}

impl<const N: usize> MemoryMapIterator<N> {
    /// The index at each level of the current slot, from the top level down.
    pub closed spec fn spec_indices(&self) -> Seq<usize> {
        self.indices@
    }

    /// The table at each level on the way to the current slot.
    pub closed spec fn spec_maps(&self) -> Seq<usize> {
        self.maps@
    }

    /// Whether there is a current slot.
    pub closed spec fn spec_has(&self) -> bool {
        self.has
    }

    /// Whether there is a current slot.
    pub fn has(&self) -> (r: bool)
        ensures
            r == self.spec_has(),
    {
        self.has
    }

    /// The number of the current slot, counting from the first slot of the address space.
    pub open spec fn position(&self) -> int {
        digits(self.spec_indices(), N as int)
    }

    /// The iterator is consistent with the tables `v`.
    pub open spec fn wf(&self, v: Map<usize, Seq<MapEntry>>) -> bool {
        &&& 1 <= N <= 4
        &&& self.spec_indices().len() == N
        &&& self.spec_maps().len() == N
        &&& forall|l: int| 0 <= l < N ==> #[trigger] self.spec_indices()[l] < 512
        &&& self.spec_has() ==> chain_ok(v, self.spec_maps(), self.spec_indices(), N as int)
    }
}

proof fn lemma_chain_grows(
    v: Map<usize, Seq<MapEntry>>,
    w: Map<usize, Seq<MapEntry>>,
    maps: Seq<usize>,
    ind: Seq<usize>,
    k: int,
)
    requires
        chain_ok(v, maps, ind, k),
        grows(v, w),
        forall|l: int| 0 <= l < k ==> #[trigger] ind[l] < 512,
    ensures
        chain_ok(w, maps, ind, k),
{
    assert forall|l: int| 0 <= l < k - 1 implies next_table(w, maps[l], ind[l] as int) == Some(
        #[trigger] maps[l + 1],
    ) by {
        assert(next_table(v, maps[l], ind[l] as int) == Some(maps[l + 1]));
        assert(v[maps[l]][ind[l] as int].spec_addr() != 0);
        assert(w[maps[l]][ind[l] as int] == v[maps[l]][ind[l] as int]);
    }
}

impl PageTables {
    /// Whether a table sits at `addr`.
    pub fn contains(&self, addr: usize) -> (r: bool)
        requires
            self.wf(),
        ensures
            r == self@.dom().contains(addr),
    {
        match self.find(addr) {
            Some(i) => {
                proof {
                    self.lemma_view_at(i as int);
                }
                true
            },
            None => false,
        }
    }

    /// The table that entry `index` of the table at `table` points to, when it points to one
    /// of the tables.
    fn next(&self, table: usize, index: usize) -> (r: Option<usize>)
        requires
            self.wf(),
            self@.dom().contains(table),
            index < 512,
        ensures
            r == next_table(self@, table, index as int),
    {
        let e = self.entry(table, index);
        if e.0 & MASK_ADDR == 0 {
            return None;
        }
        let t = e.addr();
        if self.contains(t) {
            Some(t)
        } else {
            None
        }
    }

    /// The slot that maps `addr` below the top-level table at `root`.
    pub fn at_addr(&self, root: usize, addr: VirtAddrPageAligned) -> (r: Option<(usize, usize)>)
        requires
            self.wf(),
            self@.dom().contains(root),
        ensures
            match walk(self@, root, addr@ as int) {
                None => r is None,
                Some((t, i)) => r == Some((t, i as usize)),
            },
    {
        let ind = MemoryMap::get_indices(addr);
        let t3 = match self.next(root, ind[0]) {
            None => return None,
            Some(t) => t,
        };
        let t2 = match self.next(t3, ind[1]) {
            None => return None,
            Some(t) => t,
        };
        let t1 = match self.next(t2, ind[2]) {
            None => return None,
            Some(t) => t,
        };
        Some((t1, ind[3]))
    }

    /// The slot that maps the large page at `addr` below the top-level table at `root`.
    pub fn at_addr_large(&self, root: usize, addr: VirtAddrPageAligned) -> (r: Option<(usize, usize)>)
        requires
            self.wf(),
            self@.dom().contains(root),
        ensures
            match walk_large(self@, root, addr@ as int) {
                None => r is None,
                Some((t, i)) => r == Some((t, i as usize)),
            },
    {
        let ind = MemoryMap::get_indices(addr);
        let t3 = match self.next(root, ind[0]) {
            None => return None,
            Some(t) => t,
        };
        let t2 = match self.next(t3, ind[1]) {
            None => return None,
            Some(t) => t,
        };
        Some((t2, ind[2]))
    }

    /// Whether, below `root`, the entry of the page at `addr` is `e`.
    pub fn maps(&self, root: usize, addr: VirtAddrPageAligned, e: MapEntry) -> (r: bool)
        requires
            self.wf(),
            self@.dom().contains(root),
        ensures
            r == maps_page(self@, root, addr@ as int, e),
    {
        match self.at_addr(root, addr) {
            None => false,
            Some((t, i)) => self.entry(t, i).0 == e.0,
        }
    }

    /// Whether, below `root`, the entry of the large page at `addr` is `e`.
    pub fn maps_large(&self, root: usize, addr: VirtAddrPageAligned, e: MapEntry) -> (r: bool)
        requires
            self.wf(),
            self@.dom().contains(root),
        ensures
            r == maps_large_page(self@, root, addr@ as int, e),
    {
        match self.at_addr_large(root, addr) {
            None => false,
            Some((t, i)) => self.entry(t, i).0 == e.0,
        }
    }

    /// Whether some entry of the table at `t` is present.
    fn has_present(&self, t: usize) -> (r: bool)
        requires
            self.wf(),
            self@.dom().contains(t),
        ensures
            r == any_present(self@, t),
    {
        let mut j: usize = 0;
        while j < 512
            invariant
                self.wf(),
                self@.dom().contains(t),
                j <= 512,
                forall|k: int| 0 <= k < j ==> !(#[trigger] self@[t][k]).has(FLAG_PRESENT),
            decreases 512 - j,
        {
            if self.entry(t, j).is_present() {
                return true;
            }
            j = j + 1;
        }
        false
    }

    /// The lines of a dump of the table at `table` of dump level `level` (0 for the top-level
    /// table), which maps from `virt` on, from entry `skip` on.
    pub fn dump(&self, table: usize, level: usize, virt: u64, skip: usize) -> (r: Vec<DumpLine>)
        requires
            self.wf(),
            self@.dom().contains(table),
            level <= 3,
        ensures
            r@ == dump_lines(self@, table, level as int, virt, skip as int, None),
        decreases 4 - level,
    {
        let shift: u64 = 12 + 9 * (3 - level as u64);
        let size: u64 = if level == 3 {
            0x1000
        } else if level == 2 {
            0x20_0000
        } else if level == 1 {
            0x4000_0000
        } else {
            0x80_0000_0000
        };
        let ghost whole = dump_lines(self@, table, level as int, virt, skip as int, None);
        let mut out: Vec<DumpLine> = Vec::new();
        let mut prev: Option<(u64, u64)> = None;
        let mut i: usize = skip;
        if i > 512 {
            i = 512;
        }
        proof {
            assert(out@ + dump_lines(self@, table, level as int, virt, i as int, prev) =~= whole);
        }
        while i < 512
            invariant
                self.wf(),
                self@.dom().contains(table),
                level <= 3,
                shift == dump_shift(level as int),
                size == pow2_shift(dump_shift(level as int)),
                i <= 512,
                whole == dump_lines(self@, table, level as int, virt, skip as int, None),
                out@ + dump_lines(self@, table, level as int, virt, i as int, prev) == whole,
            decreases 512 - i,
        {
            let ghost rest = dump_lines(self@, table, level as int, virt, i as int, prev);
            let e = self.entry(table, i);
            let addr = virt | ((i as u64) << shift);
            let sx = MemoryMap::sign_extend_addr(addr);
            if !e.is_present() {
                proof {
                    assert(rest == dump_lines(self@, table, level as int, virt, i + 1, prev));
                }
            } else if level == 3 || e.is_large() {
                let ad = e.0 & MASK_ADDR;
                let line = match prev {
                    Some((psx, pad)) => if i != 511 && psx <= u64::MAX - size && sx == psx + size && pad
                        <= u64::MAX - size && ad == pad + size {
                        DumpLine::Continued(level)
                    } else {
                        DumpLine::Mapping(level, sx, ad)
                    },
                    None => DumpLine::Mapping(level, sx, ad),
                };
                proof {
                    assert(rest == seq![line] + dump_lines(self@, table, level as int, virt, i + 1, Some((sx, ad))));
                }
                out.push(line);
                prev = Some((sx, ad));
                proof {
                    assert(out@ + dump_lines(self@, table, level as int, virt, i + 1, prev) =~= whole);
                }
            } else {
                match self.next(table, i) {
                    Some(c) => {
                        if self.has_present(c) {
                            out.push(DumpLine::Table(level, sx, c));
                            let mut sub = self.dump(c, level + 1, addr, 0);
                            let ghost before = out@;
                            out.append(&mut sub);
                            proof {
                                assert(rest == seq![DumpLine::Table(level, sx, c)] + dump_lines(
                                    self@,
                                    c,
                                    level + 1,
                                    addr,
                                    0,
                                    None,
                                ) + dump_lines(self@, table, level as int, virt, i + 1, prev));
                                assert(out@ + dump_lines(self@, table, level as int, virt, i + 1, prev)
                                    =~= whole);
                            }
                        } else {
                            proof {
                                assert(rest == dump_lines(self@, table, level as int, virt, i + 1, prev));
                            }
                        }
                    },
                    None => {
                        let line = DumpLine::Unknown(e.0, e.0 & MASK_ADDR);
                        proof {
                            assert(rest == seq![line] + dump_lines(self@, table, level as int, virt, i + 1, prev));
                        }
                        out.push(line);
                        proof {
                            assert(out@ + dump_lines(self@, table, level as int, virt, i + 1, prev) =~= whole);
                        }
                    },
                }
            }
            i = i + 1;
        }
        proof {
            assert(dump_lines(self@, table, level as int, virt, i as int, prev) =~= Seq::<DumpLine>::empty());
            assert(out@ =~= whole);
        }
        out
    }

    /// The slots, with their addresses, of the pages from `start` up to `end` that have one.
    pub fn iter_present_in_range(
        &self,
        root: usize,
        start: VirtAddrPageAligned,
        end: VirtAddrPageAligned,
    ) -> (r: Vec<(usize, usize, VirtAddrPageAligned)>)
        requires
            self.wf(),
            self@.dom().contains(root),
        ensures
            r@.map_values(|x: (usize, usize, VirtAddrPageAligned)| (x.0, x.1 as int, x.2@ as int))
                == slots(self@, root, (start@ / 4096) as int, (end@ / 4096) as int),
    {
        let lo = start.page_count();
        let hi = end.page_count();
        let mut out: Vec<(usize, usize, VirtAddrPageAligned)> = Vec::new();
        let mut page = lo.count();
        proof {
            assert(out@.map_values(|x: (usize, usize, VirtAddrPageAligned)| (x.0, x.1 as int, x.2@ as int))
                =~= slots(self@, root, lo@ as int, lo@ as int));
        }
        while page < hi.count()
            invariant
                self.wf(),
                self@.dom().contains(root),
                lo@ <= page,
                page <= hi@ || page == lo@,
                hi@ == end@ / 4096,
                lo@ == start@ / 4096,
                out@.map_values(|x: (usize, usize, VirtAddrPageAligned)| (x.0, x.1 as int, x.2@ as int))
                    == slots(self@, root, lo@ as int, page as int),
            decreases hi@ - page,
        {
            assert(page * 4096 <= usize::MAX) by (nonlinear_arith)
                requires
                    page < hi@,
                    hi@ == end@ / 4096,
                    end@ <= usize::MAX,
            ;
            let addr = PageCount::new(page).as_virt_addr();
            let ghost prev = out@;
            match self.at_addr(root, addr) {
                Some((t, i)) => {
                    out.push((t, i, addr));
                },
                None => {},
            }
            proof {
                assert(out@.map_values(|x: (usize, usize, VirtAddrPageAligned)| (x.0, x.1 as int, x.2@ as int))
                    =~= slots(self@, root, lo@ as int, page + 1));
            }
            page = page + 1;
        }
        proof {
            if page != hi@ {
                assert(slots(self@, root, lo@ as int, hi@ as int) =~= Seq::empty());
            }
        }
        out
    }
}

/// The digits number depends only on the first `n` indices.
proof fn lemma_digits_prefix(a: Seq<usize>, b: Seq<usize>, n: int)
    requires
        0 <= n <= a.len(),
        n <= b.len(),
        forall|l: int| 0 <= l < n ==> a[l] == b[l],
    ensures
        digits(a, n) == digits(b, n),
    decreases n,
{
    if n > 0 {
        lemma_digits_prefix(a, b, n - 1);
    }
}

/// Growing twice is growing.
proof fn lemma_grows_trans(
    a: Map<usize, Seq<MapEntry>>,
    b: Map<usize, Seq<MapEntry>>,
    c: Map<usize, Seq<MapEntry>>,
)
    requires
        grows(a, b),
        grows(b, c),
    ensures
        grows(a, c),
{
    assert forall|t: usize, i: int|
        a.dom().contains(t) && 0 <= i < 512 && (#[trigger] a[t][i]).spec_addr() != 0 implies c[t][i]
        == a[t][i] by {
        assert(b[t][i] == a[t][i]);
    }
}

/// Whether `m` is one of `maps[0..k]`.
fn in_prefix(maps: &Vec<usize>, k: usize, m: usize) -> (r: bool)
    requires
        k <= maps@.len(),
    ensures
        r == exists|l: int| 0 <= l < k && maps@[l] == m,
{
    let mut l: usize = 0;
    while l < k
        invariant
            l <= k,
            k <= maps@.len(),
            forall|j: int| 0 <= j < l ==> maps@[j] != m,
        decreases k - l,
    {
        if maps[l] == m {
            return true;
        }
        l = l + 1;
    }
    false
}

/// The way down from `t0` at level `c` matches the one from `t1` at level `idx - 1` (the
/// tables there and then), and one more step goes from `t1` into `m`: so the way down from
/// `t0` matches the one from `m` at level `idx`.
proof fn lemma_residual_step(
    v0: Map<usize, Seq<MapEntry>>,
    v1: Map<usize, Seq<MapEntry>>,
    v2: Map<usize, Seq<MapEntry>>,
    t0: usize,
    seen0: Seq<usize>,
    p0: int,
    t1: usize,
    seen1: Seq<usize>,
    p1: int,
    m: usize,
    p2: int,
    c: int,
    idx: int,
    nb: Seq<usize>,
    n_levels: int,
)
    requires
        0 <= c < idx < n_levels,
        forall|ind2: Seq<usize>, n: int|
            #![trigger chain_can(v0, t0, ind2, c, n, seen0, p0)]
            idx - 1 <= n <= n_levels && ind2.len() == n_levels && (forall|l: int|
                0 <= l < n_levels ==> #[trigger] ind2[l] < 512) && (forall|l: int|
                c <= l <= idx - 1 ==> #[trigger] ind2[l] == nb[l]) ==> chain_can(v0, t0, ind2, c, n, seen0, p0)
                == chain_can(v1, t1, ind2, idx - 1, n, seen1, p1),
        v1[t1][nb[idx - 1] as int].spec_addr() != 0 ==> {
            &&& m == child(v1, t1, nb[idx - 1] as int)
            &&& v1.dom().contains(m)
            &&& !seen1.contains(m)
            &&& v2 == v1
            &&& p2 == p1
        },
        v1[t1][nb[idx - 1] as int].spec_addr() == 0 ==> {
            &&& v2.dom().contains(m)
            &&& v2[m] == zero_table()
            &&& p1 >= 1
            &&& p2 == p1 - 1
        },
    ensures
        forall|ind2: Seq<usize>, n: int|
            #![trigger chain_can(v0, t0, ind2, c, n, seen0, p0)]
            idx <= n <= n_levels && ind2.len() == n_levels && (forall|l: int|
                0 <= l < n_levels ==> #[trigger] ind2[l] < 512) && (forall|l: int|
                c <= l <= idx ==> #[trigger] ind2[l] == nb[l]) ==> chain_can(v0, t0, ind2, c, n, seen0, p0)
                == chain_can(v2, m, ind2, idx, n, seen1.push(m), p2),
{
    assert forall|ind2: Seq<usize>, n: int|
        #![trigger chain_can(v0, t0, ind2, c, n, seen0, p0)]
        idx <= n <= n_levels && ind2.len() == n_levels && (forall|l: int|
            0 <= l < n_levels ==> #[trigger] ind2[l] < 512) && (forall|l: int|
            c <= l <= idx ==> #[trigger] ind2[l] == nb[l]) implies chain_can(v0, t0, ind2, c, n, seen0, p0)
        == chain_can(v2, m, ind2, idx, n, seen1.push(m), p2) by {
        assert(forall|l: int| c <= l <= idx - 1 ==> #[trigger] ind2[l] == nb[l]);
        assert(chain_can(v0, t0, ind2, c, n, seen0, p0) == chain_can(v1, t1, ind2, idx - 1, n, seen1, p1));
        assert(ind2[idx - 1] == nb[idx - 1]);
        lemma_chain_step(v1, v2, t1, m, ind2, idx - 1, n, seen1, p1, p2);
    }
}

impl<const N: usize> MemoryMapIterator<N> {
    /// Moves the indices `0..=idx` one slot on, carrying into the levels above, and finds
    /// the tables on the new way down, creating them where needed. `Some(false)` when the
    /// levels `0..=idx` had reached their last slot, `None` when a table on the new way down
    /// could not be had.
    #[verifier::rlimit(100)]
    #[verifier::spinoff_prover]
    fn increment(
        &mut self,
        idx: usize,
        tables: &mut PageTables,
        early: &mut EarlyAllocator,
        hhdm: &Hhdm,
    ) -> (r: Option<bool>)
        requires
            1 <= N <= 4,
            idx < N,
            old(self).spec_indices().len() == N,
            old(self).spec_maps().len() == N,
            forall|l: int| 0 <= l < N ==> #[trigger] old(self).spec_indices()[l] < 512,
            old(tables).wf(),
            chain_ok(old(tables)@, old(self).spec_maps(), old(self).spec_indices(), idx + 1),
            early_ok(old(tables)@, *old(early), *hhdm),
        ensures
            final(tables).wf(),
            early_ok(final(tables)@, *final(early), *hhdm),
            final(early).spec_start_length() == old(early).spec_start_length(),
            grows(old(tables)@, final(tables)@),
            final(self).spec_indices().len() == N,
            final(self).spec_maps().len() == N,
            forall|l: int| 0 <= l < N ==> #[trigger] final(self).spec_indices()[l] < 512,
            final(self).spec_has() == old(self).spec_has(),
            final(self).spec_maps()[0] == old(self).spec_maps()[0],
            forall|l: int|
                idx < l < N ==> #[trigger] final(self).spec_indices()[l] == old(self).spec_indices()[l]
                    && final(self).spec_maps()[l] == old(self).spec_maps()[l],
            r == Some(true) ==> chain_ok(
                final(tables)@,
                final(self).spec_maps(),
                final(self).spec_indices(),
                idx + 1,
            ) && digits(final(self).spec_indices(), idx + 1) == digits(
                old(self).spec_indices(),
                idx + 1,
            ) + 1,
            r == Some(false) ==> digits(old(self).spec_indices(), idx + 1) + 1 == pow512(idx + 1),
            old(self).spec_indices()[idx as int] + 1 < 512 ==> final(tables)@ == old(tables)@
                && *final(early) == *old(early) && final(self).spec_maps() == old(self).spec_maps(),
            ({
                let ind = old(self).spec_indices();
                let maps = old(self).spec_maps();
                let c = carry_level(ind, idx as int);
                let nb = bumped(ind, c, idx as int);
                let p0 = (old(early).spec_length() / 4096) as int;
                &&& r == if c < 0 {
                    Some(false)
                } else if chain_can(old(tables)@, maps[c], nb, c, idx as int, maps.take(c + 1), p0) {
                    Some(true)
                } else {
                    None::<bool>
                }
                &&& r == Some(true) ==> forall|l: int| 0 <= l <= idx ==> #[trigger] final(self).spec_indices()[l] == nb[l]
                &&& r == Some(true) ==> forall|ind2: Seq<usize>, n: int|
                    #![trigger chain_can(old(tables)@, maps[c], ind2, c, n, maps.take(c + 1), p0)]
                    idx <= n <= N && ind2.len() == N && (forall|l: int| 0 <= l < N ==> #[trigger] ind2[l] < 512)
                        && (forall|l: int| c <= l <= idx ==> #[trigger] ind2[l] == nb[l]) ==> chain_can(
                        old(tables)@,
                        maps[c],
                        ind2,
                        c,
                        n,
                        maps.take(c + 1),
                        p0,
                    ) == chain_can(
                        final(tables)@,
                        final(self).spec_maps()[idx as int],
                        ind2,
                        idx as int,
                        n,
                        final(self).spec_maps().take(idx + 1),
                        (final(early).spec_length() / 4096) as int,
                    )
            }),
        decreases idx,
    {
        let ghost ind0 = self.indices@;
        let ghost maps0 = self.maps@;
        let ghost v0 = tables@;
        let ghost e0 = *early;
        proof {
            lemma_carry_level(ind0, idx as int);
            if idx > 0 {
                lemma_carry_level(ind0, idx - 1);
            }
        }
        let ghost c = carry_level(ind0, idx as int);
        let ghost nb = bumped(ind0, c, idx as int);
        let v = self.indices[idx] + 1;
        if v < 512 {
            self.indices.set(idx, v);
            proof {
                lemma_digits_prefix(self.indices@, ind0, idx as int);
                reveal_with_fuel(digits, 2);
                assert(c == idx);
                assert(maps0.take(c + 1) == self.maps@.take(idx + 1));
            }
            return Some(true);
        }
        assert(!(ind0[idx as int] + 1 < 512));
        self.indices.set(idx, 0);
        let ghost ind1 = self.indices@;
        proof {
            lemma_digits_prefix(ind1, ind0, idx as int);
        }
        if idx == 0 {
            proof {
                reveal_with_fuel(digits, 2);
                reveal_with_fuel(pow512, 2);
            }
            return Some(false);
        }
        let ghost maps1 = self.maps@;
        proof {
            assert(ind1 == ind0.update(idx as int, 0usize));
            assert(carry_level(ind1, idx - 1) == c) by {
                lemma_carry_agree(ind0, ind1, idx - 1);
            }
            assert(bumped(ind1, c, idx - 1) =~= nb);
        }
        let res = self.increment(idx - 1, tables, early, hhdm);
        let ghost ind2 = self.indices@;
        let ghost maps15 = self.maps@;
        let ghost v1 = tables@;
        let ghost e1 = *early;
        proof {
            assert forall|l: int| idx < l < N implies #[trigger] ind2[l] == ind0[l] && maps15[l]
                == maps1[l] by {
                assert(ind2[l] == ind1[l]);
                assert(maps15[l] == maps1[l]);
            }
        }
        let ghost p0 = (e0.spec_length() / 4096) as int;
        let ghost p1 = (e1.spec_length() / 4096) as int;
        proof {
            assert(maps1 == maps0);
            assert forall|l: int| 0 <= l < N implies #[trigger] nb[l] < 512 by {
                if l == c {
                    assert(ind0[c] + 1 < 512);
                }
            }
        }
        let r = match res {
            None => {
                proof {
                    assert(c >= 0);
                    if chain_can(v0, maps0[c], nb, c, idx as int, maps0.take(c + 1), p0) {
                        lemma_chain_can_prefix(v0, maps0[c], nb, c, idx - 1, idx as int, maps0.take(c + 1), p0);
                    }
                }
                None
            },
            Some(false) => {
                proof {
                    reveal_with_fuel(digits, 2);
                }
                Some(false)
            },
            Some(true) => {
                proof {
                    assert(ind2 =~= nb);
                    assert(chain_can(v0, maps0[c], nb, c, idx as int, maps0.take(c + 1), p0) == chain_can(
                        v1,
                        maps15[idx - 1],
                        nb,
                        idx - 1,
                        idx as int,
                        maps15.take(idx as int),
                        p1,
                    ));
                }
                if self.descend(idx, tables, early, hhdm) {
                    proof {
                        let v2 = tables@;
                        let m = self.maps@[idx as int];
                        let p2 = (early.spec_length() / 4096) as int;
                        assert(self.maps@.take(idx + 1) =~= maps15.take(idx as int).push(m));
                        lemma_residual_step(
                            v0,
                            v1,
                            v2,
                            maps0[c],
                            maps0.take(c + 1),
                            p0,
                            maps15[idx - 1],
                            maps15.take(idx as int),
                            p1,
                            m,
                            p2,
                            c,
                            idx as int,
                            nb,
                            N as int,
                        );
                        reveal_with_fuel(digits, 2);
                        lemma_digits_prefix(ind1, ind0, idx as int);
                    }
                    Some(true)
                } else {
                    None
                }
            },
        };
        proof {
            assert forall|l: int| idx < l < N implies #[trigger] self.spec_indices()[l] == ind0[l]
                && self.spec_maps()[l] == maps1[l] by {
                assert(self.indices@[l] == ind2[l]);
                if l != idx {
                    assert(self.maps@[l] == maps15[l]);
                }
            }
        }
        r
    }

    /// Finds the table at level `idx` on the way down, below the entry of the table at level
    /// `idx - 1` at that level's index, creating it where the entry is empty. `false` when the
    /// table could not be had, or the entry points to memory that is not one of the tables, or
    /// back to a table above it.
    fn descend(&mut self, idx: usize, tables: &mut PageTables, early: &mut EarlyAllocator, hhdm: &Hhdm) -> (r:
        bool)
        requires
            1 <= N <= 4,
            1 <= idx < N,
            old(self).spec_indices().len() == N,
            old(self).spec_maps().len() == N,
            forall|l: int| 0 <= l < N ==> #[trigger] old(self).spec_indices()[l] < 512,
            old(tables).wf(),
            chain_ok(old(tables)@, old(self).spec_maps(), old(self).spec_indices(), idx as int),
            early_ok(old(tables)@, *old(early), *hhdm),
        ensures
            final(tables).wf(),
            early_ok(final(tables)@, *final(early), *hhdm),
            final(early).spec_start_length() == old(early).spec_start_length(),
            grows(old(tables)@, final(tables)@),
            final(self).spec_indices() == old(self).spec_indices(),
            final(self).spec_has() == old(self).spec_has(),
            final(self).spec_maps() == old(self).spec_maps().update(idx as int, final(self).spec_maps()[idx as int]),
            !r ==> final(self).spec_maps() == old(self).spec_maps(),
            ({
                let v1 = old(tables)@;
                let upper = old(self).spec_maps()[idx - 1];
                let index = old(self).spec_indices()[idx - 1] as int;
                let seen = old(self).spec_maps().take(idx as int);
                let m = final(self).spec_maps()[idx as int];
                let p1 = (old(early).spec_length() / 4096) as int;
                let p2 = (final(early).spec_length() / 4096) as int;
                &&& r == chain_can(v1, upper, old(self).spec_indices(), idx - 1, idx as int, seen, p1)
                &&& r ==> chain_ok(final(tables)@, final(self).spec_maps(), final(self).spec_indices(), idx + 1)
                &&& r && v1[upper][index].spec_addr() != 0 ==> {
                    &&& m == child(v1, upper, index)
                    &&& v1.dom().contains(m)
                    &&& !seen.contains(m)
                    &&& final(tables)@ == v1
                    &&& p2 == p1
                }
                &&& r && v1[upper][index].spec_addr() == 0 ==> {
                    &&& final(tables)@.dom().contains(m)
                    &&& final(tables)@[m] == zero_table()
                    &&& p1 >= 1
                    &&& p2 == p1 - 1
                }
            }),
    {
        let ghost v1 = tables@;
        let ghost e1 = *early;
        let ghost maps15 = self.maps@;
        let ghost ind2 = self.indices@;
        let ghost p1 = (e1.spec_length() / 4096) as int;
        let upper = self.maps[idx - 1];
        let index = self.indices[idx - 1];
        proof {
            tables.lemma_tables_len();
        }
        let ghost fresh = v1[upper][index as int].spec_addr() == 0;
        match tables.map_or_insert(upper, index, early, hhdm) {
            None => {
                proof {
                    assert(fresh && e1.spec_length() < 4096);
                    assert(p1 == 0);
                }
                false
            },
            Some(m) => {
                let ghost e2 = *early;
                proof {
                    if fresh {
                        assert(!v1.dom().contains(m));
                        assert forall|l: int| 0 <= l < idx implies maps15[l] != m by {
                            assert(v1.dom().contains(maps15[l]));
                        }
                    }
                }
                if !tables.contains(m) || in_prefix(&self.maps, idx, m) {
                    proof {
                        assert(!fresh);
                        if !tables@.dom().contains(m) {
                        } else {
                            let l = choose|l: int| 0 <= l < idx && maps15[l] == m;
                            assert(maps15.take(idx as int)[l] == m);
                            assert(maps15.take(idx as int).contains(m));
                        }
                        assert(m == child(v1, upper, index as int));
                        assert(!chain_can(v1, upper, ind2, idx - 1, idx as int, maps15.take(idx as int), p1));
                        assert(self.maps@ == self.maps@.update(idx as int, self.maps@[idx as int]));
                    }
                    false
                } else {
                    let ghost v2 = tables@;
                    let ghost maps2 = self.maps@;
                    self.maps.set(idx, m);
                    proof {
                        let p2 = (e2.spec_length() / 4096) as int;
                        if fresh {
                            assert(p2 == p1 - 1) by (nonlinear_arith)
                                requires
                                    e2.spec_length() == e1.spec_length() - 4096,
                                    e1.spec_length() >= 4096,
                                    p1 == e1.spec_length() / 4096,
                                    p2 == e2.spec_length() / 4096,
                            ;
                            assert(v2[m] == zero_table());
                        } else {
                            assert forall|l: int| 0 <= l < idx implies maps15[l] != m by {
                            }
                            assert(!maps15.take(idx as int).contains(m));
                            assert(m == child(v1, upper, index as int));
                        }
                        assert(chain_can(v1, m, ind2, idx as int, idx as int, maps15.take(idx as int).push(m), p1));
                        assert(chain_can(v1, upper, ind2, idx - 1, idx as int, maps15.take(idx as int), p1));
                        lemma_chain_grows(v1, v2, maps2, ind2, idx as int);
                        assert(v2[upper][index as int].spec_addr() != 0);
                        assert(next_table(v2, upper, index as int) == Some(m));
                        let maps3 = self.maps@;
                        assert forall|l: int| 0 <= l < idx - 1 implies next_table(
                            v2,
                            maps3[l],
                            ind2[l] as int,
                        ) == Some(#[trigger] maps3[l + 1]) by {
                            assert(maps3[l] == maps2[l] && maps3[l + 1] == maps2[l + 1]);
                        }
                        assert forall|a: int, b: int| 0 <= a < b < idx + 1 implies #[trigger] maps3[a]
                            != #[trigger] maps3[b] by {
                            if b == idx {
                                assert(maps2[a] != m);
                            } else {
                                assert(maps3[a] == maps2[a] && maps3[b] == maps2[b]);
                            }
                        }
                        assert(chain_ok(v2, maps3, ind2, idx + 1));
                    }
                    true
                }
            },
        }
    }

    /// The current slot, after which the iterator moves to the next one.
    pub fn try_next(&mut self, tables: &mut PageTables, early: &mut EarlyAllocator, hhdm: &Hhdm) -> (r:
        Next)
        requires
            old(self).wf(old(tables)@),
            old(tables).wf(),
            early_ok(old(tables)@, *old(early), *hhdm),
        ensures
            final(tables).wf(),
            early_ok(final(tables)@, *final(early), *hhdm),
            final(early).spec_start_length() == old(early).spec_start_length(),
            grows(old(tables)@, final(tables)@),
            final(self).wf(final(tables)@),
            final(self).spec_maps()[0] == old(self).spec_maps()[0],
            !old(self).spec_has() ==> r is End && final(tables)@ == old(tables)@ && *final(early)
                == *old(early) && !final(self).spec_has(),
            old(self).spec_has() ==> match r {
                Next::Slot(t, i) => {
                    &&& t == old(self).spec_maps()[N - 1]
                    &&& i == old(self).spec_indices()[N - 1]
                    &&& final(self).spec_has() ==> final(self).position() == old(self).position() + 1
                    &&& !final(self).spec_has() ==> old(self).position() + 1 == pow512(N as int)
                },
                Next::End => false,
                Next::Failed => !final(self).spec_has(),
            },
            old(self).spec_has() && old(self).spec_indices()[N - 1] + 1 < 512 ==> {
                &&& r == Next::Slot(old(self).spec_maps()[N - 1], old(self).spec_indices()[N - 1])
                &&& final(tables)@ == old(tables)@
                &&& *final(early) == *old(early)
                &&& final(self).spec_has()
                &&& final(self).spec_maps() == old(self).spec_maps()
                &&& final(self).spec_indices() == old(self).spec_indices().update(
                    N - 1,
                    (old(self).spec_indices()[N - 1] + 1) as usize,
                )
            },
    {
        if !self.has {
            return Next::End;
        }
        let idx = self.indices[N - 1];
        let map = self.maps[N - 1];
        match self.increment(N - 1, tables, early, hhdm) {
            Some(more) => {
                self.has = more;
                Next::Slot(map, idx)
            },
            None => {
                self.has = false;
                Next::Failed
            },
        }
    }

    /// The current slot, after which the iterator moves to the next one; `None` when a table
    /// could not be had. There must be a current slot.
    pub fn next(&mut self, tables: &mut PageTables, early: &mut EarlyAllocator, hhdm: &Hhdm) -> (r:
        Option<(usize, usize)>)
        requires
            old(self).wf(old(tables)@),
            old(self).spec_has(),
            old(tables).wf(),
            early_ok(old(tables)@, *old(early), *hhdm),
        ensures
            final(tables).wf(),
            early_ok(final(tables)@, *final(early), *hhdm),
            final(early).spec_start_length() == old(early).spec_start_length(),
            grows(old(tables)@, final(tables)@),
            final(self).wf(final(tables)@),
            final(self).spec_maps()[0] == old(self).spec_maps()[0],
            match r {
                Some((t, i)) => {
                    &&& t == old(self).spec_maps()[N - 1]
                    &&& i == old(self).spec_indices()[N - 1]
                    &&& final(self).spec_has() ==> final(self).position() == old(self).position() + 1
                    &&& !final(self).spec_has() ==> old(self).position() + 1 == pow512(N as int)
                },
                None => !final(self).spec_has(),
            },
    {
        match self.try_next(tables, early, hhdm) {
            Next::Slot(t, i) => Some((t, i)),
            _ => None,
        }
    }
}

impl PageTables {
    /// Checks that `m` is a table and not one of `maps`, then adds it to them.
    fn extend_chain(&self, maps: &mut Vec<usize>, m: usize) -> (r: bool)
        requires
            self.wf(),
        ensures
            r == (self@.dom().contains(m) && !old(maps)@.contains(m)),
            r ==> final(maps)@ == old(maps)@.push(m),
            !r ==> final(maps)@ == old(maps)@,
    {
        let k = maps.len();
        if !self.contains(m) || in_prefix(maps, k, m) {
            proof {
                if old(maps)@.contains(m) {
                    let l = choose|l: int| 0 <= l < old(maps)@.len() && old(maps)@[l] == m;
                    assert(exists|l: int| 0 <= l < k && maps@[l] == m);
                }
            }
            return false;
        }
        maps.push(m);
        true
    }

    /// An iterator over the page slots from `addr` on, below the top-level table at `root`;
    /// the tables on the way to the first slot are created where needed. `None` when a table
    /// could not be had.
    pub fn iterate(
        &mut self,
        root: usize,
        addr: VirtAddrPageAligned,
        early: &mut EarlyAllocator,
        hhdm: &Hhdm,
    ) -> (r: Option<MemoryMapIterator<4>>)
        requires
            old(self).wf(),
            old(self)@.dom().contains(root),
            early_ok(old(self)@, *old(early), *hhdm),
        ensures
            final(self).wf(),
            early_ok(final(self)@, *final(early), *hhdm),
            final(early).spec_start_length() == old(early).spec_start_length(),
            grows(old(self)@, final(self)@),
            r matches Some(it) ==> {
                &&& it.wf(final(self)@)
                &&& it.spec_has()
                &&& it.spec_maps()[0] == root
                &&& it.spec_indices() == seq![
                    index_at(addr@ as int, 4) as usize,
                    index_at(addr@ as int, 3) as usize,
                    index_at(addr@ as int, 2) as usize,
                    index_at(addr@ as int, 1) as usize,
                ]
            },
            r is Some == chain_can(
                old(self)@,
                root,
                seq![
                    index_at(addr@ as int, 4) as usize,
                    index_at(addr@ as int, 3) as usize,
                    index_at(addr@ as int, 2) as usize,
                    index_at(addr@ as int, 1) as usize,
                ],
                0,
                3,
                seq![root],
                (old(early).spec_length() / 4096) as int,
            ),
            r is Some ==> {
                let ind = seq![
                    index_at(addr@ as int, 4) as usize,
                    index_at(addr@ as int, 3) as usize,
                    index_at(addr@ as int, 2) as usize,
                    index_at(addr@ as int, 1) as usize,
                ];
                let k = path_pages(old(self)@, root, ind, 0, 3);
                &&& final(self)@ == path_fill(
                    old(self)@,
                    root,
                    ind,
                    0,
                    3,
                    old(early).spec_memory() - hhdm.spec_offset(),
                )
                &&& final(early).spec_memory() == old(early).spec_memory() + 4096 * k
                &&& final(early).spec_length() == old(early).spec_length() - 4096 * k
            },
    {
        let ghost v0 = self@;
        let ind = MemoryMap::get_indices(addr);
        let mut maps: Vec<usize> = Vec::new();
        maps.push(root);
        let ghost ok0 = chain_can(v0, root, ind@, 0, 3, seq![root], (old(early).spec_length() / 4096) as int);
        proof {
            assert(maps@ == seq![root]);
            assert(ok0 == chain_can(
                old(self)@,
                root,
                seq![
                    index_at(addr@ as int, 4) as usize,
                    index_at(addr@ as int, 3) as usize,
                    index_at(addr@ as int, 2) as usize,
                    index_at(addr@ as int, 1) as usize,
                ],
                0,
                3,
                seq![root],
                (old(early).spec_length() / 4096) as int,
            ));
        }
        let mut level: usize = 0;
        while level < 3
            invariant
                level <= 3,
                self.wf(),
                early_ok(self@, *early, *hhdm),
                early.spec_start_length() == old(early).spec_start_length(),
                v0 == old(self)@,
                grows(v0, self@),
                maps@.len() == level + 1,
                maps@[0] == root,
                ind@.len() == 4,
                forall|l: int| 0 <= l < 4 ==> #[trigger] ind@[l] < 512,
                chain_ok(self@, maps@, ind@, level + 1),
                ok0 == chain_can(self@, maps@[level as int], ind@, level as int, 3, maps@, (early.spec_length() / 4096) as int),
                ok0 ==> path_fill(v0, root, ind@, 0, 3, old(early).spec_memory() - hhdm.spec_offset())
                    == path_fill(self@, maps@[level as int], ind@, level as int, 3, early.spec_memory() - hhdm.spec_offset()),
                ok0 ==> old(early).spec_memory() + 4096 * path_pages(v0, root, ind@, 0, 3) == early.spec_memory()
                    + 4096 * path_pages(self@, maps@[level as int], ind@, level as int, 3),
                ok0 ==> old(early).spec_length() - 4096 * path_pages(v0, root, ind@, 0, 3) == early.spec_length()
                    - 4096 * path_pages(self@, maps@[level as int], ind@, level as int, 3),
                ok0 == chain_can(
                    old(self)@,
                    root,
                    seq![
                        index_at(addr@ as int, 4) as usize,
                        index_at(addr@ as int, 3) as usize,
                        index_at(addr@ as int, 2) as usize,
                        index_at(addr@ as int, 1) as usize,
                    ],
                    0,
                    3,
                    seq![root],
                    (old(early).spec_length() / 4096) as int,
                ),
            decreases 3 - level,
        {
            let ghost v1 = self@;
            let ghost e1 = *early;
            let upper = maps[level];
            proof {
                self.lemma_tables_len();
            }
            let m = match self.map_or_insert(upper, ind[level], early, hhdm) {
                None => {
                    proof {
                        lemma_grows_trans(v0, v1, self@);
                        assert(v1[upper][ind@[level as int] as int].spec_addr() == 0);
                        assert(e1.spec_length() / 4096 == 0);
                        assert(!ok0);
                    }
                    return None;
                },
                Some(m) => m,
            };
            proof {
                lemma_grows_trans(v0, v1, self@);
            }
            let ghost maps1 = maps@;
            let ghost fresh = v1[upper][ind@[level as int] as int].spec_addr() == 0;
            proof {
                if fresh {
                    assert(!v1.dom().contains(m));
                    assert(!maps1.contains(m));
                    assert((e1.spec_length() - 4096) / 4096 == e1.spec_length() / 4096 - 1) by (nonlinear_arith)
                        requires
                            e1.spec_length() >= 4096,
                    ;
                    assert(self@[m] == zero_table());
                    lemma_chain_can_empty(self@, m, ind@, level + 1, 3, maps1.push(m), (early.spec_length() / 4096) as int);
                }
            }
            if !self.extend_chain(&mut maps, m) {
                proof {
                    assert(!fresh);
                    assert(self@ == v1 && *early == e1);
                    assert(m == child(v1, upper, ind@[level as int] as int));
                    assert(!ok0);
                }
                return None;
            }
            proof {
                assert(maps@[level + 1] == m);
                lemma_chain_grows(v1, self@, maps1, ind@, level + 1);
                assert(self@[upper][ind@[level as int] as int].spec_addr() != 0);
                let maps2 = maps@;
                assert forall|l: int| 0 <= l < level + 1 implies self@.dom().contains(#[trigger] maps2[l]) by {
                    if l < level + 1 {
                        assert(maps2[l] == maps1[l]);
                    }
                }
                assert forall|l: int| 0 <= l < level + 1 implies next_table(self@, maps2[l], ind@[l] as int)
                    == Some(#[trigger] maps2[l + 1]) by {
                    assert(maps2[l] == maps1[l]);
                    if l < level {
                        assert(maps2[l + 1] == maps1[l + 1]);
                    }
                }
                assert forall|a: int, b: int| 0 <= a < b < level + 2 implies #[trigger] maps2[a]
                    != #[trigger] maps2[b] by {
                    if b == level + 1 {
                        assert(maps1[a] == maps2[a]);
                        assert(!maps1.contains(m));
                    } else {
                        assert(maps1[a] == maps2[a] && maps1[b] == maps2[b]);
                    }
                }
            }
            level = level + 1;
        }
        let indices = vec![ind[0], ind[1], ind[2], ind[3]];
        let it = MemoryMapIterator::<4> { indices, maps, has: true };
        proof {
            assert(it.spec_indices() =~= ind@);
        }
        Some(it)
    }

    /// An iterator over the large-page slots from `addr` on, below the top-level table at
    /// `root`; the tables on the way to the first slot are created where needed. `None` when
    /// a table could not be had.
    pub fn iterate_3(
        &mut self,
        root: usize,
        addr: VirtAddrPageAligned,
        early: &mut EarlyAllocator,
        hhdm: &Hhdm,
    ) -> (r: Option<MemoryMapIterator<3>>)
        requires
            old(self).wf(),
            old(self)@.dom().contains(root),
            early_ok(old(self)@, *old(early), *hhdm),
        ensures
            final(self).wf(),
            early_ok(final(self)@, *final(early), *hhdm),
            final(early).spec_start_length() == old(early).spec_start_length(),
            grows(old(self)@, final(self)@),
            r matches Some(it) ==> {
                &&& it.wf(final(self)@)
                &&& it.spec_has()
                &&& it.spec_maps()[0] == root
                &&& it.spec_indices() == seq![
                    index_at(addr@ as int, 4) as usize,
                    index_at(addr@ as int, 3) as usize,
                    index_at(addr@ as int, 2) as usize,
                ]
            },
            r is Some == chain_can(
                old(self)@,
                root,
                seq![
                    index_at(addr@ as int, 4) as usize,
                    index_at(addr@ as int, 3) as usize,
                    index_at(addr@ as int, 2) as usize,
                    index_at(addr@ as int, 1) as usize,
                ],
                0,
                2,
                seq![root],
                (old(early).spec_length() / 4096) as int,
            ),
            r is Some ==> {
                let ind = seq![
                    index_at(addr@ as int, 4) as usize,
                    index_at(addr@ as int, 3) as usize,
                    index_at(addr@ as int, 2) as usize,
                    index_at(addr@ as int, 1) as usize,
                ];
                let k = path_pages(old(self)@, root, ind, 0, 2);
                &&& final(self)@ == path_fill(
                    old(self)@,
                    root,
                    ind,
                    0,
                    2,
                    old(early).spec_memory() - hhdm.spec_offset(),
                )
                &&& final(early).spec_memory() == old(early).spec_memory() + 4096 * k
                &&& final(early).spec_length() == old(early).spec_length() - 4096 * k
            },
    {
        let ghost v0 = self@;
        let ind = MemoryMap::get_indices(addr);
        let mut maps: Vec<usize> = Vec::new();
        maps.push(root);
        let ghost ok0 = chain_can(v0, root, ind@, 0, 2, seq![root], (old(early).spec_length() / 4096) as int);
        proof {
            assert(maps@ == seq![root]);
            assert(ok0 == chain_can(
                old(self)@,
                root,
                seq![
                    index_at(addr@ as int, 4) as usize,
                    index_at(addr@ as int, 3) as usize,
                    index_at(addr@ as int, 2) as usize,
                    index_at(addr@ as int, 1) as usize,
                ],
                0,
                2,
                seq![root],
                (old(early).spec_length() / 4096) as int,
            ));
        }
        let mut level: usize = 0;
        while level < 2
            invariant
                level <= 2,
                self.wf(),
                early_ok(self@, *early, *hhdm),
                early.spec_start_length() == old(early).spec_start_length(),
                v0 == old(self)@,
                grows(v0, self@),
                maps@.len() == level + 1,
                maps@[0] == root,
                ind@.len() == 4,
                forall|l: int| 0 <= l < 4 ==> #[trigger] ind@[l] < 512,
                chain_ok(self@, maps@, ind@, level + 1),
                ok0 == chain_can(self@, maps@[level as int], ind@, level as int, 2, maps@, (early.spec_length() / 4096) as int),
                ok0 ==> path_fill(v0, root, ind@, 0, 2, old(early).spec_memory() - hhdm.spec_offset())
                    == path_fill(self@, maps@[level as int], ind@, level as int, 2, early.spec_memory() - hhdm.spec_offset()),
                ok0 ==> old(early).spec_memory() + 4096 * path_pages(v0, root, ind@, 0, 2) == early.spec_memory()
                    + 4096 * path_pages(self@, maps@[level as int], ind@, level as int, 2),
                ok0 ==> old(early).spec_length() - 4096 * path_pages(v0, root, ind@, 0, 2) == early.spec_length()
                    - 4096 * path_pages(self@, maps@[level as int], ind@, level as int, 2),
                ok0 == chain_can(
                    old(self)@,
                    root,
                    seq![
                        index_at(addr@ as int, 4) as usize,
                        index_at(addr@ as int, 3) as usize,
                        index_at(addr@ as int, 2) as usize,
                        index_at(addr@ as int, 1) as usize,
                    ],
                    0,
                    2,
                    seq![root],
                    (old(early).spec_length() / 4096) as int,
                ),
            decreases 2 - level,
        {
            let ghost v1 = self@;
            let ghost e1 = *early;
            let upper = maps[level];
            proof {
                self.lemma_tables_len();
            }
            let m = match self.map_or_insert(upper, ind[level], early, hhdm) {
                None => {
                    proof {
                        lemma_grows_trans(v0, v1, self@);
                        assert(v1[upper][ind@[level as int] as int].spec_addr() == 0);
                        assert(e1.spec_length() / 4096 == 0);
                        assert(!ok0);
                    }
                    return None;
                },
                Some(m) => m,
            };
            proof {
                lemma_grows_trans(v0, v1, self@);
            }
            let ghost maps1 = maps@;
            let ghost fresh = v1[upper][ind@[level as int] as int].spec_addr() == 0;
            proof {
                if fresh {
                    assert(!v1.dom().contains(m));
                    assert(!maps1.contains(m));
                    assert((e1.spec_length() - 4096) / 4096 == e1.spec_length() / 4096 - 1) by (nonlinear_arith)
                        requires
                            e1.spec_length() >= 4096,
                    ;
                    assert(self@[m] == zero_table());
                    lemma_chain_can_empty(self@, m, ind@, level + 1, 2, maps1.push(m), (early.spec_length() / 4096) as int);
                }
            }
            if !self.extend_chain(&mut maps, m) {
                proof {
                    assert(!fresh);
                    assert(self@ == v1 && *early == e1);
                    assert(m == child(v1, upper, ind@[level as int] as int));
                    assert(!ok0);
                }
                return None;
            }
            proof {
                assert(maps@[level + 1] == m);
                lemma_chain_grows(v1, self@, maps1, ind@, level + 1);
                assert(self@[upper][ind@[level as int] as int].spec_addr() != 0);
                let maps2 = maps@;
                assert forall|l: int| 0 <= l < level + 1 implies self@.dom().contains(#[trigger] maps2[l]) by {
                    assert(maps2[l] == maps1[l]);
                }
                assert forall|l: int| 0 <= l < level + 1 implies next_table(self@, maps2[l], ind@[l] as int)
                    == Some(#[trigger] maps2[l + 1]) by {
                    assert(maps2[l] == maps1[l]);
                    if l < level {
                        assert(maps2[l + 1] == maps1[l + 1]);
                    }
                }
                assert forall|a: int, b: int| 0 <= a < b < level + 2 implies #[trigger] maps2[a]
                    != #[trigger] maps2[b] by {
                    if b == level + 1 {
                        assert(maps1[a] == maps2[a]);
                        assert(!maps1.contains(m));
                    } else {
                        assert(maps1[a] == maps2[a] && maps1[b] == maps2[b]);
                    }
                }
            }
            level = level + 1;
        }
        let indices = vec![ind[0], ind[1], ind[2]];
        let it = MemoryMapIterator::<3> { indices, maps, has: true };
        proof {
            assert(it.spec_indices() =~= ind@.take(3));
            assert forall|l: int| 0 <= l < 2 implies next_table(self@, it.spec_maps()[l], it.spec_indices()[l] as int)
                == Some(#[trigger] it.spec_maps()[l + 1]) by {
                assert(it.spec_indices()[l] == ind@[l]);
            }
        }
        Some(it)
    }
}

impl<const N: usize> MemoryMapIterator<N> {
    /// Writes `e` into the current slot, then moves on to the next slot as `next` does.
    /// `false` when a table could not be had.
    pub fn write_next(
        &mut self,
        tables: &mut PageTables,
        early: &mut EarlyAllocator,
        hhdm: &Hhdm,
        e: MapEntry,
    ) -> (r: bool)
        requires
            old(self).wf(old(tables)@),
            old(self).spec_has(),
            old(tables).wf(),
            early_ok(old(tables)@, *old(early), *hhdm),
        ensures
            final(tables).wf(),
            early_ok(final(tables)@, *final(early), *hhdm),
            final(early).spec_start_length() == old(early).spec_start_length(),
            ({
                let t = old(self).spec_maps()[N - 1];
                let i = old(self).spec_indices()[N - 1] as int;
                grows(old(tables)@.insert(t, old(tables)@[t].update(i, e)), final(tables)@)
            }),
            keeps_tables(old(tables)@, final(tables)@),
            final(self).wf(final(tables)@),
            final(self).spec_maps()[0] == old(self).spec_maps()[0],
            r ==> (final(self).spec_has() ==> final(self).position() == old(self).position() + 1),
            r ==> (!final(self).spec_has() ==> old(self).position() + 1 == pow512(N as int)),
            !r ==> !final(self).spec_has(),
            old(self).spec_indices()[N - 1] + 1 < 512 ==> {
                let t = old(self).spec_maps()[N - 1];
                let i = old(self).spec_indices()[N - 1] as int;
                &&& r
                &&& final(tables)@ == old(tables)@.insert(t, old(tables)@[t].update(i, e))
                &&& *final(early) == *old(early)
                &&& final(self).spec_has()
                &&& final(self).spec_maps() == old(self).spec_maps()
                &&& final(self).spec_indices() == old(self).spec_indices().update(
                    N - 1,
                    (old(self).spec_indices()[N - 1] + 1) as usize,
                )
            },
    {
        let t = self.maps[N - 1];
        let i = self.indices[N - 1];
        let ghost v0 = tables@;
        proof {
            tables.lemma_tables_len();
        }
        tables.set_entry(t, i, e);
        proof {
            let v1 = tables@;
            let maps = self.spec_maps();
            let ind = self.spec_indices();
            assert forall|l: int| 0 <= l < N - 1 implies next_table(v1, maps[l], ind[l] as int) == Some(
                #[trigger] maps[l + 1],
            ) by {
                assert(maps[l] != t);
                assert(next_table(v0, maps[l], ind[l] as int) == Some(maps[l + 1]));
            }
            assert(chain_ok(v1, maps, ind, N as int));
            assert forall|u: usize| #[trigger] v1.dom().contains(u) implies u < early.spec_memory()
                - hhdm.spec_offset() by {
                assert(v0.dom().contains(u));
            }
            tables.lemma_tables_len();
        }
        let ghost v1 = tables@;
        let r = match self.try_next(tables, early, hhdm) {
            Next::Slot(_, _) => true,
            _ => false,
        };
        proof {
            assert forall|u: usize| #[trigger] v0.dom().contains(u) implies tables@.dom().contains(u) by {
                assert(v1.dom().contains(u));
            }
        }
        r
    }
}

} // verus!
