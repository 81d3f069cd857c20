//! A bitmap page allocator with a stack of buddy levels.
//!
//! Level 0 holds one bit per page (set: in use); the levels above it halve
//! the number of words each. All levels live in one buffer of 64-bit words,
//! one level after the other.
use vstd::prelude::*;
use crate::memory::address;
use crate::memory::address::PAGE_SHIFT;
use crate::memory::physical::allocator::{
    AllocState,
    all_clear,
    first_clear,
    first_fit,
    run_ok,
    scan_ok,
    scan_pages_ok,
    set_data_used,
    MemoryAllocator,
    alloc_page_ok,
    alloc_page_spec,
    dealloc_page_ok,
    dealloc_page_spec,
    alloc_pages_ok,
    alloc_pages_spec,
    dealloc_pages_ok,
    dealloc_pages_spec,
    add_range_ok,
};
use crate::memory::physical::bits::{
    fill_range,
    bits_of,
    word_bit,
    lemma_bits_set,
    lemma_bits_clear,
    lemma_bits_fill,
    lemma_bits_fill_value,
    lemma_bit_test,
};

verus! {

/// Words per level-0 word of the buffer, as a shift: one word holds 64 pages.
pub const PAGE_DATA_SHIFT: u8 = 6;
pub const PAGE_DATA_FULL: u64 = 0xffff_ffff_ffff_ffff;
pub const PAGE_DATA_SIZE: usize = 64;
pub const PAGE_DATA_MASK: usize = 63;

/// The page allocator; `N` is the number of buddy levels.
pub struct BuddyAllocator<const N: usize> {
    data: Vec<u64>,
    levels: Vec<usize>,
    page_data_size: usize,
    num_page_data_elements: usize,
    start_page: usize,
    end_page: usize,
    enabled: bool,
    first_free: usize,
    last_free: usize,
}

/// The bit of level `l` above bit `i` of level 0.
pub open spec fn level_index(i: usize, l: int) -> int {
    (i >> (l as usize)) as int
}

/// The buddy, at level `m - 1`, of the bit of that level above bit `i` of level 0.
pub open spec fn buddy_index(i: usize, m: int) -> int {
    ((i >> ((m - 1) as usize)) ^ 1usize) as int
}

/// A bit's buddy is another bit of its level.
proof fn lemma_buddy_other(i: usize, m: int)
    requires
        1 <= m <= 64,
    ensures
        buddy_index(i, m) != level_index(i, m - 1),
{
    let k = (m - 1) as usize;
    assert(((i >> k) ^ 1usize) != i >> k) by (bit_vector);
}

impl<const N: usize> BuddyAllocator<N> {
    /// The words of level `level`.
    pub closed spec fn level_words(&self, level: int) -> Seq<u64> {
        self.data@.subrange(self.levels@[level] as int, self.levels@[level + 1] as int)
    }

    /// The number of words of level `level`.
    pub closed spec fn level_len(&self, level: int) -> int {
        self.levels@[level + 1] - self.levels@[level]
    }

    /// The bits of level `level`.
    pub closed spec fn bits(&self, level: int) -> Seq<bool> {
        bits_of(self.level_words(level))
    }

    /// The page bits of level 0 (empty when there are no levels).
    pub closed spec fn used(&self) -> Seq<bool> {
        if N >= 1 {
            self.bits(0)
        } else {
            Seq::empty()
        }
    }

    /// The internal layout is consistent.
    pub closed spec fn inv(&self) -> bool {
        &&& self.levels@.len() == N + 1
        &&& self.levels@[0] == 0
        &&& forall|i: int, j: int|
            0 <= i <= j <= N ==> #[trigger] self.levels@[i] <= #[trigger] self.levels@[j]
        &&& self.levels@[N as int] <= self.data@.len()
        &&& self.data@.len() * 64 <= usize::MAX
        &&& self.num_page_data_elements * 64 <= usize::MAX
        &&& self.enabled ==> self.start_page < self.end_page
        &&& self.start_page * 4096 <= usize::MAX
        &&& self.end_page * 4096 <= usize::MAX
    }

    /// The allocator's state.
    pub closed spec fn view_state(&self) -> AllocState {
        AllocState {
            used: self.used(),
            start_page: self.start_page,
            end_page: self.end_page,
            enabled: self.enabled,
            first_free: self.first_free,
            last_free: self.last_free,
            page_data_size: self.page_data_size,
            num_page_data_elements: self.num_page_data_elements,
            levels: N as nat,
        }
    }

    /// Everything but the words of the buffer is as in `old`.
    closed spec fn same_but_data(&self, old: &Self) -> bool {
        &&& self.levels@ == old.levels@
        &&& self.data@.len() == old.data@.len()
        &&& self.page_data_size == old.page_data_size
        &&& self.num_page_data_elements == old.num_page_data_elements
        &&& self.start_page == old.start_page
        &&& self.end_page == old.end_page
        &&& self.enabled == old.enabled
        &&& self.first_free == old.first_free
        &&& self.last_free == old.last_free
    }

    /// The bits of every level but `level` are as in `old`.
    closed spec fn other_levels_same(&self, old: &Self, level: int) -> bool {
        forall|l: int| 0 <= l < N && l != level ==> #[trigger] self.bits(l) == old.bits(l)
    }

    /// An allocator with no bookkeeping memory that manages nothing.
    pub fn default() -> (r: Self)
        ensures
            r.inv(),
            !r.view_state().enabled,
            r.view_state().first_free == 0,
            r.view_state().last_free == usize::MAX,
            r.view_state().used.len() == 0,
            r.view_state() == Self::initial_state(),
    {
        let mut levels: Vec<usize> = Vec::new();
        levels.push(0);
        let mut i: usize = 0;
        while i < N
            invariant
                i <= N,
                levels@.len() == i + 1,
                forall|k: int| 0 <= k <= i ==> levels@[k] == 0,
            decreases N - i,
        {
            levels.push(0);
            i = i + 1;
        }
        let r = BuddyAllocator {
            data: Vec::new(),
            levels,
            page_data_size: 0,
            num_page_data_elements: 0,
            start_page: 0,
            end_page: 0,
            enabled: false,
            first_free: 0,
            last_free: usize::MAX,
        };
        proof {
            if N >= 1 {
                assert(r.level_words(0) =~= Seq::<u64>::empty());
                assert(r.bits(0) =~= Seq::<bool>::empty());
            }
            assert(r.view_state().used =~= Seq::<bool>::empty());
        }
        r
    }

    /// The state of an allocator that manages nothing yet.
    pub open spec fn initial_state() -> AllocState {
        AllocState {
            used: Seq::empty(),
            start_page: 0,
            end_page: 0,
            enabled: false,
            first_free: 0,
            last_free: usize::MAX,
            page_data_size: 0,
            num_page_data_elements: 0,
            levels: N as nat,
        }
    }

    proof fn lemma_bit_index(&self, level: int, i: usize)
        requires
            self.inv(),
            0 <= level < N,
            i / 64 < self.level_len(level as int),
        ensures
            self.levels@[level] + i / 64 < self.levels@[level + 1] <= self.data@.len(),
            self.bits(level).len() == (self.levels@[level + 1] - self.levels@[level]) * 64,
            i < self.bits(level).len(),
            self.bits(level)[i as int] == word_bit(
                self.data@[self.levels@[level] + i / 64],
                (i % 64) as int,
            ),
    {
        assert(self.levels@[level + 1] <= self.levels@[N as int]);
        assert(self.levels@[level] <= self.levels@[level + 1]);
    }

    proof fn lemma_word_update(&self, old: &Self, level: int, k: int, w: u64)
        requires
            old.inv(),
            0 <= level < N,
            old.levels@[level] <= k < old.levels@[level + 1],
            self.levels@ == old.levels@,
            self.data@ == old.data@.update(k, w),
        ensures
            self.level_words(level) == old.level_words(level).update(k - old.levels@[level], w),
            self.other_levels_same(old, level),
    {
        assert(old.levels@[level + 1] <= old.levels@[N as int]);
        assert(self.level_words(level) =~= old.level_words(level).update(k - old.levels@[level], w));
        assert forall|l: int| 0 <= l < N && l != level implies #[trigger] self.bits(l) == old.bits(l) by {
            if l < level {
                assert(old.levels@[l + 1] <= old.levels@[level]);
            } else {
                assert(old.levels@[level + 1] <= old.levels@[l]);
            }
            assert(old.levels@[l] <= old.levels@[l + 1]);
            assert(old.levels@[l + 1] <= old.levels@[N as int]);
            assert(self.level_words(l) =~= old.level_words(l));
        }
    }

    proof fn lemma_used_index(&self, i: usize)
        requires
            self.inv(),
            N >= 1,
            i < self.used().len(),
        ensures
            i / 64 < self.level_len(0),
            self.used() == self.bits(0),
    {
        assert(self.levels@[0] <= self.levels@[1]);
        assert(self.levels@[1] <= self.levels@[N as int]);
        assert(i / 64 < self.level_len(0)) by (nonlinear_arith)
            requires
                i < self.level_len(0) * 64,
        ;
    }

    proof fn lemma_used_range(&self, i: usize, n: usize)
        requires
            self.inv(),
            N >= 1 || n == 0,
            i + n <= self.used().len(),
        ensures
            N >= 1 ==> i + n <= self.level_len(0) * 64,
            N >= 1 ==> self.used() == self.bits(0),
    {
        if N >= 1 {
            assert(self.levels@[0] <= self.levels@[1]);
            assert(self.levels@[1] <= self.levels@[N as int]);
        }
    }

    /// Whether bit `i` of level `level` is set.
    fn alloc_get(&self, level: usize, i: usize) -> (r: bool)
        requires
            self.inv(),
            level < N,
            i / 64 < self.level_len(level as int),
        ensures
            r == self.bits(level as int)[i as int],
    {
        proof {
            self.lemma_bit_index(level as int, i);
        }
        let b = (i & PAGE_DATA_MASK) as u64;
        proof {
            address::lemma_usize_bits(i);
        }
        let w = self.data[self.levels[level] + (i >> (PAGE_DATA_SHIFT as usize))];
        proof {
            lemma_bit_test(w, b);
        }
        w & (1u64 << b) != 0
    }

    /// Sets bit `i` of level `level` and tells whether it was set before.
    fn alloc_get_set(&mut self, level: usize, i: usize) -> (r: bool)
        requires
            old(self).inv(),
            level < N,
            i / 64 < old(self).level_len(level as int),
        ensures
            final(self).inv(),
            r == old(self).bits(level as int)[i as int],
            final(self).bits(level as int) == old(self).bits(level as int).update(i as int, true),
            final(self).other_levels_same(old(self), level as int),
            final(self).same_but_data(old(self)),
    {
        let set = self.alloc_get(level, i);
        self.alloc_set(level, i);
        set
    }

    /// Sets bit `i` of level `level`.
    fn alloc_set(&mut self, level: usize, i: usize)
        requires
            old(self).inv(),
            level < N,
            i / 64 < old(self).level_len(level as int),
        ensures
            final(self).inv(),
            final(self).bits(level as int) == old(self).bits(level as int).update(i as int, true),
            final(self).other_levels_same(old(self), level as int),
            final(self).same_but_data(old(self)),
    {
        proof {
            self.lemma_bit_index(level as int, i);
        }
        proof {
            address::lemma_usize_bits(i);
        }
        let b = (i & PAGE_DATA_MASK) as u64;
        let k = self.levels[level] + (i >> (PAGE_DATA_SHIFT as usize));
        let w = self.data[k] | (1u64 << b);
        let ghost old_self = *self;
        self.data.set(k, w);
        proof {
            self.lemma_word_update(&old_self, level as int, k as int, w);
            lemma_bits_set(old_self.level_words(level as int), i as int);
        }
    }

    /// Clears bit `i` of level `level`.
    fn alloc_unset(&mut self, level: usize, i: usize)
        requires
            old(self).inv(),
            level < N,
            i / 64 < old(self).level_len(level as int),
        ensures
            final(self).inv(),
            final(self).bits(level as int) == old(self).bits(level as int).update(i as int, false),
            final(self).other_levels_same(old(self), level as int),
            final(self).same_but_data(old(self)),
    {
        proof {
            self.lemma_bit_index(level as int, i);
        }
        proof {
            address::lemma_usize_bits(i);
        }
        let b = (i & PAGE_DATA_MASK) as u64;
        let k = self.levels[level] + (i >> (PAGE_DATA_SHIFT as usize));
        let w = self.data[k] & !(1u64 << b);
        let ghost old_self = *self;
        self.data.set(k, w);
        proof {
            self.lemma_word_update(&old_self, level as int, k as int, w);
            lemma_bits_clear(old_self.level_words(level as int), i as int);
        }
    }

    /// Sets (`set`) or clears the `n` bits of level `level` from bit `i`: bit by bit up to
    /// a word boundary, then whole words, then bit by bit again.
    fn alloc_modify_n(&mut self, level: usize, i: usize, n: usize, set: bool)
        requires
            old(self).inv(),
            level < N,
            i + n <= old(self).level_len(level as int) * 64,
            i + n <= usize::MAX,
        ensures
            final(self).inv(),
            final(self).bits(level as int) == fill_range(
                old(self).bits(level as int),
                i as int,
                i + n,
                set,
            ),
            final(self).other_levels_same(old(self), level as int),
            final(self).same_but_data(old(self)),
    {
        let ghost orig = *self;
        let ghost i0 = i as int;
        let ghost end: int = i + n;
        let mut i = i;
        let mut n = n;
        proof {
            assert(self.bits(level as int) =~= fill_range(orig.bits(level as int), i0, i0, set));
        }
        while i & PAGE_DATA_MASK != 0 && n > 0
            invariant
                self.inv(),
                level < N,
                i0 <= i,
                i + n == end,
                end <= usize::MAX,
                end <= orig.level_len(level as int) * 64,
                self.bits(level as int) == fill_range(orig.bits(level as int), i0, i as int, set),
                self.other_levels_same(&orig, level as int),
                self.same_but_data(&orig),
                orig.inv(),
                orig.bits(level as int).len() == orig.level_len(level as int) * 64,
            decreases n,
        {
            proof {
                assert(i / 64 < self.level_len(level as int)) by (nonlinear_arith)
                    requires
                        i < self.level_len(level as int) * 64,
                ;
            }
            let ghost prev = *self;
            if set {
                self.alloc_set(level, i);
            } else {
                self.alloc_unset(level, i);
            }
            proof {
                assert(self.bits(level as int) =~= fill_range(
                    orig.bits(level as int),
                    i0,
                    i + 1,
                    set,
                ));
            }
            i = i + 1;
            n = n - 1;
        }
        proof {
            address::lemma_usize_bits(i);
        }
        proof {
            address::lemma_usize_bits(n);
        }
        let idx = i >> (PAGE_DATA_SHIFT as usize);
        let words = n >> (PAGE_DATA_SHIFT as usize);
        let overwrite: u64 = if set {
            PAGE_DATA_FULL
        } else {
            0
        };
        proof {
            if words > 0 {
                assert(i % 64 == 0);
                assert(idx * 64 == i);
            }
            assert(idx + words <= self.level_len(level as int)) by (nonlinear_arith)
                requires
                    words > 0 ==> idx * 64 == i,
                    idx == i / 64,
                    words == n / 64,
                    i + n <= self.level_len(level as int) * 64,
            ;
            assert(words * 64 <= n) by (nonlinear_arith)
                requires
                    words == n / 64,
            ;
        }
        let base = self.levels[level] + idx;
        let mut k: usize = 0;
        while k < words
            invariant
                self.inv(),
                level < N,
                k <= words,
                words > 0 ==> idx * 64 == i,
                idx + words <= self.level_len(level as int),
                base == self.levels@[level as int] + idx,
                words * 64 <= n,
                i + n == end,
                end <= usize::MAX,
                i0 <= i,
                overwrite == (if set {
                    0xffff_ffff_ffff_ffffu64
                } else {
                    0u64
                }),
                self.bits(level as int) == fill_range(
                    orig.bits(level as int),
                    i0,
                    i + k * 64,
                    set,
                ),
                self.other_levels_same(&orig, level as int),
                self.same_but_data(&orig),
                orig.inv(),
            decreases words - k,
        {
            let ghost prev = *self;
            proof {
                assert(self.levels@[level + 1] <= self.levels@[N as int]);
            }
            self.data.set(base + k, overwrite);
            proof {
                self.lemma_word_update(&prev, level as int, (base + k) as int, overwrite);
                let lw = prev.level_words(level as int);
                lemma_bits_fill(
                    lw,
                    lw.update(idx + k, overwrite),
                    idx + k,
                    idx + k + 1,
                    overwrite,
                );
                assert(self.bits(level as int) =~= fill_range(
                    orig.bits(level as int),
                    i0,
                    i + (k + 1) * 64,
                    set,
                ));
            }
            k = k + 1;
        }
        let n1 = n;
        n = n & PAGE_DATA_MASK;
        proof {
            assert(n1 - n == words * 64) by (nonlinear_arith)
                requires
                    n == n1 % 64,
                    words == n1 / 64,
            ;
        }
        i = i + (n1 - n);
        while n > 0
            invariant
                self.inv(),
                level < N,
                i0 <= i,
                i + n == end,
                end <= usize::MAX,
                end <= orig.level_len(level as int) * 64,
                self.bits(level as int) == fill_range(orig.bits(level as int), i0, i as int, set),
                self.other_levels_same(&orig, level as int),
                self.same_but_data(&orig),
                orig.inv(),
                orig.bits(level as int).len() == orig.level_len(level as int) * 64,
            decreases n,
        {
            proof {
                assert(i / 64 < self.level_len(level as int)) by (nonlinear_arith)
                    requires
                        i < self.level_len(level as int) * 64,
                ;
            }
            if set {
                self.alloc_set(level, i);
            } else {
                self.alloc_unset(level, i);
            }
            proof {
                assert(self.bits(level as int) =~= fill_range(
                    orig.bits(level as int),
                    i0,
                    i + 1,
                    set,
                ));
            }
            i = i + 1;
            n = n - 1;
        }
    }

    /// Sets the `n` bits of level `level` from bit `i`.
    fn alloc_set_n(&mut self, level: usize, i: usize, n: usize)
        requires
            old(self).inv(),
            level < N,
            i + n <= old(self).level_len(level as int) * 64,
            i + n <= usize::MAX,
        ensures
            final(self).inv(),
            final(self).bits(level as int) == fill_range(
                old(self).bits(level as int),
                i as int,
                i + n,
                true,
            ),
            final(self).other_levels_same(old(self), level as int),
            final(self).same_but_data(old(self)),
    {
        self.alloc_modify_n(level, i, n, true);
    }

    /// Clears the `n` bits of level `level` from bit `i`.
    fn alloc_unset_n(&mut self, level: usize, i: usize, n: usize)
        requires
            old(self).inv(),
            level < N,
            i + n <= old(self).level_len(level as int) * 64,
            i + n <= usize::MAX,
        ensures
            final(self).inv(),
            final(self).bits(level as int) == fill_range(
                old(self).bits(level as int),
                i as int,
                i + n,
                false,
            ),
            final(self).other_levels_same(old(self), level as int),
            final(self).same_but_data(old(self)),
    {
        self.alloc_modify_n(level, i, n, false);
    }

    /// Whether `alloc_rec_unset(0, i)` clears a bit of level `l`: level 0 always, and a
    /// higher level when, at each level below it but level 0's, the buddy of the cleared
    /// bit is clear.
    pub closed spec fn rec_unset_reaches(&self, i: usize, l: int) -> bool {
        l == 0 || (1 <= l < N && forall|m: int|
            1 <= m < l ==> !#[trigger] self.bits(m - 1)[buddy_index(i, m)])
    }

    /// Clears bit `i` of level 0 and the bits above it in the higher levels, up to the
    /// first level whose buddy bit is set.
    fn alloc_rec_unset(&mut self, level: usize, i: usize)
        requires
            old(self).inv(),
            level == 0,
            1 <= N <= 32,
            forall|l: int| 0 <= l < N ==> i / 64 + 1 < #[trigger] old(self).level_len(l),
        ensures
            final(self).inv(),
            final(self).same_but_data(old(self)),
            forall|l: int|
                0 <= l < N ==> #[trigger] final(self).bits(l) == if old(self).rec_unset_reaches(i, l) {
                    old(self).bits(l).update(level_index(i, l), false)
                } else {
                    old(self).bits(l)
                },
    {
        let ghost orig = *old(self);
        self.alloc_unset(level, i);
        proof {
            assert(level_index(i, 0) == i) by (bit_vector);
        }
        let mut o: usize = 1;
        while o < N - level
            invariant_except_break
                forall|l: int|
                    0 <= l < N ==> #[trigger] self.bits(l) == if l < o {
                        orig.bits(l).update(level_index(i, l), false)
                    } else {
                        orig.bits(l)
                    },
            invariant
                self.inv(),
                self.same_but_data(&orig),
                level == 0,
                1 <= o <= N,
                N <= 32,
                forall|l: int| 0 <= l < N ==> i / 64 + 1 < #[trigger] orig.level_len(l),
                forall|m: int| 1 <= m < o ==> !#[trigger] orig.bits(m - 1)[buddy_index(i, m)],
            ensures
                self.inv(),
                self.same_but_data(&orig),
                forall|l: int|
                    0 <= l < N ==> #[trigger] self.bits(l) == if orig.rec_unset_reaches(i, l) {
                        orig.bits(l).update(level_index(i, l), false)
                    } else {
                        orig.bits(l)
                    },
            decreases N - o,
        {
            let up = i >> o;
            let buddy = (i >> (o - 1)) ^ 1;
            assert(up <= i && buddy <= i + 1) by (bit_vector)
                requires
                    up == i >> o,
                    buddy == (i >> ((o - 1) as usize)) ^ 1usize,
                    1 <= o,
                    o <= 64,
            ;
            proof {
                lemma_buddy_other(i, o as int);
            }
            assert(self.level_len(o as int) == orig.level_len(o as int));
            assert(self.level_len(o - 1) == orig.level_len(o - 1));
            let ghost before = *self;
            self.alloc_unset(level + o, up);
            proof {
                assert(up as int == level_index(i, o as int));
                assert(buddy as int == buddy_index(i, o as int));
                assert forall|l: int| 0 <= l < N implies #[trigger] self.bits(l) == if l < o + 1 {
                    orig.bits(l).update(level_index(i, l), false)
                } else {
                    orig.bits(l)
                } by {
                    if l != o {
                        assert(self.bits(l) == before.bits(l));
                    }
                }
                orig.lemma_bit_index(o - 1, buddy);
                assert(self.bits(o - 1) == orig.bits(o - 1).update(level_index(i, o - 1), false));
                assert(buddy as int != level_index(i, o - 1));
                assert(buddy < orig.bits(o - 1).len());
                orig.lemma_bit_index(o - 1, i);
                let k = (o - 1) as usize;
                assert(i >> k <= i) by (bit_vector);
                assert(level_index(i, o - 1) < orig.bits(o - 1).len());
                assert(self.bits(o - 1)[buddy as int] == orig.bits(o - 1)[buddy as int]);
            }
            if self.alloc_get(level + o - 1, buddy) {
                proof {
                    assert forall|l: int| 0 <= l < N implies #[trigger] self.bits(l) == if orig.rec_unset_reaches(i, l) {
                        orig.bits(l).update(level_index(i, l), false)
                    } else {
                        orig.bits(l)
                    } by {
                        if l > o {
                            assert(orig.bits(o as int - 1)[buddy_index(i, o as int)]);
                            assert(!orig.rec_unset_reaches(i, l));
                        } else if l >= 1 {
                            assert(orig.rec_unset_reaches(i, l));
                        }
                    }
                }
                break;
            }
            o = o + 1;
        }
    }

    /// Sets bit `i` of level 0; the loops over the levels above run only when there is no
    /// level above it.
    fn alloc_rec_set(&mut self, level: usize, i: usize)
        requires
            old(self).inv(),
            level == 0,
            N == 1,
            i / 64 < old(self).level_len(0),
        ensures
            final(self).inv(),
            final(self).same_but_data(old(self)),
            final(self).bits(0) == old(self).bits(0).update(i as int, true),
    {
        self.alloc_set(level, i);
        let mut o: usize = 1;
        while o <= level
            invariant
                level == 0,
            decreases level + 1 - o,
        {
            o = o + 1;
        }
        let mut o: usize = 1;
        while o < N - level
            invariant
                level == 0,
                N == 1,
            decreases N - o,
        {
            o = o + 1;
        }
    }
}

impl<const N: usize> MemoryAllocator for BuddyAllocator<N> {
    closed spec fn wf(&self) -> bool {
        self.inv()
    }

    closed spec fn state(&self) -> AllocState {
        self.view_state()
    }

    open spec fn initial() -> AllocState {
        Self::initial_state()
    }

    fn new() -> (r: Self) {
        Self::default()
    }

    fn init(&mut self, start: usize, end: usize) {
        let start_aligned = address::page_align_up(start);
        let end_aligned = address::page_align_down(end);
        proof {
            address::lemma_usize_bits(start_aligned);
        }
        proof {
            address::lemma_usize_bits(end_aligned);
        }
        let start = start_aligned >> (PAGE_SHIFT as usize);
        let end = end_aligned >> (PAGE_SHIFT as usize);
        proof {
            assert(start * 4096 == start_aligned && end * 4096 == end_aligned) by (nonlinear_arith)
                requires
                    start == start_aligned / 4096,
                    end == end_aligned / 4096,
                    start_aligned % 4096 == 0,
                    end_aligned % 4096 == 0,
            ;
        }
        self.start_page = start;
        self.end_page = end;
        self.first_free = end;
        self.last_free = start;
        self.enabled = end > start;
        if !self.enabled {
            return;
        }
        let num_pages = end - start;
        proof {
            address::lemma_usize_bits(num_pages);
        }
        self.page_data_size = (num_pages >> 2usize) + 1;
        self.num_page_data_elements = num_pages >> (3 + PAGE_DATA_SHIFT as usize);
    }

    fn data_size(&self) -> (r: usize) {
        self.page_data_size
    }

    fn set_data(&mut self, data_len: usize) {
        let n = self.num_page_data_elements;
        let mut data: Vec<u64> = Vec::new();
        let mut k: usize = 0;
        while k < n
            invariant
                k <= n,
                data@.len() == k,
                forall|j: int| 0 <= j < k ==> data@[j] == 0xffu64,
            decreases n - k,
        {
            data.push(0xff);
            k = k + 1;
        }
        let mut levels: Vec<usize> = Vec::new();
        levels.push(0);
        let mut off: usize = 0;
        let mut cur: usize = n;
        let mut i: usize = 0;
        while i < N
            invariant
                i <= N,
                levels@.len() == i + 1,
                levels@[0] == 0,
                levels@[i as int] == off,
                off + cur <= n,
                i >= 1 ==> levels@[1] == n / 2,
                i == 0 ==> cur == n,
                forall|a: int, b: int| 0 <= a <= b <= i ==> #[trigger] levels@[a] <= #[trigger] levels@[b],
            decreases N - i,
        {
            proof {
                address::lemma_usize_bits(cur);
            }
            cur = cur >> 1usize;
            off = off + cur;
            levels.push(off);
            i = i + 1;
        }
        self.data = data;
        self.levels = levels;
        proof {
            if N >= 1 {
                lemma_bits_fill_value(self.level_words(0));
                assert(self.used() =~= set_data_used(old(self).view_state()));
            } else {
                assert(self.used() =~= set_data_used(old(self).view_state()));
            }
        }
    }

    /// The range is clamped to start at or after the last managed page and to end at or
    /// before the first one, so no page of the managed range is ever added: the state stays
    /// as it was.
    fn include_range(&mut self, start: usize, end: usize) {
        if !self.enabled {
            return;
        }
        let start = address::page_align_up(start) >> (PAGE_SHIFT as usize);
        let end = address::page_align_down(end) >> (PAGE_SHIFT as usize);
        if end <= start || end < self.start_page || start > self.end_page {
            return;
        }
        let start = if start >= self.end_page {
            start
        } else {
            self.end_page
        };
        let end = if end <= self.start_page {
            end
        } else {
            self.start_page
        };
        if end <= start {
            return;
        }
        let start_offset = start - self.start_page;
        let end_offset = end - self.start_page;
        self.first_free = if self.first_free <= start_offset {
            self.first_free
        } else {
            start_offset
        };
        self.last_free = if self.last_free >= end_offset - 1 {
            self.last_free
        } else {
            end_offset - 1
        };
        let mut i = start_offset;
        while i < end_offset
            invariant
                end <= self.start_page < self.end_page <= start,
                start_offset == start - self.start_page,
                end_offset == end - self.start_page,
                start_offset <= i,
            decreases end_offset - i,
        {
            self.alloc_rec_unset(0, i);
            i = i + 1;
        }
        self.alloc_rec_set(0, start_offset);
        self.alloc_rec_set(0, end_offset);
    }

    fn alloc_page(&mut self) -> (r: Option<usize>) {
        if !self.enabled {
            return None;
        }
        let ghost s = self.view_state();
        let ghost orig = *self;
        let f = self.first_free;
        proof {
            assert(N >= 1);
            self.lemma_used_index(f);
        }
        if !self.alloc_get_set(0, f) {
            proof {
                address::lemma_usize_bits(f);
            }
            let addr = f << (PAGE_SHIFT as usize);
            self.first_free = f + 1;
            proof {
                assert(self.used() =~= s.used.update(f as int, true));
                assert(self.view_state() == alloc_page_spec(s).0);
            }
            Some(addr)
        } else {
            let last = self.last_free;
            let mut i = f;
            proof {
                assert(self.used() =~= orig.used());
            }
            while i <= last
                invariant
                    self.inv(),
                    N >= 1,
                    f <= i,
                    self.used() == orig.used(),
                    self.same_but_data(&orig),
                    orig.last_free == last,
                    first_clear(orig.used(), f as int, last as int) == first_clear(
                        orig.used(),
                        i as int,
                        last as int,
                    ),
                    scan_ok(orig.used(), i as int, last as int),
                    orig.first_free == f,
                    s == orig.view_state(),
                    orig == *old(self),
                    s.used[f as int],
                    s.enabled,
                ensures
                    self.used() == orig.used(),
                    self.same_but_data(&orig),
                    first_clear(orig.used(), f as int, last as int) is None,
                decreases last - i,
            {
                proof {
                    self.lemma_used_index(i);
                }
                let ghost before = *self;
                if !self.alloc_get_set(0, i) {
                    proof {
                        address::lemma_usize_bits(i);
                    }
                    let addr = i << (PAGE_SHIFT as usize);
                    self.first_free = i + 1;
                    proof {
                        assert(first_clear(orig.used(), i as int, last as int) == Some(i as int));
                        assert(self.used() =~= s.used.update(i as int, true));
                        assert(self.view_state() == alloc_page_spec(s).0);
                    }
                    return Some(addr);
                }
                proof {
                    assert(self.used() =~= orig.used());
                }
                proof {
                    assert(first_clear(orig.used(), i + 1, last as int) == first_clear(
                        orig.used(),
                        f as int,
                        last as int,
                    ));
                }
                if i == last {
                    assert(first_clear(orig.used(), i + 1, last as int) is None);
                    break;
                }
                i = i + 1;
            }
            proof {
                assert(self.view_state() == s);
            }
            None
        }
    }

    fn dealloc_page(&mut self, addr: usize) -> (r: bool) {
        let start_page = self.start_page;
        proof {
            address::lemma_usize_bits(start_page);
        }
        let end_page = self.end_page;
        proof {
            address::lemma_usize_bits(end_page);
        }
        if !self.enabled || addr < (start_page << (PAGE_SHIFT as usize)) || addr > (end_page << (
        PAGE_SHIFT as usize)) {
            return false;
        }
        assert(addr % 4096 == 0);
        proof {
            address::lemma_usize_bits(addr);
        }
        let page = addr >> (PAGE_SHIFT as usize);
        proof {
            assert(N >= 1);
            self.lemma_used_index(page);
            assert(page >= self.start_page) by (nonlinear_arith)
                requires
                    addr >= self.start_page * 4096,
                    page == addr / 4096,
            ;
        }
        self.alloc_set(0, page);
        let off = page - self.start_page;
        self.first_free = if self.first_free <= off {
            self.first_free
        } else {
            off
        };
        self.last_free = if self.last_free >= off + 1 {
            self.last_free
        } else {
            off + 1
        };
        true
    }

    fn alloc_pages(&mut self, count: usize) -> (r: Option<usize>) {
        if !self.enabled {
            return None;
        }
        let hi = match self.last_free.checked_sub(count) {
            Some(h) => h,
            None => {
                return None;
            },
        };
        let ghost orig = *self;
        let f = self.first_free;
        let mut i = f;
        while i <= hi
            invariant
                self.inv(),
                self.enabled,
                *self == orig,
                orig.first_free == f,
                f <= i,
                hi == orig.last_free - count,
                first_fit(orig.used(), f as int, hi as int, count as int) == first_fit(
                    orig.used(),
                    i as int,
                    hi as int,
                    count as int,
                ),
                scan_pages_ok(orig.used(), i as int, hi as int, count as int),
                first_fit(orig.used(), f as int, hi as int, count as int) is Some ==> N >= 1,
                orig.inv(),
                orig.view_state().enabled,
                orig == *old(self),
            ensures
                first_fit(orig.used(), f as int, hi as int, count as int) is None,
            decreases hi - i,
        {
            let mut j: usize = 0;
            let mut free = true;
            proof {
                assert(run_ok(orig.used(), i as int, count as int));
                if N == 0 {
                    assert(orig.used().len() == 0);
                    assert(all_clear(orig.used(), i as int, count as int));
                    assert(first_fit(orig.used(), i as int, hi as int, count as int) == Some(
                        i as int,
                    ));
                }
            }
            while j < count
                invariant_except_break
                    free,
                invariant
                    self.inv(),
                    *self == orig,
                    i + count <= orig.last_free,
                    j <= count,
                    run_ok(orig.used(), i as int, count as int),
                    forall|k: int| i <= k < i + j ==> k < orig.used().len() && !orig.used()[k],
                    N >= 1,
                ensures
                    free ==> all_clear(orig.used(), i as int, count as int),
                    !free ==> !all_clear(orig.used(), i as int, count as int),
                decreases count - j,
            {
                proof {
                    if i + j >= orig.used().len() {
                        let w = choose|w: int| i <= w < orig.used().len() && #[trigger] orig.used()[w];
                        assert(!orig.used()[w]);
                    }
                    self.lemma_used_index((i + j) as usize);
                }
                if self.alloc_get(0, i + j) {
                    free = false;
                    break;
                }
                j = j + 1;
            }
            if free {
                proof {
                    self.lemma_used_range(i, count);
                }
                let ghost before = *self;
                self.alloc_set_n(0, i, count);
                proof {
                    address::lemma_usize_bits(i);
                }
                let addr = i << (PAGE_SHIFT as usize);
                if i == self.first_free {
                    self.first_free = i + 1;
                }
                proof {
                    assert(first_fit(orig.used(), i as int, hi as int, count as int) == Some(
                        i as int,
                    ));
                    assert(self.used() =~= fill_range(orig.used(), i as int, i + count, true));
                    assert(self.view_state() == alloc_pages_spec(orig.view_state(), count).0);
                }
                return Some(addr);
            }
            proof {
                assert(!all_clear(orig.used(), i as int, count as int));
                assert(first_fit(orig.used(), i + 1, hi as int, count as int) == first_fit(
                    orig.used(),
                    f as int,
                    hi as int,
                    count as int,
                ));
            }
            if i == hi {
                assert(first_fit(orig.used(), i + 1, hi as int, count as int) is None);
                break;
            }
            i = i + 1;
        }
        None
    }

    fn dealloc_pages(&mut self, addr: usize, count: usize) -> (r: bool) {
        let start_page = self.start_page;
        proof {
            address::lemma_usize_bits(start_page);
        }
        let end_page = self.end_page;
        proof {
            address::lemma_usize_bits(end_page);
        }
        if !self.enabled || addr < (start_page << (PAGE_SHIFT as usize)) || addr > (end_page << (
        PAGE_SHIFT as usize)) {
            return false;
        }
        assert(addr % 4096 == 0);
        proof {
            address::lemma_usize_bits(addr);
        }
        let page = addr >> (PAGE_SHIFT as usize);
        proof {
            assert(page >= self.start_page) by (nonlinear_arith)
                requires
                    addr >= self.start_page * 4096,
                    page == addr / 4096,
            ;
            self.lemma_used_range(page, count);
        }
        self.alloc_unset_n(0, page, count);
        let off = page - self.start_page;
        self.first_free = if self.first_free <= off {
            self.first_free
        } else {
            off
        };
        self.last_free = if self.last_free >= off + count {
            self.last_free
        } else {
            off + count
        };
        true
    }
}

} // verus!
