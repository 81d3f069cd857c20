//! What a physical page allocator offers, and what each of its operations does
//! to the allocator's state.
use vstd::prelude::*;
use crate::memory::physical::bits::fill_range;

verus! {

/// The state of a page allocator, as its operations see it.
pub ghost struct AllocState {
    /// One bit per page of the bitmap; set means in use.
    pub used: Seq<bool>,
    /// The first page of the managed range.
    pub start_page: usize,
    /// The end page of the managed range.
    pub end_page: usize,
    /// Whether the managed range holds any page.
    pub enabled: bool,
    /// Where the search for a free page starts.
    pub first_free: usize,
    /// Where the search for a free page ends.
    pub last_free: usize,
    /// The number of bytes of bookkeeping the allocator asks for.
    pub page_data_size: usize,
    /// The number of bookkeeping words.
    pub num_page_data_elements: usize,
    /// The number of bitmap levels.
    pub levels: nat,
}

/// The address of page `page`, as the shift by the page shift computes it.
pub open spec fn page_bytes(page: int) -> usize {
    (page * 4096) as usize
}

/// The first position in `[from, to]` whose bit is clear.
pub open spec fn first_clear(used: Seq<bool>, from: int, to: int) -> Option<int>
    decreases to - from + 1,
{
    if from > to {
        None
    } else if !used[from] {
        Some(from)
    } else {
        first_clear(used, from + 1, to)
    }
}

/// A scan of `[from, to]` that stops at the first clear bit stays inside the bitmap.
pub open spec fn scan_ok(used: Seq<bool>, from: int, to: int) -> bool
    decreases to - from + 1,
{
    if from > to {
        true
    } else {
        from < used.len() && (!used[from] || scan_ok(used, from + 1, to))
    }
}

/// The `count` bits from `i` are all inside the bitmap and clear.
pub open spec fn all_clear(used: Seq<bool>, i: int, count: int) -> bool {
    forall|j: int| i <= j < i + count ==> j < used.len() && !#[trigger] used[j]
}

/// Checking the `count` bits from `i` one by one, up to the first set bit, stays inside the bitmap.
pub open spec fn run_ok(used: Seq<bool>, i: int, count: int) -> bool {
    i + count <= used.len() || exists|j: int| i <= j < used.len() && #[trigger] used[j]
}

/// The search for `count` free pages starting at each of `[i, hi]` stays inside the bitmap.
pub open spec fn scan_pages_ok(used: Seq<bool>, i: int, hi: int, count: int) -> bool
    decreases hi - i + 1,
{
    if i > hi {
        true
    } else {
        run_ok(used, i, count) && (all_clear(used, i, count) || scan_pages_ok(
            used,
            i + 1,
            hi,
            count,
        ))
    }
}

/// The first start in `[i, hi]` of `count` clear bits.
pub open spec fn first_fit(used: Seq<bool>, i: int, hi: int, count: int) -> Option<int>
    decreases hi - i + 1,
{
    if i > hi {
        None
    } else if all_clear(used, i, count) {
        Some(i)
    } else {
        first_fit(used, i + 1, hi, count)
    }
}

/// The state after `init(start, end)`: the managed range is the whole pages inside `[start, end)`.
pub open spec fn init_spec(s: AllocState, start: usize, end: usize) -> AllocState {
    let sp = ((start + 4095) / 4096) as usize;
    let ep = (end / 4096) as usize;
    if ep > sp {
        AllocState {
            start_page: sp,
            end_page: ep,
            first_free: ep,
            last_free: sp,
            enabled: true,
            page_data_size: (((ep - sp) as usize / 4) + 1) as usize,
            num_page_data_elements: ((ep - sp) as usize / 512) as usize,
            ..s
        }
    } else {
        AllocState {
            start_page: sp,
            end_page: ep,
            first_free: ep,
            last_free: sp,
            enabled: false,
            ..s
        }
    }
}

/// The bitmap right after the bookkeeping memory is handed over: level 0 holds half of
/// the bookkeeping words, each of which holds the value 0xff.
pub open spec fn set_data_used(s: AllocState) -> Seq<bool> {
    if s.levels >= 1 {
        Seq::new(((s.num_page_data_elements / 2) * 64) as nat, |j: int| j % 64 < 8)
    } else {
        Seq::empty()
    }
}

/// `alloc_page` does not fail on this state.
pub open spec fn alloc_page_ok(s: AllocState) -> bool {
    s.enabled ==> {
        &&& s.first_free < s.used.len()
        &&& s.used[s.first_free as int] ==> scan_ok(s.used, s.first_free as int, s.last_free as int)
    }
}

/// What `alloc_page` does: it takes the first free page at or after `first_free`, looking
/// no further than `last_free`, and returns its offset shifted by the page shift.
pub open spec fn alloc_page_spec(s: AllocState) -> (AllocState, Option<usize>) {
    let f = s.first_free as int;
    if !s.enabled {
        (s, None)
    } else if !s.used[f] {
        (AllocState { used: s.used.update(f, true), first_free: (f + 1) as usize, ..s }, Some(page_bytes(f)))
    } else {
        match first_clear(s.used, f, s.last_free as int) {
            Some(j) => (
                AllocState { used: s.used.update(j, true), first_free: (j + 1) as usize, ..s },
                Some(page_bytes(j)),
            ),
            None => (s, None),
        }
    }
}

/// Whether the allocator takes `addr` back: it is enabled and `addr` lies between its first
/// and its end page.
pub open spec fn accepts(s: AllocState, addr: usize) -> bool {
    s.enabled && addr >= s.start_page * 4096 && addr <= s.end_page * 4096
}

/// `dealloc_page` does not fail on this state and address.
pub open spec fn dealloc_page_ok(s: AllocState, addr: usize) -> bool {
    accepts(s, addr) ==> addr % 4096 == 0 && addr / 4096 < s.used.len()
}

/// What `dealloc_page` does: on an address it accepts, it marks the address's page bit as set
/// and widens the search range to cover it.
pub open spec fn dealloc_page_spec(s: AllocState, addr: usize) -> (AllocState, bool) {
    if !accepts(s, addr) {
        (s, false)
    } else {
        let page = addr / 4096;
        let off = page - s.start_page;
        (
            AllocState {
                used: s.used.update(page as int, true),
                first_free: if s.first_free <= off {
                    s.first_free
                } else {
                    off as usize
                },
                last_free: if s.last_free >= off + 1 {
                    s.last_free
                } else {
                    (off + 1) as usize
                },
                ..s
            },
            true,
        )
    }
}

/// `alloc_pages` does not fail on this state.
pub open spec fn alloc_pages_ok(s: AllocState, count: usize) -> bool {
    s.enabled && s.last_free >= count ==> {
        &&& scan_pages_ok(s.used, s.first_free as int, s.last_free - count, count as int)
        &&& first_fit(s.used, s.first_free as int, s.last_free - count, count as int) is Some
            ==> s.levels >= 1
    }
}

/// What `alloc_pages` does: it takes the first run of `count` free pages that starts in
/// `[first_free, last_free - count]`.
pub open spec fn alloc_pages_spec(s: AllocState, count: usize) -> (AllocState, Option<usize>) {
    if !s.enabled || s.last_free < count {
        (s, None)
    } else {
        match first_fit(s.used, s.first_free as int, s.last_free - count, count as int) {
            Some(i) => (
                AllocState {
                    used: fill_range(s.used, i, i + count, true),
                    first_free: if i == s.first_free {
                        (i + 1) as usize
                    } else {
                        s.first_free
                    },
                    ..s
                },
                Some(page_bytes(i)),
            ),
            None => (s, None),
        }
    }
}

/// `dealloc_pages` does not fail on this state, address and count.
pub open spec fn dealloc_pages_ok(s: AllocState, addr: usize, count: usize) -> bool {
    accepts(s, addr) ==> {
        &&& s.levels >= 1
        &&& addr % 4096 == 0
        &&& addr / 4096 + count <= s.used.len()
        &&& addr / 4096 - s.start_page + count <= usize::MAX
    }
}

/// What `dealloc_pages` does: on an address it accepts, it clears the bits of the `count`
/// pages from the address's page and widens the search range to cover them.
pub open spec fn dealloc_pages_spec(s: AllocState, addr: usize, count: usize) -> (AllocState, bool) {
    if !accepts(s, addr) {
        (s, false)
    } else {
        let page = addr / 4096;
        let off = page - s.start_page;
        (
            AllocState {
                used: fill_range(s.used, page as int, page + count, false),
                first_free: if s.first_free <= off {
                    s.first_free
                } else {
                    off as usize
                },
                last_free: if s.last_free >= off + count {
                    s.last_free
                } else {
                    (off + count) as usize
                },
                ..s
            },
            true,
        )
    }
}

/// `include_range` does not fail on this state and range.
pub open spec fn add_range_ok(s: AllocState, start: usize) -> bool {
    s.enabled ==> start + 4095 <= usize::MAX
}

proof fn lemma_page_bytes_aligned(j: int)
    requires
        0 <= j <= usize::MAX,
    ensures
        page_bytes(j) % 4096 == 0,
{
    let x = j as usize;
    assert(((x * 4096) as usize) % 4096 == 0) by (bit_vector);
}

proof fn lemma_first_clear_range(used: Seq<bool>, from: int, to: int)
    ensures
        first_clear(used, from, to) matches Some(j) ==> from <= j <= to,
    decreases to - from + 1,
{
    if from <= to && used[from] {
        lemma_first_clear_range(used, from + 1, to);
    }
}

proof fn lemma_first_fit_range(used: Seq<bool>, i: int, hi: int, count: int)
    ensures
        first_fit(used, i, hi, count) matches Some(j) ==> i <= j <= hi,
    decreases hi - i + 1,
{
    if i <= hi && !all_clear(used, i, count) {
        lemma_first_fit_range(used, i + 1, hi, count);
    }
}

/// Every address that `alloc_page` or `alloc_pages` hands out is page aligned.
pub proof fn lemma_alloc_aligned(s: AllocState, count: usize)
    ensures
        alloc_page_spec(s).1 matches Some(a) ==> a % 4096 == 0,
        alloc_pages_spec(s, count).1 matches Some(a) ==> a % 4096 == 0,
{
    lemma_first_clear_range(s.used, s.first_free as int, s.last_free as int);
    lemma_first_fit_range(s.used, s.first_free as int, s.last_free - count, count as int);
    if s.enabled {
        if !s.used[s.first_free as int] {
            lemma_page_bytes_aligned(s.first_free as int);
        } else if let Some(j) = first_clear(s.used, s.first_free as int, s.last_free as int) {
            lemma_page_bytes_aligned(j);
        }
        if s.last_free >= count {
            if let Some(i) = first_fit(s.used, s.first_free as int, s.last_free - count, count as int) {
                lemma_page_bytes_aligned(i);
            }
        }
    }
}

/// A clear bit that a scan which stays inside the bitmap finds is inside the bitmap, and at
/// or after where the scan starts.
proof fn lemma_first_clear_inside(used: Seq<bool>, from: int, to: int)
    requires
        scan_ok(used, from, to),
    ensures
        first_clear(used, from, to) matches Some(j) ==> from <= j < used.len() && !used[j],
    decreases to - from + 1,
{
    if from <= to && used[from] {
        lemma_first_clear_inside(used, from + 1, to);
    }
}

/// The page `alloc_page` hands out, by index, and that it is inside the bitmap.
proof fn lemma_alloc_page_index(s: AllocState) -> (j: int)
    requires
        alloc_page_ok(s),
        alloc_page_spec(s).1 is Some,
        s.used.len() * 4096 <= usize::MAX + 1,
    ensures
        s.first_free <= j < s.used.len(),
        !s.used[j],
        alloc_page_spec(s).1 == Some(page_bytes(j)),
        alloc_page_spec(s).0.used == s.used.update(j, true),
        alloc_page_spec(s).0.first_free == j + 1,
{
    let f = s.first_free as int;
    if !s.used[f] {
        f
    } else {
        lemma_first_clear_inside(s.used, f, s.last_free as int);
        first_clear(s.used, f, s.last_free as int)->0
    }
}

/// A page handed out is in use: the next `alloc_page` does not hand it out again.
pub proof fn lemma_alloc_page_not_twice(s: AllocState)
    requires
        alloc_page_ok(s),
        alloc_page_ok(alloc_page_spec(s).0),
        s.used.len() * 4096 <= usize::MAX + 1,
    ensures
        alloc_page_spec(s).1 matches Some(a) ==> alloc_page_spec(alloc_page_spec(s).0).1 != Some(a),
{
    if alloc_page_spec(s).1 is Some {
        let j = lemma_alloc_page_index(s);
        let s1 = alloc_page_spec(s).0;
        if alloc_page_spec(s1).1 is Some {
            let k = lemma_alloc_page_index(s1);
            assert(k > j);
            assert(page_bytes(k) != page_bytes(j)) by (nonlinear_arith)
                requires
                    0 <= j < k,
                    k < s.used.len(),
                    s.used.len() * 4096 <= usize::MAX + 1,
                    page_bytes(k) == (k * 4096) as usize,
                    page_bytes(j) == (j * 4096) as usize,
            ;
        }
    }
}

/// The first bit of a clear run is inside the bitmap and clear.
proof fn lemma_all_clear_first(used: Seq<bool>, i: int, c: int)
    requires
        all_clear(used, i, c),
        c > 0,
    ensures
        i < used.len(),
        !used[i],
{
    assert(!used[i]);
}

/// Every bit of a clear run is inside the bitmap and clear.
proof fn lemma_all_clear_at(used: Seq<bool>, i: int, c: int, k: int)
    requires
        all_clear(used, i, c),
        i <= k < i + c,
    ensures
        k < used.len(),
        !used[k],
{
    assert(!used[k]);
}

/// The run that `first_fit` finds is clear.
proof fn lemma_first_fit_clear(used: Seq<bool>, i: int, hi: int, count: int)
    ensures
        first_fit(used, i, hi, count) matches Some(j) ==> all_clear(used, j, count),
    decreases hi - i + 1,
{
    if i <= hi && !all_clear(used, i, count) {
        lemma_first_fit_clear(used, i + 1, hi, count);
    }
}

/// Pages that `alloc_pages` hands out are free again once `dealloc_pages` takes them back:
/// when `dealloc_pages` accepts the address that `alloc_pages` handed out, the bitmap is the
/// one from before the allocation.
pub proof fn lemma_alloc_pages_then_dealloc(s: AllocState, count: usize)
    requires
        s.used.len() * 4096 <= usize::MAX + 1,
    ensures
        alloc_pages_spec(s, count).1 matches Some(a) ==> (accepts(alloc_pages_spec(s, count).0, a)
            ==> dealloc_pages_spec(alloc_pages_spec(s, count).0, a, count).0.used == s.used),
{
    if s.enabled && s.last_free >= count {
        lemma_first_fit_clear(s.used, s.first_free as int, s.last_free - count, count as int);
        lemma_first_fit_range(s.used, s.first_free as int, s.last_free - count, count as int);
        if let Some(i) = first_fit(s.used, s.first_free as int, s.last_free - count, count as int) {
            let s1 = alloc_pages_spec(s, count).0;
            let a = page_bytes(i);
            if count > 0 {
                lemma_all_clear_first(s.used, i, count as int);
                assert(a == i * 4096) by (nonlinear_arith)
                    requires
                        0 <= i < s.used.len(),
                        s.used.len() * 4096 <= usize::MAX + 1,
                        a == (i * 4096) as usize,
                ;
                assert(a / 4096 == i);
            }
            let d = dealloc_pages_spec(s1, a, count).0;
            if accepts(s1, a) {
                assert(d.used =~= s.used);
            }
        }
    }
}

/// A page in use is never handed out: with its bit set, neither `alloc_page` nor
/// `alloc_pages` hands out its address or a run that holds it, and its bit stays set after
/// either of them. The page that `alloc_page` hands out has its bit set afterwards, and so
/// have the pages of the run that `alloc_pages` hands out; so no page is handed out twice
/// until it is given back.
pub proof fn lemma_used_page_not_handed_out(s: AllocState, count: usize, j: int)
    requires
        alloc_page_ok(s),
        s.used.len() * 4096 <= usize::MAX + 1,
        0 <= j < s.used.len(),
        s.used[j],
    ensures
        alloc_page_spec(s).1 != Some(page_bytes(j)),
        alloc_page_spec(s).0.used[j],
        alloc_pages_spec(s, count).0.used[j],
        alloc_pages_spec(s, count).1 matches Some(a) ==> !(a <= page_bytes(j) < a + count * 4096),
        alloc_page_spec(s).1 matches Some(a) ==> exists|k: int|
            0 <= k < s.used.len() && a == page_bytes(k) && alloc_page_spec(s).0.used[k],
        count > 0 && alloc_pages_spec(s, count).1 is Some ==> exists|i: int|
            0 <= i && i + count <= s.used.len() && alloc_pages_spec(s, count).1 == Some(page_bytes(i))
                && forall|k: int| i <= k < i + count ==> #[trigger] alloc_pages_spec(s, count).0.used[k],
{
    assert(page_bytes(j) == j * 4096) by (nonlinear_arith)
        requires
            0 <= j < s.used.len(),
            s.used.len() * 4096 <= usize::MAX + 1,
            page_bytes(j) == (j * 4096) as usize,
    ;
    if alloc_page_spec(s).1 is Some {
        let k = lemma_alloc_page_index(s);
        assert(k != j);
        assert(page_bytes(k) == k * 4096) by (nonlinear_arith)
            requires
                0 <= k < s.used.len(),
                s.used.len() * 4096 <= usize::MAX + 1,
                page_bytes(k) == (k * 4096) as usize,
        ;
        assert(alloc_page_spec(s).0.used == s.used.update(k, true));
        assert(alloc_page_spec(s).0.used[k]);
    }
    if s.enabled && s.last_free >= count {
        lemma_first_fit_clear(s.used, s.first_free as int, s.last_free - count, count as int);
        lemma_first_fit_range(s.used, s.first_free as int, s.last_free - count, count as int);
        if let Some(i) = first_fit(s.used, s.first_free as int, s.last_free - count, count as int) {
            if count > 0 {
                lemma_all_clear_first(s.used, i, count as int);
                lemma_all_clear_at(s.used, i, count as int, i + count - 1);
                assert(page_bytes(i) == i * 4096) by (nonlinear_arith)
                    requires
                        0 <= i < s.used.len(),
                        s.used.len() * 4096 <= usize::MAX + 1,
                        page_bytes(i) == (i * 4096) as usize,
                ;
                if i <= j < i + count {
                    lemma_all_clear_at(s.used, i, count as int, j);
                }
            }
        }
    }
}

/// A page handed out by `alloc_page` is not handed out again by a following `alloc_pages`:
/// the run it takes does not hold that page.
pub proof fn lemma_alloc_page_then_alloc_pages(s: AllocState, count: usize)
    requires
        alloc_page_ok(s),
        alloc_page_ok(alloc_page_spec(s).0),
        s.used.len() * 4096 <= usize::MAX + 1,
    ensures
        alloc_page_spec(s).1 matches Some(a) ==> (alloc_pages_spec(alloc_page_spec(s).0, count).1 matches Some(
            b,
        ) ==> !(b <= a < b + count * 4096)),
{
    if alloc_page_spec(s).1 is Some {
        let j = lemma_alloc_page_index(s);
        let s1 = alloc_page_spec(s).0;
        assert(s1.used == s.used.update(j, true));
        assert(s1.used[j]);
        lemma_used_page_not_handed_out(s1, count, j);
    }
}

/// `init` on a range that holds no whole page leaves an allocator that hands out nothing and
/// takes nothing back; on a range of whole pages from `sp` to `ep` its bookkeeping takes
/// `(ep - sp) / 4 + 1` bytes.
pub proof fn lemma_init_range(s: AllocState, start: usize, end: usize, count: usize, addr: usize)
    requires
        start + 4095 <= usize::MAX,
    ensures
        ({
            let sp = (start + 4095) / 4096;
            let ep = end / 4096;
            let t = init_spec(s, start, end);
            &&& ep <= sp ==> {
                &&& alloc_page_spec(t).1 is None
                &&& alloc_pages_spec(t, count).1 is None
                &&& !dealloc_page_spec(t, addr).1
                &&& !dealloc_pages_spec(t, addr, count).1
            }
            &&& ep > sp ==> t.page_data_size == (ep - sp) / 4 + 1
        }),
{
}

/// Two allocators tried in turn: the main one, then the one below 4 GiB.
pub open spec fn pair_alloc_page(main: AllocState, low: AllocState) -> (AllocState, AllocState, Option<usize>) {
    let (m2, rm) = alloc_page_spec(main);
    if rm is Some {
        (m2, low, rm)
    } else {
        let (l2, rl) = alloc_page_spec(low);
        (m2, l2, rl)
    }
}

/// `pair_alloc_page` does not fail.
pub open spec fn pair_alloc_page_ok(main: AllocState, low: AllocState) -> bool {
    &&& alloc_page_ok(main)
    &&& alloc_page_spec(main).1 is None ==> alloc_page_ok(low)
}

/// Two allocators tried in turn for `count` pages.
pub open spec fn pair_alloc_pages(main: AllocState, low: AllocState, count: usize) -> (AllocState, AllocState, Option<usize>) {
    let (m2, rm) = alloc_pages_spec(main, count);
    if rm is Some {
        (m2, low, rm)
    } else {
        let (l2, rl) = alloc_pages_spec(low, count);
        (m2, l2, rl)
    }
}

/// `pair_alloc_pages` does not fail.
pub open spec fn pair_alloc_pages_ok(main: AllocState, low: AllocState, count: usize) -> bool {
    &&& alloc_pages_ok(main, count)
    &&& alloc_pages_spec(main, count).1 is None ==> alloc_pages_ok(low, count)
}

/// One page given back to whichever of two allocators takes it.
pub open spec fn pair_dealloc_page(main: AllocState, low: AllocState, addr: usize) -> (AllocState, AllocState) {
    let (m2, tm) = dealloc_page_spec(main, addr);
    if tm {
        (m2, low)
    } else {
        (m2, dealloc_page_spec(low, addr).0)
    }
}

/// One of the two allocators takes the page back, without failing.
pub open spec fn pair_dealloc_page_ok(main: AllocState, low: AllocState, addr: usize) -> bool {
    &&& dealloc_page_ok(main, addr)
    &&& !dealloc_page_spec(main, addr).1 ==> dealloc_page_ok(low, addr) && dealloc_page_spec(low, addr).1
}

/// `count` pages given back to whichever of two allocators takes them.
pub open spec fn pair_dealloc_pages(main: AllocState, low: AllocState, addr: usize, count: usize) -> (AllocState, AllocState) {
    let (m2, tm) = dealloc_pages_spec(main, addr, count);
    if tm {
        (m2, low)
    } else {
        (m2, dealloc_pages_spec(low, addr, count).0)
    }
}

/// One of the two allocators takes the pages back, without failing.
pub open spec fn pair_dealloc_pages_ok(main: AllocState, low: AllocState, addr: usize, count: usize) -> bool {
    &&& dealloc_pages_ok(main, addr, count)
    &&& !dealloc_pages_spec(main, addr, count).1 ==> dealloc_pages_ok(low, addr, count)
        && dealloc_pages_spec(low, addr, count).1
}

/// A physical page allocator.
pub trait MemoryAllocator: Sized {
    /// The allocator's internal layout is consistent.
    spec fn wf(&self) -> bool;

    /// The allocator's state.
    spec fn state(&self) -> AllocState;

    /// The state of a new allocator.
    spec fn initial() -> AllocState;

    /// A disabled allocator that manages nothing and asks for no bookkeeping memory.
    fn new() -> (r: Self)
        ensures
            r.wf(),
            r.state() == Self::initial(),
            !r.state().enabled,
            r.state().page_data_size == 0,
    ;

    /// Sets the managed range to the whole pages inside `[start, end)`.
    fn init(&mut self, start: usize, end: usize)
        requires
            old(self).wf(),
            start + 4095 <= usize::MAX,
        ensures
            final(self).wf(),
            final(self).state() == init_spec(old(self).state(), start, end),
    ;

    /// The number of bytes of bookkeeping memory the allocator needs.
    fn data_size(&self) -> (r: usize)
        requires
            self.wf(),
        ensures
            r == self.state().page_data_size,
    ;

    /// Hands over `data_len` bytes of bookkeeping memory; every page bitmap word starts as 0xff.
    fn set_data(&mut self, data_len: usize)
        requires
            old(self).wf(),
            data_len >= old(self).state().page_data_size,
        ensures
            final(self).wf(),
            final(self).state() == (AllocState {
                used: set_data_used(old(self).state()),
                ..old(self).state()
            }),
    ;

    /// Meant to add the whole pages of `[start, end)` to the free pages; as written, the
    /// range is first clamped to lie outside the managed pages, so the state stays as it was.
    fn include_range(&mut self, start: usize, end: usize)
        requires
            old(self).wf(),
            add_range_ok(old(self).state(), start),
        ensures
            final(self).wf(),
            final(self).state() == old(self).state(),
    ;

    /// Takes one free page.
    fn alloc_page(&mut self) -> (r: Option<usize>)
        requires
            old(self).wf(),
            alloc_page_ok(old(self).state()),
        ensures
            final(self).wf(),
            (final(self).state(), r) == alloc_page_spec(old(self).state()),
    ;

    /// Gives back the page at `addr`; false when `addr` is not this allocator's.
    fn dealloc_page(&mut self, addr: usize) -> (r: bool)
        requires
            old(self).wf(),
            dealloc_page_ok(old(self).state(), addr),
        ensures
            final(self).wf(),
            (final(self).state(), r) == dealloc_page_spec(old(self).state(), addr),
    ;

    /// Takes `count` consecutive free pages.
    fn alloc_pages(&mut self, count: usize) -> (r: Option<usize>)
        requires
            old(self).wf(),
            alloc_pages_ok(old(self).state(), count),
        ensures
            final(self).wf(),
            (final(self).state(), r) == alloc_pages_spec(old(self).state(), count),
    ;

    /// Gives back `count` pages from `addr`; false when `addr` is not this allocator's.
    fn dealloc_pages(&mut self, addr: usize, count: usize) -> (r: bool)
        requires
            old(self).wf(),
            dealloc_pages_ok(old(self).state(), addr, count),
        ensures
            final(self).wf(),
            (final(self).state(), r) == dealloc_pages_spec(old(self).state(), addr, count),
    ;
}

} // verus!
