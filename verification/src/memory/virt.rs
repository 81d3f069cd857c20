//! The virtual address space allocator: an ordered list of regions that tile
//! the space, each either free or allocated.
use vstd::prelude::*;
use crate::memory::address::{PageCount, VirtAddr, VirtAddrPageAligned};

verus! {

/// A region of the space: whether it is allocated, and its number of pages.
#[derive(Debug, Copy, Clone)]
pub struct MemoryAllocation {
    allocated: bool,
    length: PageCount,
}

impl MemoryAllocation {
    /// Whether the region is allocated.
    pub closed spec fn spec_allocated(self) -> bool {
        self.allocated
    }

    /// The region's number of pages.
    pub closed spec fn spec_length(self) -> usize {
        self.length@
    }

    /// A free region of `length` pages.
    pub fn free(length: PageCount) -> (r: Self)
        ensures
            !r.spec_allocated(),
            r.spec_length() == length@,
    {
        MemoryAllocation { allocated: false, length }
    }

    /// An allocated region of `length` pages.
    pub fn allocated(length: PageCount) -> (r: Self)
        ensures
            r.spec_allocated(),
            r.spec_length() == length@,
    {
        MemoryAllocation { allocated: true, length }
    }
}

/// How a region lies relative to a selection.
#[derive(Debug, Copy, Clone)]
pub enum AddrIntersection {
    NoOverlap,
    All,
    PartialDown(VirtAddrPageAligned),
    PartialUp(VirtAddrPageAligned),
    PartialMid(BaseWithLength),
}

/// A range of pages: its first page and its number of pages.
#[derive(Debug, Copy, Clone)]
pub struct BaseWithLength(pub VirtAddrPageAligned, pub PageCount);

impl BaseWithLength {
    /// The address of the first byte after the range.
    pub open spec fn spec_end(self) -> int {
        self.0@ + self.1@ * 4096
    }

    /// The first page.
    pub fn start(self) -> (r: VirtAddrPageAligned)
        ensures
            r == self.0,
    {
        self.0
    }

    /// The number of pages.
    pub fn length(self) -> (r: PageCount)
        ensures
            r == self.1,
    {
        self.1
    }

    /// The address of the first byte after the range.
    pub fn end(self) -> (r: VirtAddrPageAligned)
        requires
            self.spec_end() <= usize::MAX,
        ensures
            r@ == self.spec_end(),
    {
        self.0.add_pages(self.1)
    }

    /// The selection `other` and this range do not meet.
    pub open spec fn misses(self, other: BaseWithLength) -> bool {
        self.0@ > other.spec_end() || self.spec_end() <= other.0@
    }

    /// How this range lies relative to `other`.
    pub fn intersect(self, other: BaseWithLength) -> (r: AddrIntersection)
        requires
            self.spec_end() <= usize::MAX,
            other.spec_end() <= usize::MAX,
        ensures
            self.misses(other) ==> r is NoOverlap,
            !self.misses(other) && self.0@ >= other.0@ && self.spec_end() <= other.spec_end()
                ==> r is All,
            !self.misses(other) && self.0@ < other.0@ && self.spec_end() > other.spec_end() ==> r
                == AddrIntersection::PartialMid(other),
            !self.misses(other) && self.0@ < other.0@ && self.spec_end() <= other.spec_end() ==> r
                == AddrIntersection::PartialUp(other.0),
            !self.misses(other) && self.0@ >= other.0@ && self.spec_end() > other.spec_end() ==> (
            r matches AddrIntersection::PartialDown(a) && a@ == other.spec_end()),
    {
        if self.start().addr() > other.end().addr() || self.end().addr() <= other.start().addr() {
            AddrIntersection::NoOverlap
        } else if self.start().addr() >= other.start().addr() && self.end().addr()
            <= other.end().addr() {
            AddrIntersection::All
        } else if self.start().addr() < other.start().addr() && self.end().addr()
            > other.end().addr() {
            AddrIntersection::PartialMid(other)
        } else if self.start().addr() < other.start().addr() {
            AddrIntersection::PartialUp(other.start())
        } else {
            AddrIntersection::PartialDown(other.end())
        }
    }
}

/// A region of the space: its first page and its allocation.
pub type Region = (VirtAddrPageAligned, MemoryAllocation);

/// The address of a region's first page.
pub open spec fn rbase(e: Region) -> int {
    e.0@ as int
}

/// A region's number of pages.
pub open spec fn rlen(e: Region) -> int {
    e.1.spec_length() as int
}

/// Whether a region is allocated.
pub open spec fn ralloc(e: Region) -> bool {
    e.1.spec_allocated()
}

/// The address of the first byte after a region.
pub open spec fn rend(e: Region) -> int {
    rbase(e) + rlen(e) * 4096
}

/// The allocation flags of a region's pages.
pub open spec fn run_of(e: Region) -> Seq<bool> {
    Seq::new(rlen(e) as nat, |i: int| ralloc(e))
}

/// The allocation flags of the pages of a list of regions, one region after the other.
pub open spec fn pages_of(s: Seq<Region>) -> Seq<bool>
    decreases s.len(),
{
    if s.len() == 0 {
        Seq::empty()
    } else {
        run_of(s[0]) + pages_of(s.drop_first())
    }
}

/// The number of pages of the first `k` regions.
pub open spec fn off(s: Seq<Region>, k: int) -> int {
    pages_of(s.take(k)).len() as int
}

/// The regions follow one another without gaps, each holds at least one page, no two free
/// regions are neighbours, and the last one ends inside the address space.
pub open spec fn regions_wf(s: Seq<Region>) -> bool {
    &&& s.len() >= 1
    &&& forall|i: int| 0 <= i < s.len() ==> rlen(#[trigger] s[i]) >= 1
    &&& forall|i: int| 0 <= i < s.len() - 1 ==> rbase(#[trigger] s[i + 1]) == rend(s[i])
    &&& forall|i: int| 0 <= i < s.len() - 1 ==> ralloc(#[trigger] s[i]) || ralloc(s[i + 1])
    &&& rend(s[s.len() - 1]) <= usize::MAX
}

/// The number of free pages from page `i` on, up to the first allocated one.
pub open spec fn free_run(p: Seq<bool>, i: int) -> int
    decreases p.len() - i,
{
    if 0 <= i < p.len() && !p[i] {
        1 + free_run(p, i + 1)
    } else {
        0
    }
}

/// Page `j` is the first page of a run of free pages.
pub open spec fn run_start(p: Seq<bool>, j: int) -> bool {
    0 <= j < p.len() && !p[j] && (j == 0 || p[j - 1])
}

/// The first page at or after `j` that starts a run of at least `size` free pages.
pub open spec fn first_fit_from(p: Seq<bool>, j: int, size: int) -> Option<int>
    decreases p.len() - j,
{
    if j >= p.len() {
        None
    } else if j >= 0 && run_start(p, j) && free_run(p, j) >= size {
        Some(j)
    } else {
        first_fit_from(p, j + 1, size)
    }
}

/// The number of free pages at the end.
pub open spec fn trailing_free(p: Seq<bool>) -> int
    decreases p.len(),
{
    if p.len() == 0 || p[p.len() - 1] {
        0
    } else {
        1 + trailing_free(p.drop_last())
    }
}

/// `p` with the pages `[lo, hi)` set to `v`.
pub open spec fn set_pages(p: Seq<bool>, lo: int, hi: int, v: bool) -> Seq<bool> {
    Seq::new(p.len(), |i: int| if lo <= i < hi { v } else { p[i] })
}

proof fn lemma_pages_of_concat(a: Seq<Region>, b: Seq<Region>)
    ensures
        pages_of(a + b) == pages_of(a) + pages_of(b),
    decreases a.len(),
{
    if a.len() == 0 {
        assert(a + b =~= b);
        assert(pages_of(a) =~= Seq::<bool>::empty());
        assert(pages_of(a) + pages_of(b) =~= pages_of(b));
    } else {
        assert((a + b).drop_first() =~= a.drop_first() + b);
        lemma_pages_of_concat(a.drop_first(), b);
        assert(pages_of(a + b) =~= run_of(a[0]) + (pages_of(a.drop_first()) + pages_of(b)));
    }
}

proof fn lemma_pages_of_single(e: Region)
    ensures
        pages_of(seq![e]) == run_of(e),
{
    let z = Seq::<Region>::empty();
    assert(seq![e].drop_first() =~= z);
    assert(pages_of(z) =~= Seq::<bool>::empty());
    assert(pages_of(seq![e]) == run_of(e) + pages_of(z));
    assert(pages_of(seq![e]) =~= run_of(e));
}

/// The pages of the regions split at region `k`.
proof fn lemma_pages_split(s: Seq<Region>, k: int)
    requires
        0 <= k < s.len(),
        forall|i: int| 0 <= i < s.len() ==> rlen(#[trigger] s[i]) >= 0,
    ensures
        pages_of(s) == pages_of(s.take(k)) + run_of(s[k]) + pages_of(s.skip(k + 1)),
        off(s, k + 1) == off(s, k) + rlen(s[k]),
        forall|t: int| 0 <= t < rlen(s[k]) ==> #[trigger] pages_of(s)[off(s, k) + t] == ralloc(s[k]),
        pages_of(s).len() == off(s, k) + rlen(s[k]) + pages_of(s.skip(k + 1)).len(),
{
    assert(s =~= s.take(k) + seq![s[k]] + s.skip(k + 1));
    lemma_pages_of_concat(s.take(k) + seq![s[k]], s.skip(k + 1));
    lemma_pages_of_concat(s.take(k), seq![s[k]]);
    lemma_pages_of_single(s[k]);
    assert(s.take(k + 1) =~= s.take(k) + seq![s[k]]);
    assert forall|t: int| 0 <= t < rlen(s[k]) implies #[trigger] pages_of(s)[off(s, k) + t]
        == ralloc(s[k]) by {
        assert(pages_of(s)[off(s, k) + t] == run_of(s[k])[t]);
    }
}

/// In well-formed regions, region `k` starts `off(k)` pages after the first one.
proof fn lemma_offsets(s: Seq<Region>, k: int)
    requires
        regions_wf(s),
        0 <= k < s.len(),
    ensures
        rbase(s[k]) == rbase(s[0]) + off(s, k) * 4096,
    decreases k,
{
    if k > 0 {
        lemma_offsets(s, k - 1);
        lemma_pages_split(s, k - 1);
    } else {
        assert(s.take(0) =~= Seq::<Region>::empty());
        assert(pages_of(s.take(0)) =~= Seq::<bool>::empty());
    }
}

/// In well-formed regions, the last region ends `pages.len()` pages after the first one starts.
proof fn lemma_last_offset(s: Seq<Region>)
    requires
        regions_wf(s),
    ensures
        rend(s[s.len() - 1]) == rbase(s[0]) + pages_of(s).len() * 4096,
{
    let n = s.len() as int;
    lemma_offsets(s, n - 1);
    lemma_pages_split(s, n - 1);
    assert(s.skip(n) =~= Seq::<Region>::empty());
    assert(pages_of(s.skip(n)) =~= Seq::<bool>::empty());
}

proof fn lemma_free_run_in(s: Seq<Region>, k: int, t: int)
    requires
        regions_wf(s),
        0 <= k < s.len(),
        !ralloc(s[k]),
        0 <= t <= rlen(s[k]),
    ensures
        free_run(pages_of(s), off(s, k) + t) == rlen(s[k]) - t,
    decreases rlen(s[k]) - t,
{
    let p = pages_of(s);
    lemma_pages_split(s, k);
    if t == rlen(s[k]) {
        if k + 1 < s.len() {
            lemma_pages_split(s, k + 1);
            assert(p[off(s, k + 1) + 0] == ralloc(s[k + 1]));
        } else {
            assert(s.skip(k + 1) =~= Seq::<Region>::empty());
            assert(pages_of(s.skip(k + 1)) =~= Seq::<bool>::empty());
        }
    } else {
        lemma_free_run_in(s, k, t + 1);
        assert(!p[off(s, k) + t]);
    }
}

/// A free region is a maximal run of free pages.
proof fn lemma_free_region(s: Seq<Region>, k: int)
    requires
        regions_wf(s),
        0 <= k < s.len(),
        !ralloc(s[k]),
    ensures
        free_run(pages_of(s), off(s, k)) == rlen(s[k]),
        run_start(pages_of(s), off(s, k)),
{
    let p = pages_of(s);
    lemma_free_run_in(s, k, 0);
    lemma_pages_split(s, k);
    assert(!p[off(s, k) + 0]);
    if k > 0 {
        lemma_pages_split(s, k - 1);
        assert(p[off(s, k - 1) + (rlen(s[k - 1]) - 1)] == ralloc(s[k - 1]));
    } else {
        assert(s.take(0) =~= Seq::<Region>::empty());
        assert(pages_of(s.take(0)) =~= Seq::<bool>::empty());
    }
}

/// No page inside a region, after its first page, starts a free run, and neither does the
/// first page of an allocated region.
proof fn lemma_skip_region(s: Seq<Region>, k: int, j: int, size: int)
    requires
        regions_wf(s),
        0 <= k < s.len(),
        off(s, k) <= j <= off(s, k + 1),
        !ralloc(s[k]) ==> off(s, k) < j,
    ensures
        first_fit_from(pages_of(s), j, size) == first_fit_from(pages_of(s), off(s, k + 1), size),
    decreases off(s, k + 1) - j,
{
    let p = pages_of(s);
    lemma_pages_split(s, k);
    if j < off(s, k + 1) {
        assert(p[off(s, k) + (j - off(s, k))] == ralloc(s[k]));
        if !ralloc(s[k]) {
            assert(p[off(s, k) + (j - 1 - off(s, k))] == ralloc(s[k]));
        }
        assert(!run_start(p, j));
        assert(off(s, k) >= 0);
        lemma_skip_region(s, k, j + 1, size);
    }
}

/// Where the search for a run of `size` free pages goes at the start of region `k`.
proof fn lemma_region_fit(s: Seq<Region>, k: int, size: int)
    requires
        regions_wf(s),
        0 <= k < s.len(),
    ensures
        !ralloc(s[k]) && rlen(s[k]) >= size ==> first_fit_from(pages_of(s), off(s, k), size) == Some(
            off(s, k),
        ),
        !(!ralloc(s[k]) && rlen(s[k]) >= size) ==> first_fit_from(pages_of(s), off(s, k), size)
            == first_fit_from(pages_of(s), off(s, k + 1), size),
{
    let p = pages_of(s);
    lemma_pages_split(s, k);
    assert(s.take(k).len() == k);
    assert(off(s, k) >= 0);
    if !ralloc(s[k]) {
        lemma_free_region(s, k);
        if rlen(s[k]) < size {
            lemma_skip_region(s, k, off(s, k) + 1, size);
        }
    } else {
        lemma_skip_region(s, k, off(s, k), size);
    }
}

/// After the last region there is nothing to find.
proof fn lemma_end_fit(s: Seq<Region>, size: int)
    requires
        regions_wf(s),
    ensures
        off(s, s.len() as int) == pages_of(s).len(),
        first_fit_from(pages_of(s), off(s, s.len() as int), size) is None,
{
    assert(s.take(s.len() as int) =~= s);
}

/// Every region ends inside the address space.
pub open spec fn ends_fit(s: Seq<Region>) -> bool {
    forall|i: int| 0 <= i < s.len() ==> rend(#[trigger] s[i]) <= usize::MAX
}

/// Inserts the region `(addr, alloc)` at position `pos` of `data`, where it fills a gap
/// between its neighbours, merging it with a neighbour of the same kind that touches it.
/// Returns the position after the inserted region.
fn insert_entry(
    data: &mut Vec<Region>,
    pos: usize,
    addr: VirtAddrPageAligned,
    alloc: MemoryAllocation,
) -> (r: usize)
    requires
        alloc.spec_length() > 0,
        pos <= old(data)@.len(),
        ends_fit(old(data)@),
        addr@ + alloc.spec_length() * 4096 <= usize::MAX,
        pos > 0 ==> rend(old(data)@[pos - 1]) <= addr@,
        pos < old(data)@.len() ==> addr@ + alloc.spec_length() * 4096 <= rbase(old(data)@[pos as int]),
    ensures
        ({
            let d = old(data)@;
            let mp = pos > 0 && ralloc(d[pos - 1]) == alloc.spec_allocated() && rend(d[pos - 1])
                == addr@;
            let mn = pos < d.len() && ralloc(d[pos as int]) == alloc.spec_allocated() && addr@
                + alloc.spec_length() * 4096 == rbase(d[pos as int]);
            let lo = if mp {
                pos - 1
            } else {
                pos as int
            };
            let hi = if mn {
                pos + 1
            } else {
                pos as int
            };
            let f = final(data)@;
            &&& r == lo + 1
            &&& f.len() == lo + 1 + (d.len() - hi)
            &&& forall|i: int| 0 <= i < lo ==> f[i] == d[i]
            &&& forall|i: int| hi <= i < d.len() ==> f[i - hi + lo + 1] == #[trigger] d[i]
            &&& rbase(f[lo]) == if mp {
                rbase(d[pos - 1])
            } else {
                addr@ as int
            }
            &&& ralloc(f[lo]) == alloc.spec_allocated()
            &&& rlen(f[lo]) == alloc.spec_length() + (if mp {
                rlen(d[pos - 1])
            } else {
                0
            }) + (if mn {
                rlen(d[pos as int])
            } else {
                0
            })
        }),
{
    let ghost d = data@;
    let mut addr = addr;
    let mut alloc = alloc;
    let mut pos = pos;
    if pos > 0 {
        let prev = data[pos - 1];
        if prev.1.allocated == alloc.allocated && prev.0.add_pages(prev.1.length).addr()
            == addr.addr() {
            data.remove(pos - 1);
            pos = pos - 1;
            addr = prev.0;
            alloc.length = PageCount::new(alloc.length.count() + prev.1.length.count());
        }
    }
    let ghost mid = data@;
    if pos < data.len() {
        let next = data[pos];
        proof {
            assert(next == d[(pos + (d.len() - mid.len())) as int]);
        }
        if next.1.allocated == alloc.allocated && addr.add_pages(alloc.length).addr() == next.0.addr() {
            data.remove(pos);
            alloc.length = PageCount::new(alloc.length.count() + next.1.length.count());
        }
    }
    data.insert(pos, (addr, alloc));
    proof {
        let f = data@;
        let mp = d.len() != mid.len();
        let lo = pos as int;
        assert(f[lo] == (addr, alloc));
    }
    let n = data.len();
    assert(pos < n);
    pos + 1
}

/// Every region of well-formed regions ends inside the address space.
proof fn lemma_ends_fit(s: Seq<Region>)
    requires
        regions_wf(s),
    ensures
        ends_fit(s),
{
    lemma_last_offset(s);
    assert forall|i: int| 0 <= i < s.len() implies rend(#[trigger] s[i]) <= usize::MAX by {
        lemma_offsets(s, i);
        lemma_pages_split(s, i);
    }
}

/// The regions inside `mids` follow one another without gaps, each holds a page, and no two
/// free ones are neighbours.
pub open spec fn inner_wf(m: Seq<Region>) -> bool {
    &&& m.len() >= 1
    &&& forall|i: int| 0 <= i < m.len() ==> rlen(#[trigger] m[i]) >= 1
    &&& forall|i: int| 0 <= i < m.len() - 1 ==> rbase(#[trigger] m[i + 1]) == rend(m[i])
    &&& forall|i: int| 0 <= i < m.len() - 1 ==> ralloc(#[trigger] m[i]) || ralloc(m[i + 1])
}

/// Replacing the regions `[lo, hi)` of well-formed regions by regions that cover the same
/// addresses keeps them well formed, and splices the pages.
proof fn lemma_replace(d: Seq<Region>, lo: int, hi: int, m: Seq<Region>)
    requires
        regions_wf(d),
        0 <= lo < hi <= d.len(),
        inner_wf(m),
        rbase(m[0]) == rbase(d[lo]),
        rend(m[m.len() - 1]) == rend(d[hi - 1]),
        lo > 0 && !ralloc(m[0]) ==> ralloc(d[lo - 1]),
        hi < d.len() && !ralloc(m[m.len() - 1]) ==> ralloc(d[hi]),
    ensures
        regions_wf(d.take(lo) + m + d.skip(hi)),
        pages_of(d.take(lo) + m + d.skip(hi)) == pages_of(d.take(lo)) + pages_of(m) + pages_of(
            d.skip(hi),
        ),
        rbase((d.take(lo) + m + d.skip(hi))[0]) == rbase(d[0]),
{
    let r = d.take(lo) + m + d.skip(hi);
    lemma_pages_of_concat(d.take(lo) + m, d.skip(hi));
    lemma_pages_of_concat(d.take(lo), m);
    assert(r.len() == lo + m.len() + (d.len() - hi));
    assert forall|i: int| 0 <= i < r.len() implies rlen(#[trigger] r[i]) >= 1 by {
        if i < lo {
            assert(r[i] == d[i]);
        } else if i < lo + m.len() {
            assert(r[i] == m[i - lo]);
        } else {
            assert(r[i] == d[i - lo - m.len() + hi]);
        }
    }
    assert forall|i: int| 0 <= i < r.len() - 1 implies rbase(#[trigger] r[i + 1]) == rend(r[i]) by {
        if i < lo - 1 {
            assert(r[i] == d[i] && r[i + 1] == d[i + 1]);
            assert(rbase(d[i + 1]) == rend(d[i]));
        } else if i == lo - 1 {
            assert(r[i] == d[i] && r[i + 1] == m[0]);
            assert(rbase(d[i + 1]) == rend(d[i]));
        } else if i < lo + m.len() - 1 {
            let x = i - lo;
            assert(r[i] == m[x] && r[i + 1] == m[x + 1]);
            assert(rbase(m[x + 1]) == rend(m[x]));
        } else if i == lo + m.len() - 1 {
            assert(r[i] == m[m.len() - 1] && r[i + 1] == d[hi]);
            assert(rbase(d[(hi - 1) + 1]) == rend(d[hi - 1]));
        } else {
            let x = i - lo - m.len() + hi;
            assert(r[i] == d[x] && r[i + 1] == d[x + 1]);
            assert(rbase(d[x + 1]) == rend(d[x]));
        }
    }
    assert forall|i: int| 0 <= i < r.len() - 1 implies ralloc(#[trigger] r[i]) || ralloc(r[i + 1]) by {
        if i < lo - 1 {
            assert(r[i] == d[i] && r[i + 1] == d[i + 1]);
        } else if i == lo - 1 {
            assert(r[i] == d[i] && r[i + 1] == m[0]);
        } else if i < lo + m.len() - 1 {
            assert(r[i] == m[i - lo] && r[i + 1] == m[i - lo + 1]);
        } else if i == lo + m.len() - 1 {
            assert(r[i] == m[m.len() - 1] && r[i + 1] == d[hi]);
        } else {
            assert(r[i] == d[i - lo - m.len() + hi] && r[i + 1] == d[i - lo - m.len() + hi + 1]);
        }
    }
    if hi < d.len() {
        assert(r[r.len() - 1] == d[d.len() - 1]);
    } else {
        assert(r[r.len() - 1] == m[m.len() - 1]);
    }
    if lo == 0 {
        assert(r[0] == m[0]);
    } else {
        assert(r[0] == d[0]);
    }
}

/// The index of the page at `addr` in a space that starts at `start`; 0 below the start.
pub open spec fn page_index(start: int, addr: int) -> int {
    if addr <= start {
        0
    } else {
        (addr - start) / 4096
    }
}

/// Where `allocate_at` places `size` pages when asked for page `q`: at `q` itself if a free run
/// of at least `size` pages starts there or passes through it, otherwise (when allowed) at the
/// first later run of at least `size` free pages.
pub open spec fn alloc_at_result(p: Seq<bool>, q: int, size: int, allow_after: bool) -> Option<int> {
    if 0 <= q < p.len() && !p[q] && free_run(p, q) >= size {
        Some(q)
    } else if allow_after {
        first_fit_from(p, q + 1, size)
    } else {
        None
    }
}

/// The search for page `q` looks at a free region: the one holding `q` (or the last one, past
/// the end), or, when allowed to go further, any later one.
pub open spec fn examines_free(p: Seq<bool>, q: int, allow_after: bool) -> bool {
    ||| q < p.len() && !p[q]
    ||| q >= p.len() && p.len() > 0 && !p[p.len() - 1]
    ||| allow_after && exists|j: int| q < j < p.len() && !#[trigger] p[j]
}

/// `allocate_at` does not fail: a request for no pages must not meet a free region, and a
/// request past the end must not meet a last free region large enough.
pub open spec fn allocate_at_ok(p: Seq<bool>, q: int, size: int, allow_after: bool) -> bool {
    &&& size == 0 ==> !examines_free(p, q, allow_after)
    &&& q > p.len() ==> !exists|j: int|
        run_start(p, j) && #[trigger] free_run(p, j) == p.len() - j && p.len() - j >= size
}

proof fn lemma_pages_of_two(a: Region, b: Region)
    ensures
        pages_of(seq![a, b]) == run_of(a) + run_of(b),
{
    assert(seq![a, b] =~= seq![a] + seq![b]);
    lemma_pages_of_concat(seq![a], seq![b]);
    lemma_pages_of_single(a);
    lemma_pages_of_single(b);
}

proof fn lemma_pages_of_three(a: Region, b: Region, c: Region)
    ensures
        pages_of(seq![a, b, c]) == run_of(a) + run_of(b) + run_of(c),
{
    assert(seq![a, b, c] =~= seq![a, b] + seq![c]);
    lemma_pages_of_concat(seq![a, b], seq![c]);
    lemma_pages_of_two(a, b);
    lemma_pages_of_single(c);
}

/// Splicing regions that mark `size` pages from page `j` as allocated.
proof fn lemma_splice(d: Seq<Region>, lo: int, hi: int, m: Seq<Region>, j: int, size: int, v: bool)
    requires
        regions_wf(d),
        0 <= lo < hi <= d.len(),
        inner_wf(m),
        rbase(m[0]) == rbase(d[lo]),
        rend(m[m.len() - 1]) == rend(d[hi - 1]),
        lo > 0 && !ralloc(m[0]) ==> ralloc(d[lo - 1]),
        hi < d.len() && !ralloc(m[m.len() - 1]) ==> ralloc(d[hi]),
        pages_of(m) == set_pages(
            pages_of(d.subrange(lo, hi)),
            j - off(d, lo),
            j - off(d, lo) + size,
            v,
        ),
        off(d, lo) <= j,
        j + size <= off(d, lo) + pages_of(d.subrange(lo, hi)).len(),
    ensures
        regions_wf(d.take(lo) + m + d.skip(hi)),
        pages_of(d.take(lo) + m + d.skip(hi)) == set_pages(pages_of(d), j, j + size, v),
        rbase((d.take(lo) + m + d.skip(hi))[0]) == rbase(d[0]),
{
    lemma_replace(d, lo, hi, m);
    assert(d =~= d.take(lo) + d.subrange(lo, hi) + d.skip(hi));
    lemma_pages_of_concat(d.take(lo) + d.subrange(lo, hi), d.skip(hi));
    lemma_pages_of_concat(d.take(lo), d.subrange(lo, hi));
    let a = pages_of(d.take(lo));
    let b = pages_of(d.subrange(lo, hi));
    let c = pages_of(d.skip(hi));
    let pm = pages_of(m);
    assert(pages_of(d.take(lo) + m + d.skip(hi)) == a + pm + c);
    assert(pages_of(d) == a + b + c);
    assert(a.len() == off(d, lo));
    assert forall|i: int| 0 <= i < a.len() + b.len() + c.len() implies #[trigger] (a + pm + c)[i]
        == set_pages(a + b + c, j, j + size, v)[i] by {
        if i < a.len() {
        } else if i < a.len() + b.len() {
            assert((a + pm + c)[i] == pm[i - a.len()]);
        } else {
        }
    }
    assert(pages_of(d.take(lo) + m + d.skip(hi)) =~= set_pages(pages_of(d), j, j + size, v));
}

proof fn lemma_case_split3(d: Seq<Region>, k: int, m: Seq<Region>, diff: int, size: int, rem: int)
    requires
        regions_wf(d),
        0 <= k < d.len(),
        !ralloc(d[k]),
        m.len() == 3,
        diff >= 1,
        size >= 1,
        rem >= 1,
        diff + size + rem == rlen(d[k]),
        rbase(m[0]) == rbase(d[k]) && !ralloc(m[0]) && rlen(m[0]) == diff,
        rbase(m[1]) == rbase(d[k]) + diff * 4096 && ralloc(m[1]) && rlen(m[1]) == size,
        rbase(m[2]) == rbase(d[k]) + (diff + size) * 4096 && !ralloc(m[2]) && rlen(m[2]) == rem,
    ensures
        regions_wf(d.take(k) + m + d.skip(k + 1)),
        pages_of(d.take(k) + m + d.skip(k + 1)) == set_pages(
            pages_of(d),
            off(d, k) + diff,
            off(d, k) + diff + size,
            true,
        ),
        rbase((d.take(k) + m + d.skip(k + 1))[0]) == rbase(d[0]),
{
    assert(m =~= seq![m[0], m[1], m[2]]);
    lemma_pages_of_three(m[0], m[1], m[2]);
    assert(d.subrange(k, k + 1) =~= seq![d[k]]);
    lemma_pages_of_single(d[k]);
    assert(pages_of(m) =~= set_pages(pages_of(d.subrange(k, k + 1)), diff, diff + size, true));
    if k > 0 {
        assert(ralloc(d[k - 1]) || ralloc(d[k]));
    }
    if k + 1 < d.len() {
        assert(ralloc(d[k]) || ralloc(d[k + 1]));
    }
    lemma_splice(d, k, k + 1, m, off(d, k) + diff, size, true);
}

proof fn lemma_case_merge(d: Seq<Region>, k: int, m: Seq<Region>, diff: int, size: int)
    requires
        regions_wf(d),
        0 <= k < d.len(),
        !ralloc(d[k]),
        m.len() == 2,
        diff >= 1,
        size >= 1,
        diff + size == rlen(d[k]),
        rbase(m[0]) == rbase(d[k]) && !ralloc(m[0]) && rlen(m[0]) == diff,
        rbase(m[1]) == rbase(d[k]) + diff * 4096 && ralloc(m[1]) && rlen(m[1]) == size + (if k
            + 1 < d.len() {
            rlen(d[k + 1])
        } else {
            0
        }),
    ensures
        ({
            let hi = if k + 1 < d.len() {
                k + 2
            } else {
                k + 1
            };
            &&& regions_wf(d.take(k) + m + d.skip(hi))
            &&& pages_of(d.take(k) + m + d.skip(hi)) == set_pages(
                pages_of(d),
                off(d, k) + diff,
                off(d, k) + diff + size,
                true,
            )
            &&& rbase((d.take(k) + m + d.skip(hi))[0]) == rbase(d[0])
        }),
{
    assert(m =~= seq![m[0], m[1]]);
    lemma_pages_of_two(m[0], m[1]);
    if k > 0 {
        assert(ralloc(d[k - 1]) || ralloc(d[k]));
    }
    if k + 1 < d.len() {
        assert(ralloc(d[k]) || ralloc(d[k + 1]));
        assert(d.subrange(k, k + 2) =~= seq![d[k], d[k + 1]]);
        lemma_pages_of_two(d[k], d[k + 1]);
        assert(pages_of(m) =~= set_pages(pages_of(d.subrange(k, k + 2)), diff, diff + size, true));
        assert(rbase(d[k + 1]) == rend(d[k]));
        lemma_splice(d, k, k + 2, m, off(d, k) + diff, size, true);
    } else {
        assert(d.subrange(k, k + 1) =~= seq![d[k]]);
        lemma_pages_of_single(d[k]);
        assert(pages_of(m) =~= set_pages(pages_of(d.subrange(k, k + 1)), diff, diff + size, true));
        lemma_splice(d, k, k + 1, m, off(d, k) + diff, size, true);
    }
}

proof fn lemma_case_front(d: Seq<Region>, k: int, m: Seq<Region>, size: int, rem: int)
    requires
        regions_wf(d),
        0 <= k < d.len(),
        !ralloc(d[k]),
        m.len() == if rem > 0 {
            2int
        } else {
            1int
        },
        size >= 1,
        rem >= 0,
        size + rem == rlen(d[k]),
        rbase(m[0]) == rbase(d[k]) && ralloc(m[0]) && rlen(m[0]) == size,
        rem > 0 ==> rbase(m[1]) == rbase(d[k]) + size * 4096 && !ralloc(m[1]) && rlen(m[1]) == rem,
    ensures
        regions_wf(d.take(k) + m + d.skip(k + 1)),
        pages_of(d.take(k) + m + d.skip(k + 1)) == set_pages(
            pages_of(d),
            off(d, k),
            off(d, k) + size,
            true,
        ),
        rbase((d.take(k) + m + d.skip(k + 1))[0]) == rbase(d[0]),
{
    assert(d.subrange(k, k + 1) =~= seq![d[k]]);
    lemma_pages_of_single(d[k]);
    if rem > 0 {
        assert(m =~= seq![m[0], m[1]]);
        lemma_pages_of_two(m[0], m[1]);
    } else {
        assert(m =~= seq![m[0]]);
        lemma_pages_of_single(m[0]);
    }
    assert(pages_of(m) =~= set_pages(pages_of(d.subrange(k, k + 1)), 0, size, true));
    if k + 1 < d.len() {
        assert(ralloc(d[k]) || ralloc(d[k + 1]));
    }
    lemma_splice(d, k, k + 1, m, off(d, k), size, true);
}

/// Region `k` of `d` holds page `j`.
pub open spec fn holds_page(d: Seq<Region>, k: int, j: int) -> bool {
    0 <= k < d.len() && off(d, k) <= j < off(d, k) + rlen(d[k])
}

/// The position of the region that holds page `j`.
pub open spec fn region_at(d: Seq<Region>, j: int) -> int {
    choose|k: int| holds_page(d, k, j)
}

/// `f` is `d` with `size` pages placed `diff` pages into the free region `k`. That region is
/// cut into a free part of `diff` pages (when `diff > 0`), the allocated part, and a free part
/// with the pages left after it (when there are any). When pages were left before the
/// allocated part but none after it, the allocated part is joined with the allocated region
/// that follows it, if any.
pub open spec fn placed(d: Seq<Region>, f: Seq<Region>, k: int, diff: int, size: int) -> bool {
    let rem = rlen(d[k]) - diff - size;
    let b = rbase(d[k]);
    let joined = diff > 0 && rem == 0 && k + 1 < d.len();
    let a = if diff > 0 {
        k + 1
    } else {
        k
    };
    let mlen = a - k + 1 + if rem > 0 {
        1int
    } else {
        0int
    };
    let hi = if joined {
        k + 2
    } else {
        k + 1
    };
    &&& f.len() == k + mlen + (d.len() - hi)
    &&& forall|i: int| 0 <= i < k ==> #[trigger] f[i] == d[i]
    &&& forall|i: int| hi <= i < d.len() ==> f[i - hi + k + mlen] == #[trigger] d[i]
    &&& diff > 0 ==> rbase(f[k]) == b && !ralloc(f[k]) && rlen(f[k]) == diff
    &&& rbase(f[a]) == b + diff * 4096
    &&& ralloc(f[a])
    &&& rlen(f[a]) == size + if joined {
        rlen(d[k + 1])
    } else {
        0
    }
    &&& rem > 0 ==> rbase(f[a + 1]) == b + (diff + size) * 4096 && !ralloc(f[a + 1]) && rlen(
        f[a + 1],
    ) == rem
}

/// Only one region of well-formed regions holds a given page.
proof fn lemma_region_at(d: Seq<Region>, k: int, j: int)
    requires
        regions_wf(d),
        holds_page(d, k, j),
    ensures
        region_at(d, j) == k,
{
    let c = region_at(d, j);
    assert(holds_page(d, c, j));
    lemma_pages_split(d, k);
    lemma_pages_split(d, c);
    if c < k {
        lemma_off_mono(d, c + 1, k);
    } else if c > k {
        lemma_off_mono(d, k + 1, c);
    }
}

/// Freeing the pages that an allocation placed hands them back in one piece: when
/// `allocate_at` or `allocate` placed `size` pages at page `j`, turning the regions `d` into
/// `f`, `deallocate` of those pages gives exactly the piece `(j, size)`.
pub proof fn lemma_placed_run_frees_in_one_piece(d: Seq<Region>, f: Seq<Region>, j: int, size: int)
    requires
        regions_wf(d),
        regions_wf(f),
        size >= 1,
        holds_page(d, region_at(d, j), j),
        placed(d, f, region_at(d, j), j - off(d, region_at(d, j)), size),
    ensures
        region_pieces(f, f.len() as int, j, j + size) == seq![(j, size)],
{
    let k = region_at(d, j);
    let diff = j - off(d, k);
    let a = if diff > 0 {
        k + 1
    } else {
        k
    };
    assert(f.take(k) =~= d.take(k));
    assert(off(f, k) == off(d, k));
    if diff > 0 {
        lemma_pages_split(f, k);
    }
    assert(off(f, a) == j);
    lemma_pages_split(f, a);
    assert(off(f, a + 1) >= j + size);
    lemma_region_pieces_before(f, a, j, j + size);
    lemma_region_pieces_after(f, a + 1, f.len() as int, j, j + size);
    assert(region_pieces(f, a + 1, j, j + size) =~= seq![(j, size)]);
}

/// Splicing regions that cover the same number of pages keeps the offsets of the regions
/// before and after the splice.
proof fn lemma_splice_offs(d: Seq<Region>, lo: int, hi: int, m: Seq<Region>)
    requires
        0 <= lo <= hi <= d.len(),
        pages_of(m).len() == pages_of(d.subrange(lo, hi)).len(),
    ensures
        forall|j: int| 0 <= j <= lo ==> #[trigger] off(d.take(lo) + m + d.skip(hi), j) == off(d, j),
        forall|j: int|
            hi <= j <= d.len() ==> off(d.take(lo) + m + d.skip(hi), j - hi + lo + m.len())
                == #[trigger] off(d, j),
{
    let r = d.take(lo) + m + d.skip(hi);
    assert forall|j: int| 0 <= j <= lo implies #[trigger] off(r, j) == off(d, j) by {
        assert(r.take(j) =~= d.take(j));
    }
    assert forall|j: int| hi <= j <= d.len() implies off(r, j - hi + lo + m.len()) == #[trigger] off(
        d,
        j,
    ) by {
        let x = d.take(lo);
        let y = d.subrange(hi, j);
        assert(r.take(j - hi + lo + m.len()) =~= x + m + y);
        assert(d.take(j) =~= x + d.subrange(lo, hi) + y);
        lemma_pages_of_concat(x + m, y);
        lemma_pages_of_concat(x, m);
        lemma_pages_of_concat(x + d.subrange(lo, hi), y);
        lemma_pages_of_concat(x, d.subrange(lo, hi));
    }
}

/// Setting the flags of an empty range changes nothing.
proof fn lemma_set_none(p: Seq<bool>, x: int, v: bool)
    ensures
        set_pages(p, x, x, v) == p,
{
    assert(set_pages(p, x, x, v) =~= p);
}

/// `x` clamped to `[lo, hi]`.
pub open spec fn clamp(lo: int, x: int, hi: int) -> int {
    if x < lo {
        lo
    } else if x > hi {
        hi
    } else {
        x
    }
}

/// The index of the first page of a piece in a space that starts at `st`.
pub open spec fn piece_index(st: int, e: (VirtAddrPageAligned, PageCount)) -> int {
    (e.0@ - st) / 4096
}

/// The part of `[lo, hi)` that each allocated region among the first `j` of `d` holds, as its
/// first page and its number of pages, in address order; regions that hold none of it are
/// left out.
pub open spec fn region_pieces(d: Seq<Region>, j: int, lo: int, hi: int) -> Seq<(int, int)>
    decreases j,
{
    if j <= 0 {
        Seq::empty()
    } else {
        let a = if off(d, j - 1) < lo {
            lo
        } else {
            off(d, j - 1)
        };
        let b = if off(d, j) < hi {
            off(d, j)
        } else {
            hi
        };
        if ralloc(d[j - 1]) && a < b {
            region_pieces(d, j - 1, lo, hi).push((a, b - a))
        } else {
            region_pieces(d, j - 1, lo, hi)
        }
    }
}

/// Pieces as the index of their first page in a space that starts at `st`, and their length.
pub open spec fn piece_indices(st: int, pieces: Seq<(VirtAddrPageAligned, PageCount)>) -> Seq<
    (int, int),
> {
    pieces.map_values(|e: (VirtAddrPageAligned, PageCount)| (piece_index(st, e), e.1@ as int))
}

/// The first pages of the regions grow with their position.
proof fn lemma_off_mono(d: Seq<Region>, i: int, j: int)
    requires
        regions_wf(d),
        0 <= i <= j <= d.len(),
    ensures
        off(d, i) <= off(d, j),
    decreases j - i,
{
    if i < j {
        lemma_off_mono(d, i, j - 1);
        lemma_pages_split(d, j - 1);
    }
}

/// No region before position `j` holds a page of `[lo, hi)` when region `j` starts at or
/// before `lo`.
proof fn lemma_region_pieces_before(d: Seq<Region>, j: int, lo: int, hi: int)
    requires
        regions_wf(d),
        0 <= j <= d.len(),
        off(d, j) <= lo,
    ensures
        region_pieces(d, j, lo, hi) == Seq::<(int, int)>::empty(),
    decreases j,
{
    if j > 0 {
        lemma_off_mono(d, j - 1, j);
        lemma_region_pieces_before(d, j - 1, lo, hi);
    }
}

/// No region from position `i` on holds a page of `[lo, hi)` when region `i` starts at or
/// after `hi`, or when the range is empty.
proof fn lemma_region_pieces_after(d: Seq<Region>, i: int, j: int, lo: int, hi: int)
    requires
        regions_wf(d),
        0 <= i <= j <= d.len(),
        off(d, i) >= hi || hi <= lo,
    ensures
        region_pieces(d, j, lo, hi) == region_pieces(d, i, lo, hi),
    decreases j - i,
{
    if i < j {
        lemma_off_mono(d, i, j - 1);
        lemma_region_pieces_after(d, i, j - 1, lo, hi);
    }
}

/// `pieces`, in address order and without overlap, are runs of allocated pages of `p` inside
/// `[lo, hi)`, and together they hold every allocated page of `p` there.
pub open spec fn freed_pieces(
    p: Seq<bool>,
    st: int,
    lo: int,
    hi: int,
    pieces: Seq<(VirtAddrPageAligned, PageCount)>,
) -> bool {
    &&& forall|i: int|
        0 <= i < pieces.len() ==> {
            let e = #[trigger] pieces[i];
            &&& e.1@ >= 1
            &&& st <= e.0@
            &&& (e.0@ - st) % 4096 == 0
            &&& lo <= piece_index(st, e)
            &&& piece_index(st, e) + e.1@ <= hi
            &&& piece_index(st, e) + e.1@ <= p.len()
        }
    &&& forall|i: int, t: int|
        0 <= i < pieces.len() && piece_index(st, #[trigger] pieces[i]) <= t < piece_index(
            st,
            pieces[i],
        ) + pieces[i].1@ ==> #[trigger] p[t]
    &&& forall|i: int, j: int|
        0 <= i < j < pieces.len() ==> piece_index(st, #[trigger] pieces[i]) + pieces[i].1@
            <= piece_index(st, #[trigger] pieces[j])
    &&& forall|t: int|
        lo <= t < hi && 0 <= t < p.len() && #[trigger] p[t] ==> exists|i: int|
            0 <= i < pieces.len() && piece_index(st, #[trigger] pieces[i]) <= t < piece_index(
                st,
                pieces[i],
            ) + pieces[i].1@
}

/// The pieces found so far still describe a longer range when the added pages are free.
proof fn lemma_pieces_extend(
    p: Seq<bool>,
    st: int,
    lo: int,
    x: int,
    y: int,
    pieces: Seq<(VirtAddrPageAligned, PageCount)>,
)
    requires
        freed_pieces(p, st, lo, x, pieces),
        x <= y,
        forall|t: int| x <= t < y && 0 <= t < p.len() ==> !p[t],
    ensures
        freed_pieces(p, st, lo, y, pieces),
{
    assert forall|t: int| lo <= t < y && 0 <= t < p.len() && #[trigger] p[t] implies exists|i: int|
        0 <= i < pieces.len() && piece_index(st, #[trigger] pieces[i]) <= t < piece_index(
            st,
            pieces[i],
        ) + pieces[i].1@ by {
        if t >= x {
            assert(!p[t]);
        }
    }
}

/// Adding the piece of allocated pages `[x, y)` to pieces found up to `x`.
proof fn lemma_pieces_push(
    p: Seq<bool>,
    st: int,
    lo: int,
    x: int,
    y: int,
    pieces: Seq<(VirtAddrPageAligned, PageCount)>,
    e: (VirtAddrPageAligned, PageCount),
)
    requires
        freed_pieces(p, st, lo, x, pieces),
        lo <= x < y <= p.len(),
        st <= e.0@,
        (e.0@ - st) % 4096 == 0,
        piece_index(st, e) == x,
        e.1@ == y - x,
        forall|t: int| x <= t < y ==> p[t],
    ensures
        freed_pieces(p, st, lo, y, pieces.push(e)),
{
    let q = pieces.push(e);
    let n = pieces.len() as int;
    assert(q[n] == e);
    assert forall|i: int| 0 <= i < q.len() implies {
        let f = #[trigger] q[i];
        &&& f.1@ >= 1
        &&& st <= f.0@
        &&& (f.0@ - st) % 4096 == 0
        &&& lo <= piece_index(st, f)
        &&& piece_index(st, f) + f.1@ <= y
        &&& piece_index(st, f) + f.1@ <= p.len()
    } by {
        if i < n {
            assert(q[i] == pieces[i]);
        }
    }
    assert forall|i: int, t: int|
        0 <= i < q.len() && piece_index(st, #[trigger] q[i]) <= t < piece_index(st, q[i]) + q[i].1@
        implies #[trigger] p[t] by {
        if i < n {
            assert(q[i] == pieces[i]);
        }
    }
    assert forall|i: int, j: int| 0 <= i < j < q.len() implies piece_index(st, #[trigger] q[i])
        + q[i].1@ <= piece_index(st, #[trigger] q[j]) by {
        assert(q[i] == pieces[i]);
        if j < n {
            assert(q[j] == pieces[j]);
        }
    }
    assert forall|t: int| lo <= t < y && 0 <= t < p.len() && #[trigger] p[t] implies exists|i: int|
        0 <= i < q.len() && piece_index(st, #[trigger] q[i]) <= t < piece_index(st, q[i])
            + q[i].1@ by {
        if t < x {
            let i = choose|i: int|
                0 <= i < pieces.len() && piece_index(st, #[trigger] pieces[i]) <= t < piece_index(
                    st,
                    pieces[i],
                ) + pieces[i].1@;
            assert(q[i] == pieces[i]);
        } else {
            assert(piece_index(st, q[n]) <= t < piece_index(st, q[n]) + q[n].1@);
        }
    }
}

/// A page-aligned address at or above the page-aligned start of a space is the start plus
/// its page index times the page size.
proof fn lemma_aligned_index(st: int, x: int)
    requires
        st % 4096 == 0,
        x % 4096 == 0,
        0 <= st <= x,
    ensures
        x == st + page_index(st, x) * 4096,
{
    if st < x {
        assert(((x - st) / 4096) * 4096 == x - st) by (nonlinear_arith)
            requires
                st % 4096 == 0,
                x % 4096 == 0,
                st < x,
        ;
    }
}

/// Replacing the allocated region `k`, with the free regions next to it, by one free region
/// over the same pages frees the pages of region `k`.
proof fn lemma_free_splice(d: Seq<Region>, k: int, lo: int, hi: int, m: Seq<Region>)
    requires
        regions_wf(d),
        0 <= k < d.len(),
        ralloc(d[k]),
        lo == if k > 0 && !ralloc(d[k - 1]) {
            k - 1
        } else {
            k
        },
        hi == if k + 1 < d.len() && !ralloc(d[k + 1]) {
            k + 2
        } else {
            k + 1
        },
        m.len() == 1,
        rbase(m[0]) == rbase(d[lo]),
        !ralloc(m[0]),
        rlen(m[0]) == rlen(d[lo]) + (if lo < k {
            rlen(d[k])
        } else {
            0
        }) + (if hi > k + 1 {
            rlen(d[k + 1])
        } else {
            0
        }),
    ensures
        regions_wf(d.take(lo) + m + d.skip(hi)),
        rbase((d.take(lo) + m + d.skip(hi))[0]) == rbase(d[0]),
        pages_of(d.take(lo) + m + d.skip(hi)) == set_pages(pages_of(d), off(d, k), off(d, k + 1), false),
        off(d.take(lo) + m + d.skip(hi), lo + 1) == off(d, hi),
{
    lemma_offsets(d, lo);
    lemma_offsets(d, hi - 1);
    lemma_pages_split(d, hi - 1);
    assert(m =~= seq![m[0]]);
    lemma_pages_of_single(m[0]);
    let sub = d.subrange(lo, hi);
    if lo < k {
        if hi > k + 1 {
            assert(sub =~= seq![d[lo], d[k], d[k + 1]]);
            lemma_pages_of_three(d[lo], d[k], d[k + 1]);
        } else {
            assert(sub =~= seq![d[lo], d[k]]);
            lemma_pages_of_two(d[lo], d[k]);
        }
    } else {
        if hi > k + 1 {
            assert(sub =~= seq![d[k], d[k + 1]]);
            lemma_pages_of_two(d[k], d[k + 1]);
        } else {
            assert(sub =~= seq![d[k]]);
            lemma_pages_of_single(d[k]);
        }
    }
    lemma_offsets(d, k);
    lemma_pages_split(d, k);
    assert(pages_of(m) =~= set_pages(pages_of(sub), off(d, k) - off(d, lo), off(d, k + 1) - off(
        d,
        lo,
    ), false));
    if lo > 0 {
        assert(ralloc(d[lo - 1]) || ralloc(d[lo - 1 + 1]));
    }
    if hi < d.len() {
        assert(ralloc(d[hi - 1]) || ralloc(d[hi - 1 + 1]));
    }
    lemma_splice(d, lo, hi, m, off(d, k), off(d, k + 1) - off(d, k), false);
    lemma_splice_offs(d, lo, hi, m);
}

/// A run of at least `n` free pages from page `j` is free page by page.
proof fn lemma_free_run_pages(p: Seq<bool>, j: int, n: int)
    requires
        0 <= j,
        free_run(p, j) >= n,
    ensures
        j + n <= p.len() || n <= 0,
        forall|t: int| j <= t < j + n ==> !p[t],
    decreases n,
{
    if n > 0 {
        assert(0 <= j < p.len() && !p[j]);
        lemma_free_run_pages(p, j + 1, n - 1);
    }
}

/// What the first-fit search finds is the start of a run of at least `size` free pages at or
/// after where it started.
proof fn lemma_first_fit_found(p: Seq<bool>, from: int, size: int)
    requires
        0 <= from,
    ensures
        first_fit_from(p, from, size) matches Some(j) ==> from <= j && free_run(p, j) >= size,
    decreases p.len() - from,
{
    if from < p.len() && !(run_start(p, from) && free_run(p, from) >= size) {
        lemma_first_fit_found(p, from + 1, size);
    }
}

/// The `size` pages from page `r` are all in the space and free.
pub open spec fn fits(p: Seq<bool>, r: int, size: int) -> bool {
    &&& 0 <= r
    &&& r + size <= p.len()
    &&& forall|t: int| r <= t < r + size ==> !#[trigger] p[t]
}

/// A run of free pages has no negative length.
proof fn lemma_free_run_nonneg(p: Seq<bool>, i: int)
    ensures
        free_run(p, i) >= 0,
    decreases p.len() - i,
{
    if 0 <= i < p.len() && !p[i] {
        lemma_free_run_nonneg(p, i + 1);
    }
}

/// A run of at least `size` free pages starts at page `i` exactly when the `size` pages from
/// it fit.
proof fn lemma_free_run_fits(p: Seq<bool>, i: int, size: int)
    requires
        i >= 0,
        size >= 1,
    ensures
        (free_run(p, i) >= size) == fits(p, i, size),
    decreases size,
{
    if !(i < p.len() && !p[i]) {
        assert(free_run(p, i) == 0);
        if i < p.len() {
            assert(p[i]);
        }
        assert(!fits(p, i, size));
    } else {
        assert(free_run(p, i) == 1 + free_run(p, i + 1));
        lemma_free_run_nonneg(p, i + 1);
        if size == 1 {
            assert forall|t: int| i <= t < i + size implies !#[trigger] p[t] by {
                assert(t == i);
            }
            assert(fits(p, i, size));
        } else {
            lemma_free_run_fits(p, i + 1, size - 1);
            if fits(p, i, size) {
                assert forall|t: int| i + 1 <= t < i + 1 + (size - 1) implies !#[trigger] p[t] by {
                    assert(i <= t < i + size);
                }
                assert(fits(p, i + 1, size - 1));
            }
            if fits(p, i + 1, size - 1) {
                assert forall|t: int| i <= t < i + size implies !#[trigger] p[t] by {
                    if t > i {
                        assert(i + 1 <= t < i + 1 + (size - 1));
                    }
                }
                assert(fits(p, i, size));
            }
        }
    }
}

/// What `first_fit_from` finds: the first page from `j` on that starts a run of free pages
/// in which `size` pages fit.
proof fn lemma_first_fit_from_least(p: Seq<bool>, j: int, size: int)
    requires
        j >= 0,
        size >= 1,
    ensures
        first_fit_from(p, j, size) matches Some(r) ==> j <= r && run_start(p, r) && fits(p, r, size)
            && forall|r2: int| j <= r2 < r && #[trigger] run_start(p, r2) ==> !fits(p, r2, size),
        first_fit_from(p, j, size) is None ==> forall|r2: int|
            j <= r2 && #[trigger] run_start(p, r2) ==> !fits(p, r2, size),
    decreases p.len() - j,
{
    lemma_free_run_fits(p, j, size);
    if j < p.len() && !(run_start(p, j) && free_run(p, j) >= size) {
        lemma_first_fit_from_least(p, j + 1, size);
    }
}

/// Below a page where `size` pages fit, past `q` where they do not, some page starts a run of
/// free pages in which they fit.
proof fn lemma_fit_has_run_start(p: Seq<bool>, q: int, r: int, size: int)
    requires
        0 <= q < r,
        size >= 1,
        fits(p, r, size),
        !fits(p, q, size),
    ensures
        exists|r4: int| q < r4 <= r && #[trigger] run_start(p, r4) && fits(p, r4, size),
    decreases r - q,
{
    assert(!p[r]);
    if run_start(p, r) {
    } else {
        assert(!p[r - 1]);
        assert forall|t: int| r - 1 <= t < r - 1 + size implies !#[trigger] p[t] by {
            if t >= r {
                assert(r <= t < r + size);
            }
        }
        assert(fits(p, r - 1, size));
        if r - 1 > q {
            lemma_fit_has_run_start(p, q, r - 1, size);
        }
    }
}

/// `allocate_at` takes the first place at or after page `q` where `size` free pages fit, and
/// only `q` itself when not allowed to go further: the result is the least such page, and no
/// result means there is none.
pub proof fn lemma_allocate_at_least_fit(p: Seq<bool>, q: int, size: int)
    requires
        q >= 0,
        size >= 1,
    ensures
        alloc_at_result(p, q, size, false) == if fits(p, q, size) {
            Some(q)
        } else {
            None::<int>
        },
        alloc_at_result(p, q, size, true) matches Some(r) ==> q <= r && fits(p, r, size) && forall|r2: int|
            q <= r2 < r ==> !#[trigger] fits(p, r2, size),
        alloc_at_result(p, q, size, true) is None ==> forall|r2: int| q <= r2 ==> !#[trigger] fits(p, r2, size),
{
    lemma_free_run_fits(p, q, size);
    lemma_first_fit_from_least(p, q + 1, size);
    if !fits(p, q, size) {
        match first_fit_from(p, q + 1, size) {
            Some(r) => {
                assert forall|r2: int| q <= r2 < r implies !#[trigger] fits(p, r2, size) by {
                    if r2 > q && fits(p, r2, size) {
                        lemma_fit_has_run_start(p, q, r2, size);
                        let r4 = choose|r4: int| q < r4 <= r2 && #[trigger] run_start(p, r4) && fits(p, r4, size);
                        assert(q + 1 <= r4 < r);
                    }
                }
            },
            None => {
                assert forall|r2: int| q <= r2 implies !#[trigger] fits(p, r2, size) by {
                    if r2 > q && fits(p, r2, size) {
                        lemma_fit_has_run_start(p, q, r2, size);
                        let r4 = choose|r4: int| q < r4 <= r2 && #[trigger] run_start(p, r4) && fits(p, r4, size);
                        assert(q + 1 <= r4);
                    }
                }
            },
        }
    }
}

/// `allocate` only takes free pages: the pages it marks allocated were all free.
pub proof fn lemma_allocate_takes_free(p: Seq<bool>, size: int)
    requires
        size >= 1,
    ensures
        first_fit_from(p, 0, size) matches Some(j) ==> j + size <= p.len() && forall|t: int|
            j <= t < j + size ==> !p[t],
{
    lemma_first_fit_found(p, 0, size);
    if let Some(j) = first_fit_from(p, 0, size) {
        lemma_free_run_pages(p, j, size);
    }
}

/// In a new space of `len` free pages, `allocate` takes the lowest pages first and the next
/// allocation follows right after: the first of `a` pages goes at page 0, a next one of `b`
/// pages at page `a`, and more than `len` pages are never found.
pub proof fn lemma_fresh_space_first_fit(len: nat, a: int, b: int)
    requires
        1 <= a,
        1 <= b,
        a + b <= len,
    ensures
        first_fit_from(Seq::new(len, |i: int| false), 0, a) == Some(0int),
        first_fit_from(set_pages(Seq::new(len, |i: int| false), 0, a, true), 0, b) == Some(a),
        first_fit_from(Seq::new(len, |i: int| false), 0, len + 1int) is None,
{
    let p = Seq::new(len, |i: int| false);
    lemma_free_run_fits(p, 0, a);
    assert(run_start(p, 0));
    let q = set_pages(p, 0, a, true);
    lemma_free_run_fits(q, a, b);
    assert(run_start(q, a));
    assert(fits(q, a, b));
    lemma_first_fit_from_least(q, 0, b);
    if let Some(r) = first_fit_from(q, 0, b) {
        if r < a {
            assert(q[r]);
        }
        if r > a {
            assert(!fits(q, a, b));
        }
    }
    lemma_first_fit_from_least(p, 0, len + 1int);
}

/// Freeing what `allocate` took gives the space back as it was.
pub proof fn lemma_allocate_then_deallocate(p: Seq<bool>, size: int)
    requires
        size >= 1,
    ensures
        first_fit_from(p, 0, size) matches Some(j) ==> set_pages(
            set_pages(p, j, j + size, true),
            j,
            j + size,
            false,
        ) == p,
{
    lemma_allocate_takes_free(p, size);
    if let Some(j) = first_fit_from(p, 0, size) {
        assert(set_pages(set_pages(p, j, j + size, true), j, j + size, false) =~= p);
    }
}

/// `deallocate` never allocates a page, and frees every page of the range.
pub proof fn lemma_deallocate_only_frees(p: Seq<bool>, lo: int, hi: int)
    ensures
        forall|t: int| 0 <= t < p.len() && #[trigger] set_pages(p, lo, hi, false)[t] ==> p[t],
        forall|t: int| 0 <= t < p.len() && lo <= t < hi ==> !#[trigger] set_pages(p, lo, hi, false)[t],
{
}

/// The virtual address space of one side (kernel or user): a list of regions, in address
/// order, that tile it.
#[derive(Debug)]
pub struct VirtualMemorySpace {
    data: Vec<Region>,
}

impl VirtualMemorySpace {
    /// The regions are well formed.
    pub closed spec fn wf(&self) -> bool {
        &&& regions_wf(self.data@)
        &&& rbase(self.data@[0]) % 4096 == 0
    }

    /// The address of the first page of the space.
    pub closed spec fn start(&self) -> int {
        rbase(self.data@[0])
    }

    /// Whether each page of the space, from the first one on, is allocated.
    pub closed spec fn pages(&self) -> Seq<bool> {
        pages_of(self.data@)
    }

    /// The regions that tile the space, in address order.
    pub closed spec fn regions(&self) -> Seq<Region> {
        self.data@
    }

    /// The pages and the start of the space are those of its regions.
    pub proof fn lemma_regions(&self)
        ensures
            self.pages() == pages_of(self.regions()),
            self.start() == rbase(self.regions()[0]),
            self.wf() == (regions_wf(self.regions()) && self.start() % 4096 == 0),
    {
    }

    /// The address of the first byte after the space.
    pub open spec fn end(&self) -> int {
        self.start() + self.pages().len() * 4096
    }

    /// A space of `length` free pages, starting at the first page boundary at or above `start`.
    pub fn new(start: VirtAddr, length: PageCount) -> (r: Self)
        requires
            start@ + 4095 <= usize::MAX,
            length@ >= 1,
            crate::memory::address::round_up(start@ as int, 4096) + length@ * 4096 <= usize::MAX,
        ensures
            r.wf(),
            r.start() == crate::memory::address::round_up(start@ as int, 4096),
            r.pages() == Seq::new(length@ as nat, |i: int| false),
            r.regions().len() == 1,
            rbase(r.regions()[0]) == crate::memory::address::round_up(start@ as int, 4096),
            rlen(r.regions()[0]) == length@,
            !ralloc(r.regions()[0]),
    {
        let mut data: Vec<Region> = Vec::new();
        data.push((start.page_align_up(), MemoryAllocation::free(length)));
        let r = VirtualMemorySpace { data };
        proof {
            lemma_pages_of_single(r.data@[0]);
            assert(r.data@ =~= seq![r.data@[0]]);
            assert(r.pages() =~= Seq::new(length@ as nat, |i: int| false));
        }
        r
    }

    /// The address of the first page of the space.
    pub fn first_address(&self) -> (r: usize)
        requires
            self.wf(),
        ensures
            r == self.start(),
            r + self.pages().len() * 4096 <= usize::MAX,
    {
        proof {
            lemma_last_offset(self.data@);
        }
        self.data[0].0.addr()
    }

    /// Whether the pages `[lo, hi)` of the space all lie in it and are all allocated.
    pub fn pages_allocated(&self, lo: usize, hi: usize) -> (r: bool)
        requires
            self.wf(),
        ensures
            r == (hi <= self.pages().len() && forall|p: int| lo <= p < hi ==> #[trigger] self.pages()[p]),
    {
        let ghost s = self.data@;
        proof {
            lemma_last_offset(s);
        }
        let mut o: usize = 0;
        let mut k: usize = 0;
        proof {
            assert(s.take(0) =~= Seq::<Region>::empty());
            assert(pages_of(s.take(0)) =~= Seq::<bool>::empty());
        }
        while k < self.data.len()
            invariant
                self.wf(),
                s == self.data@,
                regions_wf(s),
                rend(s[s.len() - 1]) == rbase(s[0]) + pages_of(s).len() * 4096,
                k <= s.len(),
                o == off(s, k as int),
                o <= pages_of(s).len(),
                forall|p: int| lo <= p < hi && p < o ==> #[trigger] pages_of(s)[p],
            decreases s.len() - k,
        {
            proof {
                lemma_pages_split(s, k as int);
            }
            let len = self.data[k].1.length.count();
            let allocated = self.data[k].1.allocated;
            if !allocated && lo < hi && lo < o + len && o < hi {
                proof {
                    let p: int = if lo > o { lo as int } else { o as int };
                    assert(pages_of(s)[off(s, k as int) + (p - o)] == ralloc(s[k as int]));
                    assert(!self.pages()[p]);
                }
                return false;
            }
            proof {
                assert forall|p: int| lo <= p < hi && p < o + len implies #[trigger] pages_of(s)[p] by {
                    if p >= o {
                        assert(pages_of(s)[off(s, k as int) + (p - o)] == ralloc(s[k as int]));
                    }
                }
            }
            o = o + len;
            k = k + 1;
        }
        proof {
            assert(s.take(s.len() as int) =~= s);
        }
        hi <= o
    }

    /// Marks `size` pages from `addr` as allocated, inside the free region `k` that starts
    /// `diff` pages below `addr`.
    #[verifier::rlimit(80)]
    #[verifier::spinoff_prover]
    fn split_free_region(
        &mut self,
        k: usize,
        addr: VirtAddrPageAligned,
        diff: PageCount,
        size: PageCount,
    )
        requires
            old(self).wf(),
            k < old(self).data@.len(),
            !ralloc(old(self).data@[k as int]),
            diff@ >= 1,
            size@ >= 1,
            diff@ + size@ <= rlen(old(self).data@[k as int]),
            addr@ == rbase(old(self).data@[k as int]) + diff@ * 4096,
        ensures
            final(self).wf(),
            final(self).start() == old(self).start(),
            final(self).pages() == set_pages(
                old(self).pages(),
                off(old(self).data@, k as int) + diff@,
                off(old(self).data@, k as int) + diff@ + size@,
                true,
            ),
            placed(old(self).data@, final(self).data@, k as int, diff@ as int, size@ as int),
    {
        let ghost d = self.data@;
        proof {
            lemma_ends_fit(d);
            if k + 1 < d.len() {
                assert(ralloc(d[k as int]) || ralloc(d[k + 1]));
            }
        }
        let n = self.data.len();
        let base = self.data[k].0;
        let entry = self.data[k].1;
        let rem = entry.length.count() - diff.count() - size.count();
        self.data.set(k, (base, MemoryAllocation { allocated: entry.allocated, length: diff }));
        let ghost d1 = self.data@;
        proof {
            assert forall|i: int| 0 <= i < d1.len() implies rend(#[trigger] d1[i]) <= usize::MAX by {
                if i != k {
                    assert(d1[i] == d[i]);
                }
            }
        }
        let pos = insert_entry(&mut self.data, k + 1, addr, MemoryAllocation::allocated(size));
        let ghost d2 = self.data@;
        if rem > 0 {
            proof {
                assert forall|i: int| 0 <= i < d2.len() implies rend(#[trigger] d2[i]) <= usize::MAX by {
                    if i > k + 1 {
                        assert(d2[i] == d1[i - 1]);
                    } else if i < k + 1 {
                        assert(d2[i] == d1[i]);
                    }
                }
            }
            let after = addr.add_pages(size);
            insert_entry(&mut self.data, pos, after, MemoryAllocation::free(PageCount::new(rem)));
            proof {
                let d3 = self.data@;
                let m = d3.subrange(k as int, k + 3);
                assert forall|j: int| 0 <= j < d3.len() implies #[trigger] d3[j] == (d.take(k as int)
                    + m + d.skip(k + 1))[j] by {
                    if j < k {
                        assert(d3[j] == d2[j]);
                        assert(d2[j] == d1[j]);
                    } else if j >= k + 3 {
                        assert(d3[j] == d2[j - 1]);
                        assert(d2[j - 1] == d1[j - 2]);
                    }
                }
                assert(d3 =~= d.take(k as int) + m + d.skip(k + 1));
                lemma_case_split3(d, k as int, m, diff@ as int, size@ as int, rem as int);
            }
        } else {
            proof {
                let m = d2.subrange(k as int, k + 2);
                if k + 1 < d.len() {
                    assert forall|j: int| 0 <= j < d2.len() implies #[trigger] d2[j] == (d.take(
                        k as int,
                    ) + m + d.skip(k + 2))[j] by {
                        if j < k {
                            assert(d2[j] == d1[j]);
                        } else if j >= k + 2 {
                            assert(d2[j] == d1[j]);
                        }
                    }
                    assert(d2 =~= d.take(k as int) + m + d.skip(k + 2));
                } else {
                    assert forall|j: int| 0 <= j < d2.len() implies #[trigger] d2[j] == (d.take(
                        k as int,
                    ) + m + d.skip(k + 1))[j] by {
                        if j < k {
                            assert(d2[j] == d1[j]);
                        }
                    }
                    assert(d2 =~= d.take(k as int) + m + d.skip(k + 1));
                }
                lemma_case_merge(d, k as int, m, diff@ as int, size@ as int);
            }
        }
    }

    /// Marks the first `size` pages of the free region `k` as allocated.
    #[verifier::rlimit(80)]
    #[verifier::spinoff_prover]
    fn take_front(&mut self, k: usize, size: PageCount)
        requires
            old(self).wf(),
            k < old(self).data@.len(),
            !ralloc(old(self).data@[k as int]),
            size@ >= 1,
            size@ <= rlen(old(self).data@[k as int]),
        ensures
            final(self).wf(),
            final(self).start() == old(self).start(),
            final(self).pages() == set_pages(
                old(self).pages(),
                off(old(self).data@, k as int),
                off(old(self).data@, k as int) + size@,
                true,
            ),
            placed(old(self).data@, final(self).data@, k as int, 0, size@ as int),
    {
        let ghost d = self.data@;
        proof {
            lemma_ends_fit(d);
            if k + 1 < d.len() {
                assert(ralloc(d[k as int]) || ralloc(d[k + 1]));
            }
        }
        let n = self.data.len();
        let base = self.data[k].0;
        let entry = self.data[k].1;
        let rem = entry.length.count() - size.count();
        self.data.set(k, (base, MemoryAllocation { allocated: true, length: size }));
        let ghost d1 = self.data@;
        if rem > 0 {
            let after = base.add_pages(size);
            proof {
                assert forall|i: int| 0 <= i < d1.len() implies rend(#[trigger] d1[i]) <= usize::MAX by {
                    if i != k {
                        assert(d1[i] == d[i]);
                    }
                }
            }
            insert_entry(&mut self.data, k + 1, after, MemoryAllocation::free(PageCount::new(rem)));
            proof {
                let d3 = self.data@;
                let m = d3.subrange(k as int, k + 2);
                assert forall|j: int| 0 <= j < d3.len() implies #[trigger] d3[j] == (d.take(k as int)
                    + m + d.skip(k + 1))[j] by {
                    if j < k {
                        assert(d3[j] == d1[j]);
                    } else if j >= k + 2 {
                        assert(d3[j] == d1[j - 1]);
                    }
                }
                assert(d3 =~= d.take(k as int) + m + d.skip(k + 1));
                lemma_case_front(d, k as int, m, size@ as int, rem as int);
            }
        } else {
            proof {
                let m = d1.subrange(k as int, k + 1);
                assert(d1 =~= d.take(k as int) + m + d.skip(k + 1));
                lemma_case_front(d, k as int, m, size@ as int, rem as int);
            }
        }
    }

    /// Allocates `size` pages at `addr`: in the free region that holds `addr` if enough of it
    /// is left from `addr` on, else (when `allow_after`) at the start of the first later free
    /// region that is large enough.
    #[verifier::rlimit(60)]
    pub fn allocate_at(&mut self, addr: VirtAddrPageAligned, size: PageCount, allow_after: bool) -> (r:
        Option<VirtAddrPageAligned>)
        requires
            old(self).wf(),
            allocate_at_ok(
                old(self).pages(),
                page_index(old(self).start(), addr@ as int),
                size@ as int,
                allow_after,
            ),
        ensures
            final(self).wf(),
            final(self).start() == old(self).start(),
            ({
                let p = old(self).pages();
                let q = page_index(old(self).start(), addr@ as int);
                let d = old(self).regions();
                match alloc_at_result(p, q, size@ as int, allow_after) {
                    None => r is None && final(self).regions() == d && final(self).pages() == p,
                    Some(j) => r matches Some(a) && a@ == old(self).start() + j * 4096
                        && final(self).pages() == set_pages(p, j, j + size@, true)
                        && holds_page(d, region_at(d, j), j) && placed(
                        d,
                        final(self).regions(),
                        region_at(d, j),
                        j - off(d, region_at(d, j)),
                        size@ as int,
                    ),
                }
            }),
    {
        let ghost d = self.data@;
        let ghost p = pages_of(d);
        let ghost st = rbase(d[0]);
        let ghost q = page_index(st, addr@ as int);
        let ghost res = alloc_at_result(p, q, size@ as int, allow_after);
        let first = self.data[0].0;
        proof {
            lemma_ends_fit(d);
            lemma_last_offset(d);
            use_type_invariant(first);
            use_type_invariant(addr);
        }
        let n = self.data.len();
        let mut k: usize = 0;
        while k + 1 < n && self.data[k + 1].0.addr() <= addr.addr()
            invariant
                n == d.len(),
                self.data@ == d,
                regions_wf(d),
                k < d.len(),
                k == 0 || rbase(d[k as int]) <= addr@,
            decreases d.len() - k,
        {
            k = k + 1;
        }
        let ghost s0 = k as int;
        proof {
            lemma_offsets(d, s0);
            lemma_pages_split(d, s0);
            if s0 + 1 < d.len() {
                lemma_offsets(d, s0 + 1);
            }
            if addr@ <= st {
                if s0 > 0 {
                    lemma_offsets(d, 0);
                    lemma_pages_split(d, 0);
                    assert(off(d, 0) == 0) by {
                        assert(d.take(0) =~= Seq::<Region>::empty());
                        assert(pages_of(d.take(0)) =~= Seq::<bool>::empty());
                    }
                    assert(off(d, s0) >= 1);
                }
                assert(s0 == 0);
            }
            assert(q >= off(d, s0)) by (nonlinear_arith)
                requires
                    rbase(d[s0]) == st + off(d, s0) * 4096,
                    s0 == 0 || rbase(d[s0]) <= addr@,
                    addr@ % 4096 == 0,
                    st % 4096 == 0,
                    q == page_index(st, addr@ as int),
                    s0 == 0 ==> off(d, s0) == 0,
            ;
        }
        loop
            invariant
                n == d.len(),
                self.data@ == d,
                regions_wf(d),
                ends_fit(d),
                p == pages_of(d),
                st == rbase(d[0]),
                st % 4096 == 0,
                addr@ % 4096 == 0,
                rend(d[d.len() - 1]) == st + p.len() * 4096,
                res == alloc_at_result(p, q, size@ as int, allow_after),
                allocate_at_ok(p, q, size@ as int, allow_after),
                d == old(self).data@,
                q == page_index(st, addr@ as int),
                s0 <= k < d.len(),
                q >= off(d, s0),
                s0 + 1 < d.len() ==> q < off(d, s0 + 1),
                s0 + 1 < d.len() ==> rbase(d[s0 + 1]) > addr@,
                s0 == 0 || rbase(d[s0]) <= addr@,
                rbase(d[s0]) == st + off(d, s0) * 4096,
                k > s0 ==> allow_after && res == first_fit_from(p, off(d, k as int), size@ as int)
                    && rbase(d[k as int]) > addr@,
            decreases d.len() - k,
        {
            let base = self.data[k].0;
            let entry = self.data[k].1;
            proof {
                use_type_invariant(base);
                lemma_offsets(d, k as int);
                lemma_pages_split(d, k as int);
                lemma_region_fit(d, k as int, size@ as int);
                if k + 1 < d.len() {
                    lemma_offsets(d, k + 1);
                } else {
                    lemma_end_fit(d, size@ as int);
                }
            }
            if entry.allocated || entry.length.count() < size.count() {
                proof {
                    if k == s0 {
                        if q < p.len() {
                            if !ralloc(d[s0]) {
                                lemma_free_run_in(d, s0, q - off(d, s0));
                            }
                            lemma_skip_region(d, s0, q + 1, size@ as int);
                        }
                    }
                }
                if allow_after {
                    k = k + 1;
                    if k == n {
                        return None;
                    }
                    continue ;
                } else {
                    return None;
                }
            }
            proof {
                assert(size@ >= 1) by {
                    if size@ == 0 {
                        if k == s0 {
                            if q < p.len() {
                                assert(!p[off(d, k as int) + (q - off(d, k as int))]);
                            } else {
                                lemma_pages_split(d, d.len() - 1);
                                assert(!p[off(d, d.len() - 1) + (rlen(d[d.len() - 1]) - 1)]);
                            }
                        } else {
                            assert(!p[off(d, k as int) + 0]);
                            assert(q < off(d, k as int));
                        }
                    }
                }
            }
            if base.addr() < addr.addr() {
                proof {
                    assert(k == s0);
                    assert(q == off(d, s0) + (addr@ - rbase(d[s0])) / 4096) by (nonlinear_arith)
                        requires
                            rbase(d[s0]) == st + off(d, s0) * 4096,
                            rbase(d[s0]) < addr@,
                            addr@ % 4096 == 0,
                            st % 4096 == 0,
                            q == page_index(st, addr@ as int),
                    ;
                    if q > p.len() {
                        lemma_free_region(d, s0);
                        assert(free_run(p, off(d, s0)) == p.len() - off(d, s0));
                    }
                }
                let diff = addr.pages_since(base);
                proof {
                    assert(diff@ == q - off(d, s0)) by (nonlinear_arith)
                        requires
                            diff@ * 4096 == addr@ - rbase(d[s0]),
                            q == off(d, s0) + (addr@ - rbase(d[s0])) / 4096,
                    ;
                    lemma_free_run_in(d, s0, diff@ as int);
                }
                if entry.length.count() - diff.count() < size.count() {
                    proof {
                        if q < p.len() {
                            lemma_skip_region(d, s0, q + 1, size@ as int);
                        }
                    }
                    if allow_after {
                        k = k + 1;
                        if k == n {
                            return None;
                        }
                        continue ;
                    } else {
                        return None;
                    }
                }
                proof {
                    lemma_offsets(d, k as int);
                }
                proof {
                    lemma_region_at(d, k as int, q);
                }
                self.split_free_region(k, addr, diff, size);
                return Some(addr);
            } else {
                proof {
                    if k == s0 {
                        assert(q == off(d, k as int)) by (nonlinear_arith)
                            requires
                                rbase(d[s0]) == st + off(d, s0) * 4096,
                                rbase(d[s0]) >= addr@,
                                s0 == 0 || rbase(d[s0]) <= addr@,
                                s0 == 0 ==> off(d, s0) == 0,
                                s0 == 0 ==> rbase(d[s0]) == st,
                                k == s0,
                                q >= off(d, s0),
                                addr@ <= st ==> q == 0,
                                addr@ > st ==> q == (addr@ - st) / 4096,
                        ;
                        lemma_free_region(d, s0);
                    }
                }
                proof {
                    lemma_region_at(d, k as int, off(d, k as int));
                }
                self.take_front(k, size);
                return Some(base);
            }
        }
    }

    /// Allocates `size` pages at the start of the first free region that is large enough.
    pub fn allocate(&mut self, size: PageCount) -> (r: Option<VirtAddrPageAligned>)
        requires
            old(self).wf(),
            size@ >= 1 || forall|i: int| 0 <= i < old(self).pages().len() ==> old(self).pages()[i],
        ensures
            final(self).wf(),
            final(self).start() == old(self).start(),
            ({
                let d = old(self).regions();
                match first_fit_from(old(self).pages(), 0, size@ as int) {
                    None => r is None && final(self).regions() == d && final(self).pages() == old(
                        self,
                    ).pages(),
                    Some(j) => r matches Some(a) && a@ == old(self).start() + j * 4096
                        && final(self).pages() == set_pages(old(self).pages(), j, j + size@, true)
                        && holds_page(d, region_at(d, j), j) && placed(
                        d,
                        final(self).regions(),
                        region_at(d, j),
                        j - off(d, region_at(d, j)),
                        size@ as int,
                    ),
                }
            }),
    {
        let first = self.data[0].0;
        proof {
            use_type_invariant(first);
            let p = self.pages();
            lemma_pages_split(self.data@, 0);
            assert(p.len() >= 1);
            assert(page_index(self.start(), 0) == 0);
            if size@ == 0 {
                assert(!examines_free(p, 0, true));
            }
        }
        self.allocate_at(VirtAddrPageAligned::zero(), size, true)
    }

    /// Splits the allocated region `k` into two allocated regions, the first of `n1` pages.
    #[verifier::rlimit(100)]
    #[verifier::spinoff_prover]
    fn split_region(&mut self, k: usize, n1: PageCount)
        requires
            old(self).wf(),
            k < old(self).data@.len(),
            ralloc(old(self).data@[k as int]),
            1 <= n1@ < rlen(old(self).data@[k as int]),
        ensures
            final(self).wf(),
            rbase(final(self).data@[0]) == rbase(old(self).data@[0]),
            pages_of(final(self).data@) == pages_of(old(self).data@),
            final(self).data@.len() == old(self).data@.len() + 1,
            forall|j: int| 0 <= j < k ==> final(self).data@[j] == old(self).data@[j],
            forall|j: int|
                k + 1 <= j < old(self).data@.len() ==> final(self).data@[j + 1]
                    == #[trigger] old(self).data@[j],
            forall|j: int| 0 <= j <= k ==> #[trigger] off(final(self).data@, j) == off(old(self).data@, j),
            forall|j: int|
                k + 1 <= j <= old(self).data@.len() ==> off(final(self).data@, j + 1) == #[trigger] off(
                    old(self).data@,
                    j,
                ),
            off(final(self).data@, k + 1) == off(old(self).data@, k as int) + n1@,
            ralloc(final(self).data@[k as int]),
            rlen(final(self).data@[k as int]) == n1@,
            ralloc(final(self).data@[k + 1]),
            rlen(final(self).data@[k + 1]) == rlen(old(self).data@[k as int]) - n1@,
    {
        let ghost d = self.data@;
        proof {
            lemma_ends_fit(d);
        }
        let n = self.data.len();
        let base = self.data[k].0;
        let entry = self.data[k].1;
        let rest = PageCount::new(entry.length.count() - n1.count());
        let second = base.add_pages(n1);
        self.data.set(k, (base, MemoryAllocation { allocated: true, length: n1 }));
        self.data.insert(k + 1, (second, MemoryAllocation { allocated: true, length: rest }));
        proof {
            let f = self.data@;
            let m = f.subrange(k as int, k + 2);
            assert(f =~= d.take(k as int) + m + d.skip(k + 1));
            assert(m =~= seq![m[0], m[1]]);
            lemma_pages_of_two(m[0], m[1]);
            assert(d.subrange(k as int, k + 1) =~= seq![d[k as int]]);
            lemma_pages_of_single(d[k as int]);
            assert(pages_of(m) =~= pages_of(d.subrange(k as int, k + 1)));
            lemma_set_none(pages_of(d.subrange(k as int, k + 1)), 0, true);
            lemma_splice(d, k as int, k + 1, m, off(d, k as int), 0, true);
            lemma_set_none(pages_of(d), off(d, k as int), true);
            lemma_splice_offs(d, k as int, k + 1, m);
            lemma_pages_split(f, k as int);
            assert forall|j: int| k + 1 <= j < d.len() implies f[j + 1] == #[trigger] d[j] by {
                assert(f[j + 1] == d.skip(k + 1)[j - k - 1]);
            }
        }
    }

    /// Joins the allocated region `k` and the allocated region after it.
    #[verifier::rlimit(40)]
    fn merge_next(&mut self, k: usize)
        requires
            old(self).wf(),
            k + 1 < old(self).data@.len(),
            ralloc(old(self).data@[k as int]),
            ralloc(old(self).data@[k + 1]),
        ensures
            final(self).wf(),
            rbase(final(self).data@[0]) == rbase(old(self).data@[0]),
            pages_of(final(self).data@) == pages_of(old(self).data@),
            final(self).data@.len() == old(self).data@.len() - 1,
            forall|j: int| 0 <= j < k ==> final(self).data@[j] == old(self).data@[j],
            forall|j: int|
                k + 2 <= j < old(self).data@.len() ==> final(self).data@[j - 1]
                    == #[trigger] old(self).data@[j],
            forall|j: int| 0 <= j <= k ==> #[trigger] off(final(self).data@, j) == off(old(self).data@, j),
            forall|j: int|
                k + 2 <= j <= old(self).data@.len() ==> off(final(self).data@, j - 1) == #[trigger] off(
                    old(self).data@,
                    j,
                ),
            ralloc(final(self).data@[k as int]),
            rlen(final(self).data@[k as int]) == rlen(old(self).data@[k as int]) + rlen(
                old(self).data@[k + 1],
            ),
    {
        let ghost d = self.data@;
        proof {
            lemma_ends_fit(d);
            lemma_offsets(d, k as int);
            lemma_offsets(d, k + 1);
        }
        let n = self.data.len();
        let base = self.data[k].0;
        let e0 = self.data[k].1;
        let e1 = self.data[k + 1].1;
        proof {
            use_type_invariant(base);
            assert(rend(d[k + 1]) == rbase(d[k as int]) + (rlen(d[k as int]) + rlen(d[k + 1])) * 4096);
            assert(rlen(d[k as int]) + rlen(d[k + 1]) <= usize::MAX) by (nonlinear_arith)
                requires
                    rbase(d[k as int]) + (rlen(d[k as int]) + rlen(d[k + 1])) * 4096 <= usize::MAX,
                    rbase(d[k as int]) >= 0,
                    rlen(d[k as int]) >= 0,
                    rlen(d[k + 1]) >= 0,
            ;
        }
        let total = PageCount::new(e0.length.count() + e1.length.count());
        self.data.set(k, (base, MemoryAllocation { allocated: true, length: total }));
        self.data.remove(k + 1);
        proof {
            let f = self.data@;
            let m = f.subrange(k as int, k + 1);
            assert(f =~= d.take(k as int) + m + d.skip(k + 2));
            assert(m =~= seq![m[0]]);
            lemma_pages_of_single(m[0]);
            assert(d.subrange(k as int, k + 2) =~= seq![d[k as int], d[k + 1]]);
            lemma_pages_of_two(d[k as int], d[k + 1]);
            assert(pages_of(m) =~= pages_of(d.subrange(k as int, k + 2)));
            lemma_set_none(pages_of(d.subrange(k as int, k + 2)), 0, true);
            lemma_splice(d, k as int, k + 2, m, off(d, k as int), 0, true);
            lemma_set_none(pages_of(d), off(d, k as int), true);
            lemma_splice_offs(d, k as int, k + 2, m);
            assert forall|j: int| k + 2 <= j < d.len() implies f[j - 1] == #[trigger] d[j] by {
                assert(f[j - 1] == d.skip(k + 2)[j - k - 2]);
            }
        }
    }

    /// Marks the allocated region `k` free, joining it with the free regions next to it.
    /// Returns the position after the free region.
    #[verifier::rlimit(40)]
    fn free_region(&mut self, k: usize) -> (nk: usize)
        requires
            old(self).wf(),
            k < old(self).data@.len(),
            ralloc(old(self).data@[k as int]),
        ensures
            ({
                let d = old(self).data@;
                let f = final(self).data@;
                let lo = if k > 0 && !ralloc(d[k - 1]) {
                    k - 1
                } else {
                    k as int
                };
                let hi = if k + 1 < d.len() && !ralloc(d[k + 1]) {
                    k + 2
                } else {
                    k + 1
                };
                &&& final(self).wf()
                &&& rbase(f[0]) == rbase(d[0])
                &&& pages_of(f) == set_pages(pages_of(d), off(d, k as int), off(d, k + 1), false)
                &&& nk == lo + 1
                &&& nk <= f.len()
                &&& off(f, nk as int) == off(d, hi)
                &&& f.skip(nk as int) == d.skip(hi)
            }),
    {
        let ghost d = self.data@;
        let ghost lo: int = if k > 0 && !ralloc(d[k - 1]) {
            k - 1
        } else {
            k as int
        };
        let ghost hi: int = if k + 1 < d.len() && !ralloc(d[k + 1]) {
            k + 2
        } else {
            k + 1
        };
        proof {
            lemma_ends_fit(d);
            lemma_last_offset(d);
            lemma_offsets(d, lo);
            lemma_offsets(d, hi - 1);
            lemma_pages_split(d, hi - 1);
            if k > 0 {
                assert(ralloc(d[k - 2 + 1]) || ralloc(d[k - 1]) || true);
            }
        }
        let n = self.data.len();
        let mut base = self.data[k].0;
        let mut len = self.data[k].1.length.count();
        let mut pos = k;
        let ghost total: int = rlen(d[lo]) + (if lo < k {
            rlen(d[k as int])
        } else {
            0
        }) + (if hi > k + 1 {
            rlen(d[k + 1])
        } else {
            0
        });
        proof {
            assert(rend(d[hi - 1]) == rbase(d[lo]) + total * 4096);
            assert(total <= usize::MAX) by (nonlinear_arith)
                requires
                    rbase(d[lo]) + total * 4096 <= usize::MAX,
                    rbase(d[lo]) >= 0,
                    total >= 0,
            ;
        }
        if k + 1 < self.data.len() && !self.data[k + 1].1.allocated {
            len = len + self.data[k + 1].1.length.count();
            self.data.remove(k + 1);
        }
        if k > 0 && !self.data[k - 1].1.allocated {
            base = self.data[k - 1].0;
            len = len + self.data[k - 1].1.length.count();
            self.data.remove(k - 1);
            pos = k - 1;
        }
        self.data.set(pos, (base, MemoryAllocation { allocated: false, length: PageCount::new(len) }));
        proof {
            let f = self.data@;
            let m = f.subrange(lo, lo + 1);
            assert(f =~= d.take(lo) + m + d.skip(hi));
            lemma_free_splice(d, k as int, lo, hi, m);
            assert(f.skip(lo + 1) =~= d.skip(hi));
        }
        pos + 1
    }

    /// Frees `piece` pages of the allocated region `k`, starting `pre` pages after its first
    /// page. The pages before and after the piece stay allocated, each joined with an
    /// allocated neighbour; the piece is joined with a free neighbour. Returns the position
    /// after the freed pages.
    #[verifier::rlimit(40)]
    fn free_piece(&mut self, k: usize, pre: PageCount, piece: PageCount) -> (nk: usize)
        requires
            old(self).wf(),
            k < old(self).data@.len(),
            ralloc(old(self).data@[k as int]),
            piece@ >= 1,
            pre@ + piece@ <= rlen(old(self).data@[k as int]),
        ensures
            ({
                let d = old(self).data@;
                let f = final(self).data@;
                let ia = off(d, k as int) + pre@;
                let ib = ia + piece@;
                &&& final(self).wf()
                &&& rbase(f[0]) == rbase(d[0])
                &&& pages_of(f) == set_pages(pages_of(d), ia, ib, false)
                &&& nk <= f.len()
                &&& pre@ + piece@ < rlen(d[k as int]) ==> off(f, nk as int) == ib
                &&& pre@ + piece@ == rlen(d[k as int]) ==> ((off(f, nk as int) == off(d, k + 1)
                    && f.skip(nk as int) == d.skip(k + 1)) || (k + 1 < d.len() && !ralloc(d[k + 1])
                    && off(f, nk as int) == off(d, k + 2) && f.skip(nk as int) == d.skip(k + 2)))
            }),
    {
        let ghost d = self.data@;
        let n = self.data.len();
        let mut cur = k;
        proof {
            lemma_pages_split(d, k as int);
        }
        if pre.count() > 0 {
            self.split_region(k, pre);
            let ghost d1 = self.data@;
            if k > 0 && self.data[k - 1].1.allocated {
                self.merge_next(k - 1);
                cur = k;
                proof {
                    let d2 = self.data@;
                    assert(off(d2, k as int) == off(d1, k + 1));
                    assert(d2[k as int] == d1[k + 1]);
                    assert forall|j: int| k + 1 <= j <= d.len() implies off(d2, j) == #[trigger] off(
                        d,
                        j,
                    ) by {
                        assert(off(d2, j + 1 - 1) == off(d1, j + 1));
                    }
                    assert forall|j: int| k + 1 <= j < d.len() implies d2[j] == #[trigger] d[j] by {
                        assert(d2[j + 1 - 1] == d1[j + 1]);
                    }
                }
            } else {
                cur = k + 1;
            }
        }
        let ghost d2 = self.data@;
        let ghost delta: int = cur - k;
        proof {
            assert(ralloc(d2[cur as int]));
            assert(rlen(d2[cur as int]) == rlen(d[k as int]) - pre@);
            assert(off(d2, cur as int) == off(d, k as int) + pre@);
            assert(pages_of(d2) == pages_of(d));
            assert(d2.len() == d.len() + delta);
            assert(forall|j: int| k + 1 <= j <= d.len() ==> off(d2, j + delta) == #[trigger] off(d, j));
            assert(forall|j: int| k + 1 <= j < d.len() ==> d2[j + delta] == #[trigger] d[j]);
        }
        let rest = self.data[cur].1.length.count();
        if piece.count() < rest {
            self.split_region(cur, piece);
            let ghost d3 = self.data@;
            let m = self.data.len();
            if cur + 2 < m && self.data[cur + 2].1.allocated {
                self.merge_next(cur + 1);
                proof {
                    let d4 = self.data@;
                    assert(off(d4, cur + 1) == off(d3, cur + 1));
                    assert(d4[cur as int] == d3[cur as int]);
                    assert(off(d4, cur as int) == off(d3, cur as int));
                }
            }
        }
        let ghost d4 = self.data@;
        proof {
            let ia = off(d, k as int) + pre@;
            let ib = ia + piece@;
            assert(ralloc(d4[cur as int]));
            assert(off(d4, cur as int) == ia);
            lemma_pages_split(d4, cur as int);
            assert(off(d4, cur + 1) == ib);
            assert(pages_of(d4) == pages_of(d));
            if piece@ < rest {
                assert(cur + 1 < d4.len() && ralloc(d4[cur + 1]));
            } else {
                assert(d4 == d2);
                assert(off(d2, k + 1 + delta) == off(d, k + 1));
                if k + 1 < d.len() {
                    assert(d2[k + 1 + delta] == d[k + 1]);
                    assert(off(d2, k + 2 + delta) == off(d, k + 2));
                }
                assert(d2.skip(cur + 1) =~= d.skip(k + 1));
                if k + 1 < d.len() {
                    assert(d2.skip(cur + 2) =~= d.skip(k + 2));
                }
            }
        }
        self.free_region(cur)
    }

    /// Frees the `size` pages from `start`: in each allocated region that the range meets,
    /// the pages inside the range become free. Returns, in address order, the piece freed in
    /// each such region. An empty range may not start at an allocated page.
    #[verifier::rlimit(60)]
    pub fn deallocate(&mut self, start: VirtAddrPageAligned, size: PageCount) -> (r: Vec<
        (VirtAddrPageAligned, PageCount),
    >)
        requires
            old(self).wf(),
            start@ + size@ * 4096 <= usize::MAX,
            size@ == 0 ==> !(old(self).start() <= start@ && page_index(old(self).start(), start@ as int)
                < old(self).pages().len() && old(self).pages()[page_index(
                old(self).start(),
                start@ as int,
            )]),
        ensures
            final(self).wf(),
            final(self).start() == old(self).start(),
            ({
                let p = old(self).pages();
                let lo = page_index(old(self).start(), start@ as int);
                let hi = page_index(old(self).start(), start@ + size@ * 4096);
                &&& final(self).pages() == set_pages(p, lo, hi, false)
                &&& freed_pieces(p, old(self).start(), lo, hi, r@)
                &&& piece_indices(old(self).start(), r@) == region_pieces(
                    old(self).regions(),
                    old(self).regions().len() as int,
                    lo,
                    hi,
                )
            }),
    {
        let ghost d = self.data@;
        let ghost p = pages_of(d);
        let ghost st = rbase(d[0]);
        let ghost lo = page_index(st, start@ as int);
        let mut out: Vec<(VirtAddrPageAligned, PageCount)> = Vec::new();
        if size.count() == 0 {
            proof {
                lemma_set_none(p, lo, false);
                lemma_region_pieces_after(d, 0, d.len() as int, lo, lo);
                assert(region_pieces(d, 0, lo, lo) =~= piece_indices(st, out@));
            }
            return out;
        }
        let first = self.data[0].0;
        proof {
            use_type_invariant(first);
            use_type_invariant(start);
            lemma_last_offset(d);
            lemma_ends_fit(d);
        }
        let selection = BaseWithLength(start, size);
        let sel_end = selection.end();
        let ghost hi = page_index(st, sel_end@ as int);
        proof {
            use_type_invariant(sel_end);
            if start@ > st {
                lemma_aligned_index(st, start@ as int);
            }
            if sel_end@ > st {
                lemma_aligned_index(st, sel_end@ as int);
            }
        }
        let n = self.data.len();
        let mut k: usize = 0;
        while k + 1 < n && self.data[k + 1].0.addr() <= start.addr()
            invariant
                n == d.len(),
                self.data@ == d,
                regions_wf(d),
                k < d.len(),
                k == 0 || rbase(d[k as int]) <= start@,
            decreases d.len() - k,
        {
            k = k + 1;
        }
        proof {
            lemma_offsets(d, k as int);
            if k == 0 {
                assert(d.take(0) =~= Seq::<Region>::empty());
                assert(pages_of(d.take(0)) =~= Seq::<bool>::empty());
            }
            assert(off(d, k as int) <= lo);
            lemma_set_none(p, lo, false);
            lemma_region_pieces_before(d, k as int, lo, hi);
            assert(piece_indices(st, out@) =~= region_pieces(d, k as int, lo, hi));
            assert(self.data@.skip(k as int) == d.skip(k as int));
        }
        let ghost mut jo: int = k as int;
        while k < self.data.len()
            invariant
                d == old(self).data@,
                p == pages_of(d),
                st == rbase(d[0]),
                regions_wf(self.data@),
                rbase(self.data@[0]) == st,
                st % 4096 == 0,
                start@ % 4096 == 0,
                sel_end@ == start@ + size@ * 4096,
                size@ >= 1,
                selection == BaseWithLength(start, size),
                lo == page_index(st, start@ as int),
                hi == page_index(st, sel_end@ as int),
                start@ > st ==> start@ == st + lo * 4096,
                sel_end@ > st ==> sel_end@ == st + hi * 4096,
                lo <= hi,
                k <= self.data@.len(),
                p.len() == pages_of(self.data@).len(),
                pages_of(self.data@) == set_pages(p, lo, clamp(lo, off(self.data@, k as int), hi), false),
                freed_pieces(p, st, lo, clamp(lo, off(self.data@, k as int), hi), out@),
                0 <= jo <= d.len(),
                regions_wf(d),
                ({
                    let cur = self.data@;
                    ||| (cur.skip(k as int) == d.skip(jo) && off(cur, k as int) == off(d, jo)
                        && piece_indices(st, out@) == region_pieces(d, jo, lo, hi))
                    ||| (off(cur, k as int) >= hi && piece_indices(st, out@) == region_pieces(
                        d,
                        d.len() as int,
                        lo,
                        hi,
                    ))
                }),
            decreases p.len() - off(self.data@, k as int),
        {
            let ghost dk = self.data@;
            let ghost c1 = clamp(lo, off(dk, k as int), hi);
            let ghost on_track: bool = dk.skip(k as int) == d.skip(jo) && off(dk, k as int) == off(
                d,
                jo,
            ) && piece_indices(st, out@) == region_pieces(d, jo, lo, hi);
            let base = self.data[k].0;
            let entry = self.data[k].1;
            proof {
                lemma_ends_fit(dk);
                lemma_last_offset(dk);
                lemma_offsets(dk, k as int);
                lemma_pages_split(dk, k as int);
                use_type_invariant(base);
                if on_track {
                    assert(dk.skip(k as int).len() == d.skip(jo).len());
                    assert(jo < d.len());
                    assert(dk.skip(k as int)[0] == d.skip(jo)[0]);
                    assert(dk[k as int] == d[jo]);
                    lemma_pages_split(d, jo);
                    assert forall|i: int| 0 <= i < dk.skip(k + 1).len() implies #[trigger] dk.skip(
                        k + 1,
                    )[i] == d.skip(jo + 1)[i] by {
                        assert(dk.skip(k as int)[i + 1] == d.skip(jo)[i + 1]);
                    }
                    assert(dk.skip(k + 1) =~= d.skip(jo + 1));
                }
            }
            let end = base.add_pages(entry.length);
            if !entry.allocated || end.addr() <= start.addr() {
                proof {
                    let c2 = clamp(lo, off(dk, k + 1), hi);
                    assert forall|t: int| c1 <= t < c2 && 0 <= t < p.len() implies !p[t] by {
                        assert(pages_of(dk)[off(dk, k as int) + (t - off(dk, k as int))] == ralloc(
                            dk[k as int],
                        ));
                    }
                    assert(set_pages(p, lo, c1, false) =~= set_pages(p, lo, c2, false));
                    lemma_pieces_extend(p, st, lo, c1, c2, out@);
                    if on_track {
                        assert(ralloc(d[jo]) ==> off(d, jo + 1) <= lo);
                        jo = jo + 1;
                    }
                }
                k = k + 1;
                continue ;
            }
            if base.addr() >= sel_end.addr() {
                proof {
                    assert(c1 == hi);
                    if on_track {
                        lemma_region_pieces_after(d, jo, d.len() as int, lo, hi);
                    }
                }
                return out;
            }
            let region = BaseWithLength(base, entry.length);
            let (a, b) = match region.intersect(selection) {
                AddrIntersection::All => (base, end),
                AddrIntersection::PartialMid(sel) => (sel.0, sel_end),
                AddrIntersection::PartialUp(s) => (s, end),
                AddrIntersection::PartialDown(e) => (base, e),
                AddrIntersection::NoOverlap => {
                    assert(false);
                    (base, end)
                },
            };
            let pre = a.pages_since(base);
            let piece = b.pages_since(a);
            let ghost ia = off(dk, k as int) + pre@;
            let ghost ib = ia + piece@;
            proof {
                assert(a@ == st + ia * 4096);
                assert(b@ == st + ib * 4096);
                assert(ia == c1);
                assert(ib == clamp(lo, off(dk, k + 1), hi));
                assert(piece_index(st, (a, piece)) == ia) by (nonlinear_arith)
                    requires
                        a@ == st + ia * 4096,
                ;
                assert((a@ - st) % 4096 == 0) by (nonlinear_arith)
                    requires
                        a@ == st + ia * 4096,
                        ia >= 0,
                ;
                assert forall|t: int| ia <= t < ib implies p[t] by {
                    assert(pages_of(dk)[off(dk, k as int) + (t - off(dk, k as int))] == ralloc(
                        dk[k as int],
                    ));
                }
                lemma_pieces_push(p, st, lo, ia, ib, out@, (a, piece));
            }
            let ghost out0 = out@;
            out.push((a, piece));
            let nk = self.free_piece(k, pre, piece);
            proof {
                let f = self.data@;
                assert(set_pages(set_pages(p, lo, c1, false), ia, ib, false) =~= set_pages(
                    p,
                    lo,
                    ib,
                    false,
                ));
                lemma_end_fit(f, 0);
                if off(f, nk as int) != ib {
                    let c2 = clamp(lo, off(dk, k + 2), hi);
                    lemma_pages_split(dk, k + 1);
                    assert(off(f, nk as int) == off(dk, k + 2));
                    assert forall|t: int| ib <= t < c2 && 0 <= t < p.len() implies !p[t] by {
                        assert(pages_of(dk)[off(dk, k + 1) + (t - off(dk, k + 1))] == ralloc(
                            dk[k + 1],
                        ));
                    }
                    assert(set_pages(p, lo, ib, false) =~= set_pages(p, lo, c2, false));
                    lemma_pieces_extend(p, st, lo, ib, c2, out@);
                }
                assert(off(dk, k as int) < hi);
                assert(on_track);
                assert(region_pieces(d, jo + 1, lo, hi) == region_pieces(d, jo, lo, hi).push(
                    (ia, ib - ia),
                ));
                assert(piece_indices(st, out@) =~= piece_indices(st, out0).push((ia, ib - ia)));
                if pre@ + piece@ < rlen(dk[k as int]) {
                    lemma_region_pieces_after(d, jo + 1, d.len() as int, lo, hi);
                } else if off(f, nk as int) == off(dk, k + 1) && f.skip(nk as int) == dk.skip(k + 1) {
                    jo = jo + 1;
                } else {
                    assert(dk.skip(k + 1)[0] == d.skip(jo + 1)[0]);
                    assert(dk[k + 1] == d[jo + 1]);
                    lemma_pages_split(d, jo + 1);
                    lemma_pages_split(dk, k + 1);
                    assert forall|i: int| 0 <= i < dk.skip(k + 2).len() implies #[trigger] dk.skip(
                        k + 2,
                    )[i] == d.skip(jo + 2)[i] by {
                        assert(dk.skip(k + 1)[i + 1] == d.skip(jo + 1)[i + 1]);
                    }
                    assert(dk.skip(k + 2) =~= d.skip(jo + 2));
                    jo = jo + 2;
                }
            }
            k = nk;
        }
        proof {
            let f = self.data@;
            lemma_end_fit(f, 0);
            let c = clamp(lo, off(f, k as int), hi);
            assert(set_pages(p, lo, c, false) =~= set_pages(p, lo, hi, false));
            lemma_pieces_extend(p, st, lo, c, hi, out@);
        }
        out
    }
}

} // verus!
