//! Loading an ELF program: which of its segments go where in memory, with which access
//! rights, and which bytes of the file fill them.
use vstd::prelude::*;
use elf::endian::LittleEndian;
use elf::parse::ParseError;
use elf::ElfBytes;
use crate::memory::address::{align_page_range, round_down, PageCount, VirtAddrPageAligned};
use crate::memory::{FLAG_NO_EXEC, FLAG_USER, FLAG_WRITE, FLAGS_DEFAULT_URW, MemoryFlags};

verus! {

/// The error the `elf` crate reports when it cannot read a file, carried as it is.
#[verifier::external_type_specification]
#[verifier::external_body]
pub struct ExParseError(ParseError);

/// What the `elf` crate reads of the file `data`: its entry point and, when the file has a
/// table of program headers, the headers in the order of the table; `None` when the crate
/// cannot read the file.
pub uninterp spec fn elf_read(data: Seq<u8>) -> Option<(u64, Option<Seq<Segment>>)>;

/// Why an ELF program could not be loaded.
pub enum ElfError {
    /// The `elf` crate could not read the file.
    Lib(ParseError),
    /// The file has no table of program headers.
    NoProgramHeaders,
    /// A segment to load does not fit in the address space.
    SegmentTooLarge,
    /// The bytes of a segment are not all in the file.
    SegmentDataOutOfRange,
    /// The file holds fewer bytes of a segment than its header says.
    ProgramDataTooShort,
    /// Loading failed for the reason given.
    Message(&'static str),
}

/// A program header: where a segment lies in the file and where it goes in memory.
#[derive(Debug, Copy, Clone)]
pub struct Segment {
    pub p_type: u32,
    pub p_offset: u64,
    pub p_vaddr: u64,
    pub p_paddr: u64,
    pub p_filesz: u64,
    pub p_memsz: u64,
    pub p_flags: u32,
    pub p_align: u64,
}

/// What the `elf` crate read of a file: the entry point and the program headers, if the file
/// has a table of them.
pub struct ElfFile {
    pub entry: u64,
    pub segments: Option<Vec<Segment>>,
}

/// Reads `data` as a little-endian file (the byte order of the x86-64 processors the kernel
/// runs on) with `ElfBytes::<LittleEndian>::minimal_parse`, then takes the entry point from
/// its file header and the fields of the program headers from the table that
/// `ElfBytes::segments` gives, in the order that table's iterator yields them. (`ElfBytes` and the
/// table type are generic over traits of the `elf` crate, so the library does not hold them as
/// types of its own; the one wrapper makes the three calls.) The contract claims that what is read is a function
/// of the bytes, named `elf_read`; it claims nothing of the error.
#[verifier::external_body]
fn read_elf(data: &[u8]) -> (r: Result<ElfFile, ParseError>)
    ensures
        match r {
            Ok(f) => elf_read(data@) == Some((f.entry, segments_view(f.segments))),
            Err(_) => elf_read(data@) is None,
        },
{
    let file = ElfBytes::<LittleEndian>::minimal_parse(data)?;
    let segments = file.segments().map(|table| table.iter().map(|h| Segment {
        p_type: h.p_type,
        p_offset: h.p_offset,
        p_vaddr: h.p_vaddr,
        p_paddr: h.p_paddr,
        p_filesz: h.p_filesz,
        p_memsz: h.p_memsz,
        p_flags: h.p_flags,
        p_align: h.p_align,
    }).collect());
    Ok(ElfFile { entry: file.ehdr.e_entry, segments })
}

/// The bytes of the file that a segment holds: the `p_filesz` bytes from `p_offset` on, when
/// they are all in the file.
pub open spec fn segment_bytes(data: Seq<u8>, s: Segment) -> Option<Seq<u8>> {
    if s.p_offset + s.p_filesz <= usize::MAX && s.p_offset + s.p_filesz <= data.len() {
        Some(data.subrange(s.p_offset as int, s.p_offset + s.p_filesz))
    } else {
        None
    }
}

/// The bytes of the file that a segment holds, as `ElfBytes::segment_data` gives them.
pub fn segment_data<'a>(data: &'a [u8], s: &Segment) -> (r: Option<&'a [u8]>)
    ensures
        match segment_bytes(data@, *s) {
            Some(b) => r matches Some(d) && d@ == b,
            None => r is None,
        },
{
    if s.p_offset > usize::MAX as u64 || s.p_filesz > usize::MAX as u64 {
        return None;
    }
    let start = s.p_offset as usize;
    let size = s.p_filesz as usize;
    if start > usize::MAX - size {
        return None;
    }
    let end = start + size;
    if end > data.len() {
        return None;
    }
    Some(vstd::slice::slice_subrange(data, start, end))
}

/// A segment that is loaded: a loadable segment (type 1) that takes some memory.
pub open spec fn loads(s: Segment) -> bool {
    s.p_type == 1 && s.p_memsz != 0
}

/// The segment's pages fit in the address space.
pub open spec fn fits(s: Segment) -> bool {
    &&& s.p_vaddr <= usize::MAX
    &&& s.p_memsz + s.p_vaddr % 4096 + 4095 <= usize::MAX
}

/// The access rights of a loaded segment: user accessible, executable only when its header
/// says so (bit 0), writable when its header says so (bit 1).
pub open spec fn segment_flags(s: Segment) -> u64 {
    let a = if s.p_flags & 1 == 0 {
        FLAG_USER | FLAG_NO_EXEC
    } else {
        FLAG_USER
    };
    if s.p_flags & 2 != 0 {
        a | FLAG_WRITE
    } else {
        a
    }
}

/// A loaded segment is writable exactly when its header's write bit (1) is set, executable
/// exactly when its execute bit (0) is set, and always user accessible; so its pages get
/// rights of their own (`protect`) unless the segment is writable and not executable.
pub proof fn lemma_segment_rights(s: Segment, p: SegmentPlan)
    ensures
        (segment_flags(s) & FLAG_WRITE != 0) == (s.p_flags & 2 != 0),
        (segment_flags(s) & FLAG_NO_EXEC != 0) == (s.p_flags & 1 == 0),
        segment_flags(s) & FLAG_USER != 0,
        plan_matches(p, s) ==> (p.protect <==> (s.p_flags & 2 == 0 || s.p_flags & 1 != 0)),
{
    let w = s.p_flags & 2 != 0;
    let x = s.p_flags & 1 != 0;
    assert(0x8000_0000_0000_0004u64 | 2u64 == 0x8000_0000_0000_0006u64) by (bit_vector);
    assert(4u64 | 2u64 == 6u64) by (bit_vector);
    assert(0x8000_0000_0000_0006u64 & 2u64 != 0) by (bit_vector);
    assert(0x8000_0000_0000_0004u64 & 2u64 == 0) by (bit_vector);
    assert(6u64 & 2u64 != 0) by (bit_vector);
    assert(4u64 & 2u64 == 0) by (bit_vector);
    assert(0x8000_0000_0000_0006u64 & 0x8000_0000_0000_0000u64 != 0) by (bit_vector);
    assert(0x8000_0000_0000_0004u64 & 0x8000_0000_0000_0000u64 != 0) by (bit_vector);
    assert(6u64 & 0x8000_0000_0000_0000u64 == 0) by (bit_vector);
    assert(4u64 & 0x8000_0000_0000_0000u64 == 0) by (bit_vector);
    assert(0x8000_0000_0000_0006u64 & 4u64 != 0) by (bit_vector);
    assert(0x8000_0000_0000_0004u64 & 4u64 != 0) by (bit_vector);
    assert(6u64 & 4u64 != 0) by (bit_vector);
    assert(4u64 & 4u64 != 0) by (bit_vector);
    assert(4u64 | 0x8000_0000_0000_0000u64 == 0x8000_0000_0000_0004u64) by (bit_vector);
    assert(FLAG_USER | FLAG_NO_EXEC == 0x8000_0000_0000_0004u64);
    if !x {
        if w {
            assert(segment_flags(s) == 0x8000_0000_0000_0006u64);
        } else {
            assert(segment_flags(s) == 0x8000_0000_0000_0004u64);
        }
    } else {
        if w {
            assert(segment_flags(s) == 6u64);
        } else {
            assert(segment_flags(s) == 4u64);
        }
    }
}

/// What loading one segment does: map `pages` pages from `virt` writable for the user, copy
/// `copy_len` bytes of the file to `addr`, zero `zero_len` bytes after the `file_len` bytes
/// of the file, and, when `protect`, give the pages the rights `flags`.
#[derive(Debug, Copy, Clone)]
pub struct SegmentPlan {
    pub addr: usize,
    pub virt: VirtAddrPageAligned,
    pub pages: PageCount,
    pub flags: MemoryFlags,
    pub protect: bool,
    pub copy_len: usize,
    pub file_len: usize,
    pub zero_len: usize,
}

/// `p` is the plan for loading the segment `s`.
pub open spec fn plan_matches(p: SegmentPlan, s: Segment) -> bool {
    &&& p.addr == s.p_vaddr
    &&& p.virt@ == round_down(s.p_vaddr as int, 4096)
    &&& p.pages@ == (s.p_memsz + s.p_vaddr % 4096 + 4095) / 4096
    &&& p.flags@ == segment_flags(s)
    &&& p.protect == (segment_flags(s) != FLAGS_DEFAULT_URW)
    &&& p.copy_len == if s.p_filesz > 0 {
        if s.p_filesz < s.p_memsz {
            s.p_filesz
        } else {
            s.p_memsz
        }
    } else {
        0
    }
    &&& p.file_len == s.p_filesz
    &&& p.zero_len == if s.p_memsz > s.p_filesz {
        s.p_memsz - s.p_filesz
    } else {
        0
    }
}

/// The pages a segment's plan maps cover the segment: they start at or below its address
/// and end at or after its last byte.
pub proof fn lemma_plan_covers(p: SegmentPlan, s: Segment)
    requires
        plan_matches(p, s),
    ensures
        p.virt@ <= s.p_vaddr,
        s.p_vaddr + s.p_memsz <= p.virt@ + p.pages@ * 4096,
{
    let v = s.p_vaddr as int;
    let m = s.p_memsz as int;
    assert(round_down(v, 4096) + v % 4096 == v) by (nonlinear_arith);
    assert(((m + v % 4096 + 4095) / 4096) * 4096 >= m + v % 4096) by (nonlinear_arith)
        requires
            m >= 0,
            v >= 0,
    ;
}

/// The plan for loading a segment that loads and fits, whose file bytes, when it has any,
/// are in the file.
pub fn plan_segment(s: &Segment) -> (r: SegmentPlan)
    requires
        loads(*s),
        fits(*s),
        s.p_filesz <= usize::MAX,
    ensures
        plan_matches(r, *s),
{
    let addr = s.p_vaddr as usize;
    let memsz = s.p_memsz as usize;
    let (virt, pages) = align_page_range(addr, memsz);
    let mut bits = FLAG_USER;
    if s.p_flags & 0x1 == 0 {
        bits = bits | FLAG_NO_EXEC;
    }
    if s.p_flags & 0x2 != 0 {
        bits = bits | FLAG_WRITE;
    }
    let filesz = s.p_filesz as usize;
    let copy_len = if filesz > 0 {
        if filesz < memsz {
            filesz
        } else {
            memsz
        }
    } else {
        0
    };
    let zero_len = if memsz > filesz {
        memsz - filesz
    } else {
        0
    };
    SegmentPlan {
        addr,
        virt,
        pages,
        flags: MemoryFlags::from_bits(bits),
        protect: bits != FLAGS_DEFAULT_URW,
        copy_len,
        file_len: filesz,
        zero_len,
    }
}

/// How loading treats one segment: 0 when it is skipped, 1 when it is loaded, 2 when it is
/// too large, 3 when its file bytes are not all in the file.
pub open spec fn seg_status(data: Seq<u8>, s: Segment) -> int {
    if !loads(s) {
        0
    } else if !fits(s) {
        2
    } else if s.p_filesz > 0 && segment_bytes(data, s) is None {
        3
    } else {
        1
    }
}

/// The segments of `segs` that are loaded, in order, when none of them fails.
pub open spec fn loaded(data: Seq<u8>, segs: Seq<Segment>) -> Seq<Segment>
    decreases segs.len(),
{
    if segs.len() == 0 {
        Seq::empty()
    } else {
        let rest = loaded(data, segs.drop_last());
        if seg_status(data, segs.last()) == 1 {
            rest.push(segs.last())
        } else {
            rest
        }
    }
}

/// The status of the first segment of `segs` that fails, or 1 when none does.
pub open spec fn first_failure(data: Seq<u8>, segs: Seq<Segment>) -> int
    decreases segs.len(),
{
    if segs.len() == 0 {
        1
    } else {
        let f = first_failure(data, segs.drop_last());
        if f != 1 {
            f
        } else if seg_status(data, segs.last()) >= 2 {
            seg_status(data, segs.last())
        } else {
            1
        }
    }
}

/// One segment to load: the plan and the bytes of the file to copy.
pub struct SegmentLoad<'a> {
    pub plan: SegmentPlan,
    pub data: &'a [u8],
}

/// A program to load: where it starts and its segments.
pub struct LoadPlan<'a> {
    pub entry: usize,
    pub segments: Vec<SegmentLoad<'a>>,
}

/// The load of a segment holds the plan for it and its file bytes.
pub open spec fn load_matches(l: SegmentLoad, data: Seq<u8>, s: Segment) -> bool {
    &&& plan_matches(l.plan, s)
    &&& l.data@ == if s.p_filesz > 0 {
        segment_bytes(data, s)->0
    } else {
        Seq::empty()
    }
}

/// The program headers as a sequence, when there are some.
pub open spec fn segments_view(s: Option<Vec<Segment>>) -> Option<Seq<Segment>> {
    match s {
        Some(v) => Some(v@),
        None => None,
    }
}

/// What planning the load of the file `data` with entry point `entry` and program headers
/// `segs` gives: no table of headers is an error; else the first segment that does not fit
/// in the address space, or whose bytes are not all in the file, makes the error; else the
/// plan has the entry point and, in order, one load for each segment to load.
pub open spec fn plan_spec<'a>(
    data: Seq<u8>,
    entry: u64,
    segs: Option<Seq<Segment>>,
    r: Result<LoadPlan<'a>, ElfError>,
) -> bool {
    match segs {
        None => r matches Err(ElfError::NoProgramHeaders),
        Some(segs) => {
            let f = first_failure(data, segs);
            &&& (f == 2 ==> (r matches Err(ElfError::SegmentTooLarge)))
            &&& (f == 3 ==> (r matches Err(ElfError::SegmentDataOutOfRange)))
            &&& (f == 1 ==> (r matches Ok(p) && p.entry == entry as usize && p.segments@.len()
                == loaded(data, segs).len() && forall|k: int|
                0 <= k < p.segments@.len() ==> load_matches(
                    #[trigger] p.segments@[k],
                    data,
                    loaded(data, segs)[k],
                )))
        },
    }
}

/// Plans loading the program `data` from what the `elf` crate read of it: each loadable
/// segment that takes memory, in order, with its plan and file bytes.
pub fn plan_elf<'a>(data: &'a [u8], file: &ElfFile) -> (r: Result<LoadPlan<'a>, ElfError>)
    ensures
        plan_spec(data@, file.entry, segments_view(file.segments), r),
{
    let segs = match &file.segments {
        None => return Err(ElfError::NoProgramHeaders),
        Some(v) => v,
    };
    let mut out: Vec<SegmentLoad<'a>> = Vec::new();
    let mut i: usize = 0;
    while i < segs.len()
        invariant
            file.segments is Some,
            file.segments->0@ == segs@,
            i <= segs@.len(),
            first_failure(data@, segs@.take(i as int)) == 1,
            out@.len() == loaded(data@, segs@.take(i as int)).len(),
            forall|k: int|
                0 <= k < out@.len() ==> load_matches(
                    #[trigger] out@[k],
                    data@,
                    loaded(data@, segs@.take(i as int))[k],
                ),
        decreases segs@.len() - i,
    {
        let s = segs[i];
        proof {
            assert(segs@.take(i + 1).drop_last() =~= segs@.take(i as int));
            assert(segs@.take(i + 1).last() == s);
        }
        if s.p_type == 1 && s.p_memsz != 0 {
            if s.p_vaddr > usize::MAX as u64 || s.p_memsz > (usize::MAX as u64) - 4095 - (s.p_vaddr
                % 4096) {
                proof {
                    assert((usize::MAX as u64) as int == usize::MAX);
                    assert(!fits(s));
                    assert(seg_status(data@, segs@[i as int]) == 2);
                    lemma_first_failure_prefix(data@, segs@, i as int);
                    assert(first_failure(data@, segs@) == 2);
                }
                return Err(ElfError::SegmentTooLarge);
            }
            let bytes: &'a [u8] = if s.p_filesz > 0 {
                match segment_data(data, &s) {
                    None => {
                        proof {
                            lemma_first_failure_prefix(data@, segs@, i as int);
                        }
                        return Err(ElfError::SegmentDataOutOfRange);
                    },
                    Some(d) => d,
                }
            } else {
                vstd::slice::slice_subrange(data, 0, 0)
            };
            if (bytes.len() as u64) < s.p_filesz {
                return Err(ElfError::ProgramDataTooShort);
            }
            let plan = plan_segment(&s);
            let ghost before = out@;
            out.push(SegmentLoad { plan, data: bytes });
            proof {
                assert((usize::MAX as u64) as int == usize::MAX);
                assert(seg_status(data@, s) == 1);
                assert(loaded(data@, segs@.take(i + 1)) == loaded(data@, segs@.take(i as int)).push(s));
                if s.p_filesz == 0 {
                    assert(bytes@ =~= Seq::<u8>::empty());
                }
                assert(load_matches(out@[before.len() as int], data@, s));
                assert forall|k: int| 0 <= k < out@.len() implies load_matches(
                    #[trigger] out@[k],
                    data@,
                    loaded(data@, segs@.take(i + 1))[k],
                ) by {
                    if k < before.len() {
                        assert(out@[k] == before[k]);
                    }
                }
            }
        }
        i = i + 1;
    }
    proof {
        assert(segs@.take(i as int) =~= segs@);
    }
    Ok(LoadPlan { entry: file.entry as usize, segments: out })
}

/// When the segments before `i` do not fail and segment `i` does, the first failure is
/// segment `i`'s.
proof fn lemma_first_failure_prefix(data: Seq<u8>, segs: Seq<Segment>, i: int)
    requires
        0 <= i < segs.len(),
        first_failure(data, segs.take(i)) == 1,
        seg_status(data, segs[i]) >= 2,
    ensures
        first_failure(data, segs) == seg_status(data, segs[i]),
    decreases segs.len() - i,
{
    let f = seg_status(data, segs[i]);
    assert(segs.take(i + 1).drop_last() =~= segs.take(i));
    let mut j = i + 1;
    assert(first_failure(data, segs.take(j)) == f);
    lemma_first_failure_keeps(data, segs, i + 1, f);
}

proof fn lemma_first_failure_keeps(data: Seq<u8>, segs: Seq<Segment>, j: int, f: int)
    requires
        0 <= j <= segs.len(),
        f >= 2,
        first_failure(data, segs.take(j)) == f,
    ensures
        first_failure(data, segs) == f,
    decreases segs.len() - j,
{
    if j == segs.len() {
        assert(segs.take(j) =~= segs);
    } else {
        assert(segs.take(j + 1).drop_last() =~= segs.take(j));
        lemma_first_failure_keeps(data, segs, j + 1, f);
    }
}

/// Reads the program `data` with the `elf` crate and plans loading it, as `plan_elf` does with
/// what was read. Fails with the crate's error when it cannot read the file.
pub fn load_elf<'a>(data: &'a [u8]) -> (r: Result<LoadPlan<'a>, ElfError>)
    ensures
        match elf_read(data@) {
            None => r matches Err(ElfError::Lib(_)),
            Some((entry, segs)) => plan_spec(data@, entry, segs, r),
        },
{
    match read_elf(data) {
        Err(e) => Err(ElfError::Lib(e)),
        Ok(file) => plan_elf(data, &file),
    }
}

} // verus!
