use kernel::elf_loader::{load_elf, plan_segment, segment_data, ElfError, LoadPlan, Segment};
use kernel::memory::FLAGS_DEFAULT_URW;

struct Ph {
    p_type: u32,
    p_flags: u32,
    p_offset: u64,
    p_vaddr: u64,
    p_filesz: u64,
    p_memsz: u64,
}

fn elf(entry: u64, with_table: bool, phs: &[Ph], tail: &[u8]) -> Vec<u8> {
    let mut d = vec![0x7f, b'E', b'L', b'F', 2, 1, 1, 0];
    d.extend_from_slice(&[0; 8]);
    d.extend_from_slice(&2u16.to_le_bytes());
    d.extend_from_slice(&0x3eu16.to_le_bytes());
    d.extend_from_slice(&1u32.to_le_bytes());
    d.extend_from_slice(&entry.to_le_bytes());
    d.extend_from_slice(&(if with_table { 64u64 } else { 0 }).to_le_bytes());
    d.extend_from_slice(&0u64.to_le_bytes());
    d.extend_from_slice(&0u32.to_le_bytes());
    d.extend_from_slice(&64u16.to_le_bytes());
    d.extend_from_slice(&56u16.to_le_bytes());
    d.extend_from_slice(&(phs.len() as u16).to_le_bytes());
    d.extend_from_slice(&64u16.to_le_bytes());
    d.extend_from_slice(&0u16.to_le_bytes());
    d.extend_from_slice(&0u16.to_le_bytes());
    assert_eq!(d.len(), 64);
    for p in phs {
        d.extend_from_slice(&p.p_type.to_le_bytes());
        d.extend_from_slice(&p.p_flags.to_le_bytes());
        d.extend_from_slice(&p.p_offset.to_le_bytes());
        d.extend_from_slice(&p.p_vaddr.to_le_bytes());
        d.extend_from_slice(&p.p_vaddr.to_le_bytes());
        d.extend_from_slice(&p.p_filesz.to_le_bytes());
        d.extend_from_slice(&p.p_memsz.to_le_bytes());
        d.extend_from_slice(&0x1000u64.to_le_bytes());
    }
    d.extend_from_slice(tail);
    d
}

fn ph(p_type: u32, p_flags: u32, p_offset: u64, p_vaddr: u64, p_filesz: u64, p_memsz: u64) -> Ph {
    Ph { p_type, p_flags, p_offset, p_vaddr, p_filesz, p_memsz }
}

fn plan(data: &[u8]) -> LoadPlan<'_> {
    match load_elf(data) {
        Ok(p) => p,
        Err(_) => panic!("the file does not load"),
    }
}

#[test]
fn loadable_segments_are_planned_in_order() {
    let off = 64 + 3 * 56;
    let data = elf(
        0x40_1000,
        true,
        &[
            ph(1, 5, off, 0x40_1010, 4, 0x20),
            ph(4, 4, 0, 0x40_0000, 0, 0x10),
            ph(1, 6, 0, 0x40_3000, 0, 0),
        ],
        &[1, 2, 3, 4],
    );
    let p = plan(&data);
    assert_eq!(p.entry, 0x40_1000);
    assert_eq!(p.segments.len(), 1);
    let s = &p.segments[0];
    assert_eq!(s.plan.addr, 0x40_1010);
    assert_eq!(s.plan.virt.addr(), 0x40_1000);
    assert_eq!(s.plan.pages.count(), 1);
    assert_eq!(s.plan.flags.bits(), 0x4);
    assert!(s.plan.protect);
    assert_eq!(s.plan.copy_len, 4);
    assert_eq!(s.plan.file_len, 4);
    assert_eq!(s.plan.zero_len, 0x1c);
    assert_eq!(s.data, &[1, 2, 3, 4]);
}

#[test]
fn writable_data_needs_no_protection_change() {
    let data = elf(0x40_1000, true, &[ph(1, 6, 0, 0x60_0000, 0, 0x2001)], &[]);
    let p = plan(&data);
    let s = &p.segments[0];
    assert_eq!(s.plan.flags.bits(), FLAGS_DEFAULT_URW);
    assert!(!s.plan.protect);
    assert_eq!(s.plan.pages.count(), 3);
    assert_eq!(s.plan.copy_len, 0);
    assert_eq!(s.plan.zero_len, 0x2001);
    assert!(s.data.is_empty());
}

#[test]
fn bad_files_are_rejected_by_the_elf_crate() {
    assert!(matches!(load_elf(b"not an elf file"), Err(ElfError::Lib(_))));
    assert!(matches!(load_elf(&[]), Err(ElfError::Lib(_))));
    let mut data = elf(0x40_1000, true, &[], &[]);
    data[6] = 2;
    assert!(matches!(load_elf(&data), Err(ElfError::Lib(_))));
}

#[test]
fn a_file_without_program_headers_is_rejected() {
    let data = elf(0x40_1000, false, &[], &[]);
    assert!(matches!(load_elf(&data), Err(ElfError::NoProgramHeaders)));
}

#[test]
fn segment_bytes_must_be_in_the_file() {
    let data = elf(0x40_1000, true, &[ph(1, 5, 0x1000, 0x40_1000, 4, 4)], &[]);
    assert!(matches!(load_elf(&data), Err(ElfError::SegmentDataOutOfRange)));
}

#[test]
fn segments_must_fit_the_address_space() {
    let data = elf(0x40_1000, true, &[ph(1, 5, 0, 0x40_0000, 0, u64::MAX - 10)], &[]);
    assert!(matches!(load_elf(&data), Err(ElfError::SegmentTooLarge)));
}

#[test]
fn the_first_bad_segment_decides_the_error() {
    let data = elf(
        0x40_1000,
        true,
        &[ph(1, 5, 0x1000, 0x40_1000, 4, 4), ph(1, 5, 0, 0x40_0000, 0, u64::MAX - 10)],
        &[],
    );
    assert!(matches!(load_elf(&data), Err(ElfError::SegmentDataOutOfRange)));
}

fn segment(p_offset: u64, p_filesz: u64) -> Segment {
    Segment {
        p_type: 1,
        p_offset,
        p_vaddr: 0x40_0000,
        p_paddr: 0,
        p_filesz,
        p_memsz: p_filesz,
        p_flags: 5,
        p_align: 0x1000,
    }
}

#[test]
fn segment_data_slices_the_file() {
    let data = [9u8, 8, 7, 6, 5];
    assert_eq!(segment_data(&data, &segment(1, 3)), Some(&data[1..4]));
    assert_eq!(segment_data(&data, &segment(5, 0)), Some(&data[5..5]));
    assert_eq!(segment_data(&data, &segment(4, 2)), None);
    assert_eq!(segment_data(&data, &segment(u64::MAX, 2)), None);
}

#[test]
fn segment_plans() {
    let s = Segment {
        p_type: 1,
        p_offset: 0,
        p_vaddr: 0x40_0ff0,
        p_paddr: 0,
        p_filesz: 0x30,
        p_memsz: 0x20,
        p_flags: 7,
        p_align: 0x1000,
    };
    let p = plan_segment(&s);
    assert_eq!(p.virt.addr(), 0x40_0000);
    assert_eq!(p.pages.count(), 2);
    assert_eq!(p.copy_len, 0x20);
    assert_eq!(p.zero_len, 0);
    assert_eq!(p.flags.bits(), 0x6);
    assert!(p.virt.addr() <= 0x40_0ff0);
    assert!(0x40_0ff0 + 0x20 <= p.virt.addr() + p.pages.count() * 0x1000);
}
