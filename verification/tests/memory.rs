use ferros::arch::user_stack::{build_user_stack, read_user_str_array};
use ferros::mm::addr_space::{AddressSpace, PageTables};
use ferros::mm::frame::{BootInfoFrameAllocator, MemoryRegion};
use ferros::mm::heap::heap_pages;
use ferros::mm::paging::{map_user_page, user_range_accessible, KernelPages, UserMemory};
use ferros::syscall::elf::{load, parse_header, ElfError};
use ferros::syscall::uaccess::{check_user_range, copy_to_user, read_user_cstr, with_user_bytes};
use ferros::util::{
    copy_into, get_be16, get_u16, get_u32, get_u64, put_u16, put_u32, put_u64, slice_to_vec,
};

fn region(start_frame: u64, end_frame: u64, usable: bool) -> MemoryRegion {
    MemoryRegion { start_frame, end_frame, usable }
}

fn two_regions() -> BootInfoFrameAllocator {
    BootInfoFrameAllocator::init(vec![region(1, 3, true), region(3, 5, false), region(5, 9, true)])
}

// ---- frames ----

#[test]
fn frames_come_in_the_order_of_the_map() {
    let mut a = two_regions();
    let got: Vec<Option<u64>> = (0..7).map(|_| a.allocate_frame()).collect();
    assert_eq!(
        got,
        vec![
            Some(0x1000),
            Some(0x2000),
            Some(0x5000),
            Some(0x6000),
            Some(0x7000),
            Some(0x8000),
            None
        ]
    );
    assert_eq!(a.cursor(), 6);
    assert_eq!(a.allocate_frame(), None);
    assert_eq!(a.cursor(), 6);
}

#[test]
fn frame_is_handed_out_once() {
    let mut a = two_regions();
    let first = a.allocate_frame().unwrap();
    while let Some(f) = a.allocate_frame() {
        assert_ne!(f, first);
    }
}

#[test]
fn freed_frame_is_reused() {
    let mut a = two_regions();
    let f = a.allocate_frame().unwrap();
    let g = a.allocate_frame().unwrap();
    a.deallocate_frame(f);
    a.deallocate_frame(g);
    assert_eq!(a.free_list_len(), 2);
    assert_eq!(a.allocate_frame(), Some(g));
    assert_eq!(a.allocate_frame(), Some(f));
    assert_eq!(a.free_list_len(), 0);
    assert_eq!(a.cursor(), 2);
}

#[test]
fn contiguous_frames_skip_a_gap() {
    let mut a = two_regions();
    assert_eq!(a.allocate_contiguous(0), None);
    assert_eq!(a.allocate_contiguous(5), None);
    assert_eq!(a.allocate_contiguous(3), Some(0x5000));
    assert_eq!(a.allocate_frame(), Some(0x8000));
    assert_eq!(a.allocate_frame(), None);
}

// ---- address spaces ----

fn table(entries: &[(usize, u64)]) -> Vec<u64> {
    let mut t = vec![0u64; 512];
    for (i, e) in entries {
        t[*i] = *e;
    }
    t
}

#[test]
fn fresh_space_shares_the_kernel_and_frees_its_root_only() {
    let mut tables = PageTables::new();
    tables.put(0xA000, table(&[(256, 0xB003), (511, 0xC003)]));
    tables.put(0xB000, table(&[]));
    tables.put(0xC000, table(&[]));
    let mut fa = two_regions();
    let space = AddressSpace::new_sharing_kernel(&mut tables, 0xA000, &mut fa);
    assert_eq!(space.pml4_frame(), 0x1000);
    assert_eq!(tables.entry(0x1000, 256), 0xB003);
    assert_eq!(tables.entry(0x1000, 511), 0xC003);
    assert_eq!(tables.entry(0x1000, 0), 0);
    space.destroy(&tables, 0xA000, &mut fa);
    assert_eq!(fa.free, vec![0x1000]);
}

#[test]
fn private_subtrees_are_freed_and_shared_ones_are_not() {
    let mut tables = PageTables::new();
    tables.put(0xA000, table(&[(256, 0xB003)]));
    tables.put(0xB000, table(&[]));
    // One private chain down to two user pages, beside the shared entry.
    tables.put(0x1000, table(&[(0, 0x11007), (256, 0xB003)]));
    tables.put(0x11000, table(&[(3, 0x12007)]));
    tables.put(0x12000, table(&[(4, 0x13007)]));
    tables.put(0x13000, table(&[(5, 0x14007), (6, 0x15007)]));
    let mut fa = BootInfoFrameAllocator::init(vec![]);
    AddressSpace::from_pml4_frame(0x1000).destroy(&tables, 0xA000, &mut fa);
    let mut freed = fa.free.clone();
    freed.sort();
    assert_eq!(freed, vec![0x1000, 0x11000, 0x12000, 0x13000, 0x14000, 0x15000]);
    assert_eq!(*fa.free.last().unwrap(), 0x1000);
}

// ---- user memory ----

fn mapped(pages: &[u64]) -> UserMemory {
    let mut m = UserMemory::new();
    for p in pages {
        map_user_page(&mut m, *p);
    }
    m
}

#[test]
fn pages_must_be_mapped_for_user_mode() {
    let mut m = mapped(&[0x1000, 0x2000]);
    m.put_page(0x3000, true, false, vec![0; 4096]);
    m.put_page(0x4000, false, true, vec![0; 4096]);
    assert!(user_range_accessible(&m, 0x1ff0, 0x20, true));
    assert!(user_range_accessible(&m, 0x1ff0, 0x2010, false));
    assert!(!user_range_accessible(&m, 0x1ff0, 0x1011, true));
    assert!(!user_range_accessible(&m, 0x4000, 1, false));
    assert!(!user_range_accessible(&m, 0x5000, 1, false));
    assert!(!user_range_accessible(&m, 0x0000_9000_0000_0000, 1, false));
    assert!(!user_range_accessible(&m, u64::MAX - 1, 1, true));
    assert!(!user_range_accessible(&m, u64::MAX, 2, false));
    assert!(user_range_accessible(&m, u64::MAX, 0, true));
    assert!(m.is_mapped(0x4000));
    m.remove_page(0x4000);
    assert!(!m.is_mapped(0x4000));
    assert_eq!(m.page_starts(), vec![0x1000, 0x2000, 0x3000]);
}

#[test]
fn user_ranges_end_at_the_end_of_user_space() {
    let m = mapped(&[0x7FFF_FFFF_F000]);
    assert!(check_user_range(&m, 0x7FFF_FFFF_F000, 0x1000, true));
    assert!(!check_user_range(&m, 0x7FFF_FFFF_F000, 0x1001, true));
    assert!(!check_user_range(&m, 0xFFFF_8000_0000_0000, 1, false));
    assert!(!check_user_range(&m, 0xFFFF_FFFF_FFFF_FFFF, 2, false));
    assert!(check_user_range(&m, 0x10, 0, true));
}

#[test]
fn copied_bytes_read_back() {
    let mut m = mapped(&[0x1000, 0x2000]);
    assert_eq!(copy_to_user(&mut m, 0x1ffe, b"abcd"), Ok(()));
    assert_eq!(with_user_bytes(&m, 0x1ffe, 4), Ok(b"abcd".to_vec()));
    assert_eq!(with_user_bytes(&m, 0x2002, 1), Ok(vec![0]));
    assert_eq!(copy_to_user(&mut m, 0x2ffe, b"abcd"), Err(14));
    assert_eq!(with_user_bytes(&m, 0x3000, 1), Err(14));
}

#[test]
fn copies_stay_in_writable_user_pages() {
    let mut m = mapped(&[0x1000]);
    m.put_page(0x2000, true, false, vec![7; 4096]);
    m.put_page(0x3000, false, true, vec![8; 4096]);
    assert_eq!(copy_to_user(&mut m, 0x1ffe, b"abcd"), Err(14));
    assert_eq!(copy_to_user(&mut m, 0x3000, b"a"), Err(14));
    assert_eq!(m.read_range(0x1ffe, 4), &[0, 0, 7, 7]);
    assert_eq!(m.read_byte(0x3000), 8);
    assert_eq!(with_user_bytes(&m, 0x1ffe, 4), Ok(vec![0, 0, 7, 7]));
    assert_eq!(with_user_bytes(&m, 0x2fff, 2), Err(14));
}

#[test]
fn strings_end_at_the_zero() {
    let mut m = mapped(&[0x1000]);
    assert_eq!(copy_to_user(&mut m, 0x1000, b"shell\0rest"), Ok(()));
    assert_eq!(read_user_cstr(&m, 0x1000), Ok(b"shell".to_vec()));
    assert_eq!(copy_to_user(&mut m, 0x1ffd, b"xyz"), Ok(()));
    assert_eq!(read_user_cstr(&m, 0x1ffd), Err(14));
}

#[test]
fn duplicated_memory_is_apart() {
    let mut m = mapped(&[0x1000]);
    m.write_range(0x1000, b"old");
    let copy = m.duplicate();
    m.write_range(0x1000, b"new");
    assert_eq!(copy.read_range(0x1000, 3), b"old");
    assert_eq!(m.read_range(0x1000, 3), b"new");
    m.fill_zero(0x1001, 2);
    assert_eq!(m.read_range(0x1000, 3), &[b'n', 0, 0]);
}

#[test]
fn kernel_heap_spans_25_pages() {
    let pages = heap_pages();
    assert_eq!(pages.len(), 25);
    assert_eq!(pages[0], 0x5555_5555_0000);
    assert_eq!(pages[24], 0x5555_5556_8000);
}

// ---- program files ----

/// An ELF file with one loadable segment.
fn program(vaddr: u64, content: &[u8], memsz: u64) -> Vec<u8> {
    let mut f = vec![0u8; 120];
    f[0..4].copy_from_slice(&[0x7F, b'E', b'L', b'F']);
    f[4] = 2;
    f[0x10] = 2;
    f[0x12] = 0x3E;
    f[0x18..0x20].copy_from_slice(&(vaddr + 1).to_le_bytes());
    f[0x20..0x28].copy_from_slice(&64u64.to_le_bytes());
    f[0x36] = 56;
    f[0x38] = 1;
    f[64] = 1;
    f[72..80].copy_from_slice(&120u64.to_le_bytes());
    f[80..88].copy_from_slice(&vaddr.to_le_bytes());
    f[96..104].copy_from_slice(&(content.len() as u64).to_le_bytes());
    f[104..112].copy_from_slice(&memsz.to_le_bytes());
    f.extend_from_slice(content);
    f
}

fn load_error(f: &[u8], m: UserMemory) -> ElfError {
    match load(f, m, &KernelPages::new()) {
        Err(e) => e,
        Ok(_) => panic!("loaded"),
    }
}

#[test]
fn segment_stands_in_memory() {
    let (entry, m) = match load(&program(0x400ffe, b"code", 0x1003), UserMemory::new(), &KernelPages::new()) {
        Ok(x) => x,
        Err(_) => panic!("refused"),
    };
    assert_eq!(entry, 0x400fff);
    assert_eq!(m.page_starts(), vec![0x400000, 0x401000, 0x402000]);
    assert_eq!(m.read_range(0x400ffe, 5), b"code\0");
    assert!(check_user_range(&m, 0x400000, 0x3000, true));
}

#[test]
fn load_keeps_existing_pages() {
    let mut m = mapped(&[0x900000]);
    m.write_range(0x900000, b"mine");
    match load(&program(0x400000, b"code", 4), m, &KernelPages::new()) {
        Ok((_, m2)) => assert_eq!(m2.read_range(0x900000, 4), b"mine"),
        Err(_) => panic!("refused"),
    }
}

#[test]
fn header_fields_are_read() {
    let h = parse_header(&program(0x400000, b"x", 1)).unwrap();
    assert_eq!((h.entry, h.phoff, h.phentsize, h.phnum), (0x400001, 64, 56, 1));
}

#[test]
fn bad_headers_are_refused() {
    let good = program(0x400000, b"x", 1);
    assert_eq!(parse_header(&good[..63]), Err(ElfError::TooSmall));
    let mut f = good.clone();
    f[1] = b'X';
    assert_eq!(parse_header(&f), Err(ElfError::BadMagic));
    let mut f = good.clone();
    f[4] = 1;
    assert_eq!(parse_header(&f), Err(ElfError::NotElf64));
    let mut f = good.clone();
    f[0x10] = 3;
    assert_eq!(parse_header(&f), Err(ElfError::NotExecutable));
    let mut f = good.clone();
    f[0x12] = 3;
    assert_eq!(parse_header(&f), Err(ElfError::NotX86_64));
    let mut f = good.clone();
    f[0x36] = 55;
    assert_eq!(parse_header(&f), Err(ElfError::BadProgramHeaderSize));
    let mut f = good.clone();
    f[0x38] = 2;
    assert_eq!(parse_header(&f[..121]), Err(ElfError::TooSmall));
}

#[test]
fn bad_segments_are_refused() {
    let mut f = program(0x400000, b"code", 4);
    f.pop();
    assert_eq!(load_error(&f, UserMemory::new()), ElfError::SegmentOutOfFile);
    assert_eq!(
        load_error(&program(0x400000, b"code", 3), UserMemory::new()),
        ElfError::FileSizeExceedsMemSize
    );
    assert_eq!(
        load_error(&program(0x7FFF_FFFF_FFFD, b"code", 4), UserMemory::new()),
        ElfError::SegmentNotInUserSpace
    );
    assert_eq!(
        load_error(&program(0x400000, b"code", 4), mapped(&[0x400000])),
        ElfError::SegmentOverlapsExisting
    );
}

#[test]
fn other_program_headers_load_nothing() {
    let mut f = program(0x400000, b"code", 4);
    f[64] = 2;
    match load(&f, UserMemory::new(), &KernelPages::new()) {
        Ok((_, m)) => assert!(m.page_starts().is_empty()),
        Err(_) => panic!("refused"),
    }
}

// ---- first stack ----

#[test]
fn stack_holds_the_strings_and_the_words() {
    let argv = vec![b"sh".to_vec(), b"-c".to_vec()];
    let envp = vec![b"HOME=/".to_vec()];
    let m = mapped(&[0x10000]);
    let (rsp, m) = build_user_stack(m, 0x11000, 0x10000, &argv, &envp).unwrap();
    assert_eq!(rsp % 16, 0);
    let word = |i: u64| get_u64(&m.read_range(rsp + 8 * i, 8), 0);
    assert_eq!(word(0), 2);
    assert_eq!(read_user_cstr(&m, word(1)), Ok(b"sh".to_vec()));
    assert_eq!(read_user_cstr(&m, word(2)), Ok(b"-c".to_vec()));
    assert_eq!(word(3), 0);
    assert_eq!(read_user_cstr(&m, word(4)), Ok(b"HOME=/".to_vec()));
    assert_eq!(word(5), 0);
    assert_eq!((word(6), word(7)), (0, 0));
}

#[test]
fn stack_that_does_not_fit_is_refused() {
    let argv = vec![vec![b'x'; 5000]];
    assert!(build_user_stack(mapped(&[0x10000]), 0x11000, 0x10000, &argv, &vec![]).is_none());
}

#[test]
fn string_arrays_are_read_from_user_memory() {
    let mut m = mapped(&[0x1000]);
    m.write_range(0x1000, b"one\0two\0");
    m.write_range(0x1100, &0x1000u64.to_le_bytes());
    m.write_range(0x1108, &0x1004u64.to_le_bytes());
    assert_eq!(read_user_str_array(&m, 0x1100), Ok(vec![b"one".to_vec(), b"two".to_vec()]));
    assert_eq!(read_user_str_array(&m, 0), Ok(vec![]));
    assert_eq!(read_user_str_array(&m, 0x9000), Err(14));
    // Without a zero that ends it the array is too long.
    let mut long = mapped(&[0x1000]);
    for i in 0..200u64 {
        long.write_range(0x1000 + 8 * i, &0x1ff0u64.to_le_bytes());
    }
    assert_eq!(read_user_str_array(&long, 0x1000), Err(7));
}

// ---- numbers in bytes ----

#[test]
fn numbers_are_read_and_written_by_bytes() {
    let mut b = [0u8; 16];
    put_u16(&mut b, 0, 0x1234);
    put_u32(&mut b, 2, 0x89AB_CDEF);
    put_u64(&mut b, 6, 0x0102_0304_0506_0708);
    assert_eq!(&b[..6], &[0x34, 0x12, 0xEF, 0xCD, 0xAB, 0x89]);
    assert_eq!(get_u16(&b, 0), 0x1234);
    assert_eq!(get_be16(&b, 0), 0x3412);
    assert_eq!(get_u32(&b, 2), 0x89AB_CDEF);
    assert_eq!(get_u64(&b, 6), 0x0102_0304_0506_0708);
    copy_into(&mut b, 14, &[9, 8]);
    assert_eq!(slice_to_vec(&b, 13, 16), vec![1, 9, 8]);
}

#[test]
fn kernel_pages_are_spared() {
    let mut shared = KernelPages::new();
    assert!(!shared.holds(0x40_0000));
    shared.put(0x40_1000, 0x40_3000);
    shared.put(0x4444_4444_0000, 0x4444_4444_1000);
    assert!(!shared.holds(0x40_0FFF) && shared.holds(0x40_1000) && shared.holds(0x40_2FFF));
    assert!(!shared.holds(0x40_3000) && shared.holds(0x4444_4444_0000));
    let file = program(0x400ffe, b"code", 4);
    match load(&file, UserMemory::new(), &shared) {
        Err(e) => assert_eq!(e, ElfError::SegmentOverlapsExisting),
        Ok(_) => panic!("loaded over the kernel"),
    }
    assert!(load(&program(0x403000, b"code", 4), UserMemory::new(), &shared).is_ok());
}
