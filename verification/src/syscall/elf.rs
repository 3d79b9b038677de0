//! Loading static ELF64 executables into user memory.
//!
//! Of a file, its entry point and its `PT_LOAD` segments are used: each says which bytes of the
//! file go to which addresses, and how many zeros follow them.

use crate::mm::paging::{self, KernelPages, MemView, UserMemory};
use crate::syscall::uaccess::USER_SPACE_END;
use crate::util;
use std::collections::BTreeSet;
use vstd::prelude::*;

verus! {

/// Why a file could not be loaded.
#[derive(Debug, Clone, Copy, PartialEq, Eq, Structural)]
pub enum ElfError {
    /// Too short for its headers.
    TooSmall,
    /// No ELF signature.
    BadMagic,
    /// Not a 64-bit file.
    NotElf64,
    /// Not a static executable.
    NotExecutable,
    /// Not for x86-64.
    NotX86_64,
    /// Program headers are too small.
    BadProgramHeaderSize,
    /// A segment lies outside the file.
    SegmentOutOfFile,
    /// A segment has more bytes in the file than in memory.
    FileSizeExceedsMemSize,
    /// A segment lies outside user space.
    SegmentNotInUserSpace,
    /// A page of a segment is mapped already, by the kernel or otherwise, and not by this load.
    SegmentOverlapsExisting,
}

/// Type of a static executable.
pub const ET_EXEC: u16 = 2;

/// Machine number of x86-64.
pub const EM_X86_64: u16 = 0x3E;

/// Type of a segment to be loaded.
pub const PT_LOAD: u32 = 1;

/// Size of an ELF64 program header.
pub const PH_ENTRY_SIZE: u16 = 56;

/// What the file header says.
#[derive(Debug, Clone, Copy, PartialEq, Eq, Structural)]
pub struct ElfHeader {
    /// Entry point.
    pub entry: u64,
    /// Where the program headers start.
    pub phoff: u64,
    /// Size of a program header.
    pub phentsize: u16,
    /// Number of program headers.
    pub phnum: u16,
}

/// What a program header says of a segment to be loaded.
#[derive(Debug, Clone, Copy, PartialEq, Eq, Structural)]
pub struct Segment {
    pub offset: u64,
    pub vaddr: u64,
    pub filesz: u64,
    pub memsz: u64,
}

/// What the header of a file says, or what is wrong with it.
pub open spec fn elf_header(bytes: Seq<u8>) -> Result<ElfHeader, ElfError> {
    if bytes.len() < 64 {
        Err(ElfError::TooSmall)
    } else if !(bytes[0] == 0x7F && bytes[1] == 0x45 && bytes[2] == 0x4C && bytes[3] == 0x46) {
        Err(ElfError::BadMagic)
    } else if bytes[4] != 2 {
        Err(ElfError::NotElf64)
    } else if util::le16(bytes, 0x10) != ET_EXEC {
        Err(ElfError::NotExecutable)
    } else if util::le16(bytes, 0x12) != EM_X86_64 {
        Err(ElfError::NotX86_64)
    } else if util::le16(bytes, 0x36) < PH_ENTRY_SIZE {
        Err(ElfError::BadProgramHeaderSize)
    } else if util::le64(bytes, 0x20) + util::le16(bytes, 0x38) * util::le16(bytes, 0x36)
        > bytes.len() {
        Err(ElfError::TooSmall)
    } else {
        Ok(
            ElfHeader {
                entry: util::le64(bytes, 0x18),
                phoff: util::le64(bytes, 0x20),
                phentsize: util::le16(bytes, 0x36),
                phnum: util::le16(bytes, 0x38),
            },
        )
    }
}

/// The segment that the program header at `ph` describes: none where nothing is to be loaded.
pub open spec fn elf_segment(bytes: Seq<u8>, ph: int) -> Result<Option<Segment>, ElfError> {
    let s = Segment {
        offset: util::le64(bytes, ph + 0x08),
        vaddr: util::le64(bytes, ph + 0x10),
        filesz: util::le64(bytes, ph + 0x20),
        memsz: util::le64(bytes, ph + 0x28),
    };
    if util::le32(bytes, ph) != PT_LOAD {
        Ok(None)
    } else if s.offset + s.filesz > bytes.len() {
        Err(ElfError::SegmentOutOfFile)
    } else if s.filesz > s.memsz {
        Err(ElfError::FileSizeExceedsMemSize)
    } else if s.vaddr + s.memsz > USER_SPACE_END {
        Err(ElfError::SegmentNotInUserSpace)
    } else if s.memsz == 0 {
        Ok(None)
    } else {
        Ok(Some(s))
    }
}

impl Segment {
    /// The segment lies in user space and in a file of `len` bytes.
    pub open spec fn wf(self, len: nat) -> bool {
        &&& self.offset + self.filesz <= len
        &&& self.filesz <= self.memsz
        &&& self.vaddr + self.memsz <= USER_SPACE_END
        &&& self.memsz > 0
    }

    /// Start of the first page of the segment.
    pub open spec fn first_page(self) -> int {
        paging::page_of(self.vaddr as int)
    }

    /// End of the last page of the segment.
    pub open spec fn pages_end(self) -> int {
        paging::page_of(self.vaddr + self.memsz - 1) + 4096
    }

    /// What the segment puts into memory: bytes of the file, then zeros.
    pub open spec fn image(self, bytes: Seq<u8>) -> Seq<u8> {
        bytes.subrange(self.offset as int, self.offset + self.filesz) + Seq::new(
            (self.memsz - self.filesz) as nat,
            |i: int| 0u8,
        )
    }
}

/// The page starts in `from .. to`.
pub open spec fn page_set(from: int, to: int) -> Set<u64> {
    Set::new(|p: u64| p % 4096 == 0 && from <= p < to)
}

/// Memory and the pages that this load has mapped, after one segment. The pages `shared` of the
/// kernel are mapped too.
pub open spec fn segment_loaded(
    m: MemView,
    shared: Set<u64>,
    mine: Set<u64>,
    bytes: Seq<u8>,
    s: Segment,
) -> Result<(MemView, Set<u64>), ElfError> {
    let pages = page_set(s.first_page(), s.pages_end());
    if exists|p: u64|
        #[trigger] pages.contains(p) && (m.pages.dom().contains(p) || shared.contains(p))
            && !mine.contains(p) {
        Err(ElfError::SegmentOverlapsExisting)
    } else {
        Ok(
            (
                m.with_pages(s.first_page(), s.pages_end()).written(
                    s.vaddr as int,
                    s.image(bytes),
                ),
                mine.union(pages),
            ),
        )
    }
}

/// Memory after the segments from number `i` on were loaded.
pub open spec fn segments_loaded(
    m: MemView,
    shared: Set<u64>,
    mine: Set<u64>,
    bytes: Seq<u8>,
    h: ElfHeader,
    i: int,
) -> Result<MemView, ElfError>
    decreases h.phnum - i,
{
    if i >= h.phnum {
        Ok(m)
    } else {
        match elf_segment(bytes, h.phoff + i * h.phentsize) {
            Err(e) => Err(e),
            Ok(None) => segments_loaded(m, shared, mine, bytes, h, i + 1),
            Ok(Some(s)) => match segment_loaded(m, shared, mine, bytes, s) {
                Err(e) => Err(e),
                Ok((m2, mine2)) => segments_loaded(m2, shared, mine2, bytes, h, i + 1),
            },
        }
    }
}

/// Entry point and memory after a file was loaded into memory `m`, where the kernel has the pages
/// `shared`.
pub open spec fn elf_loaded(m: MemView, shared: Set<u64>, bytes: Seq<u8>) -> Result<
    (u64, MemView),
    ElfError,
> {
    match elf_header(bytes) {
        Err(e) => Err(e),
        Ok(h) => match segments_loaded(m, shared, Set::empty(), bytes, h, 0) {
            Err(e) => Err(e),
            Ok(m2) => Ok((h.entry, m2)),
        },
    }
}

/// Reads the header of a file.
pub fn parse_header(bytes: &[u8]) -> (r: Result<ElfHeader, ElfError>)
    ensures
        r == elf_header(bytes@),
{
    assert(bytes.len() == bytes@.len());
    if bytes.len() < 64 {
        return Err(ElfError::TooSmall);
    }
    if !(bytes[0] == 0x7F && bytes[1] == 0x45 && bytes[2] == 0x4C && bytes[3] == 0x46) {
        return Err(ElfError::BadMagic);
    }
    if bytes[4] != 2 {
        return Err(ElfError::NotElf64);
    }
    if util::get_u16(bytes, 0x10) != ET_EXEC {
        return Err(ElfError::NotExecutable);
    }
    if util::get_u16(bytes, 0x12) != EM_X86_64 {
        return Err(ElfError::NotX86_64);
    }
    let entry = util::get_u64(bytes, 0x18);
    let phoff = util::get_u64(bytes, 0x20);
    let phentsize = util::get_u16(bytes, 0x36);
    let phnum = util::get_u16(bytes, 0x38);
    if phentsize < PH_ENTRY_SIZE {
        return Err(ElfError::BadProgramHeaderSize);
    }
    assert(phnum * phentsize <= 0xFFFF * 0xFFFF) by (nonlinear_arith)
        requires
            phnum <= 0xFFFF,
            phentsize <= 0xFFFF,
    ;
    let table = phnum as u64 * phentsize as u64;
    match phoff.checked_add(table) {
        None => Err(ElfError::TooSmall),
        Some(end) => {
            if end > bytes.len() as u64 {
                Err(ElfError::TooSmall)
            } else {
                Ok(ElfHeader { entry, phoff, phentsize, phnum })
            }
        },
    }
}

/// Reads the program header at `ph`.
fn parse_segment(bytes: &[u8], ph: usize) -> (r: Result<Option<Segment>, ElfError>)
    requires
        ph + PH_ENTRY_SIZE <= bytes@.len(),
    ensures
        r == elf_segment(bytes@, ph as int),
        r matches Ok(Some(s)) ==> s.wf(bytes@.len()),
{
    assert(bytes.len() == bytes@.len());
    if util::get_u32(bytes, ph) != PT_LOAD {
        return Ok(None);
    }
    let offset = util::get_u64(bytes, ph + 0x08);
    let vaddr = util::get_u64(bytes, ph + 0x10);
    let filesz = util::get_u64(bytes, ph + 0x20);
    let memsz = util::get_u64(bytes, ph + 0x28);
    match offset.checked_add(filesz) {
        None => {
            return Err(ElfError::SegmentOutOfFile);
        },
        Some(end) => {
            if end > bytes.len() as u64 {
                return Err(ElfError::SegmentOutOfFile);
            }
        },
    }
    if filesz > memsz {
        return Err(ElfError::FileSizeExceedsMemSize);
    }
    match vaddr.checked_add(memsz) {
        None => {
            return Err(ElfError::SegmentNotInUserSpace);
        },
        Some(end) => {
            if end > USER_SPACE_END {
                return Err(ElfError::SegmentNotInUserSpace);
            }
        },
    }
    if memsz == 0 {
        return Ok(None);
    }
    Ok(Some(Segment { offset, vaddr, filesz, memsz }))
}

/// Maps fresh pages at the page starts in `from .. to`, except where this load has mapped one
/// already. Fails where a page is mapped otherwise.
fn map_pages(
    mem: &mut UserMemory,
    shared: &KernelPages,
    mine: &mut BTreeSet<u64>,
    from: u64,
    to: u64,
) -> (r: bool)
    requires
        old(mem).wf(),
        from % 4096 == 0,
        to % 4096 == 0,
        from <= to <= USER_SPACE_END,
        forall|p: u64| old(mine)@.contains(p) ==> #[trigger] old(mem)@.pages.dom().contains(p),
    ensures
        r == !(exists|p: u64|
            #[trigger] page_set(from as int, to as int).contains(p)
                && (old(mem)@.pages.dom().contains(p) || shared@.contains(p))
                && !old(mine)@.contains(p)),
        r ==> {
            &&& final(mem).wf()
            &&& final(mem)@ == old(mem)@.with_pages(from as int, to as int)
            &&& final(mine)@ == old(mine)@.union(page_set(from as int, to as int))
            &&& forall|p: u64|
                final(mine)@.contains(p) ==> #[trigger] final(mem)@.pages.dom().contains(p)
        },
{
    let ghost m0 = mem@;
    let ghost mine0 = mine@;
    let mut page = from;
    assert(mem@.pages =~= m0.with_pages(from as int, from as int).pages);
    assert(mine@ =~= mine0.union(page_set(from as int, from as int)));
    while page < to
        invariant
            mem.wf(),
            m0 == old(mem)@,
            mine0 == old(mine)@,
            m0.wf(),
            from % 4096 == 0,
            page % 4096 == 0,
            to % 4096 == 0,
            from <= page <= to <= USER_SPACE_END,
            mem@ == m0.with_pages(from as int, page as int),
            mine@ == mine0.union(page_set(from as int, page as int)),
            forall|p: u64| mine0.contains(p) ==> #[trigger] m0.pages.dom().contains(p),
            forall|p: u64|
                #[trigger] page_set(from as int, page as int).contains(p) && (
                m0.pages.dom().contains(p) || shared@.contains(p)) ==> mine0.contains(p),
        decreases to - page,
    {
        if !mine.contains(&page) {
            if mem.is_mapped(page) || shared.holds(page) {
                proof {
                    assert(page_set(from as int, to as int).contains(page));
                    assert(m0.pages.dom().contains(page) || shared@.contains(page));
                }
                return false;
            }
            paging::map_user_page(mem, page);
            mine.insert(page);
        } else {
            assert(mine0.contains(page));
        }
        proof {
            assert(mem@.pages =~= m0.with_pages(from as int, page + 4096).pages);
            assert(mine@ =~= mine0.union(page_set(from as int, page + 4096))) by {
                assert forall|p: u64| page_set(from as int, page + 4096).contains(p) implies p == page
                    || page_set(from as int, page as int).contains(p) by {
                    if p > page {
                        assert(p % 4096 == 0 && page % 4096 == 0 && p < page + 4096);
                    }
                }
            }
            assert forall|p: u64|
                #[trigger] page_set(from as int, page + 4096).contains(p) && (
                m0.pages.dom().contains(p) || shared@.contains(p)) implies mine0.contains(p) by {
                if p != page {
                    assert(page_set(from as int, page as int).contains(p));
                }
            }
        }
        page += 4096;
    }
    true
}

/// Copies the bytes of a segment into memory and zeros what follows them.
fn fill_segment(mem: &mut UserMemory, bytes: &[u8], s: Segment)
    requires
        old(mem).wf(),
        s.wf(bytes@.len()),
        old(mem)@.all_mapped(s.vaddr as int, s.memsz as int),
    ensures
        final(mem).wf(),
        final(mem)@ == old(mem)@.written(s.vaddr as int, s.image(bytes@)),
{
    assert(bytes.len() == bytes@.len());
    let ghost m0 = mem@;
    let ghost part = bytes@.subrange(s.offset as int, s.offset + s.filesz);
    let chunk = vstd::slice::slice_subrange(
        bytes,
        s.offset as usize,
        (s.offset + s.filesz) as usize,
    );
    proof {
        assert(chunk@ =~= part);
        assert forall|a: int| s.vaddr <= a < s.vaddr + s.filesz implies #[trigger] m0.mapped(a) by {
        }
    }
    mem.write_range(s.vaddr, chunk);
    proof {
        paging::lemma_written(m0, s.vaddr as int, part);
        assert forall|a: int|
            s.vaddr + s.filesz <= a < s.vaddr + s.memsz implies #[trigger] mem@.mapped(a) by {
            assert(m0.mapped(a));
        }
    }
    mem.fill_zero(s.vaddr + s.filesz, s.memsz - s.filesz);
    proof {
        let zeros = Seq::new((s.memsz - s.filesz) as nat, |i: int| 0u8);
        paging::lemma_written_twice(m0, s.vaddr as int, part, zeros);
    }
}

/// The pages of a segment cover it.
proof fn lemma_segment_covered(m: MemView, s: Segment, len: nat)
    requires
        s.wf(len),
    ensures
        m.with_pages(s.first_page(), s.pages_end()).all_mapped(s.vaddr as int, s.memsz as int),
        s.first_page() >= 0,
        s.first_page() % 4096 == 0,
        s.pages_end() % 4096 == 0,
        s.pages_end() <= USER_SPACE_END,
{
    let m2 = m.with_pages(s.first_page(), s.pages_end());
    assert forall|a: int| s.vaddr <= a < s.vaddr + s.memsz implies #[trigger] m2.mapped(a) by {
        let p = paging::page_of(a);
        assert(p % 4096 == 0);
        assert(s.first_page() <= p < s.pages_end());
    }
}

/// Loads one segment. Fails where one of its pages is mapped already and not by this load.
fn load_segment(
    mem: &mut UserMemory,
    shared: &KernelPages,
    mine: &mut BTreeSet<u64>,
    bytes: &[u8],
    s: Segment,
) -> (r: bool)
    requires
        old(mem).wf(),
        s.wf(bytes@.len()),
        forall|p: u64| old(mine)@.contains(p) ==> #[trigger] old(mem)@.pages.dom().contains(p),
    ensures
        match segment_loaded(old(mem)@, shared@, old(mine)@, bytes@, s) {
            Err(e) => !r && e == ElfError::SegmentOverlapsExisting,
            Ok((m2, mine2)) => {
                &&& r
                &&& final(mem).wf()
                &&& final(mem)@ == m2
                &&& final(mine)@ == mine2
                &&& forall|p: u64|
                    final(mine)@.contains(p) ==> #[trigger] final(mem)@.pages.dom().contains(p)
            },
        },
{
    proof {
        lemma_segment_covered(mem@, s, bytes@.len());
    }
    let first = s.vaddr - s.vaddr % 4096;
    let last = s.vaddr + s.memsz - 1;
    let end = last - last % 4096 + 4096;
    if !map_pages(mem, shared, mine, first, end) {
        return false;
    }
    let ghost mapped = mem@;
    fill_segment(mem, bytes, s);
    proof {
        paging::lemma_written(mapped, s.vaddr as int, s.image(bytes@));
    }
    true
}

/// Loads a static ELF64 executable into `mem`: maps the pages of its segments, copies their bytes
/// and zeros what follows. A segment that lies on the pages `shared` of the kernel is refused.
/// Returns the entry point and the memory. A file that cannot be loaded uses `mem` up.
pub fn load(bytes: &[u8], mem: UserMemory, shared: &KernelPages) -> (r: Result<
    (u64, UserMemory),
    ElfError,
>)
    requires
        mem.wf(),
    ensures
        match elf_loaded(mem@, shared@, bytes@) {
            Err(e) => r matches Err(e2) && e2 == e,
            Ok((entry, m2)) => r matches Ok(x) && x.0 == entry && x.1@ == m2 && x.1.wf(),
        },
{
    let h = match parse_header(bytes) {
        Ok(h) => h,
        Err(e) => {
            return Err(e);
        },
    };
    assert(bytes.len() == bytes@.len());
    let ghost m0 = mem@;
    let mut space = mem;
    let mut mine: BTreeSet<u64> = BTreeSet::new();
    let mut i: u16 = 0;
    while i < h.phnum
        invariant
            space.wf(),
            m0 == mem@,
            elf_header(bytes@) == Ok::<ElfHeader, ElfError>(h),
            bytes@.len() <= usize::MAX,
            i <= h.phnum,
            forall|p: u64| mine@.contains(p) ==> #[trigger] space@.pages.dom().contains(p),
            segments_loaded(m0, shared@, Set::empty(), bytes@, h, 0) == segments_loaded(
                space@,
                shared@,
                mine@,
                bytes@,
                h,
                i as int,
            ),
        decreases h.phnum - i,
    {
        proof {
            let n = h.phnum as int;
            let size = h.phentsize as int;
            assert(0 <= i * size && i * size + size <= n * size) by (nonlinear_arith)
                requires
                    0 <= i < n,
                    size >= 0,
            ;
            assert(n * size == h.phnum * h.phentsize);
        }
        let ph = h.phoff as usize + i as usize * h.phentsize as usize;
        match parse_segment(bytes, ph) {
            Err(e) => {
                return Err(e);
            },
            Ok(None) => {},
            Ok(Some(s)) => {
                if !load_segment(&mut space, shared, &mut mine, bytes, s) {
                    return Err(ElfError::SegmentOverlapsExisting);
                }
            },
        }
        i += 1;
    }
    Ok((h.entry, space))
}


/// A loaded segment stands in memory at its address: its bytes of the file, then zeros, on pages
/// that user mode may access.
pub proof fn law_segment_stands_in_memory(
    m: MemView,
    shared: Set<u64>,
    mine: Set<u64>,
    bytes: Seq<u8>,
    s: Segment,
)
    requires
        m.wf(),
        s.wf(bytes.len()),
        forall|p: u64|
            mine.contains(p) ==> #[trigger] m.pages.dom().contains(p) && m.pages[p].user
                && m.pages[p].writable,
        segment_loaded(m, shared, mine, bytes, s) is Ok,
    ensures
        ({
            let m2 = segment_loaded(m, shared, mine, bytes, s)->Ok_0.0;
            &&& m2.bytes(s.vaddr as int, s.memsz as nat) == s.image(bytes)
            &&& m2.accessible(s.vaddr, s.memsz, true)
        }),
{
    lemma_segment_covered(m, s, bytes.len());
    let pages = page_set(s.first_page(), s.pages_end());
    let w = m.with_pages(s.first_page(), s.pages_end());
    let image = s.image(bytes);
    let m2 = w.written(s.vaddr as int, image);
    paging::lemma_written(w, s.vaddr as int, image);
    assert(image.len() == s.memsz);
    assert forall|i: int| 0 <= i < s.memsz implies m2.byte(s.vaddr + i) == image[i] by {
        assert(w.mapped(s.vaddr + i));
    }
    assert(m2.bytes(s.vaddr as int, s.memsz as nat) =~= image);
    assert forall|a: int| s.vaddr <= a < s.vaddr + s.memsz implies #[trigger] m2.user_ok(a, true) by {
        assert(w.mapped(a));
        assert(m2.mapped(a));
        let p = paging::page_of(a) as u64;
        assert(pages.contains(p));
        assert(w.pages.dom().contains(p));
        assert(m2.pages[p].user == w.pages[p].user);
        assert(m2.pages[p].writable == w.pages[p].writable);
    }
}

/// Loading overwrites nothing that was mapped before.
pub proof fn law_load_keeps_existing_pages(m: MemView, shared: Set<u64>, bytes: Seq<u8>, p: u64)
    requires
        m.wf(),
        m.pages.dom().contains(p),
        elf_loaded(m, shared, bytes) is Ok,
    ensures
        elf_loaded(m, shared, bytes)->Ok_0.1.pages.dom().contains(p),
        elf_loaded(m, shared, bytes)->Ok_0.1.pages[p] == m.pages[p],
{
    let h = elf_header(bytes)->Ok_0;
    lemma_segments_keep(m, shared, Set::empty(), bytes, h, 0, p);
}

proof fn lemma_segment_keeps(
    m: MemView,
    shared: Set<u64>,
    mine: Set<u64>,
    bytes: Seq<u8>,
    s: Segment,
    p: u64,
)
    requires
        m.wf(),
        s.wf(bytes.len()),
        m.pages.dom().contains(p),
        !mine.contains(p),
        segment_loaded(m, shared, mine, bytes, s) is Ok,
    ensures
        segment_loaded(m, shared, mine, bytes, s)->Ok_0.0.wf(),
        segment_loaded(m, shared, mine, bytes, s)->Ok_0.0.pages.dom().contains(p),
        segment_loaded(m, shared, mine, bytes, s)->Ok_0.0.pages[p] == m.pages[p],
        !segment_loaded(m, shared, mine, bytes, s)->Ok_0.1.contains(p),
{
    let pages = page_set(s.first_page(), s.pages_end());
    assert(!pages.contains(p));
    let m2 = segment_loaded(m, shared, mine, bytes, s)->Ok_0.0;
    let w = m.with_pages(s.first_page(), s.pages_end());
    assert forall|q: u64| #[trigger] w.pages.dom().contains(q) implies q % 4096 == 0
        && w.pages[q].data.len() == 4096 by {
        if m.pages.dom().contains(q) {
            assert(w.pages[q] == m.pages[q]);
        }
    }
    paging::lemma_written(w, s.vaddr as int, s.image(bytes));
    lemma_segment_covered(m, s, bytes.len());
    assert(w.pages[p] == m.pages[p]);
    assert(p + 4096 <= s.first_page() || s.pages_end() <= p);
    assert(m2.pages[p].data =~= m.pages[p].data);
    assert(m2.pages[p] =~= m.pages[p]);
}

proof fn lemma_segments_keep(
    m: MemView,
    shared: Set<u64>,
    mine: Set<u64>,
    bytes: Seq<u8>,
    h: ElfHeader,
    i: int,
    p: u64,
)
    requires
        m.wf(),
        m.pages.dom().contains(p),
        !mine.contains(p),
        segments_loaded(m, shared, mine, bytes, h, i) is Ok,
    ensures
        segments_loaded(m, shared, mine, bytes, h, i)->Ok_0.pages.dom().contains(p),
        segments_loaded(m, shared, mine, bytes, h, i)->Ok_0.pages[p] == m.pages[p],
    decreases h.phnum - i,
{
    if i < h.phnum {
        match elf_segment(bytes, h.phoff + i * h.phentsize)->Ok_0 {
            None => {
                lemma_segments_keep(m, shared, mine, bytes, h, i + 1, p);
            },
            Some(s) => {
                lemma_segment_keeps(m, shared, mine, bytes, s, p);
                let (m2, mine2) = segment_loaded(m, shared, mine, bytes, s)->Ok_0;
                lemma_segments_keep(m2, shared, mine2, bytes, h, i + 1, p);
            },
        }
    }
}

/// Loading maps no page that the kernel has: a file with a segment there is refused.
pub proof fn law_load_spares_the_kernel(m: MemView, shared: Set<u64>, bytes: Seq<u8>, p: u64)
    requires
        shared.contains(p),
        !m.pages.dom().contains(p),
        elf_loaded(m, shared, bytes) is Ok,
    ensures
        !elf_loaded(m, shared, bytes)->Ok_0.1.pages.dom().contains(p),
{
    let h = elf_header(bytes)->Ok_0;
    lemma_segments_spare(m, shared, Set::empty(), bytes, h, 0, p);
}

/// A segment that lies on a page of the kernel is refused, and with it the file.
pub proof fn law_segment_on_a_kernel_page_is_refused(
    m: MemView,
    shared: Set<u64>,
    mine: Set<u64>,
    bytes: Seq<u8>,
    s: Segment,
    p: u64,
)
    requires
        shared.contains(p),
        !mine.contains(p),
        page_set(s.first_page(), s.pages_end()).contains(p),
    ensures
        segment_loaded(m, shared, mine, bytes, s) == Err::<(MemView, Set<u64>), ElfError>(
            ElfError::SegmentOverlapsExisting,
        ),
{
}

proof fn lemma_segments_spare(
    m: MemView,
    shared: Set<u64>,
    mine: Set<u64>,
    bytes: Seq<u8>,
    h: ElfHeader,
    i: int,
    p: u64,
)
    requires
        shared.contains(p),
        !m.pages.dom().contains(p),
        !mine.contains(p),
        segments_loaded(m, shared, mine, bytes, h, i) is Ok,
    ensures
        !segments_loaded(m, shared, mine, bytes, h, i)->Ok_0.pages.dom().contains(p),
    decreases h.phnum - i,
{
    if i < h.phnum {
        match elf_segment(bytes, h.phoff + i * h.phentsize)->Ok_0 {
            None => {
                lemma_segments_spare(m, shared, mine, bytes, h, i + 1, p);
            },
            Some(s) => {
                let pages = page_set(s.first_page(), s.pages_end());
                assert(!pages.contains(p));
                let (m2, mine2) = segment_loaded(m, shared, mine, bytes, s)->Ok_0;
                assert(!m2.pages.dom().contains(p));
                lemma_segments_spare(m2, shared, mine2, bytes, h, i + 1, p);
            },
        }
    }
}

} // verus!
