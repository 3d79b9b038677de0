//! What holds of a program file that was loaded, as a whole.

use crate::mm::paging::{self, MemView};
use crate::syscall::elf::{self, ElfError, ElfHeader, Segment};
use crate::util;
use vstd::prelude::*;

verus! {

/// Number of program headers of a file.
pub open spec fn headers(bytes: Seq<u8>) -> int {
    util::le16(bytes, 0x38) as int
}

/// Where program header `i` of a file stands.
pub open spec fn header_at(bytes: Seq<u8>, i: int) -> int {
    util::le64(bytes, 0x20) + i * util::le16(bytes, 0x36)
}

/// Where in the file the bytes of program header `i` stand.
pub open spec fn p_offset(bytes: Seq<u8>, i: int) -> int {
    util::le64(bytes, header_at(bytes, i) + 8) as int
}

/// Where in memory they go.
pub open spec fn p_vaddr(bytes: Seq<u8>, i: int) -> int {
    util::le64(bytes, header_at(bytes, i) + 16) as int
}

/// How many there are.
pub open spec fn p_filesz(bytes: Seq<u8>, i: int) -> int {
    util::le64(bytes, header_at(bytes, i) + 32) as int
}

/// How many bytes of memory program header `i` asks for.
pub open spec fn p_memsz(bytes: Seq<u8>, i: int) -> int {
    util::le64(bytes, header_at(bytes, i) + 40) as int
}

/// Whether something is to be loaded for program header `i`: its type is 1, and it asks for memory.
pub open spec fn to_load(bytes: Seq<u8>, i: int) -> bool {
    0 <= i < headers(bytes) && util::le32(bytes, header_at(bytes, i)) == 1 && p_memsz(bytes, i) > 0
}

/// What is loaded for program header `i` and for `j` shares no address.
pub open spec fn apart(bytes: Seq<u8>, i: int, j: int) -> bool {
    p_vaddr(bytes, i) + p_memsz(bytes, i) <= p_vaddr(bytes, j) || p_vaddr(bytes, j) + p_memsz(
        bytes,
        j,
    ) <= p_vaddr(bytes, i)
}

/// The page at `p` holds a byte of what is loaded for program header `i`.
pub open spec fn on_page(bytes: Seq<u8>, i: int, p: int) -> bool {
    p < p_vaddr(bytes, i) + p_memsz(bytes, i) && p_vaddr(bytes, i) < p + 4096
}

/// What this load has mapped, user mode may write to.
spec fn mine_ok(m: MemView, mine: Set<u64>) -> bool {
    forall|p: u64|
        mine.contains(p) ==> #[trigger] m.pages.dom().contains(p) && m.pages[p].user
            && m.pages[p].writable
}

/// Program header `i` as it is read.
proof fn lemma_header(bytes: Seq<u8>, h: ElfHeader, i: int)
    requires
        elf::elf_header(bytes) == Ok::<ElfHeader, ElfError>(h),
        0 <= i < h.phnum,
    ensures
        h.phnum == headers(bytes),
        h.phoff + i * h.phentsize == header_at(bytes, i),
        elf::elf_segment(bytes, header_at(bytes, i)) matches Ok(r) ==> {
            &&& to_load(bytes, i) ==> {
                &&& r is Some
                &&& r->0.offset == p_offset(bytes, i)
                &&& r->0.vaddr == p_vaddr(bytes, i)
                &&& r->0.filesz == p_filesz(bytes, i)
                &&& r->0.memsz == p_memsz(bytes, i)
                &&& r->0.wf(bytes.len())
            }
            &&& !to_load(bytes, i) ==> r is None
        },
{
}

/// One segment: it stands in memory, and what lies apart from it stays.
proof fn lemma_one(
    m: MemView,
    shared: Set<u64>,
    mine: Set<u64>,
    bytes: Seq<u8>,
    s: Segment,
    start: int,
    len: nat,
)
    requires
        m.wf(),
        mine_ok(m, mine),
        s.wf(bytes.len()),
        elf::segment_loaded(m, shared, mine, bytes, s) is Ok,
    ensures
        ({
            let (m2, mine2) = elf::segment_loaded(m, shared, mine, bytes, s)->Ok_0;
            &&& m2.wf()
            &&& mine_ok(m2, mine2)
            &&& m2.accessible(s.vaddr, s.memsz, true)
            &&& m2.bytes(s.vaddr as int, s.memsz as nat) == s.image(bytes)
            &&& forall|a: int| m.user_ok(a, true) ==> #[trigger] m2.user_ok(a, true)
            &&& m.all_mapped(start, len as int) && (start + len <= s.vaddr || s.vaddr + s.memsz
                <= start) ==> m2.all_mapped(start, len as int) && m2.bytes(start, len) == m.bytes(
                start,
                len,
            )
            &&& forall|p: u64| #[trigger]
                m2.pages.dom().contains(p) ==> m.pages.dom().contains(p) || (p < s.vaddr + s.memsz
                    && s.vaddr < p + 4096)
        }),
{
    elf::law_segment_stands_in_memory(m, shared, mine, bytes, s);
    let (m2, mine2) = elf::segment_loaded(m, shared, mine, bytes, s)->Ok_0;
    let w = m.with_pages(s.first_page(), s.pages_end());
    let image = s.image(bytes);
    assert(w.wf()) by {
        assert forall|q: u64| #[trigger] w.pages.dom().contains(q) implies q % 4096 == 0
            && w.pages[q].data.len() == 4096 by {
            if m.pages.dom().contains(q) {
                assert(w.pages[q] == m.pages[q]);
            }
        }
    }
    paging::lemma_written(w, s.vaddr as int, image);
    assert forall|p: u64| mine2.contains(p) implies #[trigger] m2.pages.dom().contains(p)
        && m2.pages[p].user && m2.pages[p].writable by {
        assert(w.pages.dom().contains(p));
        if mine.contains(p) {
            assert(m.pages.dom().contains(p));
            assert(w.pages[p] == m.pages[p]);
        } else {
            assert(elf::page_set(s.first_page(), s.pages_end()).contains(p));
        }
    }
    assert forall|a: int| m.user_ok(a, true) implies #[trigger] m2.user_ok(a, true) by {
        let p = paging::page_of(a) as u64;
        assert(w.pages.dom().contains(p) && w.pages[p] == m.pages[p]);
    }
    assert(image.len() == s.memsz);
    if m.all_mapped(start, len as int) && (start + len <= s.vaddr || s.vaddr + s.memsz <= start) {
        assert forall|a: int| start <= a < start + len implies #[trigger] w.mapped(a) && m2.mapped(a)
            && w.byte(a) == m.byte(a) by {
            assert(m.mapped(a));
        }
        paging::lemma_bytes_apart(w, s.vaddr as int, image, start, len);
        assert forall|j: int| 0 <= j < len implies #[trigger] w.bytes(start, len)[j] == m.bytes(
            start,
            len,
        )[j] by {
            assert(w.mapped(start + j));
        }
        assert(w.bytes(start, len) =~= m.bytes(start, len));
    }
    assert forall|p: u64| #[trigger] m2.pages.dom().contains(p) implies m.pages.dom().contains(p) || (p
        < s.vaddr + s.memsz && s.vaddr < p + 4096) by {
        if !m.pages.dom().contains(p) {
            assert(p % 4096 == 0 && s.first_page() <= p < s.pages_end());
        }
    }
}

/// The segments from `i` on: a range that was written stays where all of them lie apart from it,
/// and all of them can be accessed.
proof fn lemma_rest(
    m: MemView,
    shared: Set<u64>,
    mine: Set<u64>,
    bytes: Seq<u8>,
    h: ElfHeader,
    i: int,
    start: int,
    len: nat,
)
    requires
        m.wf(),
        mine_ok(m, mine),
        elf::elf_header(bytes) == Ok::<ElfHeader, ElfError>(h),
        0 <= i,
        elf::segments_loaded(m, shared, mine, bytes, h, i) is Ok,
    ensures
        ({
            let m2 = elf::segments_loaded(m, shared, mine, bytes, h, i)->Ok_0;
            &&& m2.wf()
            &&& forall|a: int| m.user_ok(a, true) ==> #[trigger] m2.user_ok(a, true)
            &&& m.all_mapped(start, len as int) && (forall|j: int|
                i <= j && #[trigger] to_load(bytes, j) ==> start + len <= p_vaddr(bytes, j)
                    || p_vaddr(bytes, j) + p_memsz(bytes, j) <= start) ==> m2.bytes(start, len)
                == m.bytes(start, len)
            &&& forall|p: u64| #[trigger]
                m2.pages.dom().contains(p) ==> m.pages.dom().contains(p) || exists|j: int|
                    i <= j && #[trigger] to_load(bytes, j) && on_page(bytes, j, p as int)
        }),
    decreases h.phnum - i,
{
    if i < h.phnum {
        lemma_header(bytes, h, i);
        match elf::elf_segment(bytes, header_at(bytes, i))->Ok_0 {
            None => {
                lemma_rest(m, shared, mine, bytes, h, i + 1, start, len);
            },
            Some(s) => {
                lemma_one(m, shared, mine, bytes, s, start, len);
                let (m1, mine1) = elf::segment_loaded(m, shared, mine, bytes, s)->Ok_0;
                lemma_rest(m1, shared, mine1, bytes, h, i + 1, start, len);
                let m2 = elf::segments_loaded(m1, shared, mine1, bytes, h, i + 1)->Ok_0;
                assert forall|a: int| m.user_ok(a, true) implies #[trigger] m2.user_ok(a, true) by {
                    assert(m1.user_ok(a, true));
                }
                assert(to_load(bytes, i));
                assert forall|p: u64| #[trigger] m2.pages.dom().contains(p) implies
                    m.pages.dom().contains(p) || exists|j: int|
                    i <= j && #[trigger] to_load(bytes, j) && on_page(bytes, j, p as int) by {
                    if m1.pages.dom().contains(p) && !m.pages.dom().contains(p) {
                        assert(on_page(bytes, i, p as int));
                    }
                }
            },
        }
    }
}

/// Segment `j` of those from `i` on stands in memory in the end.
proof fn lemma_stands(
    m: MemView,
    shared: Set<u64>,
    mine: Set<u64>,
    bytes: Seq<u8>,
    h: ElfHeader,
    i: int,
    j: int,
)
    requires
        m.wf(),
        mine_ok(m, mine),
        elf::elf_header(bytes) == Ok::<ElfHeader, ElfError>(h),
        0 <= i <= j,
        to_load(bytes, j),
        elf::segments_loaded(m, shared, mine, bytes, h, i) is Ok,
    ensures
        ({
            let m2 = elf::segments_loaded(m, shared, mine, bytes, h, i)->Ok_0;
            let s = elf::elf_segment(bytes, header_at(bytes, j))->Ok_0->0;
            &&& elf::elf_segment(bytes, header_at(bytes, j)) matches Ok(Some(_))
            &&& m2.accessible(s.vaddr, s.memsz, true)
            &&& (forall|l: int| j < l && #[trigger] to_load(bytes, l) ==> apart(bytes, j, l))
                ==> m2.bytes(s.vaddr as int, s.memsz as nat) == s.image(bytes)
        }),
    decreases h.phnum - i,
{
    lemma_header(bytes, h, i);
    match elf::elf_segment(bytes, header_at(bytes, i))->Ok_0 {
        None => {
            lemma_stands(m, shared, mine, bytes, h, i + 1, j);
        },
        Some(s) => {
            lemma_one(m, shared, mine, bytes, s, 0, 0);
            let (m1, mine1) = elf::segment_loaded(m, shared, mine, bytes, s)->Ok_0;
            if i < j {
                lemma_stands(m1, shared, mine1, bytes, h, i + 1, j);
            } else {
                lemma_rest(
                    m1,
                    shared,
                    mine1,
                    bytes,
                    h,
                    i + 1,
                    s.vaddr as int,
                    s.memsz as nat,
                );
                let m2 = elf::segments_loaded(m1, shared, mine1, bytes, h, i + 1)->Ok_0;
                assert(m1.all_mapped(s.vaddr as int, s.memsz as int)) by {
                    assert forall|a: int| s.vaddr <= a < s.vaddr + s.memsz implies #[trigger]
                        m1.mapped(a) by {
                        assert(m1.user_ok(a, true));
                    }
                }
                assert forall|a: int| s.vaddr <= a < s.vaddr + s.memsz implies #[trigger] m2.user_ok(
                    a,
                    true,
                ) by {
                    assert(m1.user_ok(a, true));
                }
                if forall|l: int| j < l && #[trigger] to_load(bytes, l) ==> apart(bytes, j, l) {
                    assert forall|l: int| i + 1 <= l && #[trigger] to_load(bytes, l) implies s.vaddr
                        + s.memsz <= p_vaddr(bytes, l) || p_vaddr(bytes, l) + p_memsz(bytes, l)
                        <= s.vaddr by {
                        assert(apart(bytes, j, l));
                    }
                }
            }
        },
    }
}

/// A program that was loaded is in memory whole. For every program header of a file that asks for
/// memory, user mode may read and write all of it, and where no later one lies on it, it holds the
/// bytes of the file and zeros behind them. The program starts where the file says.
pub proof fn law_loaded_program_stands_in_memory(
    m: MemView,
    shared: Set<u64>,
    bytes: Seq<u8>,
    i: int,
    a: int,
)
    requires
        m.wf(),
        elf::elf_loaded(m, shared, bytes) is Ok,
        to_load(bytes, i),
        p_vaddr(bytes, i) <= a < p_vaddr(bytes, i) + p_memsz(bytes, i),
    ensures
        ({
            let (entry, m2) = elf::elf_loaded(m, shared, bytes)->Ok_0;
            let n = a - p_vaddr(bytes, i);
            &&& entry == util::le64(bytes, 0x18)
            &&& m2.user_ok(a, true)
            &&& (forall|j: int| i < j && #[trigger] to_load(bytes, j) ==> apart(bytes, i, j))
                ==> m2.byte(a) == (if n < p_filesz(bytes, i) {
                bytes[p_offset(bytes, i) + n]
            } else {
                0
            })
        }),
{
    let h = elf::elf_header(bytes)->Ok_0;
    lemma_stands(m, shared, Set::empty(), bytes, h, 0, i);
    lemma_header(bytes, h, i);
    let m2 = elf::elf_loaded(m, shared, bytes)->Ok_0.1;
    let s = elf::elf_segment(bytes, header_at(bytes, i))->Ok_0->0;
    assert(m2.bytes(s.vaddr as int, s.memsz as nat)[a - s.vaddr] == m2.byte(a));
}

/// Loading maps nothing but the pages of the segments.
pub proof fn law_load_maps_the_segments_only(m: MemView, shared: Set<u64>, bytes: Seq<u8>, p: u64)
    requires
        m.wf(),
        elf::elf_loaded(m, shared, bytes) is Ok,
        elf::elf_loaded(m, shared, bytes)->Ok_0.1.pages.dom().contains(p),
    ensures
        m.pages.dom().contains(p) || exists|j: int| #[trigger]
            to_load(bytes, j) && on_page(bytes, j, p as int),
{
    let h = elf::elf_header(bytes)->Ok_0;
    lemma_rest(m, shared, Set::empty(), bytes, h, 0, 0, 0);
}

/// A file starts as an executable for this machine does: the signature, 64 bits, type 2, machine
/// 0x3E, program headers of 56 bytes at least, all of them in the file.
pub open spec fn is_program(bytes: Seq<u8>) -> bool {
    &&& bytes.len() >= 64
    &&& bytes[0] == 0x7F && bytes[1] == 'E' as u8 && bytes[2] == 'L' as u8 && bytes[3] == 'F' as u8
    &&& bytes[4] == 2
    &&& util::le16(bytes, 0x10) == 2
    &&& util::le16(bytes, 0x12) == 0x3E
    &&& util::le16(bytes, 0x36) >= 56
    &&& header_at(bytes, headers(bytes)) <= bytes.len()
}

/// A program header of type 1 is in order: its bytes are in the file and no more than the memory
/// that it asks for, which lies in the lower half of the addresses.
pub open spec fn header_ok(bytes: Seq<u8>, i: int) -> bool {
    util::le32(bytes, header_at(bytes, i)) == 1 ==> {
        &&& p_offset(bytes, i) + p_filesz(bytes, i) <= bytes.len()
        &&& p_filesz(bytes, i) <= p_memsz(bytes, i)
        &&& p_vaddr(bytes, i) + p_memsz(bytes, i) <= 0x0000_8000_0000_0000
    }
}

/// The segments from `i` on are loaded where all are in order and on pages that are free.
proof fn lemma_succeeds(
    m0: MemView,
    m: MemView,
    shared: Set<u64>,
    mine: Set<u64>,
    bytes: Seq<u8>,
    h: ElfHeader,
    i: int,
)
    requires
        elf::elf_header(bytes) == Ok::<ElfHeader, ElfError>(h),
        0 <= i,
        forall|p: u64| #[trigger] m.pages.dom().contains(p) ==> m0.pages.dom().contains(p)
            || mine.contains(p),
        forall|j: int| 0 <= j < headers(bytes) ==> #[trigger] header_ok(bytes, j),
        forall|j: int, p: u64| #[trigger]
            to_load(bytes, j) && #[trigger] on_page(bytes, j, p as int) && p % 4096 == 0
                ==> !m0.pages.dom().contains(p) && !shared.contains(p),
    ensures
        elf::segments_loaded(m, shared, mine, bytes, h, i) is Ok,
    decreases h.phnum - i,
{
    if i < h.phnum {
        lemma_header(bytes, h, i);
        assert(header_ok(bytes, i));
        match elf::elf_segment(bytes, header_at(bytes, i))->Ok_0 {
            None => {
                lemma_succeeds(m0, m, shared, mine, bytes, h, i + 1);
            },
            Some(s) => {
                let pages = elf::page_set(s.first_page(), s.pages_end());
                assert(to_load(bytes, i));
                assert forall|p: u64| #[trigger] pages.contains(p) implies !((m.pages.dom().contains(p)
                    || shared.contains(p)) && !mine.contains(p)) by {
                    assert(on_page(bytes, i, p as int));
                }
                let (m1, mine1) = elf::segment_loaded(m, shared, mine, bytes, s)->Ok_0;
                lemma_succeeds(m0, m1, shared, mine1, bytes, h, i + 1);
            },
        }
    }
}

/// An executable for this machine is loaded where all its segments are in order and lie on pages
/// that neither the process nor the kernel has.
pub proof fn law_good_program_is_loaded(m: MemView, shared: Set<u64>, bytes: Seq<u8>)
    requires
        is_program(bytes),
        forall|j: int| 0 <= j < headers(bytes) ==> #[trigger] header_ok(bytes, j),
        forall|j: int, p: u64| #[trigger]
            to_load(bytes, j) && #[trigger] on_page(bytes, j, p as int) && p % 4096 == 0
                ==> !m.pages.dom().contains(p) && !shared.contains(p),
    ensures
        elf::elf_loaded(m, shared, bytes) is Ok,
{
    let h = elf::elf_header(bytes)->Ok_0;
    lemma_succeeds(m, m, shared, Set::empty(), bytes, h, 0);
}

/// The segments from `i` on are not loaded where one of them is not in order.
proof fn lemma_bad_header(
    m: MemView,
    shared: Set<u64>,
    mine: Set<u64>,
    bytes: Seq<u8>,
    h: ElfHeader,
    i: int,
    j: int,
)
    requires
        elf::elf_header(bytes) == Ok::<ElfHeader, ElfError>(h),
        0 <= i <= j < headers(bytes),
        !header_ok(bytes, j),
    ensures
        elf::segments_loaded(m, shared, mine, bytes, h, i) is Err,
    decreases h.phnum - i,
{
    lemma_header(bytes, h, i);
    if let Ok(r) = elf::elf_segment(bytes, header_at(bytes, i)) {
        match r {
            None => {
                lemma_bad_header(m, shared, mine, bytes, h, i + 1, j);
            },
            Some(s) => {
                if let Ok((m1, mine1)) = elf::segment_loaded(m, shared, mine, bytes, s) {
                    lemma_bad_header(m1, shared, mine1, bytes, h, i + 1, j);
                }
            },
        }
    }
}

/// The pages of a segment.
proof fn lemma_pages(s: Segment, len: nat, p: u64)
    requires
        s.wf(len),
        p % 4096 == 0,
    ensures
        elf::page_set(s.first_page(), s.pages_end()).contains(p) == (p < s.vaddr + s.memsz && s.vaddr
            < p + 4096),
{
}

/// One segment does not lie on a page that is taken, and the page stays taken.
proof fn lemma_one_taken(
    m: MemView,
    shared: Set<u64>,
    mine: Set<u64>,
    bytes: Seq<u8>,
    s: Segment,
    p: u64,
)
    requires
        s.wf(bytes.len()),
        p % 4096 == 0,
        m.pages.dom().contains(p) || shared.contains(p),
        !mine.contains(p),
        elf::segment_loaded(m, shared, mine, bytes, s) is Ok,
    ensures
        !(p < s.vaddr + s.memsz && s.vaddr < p + 4096),
        ({
            let (m1, mine1) = elf::segment_loaded(m, shared, mine, bytes, s)->Ok_0;
            (m1.pages.dom().contains(p) || shared.contains(p)) && !mine1.contains(p)
        }),
{
    lemma_pages(s, bytes.len(), p);
    let pages = elf::page_set(s.first_page(), s.pages_end());
    assert(!pages.contains(p));
}

/// The segments from `i` on are not loaded where one of them lies on a page that is taken.
proof fn lemma_taken_page(
    m: MemView,
    shared: Set<u64>,
    mine: Set<u64>,
    bytes: Seq<u8>,
    h: ElfHeader,
    i: int,
    j: int,
    p: u64,
)
    requires
        elf::elf_header(bytes) == Ok::<ElfHeader, ElfError>(h),
        0 <= i <= j < headers(bytes),
        to_load(bytes, j),
        on_page(bytes, j, p as int),
        p % 4096 == 0,
        m.pages.dom().contains(p) || shared.contains(p),
        !mine.contains(p),
    ensures
        elf::segments_loaded(m, shared, mine, bytes, h, i) is Err,
    decreases h.phnum - i,
{
    lemma_header(bytes, h, i);
    if let Ok(r) = elf::elf_segment(bytes, header_at(bytes, i)) {
        match r {
            None => {
                lemma_taken_page(m, shared, mine, bytes, h, i + 1, j, p);
            },
            Some(s) => {
                if let Ok((m1, mine1)) = elf::segment_loaded(m, shared, mine, bytes, s) {
                    lemma_one_taken(m, shared, mine, bytes, s, p);
                    lemma_taken_page(m1, shared, mine1, bytes, h, i + 1, j, p);
                }
            },
        }
    }
}

/// A file that is no executable for this machine is refused, and so is one with a segment that is
/// not in order, or that lies on a page `p` that the process or the kernel has.
pub proof fn law_bad_program_is_refused(m: MemView, shared: Set<u64>, bytes: Seq<u8>, j: int, p: u64)
    requires
        !is_program(bytes) || (0 <= j < headers(bytes) && (!header_ok(bytes, j) || (to_load(bytes, j)
            && on_page(bytes, j, p as int) && p % 4096 == 0 && (m.pages.dom().contains(p)
            || shared.contains(p))))),
    ensures
        elf::elf_loaded(m, shared, bytes) is Err,
{
    if let Ok(h) = elf::elf_header(bytes) {
        if !header_ok(bytes, j) {
            lemma_bad_header(m, shared, Set::empty(), bytes, h, 0, j);
        } else {
            lemma_taken_page(m, shared, Set::empty(), bytes, h, 0, j, p);
        }
    }
}

} // verus!
