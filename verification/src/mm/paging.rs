//! User memory: the pages that an address space maps, their permissions and what they hold.

use std::collections::BTreeMap;
use vstd::prelude::*;

verus! {

/// Size of a page in bytes.
pub const PAGE_SIZE: u64 = 4096;

/// Start of the page in which an address lies.
pub open spec fn page_of(addr: int) -> int {
    addr - addr % 4096
}

/// A page.
#[derive(Clone)]
pub struct UserPage {
    /// Whether user mode may access it.
    pub user: bool,
    /// Whether it may be written to.
    pub writable: bool,
    /// Its bytes.
    pub data: Vec<u8>,
}

/// What a [`UserPage`] holds.
#[verifier::ext_equal]
pub struct PageView {
    pub user: bool,
    pub writable: bool,
    pub data: Seq<u8>,
}

impl View for UserPage {
    type V = PageView;

    open spec fn view(&self) -> PageView {
        PageView { user: self.user, writable: self.writable, data: self.data@ }
    }
}

/// The pages of an address space by their start address.
#[derive(Clone)]
pub struct UserMemory {
    pub pages: BTreeMap<u64, UserPage>,
}

/// What a [`UserMemory`] holds.
#[verifier::ext_equal]
pub struct MemView {
    pub pages: Map<u64, PageView>,
}

impl View for UserMemory {
    type V = MemView;

    open spec fn view(&self) -> MemView {
        MemView { pages: self.pages@.map_values(|p: UserPage| p@) }
    }
}

/// A page of zeros that user mode may read and write.
pub open spec fn fresh_page() -> PageView {
    PageView { user: true, writable: true, data: Seq::new(4096, |i: int| 0u8) }
}

impl MemView {
    /// Pages start at multiples of their size and have all their bytes.
    pub open spec fn wf(self) -> bool {
        forall|p: u64| #[trigger]
            self.pages.dom().contains(p) ==> p % 4096 == 0 && self.pages[p].data.len() == 4096
    }

    /// Whether the byte at `addr` is mapped.
    pub open spec fn mapped(self, addr: int) -> bool {
        0 <= addr <= u64::MAX && self.pages.dom().contains(page_of(addr) as u64)
    }

    /// Whether user mode may access the byte at `addr`.
    pub open spec fn user_ok(self, addr: int, need_write: bool) -> bool {
        &&& self.mapped(addr)
        &&& self.pages[page_of(addr) as u64].user
        &&& need_write ==> self.pages[page_of(addr) as u64].writable
    }

    /// Whether user mode may access every byte of `start .. start + len`. A range that runs over
    /// the end of the address space may not be accessed.
    pub open spec fn accessible(self, start: u64, len: u64, need_write: bool) -> bool {
        len == 0 || {
            &&& start + len <= u64::MAX
            &&& forall|a: int| start <= a < start + len ==> #[trigger] self.user_ok(a, need_write)
        }
    }

    /// Whether every byte of `start .. start + len` is mapped.
    pub open spec fn all_mapped(self, start: int, len: int) -> bool {
        forall|a: int| start <= a < start + len ==> #[trigger] self.mapped(a)
    }

    /// The byte at `addr`.
    pub open spec fn byte(self, addr: int) -> u8 {
        self.pages[page_of(addr) as u64].data[addr % 4096]
    }

    /// The bytes of `start .. start + len`.
    pub open spec fn bytes(self, start: int, len: nat) -> Seq<u8> {
        Seq::new(len, |i: int| self.byte(start + i))
    }

    /// The memory with `data` written to the addresses from `start` on.
    pub open spec fn written(self, start: int, data: Seq<u8>) -> MemView {
        MemView {
            pages: Map::new(
                |p: u64| self.pages.dom().contains(p),
                |p: u64|
                    PageView {
                        data: Seq::new(
                            self.pages[p].data.len(),
                            |i: int|
                                if start <= p + i < start + data.len() {
                                    data[p + i - start]
                                } else {
                                    self.pages[p].data[i]
                                },
                        ),
                        ..self.pages[p]
                    },
            ),
        }
    }

    /// The memory with a fresh page at `page`.
    pub open spec fn with_page(self, page: u64) -> MemView {
        MemView { pages: self.pages.insert(page, fresh_page()) }
    }

    /// The memory with fresh pages at all page starts in `from .. to`.
    pub open spec fn with_pages(self, from: int, to: int) -> MemView {
        MemView {
            pages: Map::new(
                |p: u64| self.pages.dom().contains(p) || (p % 4096 == 0 && from <= p < to),
                |p: u64|
                    if self.pages.dom().contains(p) {
                        self.pages[p]
                    } else {
                        fresh_page()
                    },
            ),
        }
    }

    /// The memory without the pages that start in `from .. to`.
    pub open spec fn without_pages(self, from: int, to: int) -> MemView {
        MemView {
            pages: Map::new(
                |p: u64| self.pages.dom().contains(p) && !(from <= p < to),
                |p: u64| self.pages[p],
            ),
        }
    }
}

/// Bytes that were written read back; bytes elsewhere and all permissions stay.
pub proof fn lemma_written(m: MemView, start: int, data: Seq<u8>)
    requires
        m.wf(),
        0 <= start,
    ensures
        m.written(start, data).wf(),
        m.written(start, data).pages.dom() =~= m.pages.dom(),
        forall|p: u64|
            m.pages.dom().contains(p) ==> (#[trigger] m.written(start, data).pages[p]).user
                == m.pages[p].user && m.written(start, data).pages[p].writable
                == m.pages[p].writable,
        forall|a: int|
            m.mapped(a) ==> #[trigger] m.written(start, data).byte(a) == (if start <= a < start
                + data.len() {
                data[a - start]
            } else {
                m.byte(a)
            }),
        forall|a: int| #[trigger] m.written(start, data).mapped(a) == m.mapped(a),
{
    let w = m.written(start, data);
    assert forall|a: int| m.mapped(a) implies #[trigger] w.byte(a) == (if start <= a < start
        + data.len() {
        data[a - start]
    } else {
        m.byte(a)
    }) by {
        let p = page_of(a) as u64;
        assert(m.pages.dom().contains(p));
        assert(p + a % 4096 == a);
    }
}

/// Writing nothing changes nothing.
pub proof fn lemma_written_nothing(m: MemView, start: int)
    ensures
        m.written(start, Seq::empty()) == m,
{
    let w = m.written(start, Seq::empty());
    assert forall|p: u64| m.pages.dom().contains(p) implies w.pages[p] == m.pages[p] by {
        assert(w.pages[p].data =~= m.pages[p].data);
        assert(w.pages[p] =~= m.pages[p]);
    }
    assert(w.pages =~= m.pages);
}

/// A byte written right behind other bytes extends them.
proof fn lemma_written_more(m: MemView, start: int, data: Seq<u8>, b: u8)
    ensures
        m.written(start, data).written(start + data.len(), seq![b]) == m.written(
            start,
            data.push(b),
        ),
{
    lemma_written_twice(m, start, data, seq![b]);
    assert(data + seq![b] =~= data.push(b));
}

/// Two writes, the second right behind the first, are one.
pub proof fn lemma_written_twice(m: MemView, start: int, a: Seq<u8>, b: Seq<u8>)
    ensures
        m.written(start, a).written(start + a.len(), b) == m.written(start, a + b),
{
    let w1 = m.written(start, a).written(start + a.len(), b);
    let w2 = m.written(start, a + b);
    assert forall|p: u64| m.pages.dom().contains(p) implies w1.pages[p] == w2.pages[p] by {
        assert(w1.pages[p].data =~= w2.pages[p].data);
        assert(w1.pages[p] =~= w2.pages[p]);
    }
    assert(w1.pages =~= w2.pages);
}

/// A range that was written holds what was written.
pub proof fn lemma_bytes_written(m: MemView, start: int, data: Seq<u8>)
    requires
        m.wf(),
        0 <= start,
        m.all_mapped(start, data.len() as int),
    ensures
        m.written(start, data).bytes(start, data.len()) == data,
{
    lemma_written(m, start, data);
    let got = m.written(start, data).bytes(start, data.len());
    assert forall|j: int| 0 <= j < data.len() implies got[j] == data[j] by {
        assert(m.mapped(start + j));
    }
    assert(got =~= data);
}

/// A range apart from what was written holds what it held.
pub proof fn lemma_bytes_apart(m: MemView, start: int, data: Seq<u8>, a: int, len: nat)
    requires
        m.wf(),
        0 <= start,
        m.all_mapped(a, len as int),
        a + len <= start || start + data.len() <= a,
    ensures
        m.written(start, data).bytes(a, len) == m.bytes(a, len),
{
    lemma_written(m, start, data);
    let got = m.written(start, data).bytes(a, len);
    assert forall|j: int| 0 <= j < len implies #[trigger] got[j] == m.bytes(a, len)[j] by {
        assert(m.mapped(a + j));
    }
    assert(got =~= m.bytes(a, len));
}

impl UserMemory {
    /// Pages start at multiples of their size and have all their bytes.
    pub open spec fn wf(&self) -> bool {
        self@.wf()
    }

    /// No pages.
    pub fn new() -> (m: UserMemory)
        ensures
            m.wf(),
            m@.pages == Map::<u64, PageView>::empty(),
    {
        let m = UserMemory { pages: BTreeMap::new() };
        assert(m@.pages =~= Map::<u64, PageView>::empty());
        m
    }

    /// Whether the page at `page` is mapped.
    pub fn is_mapped(&self, page: u64) -> (r: bool)
        ensures
            r == self@.pages.dom().contains(page),
    {
        self.pages.contains_key(&page)
    }

    /// Maps a page, with the given permissions and contents, in place of what was there.
    pub fn put_page(&mut self, page: u64, user: bool, writable: bool, data: Vec<u8>)
        requires
            old(self).wf(),
            page % 4096 == 0,
            data@.len() == 4096,
        ensures
            final(self).wf(),
            final(self)@.pages == old(self)@.pages.insert(
                page,
                PageView { user, writable, data: data@ },
            ),
    {
        let ghost before = self@;
        self.pages.insert(page, UserPage { user, writable, data });
        assert(self@.pages =~= before.pages.insert(page, PageView { user, writable, data: data@ }));
    }

    /// Unmaps a page.
    pub fn remove_page(&mut self, page: u64)
        requires
            old(self).wf(),
        ensures
            final(self).wf(),
            final(self)@.pages == old(self)@.pages.remove(page),
    {
        let ghost before = self@;
        let _ = self.pages.remove(&page);
        assert(self@.pages =~= before.pages.remove(page));
        assert forall|p: u64| #[trigger] self@.pages.dom().contains(p) implies p % 4096 == 0
            && self@.pages[p].data.len() == 4096 by {
            assert(before.pages.dom().contains(p));
        }
    }

    /// Permissions of the page at `page`: whether user mode may read and write it.
    fn page_flags(&self, page: u64) -> (r: Option<(bool, bool)>)
        ensures
            r == (if self@.pages.dom().contains(page) {
                Some((self@.pages[page].user, self@.pages[page].writable))
            } else {
                None
            }),
    {
        match self.pages.get(&page) {
            Some(p) => Some((p.user, p.writable)),
            None => None,
        }
    }

    /// The byte at `addr`.
    pub fn read_byte(&self, addr: u64) -> (b: u8)
        requires
            self.wf(),
            self@.mapped(addr as int),
        ensures
            b == self@.byte(addr as int),
    {
        let page = addr - addr % 4096;
        assert(self@.pages.dom().contains(page));
        match self.pages.get(&page) {
            Some(p) => p.data[(addr % 4096) as usize],
            None => 0,
        }
    }

    /// The bytes of `start .. start + len`.
    pub fn read_range(&self, start: u64, len: u64) -> (v: Vec<u8>)
        requires
            self.wf(),
            start + len <= u64::MAX,
            self@.all_mapped(start as int, len as int),
        ensures
            v@ == self@.bytes(start as int, len as nat),
    {
        let mut v: Vec<u8> = Vec::new();
        let mut i: u64 = 0;
        while i < len
            invariant
                self.wf(),
                start + len <= u64::MAX,
                self@.all_mapped(start as int, len as int),
                i <= len,
                v@ =~= self@.bytes(start as int, i as nat),
            decreases len - i,
        {
            assert(self@.mapped(start + i));
            v.push(self.read_byte(start + i));
            i += 1;
        }
        v
    }

    /// Overwrites the byte at `addr`.
    pub fn write_byte(&mut self, addr: u64, b: u8)
        requires
            old(self).wf(),
            old(self)@.mapped(addr as int),
        ensures
            final(self).wf(),
            final(self)@ == old(self)@.written(addr as int, seq![b]),
    {
        let ghost before = self@;
        let page = addr - addr % 4096;
        assert(before.pages.dom().contains(page));
        match self.pages.remove(&page) {
            Some(mut p) => {
                let i = (addr % 4096) as usize;
                p.data.set(i, b);
                self.pages.insert(page, p);
                proof {
                    let w = before.written(addr as int, seq![b]);
                    assert(self@.pages.dom() =~= w.pages.dom());
                    assert forall|q: u64| w.pages.dom().contains(q) implies self@.pages[q]
                        == w.pages[q] by {
                        assert(before.pages.dom().contains(q));
                        assert(self@.pages[q].data =~= w.pages[q].data);
                        assert(self@.pages[q] =~= w.pages[q]);
                    }
                    assert(self@.pages =~= w.pages);
                    lemma_written(before, addr as int, seq![b]);
                }
            },
            None => {},
        }
    }

    /// Writes `data` to the addresses from `start` on.
    pub fn write_range(&mut self, start: u64, data: &[u8])
        requires
            old(self).wf(),
            start + data@.len() <= u64::MAX,
            old(self)@.all_mapped(start as int, data@.len() as int),
        ensures
            final(self).wf(),
            final(self)@ == old(self)@.written(start as int, data@),
    {
        let ghost before = self@;
        let mut i: usize = 0;
        proof {
            assert(data@.take(0) =~= Seq::<u8>::empty());
            lemma_written_nothing(before, start as int);
        }
        while i < data.len()
            invariant
                self.wf(),
                before.wf(),
                before == old(self)@,
                start + data@.len() <= u64::MAX,
                before.all_mapped(start as int, data@.len() as int),
                i <= data@.len(),
                self@ == before.written(start as int, data@.take(i as int)),
            decreases data@.len() - i,
        {
            proof {
                lemma_written(before, start as int, data@.take(i as int));
                assert(before.mapped(start + i));
                assert(self@.mapped(start + i));
                lemma_written_more(before, start as int, data@.take(i as int), data@[i as int]);
                assert(data@.take(i as int).push(data@[i as int]) =~= data@.take(i + 1));
            }
            self.write_byte(start + i as u64, data[i]);
            i += 1;
        }
        assert(data@.take(i as int) =~= data@);
    }

    /// Writes `len` zeros to the addresses from `start` on.
    pub fn fill_zero(&mut self, start: u64, len: u64)
        requires
            old(self).wf(),
            start + len <= u64::MAX,
            old(self)@.all_mapped(start as int, len as int),
        ensures
            final(self).wf(),
            final(self)@ == old(self)@.written(start as int, Seq::new(len as nat, |i: int| 0u8)),
    {
        let ghost before = self@;
        let ghost zeros = Seq::new(len as nat, |i: int| 0u8);
        let mut i: u64 = 0;
        proof {
            assert(zeros.take(0) =~= Seq::<u8>::empty());
            lemma_written_nothing(before, start as int);
        }
        while i < len
            invariant
                self.wf(),
                before.wf(),
                before == old(self)@,
                zeros == Seq::new(len as nat, |i: int| 0u8),
                start + len <= u64::MAX,
                before.all_mapped(start as int, len as int),
                i <= len,
                self@ == before.written(start as int, zeros.take(i as int)),
            decreases len - i,
        {
            proof {
                lemma_written(before, start as int, zeros.take(i as int));
                assert(before.mapped(start + i));
                assert(self@.mapped(start + i));
                lemma_written_more(before, start as int, zeros.take(i as int), 0u8);
                assert(zeros.take(i as int).push(0u8) =~= zeros.take(i + 1));
            }
            self.write_byte(start + i, 0);
            i += 1;
        }
        assert(zeros.take(i as int) =~= zeros);
    }

    /// An equal memory of its own: what a child gets of its parent.
    pub fn duplicate(&self) -> (m: UserMemory)
        requires
            self.wf(),
        ensures
            m.wf(),
            m@ == self@,
    {
        let mut copy: BTreeMap<u64, UserPage> = BTreeMap::new();
        let keys = self.page_starts();
        let mut i: usize = 0;
        let ghost src = self.pages@;
        assert forall|j: int| 0 <= j < keys@.len() implies src.dom().contains(
            #[trigger] keys@[j],
        ) by {
            assert(keys@.contains(keys@[j]));
        }
        while i < keys.len()
            invariant
                self.wf(),
                src == self.pages@,
                i <= keys@.len(),
                forall|j: int| 0 <= j < keys@.len() ==> src.dom().contains(#[trigger] keys@[j]),
                forall|p: u64|
                    copy@.dom().contains(p) <==> exists|j: int| 0 <= j < i && #[trigger] keys@[j] == p,
                forall|p: u64| #[trigger] copy@.dom().contains(p) ==> copy@[p]@ == src[p]@,
            decreases keys@.len() - i,
        {
            let k = keys[i];
            match self.pages.get(&k) {
                Some(p) => {
                    let data = crate::util::slice_to_vec(p.data.as_slice(), 0, p.data.len());
                    assert(data@ =~= p.data@);
                    copy.insert(k, UserPage { user: p.user, writable: p.writable, data });
                },
                None => {},
            }
            i += 1;
        }
        let m = UserMemory { pages: copy };
        assert forall|p: u64| src.dom().contains(p) implies m.pages@.dom().contains(p) by {
            assert(keys@.contains(p));
        }
        assert(m@.pages =~= self@.pages);
        m
    }

    /// Start addresses of all pages.
    pub fn page_starts(&self) -> (keys: Vec<u64>)
        ensures
            forall|p: u64| keys@.contains(p) <==> self@.pages.dom().contains(p),
    {
        let mut keys: Vec<u64> = Vec::new();
        for k in it: self.pages.keys()
            invariant
                it.seq().unref().to_set() == self.pages@.dom(),
                keys@ =~= it.seq().unref().take(it.index()),
                it.index() == it.seq().len() ==> keys@.to_set() == self.pages@.dom(),
        {
            keys.push(*k);
            assert(it.index() + 1 == it.seq().len() ==> keys@ =~= it.seq().unref());
        }
        assert forall|p: u64| keys@.contains(p) <==> self@.pages.dom().contains(p) by {
            assert(keys@.to_set().contains(p) == keys@.contains(p));
        }
        keys
    }
}

/// The pages of the kernel that lie in every address space. User mode may not access them, and
/// nothing may be mapped in their place.
pub struct KernelPages {
    /// Ranges of addresses: the first of each and the one behind its last.
    pub ranges: Vec<(u64, u64)>,
}

/// Whether an address lies in one of the ranges.
pub open spec fn in_ranges(ranges: Seq<(u64, u64)>, a: u64) -> bool {
    exists|i: int| 0 <= i < ranges.len() && (#[trigger] ranges[i]).0 <= a < ranges[i].1
}

impl View for KernelPages {
    type V = Set<u64>;

    open spec fn view(&self) -> Set<u64> {
        Set::new(|a: u64| in_ranges(self.ranges@, a))
    }
}

impl KernelPages {
    /// No pages.
    pub fn new() -> (k: KernelPages)
        ensures
            k@ == Set::<u64>::empty(),
    {
        let k = KernelPages { ranges: Vec::new() };
        assert(k@ =~= Set::<u64>::empty());
        k
    }

    /// Adds the pages in `from .. to`.
    pub fn put(&mut self, from: u64, to: u64)
        ensures
            final(self)@ == old(self)@.union(Set::new(|a: u64| from <= a < to)),
    {
        let ghost before = self.ranges@;
        self.ranges.push((from, to));
        proof {
            let after = self.ranges@;
            assert(after.last() == (from, to));
            assert forall|a: u64| in_ranges(after, a) == (in_ranges(before, a) || from <= a < to) by {
                if in_ranges(before, a) {
                    let i = choose|i: int|
                        0 <= i < before.len() && (#[trigger] before[i]).0 <= a < before[i].1;
                    assert(after[i] == before[i]);
                }
                if from <= a < to {
                    assert(after[before.len() as int] == (from, to));
                }
                if in_ranges(after, a) {
                    let i = choose|i: int|
                        0 <= i < after.len() && (#[trigger] after[i]).0 <= a < after[i].1;
                    assert(i < before.len() ==> before[i] == after[i]);
                }
            }
            assert(self@ =~= old(self)@.union(Set::new(|a: u64| from <= a < to)));
        }
    }

    /// Whether an address lies in a page of the kernel.
    pub fn holds(&self, a: u64) -> (r: bool)
        ensures
            r == self@.contains(a),
    {
        let mut i: usize = 0;
        while i < self.ranges.len()
            invariant
                i <= self.ranges@.len(),
                forall|j: int|
                    0 <= j < i ==> !((#[trigger] self.ranges@[j]).0 <= a < self.ranges@[j].1),
            decreases self.ranges@.len() - i,
        {
            let (from, to) = self.ranges[i];
            if from <= a && a < to {
                assert(self.ranges@[i as int] == (from, to));
                return true;
            }
            i += 1;
        }
        false
    }
}

/// Whether user mode may access the whole range `start .. start + len`, for writing too where
/// that is asked. Every page that the range covers is looked at.
pub fn user_range_accessible(mem: &UserMemory, start: u64, len: u64, need_write: bool) -> (r: bool)
    requires
        mem.wf(),
    ensures
        r == mem@.accessible(start, len, need_write),
{
    if len == 0 {
        return true;
    }
    let end = match start.checked_add(len) {
        Some(e) => e,
        None => {
            return false;
        },
    };
    let mut addr = start - start % 4096;
    while addr < end
        invariant
            mem.wf(),
            end == start + len,
            len > 0,
            addr % 4096 == 0,
            addr + 4096 > start,
            forall|a: int| start <= a < addr ==> #[trigger] mem@.user_ok(a, need_write),
        decreases end - addr + 4096,
    {
        assert(page_of(addr as int) == addr);
        match mem.page_flags(addr) {
            Some((user, writable)) => {
                if !user || (need_write && !writable) {
                    proof {
                        let a = if start > addr { start as int } else { addr as int };
                        assert(page_of(a) == addr);
                        assert(!mem@.user_ok(a, need_write));
                    }
                    return false;
                }
            },
            None => {
                proof {
                    let a = if start > addr { start as int } else { addr as int };
                    assert(page_of(a) == addr);
                    assert(!mem@.user_ok(a, need_write));
                }
                return false;
            },
        }
        proof {
            assert(mem@.user_ok(addr as int, need_write));
            assert forall|a: int| start <= a < addr + 4096 implies #[trigger] mem@.user_ok(
                a,
                need_write,
            ) by {
                if a >= addr {
                    assert(page_of(a) == addr);
                }
            }
        }
        match addr.checked_add(4096) {
            Some(next) => {
                addr = next;
            },
            None => {
                return true;
            },
        }
    }
    true
}

/// Maps a fresh page of zeros at `page` that user mode may read and write. The page must not be
/// mapped yet.
pub fn map_user_page(mem: &mut UserMemory, page: u64)
    requires
        old(mem).wf(),
        page % 4096 == 0,
        !old(mem)@.pages.dom().contains(page),
    ensures
        final(mem).wf(),
        final(mem)@ == old(mem)@.with_page(page),
{
    let mut data: Vec<u8> = Vec::new();
    let mut i: usize = 0;
    while i < 4096
        invariant
            i <= 4096,
            data@ =~= Seq::new(i as nat, |j: int| 0u8),
        decreases 4096 - i,
    {
        data.push(0);
        i += 1;
    }
    mem.put_page(page, true, true, data);
    assert(mem@.pages[page] =~= fresh_page());
    assert(mem@ =~= old(mem)@.with_page(page));
}

} // verus!
