//! The heap of a process: one range of memory whose end the process moves.

use crate::mm::paging::{self, MemView, UserMemory};
use crate::syscall::kernel::{KView, Kernel, ProcView};
use vstd::prelude::*;

verus! {

/// An address rounded up to a page.
pub open spec fn page_up(x: int) -> int {
    (x + 4095) / 4096 * 4096
}

/// Whether `backed` frames are enough for the pages in `from .. to`, none of which is mapped yet.
pub open spec fn can_grow(m: MemView, from: int, to: int, backed: int) -> bool {
    &&& (to - from) / 4096 <= backed
    &&& forall|p: u64| p % 4096 == 0 && from <= p < to ==> !#[trigger] m.pages.dom().contains(p)
}

impl KView {
    /// What `brk` does, with `backed` frames left for new pages. The end of the heap moves to
    /// `addr` where that lies within the bounds of the heap and new pages can be had; else it
    /// stays, and so does the memory.
    pub open spec fn sys_brk(self, addr: u64, backed: u64) -> (KView, i64) {
        let k = self.touched();
        let p = self.proc();
        let moved = self.with_proc(ProcView { brk: addr, ..p });
        let (old_end, new_end) = (page_up(p.brk as int), page_up(addr as int));
        if addr < self.heap_base || addr > self.heap_max {
            (k, p.brk as i64)
        } else if addr > p.brk {
            if can_grow(self.mem, old_end, new_end, backed as int) {
                (KView { mem: self.mem.with_pages(old_end, new_end), ..moved }, addr as i64)
            } else {
                (k, p.brk as i64)
            }
        } else {
            (KView { mem: self.mem.without_pages(new_end, old_end), ..moved }, addr as i64)
        }
    }
}

/// Rounds an address up to a page.
fn round_up(x: u64) -> (r: u64)
    requires
        x <= u64::MAX - 4095,
    ensures
        r == page_up(x as int),
        r % 4096 == 0,
{
    (x + 4095) / 4096 * 4096
}

/// Maps fresh pages in `from .. to`, if there are frames for all of them and none is mapped yet.
/// Else nothing changes.
fn grow(mem: &mut UserMemory, from: u64, to: u64, backed: u64) -> (r: bool)
    requires
        old(mem).wf(),
        from % 4096 == 0,
        to % 4096 == 0,
        from <= to <= u64::MAX - 4095,
    ensures
        final(mem).wf(),
        r == can_grow(old(mem)@, from as int, to as int, backed as int),
        final(mem)@ == (if r {
            old(mem)@.with_pages(from as int, to as int)
        } else {
            old(mem)@
        }),
{
    let ghost m0 = mem@;
    if (to - from) / 4096 > backed {
        return false;
    }
    let mut va = from;
    while va < to
        invariant
            mem.wf(),
            mem@ == m0,
            m0 == old(mem)@,
            from <= va <= to <= u64::MAX - 4095,
            va % 4096 == 0,
            to % 4096 == 0,
            forall|p: u64|
                p % 4096 == 0 && from <= p < va ==> !#[trigger] m0.pages.dom().contains(p),
        decreases to - va,
    {
        if mem.is_mapped(va) {
            return false;
        }
        va += 4096;
    }
    let mut va = from;
    assert(mem@.pages =~= m0.with_pages(from as int, from as int).pages);
    while va < to
        invariant
            mem.wf(),
            from <= va <= to <= u64::MAX - 4095,
            va % 4096 == 0,
            to % 4096 == 0,
            mem@ == m0.with_pages(from as int, va as int),
            forall|p: u64|
                p % 4096 == 0 && from <= p < to ==> !#[trigger] m0.pages.dom().contains(p),
        decreases to - va,
    {
        assert(!m0.pages.dom().contains(va));
        paging::map_user_page(mem, va);
        assert(mem@.pages =~= m0.with_pages(from as int, va + 4096).pages);
        va += 4096;
    }
    true
}

/// Unmaps the pages in `from .. to`.
fn shrink(mem: &mut UserMemory, from: u64, to: u64)
    requires
        old(mem).wf(),
        from % 4096 == 0,
        to % 4096 == 0,
        to <= u64::MAX - 4095,
    ensures
        final(mem).wf(),
        final(mem)@ == old(mem)@.without_pages(from as int, to as int),
{
    let ghost m0 = mem@;
    let mut va = from;
    assert(mem@.pages =~= m0.without_pages(from as int, from as int).pages);
    if from >= to {
        assert(mem@.pages =~= m0.without_pages(from as int, to as int).pages);
        return ;
    }
    while va < to
        invariant
            mem.wf(),
            m0.wf(),
            from <= va <= to <= u64::MAX - 4095,
            va % 4096 == 0,
            to % 4096 == 0,
            mem@ == m0.without_pages(from as int, va as int),
        decreases to - va,
    {
        mem.remove_page(va);
        assert forall|p: u64| #[trigger] m0.pages.dom().contains(p) && va <= p < va + 4096 implies p
            == va by {}
        assert(mem@.pages =~= m0.without_pages(from as int, va + 4096).pages);
        va += 4096;
    }
}

/// `brk(addr)`: moves the end of the heap to `addr` and returns where it is then. `backed` is the
/// number of frames that are left for new pages.
pub fn sys_brk(k: &mut Kernel, addr: u64, backed: u64) -> (r: i64)
    requires
        old(k)@.wf(),
    ensures
        final(k)@.wf(),
        (final(k)@, r) == old(k)@.sys_brk(addr, backed),
{
    let ghost before = k@;
    let mut p = k.take_proc();
    let cur = p.brk;
    if addr < k.heap_base || addr > k.heap_max {
        k.put_proc(p);
        assert(k@.procs =~= before.touched().procs);
        return cur as i64;
    }
    let old_end = round_up(cur);
    let new_end = round_up(addr);
    if addr > cur {
        if !grow(&mut k.mem, old_end, new_end, backed) {
            k.put_proc(p);
            assert(k@.procs =~= before.touched().procs);
            return cur as i64;
        }
    } else {
        shrink(&mut k.mem, new_end, old_end);
    }
    p.brk = addr;
    k.put_proc(p);
    assert(k@.procs =~= before.with_proc(ProcView { brk: addr, ..before.proc() }).procs);
    addr as i64
}

/// A heap that grows gets fresh pages of zeros up to its new end, and no other page changes.
pub proof fn law_growing_heap_gets_zeroed_pages(k: KView, addr: u64, backed: u64, a: int)
    requires
        k.wf(),
        k.proc().brk < addr <= k.heap_max,
        can_grow(
            k.mem,
            page_up(k.proc().brk as int),
            page_up(addr as int),
            backed as int,
        ),
    ensures
        ({
            let (k2, r) = k.sys_brk(addr, backed);
            let (old_end, new_end) = (page_up(k.proc().brk as int), page_up(addr as int));
            &&& r == addr
            &&& k2.proc().brk == addr
            &&& old_end <= a < new_end ==> k2.mem.user_ok(a, true) && k2.mem.byte(a) == 0
            &&& k.mem.mapped(a) ==> k2.mem.mapped(a) && k2.mem.byte(a) == k.mem.byte(a)
            &&& k2.mem.mapped(a) ==> k.mem.mapped(a) || old_end <= a < new_end
        }),
{
    let (k2, r) = k.sys_brk(addr, backed);
    let (old_end, new_end) = (page_up(k.proc().brk as int), page_up(addr as int));
    if 0 <= a <= u64::MAX {
        let p = paging::page_of(a) as u64;
        assert(p % 4096 == 0);
        if old_end <= a < new_end {
            assert(old_end <= p < new_end);
            assert(k2.mem.pages.dom().contains(p));
            assert(k2.mem.pages[p] == paging::fresh_page());
        }
    }
}

/// A heap that shrinks loses the pages above its new end, and no other page changes. What is below
/// stays.
pub proof fn law_shrinking_heap_loses_pages(k: KView, addr: u64, backed: u64, a: int)
    requires
        k.wf(),
        k.heap_base <= addr <= k.proc().brk,
        k.proc().brk <= k.heap_max,
    ensures
        ({
            let (k2, r) = k.sys_brk(addr, backed);
            let (new_end, old_end) = (page_up(addr as int), page_up(k.proc().brk as int));
            &&& r == addr
            &&& k2.proc().brk == addr
            &&& new_end <= a < old_end ==> !k2.mem.mapped(a)
            &&& k.mem.mapped(a) && !(new_end <= a < old_end) ==> k2.mem.mapped(a) && k2.mem.byte(a)
                == k.mem.byte(a)
        }),
{
    let (k2, r) = k.sys_brk(addr, backed);
    let (new_end, old_end) = (page_up(addr as int), page_up(k.proc().brk as int));
    if 0 <= a <= u64::MAX {
        let p = paging::page_of(a) as u64;
        assert(new_end <= a < old_end ==> new_end <= p < old_end);
        assert(new_end <= p < old_end ==> new_end <= a < old_end);
    }
}

/// Of the range of the heap, exactly the pages up to its end are mapped.
pub open spec fn mapped_to_end(k: KView) -> bool {
    forall|p: u64|
        p % 4096 == 0 && k.heap_base <= p < page_up(k.heap_max as int) ==> (
        #[trigger] k.mem.pages.dom().contains(p) <==> p < page_up(k.proc().brk as int))
}

/// However the end of the heap is moved, exactly the pages up to it are mapped. So a process gets
/// what it asks for within the bounds of its heap, as long as there are frames.
pub proof fn law_heap_is_mapped_to_its_end(k: KView, addr: u64, backed: u64)
    requires
        k.wf(),
        mapped_to_end(k),
    ensures
        mapped_to_end(k.sys_brk(addr, backed).0),
        k.sys_brk(addr, backed).1 == (if k.heap_base <= addr <= k.heap_max && (page_up(addr as int)
            - page_up(k.proc().brk as int)) / 4096 <= backed {
            addr
        } else {
            k.proc().brk
        }),
{
    let (k2, r) = k.sys_brk(addr, backed);
    let (old_end, new_end) = (page_up(k.proc().brk as int), page_up(addr as int));
    assert(k.touched().proc() == k.proc());
    if k.heap_base <= addr <= k.heap_max {
        assert(new_end <= page_up(k.heap_max as int));
        if addr > k.proc().brk {
            assert forall|p: u64| p % 4096 == 0 && old_end <= p < new_end implies
                !#[trigger] k.mem.pages.dom().contains(p) by {
                assert(k.heap_base <= p);
            }
        } else {
            assert(new_end <= old_end);
        }
    }
}

/// An address rounded up to a page is the first multiple of the page size that is not below it.
pub proof fn law_addresses_are_rounded_up_to_pages(x: u64)
    ensures
        page_up(x as int) % 4096 == 0,
        x <= page_up(x as int) < x + 4096,
{
}

/// The end of the heap moves wherever a process may have it: down to its start, and up as far as
/// its bound lets it if there are frames for what lies between and nothing is mapped there. Its
/// pages end in the page of the last byte. Beyond the bounds, or without frames, nothing changes
/// and the old end is returned.
pub proof fn law_heap_ends_where_the_process_wants_it(k: KView, addr: u64, backed: u64)
    requires
        k.wf(),
    ensures
        ({
            let (k2, r) = k.sys_brk(addr, backed);
            let brk = k.proc().brk;
            let inside = k.heap_base <= addr <= k.heap_max;
            let pages = (addr + 4095) / 4096 - (brk + 4095) / 4096;
            &&& inside && addr <= brk ==> r == addr && k2.proc().brk == addr
            &&& inside && addr > brk && pages <= backed && (forall|p: u64|
                brk <= p < addr ==> !#[trigger] k.mem.pages.dom().contains(p)) ==> r == addr
                && k2.proc().brk == addr
            &&& !inside || addr > brk && pages > backed ==> r == brk as i64 && k2.proc().brk == brk
                && k2.mem == k.mem
        }),
{
    let brk = k.proc().brk;
    let (from, to) = (page_up(brk as int), page_up(addr as int));
    assert((to - from) / 4096 == (addr + 4095) / 4096 - (brk + 4095) / 4096);
    if forall|p: u64| brk <= p < addr ==> !#[trigger] k.mem.pages.dom().contains(p) {
        assert forall|p: u64| p % 4096 == 0 && from <= p < to implies !#[trigger] k.mem.pages.dom().contains(
            p,
        ) by {
            assert(brk <= p < addr);
        }
    }
}

} // verus!
