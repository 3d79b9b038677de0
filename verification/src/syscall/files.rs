//! Files and descriptors of processes.
//!
//! An open file is its contents in memory and a position. Reads and writes go to that memory;
//! what was written goes to the disk when the file is closed, or when the process exits.

use crate::fs::fat::FatError;
use crate::fs::fat_dir::{Node, NodeView};
use crate::fs::path;
use crate::fs::vfs::FsView;
use crate::mm::paging::MemView;
use crate::syscall::abi;
use crate::syscall::dirents;
use crate::syscall::kernel::{
    self, Fd, FdView, FileView, KView, Kernel, OpenFile, ProcState, ProcView, MAX_FDS,
};
use crate::syscall::uaccess;
use crate::util;
use vstd::prelude::*;

verus! {

/// `lseek`: from the start.
pub const SEEK_SET: u64 = 0;

/// `lseek`: from the position.
pub const SEEK_CUR: u64 = 1;

/// `lseek`: from the end.
pub const SEEK_END: u64 = 2;

/// Size of the metadata structure of `stat`.
pub const STAT_SIZE: usize = 144;

/// Whether `bytes` are UTF-8. Calls `core::str::from_utf8`, which per its documentation returns
/// `Ok` exactly where they are.
#[verifier::external_body]
pub(crate) fn is_utf8(bytes: &[u8]) -> (r: bool)
    ensures
        r == vstd::utf8::valid_utf8(bytes@),
{
    core::str::from_utf8(bytes).is_ok()
}

// ---------------------------------------------------------------------------------------------
// Errors and paths
// ---------------------------------------------------------------------------------------------

/// The error number for an error of the file system.
pub open spec fn errno_of(e: FatError) -> i64 {
    match e {
        FatError::NotFound => abi::ENOENT,
        FatError::IsADirectory => abi::EISDIR,
        FatError::NotADirectory => abi::ENOTDIR,
        FatError::AlreadyExists => abi::EEXIST,
        FatError::NotEmpty => abi::ENOTEMPTY,
        FatError::NoSpace => abi::ENOSPC,
        FatError::DirFull => abi::ENOSPC,
        _ => abi::EIO,
    }
}

/// The error number for an error of the file system.
pub fn fat_errno(e: FatError) -> (r: i64)
    ensures
        r == errno_of(e),
        0 < r < 4096,
{
    match e {
        FatError::NotFound => abi::ENOENT,
        FatError::IsADirectory => abi::EISDIR,
        FatError::NotADirectory => abi::ENOTDIR,
        FatError::AlreadyExists => abi::EEXIST,
        FatError::NotEmpty => abi::ENOTEMPTY,
        FatError::NoSpace => abi::ENOSPC,
        FatError::DirFull => abi::ENOSPC,
        _ => abi::EIO,
    }
}

impl KView {
    /// The path argument at `ptr`, made absolute: kernel and path, or the error. A relative path
    /// is resolved from the working directory, which looks at the state of the process.
    pub open spec fn path_arg(self, ptr: u64) -> (KView, Result<Seq<u8>, i64>) {
        match uaccess::user_cstr(self.mem, ptr as int) {
            Err(e) => (self, Err(e)),
            Ok(s) => if !vstd::utf8::valid_utf8(s) || s.len() == 0 {
                (self, Err(abi::ENOENT))
            } else {
                (
                    if s[0] == path::SLASH {
                        self
                    } else {
                        self.touched()
                    },
                    Ok(path::resolved(self.proc().cwd, s)),
                )
            },
        }
    }
}

/// All errors of user memory access are small numbers.
pub proof fn lemma_cstr_errno(m: MemView, addr: int)
    ensures
        uaccess::user_cstr(m, addr) matches Err(e) ==> e == abi::EFAULT,
    decreases uaccess::USER_SPACE_END - addr,
{
    if addr < uaccess::USER_SPACE_END && m.user_ok(addr, false) && m.byte(addr) != 0 {
        lemma_cstr_errno(m, addr + 1);
    }
}

/// Reads a path argument and makes it absolute.
pub fn path_arg(k: &mut Kernel, path_ptr: u64) -> (r: Result<Vec<u8>, i64>)
    requires
        old(k)@.wf(),
    ensures
        final(k)@.wf(),
        final(k)@ == old(k)@.path_arg(path_ptr).0,
        match old(k)@.path_arg(path_ptr).1 {
            Err(e) => r matches Err(e2) && e2 == e && 0 < e < 4096,
            Ok(p) => r matches Ok(v) && v@ == p,
        },
{
    proof {
        lemma_cstr_errno(k@.mem, path_ptr as int);
    }
    let s = match uaccess::read_user_cstr(&k.mem, path_ptr) {
        Ok(s) => s,
        Err(e) => {
            return Err(e);
        },
    };
    if !is_utf8(s.as_slice()) || s.len() == 0 {
        return Err(abi::ENOENT);
    }
    if s[0] == path::SLASH {
        let empty: [u8; 0] = [];
        let p = path::resolve_path(&empty, s.as_slice());
        return Ok(p);
    }
    let ghost before = k@;
    let p = k.take_proc();
    let r = path::resolve_path(p.cwd.as_slice(), s.as_slice());
    k.put_proc(p);
    assert(k@.procs =~= before.touched().procs);
    Ok(r)
}

// ---------------------------------------------------------------------------------------------
// Processes
// ---------------------------------------------------------------------------------------------

impl KView {
    /// The kernel without the state of process `key`, its descriptors dropped.
    pub open spec fn forgotten(self, key: u64) -> KView {
        if self.procs.dom().contains(key) {
            KView { procs: self.procs.remove(key), ..self }.table_dropped(self.procs[key].fds)
        } else {
            self
        }
    }

    /// The kernel after a descriptor's unwritten contents went to the disk, as far as that works.
    pub open spec fn flushed(self, s: Option<FdView>) -> KView {
        match s {
            Some(FdView::File(f)) => if f.writable && f.dirty {
                KView { fs: self.fs.file_written(f.name, f.data).0, ..self }
            } else {
                self
            },
            _ => self,
        }
    }

    /// The kernel after the descriptors of a table were written back and dropped.
    pub open spec fn table_released(self, fds: Seq<Option<FdView>>) -> KView
        decreases fds.len(),
    {
        if fds.len() == 0 {
            self
        } else {
            self.table_released(fds.drop_last()).flushed(fds.last()).slot_dropped(fds.last())
        }
    }

    /// The kernel after the calling process has closed all its descriptors.
    pub open spec fn released(self) -> KView {
        if self.procs.dom().contains(self.key) {
            let p = self.procs[self.key];
            self.with_proc(ProcView { fds: Seq::empty(), ..p }).table_released(p.fds)
        } else {
            self
        }
    }

    /// The kernel with the state of process `before` moved to `after`, its heap empty.
    pub open spec fn rekeyed(self, before: u64, after: u64) -> KView {
        if self.procs.dom().contains(before) {
            let p = self.procs[before];
            let base = KView { procs: self.procs.remove(before), ..self };
            let gone = if base.procs.dom().contains(after) {
                base.table_dropped(base.procs[after].fds)
            } else {
                base
            };
            KView {
                procs: gone.procs.insert(after, ProcView { brk: self.heap_base, ..p }),
                ..gone
            }
        } else {
            self
        }
    }

    /// The kernel with a copy of the state of process `parent` for `child`.
    pub open spec fn forked(self, parent: u64, child: u64) -> KView {
        if self.procs.dom().contains(parent) {
            let p = self.procs[parent];
            let copied = self.table_copied(p.fds);
            let gone = if copied.procs.dom().contains(child) {
                copied.table_dropped(copied.procs[child].fds)
            } else {
                copied
            };
            KView { procs: gone.procs.insert(child, p), ..gone }
        } else {
            self
        }
    }
}

/// Dropping and copying descriptors touches neither processes nor memory nor the disk.
pub proof fn lemma_slot_frame(k: KView, s: Option<FdView>)
    ensures
        ({
            let c = k.slot_copied(s);
            let d = k.slot_dropped(s);
            &&& c == (KView { pipes: c.pipes, socks: c.socks, ..k })
            &&& d == (KView {
                pipes: d.pipes,
                socks: d.socks,
                closed_socks: d.closed_socks,
                sched: d.sched,
                ..k
            })
            &&& k.sched.wf() ==> d.sched.wf()
            &&& d.sched.current == k.sched.current
            &&& d.sched.threads.len() == k.sched.threads.len()
            &&& c.pipes.dom().subset_of(k.pipes.dom())
            &&& d.pipes.dom().subset_of(k.pipes.dom())
        }),
{
}

/// Copying a table touches the counts of pipes and sockets only.
pub proof fn lemma_table_copied_frame(k: KView, fds: Seq<Option<FdView>>)
    ensures
        k.table_copied(fds) == (KView {
            pipes: k.table_copied(fds).pipes,
            socks: k.table_copied(fds).socks,
            ..k
        }),
        k.table_copied(fds).pipes.dom().subset_of(k.pipes.dom()),
    decreases fds.len(),
{
    if fds.len() > 0 {
        lemma_table_copied_frame(k, fds.drop_last());
        lemma_slot_frame(k.table_copied(fds.drop_last()), fds.last());
    }
}

/// Dropping a table touches pipes, sockets and who waits for them only.
pub proof fn lemma_table_dropped_frame(k: KView, fds: Seq<Option<FdView>>)
    ensures
        ({
            let d = k.table_dropped(fds);
            &&& d == (KView {
                pipes: d.pipes,
                socks: d.socks,
                closed_socks: d.closed_socks,
                sched: d.sched,
                ..k
            })
            &&& k.sched.wf() ==> d.sched.wf()
            &&& d.pipes.dom().subset_of(k.pipes.dom())
        }),
    decreases fds.len(),
{
    if fds.len() > 0 {
        lemma_table_dropped_frame(k, fds.drop_last());
        lemma_slot_frame(k.table_dropped(fds.drop_last()), fds.last());
    }
}

/// Forgets the state of process `cr3_phys`, dropping its descriptors.
pub fn forget_process(k: &mut Kernel, cr3_phys: u64)
    ensures
        final(k)@ == old(k)@.forgotten(cr3_phys),
        old(k)@.wf() ==> final(k)@.wf(),
{
    let ghost before = k@;
    match k.procs.remove(&cr3_phys) {
        Some(p) => {
            proof {
                assert(k@.procs =~= before.procs.remove(cr3_phys));
                lemma_table_dropped_frame(k@, p@.fds);
            }
            k.drop_table(&p.fds);
        },
        None => {
            assert(k@.procs =~= before.procs);
        },
    }
}

/// Writes back what a descriptor has not written yet. Failure is ignored.
fn flush_slot(k: &mut Kernel, slot: &Option<Fd>)
    requires
        old(k)@.wf(),
    ensures
        final(k)@.wf(),
        final(k)@ == old(k)@.flushed(kernel::slot_view(*slot)),
{
    match slot {
        Some(fd) => {
            match fd {
                Fd::File(f) => {
                    if f.writable && f.dirty {
                        let _ = k.fs.write_file(f.name.as_slice(), f.data.as_slice());
                    }
                },
                _ => {},
            }
        },
        None => {},
    }
}

/// Closes all descriptors of the calling process: what was not written back yet goes to the disk,
/// and the ends of pipes are dropped, so that the other side learns of it at once.
pub fn release_current_process_fds(k: &mut Kernel)
    requires
        old(k)@.wf(),
    ensures
        final(k)@.wf(),
        final(k)@ == old(k)@.released(),
{
    let ghost before = k@;
    let key = k.key;
    let mut p = match k.procs.remove(&key) {
        Some(p) => p,
        None => {
            assert(k@.procs =~= before.procs);
            return ;
        },
    };
    let ghost pv = p@;
    let mut fds: Vec<Option<Fd>> = Vec::new();
    core::mem::swap(&mut fds, &mut p.fds);
    let ghost all = kernel::fds_view(fds@);
    k.procs.insert(key, p);
    let ghost start = before.with_proc(ProcView { fds: Seq::empty(), ..pv });
    assert(p@.fds =~= Seq::<Option<FdView>>::empty());
    assert(k@.procs =~= start.procs);
    let mut i: usize = 0;
    assert(all.take(0) =~= Seq::<Option<FdView>>::empty());
    while i < fds.len()
        invariant
            k@.wf(),
            all == kernel::fds_view(fds@),
            i <= fds@.len(),
            k@ == start.table_released(all.take(i as int)),
        decreases fds@.len() - i,
    {
        assert(all.take(i + 1).drop_last() =~= all.take(i as int));
        assert(all.take(i + 1).last() == kernel::slot_view(fds@[i as int]));
        flush_slot(k, &fds[i]);
        proof {
            lemma_slot_frame(k@, kernel::slot_view(fds@[i as int]));
        }
        k.drop_slot(&fds[i]);
        i += 1;
    }
    assert(all.take(i as int) =~= all);
}

/// How many processes have a state.
pub fn process_count(k: &Kernel) -> (n: usize)
    ensures
        n == k@.procs.dom().len(),
{
    assert(k@.procs.dom() =~= k.procs@.dom());
    k.procs.len()
}

/// Moves the state of a process to its new address space: descriptors and working directory stay,
/// the heap is empty.
pub fn rekey_process(k: &mut Kernel, old_cr3: u64, new_cr3: u64)
    ensures
        final(k)@ == old(k)@.rekeyed(old_cr3, new_cr3),
        old(k)@.wf() ==> final(k)@.wf(),
{
    let ghost before = k@;
    match k.procs.remove(&old_cr3) {
        Some(mut p) => {
            assert(k@.procs =~= before.procs.remove(old_cr3));
            let ghost base = k@;
            match k.procs.remove(&new_cr3) {
                Some(other) => {
                    let ghost less = k@;
                    assert(k@.procs =~= base.procs.remove(new_cr3));
                    k.drop_table(&other.fds);
                    proof {
                        lemma_table_dropped_frame(less, other@.fds);
                        lemma_table_dropped_frame(base, other@.fds);
                        lemma_table_dropped_procs(base, base.procs.remove(new_cr3), other@.fds);
                    }
                },
                None => {
                    assert(k@.procs =~= base.procs);
                },
            }
            p.brk = k.heap_base;
            let ghost pv = p@;
            let ghost mid = k@;
            assert(mid.heap_base == before.heap_base);
            k.procs.insert(new_cr3, p);
            assert(pv == ProcView { brk: before.heap_base, ..before.procs[old_cr3] });
            assert(k@.procs =~= mid.procs.insert(new_cr3, pv));
            assert(k@.procs =~= before.rekeyed(old_cr3, new_cr3).procs);
            assert(k@ =~= before.rekeyed(old_cr3, new_cr3));
        },
        None => {
            assert(k@.procs =~= before.procs);
        },
    }
}

/// Dropping a table does not depend on the states of processes.
proof fn lemma_table_dropped_procs(
    k: KView,
    procs: Map<u64, ProcView>,
    fds: Seq<Option<FdView>>,
)
    ensures
        (KView { procs, ..k }).table_dropped(fds) == (KView { procs, ..k.table_dropped(fds) }),
    decreases fds.len(),
{
    if fds.len() > 0 {
        lemma_table_dropped_procs(k, procs, fds.drop_last());
        lemma_table_dropped_frame(k, fds.drop_last());
        let a = (KView { procs, ..k }).table_dropped(fds.drop_last());
        let b = k.table_dropped(fds.drop_last());
        lemma_slot_dropped_procs(b, procs, fds.last());
    }
}

proof fn lemma_slot_dropped_procs(k: KView, procs: Map<u64, ProcView>, s: Option<FdView>)
    ensures
        (KView { procs, ..k }).slot_dropped(s) == (KView { procs, ..k.slot_dropped(s) }),
{
}

/// Copying a table does not depend on the states of processes.
proof fn lemma_table_copied_procs(k: KView, procs: Map<u64, ProcView>, fds: Seq<Option<FdView>>)
    ensures
        (KView { procs, ..k }).table_copied(fds) == (KView { procs, ..k.table_copied(fds) }),
    decreases fds.len(),
{
    if fds.len() > 0 {
        lemma_table_copied_procs(k, procs, fds.drop_last());
        let b = k.table_copied(fds.drop_last());
        lemma_slot_copied_procs(b, procs, fds.last());
    }
}

proof fn lemma_slot_copied_procs(k: KView, procs: Map<u64, ProcView>, s: Option<FdView>)
    ensures
        (KView { procs, ..k }).slot_copied(s) == (KView { procs, ..k.slot_copied(s) }),
{
}

/// Gives process `child_cr3` a copy of the state of `parent_cr3`: contents and positions of its
/// open files are its own, pipes and sockets are shared.
pub fn fork_fds(k: &mut Kernel, parent_cr3: u64, child_cr3: u64)
    ensures
        final(k)@ == old(k)@.forked(parent_cr3, child_cr3),
        old(k)@.wf() ==> final(k)@.wf(),
{
    let ghost before = k@;
    match k.procs.remove(&parent_cr3) {
        None => {
            assert(k@.procs =~= before.procs);
        },
        Some(p) => {
            let ghost pv = p@;
            let ghost without = before.procs.remove(parent_cr3);
            assert(k@.procs =~= without);
            let fds = k.copy_table(&p.fds);
            let cwd = util::slice_to_vec(p.cwd.as_slice(), 0, p.cwd.len());
            assert(cwd@ =~= p.cwd@);
            proof {
                lemma_table_copied_procs(before, without, pv.fds);
                lemma_table_copied_frame(before, pv.fds);
            }
            let child = ProcState { fds, cwd, brk: p.brk };
            assert(child@ =~= pv);
            let ghost mid = k@;
            k.procs.insert(parent_cr3, p);
            let ghost copied = before.table_copied(pv.fds);
            assert(k@.procs =~= mid.procs.insert(parent_cr3, pv));
            assert(k@.procs =~= before.procs);
            assert(k@ =~= copied);
            match k.procs.remove(&child_cr3) {
                Some(other) => {
                    let ghost less = k@;
                    assert(k@.procs =~= copied.procs.remove(child_cr3));
                    k.drop_table(&other.fds);
                    proof {
                        lemma_table_dropped_frame(less, other@.fds);
                        lemma_table_dropped_frame(copied, other@.fds);
                        lemma_table_dropped_procs(
                            copied,
                            copied.procs.remove(child_cr3),
                            other@.fds,
                        );
                    }
                },
                None => {
                    assert(k@.procs =~= copied.procs);
                },
            }
            let ghost end = k@;
            k.procs.insert(child_cr3, child);
            assert(k@.procs =~= end.procs.insert(child_cr3, pv));
            assert(k@.procs =~= before.forked(parent_cr3, child_cr3).procs);
            assert(k@ =~= before.forked(parent_cr3, child_cr3));
        },
    }
}

// ---------------------------------------------------------------------------------------------
// Descriptor tables
// ---------------------------------------------------------------------------------------------

/// Index of the first free slot from `i` on; the length if there is none.
pub open spec fn free_slot(fds: Seq<Option<FdView>>, i: int) -> int
    decreases fds.len() - i,
{
    if i >= fds.len() {
        fds.len() as int
    } else if fds[i] is None {
        i
    } else {
        free_slot(fds, i + 1)
    }
}

/// A process with a descriptor added: in the lowest free slot of its table, or at the end if the
/// table may grow; and the number of the descriptor. None if the table is full.
pub open spec fn fd_added(p: ProcView, fd: FdView) -> Option<(ProcView, int)> {
    let i = free_slot(p.fds, 0);
    if i < p.fds.len() {
        Some((p.with_fd(i, Some(fd)), i))
    } else if p.fds.len() < MAX_FDS {
        Some((ProcView { fds: p.fds.push(Some(fd)), ..p }, p.fds.len() as int))
    } else {
        None
    }
}

/// The table, lengthened by free slots so that slot `n` exists.
pub open spec fn extended(fds: Seq<Option<FdView>>, n: int) -> Seq<Option<FdView>> {
    if n < fds.len() {
        fds
    } else {
        fds + Seq::new((n + 1 - fds.len()) as nat, |i: int| None::<FdView>)
    }
}

impl KView {
    /// A descriptor given to the calling process: its number, or the error, with which the
    /// descriptor is dropped.
    pub open spec fn fd_allocated(self, fd: FdView) -> (KView, i64) {
        match fd_added(self.proc(), fd) {
            Some((p, i)) => (self.with_proc(p), i as i64),
            None => (self.touched().dropped(fd), (-abi::EMFILE) as i64),
        }
    }

    /// The calling process with descriptor `fd` replaced.
    pub open spec fn fd_set(self, fd: u64, v: Option<FdView>) -> KView {
        self.with_proc(self.proc().with_fd(fd as int, v))
    }
}

/// Replacing a slot replaces its view.
pub proof fn lemma_fds_update(fds: Seq<Option<Fd>>, i: int, v: Option<Fd>)
    requires
        0 <= i < fds.len(),
    ensures
        kernel::fds_view(fds.update(i, v)) == kernel::fds_view(fds).update(
            i,
            kernel::slot_view(v),
        ),
{
    assert(kernel::fds_view(fds.update(i, v)) =~= kernel::fds_view(fds).update(
        i,
        kernel::slot_view(v),
    ));
}

/// Puts `v` into slot `i` and returns what was there.
pub(crate) fn replace_slot(fds: &mut Vec<Option<Fd>>, i: usize, v: Option<Fd>) -> (r: Option<Fd>)
    requires
        i < old(fds)@.len(),
    ensures
        r == old(fds)@[i as int],
        final(fds)@ == old(fds)@.update(i as int, v),
        kernel::fds_view(final(fds)@) == kernel::fds_view(old(fds)@).update(
            i as int,
            kernel::slot_view(v),
        ),
{
    let ghost before = fds@;
    let mut r = v;
    core::mem::swap(&mut r, &mut fds[i]);
    proof {
        lemma_fds_update(before, i as int, v);
    }
    r
}

/// Lengthens a table by free slots so that slot `n` exists.
pub(crate) fn extend_table(fds: &mut Vec<Option<Fd>>, n: usize)
    requires
        n < MAX_FDS,
    ensures
        final(fds)@.len() > n,
        kernel::fds_view(final(fds)@) == extended(kernel::fds_view(old(fds)@), n as int),
{
    let ghost before = kernel::fds_view(fds@);
    assert(before =~= extended(before, before.len() - 1));
    while fds.len() <= n
        invariant
            before.len() <= fds@.len(),
            fds@.len() <= before.len() || fds@.len() <= n + 1,
            n < MAX_FDS,
            kernel::fds_view(fds@) == extended(before, fds@.len() - 1),
        decreases n + 1 - fds@.len(),
    {
        let ghost now = fds@;
        fds.push(None);
        assert(kernel::fds_view(fds@) =~= kernel::fds_view(now).push(None));
        assert(kernel::fds_view(fds@) =~= extended(before, fds@.len() - 1));
    }
    assert(fds@.len() > n);
}

/// The slot of descriptor `fd`, if there is such a descriptor.
pub(crate) fn slot_of(fds: &Vec<Option<Fd>>, fd: u64) -> (r: Option<usize>)
    ensures
        match r {
            Some(i) => i == fd && fd < fds@.len() && fds@[fd as int] is Some,
            None => fd >= fds@.len() || fds@[fd as int] is None,
        },
{
    if fd < fds.len() as u64 {
        match &fds[fd as usize] {
            Some(_) => Some(fd as usize),
            None => None,
        }
    } else {
        None
    }
}

/// Gives the calling process a descriptor: the lowest number that is free. Fails where the table
/// is full.
pub fn alloc_fd(k: &mut Kernel, entry: Fd) -> (r: i64)
    ensures
        (final(k)@, r) == old(k)@.fd_allocated(entry@),
        old(k)@.wf() ==> final(k)@.wf(),
{
    let ghost before = k@;
    let mut p = k.take_proc();
    let ghost pv = p@;
    let mut i: usize = 0;
    while i < p.fds.len()
        invariant
            pv == p@,
            pv.fds.len() == p.fds@.len(),
            i <= p.fds@.len(),
            free_slot(pv.fds, 0) == free_slot(pv.fds, i as int),
        ensures
            free_slot(pv.fds, 0) == i,
        decreases p.fds@.len() - i,
    {
        assert(pv.fds[i as int] == kernel::slot_view(p.fds@[i as int]));
        match &p.fds[i] {
            Some(_) => {},
            None => {
                break;
            },
        }
        i += 1;
    }
    proof {
        lemma_slot_frame(before, Some(entry@));
        lemma_slot_frame(before.touched(), Some(entry@));
    }
    if i < p.fds.len() {
        let _ = replace_slot(&mut p.fds, i, Some(entry));
        k.put_proc(p);
        assert(k@.procs =~= before.fd_allocated(entry@).0.procs);
        i as i64
    } else if p.fds.len() < MAX_FDS {
        p.fds.push(Some(entry));
        assert(p@.fds =~= pv.fds.push(Some(entry@)));
        k.put_proc(p);
        assert(k@.procs =~= before.fd_allocated(entry@).0.procs);
        i as i64
    } else {
        k.put_proc(p);
        assert(k@.procs =~= before.touched().procs);
        k.drop_fd(&entry);
        -abi::EMFILE
    }
}

/// What is found free is free, and nothing below it is.
pub proof fn lemma_free_slot(fds: Seq<Option<FdView>>, i: int)
    requires
        0 <= i <= fds.len(),
    ensures
        ({
            let n = free_slot(fds, i);
            &&& i <= n <= fds.len()
            &&& n < fds.len() ==> fds[n] is None
            &&& forall|j: int| i <= j < n ==> #[trigger] fds[j] is Some
        }),
    decreases fds.len() - i,
{
    if i < fds.len() && fds[i] is Some {
        lemma_free_slot(fds, i + 1);
    }
}

/// A descriptor that is given out stands in the table of the process.
pub proof fn lemma_fd_allocated(k: KView, fd: FdView)
    ensures
        ({
            let (k2, r) = k.fd_allocated(fd);
            fd_added(k.proc(), fd) matches Some((p, n)) ==> {
                &&& k2.proc() == p
                &&& 0 <= n < p.fds.len()
                &&& p.fds[n] == Some(fd)
                &&& n <= k.proc().fds.len()
                &&& k.proc().fds.len() <= MAX_FDS ==> r == n && p.fds.len() <= MAX_FDS && n
                    < MAX_FDS
            }
        }),
{
    lemma_free_slot(k.proc().fds, 0);
}

/// A descriptor that does not fit leaves the table as it was.
pub proof fn lemma_fd_refused(k: KView, fd: FdView)
    ensures
        fd_added(k.proc(), fd) is None ==> k.fd_allocated(fd).0.proc() == k.proc(),
{
    lemma_slot_frame(k.touched(), Some(fd));
}

// ---------------------------------------------------------------------------------------------
// Opening and closing
// ---------------------------------------------------------------------------------------------

/// The file system after an `open` of the absolute path `path`, and the open file or the error.
pub open spec fn open_target(fs: FsView, path: Seq<u8>, flags: u64) -> (
    FsView,
    Result<FileView, i64>,
) {
    let writable = (flags & abi::O_ACCMODE) != abi::O_RDONLY;
    let empty = FileView {
        name: path,
        data: Seq::empty(),
        offset: 0,
        writable,
        dirty: false,
        is_dir: false,
    };
    match fs.node(path) {
        Ok(NodeView::File(existing)) => if flags & abi::O_TRUNC != 0 {
            match fs.file_written(path, Seq::empty()) {
                (fs2, Ok(_)) => (fs2, Ok(empty)),
                (fs2, Err(e)) => (fs2, Err(errno_of(e))),
            }
        } else {
            (
                fs,
                Ok(
                    FileView {
                        data: existing,
                        offset: if flags & abi::O_APPEND != 0 {
                            existing.len() as u64
                        } else {
                            0
                        },
                        ..empty
                    },
                ),
            )
        },
        Ok(NodeView::Dir(items)) => if writable {
            (fs, Err(abi::EISDIR))
        } else {
            (fs, Ok(FileView { data: dirents::dirents(items), is_dir: true, ..empty }))
        },
        Err(FatError::NotFound) => if flags & abi::O_CREAT != 0 {
            match fs.file_written(path, Seq::empty()) {
                (fs2, Ok(_)) => (fs2, Ok(empty)),
                (fs2, Err(e)) => (fs2, Err(errno_of(e))),
            }
        } else {
            (fs, Err(abi::ENOENT))
        },
        Err(e) => (fs, Err(errno_of(e))),
    }
}

impl KView {
    /// What `open` does.
    pub open spec fn sys_open(self, path_ptr: u64, flags: u64) -> (KView, i64) {
        match self.path_arg(path_ptr) {
            (k, Err(e)) => (k, (-e) as i64),
            (k, Ok(path)) => match open_target(k.fs, path, flags) {
                (fs, Err(e)) => (KView { fs, ..k }, (-e) as i64),
                (fs, Ok(f)) => KView { fs, ..k }.fd_allocated(FdView::File(f)),
            },
        }
    }

    /// What `close` does.
    pub open spec fn sys_close(self, fd: u64) -> (KView, i64) {
        match self.proc().fd(fd) {
            None => (self.touched(), (-abi::EBADF) as i64),
            Some(FdView::File(f)) => {
                let k = self.fd_set(fd, None);
                if f.writable && f.dirty {
                    match k.fs.file_written(f.name, f.data) {
                        (fs, Ok(_)) => (KView { fs, ..k }, 0),
                        (fs, Err(e)) => (KView { fs, ..k }, (-errno_of(e)) as i64),
                    }
                } else {
                    (k, 0)
                }
            },
            Some(v) => (self.fd_set(fd, None).dropped(v), 0),
        }
    }
}

/// An empty file at `path`.
fn empty_file(path: Vec<u8>, writable: bool) -> (f: OpenFile)
    ensures
        f@ == (FileView {
            name: path@,
            data: Seq::empty(),
            offset: 0,
            writable,
            dirty: false,
            is_dir: false,
        }),
{
    let f = OpenFile {
        name: path,
        data: Vec::new(),
        offset: 0,
        writable,
        dirty: false,
        is_dir: false,
    };
    assert(f@.data =~= Seq::<u8>::empty());
    f
}

/// Opens what the absolute path `path` names, as the flags ask for it.
fn open_path(k: &mut Kernel, path: Vec<u8>, flags: u64) -> (r: Result<OpenFile, i64>)
    requires
        old(k)@.wf(),
    ensures
        final(k)@.wf(),
        final(k)@ == (KView { fs: open_target(old(k)@.fs, path@, flags).0, ..old(k)@ }),
        match open_target(old(k)@.fs, path@, flags).1 {
            Ok(f) => r matches Ok(f2) && f2@ == f,
            Err(e) => r matches Err(e2) && e2 == e && 0 < e < 4096,
        },
{
    let writable = (flags & abi::O_ACCMODE) != abi::O_RDONLY;
    let nothing: [u8; 0] = [];
    assert(nothing@ =~= Seq::<u8>::empty());
    match k.fs.lookup(path.as_slice()) {
        Ok(Node::File(existing)) => {
            if flags & abi::O_TRUNC != 0 {
                match k.fs.write_file(path.as_slice(), &nothing) {
                    Ok(_) => Ok(empty_file(path, writable)),
                    Err(e) => Err(fat_errno(e)),
                }
            } else {
                let offset: u64 = if flags & abi::O_APPEND != 0 { existing.len() as u64 } else { 0 };
                Ok(
                    OpenFile {
                        name: path,
                        data: existing,
                        offset,
                        writable,
                        dirty: false,
                        is_dir: false,
                    },
                )
            }
        },
        Ok(Node::Dir(items)) => {
            if writable {
                return Err(abi::EISDIR);
            }
            let data = dirents::serialize_dirents(&items);
            Ok(OpenFile { name: path, data, offset: 0, writable, dirty: false, is_dir: true })
        },
        Err(FatError::NotFound) => {
            if flags & abi::O_CREAT != 0 {
                match k.fs.write_file(path.as_slice(), &nothing) {
                    Ok(_) => Ok(empty_file(path, writable)),
                    Err(e) => Err(fat_errno(e)),
                }
            } else {
                Err(abi::ENOENT)
            }
        },
        Err(e) => Err(fat_errno(e)),
    }
}

/// `open(path, flags)`: the descriptor of the file or directory.
pub fn sys_open(k: &mut Kernel, path_ptr: u64, flags: u64) -> (r: i64)
    requires
        old(k)@.wf(),
    ensures
        final(k)@.wf(),
        (final(k)@, r) == old(k)@.sys_open(path_ptr, flags),
{
    let path = match path_arg(k, path_ptr) {
        Ok(p) => p,
        Err(e) => {
            return -e;
        },
    };
    match open_path(k, path, flags) {
        Err(e) => -e,
        Ok(f) => alloc_fd(k, Fd::File(f)),
    }
}

/// `close(fd)`: what was written to a file goes to the disk.
pub fn sys_close(k: &mut Kernel, fd: u64) -> (r: i64)
    requires
        old(k)@.wf(),
    ensures
        final(k)@.wf(),
        (final(k)@, r) == old(k)@.sys_close(fd),
{
    let ghost before = k@;
    let mut p = k.take_proc();
    let ghost pv = p@;
    let i = match slot_of(&p.fds, fd) {
        Some(i) => i,
        None => {
            k.put_proc(p);
            assert(k@.procs =~= before.touched().procs);
            return -abi::EBADF;
        },
    };
    let entry = replace_slot(&mut p.fds, i, None);
    k.put_proc(p);
    assert(k@.procs =~= before.fd_set(fd, None).procs);
    assert(k@ == before.fd_set(fd, None));
    match entry {
        None => -abi::EBADF,
        Some(e) => {
            match e {
                Fd::File(f) => {
                    if f.writable && f.dirty {
                        match k.fs.write_file(f.name.as_slice(), f.data.as_slice()) {
                            Ok(_) => 0,
                            Err(e) => -fat_errno(e),
                        }
                    } else {
                        0
                    }
                },
                other => {
                    proof {
                        lemma_slot_frame(k@, Some(other@));
                    }
                    k.drop_fd(&other);
                    0
                },
            }
        },
    }
}

// ---------------------------------------------------------------------------------------------
// Directories
// ---------------------------------------------------------------------------------------------

/// The number that a call returns for a result of the file system.
pub open spec fn fs_result(r: Result<(), FatError>) -> i64 {
    match r {
        Ok(_) => 0,
        Err(e) => (-errno_of(e)) as i64,
    }
}

impl KView {
    /// What `chdir` does.
    pub open spec fn sys_chdir(self, path_ptr: u64) -> (KView, i64) {
        match self.path_arg(path_ptr) {
            (k, Err(e)) => (k, (-e) as i64),
            (k, Ok(path)) => match k.fs.node(path) {
                Ok(NodeView::Dir(_)) => (k.with_proc(ProcView { cwd: path, ..k.proc() }), 0),
                Ok(NodeView::File(_)) => (k, (-abi::ENOTDIR) as i64),
                Err(e) => (k, (-errno_of(e)) as i64),
            },
        }
    }

    /// What `getcwd` does.
    pub open spec fn sys_getcwd(self, buf: u64, size: u64) -> (KView, i64) {
        let k = self.touched();
        let cwd = self.proc().cwd;
        if size < cwd.len() + 1 {
            (k, (-abi::ERANGE) as i64)
        } else {
            match uaccess::user_copied(self.mem, buf, cwd.push(0)) {
                (mem, Ok(_)) => (KView { mem, ..k }, (cwd.len() + 1) as i64),
                (_, Err(e)) => (k, (-e) as i64),
            }
        }
    }

    /// Where descriptor `fd` is a directory, its position is at a record or at the end.
    pub open spec fn dirents_readable(self, fd: u64, count: u64) -> bool {
        self.proc().fd(fd) matches Some(FdView::File(f)) ==> f.is_dir ==> dirents::dents_span(
            f.data,
            f.offset as int,
            0,
            count as int,
        ) is Some
    }

    /// What `getdents64` does.
    pub open spec fn sys_getdents64(self, fd: u64, buf: u64, count: u64) -> (KView, i64) {
        let k = self.touched();
        match self.proc().fd(fd) {
            None => (k, (-abi::EBADF) as i64),
            Some(FdView::File(f)) => if !f.is_dir {
                (k, (-abi::ENOTDIR) as i64)
            } else {
                let span = dirents::dents_span(f.data, f.offset as int, 0, count as int)->0;
                if span == 0 {
                    if f.offset >= f.data.len() {
                        (k, 0)
                    } else {
                        (k, (-abi::EINVAL) as i64)
                    }
                } else {
                    match uaccess::user_copied(
                        self.mem,
                        buf,
                        f.data.subrange(f.offset as int, f.offset + span),
                    ) {
                        (mem, Ok(_)) => (
                            KView {
                                mem,
                                ..self.fd_set(
                                    fd,
                                    Some(
                                        FdView::File(
                                            FileView { offset: (f.offset + span) as u64, ..f },
                                        ),
                                    ),
                                )
                            },
                            span as i64,
                        ),
                        (_, Err(e)) => (k, (-e) as i64),
                    }
                }
            },
            Some(_) => (k, (-abi::ENOTDIR) as i64),
        }
    }

    /// What `mkdir` does.
    pub open spec fn sys_mkdir(self, path_ptr: u64) -> (KView, i64) {
        match self.path_arg(path_ptr) {
            (k, Err(e)) => (k, (-e) as i64),
            (k, Ok(path)) => {
                let (fs, r) = k.fs.dir_made(path);
                (KView { fs, ..k }, fs_result(r))
            },
        }
    }

    /// What `unlink` does.
    pub open spec fn sys_unlink(self, path_ptr: u64) -> (KView, i64) {
        match self.path_arg(path_ptr) {
            (k, Err(e)) => (k, (-e) as i64),
            (k, Ok(path)) => {
                let (fs, r) = k.fs.file_removed(path);
                (KView { fs, ..k }, fs_result(r))
            },
        }
    }

    /// What `rmdir` does.
    pub open spec fn sys_rmdir(self, path_ptr: u64) -> (KView, i64) {
        match self.path_arg(path_ptr) {
            (k, Err(e)) => (k, (-e) as i64),
            (k, Ok(path)) => {
                let (fs, r) = k.fs.dir_removed(path);
                (KView { fs, ..k }, fs_result(r))
            },
        }
    }
}

/// `chdir(path)`.
pub fn sys_chdir(k: &mut Kernel, path_ptr: u64) -> (r: i64)
    requires
        old(k)@.wf(),
    ensures
        final(k)@.wf(),
        (final(k)@, r) == old(k)@.sys_chdir(path_ptr),
{
    let path = match path_arg(k, path_ptr) {
        Ok(p) => p,
        Err(e) => {
            return -e;
        },
    };
    match k.fs.lookup(path.as_slice()) {
        Ok(Node::Dir(_)) => {
            let ghost mid = k@;
            let mut p = k.take_proc();
            p.cwd = path;
            k.put_proc(p);
            assert(k@.procs =~= mid.with_proc(ProcView { cwd: path@, ..mid.proc() }).procs);
            0
        },
        Ok(Node::File(_)) => -abi::ENOTDIR,
        Err(e) => -fat_errno(e),
    }
}

/// `getcwd(buf, size)`: the working directory, ended by a zero. Returns its length with the zero.
pub fn sys_getcwd(k: &mut Kernel, buf: u64, size: u64) -> (r: i64)
    requires
        old(k)@.wf(),
    ensures
        final(k)@.wf(),
        (final(k)@, r) == old(k)@.sys_getcwd(buf, size),
{
    let ghost before = k@;
    let p = k.take_proc();
    let mut out = util::slice_to_vec(p.cwd.as_slice(), 0, p.cwd.len());
    assert(out@ =~= p.cwd@);
    k.put_proc(p);
    assert(k@.procs =~= before.touched().procs);
    let len = out.len() as u64;
    if size <= len {
        return -abi::ERANGE;
    }
    out.push(0);
    match uaccess::copy_to_user(&mut k.mem, buf, out.as_slice()) {
        Ok(_) => (len + 1) as i64,
        Err(e) => {
            assert(e == abi::EFAULT);
            -e
        },
    }
}

/// Whether a listing can be read from descriptor `fd`: if it is a directory, its position is at a
/// record or at the end. So it is unless `lseek` has moved it elsewhere.
pub fn dirents_readable(k: &Kernel, fd: u64, count: u64) -> (r: bool)
    ensures
        r == k@.dirents_readable(fd, count),
{
    assert(k@.procs.dom() =~= k.procs@.dom());
    match k.procs.get(&k.key) {
        Some(p) => {
            assert(p@ == k@.proc());
            if fd < p.fds.len() as u64 {
                assert(p@.fds[fd as int] == kernel::slot_view(p.fds@[fd as int]));
                match &p.fds[fd as usize] {
                    Some(Fd::File(f)) => {
                        if f.is_dir {
                            dirents::whole_records(f.data.as_slice(), f.offset, count).is_some()
                        } else {
                            true
                        }
                    },
                    _ => true,
                }
            } else {
                true
            }
        },
        None => true,
    }
}

/// `getdents64(fd, buf, count)`: the next records of a directory, as many as fit.
pub fn sys_getdents64(k: &mut Kernel, fd: u64, buf: u64, count: u64) -> (r: i64)
    requires
        old(k)@.wf(),
        old(k)@.dirents_readable(fd, count),
    ensures
        final(k)@.wf(),
        (final(k)@, r) == old(k)@.sys_getdents64(fd, buf, count),
{
    let ghost before = k@;
    let mut p = k.take_proc();
    let ghost pv = p@;
    let i = match slot_of(&p.fds, fd) {
        Some(i) => i,
        None => {
            k.put_proc(p);
            assert(k@.procs =~= before.touched().procs);
            return -abi::EBADF;
        },
    };
    assert(pv.fds[i as int] == kernel::slot_view(p.fds@[i as int]));
    let mut result: i64 = -abi::ENOTDIR;
    let entry = replace_slot(&mut p.fds, i, None);
    match entry {
        Some(Fd::File(mut f)) => {
            let ghost fv = f@;
            if f.is_dir {
                let span = match dirents::whole_records(f.data.as_slice(), f.offset, count) {
                    Some(n) => n,
                    None => 0,
                };
                if span == 0 {
                    result = if f.offset >= f.data.len() as u64 { 0 } else { -abi::EINVAL };
                } else {
                    assert(f.offset + span <= f.data.len());
                    let at = f.offset as usize;
                    let part = util::slice_to_vec(f.data.as_slice(), at, at + span);
                    match uaccess::copy_to_user(&mut k.mem, buf, part.as_slice()) {
                        Ok(_) => {
                            f.offset = f.offset + span as u64;
                            result = span as i64;
                        },
                        Err(e) => {
                            assert(e == abi::EFAULT);
                            result = -e;
                        },
                    }
                }
            }
            let ghost now = FdView::File(f@);
            let _ = replace_slot(&mut p.fds, i, Some(Fd::File(f)));
            assert(p@.fds =~= pv.fds.update(i as int, Some(now)));
        },
        other => {
            let _ = replace_slot(&mut p.fds, i, other);
            assert(p@.fds =~= pv.fds);
        },
    }
    assert(p@.fds =~= pv.fds || result > 0);
    k.put_proc(p);
    assert(k@.procs =~= before.sys_getdents64(fd, buf, count).0.procs);
    result
}

/// `mkdir(path, mode)`. The mode is not used.
pub fn sys_mkdir(k: &mut Kernel, path_ptr: u64, _mode: u64) -> (r: i64)
    requires
        old(k)@.wf(),
    ensures
        final(k)@.wf(),
        (final(k)@, r) == old(k)@.sys_mkdir(path_ptr),
{
    match path_arg(k, path_ptr) {
        Ok(path) => match k.fs.mkdir(path.as_slice()) {
            Ok(_) => 0,
            Err(e) => -fat_errno(e),
        },
        Err(e) => -e,
    }
}

/// `unlink(path)`.
pub fn sys_unlink(k: &mut Kernel, path_ptr: u64) -> (r: i64)
    requires
        old(k)@.wf(),
    ensures
        final(k)@.wf(),
        (final(k)@, r) == old(k)@.sys_unlink(path_ptr),
{
    match path_arg(k, path_ptr) {
        Ok(path) => match k.fs.unlink(path.as_slice()) {
            Ok(_) => 0,
            Err(e) => -fat_errno(e),
        },
        Err(e) => -e,
    }
}

/// `rmdir(path)`.
pub fn sys_rmdir(k: &mut Kernel, path_ptr: u64) -> (r: i64)
    requires
        old(k)@.wf(),
    ensures
        final(k)@.wf(),
        (final(k)@, r) == old(k)@.sys_rmdir(path_ptr),
{
    match path_arg(k, path_ptr) {
        Ok(path) => match k.fs.rmdir(path.as_slice()) {
            Ok(_) => 0,
            Err(e) => -fat_errno(e),
        },
        Err(e) => -e,
    }
}

// ---------------------------------------------------------------------------------------------
// Positions, copies and flags of descriptors
// ---------------------------------------------------------------------------------------------

/// Where `whence` counts from in a file.
pub open spec fn seek_base(f: FileView, whence: u64) -> Option<i64> {
    if whence == SEEK_SET {
        Some(0)
    } else if whence == SEEK_CUR {
        Some(f.offset as i64)
    } else if whence == SEEK_END {
        Some(f.data.len() as i64)
    } else {
        None
    }
}

/// Index of the first free slot from `i` on, counting those that do not exist yet; the largest
/// number of descriptors if there is none.
pub open spec fn free_from(fds: Seq<Option<FdView>>, i: int) -> int
    decreases MAX_FDS - i,
{
    if i >= MAX_FDS {
        MAX_FDS as int
    } else if i < fds.len() && fds[i] is Some {
        free_from(fds, i + 1)
    } else {
        i
    }
}

impl KView {
    /// What `lseek` does.
    pub open spec fn sys_lseek(self, fd: u64, offset: i64, whence: u64) -> (KView, i64) {
        let k = self.touched();
        match self.proc().fd(fd) {
            None => (k, (-abi::EBADF) as i64),
            Some(FdView::File(f)) => match seek_base(f, whence) {
                None => (k, (-abi::EINVAL) as i64),
                Some(base) => if 0 <= base + offset <= i64::MAX {
                    (
                        self.fd_set(
                            fd,
                            Some(FdView::File(FileView { offset: (base + offset) as u64, ..f })),
                        ),
                        (base + offset) as i64,
                    )
                } else {
                    (k, (-abi::EINVAL) as i64)
                },
            },
            Some(_) => (k, (-abi::ESPIPE) as i64),
        }
    }

    /// The calling process with a copy of descriptor `v` as number `n`, in place of what `n` was.
    pub open spec fn fd_copied_to(self, v: FdView, n: int) -> KView {
        let p = self.proc();
        let fds = extended(p.fds, n);
        self.with_proc(ProcView { fds: fds.update(n, Some(v)), ..p }).copied(v).slot_dropped(
            fds[n],
        )
    }

    /// What `dup2` does.
    pub open spec fn sys_dup2(self, oldfd: u64, newfd: u64) -> (KView, i64) {
        if newfd >= MAX_FDS {
            (self, (-abi::EBADF) as i64)
        } else {
            match self.proc().fd(oldfd) {
                None => (self.touched(), (-abi::EBADF) as i64),
                Some(v) => if oldfd == newfd {
                    (self.touched(), newfd as i64)
                } else {
                    (self.fd_copied_to(v, newfd as int), newfd as i64)
                },
            }
        }
    }

    /// What `fcntl` does.
    pub open spec fn sys_fcntl(self, fd: u64, cmd: u64, arg: u64) -> (KView, i64) {
        let k = self.touched();
        if cmd == abi::F_DUPFD {
            if arg >= MAX_FDS {
                (self, (-abi::EINVAL) as i64)
            } else {
                match self.proc().fd(fd) {
                    None => (k, (-abi::EBADF) as i64),
                    Some(v) => {
                        let n = free_from(self.proc().fds, arg as int);
                        if n >= MAX_FDS {
                            (k.copied(v).dropped(v), (-abi::EMFILE) as i64)
                        } else {
                            (self.fd_copied_to(v, n), n as i64)
                        }
                    },
                }
            }
        } else if cmd == abi::F_GETFD || cmd == abi::F_SETFD || cmd == abi::F_SETFL {
            if self.proc().fd(fd) is Some {
                (k, 0)
            } else {
                (k, (-abi::EBADF) as i64)
            }
        } else if cmd == abi::F_GETFL {
            (
                k,
                match self.proc().fd(fd) {
                    None => (-abi::EBADF) as i64,
                    Some(FdView::Console) => abi::O_RDONLY as i64,
                    Some(FdView::PipeRead(_)) => abi::O_RDONLY as i64,
                    Some(FdView::Vga) => abi::O_WRONLY as i64,
                    Some(FdView::Serial) => abi::O_WRONLY as i64,
                    Some(FdView::PipeWrite(_)) => abi::O_WRONLY as i64,
                    Some(FdView::Socket(_, _)) => abi::O_RDWR as i64,
                    Some(FdView::File(f)) => if f.writable {
                        abi::O_RDWR as i64
                    } else {
                        abi::O_RDONLY as i64
                    },
                },
            )
        } else {
            (self, (-abi::EINVAL) as i64)
        }
    }
}

/// `lseek(fd, offset, whence)`: moves the position of a file, which may lie beyond its end.
pub fn sys_lseek(k: &mut Kernel, fd: u64, offset: i64, whence: u64) -> (r: i64)
    requires
        old(k)@.wf(),
    ensures
        final(k)@.wf(),
        (final(k)@, r) == old(k)@.sys_lseek(fd, offset, whence),
{
    let ghost before = k@;
    let mut p = k.take_proc();
    let ghost pv = p@;
    let i = match slot_of(&p.fds, fd) {
        Some(i) => i,
        None => {
            k.put_proc(p);
            assert(k@.procs =~= before.touched().procs);
            return -abi::EBADF;
        },
    };
    assert(pv.fds[i as int] == kernel::slot_view(p.fds@[i as int]));
    let mut result: i64 = -abi::ESPIPE;
    let entry = replace_slot(&mut p.fds, i, None);
    match entry {
        Some(Fd::File(mut f)) => {
            result = -abi::EINVAL;
            if whence == SEEK_SET || whence == SEEK_CUR || whence == SEEK_END {
                let base: i64 = if whence == SEEK_SET {
                    0
                } else if whence == SEEK_CUR {
                    f.offset as i64
                } else {
                    f.data.len() as i64
                };
                match base.checked_add(offset) {
                    Some(pos) => {
                        if pos >= 0 {
                            f.offset = pos as u64;
                            result = pos;
                        }
                    },
                    None => {},
                }
            }
            let ghost now = FdView::File(f@);
            let _ = replace_slot(&mut p.fds, i, Some(Fd::File(f)));
            assert(p@.fds =~= pv.fds.update(i as int, Some(now)));
        },
        other => {
            let _ = replace_slot(&mut p.fds, i, other);
            assert(p@.fds =~= pv.fds);
        },
    }
    assert(p@.fds =~= pv.fds || result >= 0);
    k.put_proc(p);
    assert(k@.procs =~= before.sys_lseek(fd, offset, whence).0.procs);
    result
}

/// Gives the calling process a copy of descriptor `i` as number `n`.
fn copy_fd(k: &mut Kernel, i: usize, n: usize)
    requires
        old(k)@.wf(),
        i < old(k)@.proc().fds.len(),
        old(k)@.proc().fds[i as int] is Some,
        n < MAX_FDS,
        n != i,
    ensures
        final(k)@.wf(),
        final(k)@ == old(k)@.fd_copied_to(old(k)@.proc().fds[i as int]->0, n as int),
{
    let ghost before = k@;
    let mut p = k.take_proc();
    let ghost pv = p@;
    let ghost v = pv.fds[i as int]->0;
    assert(pv.fds[i as int] == kernel::slot_view(p.fds@[i as int]));
    let copy = match &p.fds[i] {
        Some(fd) => fd.duplicate(),
        None => Fd::Console,
    };
    let ghost fds = extended(pv.fds, n as int);
    let ghost less = k@;
    let ghost k1 = before.with_proc(ProcView { fds: fds.update(n as int, Some(v)), ..pv });
    proof {
        lemma_slot_copied_procs(before, less.procs, Some(v));
        lemma_slot_copied_procs(before, k1.procs, Some(v));
        lemma_slot_frame(before, Some(v));
    }
    k.count_copy(&copy);
    extend_table(&mut p.fds, n);
    assert(kernel::fds_view(p.fds@)[n as int] == kernel::slot_view(p.fds@[n as int]));
    let gone = replace_slot(&mut p.fds, n, Some(copy));
    k.put_proc(p);
    assert(k@.procs =~= k1.procs);
    assert(k@ == k1.copied(v));
    proof {
        lemma_slot_frame(k@, fds[n as int]);
    }
    k.drop_slot(&gone);
}

/// `dup2(oldfd, newfd)`: `newfd` becomes a copy of `oldfd`. What `newfd` was is dropped.
pub fn sys_dup2(k: &mut Kernel, oldfd: u64, newfd: u64) -> (r: i64)
    requires
        old(k)@.wf(),
    ensures
        final(k)@.wf(),
        (final(k)@, r) == old(k)@.sys_dup2(oldfd, newfd),
{
    if newfd >= MAX_FDS as u64 {
        return -abi::EBADF;
    }
    let ghost before = k@;
    let p = k.take_proc();
    let slot = slot_of(&p.fds, oldfd);
    assert(oldfd < p.fds@.len() ==> p@.fds[oldfd as int] == kernel::slot_view(
        p.fds@[oldfd as int],
    ));
    k.put_proc(p);
    assert(k@.procs =~= before.touched().procs);
    match slot {
        None => -abi::EBADF,
        Some(i) => {
            if oldfd != newfd {
                proof {
                    lemma_touched_copied(before, before.proc().fds[i as int]->0, newfd as int);
                    assert(k@ == before.touched());
                    assert(before.touched().proc() == before.proc());
                }
                copy_fd(k, i, newfd as usize);
            }
            newfd as i64
        },
    }
}

/// Looking at the state of a process first makes no difference to a copy.
proof fn lemma_touched_copied(k: KView, v: FdView, n: int)
    ensures
        k.touched().fd_copied_to(v, n) == k.fd_copied_to(v, n),
{
    let p = k.proc();
    let fds = extended(p.fds, n);
    let q = ProcView { fds: fds.update(n, Some(v)), ..p };
    assert(k.touched().proc() == p);
    assert(k.touched().with_proc(q).procs =~= k.with_proc(q).procs);
    assert(k.touched().with_proc(q) == k.with_proc(q));
}

/// `fcntl(fd, cmd, arg)`: copies a descriptor to the first free number from `arg` on, or tells how
/// it may be used. Descriptor flags are not kept.
pub fn sys_fcntl(k: &mut Kernel, fd: u64, cmd: u64, arg: u64) -> (r: i64)
    requires
        old(k)@.wf(),
    ensures
        final(k)@.wf(),
        (final(k)@, r) == old(k)@.sys_fcntl(fd, cmd, arg),
{
    let ghost before = k@;
    if cmd == abi::F_DUPFD {
        if arg >= MAX_FDS as u64 {
            return -abi::EINVAL;
        }
    } else if cmd != abi::F_GETFD && cmd != abi::F_SETFD && cmd != abi::F_SETFL && cmd
        != abi::F_GETFL {
        return -abi::EINVAL;
    }
    let p = k.take_proc();
    let ghost pv = p@;
    let i = match slot_of(&p.fds, fd) {
        Some(i) => i,
        None => {
            k.put_proc(p);
            assert(k@.procs =~= before.touched().procs);
            return -abi::EBADF;
        },
    };
    assert(pv.fds[i as int] == kernel::slot_view(p.fds@[i as int]));
    if cmd == abi::F_DUPFD {
        let mut n: usize = arg as usize;
        while n < MAX_FDS
            invariant
                pv == p@,
                arg <= n <= MAX_FDS,
                free_from(pv.fds, arg as int) == free_from(pv.fds, n as int),
            ensures
                free_from(pv.fds, arg as int) == n,
            decreases MAX_FDS - n,
        {
            if n >= p.fds.len() {
                break;
            }
            assert(pv.fds[n as int] == kernel::slot_view(p.fds@[n as int]));
            match &p.fds[n] {
                Some(_) => {},
                None => {
                    break;
                },
            }
            n += 1;
        }
        if n >= MAX_FDS {
            let dup = match &p.fds[i] {
                Some(fd) => fd.duplicate(),
                None => Fd::Console,
            };
            k.put_proc(p);
            assert(k@.procs =~= before.touched().procs);
            proof {
                lemma_slot_frame(before.touched(), Some(dup@));
                lemma_slot_frame(before.touched().copied(dup@), Some(dup@));
            }
            k.count_copy(&dup);
            k.drop_fd(&dup);
            return -abi::EMFILE;
        }
        k.put_proc(p);
        assert(k@.procs =~= before.touched().procs);
        proof {
            lemma_touched_copied(before, pv.fds[i as int]->0, n as int);
            lemma_free_from(pv.fds, arg as int);
        }
        copy_fd(k, i, n);
        return n as i64;
    }
    let result: i64 = if cmd == abi::F_GETFL {
        match &p.fds[i] {
            Some(v) => {
                match v {
                    Fd::Console => abi::O_RDONLY as i64,
                    Fd::PipeRead(_) => abi::O_RDONLY as i64,
                    Fd::Vga => abi::O_WRONLY as i64,
                    Fd::Serial => abi::O_WRONLY as i64,
                    Fd::PipeWrite(_) => abi::O_WRONLY as i64,
                    Fd::Socket(_, _) => abi::O_RDWR as i64,
                    Fd::File(f) => {
                        if f.writable {
                            abi::O_RDWR as i64
                        } else {
                            abi::O_RDONLY as i64
                        }
                    },
                }
            },
            None => -abi::EBADF,
        }
    } else {
        0
    };
    k.put_proc(p);
    assert(k@.procs =~= before.touched().procs);
    result
}

/// What is found free is free.
proof fn lemma_free_from(fds: Seq<Option<FdView>>, i: int)
    requires
        0 <= i,
    ensures
        ({
            let n = free_from(fds, i);
            n < MAX_FDS ==> i <= n && (n < fds.len() ==> fds[n] is None)
        }),
    decreases MAX_FDS - i,
{
    if i < MAX_FDS && i < fds.len() && fds[i] is Some {
        lemma_free_from(fds, i + 1);
    }
}

// ---------------------------------------------------------------------------------------------
// Metadata
// ---------------------------------------------------------------------------------------------

/// The structure that `stat` fills in: number, links, mode, size, block size and blocks.
pub open spec fn stat_bytes(mode: u32, ino: u64, nlink: u64, size: u64) -> Seq<u8> {
    let zero = Seq::new(8, |i: int| 0u8);
    zero + util::enc64(ino) + util::enc64(nlink) + util::enc32(mode) + Seq::new(20, |i: int| 0u8)
        + util::enc64(size) + util::enc64(512) + util::enc64(((size + 511) / 512) as u64)
        + Seq::new(72, |i: int| 0u8)
}

/// Type and permissions of a file or directory.
pub open spec fn mode_of(is_dir: bool) -> u32 {
    if is_dir {
        abi::S_IFDIR | 0o755
    } else {
        abi::S_IFREG | 0o644
    }
}

/// Number of links of a file or directory.
pub open spec fn links_of(is_dir: bool) -> u64 {
    if is_dir {
        2
    } else {
        1
    }
}

/// What `fstat` tells of a descriptor.
pub open spec fn fd_stat(v: FdView) -> Seq<u8> {
    match v {
        FdView::PipeRead(_) => stat_bytes(abi::S_IFIFO | 0o600, 0, 1, 0),
        FdView::PipeWrite(_) => stat_bytes(abi::S_IFIFO | 0o600, 0, 1, 0),
        FdView::Socket(_, _) => stat_bytes(abi::S_IFSOCK | 0o600, 0, 1, 0),
        FdView::File(f) => stat_bytes(
            mode_of(f.is_dir),
            0,
            links_of(f.is_dir),
            f.data.len() as u64,
        ),
        _ => stat_bytes(abi::S_IFCHR | 0o620, 0, 1, 0),
    }
}

impl KView {
    /// The kernel after `data` was handed to the caller at `buf`, and 0 or the error.
    pub open spec fn handed_out(self, buf: u64, data: Seq<u8>) -> (KView, i64) {
        match uaccess::user_copied(self.mem, buf, data) {
            (mem, Ok(_)) => (KView { mem, ..self }, 0),
            (_, Err(e)) => (self, (-e) as i64),
        }
    }

    /// What `stat` does.
    pub open spec fn sys_stat(self, path_ptr: u64, statbuf: u64) -> (KView, i64) {
        match self.path_arg(path_ptr) {
            (k, Err(e)) => (k, (-e) as i64),
            (k, Ok(path)) => match k.fs.meta(path) {
                Err(e) => (k, (-errno_of(e)) as i64),
                Ok(m) => k.handed_out(
                    statbuf,
                    stat_bytes(
                        mode_of(m.is_dir),
                        m.first_cluster as u64,
                        links_of(m.is_dir),
                        m.size as u64,
                    ),
                ),
            },
        }
    }

    /// What `fstat` does.
    pub open spec fn sys_fstat(self, fd: u64, statbuf: u64) -> (KView, i64) {
        match self.proc().fd(fd) {
            None => (self.touched(), (-abi::EBADF) as i64),
            Some(v) => self.touched().handed_out(statbuf, fd_stat(v)),
        }
    }
}

/// The structure that `stat` fills in.
fn build_stat(mode: u32, ino: u64, nlink: u64, size: u64) -> (b: [u8; STAT_SIZE])
    ensures
        b@ == stat_bytes(mode, ino, nlink, size),
{
    let mut b = [0u8;144];
    let blocks: u64 = size / 512 + (if size % 512 == 0 { 0 } else { 1 });
    util::put_u64(&mut b, 8, ino);
    util::put_u64(&mut b, 16, nlink);
    util::put_u32(&mut b, 24, mode);
    util::put_u64(&mut b, 48, size);
    util::put_u64(&mut b, 56, 512);
    util::put_u64(&mut b, 64, blocks);
    assert(blocks == (size + 511) / 512);
    assert(b@ =~= stat_bytes(mode, ino, nlink, size));
    b
}

/// Type and permissions of a file or directory.
fn file_mode(is_dir: bool) -> (m: u32)
    ensures
        m == mode_of(is_dir),
{
    if is_dir {
        abi::S_IFDIR | 0o755
    } else {
        abi::S_IFREG | 0o644
    }
}

/// Hands `data` to the caller.
pub(crate) fn hand_out(k: &mut Kernel, buf: u64, data: &[u8]) -> (r: i64)
    requires
        old(k)@.wf(),
    ensures
        final(k)@.wf(),
        (final(k)@, r) == old(k)@.handed_out(buf, data@),
{
    let ghost before = k@;
    let r: i64 = match uaccess::copy_to_user(&mut k.mem, buf, data) {
        Ok(_) => 0,
        Err(e) => {
            assert(e == abi::EFAULT);
            -e
        },
    };
    assert(k@ == KView { mem: k@.mem, ..before });
    r
}

/// `stat(path, statbuf)`.
pub fn sys_stat(k: &mut Kernel, path_ptr: u64, statbuf: u64) -> (r: i64)
    requires
        old(k)@.wf(),
    ensures
        final(k)@.wf(),
        (final(k)@, r) == old(k)@.sys_stat(path_ptr, statbuf),
{
    let path = match path_arg(k, path_ptr) {
        Ok(p) => p,
        Err(e) => {
            return -e;
        },
    };
    match k.fs.stat(path.as_slice()) {
        Ok(m) => {
            let nlink: u64 = if m.is_dir { 2 } else { 1 };
            let st = build_stat(
                file_mode(m.is_dir),
                m.first_cluster as u64,
                nlink,
                m.size as u64,
            );
            hand_out(k, statbuf, &st)
        },
        Err(e) => -fat_errno(e),
    }
}

/// `fstat(fd, statbuf)`.
pub fn sys_fstat(k: &mut Kernel, fd: u64, statbuf: u64) -> (r: i64)
    requires
        old(k)@.wf(),
    ensures
        final(k)@.wf(),
        (final(k)@, r) == old(k)@.sys_fstat(fd, statbuf),
{
    let ghost before = k@;
    let p = k.take_proc();
    let ghost pv = p@;
    let i = match slot_of(&p.fds, fd) {
        Some(i) => i,
        None => {
            k.put_proc(p);
            assert(k@.procs =~= before.touched().procs);
            return -abi::EBADF;
        },
    };
    assert(pv.fds[i as int] == kernel::slot_view(p.fds@[i as int]));
    let st = match &p.fds[i] {
        Some(Fd::PipeRead(_)) => build_stat(abi::S_IFIFO | 0o600, 0, 1, 0),
        Some(Fd::PipeWrite(_)) => build_stat(abi::S_IFIFO | 0o600, 0, 1, 0),
        Some(Fd::Socket(_, _)) => build_stat(abi::S_IFSOCK | 0o600, 0, 1, 0),
        Some(Fd::File(f)) => {
            let nlink: u64 = if f.is_dir { 2 } else { 1 };
            build_stat(file_mode(f.is_dir), 0, nlink, f.data.len() as u64)
        },
        _ => build_stat(abi::S_IFCHR | 0o620, 0, 1, 0),
    };
    k.put_proc(p);
    assert(k@.procs =~= before.touched().procs);
    hand_out(k, statbuf, &st)
}

} // verus!
