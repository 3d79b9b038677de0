//! What system calls work on: the state of the kernel as one value.

use crate::drivers::console::{Console, ConsoleView};
use crate::drivers::vga::{ScreenView, Writer};
use crate::fs::vfs::{FileSystem, FsView};
use crate::mm::paging::{MemView, PageView, UserMemory};
use crate::sched::thread::{self, BlockReason, SchedView, Scheduler};
use crate::syscall::uaccess::USER_SPACE_END;
use std::collections::BTreeMap;
use vstd::prelude::*;

verus! {

/// Most descriptors of a process.
pub const MAX_FDS: usize = 16;

/// The kind of a socket.
#[derive(Debug, Clone, Copy, PartialEq, Eq, Structural)]
pub enum SockKind {
    Udp,
    Tcp,
}

/// An open file or directory: all of its contents and a position. Writes change the contents in
/// memory; closing writes them back. Of a directory the contents are its serialised entries.
#[derive(Clone)]
pub struct OpenFile {
    /// Absolute path, by which contents are written back.
    pub name: Vec<u8>,
    pub data: Vec<u8>,
    pub offset: u64,
    /// Whether it was opened for writing.
    pub writable: bool,
    /// Whether there are changes to be written back.
    pub dirty: bool,
    pub is_dir: bool,
}

/// What an [`OpenFile`] holds.
#[verifier::ext_equal]
pub struct FileView {
    pub name: Seq<u8>,
    pub data: Seq<u8>,
    pub offset: u64,
    pub writable: bool,
    pub dirty: bool,
    pub is_dir: bool,
}

impl View for OpenFile {
    type V = FileView;

    open spec fn view(&self) -> FileView {
        FileView {
            name: self.name@,
            data: self.data@,
            offset: self.offset,
            writable: self.writable,
            dirty: self.dirty,
            is_dir: self.is_dir,
        }
    }
}

impl OpenFile {
    /// A copy with contents and position of its own.
    pub fn duplicate(&self) -> (f: OpenFile)
        ensures
            f@ == self@,
    {
        let name = crate::util::slice_to_vec(self.name.as_slice(), 0, self.name.len());
        let data = crate::util::slice_to_vec(self.data.as_slice(), 0, self.data.len());
        assert(name@ =~= self.name@);
        assert(data@ =~= self.data@);
        OpenFile {
            name,
            data,
            offset: self.offset,
            writable: self.writable,
            dirty: self.dirty,
            is_dir: self.is_dir,
        }
    }
}

/// What a descriptor stands for.
#[derive(Clone)]
pub enum Fd {
    /// Standard input: lines of the console.
    Console,
    /// Standard output: the screen.
    Vga,
    /// Standard error: the serial port.
    Serial,
    /// A file or directory.
    File(OpenFile),
    /// The reading end of a pipe.
    PipeRead(u64),
    /// The writing end of a pipe.
    PipeWrite(u64),
    /// A socket of the network stack.
    Socket(u64, SockKind),
}

/// What an [`Fd`] holds.
#[verifier::ext_equal]
pub enum FdView {
    Console,
    Vga,
    Serial,
    File(FileView),
    PipeRead(u64),
    PipeWrite(u64),
    Socket(u64, SockKind),
}

impl View for Fd {
    type V = FdView;

    open spec fn view(&self) -> FdView {
        match self {
            Fd::Console => FdView::Console,
            Fd::Vga => FdView::Vga,
            Fd::Serial => FdView::Serial,
            Fd::File(f) => FdView::File(f@),
            Fd::PipeRead(id) => FdView::PipeRead(*id),
            Fd::PipeWrite(id) => FdView::PipeWrite(*id),
            Fd::Socket(h, kind) => FdView::Socket(*h, *kind),
        }
    }
}

impl Fd {
    /// A copy. References to pipes and sockets are not counted here.
    pub fn duplicate(&self) -> (f: Fd)
        ensures
            f@ == self@,
    {
        match self {
            Fd::Console => Fd::Console,
            Fd::Vga => Fd::Vga,
            Fd::Serial => Fd::Serial,
            Fd::File(f) => Fd::File(f.duplicate()),
            Fd::PipeRead(id) => Fd::PipeRead(*id),
            Fd::PipeWrite(id) => Fd::PipeWrite(*id),
            Fd::Socket(h, kind) => Fd::Socket(*h, *kind),
        }
    }
}

/// What a slot of a descriptor table holds.
pub open spec fn slot_view(s: Option<Fd>) -> Option<FdView> {
    match s {
        Some(fd) => Some(fd@),
        None => None,
    }
}

/// What a descriptor table holds.
pub open spec fn fds_view(fds: Seq<Option<Fd>>) -> Seq<Option<FdView>> {
    Seq::new(fds.len(), |i: int| slot_view(fds[i]))
}

/// Descriptors, working directory and heap of a process.
#[derive(Clone)]
pub struct ProcState {
    pub fds: Vec<Option<Fd>>,
    /// Absolute path of the working directory.
    pub cwd: Vec<u8>,
    /// End of the heap.
    pub brk: u64,
}

/// What a [`ProcState`] holds.
#[verifier::ext_equal]
pub struct ProcView {
    pub fds: Seq<Option<FdView>>,
    pub cwd: Seq<u8>,
    pub brk: u64,
}

impl View for ProcState {
    type V = ProcView;

    open spec fn view(&self) -> ProcView {
        ProcView { fds: fds_view(self.fds@), cwd: self.cwd@, brk: self.brk }
    }
}

/// The state of a process that has made no call yet: standard streams, the root directory, an
/// empty heap.
pub open spec fn fresh_proc(heap_base: u64) -> ProcView {
    ProcView {
        fds: seq![Some(FdView::Console), Some(FdView::Vga), Some(FdView::Serial)],
        cwd: seq![0x2Fu8],
        brk: heap_base,
    }
}

impl ProcView {
    /// What descriptor `fd` stands for.
    pub open spec fn fd(self, fd: u64) -> Option<FdView> {
        if fd < self.fds.len() {
            self.fds[fd as int]
        } else {
            None
        }
    }

    /// The process with descriptor `fd` of its table replaced.
    pub open spec fn with_fd(self, fd: int, v: Option<FdView>) -> ProcView {
        ProcView { fds: self.fds.update(fd, v), ..self }
    }
}

/// The bytes on their way through a pipe, and how many reading and writing ends there are.
#[derive(Clone)]
pub struct PipeBuf {
    pub data: Vec<u8>,
    pub readers: u64,
    pub writers: u64,
}

/// What a [`PipeBuf`] holds.
#[verifier::ext_equal]
pub struct PipeView {
    pub data: Seq<u8>,
    pub readers: u64,
    pub writers: u64,
}

impl View for PipeBuf {
    type V = PipeView;

    open spec fn view(&self) -> PipeView {
        PipeView { data: self.data@, readers: self.readers, writers: self.writers }
    }
}

/// One more reference; the count stays at its limit.
pub open spec fn more(n: u64) -> u64 {
    if n == u64::MAX {
        n
    } else {
        (n + 1) as u64
    }
}

/// One reference less.
pub open spec fn less(n: u64) -> u64 {
    if n == 0 {
        0
    } else {
        (n - 1) as u64
    }
}

/// What was observed of the last calls.
#[derive(Debug, Clone, Copy, PartialEq, Eq, Structural)]
pub struct Stats {
    /// Descriptor, length, sum of bytes and user stack pointer of the last write to a device.
    pub last_write_fd: u64,
    pub last_write_len: u64,
    pub last_write_sum: u64,
    pub last_write_user_rsp: u64,
    /// Status of the last exit.
    pub last_exit_code: i64,
    /// Sum of the statuses of all exits.
    pub exit_code_sum: i64,
    /// Number of exits.
    pub exit_calls: u64,
    /// Number of processes that were killed for a fault of their own.
    pub user_fault_kills: u64,
}

/// The state of the kernel, with the memory of the process that makes the call.
pub struct Kernel {
    pub fs: FileSystem,
    /// Memory of the calling process.
    pub mem: UserMemory,
    /// Root of the address space of the calling process, by which its state is known.
    pub key: u64,
    pub procs: BTreeMap<u64, ProcState>,
    pub pipes: BTreeMap<u64, PipeBuf>,
    /// Number of the next pipe.
    pub next_pipe: u64,
    /// How many descriptors refer to each socket.
    pub socks: BTreeMap<u64, u64>,
    /// Sockets that no descriptor refers to any more, to be removed from the network stack.
    pub closed_socks: Vec<u64>,
    pub sched: Scheduler,
    pub console: Console,
    pub screen: Writer,
    /// Bytes for the serial port.
    pub serial: Vec<u8>,
    pub stats: Stats,
    /// Where the heap of a process starts and at most ends.
    pub heap_base: u64,
    pub heap_max: u64,
}

/// What a [`Kernel`] holds.
#[verifier::ext_equal]
pub struct KView {
    pub fs: FsView,
    pub mem: MemView,
    pub key: u64,
    pub procs: Map<u64, ProcView>,
    pub pipes: Map<u64, PipeView>,
    pub next_pipe: u64,
    pub socks: Map<u64, u64>,
    pub closed_socks: Seq<u64>,
    pub sched: SchedView,
    pub console: ConsoleView,
    pub screen: ScreenView,
    pub serial: Seq<u8>,
    pub stats: Stats,
    pub heap_base: u64,
    pub heap_max: u64,
}

impl View for Kernel {
    type V = KView;

    open spec fn view(&self) -> KView {
        KView {
            fs: self.fs@,
            mem: self.mem@,
            key: self.key,
            procs: self.procs@.map_values(|p: ProcState| p@),
            pipes: self.pipes@.map_values(|p: PipeBuf| p@),
            next_pipe: self.next_pipe,
            socks: self.socks@,
            closed_socks: self.closed_socks@,
            sched: self.sched@,
            console: self.console@,
            screen: self.screen@,
            serial: self.serial@,
            stats: self.stats,
            heap_base: self.heap_base,
            heap_max: self.heap_max,
        }
    }
}

impl KView {
    /// All parts are in order.
    pub open spec fn wf(self) -> bool {
        &&& self.fs.wf()
        &&& self.mem.wf()
        &&& self.sched.wf()
        &&& self.screen.wf()
        &&& self.heap_base % 4096 == 0
        &&& self.heap_base <= self.heap_max <= USER_SPACE_END - 4096
        &&& forall|id: u64| #[trigger] self.pipes.dom().contains(id) ==> id < self.next_pipe
        &&& forall|key: u64| #[trigger]
            self.procs.dom().contains(key) ==> self.procs[key].fds.len() <= MAX_FDS
                && self.heap_base <= self.procs[key].brk <= self.heap_max
    }

    /// The state of the calling process.
    pub open spec fn proc(self) -> ProcView {
        if self.procs.dom().contains(self.key) {
            self.procs[self.key]
        } else {
            fresh_proc(self.heap_base)
        }
    }

    /// The kernel with the state of the calling process replaced.
    pub open spec fn with_proc(self, p: ProcView) -> KView {
        KView { procs: self.procs.insert(self.key, p), ..self }
    }

    /// The kernel once the state of the calling process was looked at: from then on there is one.
    pub open spec fn touched(self) -> KView {
        self.with_proc(self.proc())
    }

    /// The kernel with all processes that wait on a pipe woken.
    pub open spec fn pipe_waiters_woken(self) -> KView {
        KView {
            sched: SchedView {
                threads: thread::woken(self.sched.threads, BlockReason::Pipe),
                ..self.sched
            },
            ..self
        }
    }

    /// The kernel with pipe `id` replaced; a pipe without ends is gone.
    pub open spec fn with_pipe(self, id: u64, p: PipeView) -> KView {
        if p.readers == 0 && p.writers == 0 {
            KView { pipes: self.pipes.remove(id), ..self }
        } else {
            KView { pipes: self.pipes.insert(id, p), ..self }
        }
    }

    /// The kernel after a descriptor was copied: one more end of its pipe, one more reference to
    /// its socket.
    pub open spec fn copied(self, fd: FdView) -> KView {
        match fd {
            FdView::PipeRead(id) => if self.pipes.dom().contains(id) {
                let p = self.pipes[id];
                self.with_pipe(id, PipeView { readers: more(p.readers), ..p })
            } else {
                self
            },
            FdView::PipeWrite(id) => if self.pipes.dom().contains(id) {
                let p = self.pipes[id];
                self.with_pipe(id, PipeView { writers: more(p.writers), ..p })
            } else {
                self
            },
            FdView::Socket(h, _) => if self.socks.dom().contains(h) {
                KView { socks: self.socks.insert(h, more(self.socks[h])), ..self }
            } else {
                self
            },
            _ => self,
        }
    }

    /// The kernel after a descriptor was dropped. With the last end on one side of a pipe, those
    /// who wait on the other are woken; with the last reference a socket is closed.
    pub open spec fn dropped(self, fd: FdView) -> KView {
        match fd {
            FdView::PipeRead(id) => if self.pipes.dom().contains(id) {
                let p = self.pipes[id];
                let k = self.with_pipe(id, PipeView { readers: less(p.readers), ..p });
                if less(p.readers) == 0 {
                    k.pipe_waiters_woken()
                } else {
                    k
                }
            } else {
                self
            },
            FdView::PipeWrite(id) => if self.pipes.dom().contains(id) {
                let p = self.pipes[id];
                let k = self.with_pipe(id, PipeView { writers: less(p.writers), ..p });
                if less(p.writers) == 0 {
                    k.pipe_waiters_woken()
                } else {
                    k
                }
            } else {
                self
            },
            FdView::Socket(h, _) => if self.socks.dom().contains(h) {
                if less(self.socks[h]) == 0 {
                    KView {
                        socks: self.socks.remove(h),
                        closed_socks: self.closed_socks.push(h),
                        ..self
                    }
                } else {
                    KView { socks: self.socks.insert(h, less(self.socks[h])), ..self }
                }
            } else {
                self
            },
            _ => self,
        }
    }

    /// The kernel after a slot of a descriptor table was copied.
    pub open spec fn slot_copied(self, s: Option<FdView>) -> KView {
        match s {
            Some(fd) => self.copied(fd),
            None => self,
        }
    }

    /// The kernel after a slot of a descriptor table was dropped.
    pub open spec fn slot_dropped(self, s: Option<FdView>) -> KView {
        match s {
            Some(fd) => self.dropped(fd),
            None => self,
        }
    }

    /// The kernel after all slots of a table were copied.
    pub open spec fn table_copied(self, fds: Seq<Option<FdView>>) -> KView
        decreases fds.len(),
    {
        if fds.len() == 0 {
            self
        } else {
            self.table_copied(fds.drop_last()).slot_copied(fds.last())
        }
    }

    /// The kernel after all slots of a table were dropped.
    pub open spec fn table_dropped(self, fds: Seq<Option<FdView>>) -> KView
        decreases fds.len(),
    {
        if fds.len() == 0 {
            self
        } else {
            self.table_dropped(fds.drop_last()).slot_dropped(fds.last())
        }
    }
}

impl Kernel {
    /// A kernel on which no process has made a call yet.
    pub fn new(fs: FileSystem, sched: Scheduler, heap_base: u64, heap_max: u64) -> (k: Kernel)
        requires
            fs@.wf(),
            sched@.wf(),
            heap_base % 4096 == 0,
            heap_base <= heap_max <= USER_SPACE_END - 4096,
        ensures
            k@.wf(),
            k@.fs == fs@,
            k@.sched == sched@,
            k@.mem.pages == Map::<u64, PageView>::empty(),
            k@.key == sched@.kernel_cr3,
            k@.procs == Map::<u64, ProcView>::empty(),
            k@.pipes == Map::<u64, PipeView>::empty(),
            k@.next_pipe == 0,
            k@.socks == Map::<u64, u64>::empty(),
            k@.closed_socks.len() == 0,
            k@.console.ready.len() == 0,
            k@.console.line.len() == 0,
            k@.screen.column == 0,
            forall|i: int|
                0 <= i < k@.screen.cells.len() ==> #[trigger] k@.screen.cells[i] == k@.screen.blank(),
            k@.serial.len() == 0,
            k@.stats == (Stats {
                last_write_fd: 0,
                last_write_len: 0,
                last_write_sum: 0,
                last_write_user_rsp: 0,
                last_exit_code: (-1int) as i64,
                exit_code_sum: 0,
                exit_calls: 0,
                user_fault_kills: 0,
            }),
            k@.heap_base == heap_base,
            k@.heap_max == heap_max,
    {
        let key = sched.kernel_cr3;
        let k = Kernel {
            fs,
            mem: UserMemory::new(),
            key,
            procs: BTreeMap::new(),
            pipes: BTreeMap::new(),
            next_pipe: 0,
            socks: BTreeMap::new(),
            closed_socks: Vec::new(),
            sched,
            console: Console::new(),
            screen: Writer::new(),
            serial: Vec::new(),
            stats: Stats {
                last_write_fd: 0,
                last_write_len: 0,
                last_write_sum: 0,
                last_write_user_rsp: 0,
                last_exit_code: -1,
                exit_code_sum: 0,
                exit_calls: 0,
                user_fault_kills: 0,
            },
            heap_base,
            heap_max,
        };
        assert(k@.procs =~= Map::<u64, ProcView>::empty());
        assert(k@.pipes =~= Map::<u64, PipeView>::empty());
        k
    }

    /// The initial state of a process.
    pub fn new_proc(heap_base: u64) -> (p: ProcState)
        ensures
            p@ == fresh_proc(heap_base),
    {
        let mut fds: Vec<Option<Fd>> = Vec::new();
        fds.push(Some(Fd::Console));
        fds.push(Some(Fd::Vga));
        fds.push(Some(Fd::Serial));
        let mut cwd: Vec<u8> = Vec::new();
        cwd.push(0x2F);
        let p = ProcState { fds, cwd, brk: heap_base };
        assert(p@.fds =~= fresh_proc(heap_base).fds);
        assert(p@.cwd =~= fresh_proc(heap_base).cwd);
        p
    }

    /// Takes the state of the calling process out, to be put back by [`Self::put_proc`].
    pub fn take_proc(&mut self) -> (p: ProcState)
        ensures
            p@ == old(self)@.proc(),
            final(self)@ == (KView {
                procs: old(self)@.procs.remove(old(self)@.key),
                ..old(self)@
            }),
    {
        let ghost before = self@;
        let key = self.key;
        match self.procs.remove(&key) {
            Some(p) => {
                assert(self@.procs =~= before.procs.remove(key));
                p
            },
            None => {
                assert(self@.procs =~= before.procs.remove(key));
                Self::new_proc(self.heap_base)
            },
        }
    }

    /// Puts the state of the calling process back.
    pub fn put_proc(&mut self, p: ProcState)
        ensures
            final(self)@ == old(self)@.with_proc(p@),
    {
        let ghost before = self@;
        self.procs.insert(self.key, p);
        assert(self@.procs =~= before.procs.insert(before.key, p@));
    }

    /// Wakes all processes that wait on a pipe.
    fn wake_pipes(&mut self)
        ensures
            final(self)@ == old(self)@.pipe_waiters_woken(),
    {
        thread::wake_pipe_waiters(&mut self.sched);
    }

    /// Replaces pipe `id`; a pipe without ends is removed.
    pub fn put_pipe(&mut self, id: u64, p: PipeBuf)
        ensures
            final(self)@ == old(self)@.with_pipe(id, p@),
    {
        let ghost before = self@;
        if p.readers == 0 && p.writers == 0 {
            let _ = self.pipes.remove(&id);
            assert(self@.pipes =~= before.pipes.remove(id));
        } else {
            self.pipes.insert(id, p);
            assert(self@.pipes =~= before.pipes.insert(id, p@));
        }
    }

    /// Puts pipe `id` back, with the ends that it had.
    pub fn restore_pipe(&mut self, id: u64, p: PipeBuf)
        ensures
            final(self)@ == (KView { pipes: old(self)@.pipes.insert(id, p@), ..old(self)@ }),
    {
        let ghost before = self@;
        self.pipes.insert(id, p);
        assert(self@.pipes =~= before.pipes.insert(id, p@));
    }

    /// Takes pipe `id` out.
    pub fn take_pipe(&mut self, id: u64) -> (r: Option<PipeBuf>)
        ensures
            match r {
                Some(p) => old(self)@.pipes.dom().contains(id) && p@ == old(self)@.pipes[id],
                None => !old(self)@.pipes.dom().contains(id),
            },
            final(self)@ == (KView { pipes: old(self)@.pipes.remove(id), ..old(self)@ }),
    {
        let ghost before = self@;
        let r = self.pipes.remove(&id);
        assert(self@.pipes =~= before.pipes.remove(id));
        r
    }

    /// Counts a copy of a descriptor.
    pub fn count_copy(&mut self, fd: &Fd)
        ensures
            final(self)@ == old(self)@.copied(fd@),
    {
        let ghost before = self@;
        match fd {
            Fd::PipeRead(id) => {
                match self.take_pipe(*id) {
                    Some(mut p) => {
                        p.readers = if p.readers == u64::MAX { p.readers } else { p.readers + 1 };
                        self.put_pipe(*id, p);
                    },
                    None => {},
                }
                assert(self@.pipes =~= before.copied(fd@).pipes);
            },
            Fd::PipeWrite(id) => {
                match self.take_pipe(*id) {
                    Some(mut p) => {
                        p.writers = if p.writers == u64::MAX { p.writers } else { p.writers + 1 };
                        self.put_pipe(*id, p);
                    },
                    None => {},
                }
                assert(self@.pipes =~= before.copied(fd@).pipes);
            },
            Fd::Socket(h, _) => {
                match self.socks.remove(h) {
                    Some(n) => {
                        let n2 = if n == u64::MAX { n } else { n + 1 };
                        self.socks.insert(*h, n2);
                    },
                    None => {},
                }
                assert(self@.socks =~= before.copied(fd@).socks);
            },
            _ => {},
        }
    }

    /// Drops a descriptor.
    pub fn drop_fd(&mut self, fd: &Fd)
        ensures
            final(self)@ == old(self)@.dropped(fd@),
    {
        let ghost before = self@;
        match fd {
            Fd::PipeRead(id) => {
                match self.take_pipe(*id) {
                    Some(mut p) => {
                        p.readers = if p.readers == 0 { 0 } else { p.readers - 1 };
                        let gone = p.readers == 0;
                        let ghost pv = p@;
                        self.put_pipe(*id, p);
                        assert(self@.pipes =~= before.with_pipe(*id, pv).pipes);
                        if gone {
                            self.wake_pipes();
                        }
                    },
                    None => {
                        assert(self@.pipes =~= before.pipes);
                    },
                }
            },
            Fd::PipeWrite(id) => {
                match self.take_pipe(*id) {
                    Some(mut p) => {
                        p.writers = if p.writers == 0 { 0 } else { p.writers - 1 };
                        let gone = p.writers == 0;
                        let ghost pv = p@;
                        self.put_pipe(*id, p);
                        assert(self@.pipes =~= before.with_pipe(*id, pv).pipes);
                        if gone {
                            self.wake_pipes();
                        }
                    },
                    None => {
                        assert(self@.pipes =~= before.pipes);
                    },
                }
            },
            Fd::Socket(h, _) => {
                match self.socks.remove(h) {
                    Some(n) => {
                        let n2 = if n == 0 { 0 } else { n - 1 };
                        if n2 == 0 {
                            self.closed_socks.push(*h);
                        } else {
                            self.socks.insert(*h, n2);
                        }
                        assert(self@.socks =~= before.dropped(fd@).socks);
                        assert(self@.closed_socks =~= before.dropped(fd@).closed_socks);
                    },
                    None => {
                        assert(self@.socks =~= before.socks);
                    },
                }
            },
            _ => {},
        }
    }

    /// Drops what a slot of a descriptor table holds.
    pub fn drop_slot(&mut self, slot: &Option<Fd>)
        ensures
            final(self)@ == old(self)@.slot_dropped(slot_view(*slot)),
    {
        match slot {
            Some(fd) => {
                self.drop_fd(fd);
            },
            None => {},
        }
    }

    /// Copies a descriptor table and counts the copies.
    pub fn copy_table(&mut self, fds: &Vec<Option<Fd>>) -> (copy: Vec<Option<Fd>>)
        ensures
            fds_view(copy@) == fds_view(fds@),
            final(self)@ == old(self)@.table_copied(fds_view(fds@)),
    {
        let ghost before = self@;
        let ghost all = fds_view(fds@);
        let mut copy: Vec<Option<Fd>> = Vec::new();
        let mut i: usize = 0;
        assert(all.take(0) =~= Seq::<Option<FdView>>::empty());
        while i < fds.len()
            invariant
                before == old(self)@,
                all == fds_view(fds@),
                i <= fds@.len(),
                copy@.len() == i,
                forall|j: int| 0 <= j < i ==> slot_view(#[trigger] copy@[j]) == all[j],
                self@ == before.table_copied(all.take(i as int)),
            decreases fds@.len() - i,
        {
            assert(all.take(i + 1).drop_last() =~= all.take(i as int));
            assert(all.take(i + 1).last() == slot_view(fds@[i as int]));
            match &fds[i] {
                Some(fd) => {
                    self.count_copy(fd);
                    copy.push(Some(fd.duplicate()));
                },
                None => {
                    copy.push(None);
                },
            }
            i += 1;
        }
        assert(all.take(i as int) =~= all);
        assert(fds_view(copy@) =~= all);
        copy
    }

    /// Drops all slots of a descriptor table.
    pub fn drop_table(&mut self, fds: &Vec<Option<Fd>>)
        ensures
            final(self)@ == old(self)@.table_dropped(fds_view(fds@)),
    {
        let ghost before = self@;
        let ghost all = fds_view(fds@);
        let mut i: usize = 0;
        assert(all.take(0) =~= Seq::<Option<FdView>>::empty());
        while i < fds.len()
            invariant
                before == old(self)@,
                all == fds_view(fds@),
                i <= fds@.len(),
                self@ == before.table_dropped(all.take(i as int)),
            decreases fds@.len() - i,
        {
            assert(all.take(i + 1).drop_last() =~= all.take(i as int));
            assert(all.take(i + 1).last() == slot_view(fds@[i as int]));
            self.drop_slot(&fds[i]);
            i += 1;
        }
        assert(all.take(i as int) =~= all);
    }
}

} // verus!
