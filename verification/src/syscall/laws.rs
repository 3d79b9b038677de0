//! What holds of system calls taken together.

use crate::arch::syscall::{self as entry, SyscallRegs};
use crate::fs::fat::{self, Fat32, FatError};
use crate::fs::fat_dir::{self, NodeView};
use crate::fs::fat_laws;
use crate::fs::path;
use crate::sched::thread::{self, BlockReason, SchedView};
use crate::syscall::abi;
use crate::syscall::dirents;
use crate::syscall::files;
use crate::syscall::io::{self, Progress};
use crate::syscall::kernel::{self, FdView, FileView, KView, PipeView, ProcView, MAX_FDS};
use crate::syscall::process::SysStep;
use crate::syscall::uaccess;
use crate::util;
use vstd::prelude::*;

verus! {

// ---------------------------------------------------------------------------------------------
// Descriptors
// ---------------------------------------------------------------------------------------------

/// A new descriptor has the lowest number that is free, and no other descriptor changes. There is
/// no number only where all are in use.
pub proof fn law_new_descriptor_is_the_lowest_free(k: KView, fd: FdView, other: u64)
    requires
        k.wf(),
        k.proc().fds.len() <= MAX_FDS,
    ensures
        ({
            let (k2, r) = k.fd_allocated(fd);
            &&& r >= 0 ==> {
                &&& r < MAX_FDS
                &&& k.proc().fd(r as u64) is None
                &&& k2.proc().fd(r as u64) == Some(fd)
                &&& forall|j: u64| j < r ==> #[trigger] k.proc().fd(j) is Some
                &&& other != r ==> k2.proc().fd(other) == k.proc().fd(other)
            }
            &&& r < 0 ==> r == -abi::EMFILE && forall|j: u64|
                j < MAX_FDS ==> #[trigger] k.proc().fd(j) is Some
        }),
{
    files::lemma_free_slot(k.proc().fds, 0);
    files::lemma_fd_allocated(k, fd);
}

/// Every process has a table of at most the largest number of descriptors, whatever is copied
/// into it.
pub proof fn law_copies_stay_within_the_table(k: KView, oldfd: u64, newfd: u64)
    requires
        k.wf(),
        k.proc().fds.len() <= MAX_FDS,
        k.sys_dup2(oldfd, newfd).1 >= 0,
    ensures
        ({
            let (k2, r) = k.sys_dup2(oldfd, newfd);
            &&& r == newfd
            &&& newfd < MAX_FDS
            &&& k2.proc().fds.len() <= MAX_FDS
            &&& k2.proc().fd(newfd) == k.proc().fd(oldfd)
            &&& k2.proc().fd(oldfd) == k.proc().fd(oldfd)
        }),
{
    if oldfd != newfd {
        let v = k.proc().fd(oldfd)->0;
        let fds = files::extended(k.proc().fds, newfd as int);
        let k1 = k.with_proc(ProcView { fds: fds.update(newfd as int, Some(v)), ..k.proc() });
        files::lemma_slot_frame(k1, Some(v));
        files::lemma_slot_frame(k1.copied(v), fds[newfd as int]);
    }
}

/// How many reading or writing ends of pipe `id` a table holds.
pub open spec fn ends(fds: Seq<Option<FdView>>, id: u64, reading: bool) -> int
    decreases fds.len(),
{
    if fds.len() == 0 {
        0
    } else {
        ends(fds.drop_last(), id, reading) + (if reading && fds.last() == Some(
            FdView::PipeRead(id),
        ) || !reading && fds.last() == Some(FdView::PipeWrite(id)) {
            1int
        } else {
            0
        })
    }
}

/// No table has less than none.
proof fn lemma_ends(fds: Seq<Option<FdView>>, id: u64, reading: bool)
    ensures
        ends(fds, id, reading) >= 0,
    decreases fds.len(),
{
    if fds.len() > 0 {
        lemma_ends(fds.drop_last(), id, reading);
    }
}

/// A copied table adds to each pipe as many ends as it holds of it. What is in the pipe stays.
pub proof fn law_copied_table_adds_its_ends(k: KView, fds: Seq<Option<FdView>>, id: u64)
    requires
        k.pipes.dom().contains(id),
        k.pipes[id].readers + ends(fds, id, true) <= u64::MAX,
        k.pipes[id].writers + ends(fds, id, false) <= u64::MAX,
    ensures
        k.table_copied(fds).pipes.dom().contains(id),
        k.table_copied(fds).pipes[id] == (PipeView {
            data: k.pipes[id].data,
            readers: (k.pipes[id].readers + ends(fds, id, true)) as u64,
            writers: (k.pipes[id].writers + ends(fds, id, false)) as u64,
        }),
    decreases fds.len(),
{
    if fds.len() > 0 {
        lemma_ends(fds.drop_last(), id, true);
        lemma_ends(fds.drop_last(), id, false);
        law_copied_table_adds_its_ends(k, fds.drop_last(), id);
    }
}

/// A dropped table takes from each pipe as many ends as it holds of it. The pipe goes with its last
/// end; until then what is in it stays.
pub proof fn law_dropped_table_takes_its_ends(k: KView, fds: Seq<Option<FdView>>, id: u64)
    requires
        k.pipes.dom().contains(id),
        ends(fds, id, true) <= k.pipes[id].readers,
        ends(fds, id, false) <= k.pipes[id].writers,
        k.pipes[id].readers > 0 || k.pipes[id].writers > 0,
    ensures
        ({
            let p = k.pipes[id];
            let r = p.readers - ends(fds, id, true);
            let w = p.writers - ends(fds, id, false);
            let after = k.table_dropped(fds).pipes;
            if r == 0 && w == 0 {
                !after.dom().contains(id)
            } else {
                after.dom().contains(id) && after[id] == (PipeView {
                    data: p.data,
                    readers: r as u64,
                    writers: w as u64,
                })
            }
        }),
    decreases fds.len(),
{
    if fds.len() > 0 {
        lemma_ends(fds.drop_last(), id, true);
        lemma_ends(fds.drop_last(), id, false);
        law_dropped_table_takes_its_ends(k, fds.drop_last(), id);
    }
}

// ---------------------------------------------------------------------------------------------
// Pipes
// ---------------------------------------------------------------------------------------------

/// What goes into a pipe comes out in the same order: after a write, a read gets the oldest bytes,
/// and what is left is the rest.
pub proof fn law_pipe_is_first_in_first_out(
    k: KView,
    id: u64,
    from: u64,
    count: u64,
    to: u64,
    room: u64,
)
    requires
        k.wf(),
        k.pipes.dom().contains(id),
        k.pipe_written(id, from, count).1 > 0,
        0 < room,
        uaccess::user_range(k.mem, to, room, true),
    ensures
        ({
            let sent = k.pipes[id].data + uaccess::user_bytes(k.mem, from, count)->Ok_0;
            let n = util::min_nat(room as nat, sent.len()) as int;
            let k1 = k.pipe_written(id, from, count).0;
            let (k2, r) = k1.pipe_read(id, to, room);
            &&& r == Progress::Done(n as i64)
            &&& k2.mem == k.mem.written(to as int, sent.take(n))
            &&& k2.pipes[id].data == sent.skip(n)
        }),
{
    let b = uaccess::user_bytes(k.mem, from, count)->Ok_0;
    let sent = k.pipes[id].data + b;
    let n = util::min_nat(room as nat, sent.len()) as int;
    let k1 = k.pipe_written(id, from, count).0;
    assert(k1.pipes[id].data == sent);
    assert(k1.mem == k.mem);
    assert(sent.take(n).len() == n);
    assert(uaccess::user_range(k.mem, to, n as u64, true));
}

/// Nobody writes into a pipe that nobody can read, and an empty pipe that nobody can write into is
/// at its end.
pub proof fn law_pipe_without_other_side(k: KView, id: u64, buf: u64, count: u64)
    requires
        k.pipes.dom().contains(id),
        count > 0,
    ensures
        k.pipes[id].readers == 0 && uaccess::user_range(k.mem, buf, count, false)
            ==> k.pipe_written(id, buf, count) == (k, (-abi::EPIPE) as i64),
        k.pipes[id].writers == 0 && k.pipes[id].data.len() == 0 ==> k.pipe_read(id, buf, count) == (
            k,
            Progress::Done(0),
        ),
        k.pipes[id].writers > 0 && k.pipes[id].data.len() == 0 ==> k.pipe_read(
            id,
            buf,
            count,
        ).1 is Blocked,
{
}

/// Who waits on a pipe is woken by a write, and by the end of the other side: no wake-up is lost.
pub proof fn law_pipe_waiters_are_woken(k: KView, id: u64, buf: u64, count: u64, i: int)
    requires
        k.pipes.dom().contains(id),
        0 <= i < k.sched.threads.len(),
        k.sched.threads[i].state is Blocked,
        k.sched.threads[i].blocked_on is Pipe,
    ensures
        k.pipe_written(id, buf, count).1 > 0 ==> k.pipe_written(id, buf, count).0.sched.threads[i].state
            is Runnable,
        k.pipes[id].writers == 1 ==> k.dropped(FdView::PipeWrite(id)).sched.threads[i].state
            is Runnable,
        k.pipes[id].readers == 1 ==> k.dropped(FdView::PipeRead(id)).sched.threads[i].state
            is Runnable,
{
}

// ---------------------------------------------------------------------------------------------
// Files
// ---------------------------------------------------------------------------------------------

/// What was written to a file reads back from where it was written, and bytes elsewhere in the
/// file stay.
pub proof fn law_written_bytes_read_back(f: FileView, b: Seq<u8>, at: int)
    requires
        f.offset + b.len() <= u64::MAX,
    ensures
        io::file_rest(
            FileView { offset: f.offset, ..io::file_after_write(f, b) },
            b.len() as u64,
        ) == b,
        0 <= at < f.data.len() && !(f.offset <= at < f.offset + b.len()) ==> io::file_after_write(
            f,
            b,
        ).data[at] == f.data[at],
        io::file_after_write(f, b).data.len() >= f.data.len(),
{
    let g = FileView { offset: f.offset, ..io::file_after_write(f, b) };
    assert(io::file_rest(g, b.len() as u64) =~= b);
}

/// A read stops at the end of a file; what it got and what is left make up the file from its
/// position on.
pub proof fn law_reading_goes_through_a_file(f: FileView, count: u64)
    requires
        f.offset <= f.data.len(),
        f.data.len() <= u64::MAX,
    ensures
        ({
            let b = io::file_rest(f, count);
            &&& b.len() <= count
            &&& b.len() < count ==> f.offset + b.len() == f.data.len()
            &&& b + f.data.skip((f.offset + b.len()) as int) == f.data.skip(f.offset as int)
        }),
{
    let b = io::file_rest(f, count);
    assert(b + f.data.skip((f.offset + b.len()) as int) =~= f.data.skip(f.offset as int));
}

/// A file that is closed after it was written to is on the disk: who opens it then reads what it
/// held. So it is where the volume is in order and the file can be stored.
pub proof fn law_closed_file_is_stored(k: KView, fd: u64, f: FileView, v: Fat32)
    requires
        k.wf(),
        k.proc().fd(fd) == Some(FdView::File(f)),
        f.writable,
        f.dirty,
        k.sys_close(fd).1 == 0,
        k.fs.volume == Ok::<Fat32, FatError>(v),
        v.sound(),
        fat_laws::readable(k.fs.disk),
        f.data.len() <= u32::MAX,
        fat_laws::findable(fat::name_83(path::components(f.name).last())),
        v.write_sound(k.fs.disk, f.name),
    ensures
        k.sys_close(fd).0.proc().fd(fd) is None,
        k.sys_close(fd).0.fs.file(f.name) == Ok::<Seq<u8>, FatError>(f.data),
{
    let d = k.fs.disk;
    let w = v.file_written(d, f.name, f.data);
    if let Err(e) = w.1 {
        assert(files::errno_of(e) > 0);
    }
    fat_laws::law_written_file_reads_back(v, d, f.name, f.data);
}

/// A directory that was opened can be read by records from its start.
pub proof fn law_opened_directory_is_readable(k: KView, path: Seq<u8>, flags: u64, count: u64)
    requires
        k.wf(),
        k.fs.node(path) matches Ok(NodeView::Dir(_)),
        files::open_target(k.fs, path, flags).1 is Ok,
    ensures
        ({
            let f = files::open_target(k.fs, path, flags).1->Ok_0;
            &&& f.is_dir
            &&& dirents::dents_span(f.data, f.offset as int, 0, count as int) is Some
        }),
{
    let items = k.fs.node(path)->Ok_0->Dir_0;
    if let Ok(v) = k.fs.volume {
        fat_dir::law_listed_names_are_short(v, k.fs.disk, path);
    }
    dirents::law_listing_is_handed_out_by_records(items, 0, count as int);
    assert(items.take(0) =~= Seq::empty());
    assert(dirents::record_start(items, 0) == 0);
}

// ---------------------------------------------------------------------------------------------
// Processes
// ---------------------------------------------------------------------------------------------

/// A forked process has the descriptors, the working directory and the heap of its parent, whose
/// own do not change; no other process is touched. Contents and positions of files are its own.
pub proof fn law_fork_copies_the_parent(k: KView, parent: u64, child: u64, other: u64)
    requires
        parent != child,
        other != child,
        k.procs.dom().contains(parent),
    ensures
        k.forked(parent, child).procs.dom().contains(child),
        k.forked(parent, child).procs[child] == k.procs[parent],
        k.procs.dom().contains(other) ==> k.forked(parent, child).procs.dom().contains(other)
            && k.forked(parent, child).procs[other] == k.procs[other],
        k.forked(parent, child).fs == k.fs,
        k.forked(parent, child).mem == k.mem,
{
    let p = k.procs[parent];
    files::lemma_table_copied_frame(k, p.fds);
    let copied = k.table_copied(p.fds);
    if copied.procs.dom().contains(child) {
        files::lemma_table_dropped_frame(copied, copied.procs[child].fds);
    }
}

/// A pipe that the parent has an end of has one more for each end of the parent after a fork, so
/// that neither side ends before both processes have closed it.
pub proof fn law_fork_shares_pipes(k: KView, parent: u64, child: u64, id: u64)
    requires
        parent != child,
        k.procs.dom().contains(parent),
        !k.procs.dom().contains(child),
        k.pipes.dom().contains(id),
        k.pipes[id].readers + ends(k.procs[parent].fds, id, true) <= u64::MAX,
        k.pipes[id].writers + ends(k.procs[parent].fds, id, false) <= u64::MAX,
    ensures
        k.forked(parent, child).pipes[id] == (PipeView {
            data: k.pipes[id].data,
            readers: (k.pipes[id].readers + ends(k.procs[parent].fds, id, true)) as u64,
            writers: (k.pipes[id].writers + ends(k.procs[parent].fds, id, false)) as u64,
        }),
{
    files::lemma_table_copied_frame(k, k.procs[parent].fds);
    law_copied_table_adds_its_ends(k, k.procs[parent].fds, id);
}

/// A new program has the descriptors and the working directory of the one before it, and an empty
/// heap. An `execve` that fails leaves everything but its result as it was.
pub proof fn law_exec_keeps_descriptors(k: KView, regs: SyscallRegs, cr3: u64, shared: Set<u64>)
    requires
        k.wf(),
        k.procs.dom().contains(k.key),
        cr3 != k.key,
        !k.procs.dom().contains(cr3),
    ensures
        ({
            let (k2, regs2) = k.exec(regs, Some(cr3), shared);
            match k.exec_image(regs, true, shared) {
                Ok((start, rsp, mem)) => {
                    &&& k2.proc() == (ProcView { brk: k.heap_base, ..k.proc() })
                    &&& !k2.procs.dom().contains(k.key)
                    &&& k2.mem == mem
                    &&& k2.pipes == k.pipes
                    &&& k2.fs == k.fs
                    &&& regs2 == entry::start_regs(start, rsp)
                },
                Err(e) => k2 == k && regs2 == regs.with_result((-e) as i64),
            }
        }),
{
}

/// A forked process goes on where its parent does, with the same registers but for the result,
/// which is 0.
pub proof fn law_fork_returns_twice(regs: SyscallRegs, return_addr: u64, i: int)
    requires
        0 <= i < 16,
    ensures
        entry::fork_words(regs, return_addr).len() == entry::FORK_WORDS,
        entry::fork_words(regs, return_addr)[6] == return_addr,
        i != 14 ==> entry::fork_words(regs, return_addr)[7 + i] == regs.words()[i],
        entry::fork_words(regs, return_addr)[21] == 0,
{
}

/// Who exits has no descriptors left, and gave up all ends of pipes it had.
pub proof fn law_exit_gives_up_pipes(k: KView, id: u64)
    requires
        k.wf(),
        k.procs.dom().contains(k.key),
        k.pipes.dom().contains(id),
        k.pipes[id].readers > 0 || k.pipes[id].writers > 0,
        ends(k.procs[k.key].fds, id, true) <= k.pipes[id].readers,
        ends(k.procs[k.key].fds, id, false) <= k.pipes[id].writers,
    ensures
        ({
            let p = k.pipes[id];
            let r = p.readers - ends(k.procs[k.key].fds, id, true);
            let w = p.writers - ends(k.procs[k.key].fds, id, false);
            let after = k.released();
            &&& after.proc().fds.len() == 0
            &&& if r == 0 && w == 0 {
                !after.pipes.dom().contains(id)
            } else {
                after.pipes.dom().contains(id) && after.pipes[id] == (PipeView {
                    data: p.data,
                    readers: r as u64,
                    writers: w as u64,
                })
            }
        }),
{
    let p = k.procs[k.key];
    let k1 = k.with_proc(ProcView { fds: Seq::empty(), ..p });
    lemma_released_pipes(k1, p.fds);
    law_dropped_table_takes_its_ends(k1, p.fds, id);
}

/// Writing back changes the disk only: pipes and processes are those of a table that is dropped.
proof fn lemma_released_pipes(k: KView, fds: Seq<Option<FdView>>)
    ensures
        k.table_released(fds).pipes == k.table_dropped(fds).pipes,
        k.table_released(fds).procs == k.procs,
        k.table_released(fds).key == k.key,
        k.table_released(fds).heap_base == k.heap_base,
        k.table_released(fds).socks == k.table_dropped(fds).socks,
    decreases fds.len(),
{
    if fds.len() > 0 {
        lemma_released_pipes(k, fds.drop_last());
        let a = k.table_released(fds.drop_last());
        let b = k.table_dropped(fds.drop_last());
        files::lemma_slot_frame(a.flushed(fds.last()), fds.last());
        files::lemma_slot_frame(b, fds.last());
    }
}

/// Whether there is a call of this number.
pub open spec fn known_call(nr: u64) -> bool {
    ||| nr == abi::SYS_READ
    ||| nr == abi::SYS_WRITE
    ||| nr == abi::SYS_OPEN
    ||| nr == abi::SYS_CLOSE
    ||| nr == abi::SYS_LSEEK
    ||| nr == abi::SYS_PIPE
    ||| nr == abi::SYS_DUP2
    ||| nr == abi::SYS_GETPID
    ||| nr == abi::SYS_EXIT
    ||| nr == abi::SYS_WAIT4
    ||| nr == abi::SYS_KILL
    ||| nr == abi::SYS_GETCWD
    ||| nr == abi::SYS_CHDIR
    ||| nr == abi::SYS_MKDIR
    ||| nr == abi::SYS_RMDIR
    ||| nr == abi::SYS_UNLINK
    ||| nr == abi::SYS_GETDENTS64
    ||| nr == abi::SYS_EXIT_GROUP
}

/// A call of a number that there is none of is refused and changes nothing.
pub proof fn law_unknown_calls_change_nothing(k: KView, nr: u64, a: Seq<u64>, user_rsp: u64)
    requires
        !known_call(nr),
    ensures
        k.dispatch(nr, a, user_rsp) == (k, SysStep::Done((-abi::ENOSYS) as i64)),
{
}

/// Dropping a slot of a table only wakes threads.
proof fn lemma_slot_dropped_keeps_boot(k: KView, s: Option<FdView>)
    requires
        k.sched.boot_ready(),
    ensures
        k.slot_dropped(s).sched.boot_ready(),
        k.slot_dropped(s).sched.current == k.sched.current,
        k.slot_dropped(s).sched.threads.len() == k.sched.threads.len(),
{
}

/// Closing all descriptors only wakes threads.
proof fn lemma_released_keeps_boot(k: KView, fds: Seq<Option<FdView>>)
    requires
        k.sched.boot_ready(),
    ensures
        k.table_released(fds).sched.boot_ready(),
        k.table_released(fds).sched.current == k.sched.current,
        k.table_released(fds).sched.threads.len() == k.sched.threads.len(),
    decreases fds.len(),
{
    if fds.len() > 0 {
        lemma_released_keeps_boot(k, fds.drop_last());
        lemma_slot_dropped_keeps_boot(
            k.table_released(fds.drop_last()).flushed(fds.last()),
            fds.last(),
        );
    }
}

/// While a process runs and the boot thread is ready, the process can make any call: where the call
/// blocks or ends it, there is a thread to go to. Only a directory has to be read at an entry, and
/// for a pipe a number has to be left.
pub proof fn law_a_process_can_make_any_call(k: KView, nr: u64, a: Seq<u64>)
    requires
        k.wf(),
        k.sched.boot_ready(),
        k.sched.current != 0,
        nr == abi::SYS_GETDENTS64 ==> k.dirents_readable(a[0], a[2]),
        nr == abi::SYS_PIPE ==> k.next_pipe < u64::MAX,
    ensures
        k.callable(nr, a),
{
    let status = a[0] as i32;
    thread::law_boot_thread_is_always_ready(
        k.sched,
        status,
        None,
        BlockReason::Pipe,
        (a[0] as i64) as u32,
        a[1] as u8,
        a[0] as i64,
        0,
    );
    if k.procs.dom().contains(k.key) {
        let p = k.procs[k.key];
        lemma_released_keeps_boot(k.with_proc(ProcView { fds: Seq::empty(), ..p }), p.fds);
    }
    thread::law_boot_thread_is_always_ready(
        k.exit_recorded(status).sched,
        status,
        None,
        BlockReason::Pipe,
        0,
        0,
        0,
        0,
    );
}

/// Whether a change of the kernel keeps the boot thread ready.
spec fn keeps_boot(k: KView, k2: KView) -> bool {
    k.sched.boot_ready() ==> k2.sched.boot_ready()
}

/// Giving out a descriptor keeps the boot thread ready.
proof fn lemma_fd_allocated_keeps_boot(k: KView, fd: FdView)
    ensures
        keeps_boot(k, k.fd_allocated(fd).0),
{
    if k.sched.boot_ready() {
        lemma_slot_dropped_keeps_boot(k.touched(), Some(fd));
    }
}

/// Calls that neither wait nor end the caller keep the boot thread ready.
proof fn lemma_plain_call_keeps_boot(k: KView, nr: u64, a: Seq<u64>, user_rsp: u64)
    ensures
        keeps_boot(k, k.plain_call(nr, a, user_rsp).0),
{
    if nr == abi::SYS_OPEN {
        let (k1, r) = k.path_arg(a[0]);
        if let Ok(path) = r {
            if let (fs, Ok(f)) = files::open_target(k1.fs, path, a[1]) {
                lemma_fd_allocated_keeps_boot(KView { fs, ..k1 }, FdView::File(f));
            }
        }
    } else if nr == abi::SYS_CLOSE {
        if k.sched.boot_ready() {
            lemma_slot_dropped_keeps_boot(k.fd_set(a[0], None), k.proc().fd(a[0]));
        }
    } else if nr == abi::SYS_DUP2 {
        if let Some(v) = k.proc().fd(a[0]) {
            let p = k.proc();
            let fds = files::extended(p.fds, a[1] as int);
            let k1 = k.with_proc(ProcView { fds: fds.update(a[1] as int, Some(v)), ..p }).copied(v);
            if k.sched.boot_ready() {
                lemma_slot_dropped_keeps_boot(k1, fds[a[1] as int]);
            }
        }
    } else if nr == abi::SYS_PIPE {
        let id = k.next_pipe;
        let k0 = KView {
            pipes: k.pipes.insert(id, PipeView { data: Seq::empty(), readers: 1, writers: 1 }),
            next_pipe: (id + 1) as u64,
            ..k
        };
        lemma_fd_allocated_keeps_boot(k0, FdView::PipeRead(id));
        let (k1, r) = k0.fd_allocated(FdView::PipeRead(id));
        lemma_fd_allocated_keeps_boot(k1, FdView::PipeWrite(id));
        let (k2, w) = k1.fd_allocated(FdView::PipeWrite(id));
        if k.sched.boot_ready() {
            lemma_slot_dropped_keeps_boot(k1, Some(FdView::PipeWrite(id)));
            lemma_slot_dropped_keeps_boot(k2.fd_set(r as u64, None), Some(FdView::PipeRead(id)));
        }
    }
}

/// Whatever call a process makes, the boot thread is ready after it.
pub proof fn law_calls_leave_the_boot_thread_ready(
    k: KView,
    nr: u64,
    a: Seq<u64>,
    user_rsp: u64,
)
    requires
        k.wf(),
        k.sched.boot_ready(),
        k.sched.current != 0,
        k.callable(nr, a),
    ensures
        k.dispatch(nr, a, user_rsp).0.sched.boot_ready(),
{
    let s = k.sched;
    let status = a[0] as i32;
    let (pid, sig, want) = ((a[0] as i64) as u32, a[1] as u8, a[0] as i64);
    lemma_plain_call_keeps_boot(k, nr, a, user_rsp);
    thread::law_boot_thread_is_always_ready(s, status, None, BlockReason::Pipe, pid, sig, want, 0);
    thread::law_boot_thread_is_always_ready(s, status, None, BlockReason::Stdin, pid, sig, want, 0);
    if nr == abi::SYS_READ {
        let reason = if k.proc().fd(a[0]) is Some && k.proc().fd(a[0])->0 is Console {
            BlockReason::Stdin
        } else {
            BlockReason::Pipe
        };
        lemma_switched_keeps_boot(s.blocked(reason));
    } else if nr == abi::SYS_WAIT4 {
        lemma_switched_keeps_boot(s.collected(want).0);
    } else if nr == abi::SYS_KILL {
        lemma_switched_keeps_boot(s.signalled(pid, sig));
    } else if nr == abi::SYS_EXIT || nr == abi::SYS_EXIT_GROUP {
        if k.procs.dom().contains(k.key) {
            let p = k.procs[k.key];
            lemma_released_keeps_boot(k.with_proc(ProcView { fds: Seq::empty(), ..p }), p.fds);
        }
        let s2 = k.exit_recorded(status).sched;
        thread::law_boot_thread_is_always_ready(s2, status, None, BlockReason::Pipe, 0, 0, 0, 0);
        lemma_switched_keeps_boot(s2.exited(status, None));
    }
}

/// A switch changes who runs and nothing else.
proof fn lemma_switched_keeps_boot(s: SchedView)
    requires
        s.boot_ready(),
    ensures
        s.switched().0.boot_ready(),
{
}

/// The working directory of a process is a normal path: it is at the start, and it stays so when
/// the process changes it.
pub proof fn law_working_directory_is_normal(k: KView, path_ptr: u64)
    requires
        path::is_normal(k.proc().cwd),
    ensures
        path::is_normal(k.sys_chdir(path_ptr).0.proc().cwd),
        path::is_normal(kernel::fresh_proc(k.heap_base).cwd),
{
    path::law_resolved_path_is_normal(k.proc().cwd, Seq::empty());
    if let Ok(s) = uaccess::user_cstr(k.mem, path_ptr as int) {
        path::law_resolved_path_is_normal(k.proc().cwd, s);
    }
    assert(k.touched().proc() == k.proc());
}

} // verus!
