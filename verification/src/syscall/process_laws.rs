//! What calls on processes do, each said of the threads, the numbers and the bytes that a process
//! sees.

use crate::arch::syscall::{self as entry, Spare, SyscallRegs};
use crate::sched::thread::{self, BlockReason, SchedView, State, Thread};
use crate::syscall::file_laws::{self, may_write, memory_gets};
use crate::syscall::files;
use crate::syscall::io::Progress;
use crate::syscall::kernel::{FdView, FileView, KView, PipeView};
use crate::syscall::laws;
use crate::syscall::process::SysStep;
use crate::syscall::uaccess;
use crate::util;
use vstd::prelude::*;

verus! {

/// The way of a call that may wait.
pub open spec fn goes_on(p: Progress) -> SysStep {
    match p {
        Progress::Done(r) => SysStep::Done(r),
        Progress::Blocked(w) => SysStep::Blocked(w),
    }
}

/// A call that neither waits nor ends the caller.
pub open spec fn comes_back(r: (KView, i64)) -> (KView, SysStep) {
    (r.0, SysStep::Done(r.1))
}

/// Each call has its number, and its arguments in their order.
pub proof fn law_calls_have_their_numbers(k: KView, a: Seq<u64>, rsp: u64)
    ensures
        k.dispatch(0, a, rsp) == (
            k.sys_read(a[0], a[1], a[2]).0,
            goes_on(k.sys_read(a[0], a[1], a[2]).1),
        ),
        k.dispatch(1, a, rsp) == comes_back(k.sys_write(a[0], a[1], a[2], rsp)),
        k.dispatch(2, a, rsp) == comes_back(k.sys_open(a[0], a[1])),
        k.dispatch(3, a, rsp) == comes_back(k.sys_close(a[0])),
        k.dispatch(8, a, rsp) == comes_back(k.sys_lseek(a[0], a[1] as i64, a[2])),
        k.dispatch(22, a, rsp) == comes_back(k.sys_pipe(a[0])),
        k.dispatch(33, a, rsp) == comes_back(k.sys_dup2(a[0], a[1])),
        k.dispatch(39, a, rsp) == comes_back((k, k.sched.threads[k.sched.current].pid as i64)),
        k.dispatch(60, a, rsp) == k.sys_exit(a[0] as i32),
        k.dispatch(61, a, rsp) == (
            k.sys_wait4(a[0] as i64, a[1]).0,
            goes_on(k.sys_wait4(a[0] as i64, a[1]).1),
        ),
        k.dispatch(62, a, rsp) == k.sys_kill(a[0] as i64, a[1]),
        k.dispatch(79, a, rsp) == comes_back(k.sys_getcwd(a[0], a[1])),
        k.dispatch(80, a, rsp) == comes_back(k.sys_chdir(a[0])),
        k.dispatch(83, a, rsp) == comes_back(k.sys_mkdir(a[0])),
        k.dispatch(84, a, rsp) == comes_back(k.sys_rmdir(a[0])),
        k.dispatch(87, a, rsp) == comes_back(k.sys_unlink(a[0])),
        k.dispatch(217, a, rsp) == comes_back(k.sys_getdents64(a[0], a[1], a[2])),
        k.dispatch(231, a, rsp) == k.sys_exit(a[0] as i32),
{
}

/// A call finds its number in `rax` and its arguments in `rdi`, `rsi`, `rdx`, `r10`, `r8` and `r9`,
/// and leaves its result in `rax`; no other register changes. 57 and 59 are `fork` and `execve`.
pub proof fn law_registers_of_a_call(k: KView, regs: SyscallRegs, spare: Spare, shared: Set<u64>)
    ensures
        ({
            let (k2, regs2) = k.entered(regs, spare, shared);
            let a = seq![regs.rdi, regs.rsi, regs.rdx, regs.r10, regs.r8, regs.r9];
            let (k3, step) = k.dispatch(regs.rax, a, regs.user_rsp);
            &&& regs.rax == 57 ==> (k2, regs2) == k.fork(regs, spare)
            &&& regs.rax == 59 ==> (k2, regs2) == k.exec(regs, spare.cr3, shared)
            &&& regs.rax != 57 && regs.rax != 59 ==> {
                &&& k2 == k3
                &&& step matches SysStep::Done(r) ==> regs2 == (SyscallRegs {
                    rax: r as u64,
                    ..regs
                })
                &&& !(step is Done) ==> regs2 == regs
            }
        }),
{
}

// ---------------------------------------------------------------------------------------------
// The end of a process
// ---------------------------------------------------------------------------------------------

/// What the end of thread `idx` makes of the threads: it is a zombie with its status and the signal
/// that killed it; its children have no parent; of the others nothing changes but that one that
/// waits for a child may become ready.
pub open spec fn ended(ts: Seq<Thread>, ts2: Seq<Thread>, idx: int, status: int, sig: Option<u8>) -> bool {
    &&& ts2.len() == ts.len()
    &&& ts2[idx].state is Zombie
    &&& ts2[idx].pid == ts[idx].pid
    &&& ts2[idx].exit_status matches Some(s) && s == status
    &&& ts2[idx].term_signal == sig
    &&& forall|j: int|
        0 <= j < ts.len() && j != idx ==> {
            let t = #[trigger] ts2[j];
            &&& t == (Thread { parent: t.parent, state: t.state, ..ts[j] })
            &&& t.parent == (if ts[j].parent == ts[idx].pid {
                0
            } else {
                ts[j].parent
            })
            &&& t.state == ts[j].state || (ts[j].state is Blocked && ts[j].blocked_on is Child
                && t.state is Runnable)
        }
}

/// Who exits is a zombie with the status that it gave, its descriptors are closed, and the next
/// ready thread runs.
pub proof fn law_exit_ends_the_caller(k: KView, status: i32)
    requires
        k.wf(),
        k.procs.dom().contains(k.key),
        k.exit_recorded(status).sched.exited(status, None).has_runnable(),
    ensures
        ({
            let (k2, step) = k.sys_exit(status);
            let ts = k.released().sched.threads;
            &&& step is Exited
            &&& ended(ts, k2.sched.threads, k.sched.current, status as int, None)
            &&& k2.procs.dom().contains(k.key) && k2.procs[k.key].fds.len() == 0
            &&& k2.stats.last_exit_code == status
            &&& k2.fs == k.released().fs
            &&& k2.mem == k.mem
        }),
{
    let fds = k.procs[k.key].fds;
    let k1 = k.with_proc(crate::syscall::kernel::ProcView { fds: Seq::empty(), ..k.procs[k.key] });
    lemma_released_frame(k1, fds);
    let r = k.exit_recorded(status);
    thread::lemma_terminated(r.sched.threads, r.sched.current, status, None);
    let s = r.sched.exited(status, None);
    lemma_can_switch(s);
}

/// There is a thread to switch to where one is ready and the running one is not.
proof fn lemma_can_switch(s: SchedView)
    requires
        s.wf(),
        s.has_runnable(),
        !(s.running().state is Runnable),
    ensures
        s.switched().1 is Some,
        s.switched().0.threads == s.threads,
{
    let j = choose|j: int| 0 <= j < s.threads.len() && (#[trigger] s.threads[j]).state is Runnable;
    thread::law_switch_takes_the_next_ready(s, j);
}

/// Closing all descriptors of a table changes the disk, pipes, sockets and who waits for them only.
proof fn lemma_released_frame(k: KView, fds: Seq<Option<FdView>>)
    ensures
        ({
            let r = k.table_released(fds);
            &&& r.procs == k.procs
            &&& r.key == k.key
            &&& r.mem == k.mem
            &&& r.stats == k.stats
            &&& r.sched.current == k.sched.current
            &&& r.sched.threads.len() == k.sched.threads.len()
            &&& k.sched.wf() ==> r.sched.wf()
        }),
    decreases fds.len(),
{
    if fds.len() > 0 {
        lemma_released_frame(k, fds.drop_last());
        let a = k.table_released(fds.drop_last());
        files::lemma_slot_frame(a.flushed(fds.last()), fds.last());
    }
}

/// A table without a file that was written to leaves the disk alone.
proof fn lemma_clean_table(k: KView, fds: Seq<Option<FdView>>)
    requires
        forall|i: int|
            0 <= i < fds.len() ==> !(#[trigger] fds[i] matches Some(FdView::File(f)) && f.writable
                && f.dirty),
    ensures
        k.table_released(fds).fs == k.fs,
    decreases fds.len(),
{
    if fds.len() > 0 {
        assert(fds[fds.len() - 1] == fds.last());
        assert forall|i: int| 0 <= i < fds.drop_last().len() implies !(
        #[trigger] fds.drop_last()[i] matches Some(FdView::File(f)) && f.writable && f.dirty) by {
            assert(fds.drop_last()[i] == fds[i]);
        }
        lemma_clean_table(k, fds.drop_last());
        let a = k.table_released(fds.drop_last());
        files::lemma_slot_frame(a.flushed(fds.last()), fds.last());
    }
}

/// A table with one file that was written to writes that file.
proof fn lemma_dirty_table(k: KView, fds: Seq<Option<FdView>>, i: int, f: FileView)
    requires
        0 <= i < fds.len(),
        fds[i] == Some(FdView::File(f)),
        f.writable,
        f.dirty,
        forall|j: int|
            0 <= j < fds.len() && j != i ==> !(#[trigger] fds[j] matches Some(FdView::File(g))
                && g.writable && g.dirty),
    ensures
        k.table_released(fds).fs == k.fs.file_written(f.name, f.data).0,
    decreases fds.len(),
{
    let init = fds.drop_last();
    let a = k.table_released(init);
    files::lemma_slot_frame(a.flushed(fds.last()), fds.last());
    if i == fds.len() - 1 {
        assert forall|j: int| 0 <= j < init.len() implies !(#[trigger] init[j] matches Some(
            FdView::File(g),
        ) && g.writable && g.dirty) by {
            assert(init[j] == fds[j]);
        }
        lemma_clean_table(k, init);
    } else {
        assert(fds[fds.len() - 1] == fds.last());
        assert(init[i] == fds[i]);
        assert forall|j: int| 0 <= j < init.len() && j != i implies !(#[trigger] init[j] matches Some(
            FdView::File(g),
        ) && g.writable && g.dirty) by {
            assert(init[j] == fds[j]);
        }
        lemma_dirty_table(k, init, i, f);
    }
}

/// A process that exits stores what it has written: the file that it has changed and not closed is
/// written to the disk under its name. Where it has changed none the disk stays as it is.
pub proof fn law_exit_stores_what_was_written(k: KView, status: i32, i: int, f: FileView)
    requires
        k.procs.dom().contains(k.key),
        forall|j: int|
            0 <= j < k.proc().fds.len() && j != i ==> !(#[trigger] k.proc().fds[j] matches Some(
                FdView::File(g),
            ) && g.writable && g.dirty),
    ensures
        0 <= i < k.proc().fds.len() && k.proc().fds[i] == Some(FdView::File(f)) && f.writable && f.dirty
            ==> k.sys_exit(status).0.fs == k.fs.file_written(f.name, f.data).0,
        !(0 <= i < k.proc().fds.len()) ==> k.sys_exit(status).0.fs == k.fs,
{
    let fds = k.procs[k.key].fds;
    let k1 = k.with_proc(crate::syscall::kernel::ProcView { fds: Seq::empty(), ..k.procs[k.key] });
    if 0 <= i < fds.len() && fds[i] == Some(FdView::File(f)) && f.writable && f.dirty {
        lemma_dirty_table(k1, fds, i, f);
    } else if !(0 <= i < fds.len()) {
        lemma_clean_table(k1, fds);
    }
}

/// A process that faults is killed by the signal: its status is 128 more than that.
pub proof fn law_fault_kills_the_process(k: KView, sig: u8)
    requires
        k.wf(),
        k.sched.exited((128 + sig) as i32, Some(sig)).has_runnable(),
    ensures
        ({
            let (k2, step) = k.user_fault(sig);
            &&& step is Exited
            &&& ended(k.sched.threads, k2.sched.threads, k.sched.current, 128 + sig, Some(sig))
            &&& k2.fs == k.fs && k2.procs == k.procs && k2.pipes == k.pipes
        }),
{
    thread::lemma_terminated(k.sched.threads, k.sched.current, (128 + sig) as i32, Some(sig));
    lemma_can_switch(k.sched.exited((128 + sig) as i32, Some(sig)));
}

// ---------------------------------------------------------------------------------------------
// Waiting
// ---------------------------------------------------------------------------------------------

/// Thread `i` is a child of the caller that `pid` asks for: that of this number, or any where it is
/// not positive.
pub open spec fn asked_for(s: SchedView, pid: i64, i: int) -> bool {
    s.threads[i].parent == s.running().pid && (pid > 0 ==> s.threads[i].pid == pid as u32)
}

/// A child that has ended is collected: its number is returned, and it is gone for good. Its status
/// is stored where the caller asks for it: the signal that killed it, or the low byte of what it
/// exited with, times 256.
pub proof fn law_wait_returns_an_ended_child(k: KView, pid: i64, ptr: u64, i: int)
    requires
        k.wf(),
        0 <= i < k.sched.threads.len(),
        asked_for(k.sched, pid, i),
        k.sched.threads[i].state is Zombie,
        forall|j: int|
            0 <= j < i ==> !(#[trigger] asked_for(k.sched, pid, j) && k.sched.threads[j].state
                is Zombie),
        ptr != 0 ==> may_write(k.mem, ptr, 4),
    ensures
        ({
            let (k2, r) = k.sys_wait4(pid, ptr);
            let t = k.sched.threads[i];
            let low = (match t.exit_status {
                Some(s) => s as u32,
                None => 0,
            }) % 256;
            let word = match t.term_signal {
                Some(sig) => sig as int,
                None => 256 * low as int,
            };
            &&& r == Progress::Done(t.pid as i64)
            &&& k2.sched == (SchedView {
                threads: k.sched.threads.update(i, Thread { state: State::Dead, ..t }),
                ..k.sched
            })
            &&& ptr == 0 ==> k2.mem == k.mem
            &&& ptr != 0 ==> util::le32(k2.mem.bytes(ptr as int, 4), 0) == word && memory_gets(
                k.mem,
                k2.mem,
                ptr as int,
                k2.mem.bytes(ptr as int, 4),
            )
            &&& k2 == (KView { mem: k2.mem, sched: k2.sched, ..k })
        }),
{
    let s = k.sched;
    let z = thread::zombie_of(s.running().pid, thread::wanted(pid));
    assert(z(s.threads[i]));
    assert forall|j: int| 0 <= j < i implies !z(#[trigger] s.threads[j]) by {
        assert(!(asked_for(s, pid, j) && s.threads[j].state is Zombie));
    }
    thread::lemma_first_where(s.threads, z, 0, i);
    let t = s.threads[i];
    let code = match t.exit_status {
        Some(c) => c,
        None => 0,
    };
    let word = crate::syscall::process::status_word(code, t.term_signal);
    let b = util::enc32(word);
    util::lemma_le32_enc32(word);
    if ptr != 0 {
        file_laws::lemma_copied(k.mem, ptr, b);
    }
}

/// Who waits and has no such child is told so; who has one that has not ended waits for it.
pub proof fn law_wait_without_an_ended_child(k: KView, pid: i64, ptr: u64)
    requires
        k.wf(),
        forall|j: int|
            0 <= j < k.sched.threads.len() ==> !(#[trigger] asked_for(k.sched, pid, j)
                && k.sched.threads[j].state is Zombie),
    ensures
        ({
            let (k2, r) = k.sys_wait4(pid, ptr);
            let living = exists|j: int|
                0 <= j < k.sched.threads.len() && #[trigger] asked_for(k.sched, pid, j)
                    && thread::alive(k.sched.threads[j].state);
            &&& !living ==> k2 == k && r == Progress::Done(-10i64)
            &&& living ==> {
                &&& r is Blocked
                &&& k2 == (KView { sched: k2.sched, ..k })
                &&& k2.sched.threads == k.sched.threads.update(
                    k.sched.current,
                    Thread {
                        state: State::Blocked,
                        blocked_on: BlockReason::Child,
                        ..k.sched.running()
                    },
                )
            }
        }),
{
    let s = k.sched;
    let len = s.threads.len() as int;
    let z = thread::zombie_of(s.running().pid, thread::wanted(pid));
    let l = thread::living_of(s.running().pid, thread::wanted(pid));
    assert forall|j: int| 0 <= j < len implies !z(#[trigger] s.threads[j]) by {
        assert(!(asked_for(s, pid, j) && s.threads[j].state is Zombie));
    }
    thread::lemma_first_where(s.threads, z, 0, len);
    thread::lemma_first_where_is(s.threads, l, 0);
    let f = thread::first_where(s.threads, l, 0);
    if f < len {
        assert(asked_for(s, pid, f) && thread::alive(s.threads[f].state));
    } else {
        assert forall|j: int| 0 <= j < len implies !(#[trigger] asked_for(s, pid, j)
            && thread::alive(s.threads[j].state)) by {
            assert(!l(s.threads[j]));
        }
    }
}

// ---------------------------------------------------------------------------------------------
// Signals
// ---------------------------------------------------------------------------------------------

/// The signals that leave a process as it is where it has not asked for them: of a child, of the
/// terminal, to stop and to go on, and urgent data.
pub open spec fn harmless(sig: u64) -> bool {
    17 <= sig <= 23 || sig == 28
}

/// Thread `i` is the first that has the number `pid`, lives, and is a process.
pub open spec fn is_process(s: SchedView, pid: i64, i: int) -> bool {
    &&& 0 <= i < s.threads.len()
    &&& s.threads[i].pid == pid as u32 && s.threads[i].cr3 is Some && thread::alive(
        s.threads[i].state,
    )
    &&& forall|j: int|
        0 <= j < i ==> !((#[trigger] s.threads[j]).pid == pid as u32 && s.threads[j].cr3 is Some
            && thread::alive(s.threads[j].state))
}

/// A signal to another process: 0 does nothing; one that is harmless is noted; any other ends the
/// process, with a status 128 more than the signal.
pub proof fn law_signal_to_another_process(k: KView, pid: i64, sig: u64, i: int)
    requires
        k.wf(),
        0 < pid <= u32::MAX,
        sig <= 64,
        is_process(k.sched, pid, i),
        i != k.sched.current,
    ensures
        ({
            let (k2, r) = k.sys_kill(pid, sig);
            &&& r == SysStep::Done(0)
            &&& k2 == (KView { sched: k2.sched, ..k })
            &&& k2.sched.current == k.sched.current
            &&& sig == 0 ==> k2 == k
            &&& sig != 0 ==> k2.sched.threads[i].pending_signals == k.sched.threads[i].pending_signals
                | (1u64 << ((sig - 1) as u64))
            &&& harmless(sig) ==> forall|j: int|
                0 <= j < k.sched.threads.len() ==> (#[trigger] k2.sched.threads[j]) == (Thread {
                    pending_signals: k2.sched.threads[j].pending_signals,
                    ..k.sched.threads[j]
                }) && (j != i ==> k2.sched.threads[j] == k.sched.threads[j])
            &&& sig != 0 && !harmless(sig) ==> ended(
                k.sched.threads,
                k2.sched.threads,
                i,
                128 + sig,
                Some(sig as u8),
            )
        }),
{
    let s = k.sched;
    let p = thread::signalled_as(pid as u32);
    assert(p(s.threads[i]));
    assert forall|j: int| 0 <= j < i implies !p(#[trigger] s.threads[j]) by {}
    thread::lemma_first_where(s.threads, p, 0, i);
    if sig != 0 {
        let t = s.threads[i];
        let marked = s.threads.update(
            i,
            Thread { pending_signals: t.pending_signals | (1u64 << ((sig - 1) as u64)), ..t },
        );
        thread::lemma_terminated(marked, i, (128 + sig) as i32, Some(sig as u8));
        assert(thread::terminated(marked, i, (128 + sig) as i32, Some(sig as u8))[i].pending_signals
            == marked[i].pending_signals) by {
            lemma_terminated_pending(marked, i, (128 + sig) as i32, Some(sig as u8));
        }
        if !harmless(sig) {
            let ts2 = k.sys_kill(pid, sig).0.sched.threads;
            assert forall|j: int| 0 <= j < s.threads.len() && j != i implies {
                let t = #[trigger] ts2[j];
                &&& t == (Thread { parent: t.parent, state: t.state, ..s.threads[j] })
                &&& t.parent == (if s.threads[j].parent == s.threads[i].pid {
                    0
                } else {
                    s.threads[j].parent
                })
                &&& t.state == s.threads[j].state || (s.threads[j].state is Blocked
                    && s.threads[j].blocked_on is Child && t.state is Runnable)
            } by {
                assert(marked[j] == s.threads[j]);
            }
        }
    }
}

proof fn lemma_terminated_pending(ts: Seq<Thread>, idx: int, status: i32, signal: Option<u8>)
    requires
        0 <= idx < ts.len(),
    ensures
        thread::terminated(ts, idx, status, signal)[idx].pending_signals == ts[idx].pending_signals,
{
    let gone = Thread {
        exit_status: Some(status),
        term_signal: signal,
        state: State::Zombie,
        ..ts[idx]
    };
    let kin = thread::reparented(ts.update(idx, gone), ts[idx].pid);
    thread::lemma_first_where_is(kin, thread::waits_as(kin[idx].parent), 0);
}

/// A signal that does not exist is refused, and so is one to a number that no living process has.
pub proof fn law_signal_to_nobody_is_refused(k: KView, pid: i64, sig: u64)
    ensures
        sig > 64 ==> k.sys_kill(pid, sig) == (k, SysStep::Done(-22i64)),
        sig <= 64 && pid <= 0 ==> k.sys_kill(pid, sig) == (k, SysStep::Done(-3i64)),
        sig <= 64 && pid > 0 && (forall|i: int|
            0 <= i < k.sched.threads.len() ==> !((#[trigger] k.sched.threads[i]).pid == pid as u32
                && k.sched.threads[i].cr3 is Some && thread::alive(k.sched.threads[i].state)))
            ==> k.sys_kill(pid, sig) == (k, SysStep::Done(-3i64)),
{
    let s = k.sched;
    let p = thread::signalled_as(pid as u32);
    if sig <= 64 && pid > 0 && (forall|i: int|
        0 <= i < s.threads.len() ==> !((#[trigger] s.threads[i]).pid == pid as u32
            && s.threads[i].cr3 is Some && thread::alive(s.threads[i].state))) {
        assert forall|i: int| 0 <= i < s.threads.len() implies !p(#[trigger] s.threads[i]) by {}
        thread::lemma_first_where(s.threads, p, 0, s.threads.len() as int);
    }
}

// ---------------------------------------------------------------------------------------------
// New processes and programs
// ---------------------------------------------------------------------------------------------

/// A fork makes one process more: a copy of the caller with the next number, ready to run in the
/// address space that was made for it, whose parent is the caller. The caller gets its number, and
/// keeps its memory and all that it has.
pub proof fn law_fork_makes_a_child(k: KView, regs: SyscallRegs, spare: Spare)
    requires
        k.wf(),
        spare.kstack_top >= 184,
    ensures
        ({
            let (k2, regs2) = k.fork(regs, spare);
            let n = k.sched.threads.len() as int;
            &&& spare.cr3 is None ==> k2 == k && regs2 == (SyscallRegs {
                rax: -12i64 as u64,
                ..regs
            })
            &&& spare.cr3 is Some ==> {
                &&& regs2 == (SyscallRegs { rax: k.sched.next_pid as u64, ..regs })
                &&& k2.mem == k.mem && k2.fs == k.fs && k2.key == k.key
                &&& k2.sched.current == k.sched.current
                &&& k2.sched.threads.len() == n + 1
                &&& k2.sched.threads[n].pid == k.sched.next_pid
                &&& k2.sched.threads[n].parent == k.sched.running().pid
                &&& k2.sched.threads[n].cr3 == spare.cr3
                &&& k2.sched.threads[n].state is Runnable
                &&& k2.sched.threads[n].exit_status is None
                &&& k2.sched.threads[n].pending_signals == 0
                &&& k2.sched.threads[n].rsp == spare.kstack_top - 184
                &&& k2.sched.threads[n].kernel_stack_top == spare.kstack_top
                &&& k2.sched.threads[n].stack == Some(spare.kstack)
            }
            &&& spare.cr3 matches Some(c) ==> c != k.key && k.procs.dom().contains(k.key)
                && !k.procs.dom().contains(c) ==> {
                &&& k2.procs[c] == k.procs[k.key]
                &&& k2.procs[k.key] == k.procs[k.key]
                &&& k2.sched.threads.take(n) == k.sched.threads
            }
        }),
{
    if let Some(c) = spare.cr3 {
        if k.procs.dom().contains(k.key) {
            let p = k.procs[k.key];
            files::lemma_table_copied_frame(k, p.fds);
            let copied = k.table_copied(p.fds);
            if copied.procs.dom().contains(c) {
                files::lemma_table_dropped_frame(copied, copied.procs[c].fds);
                lemma_dropped_sched(copied, copied.procs[c].fds);
            }
        }
        let k2 = k.fork(regs, spare).0;
        let n = k.sched.threads.len() as int;
        if c != k.key && k.procs.dom().contains(k.key) && !k.procs.dom().contains(c) {
            assert(k2.sched.threads.take(n) =~= k.sched.threads);
        }
    }
}

/// Giving up descriptors changes the states of threads only.
proof fn lemma_dropped_sched(k: KView, fds: Seq<Option<FdView>>)
    ensures
        ({
            let d = k.table_dropped(fds);
            &&& d.sched.current == k.sched.current
            &&& d.sched.next_pid == k.sched.next_pid
            &&& d.sched.threads.len() == k.sched.threads.len()
            &&& k.sched.wf() ==> d.sched.running().pid == k.sched.running().pid
        }),
    decreases fds.len(),
{
    if fds.len() > 0 {
        lemma_dropped_sched(k, fds.drop_last());
        files::lemma_slot_frame(k.table_dropped(fds.drop_last()), fds.last());
    }
}

/// A program that is started begins where its file says, with nothing in its registers but its
/// stack pointer, and interrupts on.
pub proof fn law_program_starts_afresh(k: KView, regs: SyscallRegs, cr3: Option<u64>, shared: Set<u64>)
    ensures
        ({
            let (k2, regs2) = k.exec(regs, cr3, shared);
            match k.exec_image(regs, cr3 is Some, shared) {
                Ok((start, rsp, mem)) => {
                    &&& regs2.rip == start && regs2.user_rsp == rsp && regs2.rflags == 0x202
                    &&& regs2.rax == 0 && regs2.rbx == 0 && regs2.rdx == 0 && regs2.rsi == 0
                    &&& regs2.rdi == 0 && regs2.rbp == 0 && regs2.r8 == 0 && regs2.r9 == 0
                    &&& regs2.r10 == 0 && regs2.r12 == 0 && regs2.r13 == 0 && regs2.r14 == 0
                    &&& regs2.r15 == 0
                },
                Err(e) => k2 == k && regs2 == (SyscallRegs { rax: (-e) as i64 as u64, ..regs }),
            }
        }),
{
}

/// The program that is started is the file that the caller names by a string in its memory. There
/// is none where the file cannot be read.
pub proof fn law_program_is_the_file_named(k: KView, ptr: u64, s: Seq<u8>)
    requires
        file_laws::string_at(k.mem, ptr, s),
    ensures
        match k.fs.file(s) {
            Ok(bytes) => vstd::utf8::valid_utf8(s) ==> k.program_arg(ptr) == Ok::<Seq<u8>, i64>(bytes),
            Err(_) => k.program_arg(ptr) == Err::<Seq<u8>, i64>(2),
        },
        !vstd::utf8::valid_utf8(s) ==> k.program_arg(ptr) == Err::<Seq<u8>, i64>(2),
{
    file_laws::lemma_cstr(k.mem, ptr as int, s);
}

/// A program in memory is the file as it is loaded, and a stack in a page of its own: of what was
/// loaded nothing changes. A file that cannot be loaded is refused, and so are strings for which
/// there is no room.
pub proof fn law_program_image_is_file_and_stack(
    shared: Set<u64>,
    bytes: Seq<u8>,
    argv: Seq<Seq<u8>>,
    envp: Seq<Seq<u8>>,
    p: u64,
)
    requires
        entry::stack_page_free(shared, bytes),
    ensures
        match crate::syscall::elf::elf_loaded(entry::no_memory(), shared, bytes) {
            Err(_) => entry::program_image(shared, bytes, argv, envp) == Err::<
                (u64, u64, crate::mm::paging::MemView),
                i64,
            >(8),
            Ok((start, m)) => match entry::program_image(shared, bytes, argv, envp) {
                Err(e) => e == 7,
                Ok((start2, rsp, m2)) => {
                    &&& start2 == start
                    &&& 0x7F80_1000_0000 <= rsp < 0x7F80_1000_1000
                    &&& rsp % 16 == 0
                    &&& m2.pages.dom() == m.pages.dom().insert(0x7F80_1000_0000)
                    &&& m.wf() && m.pages.dom().contains(p) ==> m2.pages[p] == m.pages[p]
                    &&& m2.pages[0x7F80_1000_0000].user && m2.pages[0x7F80_1000_0000].writable
                },
            },
        },
{
    if let Ok((start, m)) = crate::syscall::elf::elf_loaded(entry::no_memory(), shared, bytes) {
        if let Ok((start2, rsp, m2)) = entry::program_image(shared, bytes, argv, envp) {
            let page: u64 = 0x7F80_1000_0000;
            assert(m2.pages.dom() =~= m.pages.dom().insert(page));
            crate::arch::user_stack::lemma_stack_in_page(
                m.with_page(page),
                (page + 4096) as u64,
                page,
                argv,
                envp,
            );
            if m.wf() && m.pages.dom().contains(p) {
                assert(p != page);
                assert(p % 4096 == 0);
                assert(m.with_page(page).pages[p] == m.pages[p]);
                assert(m2.pages[p].data =~= m.pages[p].data);
                assert(m2.pages[p] =~= m.pages[p]);
            }
        }
    }
}

// ---------------------------------------------------------------------------------------------
// Pipes
// ---------------------------------------------------------------------------------------------

/// A new pipe is empty and has one reading and one writing end, which are the two lowest numbers
/// that were free, the reading end first. Their numbers are stored where the caller asks for them.
pub proof fn law_new_pipe_has_two_ends(k: KView, ptr: u64)
    requires
        k.wf(),
        k.next_pipe < u64::MAX,
        may_write(k.mem, ptr, 8),
        k.sys_pipe(ptr).1 >= 0,
    ensures
        ({
            let (k2, res) = k.sys_pipe(ptr);
            let b = k2.mem.bytes(ptr as int, 8);
            let r = util::le32(b, 0) as u64;
            let w = util::le32(b, 4) as u64;
            let id = k.next_pipe;
            &&& res == 0
            &&& r < w < 16
            &&& k.proc().fd(r) is None && k.proc().fd(w) is None
            &&& k2.proc().fd(r) == Some(FdView::PipeRead(id))
            &&& k2.proc().fd(w) == Some(FdView::PipeWrite(id))
            &&& forall|j: u64| j != r && j != w ==> #[trigger] k2.proc().fd(j) == k.proc().fd(j)
            &&& forall|j: u64| j < w && j != r ==> #[trigger] k.proc().fd(j) is Some
            &&& !k.pipes.dom().contains(id)
            &&& k2.pipes == k.pipes.insert(
                id,
                PipeView { data: Seq::empty(), readers: 1, writers: 1 },
            )
            &&& k2.next_pipe == id + 1
            &&& k2.fs == k.fs
        }),
{
    let id = k.next_pipe;
    let k0 = KView {
        pipes: k.pipes.insert(id, PipeView { data: Seq::empty(), readers: 1, writers: 1 }),
        next_pipe: (id + 1) as u64,
        ..k
    };
    assert(k0.proc() == k.proc());
    assert(k0.wf());
    let (k1, r) = k0.fd_allocated(FdView::PipeRead(id));
    lemma_both(k0, FdView::PipeRead(id));
    if r >= 0 {
        let (k2, w) = k1.fd_allocated(FdView::PipeWrite(id));
        lemma_both(k1, FdView::PipeWrite(id));
        if w >= 0 {
            let b = util::enc32(r as u32) + util::enc32(w as u32);
            util::lemma_le32_enc32(r as u32);
            util::lemma_le32_enc32(w as u32);
            file_laws::lemma_copied(k2.mem, ptr, b);
            let k3 = k.sys_pipe(ptr).0;
            let got = k3.mem.bytes(ptr as int, 8);
            assert(got == b);
            assert(util::le32(b, 0) == r as u32) by {
                let e = util::enc32(r as u32);
                assert(b[0] == e[0] && b[1] == e[1] && b[2] == e[2] && b[3] == e[3]);
            }
            assert(util::le32(b, 4) == w as u32) by {
                let e = util::enc32(w as u32);
                assert(b[4] == e[0] && b[5] == e[1] && b[6] == e[2] && b[7] == e[3]);
            }
            assert(k1.proc().fd(r as u64) is Some);
            assert(r < w) by {
                if w < r {
                    assert(k0.proc().fd(w as u64) is Some);
                    assert(k1.proc().fd(w as u64) == k0.proc().fd(w as u64));
                }
            }
            assert forall|j: u64| j < w && j != r implies #[trigger] k.proc().fd(j) is Some by {
                assert(k1.proc().fd(j) is Some);
                assert(k1.proc().fd(j) == k0.proc().fd(j));
            }
            assert forall|j: u64| j != r && j != w implies #[trigger] k3.proc().fd(j) == k.proc().fd(
                j,
            ) by {
                assert(k2.proc().fd(j) == k1.proc().fd(j));
                assert(k1.proc().fd(j) == k0.proc().fd(j));
            }
            assert(k2.proc().fd(r as u64) == k1.proc().fd(r as u64));
        }
    }
}

/// A descriptor that is given out, and the others.
proof fn lemma_both(k: KView, fd: FdView)
    requires
        k.wf(),
        k.fd_allocated(fd).1 >= 0,
    ensures
        ({
            let (k2, r) = k.fd_allocated(fd);
            &&& k2.wf()
            &&& k2 == (KView { procs: k2.procs, ..k })
            &&& r < 16
            &&& k.proc().fd(r as u64) is None
            &&& k2.proc().fd(r as u64) == Some(fd)
            &&& forall|j: u64| j < r ==> #[trigger] k.proc().fd(j) is Some
            &&& forall|j: u64| j != r ==> #[trigger] k2.proc().fd(j) == k.proc().fd(j)
        }),
{
    let (k2, r) = k.fd_allocated(fd);
    laws::law_new_descriptor_is_the_lowest_free(k, fd, 0);
    files::lemma_fd_allocated(k, fd);
    assert forall|j: u64| j != r implies #[trigger] k2.proc().fd(j) == k.proc().fd(j) by {
        laws::law_new_descriptor_is_the_lowest_free(k, fd, j);
    }
}

/// Reading from a descriptor that is the end of a pipe reads from that pipe; writing writes into it.
pub proof fn law_pipe_ends_lead_to_their_pipe(k: KView, fd: u64, buf: u64, count: u64, rsp: u64)
    ensures
        k.proc().fd(fd) matches Some(FdView::PipeRead(id)) ==> k.sys_read(fd, buf, count)
            == k.touched().pipe_read(id, buf, count),
        k.proc().fd(fd) matches Some(FdView::PipeWrite(id)) ==> k.sys_write(fd, buf, count, rsp)
            == k.touched().pipe_written(id, buf, count),
        k.proc().fd(fd) matches Some(FdView::Console) ==> k.sys_read(fd, buf, count)
            == k.touched().stdin_read(buf, count),
{
}

/// What is written into a pipe that can be read stands behind what was in it; all of it is written.
pub proof fn law_pipe_takes_all_that_is_written(k: KView, id: u64, buf: u64, count: u64)
    requires
        k.pipes.dom().contains(id),
        k.pipes[id].readers > 0,
        count > 0,
        file_laws::may_read(k.mem, buf, count as nat),
    ensures
        ({
            let (k2, r) = k.pipe_written(id, buf, count);
            &&& r == count
            &&& k2.pipes.dom() == k.pipes.dom().insert(id)
            &&& k2.pipes[id].data == k.pipes[id].data + Seq::new(
                count as nat,
                |i: int| k.mem.byte(buf + i),
            )
            &&& k2.pipes[id].readers == k.pipes[id].readers
            &&& k2.pipes[id].writers == k.pipes[id].writers
            &&& forall|j: u64| j != id ==> #[trigger] k2.pipes[j] == k.pipes[j]
            &&& k2.mem == k.mem && k2.procs == k.procs && k2.fs == k.fs
        }),
{
    let b = Seq::new(count as nat, |i: int| k.mem.byte(buf + i));
    assert(k.mem.bytes(buf as int, count as nat) =~= b);
    assert(uaccess::user_bytes(k.mem, buf, count) == Ok::<Seq<u8>, i64>(b));
}

/// Console input is handed out in order, as much as is asked for and as there is; what is not
/// handed out stays. Who asks when there is none waits.
pub proof fn law_console_hands_out_input(k: KView, buf: u64, count: u64, n: nat)
    requires
        k.wf(),
        count > 0,
        n <= count && n <= k.console.ready.len() && (n == count || n == k.console.ready.len()),
        k.console.ready.len() <= i64::MAX,
        may_write(k.mem, buf, n),
    ensures
        ({
            let (k2, r) = k.stdin_read(buf, count);
            let all = k.console.ready;
            &&& n == 0 ==> r is Blocked && k2.mem == k.mem && k2.console == k.console
                && k2.sched.threads[k.sched.current].state is Blocked
                && k2.sched.threads[k.sched.current].blocked_on is Stdin
            &&& n > 0 ==> {
                &&& r == Progress::Done(n as i64)
                &&& k2.console.ready == all.skip(n as int)
                &&& k2.console.line == k.console.line
                &&& memory_gets(k.mem, k2.mem, buf as int, all.take(n as int))
                &&& k2 == (KView { mem: k2.mem, console: k2.console, ..k })
            }
        }),
{
    if n > 0 {
        assert(k.console.takes(count) == n);
        file_laws::lemma_copied(k.mem, buf, k.console.ready.take(n as int));
    }
}

} // verus!
