//! System calls on processes, and the call that a system call starts with.

use crate::sched::thread::{self, Corpse, SignalOutcome, Switch, WaitResult, WaitStep};
use crate::syscall::abi;
use crate::syscall::files;
use crate::syscall::io::{self, Progress};
use crate::syscall::kernel::{KView, Kernel, Stats};
use crate::util;
use vstd::prelude::*;

verus! {

/// How a system call goes on.
#[derive(Debug, Clone, Copy, PartialEq, Eq, Structural)]
pub enum SysStep {
    /// The call is over, with this result.
    Done(i64),
    /// The caller is blocked, and another thread is to be switched to. The call is to be made
    /// anew once the caller runs again.
    Blocked(Switch),
    /// The caller is no more, and another thread is to be switched to.
    Exited(Switch),
}

/// The same for a call that only may wait.
pub open spec fn step_of(p: Progress) -> SysStep {
    match p {
        Progress::Done(r) => SysStep::Done(r),
        Progress::Blocked(w) => SysStep::Blocked(w),
    }
}

/// What a parent learns of the end of a child: the signal that killed it, or the low byte of its
/// exit status in the second byte.
pub open spec fn status_word(code: i32, signal: Option<u8>) -> u32 {
    match signal {
        Some(sig) => sig as u32,
        None => (code as u32 % 0x100 * 0x100) as u32,
    }
}

impl KView {
    /// What `wait4` does.
    pub open spec fn sys_wait4(self, pid: i64, status_ptr: u64) -> (KView, Progress) {
        match self.sched.collected(pid) {
            (s, WaitResult::NoChildren) => (
                KView { sched: s, ..self },
                Progress::Done((-abi::ECHILD) as i64),
            ),
            (s, WaitResult::WouldBlock) => (
                KView { sched: s.switched().0, ..self },
                Progress::Blocked(s.switched().1->0),
            ),
            (s, WaitResult::Collected(child, code, signal)) => {
                let k = KView { sched: s, ..self };
                if status_ptr == 0 {
                    (k, Progress::Done(child as i64))
                } else {
                    match k.handed_out(status_ptr, util::enc32(status_word(code, signal))) {
                        (k2, r) => (
                            k2,
                            Progress::Done(
                                if r != 0 {
                                    r
                                } else {
                                    child as i64
                                },
                            ),
                        ),
                    }
                }
            },
        }
    }

    /// Whether a call of `kill` ends the caller.
    pub open spec fn kill_ends_caller(self, pid: i64, sig: u64) -> bool {
        sig <= abi::SIG_MAX && pid > 0 && self.sched.kills_self(pid as u32, sig as u8)
    }

    /// What `kill` does.
    pub open spec fn sys_kill(self, pid: i64, sig: u64) -> (KView, SysStep) {
        if sig > abi::SIG_MAX {
            (self, SysStep::Done((-abi::EINVAL) as i64))
        } else if pid <= 0 {
            (self, SysStep::Done((-abi::ESRCH) as i64))
        } else {
            let (p, g) = (pid as u32, sig as u8);
            if thread::first_where(self.sched.threads, thread::signalled_as(p), 0)
                >= self.sched.threads.len() {
                (self, SysStep::Done((-abi::ESRCH) as i64))
            } else if self.sched.kills_self(p, g) {
                let (s, w) = self.sched.signalled(p, g).switched();
                (KView { sched: s, ..self }, SysStep::Exited(w->0))
            } else {
                (KView { sched: self.sched.signalled(p, g), ..self }, SysStep::Done(0))
            }
        }
    }

    /// The kernel after the calling process has closed its descriptors on exit, and counted it.
    pub open spec fn exit_recorded(self, status: i32) -> KView {
        let k = self.released();
        KView {
            stats: Stats {
                last_exit_code: status as i64,
                exit_code_sum: k.stats.exit_code_sum.wrapping_add(status as i64),
                exit_calls: k.stats.exit_calls.wrapping_add(1),
                ..k.stats
            },
            ..k
        }
    }

    /// What `exit` does.
    pub open spec fn sys_exit(self, status: i32) -> (KView, SysStep) {
        let k = self.exit_recorded(status);
        let (s, w) = k.sched.exited(status, None).switched();
        (KView { sched: s, ..k }, SysStep::Exited(w->0))
    }

    /// What a fault in user mode does: the process is killed.
    pub open spec fn user_fault(self, sig: u8) -> (KView, SysStep) {
        let (s, w) = self.sched.exited((128 + sig) as i32, Some(sig)).switched();
        (
            KView {
                sched: s,
                stats: Stats {
                    user_fault_kills: self.stats.user_fault_kills.wrapping_add(1),
                    ..self.stats
                },
                ..self
            },
            SysStep::Exited(w->0),
        )
    }

    /// What the system call number `nr` does.
    pub open spec fn dispatch(self, nr: u64, a: Seq<u64>, user_rsp: u64) -> (KView, SysStep) {
        if nr == abi::SYS_READ {
            let (k, p) = self.sys_read(a[0], a[1], a[2]);
            (k, step_of(p))
        } else if nr == abi::SYS_WAIT4 {
            let (k, p) = self.sys_wait4(a[0] as i64, a[1]);
            (k, step_of(p))
        } else if nr == abi::SYS_KILL {
            self.sys_kill(a[0] as i64, a[1])
        } else if nr == abi::SYS_EXIT || nr == abi::SYS_EXIT_GROUP {
            self.sys_exit(a[0] as i32)
        } else {
            let (k, r) = self.plain_call(nr, a, user_rsp);
            (k, SysStep::Done(r))
        }
    }

    /// What the system calls do that neither wait nor end the caller.
    pub open spec fn plain_call(self, nr: u64, a: Seq<u64>, user_rsp: u64) -> (KView, i64) {
        if nr == abi::SYS_WRITE {
            self.sys_write(a[0], a[1], a[2], user_rsp)
        } else if nr == abi::SYS_OPEN {
            self.sys_open(a[0], a[1])
        } else if nr == abi::SYS_CLOSE {
            self.sys_close(a[0])
        } else if nr == abi::SYS_PIPE {
            self.sys_pipe(a[0])
        } else if nr == abi::SYS_DUP2 {
            self.sys_dup2(a[0], a[1])
        } else if nr == abi::SYS_GETDENTS64 {
            self.sys_getdents64(a[0], a[1], a[2])
        } else if nr == abi::SYS_LSEEK {
            self.sys_lseek(a[0], a[1] as i64, a[2])
        } else if nr == abi::SYS_CHDIR {
            self.sys_chdir(a[0])
        } else if nr == abi::SYS_GETCWD {
            self.sys_getcwd(a[0], a[1])
        } else if nr == abi::SYS_MKDIR {
            self.sys_mkdir(a[0])
        } else if nr == abi::SYS_RMDIR {
            self.sys_rmdir(a[0])
        } else if nr == abi::SYS_UNLINK {
            self.sys_unlink(a[0])
        } else if nr == abi::SYS_GETPID {
            (self, self.sched.running().pid as i64)
        } else {
            (self, (-abi::ENOSYS) as i64)
        }
    }

    /// A call can be made: where it blocks or ends the caller another thread is there to run, a
    /// directory is read at a record, and there is a number left for a pipe.
    pub open spec fn callable(self, nr: u64, a: Seq<u64>) -> bool {
        &&& nr == abi::SYS_READ && self.sys_read(a[0], a[1], a[2]).1 is Blocked
            ==> self.sched.has_other_runnable()
        &&& nr == abi::SYS_WAIT4 && self.sys_wait4(a[0] as i64, a[1]).1 is Blocked
            ==> self.sched.has_other_runnable()
        &&& nr == abi::SYS_KILL && self.kill_ends_caller(a[0] as i64, a[1])
            ==> self.sched.signalled((a[0] as i64) as u32, a[1] as u8).has_runnable()
        &&& nr == abi::SYS_EXIT || nr == abi::SYS_EXIT_GROUP ==> self.exit_recorded(
            a[0] as i32,
        ).sched.exited(a[0] as i32, None).has_runnable()
        &&& nr == abi::SYS_GETDENTS64 ==> self.dirents_readable(a[0], a[2])
        &&& nr == abi::SYS_PIPE ==> self.next_pipe < u64::MAX
    }
}

/// `wait4(pid, status)`: collects an exited child, or waits for one.
pub fn sys_wait4(k: &mut Kernel, pid: i64, status_ptr: u64) -> (r: Progress)
    requires
        old(k)@.wf(),
        old(k)@.sys_wait4(pid, status_ptr).1 is Blocked ==> old(k)@.sched.has_other_runnable(),
    ensures
        final(k)@.wf(),
        (final(k)@, r) == old(k)@.sys_wait4(pid, status_ptr),
{
    let ghost before = k@;
    match thread::wait_current(&mut k.sched, pid) {
        WaitStep::Switched(w) => {
            assert(k@.pipes == before.pipes && k@.procs == before.procs);
            Progress::Blocked(w)
        },
        WaitStep::Done(None) => {
            assert(k@.pipes == before.pipes && k@.procs == before.procs);
            Progress::Done(-abi::ECHILD)
        },
        WaitStep::Done(Some((child, code, signal))) => {
            assert(k@.pipes == before.pipes && k@.procs == before.procs);
            if status_ptr != 0 {
                let word: u32 = match signal {
                    Some(sig) => sig as u32,
                    None => code as u32 % 0x100 * 0x100,
                };
                let mut out = [0u8;4];
                util::put_u32(&mut out, 0, word);
                assert(out@ =~= util::enc32(word));
                let r = files::hand_out(k, status_ptr, &out);
                if r != 0 {
                    return Progress::Done(r);
                }
            }
            Progress::Done(child as i64)
        },
    }
}

/// `kill(pid, sig)`.
pub fn sys_kill(k: &mut Kernel, pid: i64, sig: u64) -> (r: SysStep)
    requires
        old(k)@.wf(),
        old(k)@.kill_ends_caller(pid, sig) ==> old(k)@.sched.signalled(
            pid as u32,
            sig as u8,
        ).has_runnable(),
    ensures
        final(k)@.wf(),
        (final(k)@, r) == old(k)@.sys_kill(pid, sig),
{
    if sig > abi::SIG_MAX {
        return SysStep::Done(-abi::EINVAL);
    }
    if pid <= 0 {
        return SysStep::Done(-abi::ESRCH);
    }
    let ghost before = k@;
    let outcome = thread::signal(&mut k.sched, pid as u32, sig as u8);
    assert(k@ == KView { sched: k@.sched, ..before });
    match outcome {
        SignalOutcome::Delivered => SysStep::Done(0),
        SignalOutcome::NoSuchProcess => SysStep::Done(-abi::ESRCH),
        SignalOutcome::SelfTerminated(w) => SysStep::Exited(w),
    }
}

/// `exit(status)`: closes the descriptors of the caller and ends it.
pub fn sys_exit(k: &mut Kernel, status: i32) -> (r: SysStep)
    requires
        old(k)@.wf(),
        old(k)@.exit_recorded(status).sched.exited(status, None).has_runnable(),
    ensures
        final(k)@.wf(),
        (final(k)@, r) == old(k)@.sys_exit(status),
{
    files::release_current_process_fds(k);
    k.stats.last_exit_code = status as i64;
    k.stats.exit_code_sum = k.stats.exit_code_sum.wrapping_add(status as i64);
    k.stats.exit_calls = k.stats.exit_calls.wrapping_add(1);
    let ghost mid = k@;
    match thread::exit_current(&mut k.sched, status) {
        Some(w) => {
            assert(k@ == KView { sched: k@.sched, ..mid });
            SysStep::Exited(w)
        },
        None => SysStep::Done(0),
    }
}

/// Kills the process that runs, for a fault of its own.
pub fn kill_for_fault(k: &mut Kernel, sig: u8) -> (r: SysStep)
    requires
        old(k)@.wf(),
        old(k)@.sched.exited((128 + sig) as i32, Some(sig)).has_runnable(),
    ensures
        final(k)@.wf(),
        (final(k)@, r) == old(k)@.user_fault(sig),
{
    let ghost before = k@;
    k.stats.user_fault_kills = k.stats.user_fault_kills.wrapping_add(1);
    let ghost mid = k@;
    assert(mid == KView { stats: mid.stats, ..before });
    match thread::exit_current_killed(&mut k.sched, sig) {
        Some(w) => {
            assert(k@ == KView { sched: k@.sched, ..mid });
            SysStep::Exited(w)
        },
        None => SysStep::Done(0),
    }
}

/// Makes a call that neither waits nor ends the caller.
fn plain_call(k: &mut Kernel, nr: u64, args: [u64; 6], user_rsp: u64) -> (r: i64)
    requires
        old(k)@.wf(),
        old(k)@.callable(nr, args@),
    ensures
        final(k)@.wf(),
        (final(k)@, r) == old(k)@.plain_call(nr, args@, user_rsp),
{
    if nr == abi::SYS_WRITE {
        io::sys_write(k, args[0], args[1], args[2], user_rsp)
    } else if nr == abi::SYS_OPEN {
        files::sys_open(k, args[0], args[1])
    } else if nr == abi::SYS_CLOSE {
        files::sys_close(k, args[0])
    } else if nr == abi::SYS_PIPE {
        io::sys_pipe(k, args[0])
    } else if nr == abi::SYS_DUP2 {
        files::sys_dup2(k, args[0], args[1])
    } else if nr == abi::SYS_GETDENTS64 {
        files::sys_getdents64(k, args[0], args[1], args[2])
    } else if nr == abi::SYS_LSEEK {
        files::sys_lseek(k, args[0], args[1] as i64, args[2])
    } else if nr == abi::SYS_CHDIR {
        files::sys_chdir(k, args[0])
    } else if nr == abi::SYS_GETCWD {
        files::sys_getcwd(k, args[0], args[1])
    } else if nr == abi::SYS_MKDIR {
        files::sys_mkdir(k, args[0], args[1])
    } else if nr == abi::SYS_RMDIR {
        files::sys_rmdir(k, args[0])
    } else if nr == abi::SYS_UNLINK {
        files::sys_unlink(k, args[0])
    } else if nr == abi::SYS_GETPID {
        thread::current_pid(&k.sched) as i64
    } else {
        -abi::ENOSYS
    }
}

/// Makes the system call number `nr` with the given arguments.
pub fn dispatch(k: &mut Kernel, nr: u64, args: [u64; 6], user_rsp: u64) -> (r: SysStep)
    requires
        old(k)@.wf(),
        old(k)@.callable(nr, args@),
    ensures
        final(k)@.wf(),
        (final(k)@, r) == old(k)@.dispatch(nr, args@, user_rsp),
{
    if nr == abi::SYS_READ {
        match io::sys_read(k, args[0], args[1], args[2]) {
            Progress::Done(r) => SysStep::Done(r),
            Progress::Blocked(w) => SysStep::Blocked(w),
        }
    } else if nr == abi::SYS_WAIT4 {
        match sys_wait4(k, args[0] as i64, args[1]) {
            Progress::Done(r) => SysStep::Done(r),
            Progress::Blocked(w) => SysStep::Blocked(w),
        }
    } else if nr == abi::SYS_KILL {
        sys_kill(k, args[0] as i64, args[1])
    } else if nr == abi::SYS_EXIT || nr == abi::SYS_EXIT_GROUP {
        sys_exit(k, args[0] as i32)
    } else {
        SysStep::Done(plain_call(k, nr, args, user_rsp))
    }
}

// ---------------------------------------------------------------------------------------------
// Reaping
// ---------------------------------------------------------------------------------------------

impl KView {
    /// The kernel without the states of the processes whose address spaces are to be freed.
    pub open spec fn corpses_forgotten(self, corpses: Seq<Corpse>) -> KView
        decreases corpses.len(),
    {
        if corpses.len() == 0 {
            self
        } else {
            let k = self.corpses_forgotten(corpses.drop_last());
            match corpses.last().0 {
                Some(cr3) => k.forgotten(cr3),
                None => k,
            }
        }
    }

    /// The kernel after exited processes were reaped.
    pub open spec fn processes_reaped(self) -> KView {
        let n = self.sched.threads.len() as int;
        KView { sched: self.sched.reaped(n), ..self }.corpses_forgotten(self.sched.corpses(n))
    }
}

/// Frees what exited processes have left: their states are forgotten, and their address spaces and
/// kernel stacks are returned. Nothing is done while there is no allocator (`installed`) to give
/// frames back to.
pub fn reap(k: &mut Kernel, installed: bool) -> (r: Vec<Corpse>)
    requires
        old(k)@.wf(),
    ensures
        final(k)@.wf(),
        !installed ==> r@.len() == 0 && final(k)@ == old(k)@,
        installed ==> r@ == old(k)@.sched.corpses(old(k)@.sched.threads.len() as int) && final(k)@
            == old(k)@.processes_reaped(),
{
    let ghost before = k@;
    let corpses = thread::reap(&mut k.sched, installed);
    let ghost start = k@;
    assert(start == KView { sched: start.sched, ..before });
    let mut i: usize = 0;
    assert(corpses@.take(0) =~= Seq::<Corpse>::empty());
    while i < corpses.len()
        invariant
            k@.wf(),
            i <= corpses@.len(),
            k@ == start.corpses_forgotten(corpses@.take(i as int)),
        decreases corpses@.len() - i,
    {
        assert(corpses@.take(i + 1).drop_last() =~= corpses@.take(i as int));
        let (cr3, _) = corpses[i];
        match cr3 {
            Some(c) => {
                files::forget_process(k, c);
            },
            None => {},
        }
        i += 1;
    }
    assert(corpses@.take(i as int) =~= corpses@);
    assert(!installed ==> corpses@ =~= Seq::<Corpse>::empty());
    corpses
}

} // verus!
