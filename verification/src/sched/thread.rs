//! Threads of the kernel and user processes: round-robin switching, blocking and waking, exit,
//! signals, waiting for children, and reaping.
//!
//! A thread is a kernel stack and a saved stack pointer. A user process is a thread that has an
//! address space of its own. What is decided here are states and the parameters of a switch; the
//! machine layer saves and restores registers, loads the address space and owns the memory of
//! the stacks, which are known here by a handle.

use vstd::prelude::*;

verus! {

/// Size of the stack of a kernel thread.
pub const STACK_SIZE: usize = 16384;

/// The state of a thread.
#[derive(Debug, PartialEq, Eq, Clone, Copy, Structural)]
pub enum State {
    /// Ready to run.
    Runnable,
    /// Waits for an event.
    Blocked,
    /// Exited; the status has not been collected by the parent.
    Zombie,
    /// Exited, the status collected; the resources are not freed yet.
    Dead,
    /// Exited and freed. The entry stays as a tombstone.
    Reaped,
}

/// What a blocked thread waits for.
#[derive(Debug, PartialEq, Eq, Clone, Copy, Structural)]
pub enum BlockReason {
    /// Nothing: the thread is not blocked.
    Nothing,
    /// The exit of a child.
    Child,
    /// Input on the console.
    Stdin,
    /// Data, room or the end of a pipe.
    Pipe,
}

/// A thread.
#[derive(Debug, Clone, Copy)]
pub struct Thread {
    /// Process number; 0 is the boot thread.
    pub pid: u32,
    /// Process number of the parent; 0 for children of the kernel and for orphans.
    pub parent: u32,
    /// Exit status, once the thread has exited.
    pub exit_status: Option<i32>,
    /// The signal that killed the process, if one did.
    pub term_signal: Option<u8>,
    /// Signals that were sent, bit `sig - 1` for each.
    pub pending_signals: u64,
    /// Saved stack pointer.
    pub rsp: u64,
    /// Handle of the kernel stack. The boot thread has none.
    pub stack: Option<u64>,
    /// Root of the address space; none for a kernel thread.
    pub cr3: Option<u64>,
    /// Top of the kernel stack, the one that interrupts from user mode switch to.
    pub kernel_stack_top: u64,
    pub state: State,
    pub blocked_on: BlockReason,
}

/// The round-robin scheduler.
#[derive(Clone)]
pub struct Scheduler {
    pub threads: Vec<Thread>,
    /// Index of the thread that runs.
    pub current: usize,
    /// The address space of the kernel, which kernel threads run in.
    pub kernel_cr3: u64,
    /// The process number that is given out next.
    pub next_pid: u32,
    /// Whether the timer switches threads.
    pub preemption: bool,
    /// How many times a process has blocked on console input.
    pub stdin_blocks: u64,
}

/// What a [`Scheduler`] holds.
#[verifier::ext_equal]
pub struct SchedView {
    pub threads: Seq<Thread>,
    pub current: int,
    pub kernel_cr3: u64,
    pub next_pid: u32,
    pub preemption: bool,
    pub stdin_blocks: u64,
}

/// The parameters of a switch: the thread that is left, and stack pointer, address space and
/// kernel stack top of the one that is entered.
#[derive(Debug, PartialEq, Eq, Clone, Copy, Structural)]
pub struct Switch {
    pub from: usize,
    pub to: usize,
    pub rsp: u64,
    pub cr3: u64,
    pub rsp0: u64,
}

/// The outcome of sending a signal.
#[derive(Debug, PartialEq, Eq, Clone, Copy, Structural)]
pub enum SignalOutcome {
    /// The signal was delivered or recorded.
    Delivered,
    /// No living process has that number.
    NoSuchProcess,
    /// The sender has killed itself: another thread is to be switched to.
    SelfTerminated(Switch),
}

/// The outcome of one attempt to wait for a child.
#[derive(Debug, PartialEq, Eq, Clone, Copy, Structural)]
pub enum WaitResult {
    /// An exited child: number, status, and the signal that killed it.
    Collected(u32, i32, Option<u8>),
    /// There are living children only; the caller is blocked now.
    WouldBlock,
    /// There is no such child.
    NoChildren,
}

/// How waiting goes on.
#[derive(Debug, PartialEq, Eq, Clone, Copy)]
pub enum WaitStep {
    /// The wait is over: the child that was collected, or none if there is no such child.
    Done(Option<(u32, i32, Option<u8>)>),
    /// The caller is blocked. Once it runs again it has to wait anew.
    Switched(Switch),
}

/// What an exited thread leaves to be freed: address space and kernel stack.
pub type Corpse = (Option<u64>, Option<u64>);

/// Index of the first thread from `i` on that satisfies `p`; the length if there is none.
pub open spec fn first_where(ts: Seq<Thread>, p: spec_fn(Thread) -> bool, i: int) -> int
    decreases ts.len() - i,
{
    if i >= ts.len() {
        ts.len() as int
    } else if p(ts[i]) {
        i
    } else {
        first_where(ts, p, i + 1)
    }
}

/// Where the first thread with a property stands.
pub proof fn lemma_first_where(ts: Seq<Thread>, p: spec_fn(Thread) -> bool, i: int, at: int)
    requires
        0 <= i <= at <= ts.len(),
        forall|j: int| i <= j < at ==> !p(#[trigger] ts[j]),
        at < ts.len() ==> p(ts[at]),
    ensures
        first_where(ts, p, i) == at,
    decreases at - i,
{
    if i < at {
        assert(!p(ts[i]));
        lemma_first_where(ts, p, i + 1, at);
    }
}

/// What is known of the first thread with a property.
pub proof fn lemma_first_where_is(ts: Seq<Thread>, p: spec_fn(Thread) -> bool, i: int)
    requires
        0 <= i <= ts.len(),
    ensures
        i <= first_where(ts, p, i) <= ts.len(),
        first_where(ts, p, i) < ts.len() ==> p(ts[first_where(ts, p, i)]),
        forall|j: int| i <= j < first_where(ts, p, i) ==> !p(#[trigger] ts[j]),
    decreases ts.len() - i,
{
    if i < ts.len() && !p(ts[i]) {
        lemma_first_where_is(ts, p, i + 1);
    }
}

/// Whether a state is that of a living thread.
pub open spec fn alive(state: State) -> bool {
    state is Runnable || state is Blocked
}

/// The threads `ts` with the children of `pid` given to the kernel.
pub open spec fn reparented(ts: Seq<Thread>, pid: u32) -> Seq<Thread> {
    Seq::new(
        ts.len(),
        |i: int|
            if ts[i].parent == pid {
                Thread { parent: 0, ..ts[i] }
            } else {
                ts[i]
            },
    )
}

/// Whether a thread is the process `pid` and waits for a child.
pub open spec fn waits_as(pid: u32) -> spec_fn(Thread) -> bool {
    |t: Thread| t.pid == pid && t.state is Blocked && t.blocked_on is Child
}

/// The threads `ts` with the first that is the process `pid` and waits for a child made runnable.
pub open spec fn parent_woken(ts: Seq<Thread>, pid: u32) -> Seq<Thread> {
    let w = first_where(ts, waits_as(pid), 0);
    if pid != 0 && w < ts.len() {
        ts.update(w, Thread { state: State::Runnable, ..ts[w] })
    } else {
        ts
    }
}

/// The threads after thread `idx` has exited: it is a zombie, its children belong to the kernel,
/// and its parent is woken if it waits for a child.
pub open spec fn terminated(
    ts: Seq<Thread>,
    idx: int,
    status: i32,
    signal: Option<u8>,
) -> Seq<Thread> {
    let gone = Thread {
        exit_status: Some(status),
        term_signal: signal,
        state: State::Zombie,
        ..ts[idx]
    };
    let kin = reparented(ts.update(idx, gone), ts[idx].pid);
    parent_woken(kin, kin[idx].parent)
}

/// The threads `ts` with all that are blocked for `reason` made runnable.
pub open spec fn woken(ts: Seq<Thread>, reason: BlockReason) -> Seq<Thread> {
    Seq::new(
        ts.len(),
        |i: int|
            if ts[i].state is Blocked && ts[i].blocked_on == reason {
                Thread { state: State::Runnable, ..ts[i] }
            } else {
                ts[i]
            },
    )
}

/// Whether the action of a signal, with no handler installed, is to end the process.
pub open spec fn kills(sig: u8) -> bool {
    !(sig == 17 || sig == 18 || sig == 19 || sig == 20 || sig == 21 || sig == 22 || sig == 23 || sig
        == 28)
}

/// Whether a thread can be sent signals as process `pid`.
pub open spec fn signalled_as(pid: u32) -> spec_fn(Thread) -> bool {
    |t: Thread| t.pid == pid && t.cr3 is Some && alive(t.state)
}

/// Whether a thread is a child of `parent`, the process `want` if that is given.
pub open spec fn child_of(t: Thread, parent: u32, want: Option<u32>) -> bool {
    t.parent == parent && (want matches Some(p) ==> t.pid == p)
}

/// Whether a thread is such a child and a zombie.
pub open spec fn zombie_of(parent: u32, want: Option<u32>) -> spec_fn(Thread) -> bool {
    |t: Thread| child_of(t, parent, want) && t.state is Zombie
}

/// Whether a thread is such a child and alive.
pub open spec fn living_of(parent: u32, want: Option<u32>) -> spec_fn(Thread) -> bool {
    |t: Thread| child_of(t, parent, want) && alive(t.state)
}

/// The child that a wait is for: a certain one where the number is positive, else any.
pub open spec fn wanted(want_pid: i64) -> Option<u32> {
    if want_pid > 0 {
        Some(want_pid as u32)
    } else {
        None
    }
}

/// Whether a thread that is not running is to be freed: its status was collected, or nobody is
/// left to collect it.
pub open spec fn collectable(t: Thread) -> bool {
    t.state is Dead || (t.state is Zombie && t.parent == 0)
}

/// The thread that is reached by `i` steps from `cur` round a table of `len`.
pub open spec fn round(cur: int, i: int, len: int) -> int {
    (cur + i) % len
}

/// The first `i` from `from` on for which the thread `i` steps after `cur` is runnable; the length
/// if there is none.
pub open spec fn next_ready(ts: Seq<Thread>, cur: int, from: int) -> int
    decreases ts.len() - from,
{
    if from >= ts.len() {
        ts.len() as int
    } else if ts[round(cur, from, ts.len() as int)].state is Runnable {
        from
    } else {
        next_ready(ts, cur, from + 1)
    }
}

impl View for Scheduler {
    type V = SchedView;

    open spec fn view(&self) -> SchedView {
        SchedView {
            threads: self.threads@,
            current: self.current as int,
            kernel_cr3: self.kernel_cr3,
            next_pid: self.next_pid,
            preemption: self.preemption,
            stdin_blocks: self.stdin_blocks,
        }
    }
}

impl SchedView {
    /// The thread that runs exists.
    pub open spec fn wf(self) -> bool {
        0 <= self.current < self.threads.len()
    }

    /// The thread that runs.
    pub open spec fn running(self) -> Thread {
        self.threads[self.current]
    }

    /// Some thread is ready to run.
    pub open spec fn has_runnable(self) -> bool {
        exists|i: int| 0 <= i < self.threads.len() && (#[trigger] self.threads[i]).state is Runnable
    }

    /// Some thread other than the running one is ready to run.
    pub open spec fn has_other_runnable(self) -> bool {
        exists|i: int|
            0 <= i < self.threads.len() && i != self.current && (
            #[trigger] self.threads[i]).state is Runnable
    }

    /// The scheduler after the switch to the next ready thread, and its parameters; unchanged
    /// where no other thread is ready.
    pub open spec fn switched(self) -> (SchedView, Option<Switch>) {
        let len = self.threads.len() as int;
        let step = next_ready(self.threads, self.current, 1);
        if step >= len {
            (self, None)
        } else {
            let n = round(self.current, step, len);
            (
                SchedView { current: n, ..self },
                Some(
                    Switch {
                        from: self.current as usize,
                        to: n as usize,
                        rsp: self.threads[n].rsp,
                        cr3: match self.threads[n].cr3 {
                            Some(c) => c,
                            None => self.kernel_cr3,
                        },
                        rsp0: self.threads[n].kernel_stack_top,
                    },
                ),
            )
        }
    }

    /// The scheduler with a new thread at the end of its table.
    pub open spec fn spawned(
        self,
        rsp: u64,
        stack: u64,
        cr3: Option<u64>,
        kernel_stack_top: u64,
    ) -> SchedView {
        SchedView {
            threads: self.threads.push(
                Thread {
                    pid: self.next_pid,
                    parent: self.running().pid,
                    exit_status: None,
                    term_signal: None,
                    pending_signals: 0,
                    rsp,
                    stack: Some(stack),
                    cr3,
                    kernel_stack_top,
                    state: State::Runnable,
                    blocked_on: BlockReason::Nothing,
                },
            ),
            next_pid: if self.next_pid == u32::MAX {
                0
            } else {
                (self.next_pid + 1) as u32
            },
            ..self
        }
    }

    /// The scheduler after the running thread has exited.
    pub open spec fn exited(self, status: i32, signal: Option<u8>) -> SchedView {
        SchedView { threads: terminated(self.threads, self.current, status, signal), ..self }
    }

    /// The scheduler with the running thread blocked for `reason`.
    pub open spec fn blocked(self, reason: BlockReason) -> SchedView {
        SchedView {
            threads: self.threads.update(
                self.current,
                Thread { state: State::Blocked, blocked_on: reason, ..self.running() },
            ),
            ..self
        }
    }

    /// The scheduler after signal `sig` was sent to process `pid`, without the switch that
    /// follows where the sender has killed itself.
    pub open spec fn signalled(self, pid: u32, sig: u8) -> SchedView {
        let idx = first_where(self.threads, signalled_as(pid), 0);
        if idx >= self.threads.len() || sig == 0 {
            self
        } else {
            let t = self.threads[idx];
            let marked = self.threads.update(
                idx,
                Thread { pending_signals: t.pending_signals | (1u64 << ((sig - 1) as u64)), ..t },
            );
            SchedView {
                threads: if kills(sig) {
                    terminated(marked, idx, (128 + sig) as i32, Some(sig))
                } else {
                    marked
                },
                ..self
            }
        }
    }

    /// Whether sending signal `sig` to process `pid` kills the sender.
    pub open spec fn kills_self(self, pid: u32, sig: u8) -> bool {
        &&& first_where(self.threads, signalled_as(pid), 0) == self.current
        &&& self.current < self.threads.len()
        &&& sig != 0
        &&& kills(sig)
    }

    /// One attempt of the running process to wait for a child.
    pub open spec fn collected(self, want_pid: i64) -> (SchedView, WaitResult) {
        let me = self.running().pid;
        let want = wanted(want_pid);
        let len = self.threads.len();
        let z = first_where(self.threads, zombie_of(me, want), 0);
        if z < len {
            let t = self.threads[z];
            (
                SchedView {
                    threads: self.threads.update(z, Thread { state: State::Dead, ..t }),
                    ..self
                },
                WaitResult::Collected(
                    t.pid,
                    match t.exit_status {
                        Some(s) => s,
                        None => 0,
                    },
                    t.term_signal,
                ),
            )
        } else if first_where(self.threads, living_of(me, want), 0) < len {
            (self.blocked(BlockReason::Child), WaitResult::WouldBlock)
        } else {
            (self, WaitResult::NoChildren)
        }
    }

    /// Whether thread `i` is freed by the reaper.
    pub open spec fn reaps(self, i: int) -> bool {
        i != self.current && collectable(self.threads[i])
    }

    /// The scheduler after the first `n` threads were looked at by the reaper.
    pub open spec fn reaped(self, n: int) -> SchedView {
        SchedView {
            threads: Seq::new(
                self.threads.len(),
                |i: int|
                    if i < n && self.reaps(i) {
                        Thread { cr3: None, stack: None, state: State::Reaped, ..self.threads[i] }
                    } else {
                        self.threads[i]
                    },
            ),
            ..self
        }
    }

    /// What the reaper finds among the first `n` threads.
    pub open spec fn corpses(self, n: int) -> Seq<Corpse>
        decreases n,
    {
        if n <= 0 {
            Seq::empty()
        } else {
            let before = self.corpses(n - 1);
            if self.reaps(n - 1) {
                before.push((self.threads[n - 1].cr3, self.threads[n - 1].stack))
            } else {
                before
            }
        }
    }
}

/// The scheduler at start: the boot thread runs, in the address space of the kernel.
pub fn init(kernel_cr3: u64) -> (s: Scheduler)
    ensures
        s@.wf(),
        s@.threads == seq![
            Thread {
                pid: 0,
                parent: 0,
                exit_status: None,
                term_signal: None,
                pending_signals: 0,
                rsp: 0,
                stack: None,
                cr3: None,
                kernel_stack_top: 0,
                state: State::Runnable,
                blocked_on: BlockReason::Nothing,
            },
        ],
        s@.current == 0,
        s@.kernel_cr3 == kernel_cr3,
        s@.next_pid == 1,
        !s@.preemption,
        s@.stdin_blocks == 0,
{
    let mut threads: Vec<Thread> = Vec::new();
    threads.push(
        Thread {
            pid: 0,
            parent: 0,
            exit_status: None,
            term_signal: None,
            pending_signals: 0,
            rsp: 0,
            stack: None,
            cr3: None,
            kernel_stack_top: 0,
            state: State::Runnable,
            blocked_on: BlockReason::Nothing,
        },
    );
    Scheduler {
        threads,
        current: 0,
        kernel_cr3,
        next_pid: 1,
        preemption: false,
        stdin_blocks: 0,
    }
}

/// Process number of the running thread.
pub fn current_pid(sched: &Scheduler) -> (pid: u32)
    requires
        sched@.wf(),
    ensures
        pid == sched@.running().pid,
{
    sched.threads[sched.current].pid
}

/// The address space of the kernel.
pub fn kernel_cr3(sched: &Scheduler) -> (cr3: u64)
    ensures
        cr3 == sched@.kernel_cr3,
{
    sched.kernel_cr3
}

/// Adds a thread with a fresh process number, the running thread its parent.
fn push_thread(
    sched: &mut Scheduler,
    rsp: u64,
    stack: u64,
    cr3: Option<u64>,
    kernel_stack_top: u64,
) -> (pid: u32)
    requires
        old(sched)@.wf(),
    ensures
        final(sched)@ == old(sched)@.spawned(rsp, stack, cr3, kernel_stack_top),
        final(sched)@.wf(),
        pid == old(sched)@.next_pid,
{
    let parent = current_pid(sched);
    let pid = sched.next_pid;
    sched.next_pid = if pid == u32::MAX { 0 } else { pid + 1 };
    sched.threads.push(
        Thread {
            pid,
            parent,
            exit_status: None,
            term_signal: None,
            pending_signals: 0,
            rsp,
            stack: Some(stack),
            cr3,
            kernel_stack_top,
            state: State::Runnable,
            blocked_on: BlockReason::Nothing,
        },
    );
    assert(sched@ =~= old(sched)@.spawned(rsp, stack, cr3, kernel_stack_top));
    pid
}

/// Adds a kernel thread whose first context was laid out at `rsp` in the stack `stack` that ends
/// at `top`.
pub fn spawn(sched: &mut Scheduler, rsp: u64, stack: u64, top: u64)
    requires
        old(sched)@.wf(),
    ensures
        final(sched)@ == old(sched)@.spawned(rsp, stack, None, top),
        final(sched)@.wf(),
{
    let _ = push_thread(sched, rsp, stack, None, top);
}

/// Adds a user process whose first context was laid out at `rsp` in the kernel stack `kstack`,
/// with the address space `cr3`. Returns its number.
pub fn add_user_task(sched: &mut Scheduler, rsp: u64, cr3: u64, kernel_stack_top: u64, kstack: u64)
    -> (pid: u32)
    requires
        old(sched)@.wf(),
    ensures
        final(sched)@ == old(sched)@.spawned(rsp, kstack, Some(cr3), kernel_stack_top),
        final(sched)@.wf(),
        pid == old(sched)@.next_pid,
{
    push_thread(sched, rsp, kstack, Some(cr3), kernel_stack_top)
}

/// Gives the running process the address space `new` and returns the one it had.
pub fn exec_replace_cr3(sched: &mut Scheduler, new: u64) -> (before: u64)
    requires
        old(sched)@.wf(),
        old(sched)@.running().cr3 is Some,
    ensures
        Some(before) == old(sched)@.running().cr3,
        final(sched)@ == (SchedView {
            threads: old(sched)@.threads.update(
                old(sched)@.current,
                Thread { cr3: Some(new), ..old(sched)@.running() },
            ),
            ..old(sched)@
        }),
        final(sched)@.wf(),
{
    let cur = sched.current;
    let mut t = sched.threads[cur];
    let before = match t.cr3 {
        Some(c) => c,
        None => 0,
    };
    t.cr3 = Some(new);
    sched.threads.set(cur, t);
    before
}

/// Lets the timer switch threads from now on.
pub fn start_preemption(sched: &mut Scheduler)
    ensures
        final(sched)@ == (SchedView { preemption: true, ..old(sched)@ }),
{
    sched.preemption = true;
}

/// Keeps the timer from switching threads.
pub fn stop_preemption(sched: &mut Scheduler)
    ensures
        final(sched)@ == (SchedView { preemption: false, ..old(sched)@ }),
{
    sched.preemption = false;
}

/// Marks thread `idx` as exited, gives its children to the kernel and wakes its parent if that
/// waits for a child. Nothing is switched.
fn terminate(sched: &mut Scheduler, idx: usize, status: i32, signal: Option<u8>)
    requires
        old(sched)@.wf(),
        idx < old(sched)@.threads.len(),
    ensures
        final(sched)@ == (SchedView {
            threads: terminated(old(sched)@.threads, idx as int, status, signal),
            ..old(sched)@
        }),
        final(sched)@.wf(),
{
    let ghost ts0 = sched.threads@;
    let mut t = sched.threads[idx];
    let pid = t.pid;
    t.exit_status = Some(status);
    t.term_signal = signal;
    t.state = State::Zombie;
    sched.threads.set(idx, t);
    let ghost ts1 = sched.threads@;
    let mut i: usize = 0;
    while i < sched.threads.len()
        invariant
            i <= sched.threads@.len(),
            sched.threads@.len() == ts1.len(),
            (SchedView { threads: ts0, ..sched@ }) == old(sched)@,
            forall|j: int| 0 <= j < i ==> sched.threads@[j] == reparented(ts1, pid)[j],
            forall|j: int| i <= j < ts1.len() ==> sched.threads@[j] == ts1[j],
        decreases sched.threads@.len() - i,
    {
        let mut t = sched.threads[i];
        if t.parent == pid {
            t.parent = 0;
            sched.threads.set(i, t);
        }
        i += 1;
    }
    let ghost kin = reparented(ts1, pid);
    assert(sched.threads@ =~= kin);
    let parent_pid = sched.threads[idx].parent;
    if parent_pid != 0 {
        let mut k: usize = 0;
        while k < sched.threads.len()
            invariant
                k <= sched.threads@.len(),
                sched.threads@ == kin,
                (SchedView { threads: ts0, ..sched@ }) == old(sched)@,
                parent_pid != 0,
                idx < ts0.len(),
                parent_pid == kin[idx as int].parent,
                kin == reparented(ts1, pid),
                pid == ts0[idx as int].pid,
                ts1 == ts0.update(
                    idx as int,
                    Thread {
                        exit_status: Some(status),
                        term_signal: signal,
                        state: State::Zombie,
                        ..ts0[idx as int]
                    },
                ),
                old(sched)@.wf(),
                forall|j: int| 0 <= j < k ==> !waits_as(parent_pid)(#[trigger] kin[j]),
            decreases sched.threads@.len() - k,
        {
            let mut t = sched.threads[k];
            if t.pid == parent_pid && t.state == State::Blocked && t.blocked_on == BlockReason::Child {
                t.state = State::Runnable;
                sched.threads.set(k, t);
                proof {
                    lemma_first_where(kin, waits_as(parent_pid), 0, k as int);
                }
                return ;
            }
            k += 1;
        }
        proof {
            lemma_first_where(kin, waits_as(parent_pid), 0, kin.len() as int);
        }
    }
}

/// Switches to the first ready thread after the running one. `None` where the running thread is
/// the only one that is ready.
pub fn switch_to_next(sched: &mut Scheduler) -> (r: Option<Switch>)
    requires
        old(sched)@.wf(),
        old(sched)@.has_runnable(),
    ensures
        (final(sched)@, r) == old(sched)@.switched(),
        final(sched)@.wf(),
        r is None ==> old(sched)@.running().state is Runnable,
        r is Some <==> old(sched)@.has_other_runnable(),
{
    let len = sched.threads.len();
    let cur = sched.current;
    let mut i: usize = 1;
    while i < len
        invariant
            *sched == *old(sched),
            sched@.wf(),
            sched@.has_runnable(),
            len == sched.threads@.len(),
            cur == sched.current,
            1 <= i,
            i <= len || len == 0,
            next_ready(sched@.threads, sched@.current, 1) == next_ready(
                sched@.threads,
                sched@.current,
                i as int,
            ),
            forall|j: int|
                1 <= j < i ==> !((#[trigger] sched@.threads[round(
                    sched@.current,
                    j,
                    len as int,
                )]).state is Runnable),
        decreases len - i,
    {
        let ahead = len - cur;
        let c: usize = if i < ahead { cur + i } else { i - ahead };
        proof {
            if i < ahead {
                vstd::arithmetic::div_mod::lemma_small_mod((cur + i) as nat, len as nat);
            } else {
                vstd::arithmetic::div_mod::lemma_mod_sub_multiples_vanish(
                    cur + i,
                    len as int,
                );
                vstd::arithmetic::div_mod::lemma_small_mod(c as nat, len as nat);
            }
            assert(c == round(sched@.current, i as int, len as int));
        }
        if sched.threads[c].state == State::Runnable {
            sched.current = c;
            let t = sched.threads[c];
            let cr3 = match t.cr3 {
                Some(x) => x,
                None => sched.kernel_cr3,
            };
            proof {
                assert(c != cur);
                assert(old(sched)@.threads[c as int].state is Runnable);
            }
            return Some(
                Switch { from: cur, to: c, rsp: t.rsp, cr3, rsp0: t.kernel_stack_top },
            );
        }
        i += 1;
    }
    proof {
        lemma_all_round(sched@, cur as int);
    }
    None
}

/// Every other thread is met on the way round.
proof fn lemma_round_hits(cur: int, j: int, len: int) -> (k: int)
    requires
        0 <= cur < len,
        0 <= j < len,
        j != cur,
    ensures
        1 <= k < len,
        round(cur, k, len) == j,
        k == (if j > cur { j - cur } else { j - cur + len }),
{
    let k = if j > cur { j - cur } else { j - cur + len };
    if j > cur {
        vstd::arithmetic::div_mod::lemma_small_mod(j as nat, len as nat);
    } else {
        vstd::arithmetic::div_mod::lemma_mod_sub_multiples_vanish(j + len, len);
        vstd::arithmetic::div_mod::lemma_small_mod(j as nat, len as nat);
    }
    k
}

/// Where no step leads to a ready thread, no other thread is ready.
proof fn lemma_all_round(s: SchedView, cur: int)
    requires
        s.wf(),
        s.has_runnable(),
        cur == s.current,
        forall|j: int|
            1 <= j < s.threads.len() ==> !((#[trigger] s.threads[round(
                cur,
                j,
                s.threads.len() as int,
            )]).state is Runnable),
    ensures
        s.running().state is Runnable,
        !s.has_other_runnable(),
{
    let len = s.threads.len() as int;
    assert forall|j: int| 0 <= j < len && j != cur implies !((
    #[trigger] s.threads[j]).state is Runnable) by {
        let k = lemma_round_hits(cur, j, len);
        assert(!(s.threads[round(cur, k, len)].state is Runnable));
    }
}


/// Exit of the running thread: it becomes a zombie and another thread is switched to.
fn exit_current_inner(sched: &mut Scheduler, status: i32, signal: Option<u8>) -> (r: Option<Switch>)
    requires
        old(sched)@.wf(),
        old(sched)@.exited(status, signal).has_runnable(),
    ensures
        (final(sched)@, r) == old(sched)@.exited(status, signal).switched(),
        final(sched)@.wf(),
        r is Some,
{
    let cur = sched.current;
    terminate(sched, cur, status, signal);
    proof {
        lemma_terminated(old(sched)@.threads, cur as int, status, signal);
    }
    switch_to_next(sched)
}

/// Ends the running thread with exit status `status`. Some other thread has to be ready.
pub fn exit_current(sched: &mut Scheduler, status: i32) -> (r: Option<Switch>)
    requires
        old(sched)@.wf(),
        old(sched)@.exited(status, None).has_runnable(),
    ensures
        (final(sched)@, r) == old(sched)@.exited(status, None).switched(),
        final(sched)@.wf(),
        r is Some,
{
    exit_current_inner(sched, status, None)
}

/// Ends the running process as killed by signal `sig`: its exit status is `128 + sig`.
pub fn exit_current_killed(sched: &mut Scheduler, sig: u8) -> (r: Option<Switch>)
    requires
        old(sched)@.wf(),
        old(sched)@.exited((128 + sig) as i32, Some(sig)).has_runnable(),
    ensures
        (final(sched)@, r) == old(sched)@.exited((128 + sig) as i32, Some(sig)).switched(),
        final(sched)@.wf(),
        r is Some,
{
    exit_current_inner(sched, 128 + sig as i32, Some(sig))
}

/// Whether signal `sig` ends a process that has no handler for it.
pub fn default_terminates(sig: u8) -> (r: bool)
    ensures
        r == kills(sig),
{
    !(sig == 17 || sig == 18 || sig == 19 || sig == 20 || sig == 21 || sig == 22 || sig == 23 || sig
        == 28)
}

/// Whether a state is that of a living thread.
pub fn is_alive(state: State) -> (r: bool)
    ensures
        r == alive(state),
{
    match state {
        State::Runnable => true,
        State::Blocked => true,
        _ => false,
    }
}

/// Sends signal `sig` to process `target_pid`. The signal is recorded; one that kills ends the
/// process at once. Signal 0 only asks whether the process exists.
pub fn signal(sched: &mut Scheduler, target_pid: u32, sig: u8) -> (r: SignalOutcome)
    requires
        old(sched)@.wf(),
        sig <= 64,
        old(sched)@.kills_self(target_pid, sig) ==> old(sched)@.signalled(
            target_pid,
            sig,
        ).has_runnable(),
    ensures
        final(sched)@.wf(),
        if first_where(old(sched)@.threads, signalled_as(target_pid), 0)
            >= old(sched)@.threads.len() {
            r is NoSuchProcess && final(sched)@ == old(sched)@
        } else if old(sched)@.kills_self(target_pid, sig) {
            let (s, w) = old(sched)@.signalled(target_pid, sig).switched();
            w matches Some(switch) && r == SignalOutcome::SelfTerminated(switch) && final(sched)@
                == s
        } else {
            r is Delivered && final(sched)@ == old(sched)@.signalled(target_pid, sig)
        },
{
    let ghost ts = sched.threads@;
    let ghost p = signalled_as(target_pid);
    let cur = sched.current;
    let mut idx: usize = 0;
    let mut found = false;
    while idx < sched.threads.len() && !found
        invariant
            *sched == *old(sched),
            ts == sched.threads@,
            p == signalled_as(target_pid),
            idx <= ts.len(),
            found ==> idx < ts.len() && p(ts[idx as int]),
            forall|j: int| 0 <= j < idx ==> !p(#[trigger] ts[j]),
        decreases ts.len() - idx, (if found { 0int } else { 1int }),
    {
        let t = sched.threads[idx];
        if t.pid == target_pid && t.cr3.is_some() && is_alive(t.state) {
            found = true;
        } else {
            idx += 1;
        }
    }
    proof {
        lemma_first_where(ts, p, 0, idx as int);
    }
    if !found {
        return SignalOutcome::NoSuchProcess;
    }
    if sig == 0 {
        return SignalOutcome::Delivered;
    }
    let mut t = sched.threads[idx];
    t.pending_signals = t.pending_signals | (1u64 << ((sig - 1) as u64));
    sched.threads.set(idx, t);
    if default_terminates(sig) {
        let ghost marked = sched.threads@;
        terminate(sched, idx, 128 + sig as i32, Some(sig));
        if idx == cur {
            proof {
                lemma_terminated(marked, idx as int, (128 + sig) as i32, Some(sig));
            }
            match switch_to_next(sched) {
                Some(switch) => {
                    return SignalOutcome::SelfTerminated(switch);
                },
                None => {},
            }
        }
    }
    SignalOutcome::Delivered
}

/// One attempt to wait: collects a zombie child; where there is none but a living one, the
/// running process is blocked until a child exits.
pub fn try_collect_or_block(sched: &mut Scheduler, want_pid: i64) -> (r: WaitResult)
    requires
        old(sched)@.wf(),
    ensures
        (final(sched)@, r) == old(sched)@.collected(want_pid),
        final(sched)@.wf(),
{
    let ghost ts = sched.threads@;
    let cur = sched.current;
    let cur_pid = sched.threads[cur].pid;
    let want = if want_pid > 0 { Some(want_pid as u32) } else { None };
    let ghost z = zombie_of(cur_pid, want);
    let ghost l = living_of(cur_pid, want);
    let mut living = false;
    let mut i: usize = 0;
    while i < sched.threads.len()
        invariant
            *sched == *old(sched),
            sched@.wf(),
            ts == sched.threads@,
            cur == sched.current,
            cur_pid == ts[cur as int].pid,
            want == wanted(want_pid),
            z == zombie_of(cur_pid, want),
            l == living_of(cur_pid, want),
            i <= ts.len(),
            forall|j: int| 0 <= j < i ==> !z(#[trigger] ts[j]),
            living == (exists|j: int| 0 <= j < i && l(#[trigger] ts[j])),
        decreases ts.len() - i,
    {
        let mut t = sched.threads[i];
        let mine = t.parent == cur_pid && match want {
            Some(p) => t.pid == p,
            None => true,
        };
        if mine && t.state == State::Zombie {
            proof {
                lemma_first_where(ts, z, 0, i as int);
            }
            let status = match t.exit_status {
                Some(s) => s,
                None => 0,
            };
            t.state = State::Dead;
            sched.threads.set(i, t);
            return WaitResult::Collected(t.pid, status, t.term_signal);
        }
        if mine && is_alive(t.state) {
            living = true;
            assert(l(ts[i as int]));
        }
        i += 1;
    }
    proof {
        lemma_first_where(ts, z, 0, ts.len() as int);
        lemma_first_where_is(ts, l, 0);
    }
    if living {
        proof {
            let j = choose|j: int| 0 <= j < ts.len() && l(#[trigger] ts[j]);
            assert(first_where(ts, l, 0) <= j);
        }
        block_current(sched, BlockReason::Child);
        WaitResult::WouldBlock
    } else {
        WaitResult::NoChildren
    }
}

/// Waits for a child of the running process: `want_pid` if it is positive, else any. A process
/// that has to wait is switched away from; when it runs again it has to call this again.
pub fn wait_current(sched: &mut Scheduler, want_pid: i64) -> (r: WaitStep)
    requires
        old(sched)@.wf(),
        old(sched)@.collected(want_pid).1 is WouldBlock ==> old(sched)@.has_other_runnable(),
    ensures
        final(sched)@.wf(),
        match old(sched)@.collected(want_pid) {
            (s, WaitResult::Collected(pid, status, sig)) => final(sched)@ == s && r
                == WaitStep::Done(Some((pid, status, sig))),
            (s, WaitResult::NoChildren) => final(sched)@ == s && r == WaitStep::Done(None),
            (s, WaitResult::WouldBlock) => s.switched().1 matches Some(switch) && r
                == WaitStep::Switched(switch) && final(sched)@ == s.switched().0,
        },
{
    match try_collect_or_block(sched, want_pid) {
        WaitResult::Collected(pid, status, sig) => WaitStep::Done(Some((pid, status, sig))),
        WaitResult::NoChildren => WaitStep::Done(None),
        WaitResult::WouldBlock => {
            proof {
                lemma_blocked_others(old(sched)@, BlockReason::Child);
            }
            match switch_to_next(sched) {
                Some(switch) => WaitStep::Switched(switch),
                None => WaitStep::Done(None),
            }
        },
    }
}

/// Marks the running thread as blocked for `reason`.
fn block_current(sched: &mut Scheduler, reason: BlockReason)
    requires
        old(sched)@.wf(),
    ensures
        final(sched)@ == old(sched)@.blocked(reason),
        final(sched)@.wf(),
{
    let cur = sched.current;
    let mut t = sched.threads[cur];
    t.state = State::Blocked;
    t.blocked_on = reason;
    sched.threads.set(cur, t);
}

/// Blocking the running thread leaves the others.
proof fn lemma_blocked_others(s: SchedView, reason: BlockReason)
    requires
        s.wf(),
        s.has_other_runnable(),
    ensures
        s.blocked(reason).has_runnable(),
        s.blocked(reason).has_other_runnable(),
{
    let i = choose|i: int|
        0 <= i < s.threads.len() && i != s.current && (#[trigger] s.threads[i]).state is Runnable;
    assert(s.blocked(reason).threads[i].state is Runnable);
}

/// Blocks the running process until a line of console input is complete.
pub fn block_current_on_stdin(sched: &mut Scheduler) -> (r: Option<Switch>)
    requires
        old(sched)@.wf(),
        old(sched)@.has_other_runnable(),
    ensures
        ({
            let (s, w) = old(sched)@.blocked(BlockReason::Stdin).switched();
            &&& r == w
            &&& final(sched)@ == (SchedView {
                stdin_blocks: if old(sched)@.stdin_blocks == u64::MAX {
                    0
                } else {
                    (old(sched)@.stdin_blocks + 1) as u64
                },
                ..s
            })
        }),
        final(sched)@.wf(),
        r is Some,
{
    block_current(sched, BlockReason::Stdin);
    proof {
        lemma_blocked_others(old(sched)@, BlockReason::Stdin);
    }
    let r = switch_to_next(sched);
    sched.stdin_blocks = if sched.stdin_blocks == u64::MAX { 0 } else { sched.stdin_blocks + 1 };
    r
}

/// Blocks the running process until something happens to a pipe.
pub fn block_current_on_pipe(sched: &mut Scheduler) -> (r: Option<Switch>)
    requires
        old(sched)@.wf(),
        old(sched)@.has_other_runnable(),
    ensures
        (final(sched)@, r) == old(sched)@.blocked(BlockReason::Pipe).switched(),
        final(sched)@.wf(),
        r is Some,
{
    block_current(sched, BlockReason::Pipe);
    proof {
        lemma_blocked_others(old(sched)@, BlockReason::Pipe);
    }
    switch_to_next(sched)
}

/// Makes all threads runnable that are blocked for `reason`.
fn wake_all(sched: &mut Scheduler, reason: BlockReason)
    ensures
        final(sched)@ == (SchedView {
            threads: woken(old(sched)@.threads, reason),
            ..old(sched)@
        }),
{
    let ghost ts = sched.threads@;
    let mut i: usize = 0;
    while i < sched.threads.len()
        invariant
            i <= sched.threads@.len(),
            sched.threads@.len() == ts.len(),
            (SchedView { threads: ts, ..sched@ }) == old(sched)@,
            forall|j: int| 0 <= j < i ==> sched.threads@[j] == woken(ts, reason)[j],
            forall|j: int| i <= j < ts.len() ==> sched.threads@[j] == ts[j],
        decreases sched.threads@.len() - i,
    {
        let mut t = sched.threads[i];
        if t.state == State::Blocked && t.blocked_on == reason {
            t.state = State::Runnable;
            sched.threads.set(i, t);
        }
        i += 1;
    }
    assert(sched.threads@ =~= woken(ts, reason));
}

/// Wakes all processes that wait for console input.
pub fn wake_stdin_readers(sched: &mut Scheduler)
    ensures
        final(sched)@ == (SchedView {
            threads: woken(old(sched)@.threads, BlockReason::Stdin),
            ..old(sched)@
        }),
{
    wake_all(sched, BlockReason::Stdin);
}

/// Wakes all processes that wait on a pipe.
pub fn wake_pipe_waiters(sched: &mut Scheduler)
    ensures
        final(sched)@ == (SchedView {
            threads: woken(old(sched)@.threads, BlockReason::Pipe),
            ..old(sched)@
        }),
{
    wake_all(sched, BlockReason::Pipe);
}

/// Takes address space and stack from every exited thread whose status was collected or that has
/// no parent to collect it, and returns them to be freed. The running thread is left alone.
/// Nothing is done while there is no allocator (`installed`) to give frames back to.
pub fn reap(sched: &mut Scheduler, installed: bool) -> (r: Vec<Corpse>)
    ensures
        !installed ==> r@.len() == 0 && final(sched)@ == old(sched)@,
        installed ==> r@ == old(sched)@.corpses(old(sched)@.threads.len() as int) && final(sched)@
            == old(sched)@.reaped(old(sched)@.threads.len() as int),
{
    let mut corpses: Vec<Corpse> = Vec::new();
    if !installed {
        return corpses;
    }
    let ghost s0 = sched@;
    let cur = sched.current;
    let mut i: usize = 0;
    assert(sched@ =~= s0.reaped(0));
    while i < sched.threads.len()
        invariant
            s0 == old(sched)@,
            i <= sched.threads@.len(),
            cur == s0.current,
            sched@ == s0.reaped(i as int),
            corpses@ == s0.corpses(i as int),
        decreases sched.threads@.len() - i,
    {
        let mut t = sched.threads[i];
        let done = t.state == State::Dead || (t.state == State::Zombie && t.parent == 0);
        if i != cur && done {
            corpses.push((t.cr3, t.stack));
            t.cr3 = None;
            t.stack = None;
            t.state = State::Reaped;
            sched.threads.set(i, t);
        }
        i += 1;
        assert(sched@ =~= s0.reaped(i as int));
    }
    corpses
}

/// Gives the processor to the next ready thread.
pub fn yield_now(sched: &mut Scheduler) -> (r: Option<Switch>)
    requires
        old(sched)@.wf(),
        old(sched)@.has_runnable(),
    ensures
        (final(sched)@, r) == old(sched)@.switched(),
        final(sched)@.wf(),
{
    switch_to_next(sched)
}

/// A tick of the timer: switches to the next ready thread if preemption is on.
pub fn on_timer_tick(sched: &mut Scheduler) -> (r: Option<Switch>)
    requires
        old(sched)@.wf(),
        old(sched)@.preemption ==> old(sched)@.has_runnable(),
    ensures
        old(sched)@.preemption ==> (final(sched)@, r) == old(sched)@.switched(),
        !old(sched)@.preemption ==> final(sched)@ == old(sched)@ && r is None,
        final(sched)@.wf(),
{
    if sched.preemption {
        switch_to_next(sched)
    } else {
        None
    }
}

/// Records the stack pointer that thread `from` was left with.
pub fn save_rsp(sched: &mut Scheduler, from: usize, rsp: u64)
    requires
        from < old(sched)@.threads.len(),
    ensures
        final(sched)@ == (SchedView {
            threads: old(sched)@.threads.update(
                from as int,
                Thread { rsp, ..old(sched)@.threads[from as int] },
            ),
            ..old(sched)@
        }),
{
    let mut t = sched.threads[from];
    t.rsp = rsp;
    sched.threads.set(from, t);
}

// ---------------------------------------------------------------------------------------------
// Laws
// ---------------------------------------------------------------------------------------------

/// An exit changes states and parents only: the thread is a zombie with its status and signal,
/// and each other thread keeps its number, address space and outcome.
pub proof fn lemma_terminated(ts: Seq<Thread>, idx: int, status: i32, signal: Option<u8>)
    requires
        0 <= idx < ts.len(),
    ensures
        ({
            let r = terminated(ts, idx, status, signal);
            &&& r.len() == ts.len()
            &&& r[idx].state is Zombie
            &&& r[idx].exit_status == Some(status)
            &&& r[idx].term_signal == signal
            &&& r[idx].pid == ts[idx].pid
            &&& forall|j: int|
                0 <= j < ts.len() && j != idx ==> {
                    let t = #[trigger] r[j];
                    &&& t == (Thread { parent: t.parent, state: t.state, ..ts[j] })
                    &&& t.parent == (if ts[j].parent == ts[idx].pid {
                        0
                    } else {
                        ts[j].parent
                    })
                    &&& t.state == ts[j].state || (ts[j].state is Blocked
                        && ts[j].blocked_on is Child && t.state is Runnable)
                }
        }),
{
    let gone = Thread {
        exit_status: Some(status),
        term_signal: signal,
        state: State::Zombie,
        ..ts[idx]
    };
    let kin = reparented(ts.update(idx, gone), ts[idx].pid);
    lemma_first_where_is(kin, waits_as(kin[idx].parent), 0);
}

/// A process that exits leaves no children behind: each of them belongs to the kernel.
pub proof fn law_exit_leaves_no_children(ts: Seq<Thread>, idx: int, status: i32, signal: Option<u8>)
    requires
        0 <= idx < ts.len(),
        ts[idx].pid != 0,
    ensures
        forall|j: int|
            0 <= j < ts.len() ==> (#[trigger] terminated(ts, idx, status, signal)[j]).parent
                != ts[idx].pid,
{
    lemma_terminated(ts, idx, status, signal);
    let gone = Thread {
        exit_status: Some(status),
        term_signal: signal,
        state: State::Zombie,
        ..ts[idx]
    };
    let kin = reparented(ts.update(idx, gone), ts[idx].pid);
    lemma_first_where_is(kin, waits_as(kin[idx].parent), 0);
}

/// The numbers of the threads are pairwise different.
pub open spec fn pids_unique(ts: Seq<Thread>) -> bool {
    forall|i: int, j: int|
        0 <= i < ts.len() && 0 <= j < ts.len() && (#[trigger] ts[i]).pid == (#[trigger] ts[j]).pid
            ==> i == j
}

/// A parent that is blocked in a wait is made runnable by the exit of its child: no wake-up is
/// lost. A parent that is blocked for another reason stays blocked.
pub proof fn law_exit_wakes_waiting_parent(
    ts: Seq<Thread>,
    idx: int,
    par: int,
    status: i32,
    signal: Option<u8>,
)
    requires
        0 <= idx < ts.len(),
        0 <= par < ts.len(),
        idx != par,
        pids_unique(ts),
        ts[par].pid != 0,
        ts[idx].parent == ts[par].pid,
        ts[par].state is Blocked,
    ensures
        ts[par].blocked_on is Child ==> terminated(ts, idx, status, signal)[par].state is Runnable,
        !(ts[par].blocked_on is Child) ==> terminated(ts, idx, status, signal)[par].state is Blocked,
{
    let gone = Thread {
        exit_status: Some(status),
        term_signal: signal,
        state: State::Zombie,
        ..ts[idx]
    };
    let kin = reparented(ts.update(idx, gone), ts[idx].pid);
    let p = waits_as(kin[idx].parent);
    lemma_first_where_is(kin, p, 0);
    assert(ts[idx].pid != ts[par].pid);
    assert(kin[idx].parent == ts[par].pid);
    let w = first_where(kin, p, 0);
    if ts[par].blocked_on is Child {
        assert(p(kin[par]));
        assert(w <= par);
        assert(kin[w].pid == kin[par].pid);
        assert(ts[w].pid == ts[par].pid);
    } else if w < kin.len() {
        assert(w != par);
    }
}

/// What a process exits with is what its parent collects: waiting for that child never blocks and
/// yields its number, its status and the signal that killed it.
pub proof fn law_wait_collects_exit(
    s: SchedView,
    idx: int,
    par: int,
    status: i32,
    signal: Option<u8>,
)
    requires
        s.wf(),
        0 <= idx < s.threads.len(),
        0 <= par < s.threads.len(),
        idx != par,
        pids_unique(s.threads),
        s.threads[par].pid != 0,
        s.threads[idx].pid != 0,
        s.threads[idx].parent == s.threads[par].pid,
    ensures
        ({
            let after = SchedView {
                threads: terminated(s.threads, idx, status, signal),
                current: par,
                ..s
            };
            let (end, r) = after.collected(s.threads[idx].pid as i64);
            &&& r == WaitResult::Collected(s.threads[idx].pid, status, signal)
            &&& end.threads[idx].state is Dead
        }),
{
    let ts = s.threads;
    let after = SchedView { threads: terminated(ts, idx, status, signal), current: par, ..s };
    lemma_terminated(ts, idx, status, signal);
    assert(ts[idx].pid != ts[par].pid);
    let gone = Thread {
        exit_status: Some(status),
        term_signal: signal,
        state: State::Zombie,
        ..ts[idx]
    };
    let kin = reparented(ts.update(idx, gone), ts[idx].pid);
    lemma_first_where_is(kin, waits_as(kin[idx].parent), 0);
    let me = after.running().pid;
    assert(me == ts[par].pid);
    let want = wanted(ts[idx].pid as i64);
    assert(want == Some(ts[idx].pid));
    let z = zombie_of(me, want);
    assert(after.threads[idx].parent == me);
    assert(z(after.threads[idx]));
    assert forall|j: int| 0 <= j < idx implies !z(#[trigger] after.threads[j]) by {
        assert(after.threads[j].pid == ts[j].pid);
        assert(ts[j].pid != ts[idx].pid);
    }
    lemma_first_where(after.threads, z, 0, idx);
}

/// A process killed by a signal exits with `128 + sig`, and the signal is on record.
pub proof fn law_kill_sets_status(s: SchedView, pid: u32, sig: u8)
    requires
        s.wf(),
        0 < sig <= 64,
        kills(sig),
        first_where(s.threads, signalled_as(pid), 0) < s.threads.len(),
    ensures
        ({
            let idx = first_where(s.threads, signalled_as(pid), 0);
            let t = s.signalled(pid, sig).threads[idx];
            &&& t.pid == pid
            &&& t.state is Zombie
            &&& t.exit_status == Some((128 + sig) as i32)
            &&& t.term_signal == Some(sig)
        }),
{
    let idx = first_where(s.threads, signalled_as(pid), 0);
    lemma_first_where_is(s.threads, signalled_as(pid), 0);
    let t = s.threads[idx];
    let marked = s.threads.update(
        idx,
        Thread { pending_signals: t.pending_signals | (1u64 << ((sig - 1) as u64)), ..t },
    );
    lemma_terminated(marked, idx, (128 + sig) as i32, Some(sig));
}

/// A signal never reaches a kernel thread.
pub proof fn law_kernel_threads_get_no_signal(s: SchedView, pid: u32, sig: u8, j: int)
    requires
        s.wf(),
        0 <= j < s.threads.len(),
        s.threads[j].cr3 is None,
    ensures
        s.signalled(pid, sig).threads[j].pending_signals == s.threads[j].pending_signals,
        s.signalled(pid, sig).threads[j].exit_status == s.threads[j].exit_status,
        alive(s.threads[j].state) ==> alive(s.signalled(pid, sig).threads[j].state),
{
    let idx = first_where(s.threads, signalled_as(pid), 0);
    lemma_first_where_is(s.threads, signalled_as(pid), 0);
    if idx < s.threads.len() && sig != 0 {
        let t = s.threads[idx];
        let marked = s.threads.update(
            idx,
            Thread { pending_signals: t.pending_signals | (1u64 << ((sig - 1) as u64)), ..t },
        );
        lemma_terminated(marked, idx, (128 + sig) as i32, Some(sig));
    }
}

/// Round robin: the thread that is switched to is ready, and no ready thread stands between it and
/// the one that is left. So a thread that is ready gets nearer to its turn with every switch.
pub proof fn law_switch_takes_the_next_ready(s: SchedView, j: int)
    requires
        s.wf(),
        0 <= j < s.threads.len(),
        j != s.current,
        s.threads[j].state is Runnable,
    ensures
        ({
            let len = s.threads.len() as int;
            let (s2, w) = s.switched();
            &&& w is Some
            &&& s2.wf()
            &&& s2.running().state is Runnable
            &&& s2.current != s.current
            &&& (if s2.current > s.current { s2.current - s.current } else {
                s2.current - s.current + len
            }) <= (if j > s.current { j - s.current } else { j - s.current + len })
        }),
{
    let len = s.threads.len() as int;
    let k = lemma_round_hits(s.current, j, len);
    lemma_next_ready(s.threads, s.current, 1, k);
    let step = next_ready(s.threads, s.current, 1);
    let n = round(s.current, step, len);
    if s.current + step < len {
        vstd::arithmetic::div_mod::lemma_small_mod((s.current + step) as nat, len as nat);
    } else {
        vstd::arithmetic::div_mod::lemma_mod_sub_multiples_vanish(s.current + step, len);
        vstd::arithmetic::div_mod::lemma_small_mod((s.current + step - len) as nat, len as nat);
    }
}

/// The next ready thread is at most as far as any ready one.
proof fn lemma_next_ready(ts: Seq<Thread>, cur: int, from: int, k: int)
    requires
        0 <= cur < ts.len(),
        1 <= from <= k < ts.len(),
        ts[round(cur, k, ts.len() as int)].state is Runnable,
    ensures
        from <= next_ready(ts, cur, from) <= k,
        ts[round(cur, next_ready(ts, cur, from), ts.len() as int)].state is Runnable,
    decreases ts.len() - from,
{
    if !(ts[round(cur, from, ts.len() as int)].state is Runnable) {
        lemma_next_ready(ts, cur, from + 1, k);
    }
}

/// A new process gets a number that no thread has, as long as the numbers have not run out.
pub proof fn law_pids_stay_unique(
    s: SchedView,
    rsp: u64,
    stack: u64,
    cr3: Option<u64>,
    top: u64,
)
    requires
        s.wf(),
        pids_unique(s.threads),
        s.next_pid < u32::MAX,
        forall|i: int| 0 <= i < s.threads.len() ==> (#[trigger] s.threads[i]).pid < s.next_pid,
    ensures
        ({
            let s2 = s.spawned(rsp, stack, cr3, top);
            &&& pids_unique(s2.threads)
            &&& forall|i: int|
                0 <= i < s2.threads.len() ==> (#[trigger] s2.threads[i]).pid < s2.next_pid
        }),
{
}

/// The reaper frees each exited thread once: what it has freed it does not find again, and it
/// neither touches the running thread nor a zombie whose parent may still collect it.
pub proof fn law_reaped_once(s: SchedView)
    requires
        s.wf(),
    ensures
        ({
            let n = s.threads.len() as int;
            let s2 = s.reaped(n);
            &&& s2.corpses(n).len() == 0
            &&& s2.running() == s.running()
            &&& forall|i: int|
                0 <= i < n && (#[trigger] s.threads[i]).state is Zombie && s.threads[i].parent != 0
                    ==> s2.threads[i] == s.threads[i]
            &&& forall|i: int|
                0 <= i < n && alive((#[trigger] s.threads[i]).state) ==> s2.threads[i]
                    == s.threads[i]
        }),
{
    let n = s.threads.len() as int;
    lemma_no_corpses(s.reaped(n), n, s);
}

proof fn lemma_no_corpses(s2: SchedView, n: int, s: SchedView)
    requires
        s.wf(),
        s2 == s.reaped(s.threads.len() as int),
        0 <= n <= s.threads.len(),
    ensures
        s2.corpses(n).len() == 0,
    decreases n,
{
    if n > 0 {
        lemma_no_corpses(s2, n - 1, s);
        assert(!s2.reaps(n - 1));
    }
}

impl SchedView {
    /// The boot thread is ready to run, and it is no process.
    pub open spec fn boot_ready(self) -> bool {
        &&& self.threads.len() > 0
        &&& self.threads[0].state is Runnable
        &&& self.threads[0].cr3 is None
    }
}

/// Ending a thread other than the boot thread leaves that ready.
proof fn lemma_terminated_keeps_boot(
    ts: Seq<Thread>,
    idx: int,
    status: i32,
    signal: Option<u8>,
)
    requires
        0 < idx < ts.len(),
        ts[0].state is Runnable,
        ts[0].cr3 is None,
    ensures
        terminated(ts, idx, status, signal).len() == ts.len(),
        terminated(ts, idx, status, signal)[0].state is Runnable,
        terminated(ts, idx, status, signal)[0].cr3 is None,
{
    let gone = Thread {
        exit_status: Some(status),
        term_signal: signal,
        state: State::Zombie,
        ..ts[idx]
    };
    let kin = reparented(ts.update(idx, gone), ts[idx].pid);
    lemma_first_where_is(kin, waits_as(kin[idx].parent), 0);
}

/// The boot thread is always ready: whatever a process does, sends or waits for, and whatever is
/// woken, switched or reaped, it stays so. So there is always a thread to go to when a process
/// blocks or ends.
pub proof fn law_boot_thread_is_always_ready(
    s: SchedView,
    status: i32,
    signal: Option<u8>,
    reason: BlockReason,
    pid: u32,
    sig: u8,
    want: i64,
    n: int,
)
    requires
        s.wf(),
        s.boot_ready(),
    ensures
        s.switched().0.boot_ready(),
        s.signalled(pid, sig).boot_ready(),
        s.collected(want).1 !is WouldBlock ==> s.collected(want).0.boot_ready(),
        (SchedView { threads: woken(s.threads, reason), ..s }).boot_ready(),
        s.reaped(n).boot_ready(),
        s.current != 0 ==> s.has_other_runnable(),
        s.current != 0 ==> s.exited(status, signal).boot_ready(),
        s.current != 0 ==> s.exited(status, signal).has_runnable(),
        s.current != 0 ==> s.blocked(reason).boot_ready(),
        s.current != 0 ==> s.collected(want).0.boot_ready(),
        s.current != 0 ==> s.signalled(pid, sig).has_runnable(),
{
    let idx = first_where(s.threads, signalled_as(pid), 0);
    lemma_first_where_is(s.threads, signalled_as(pid), 0);
    if idx < s.threads.len() {
        assert(signalled_as(pid)(s.threads[idx]));
        assert(idx != 0);
        let t = s.threads[idx];
        let marked = s.threads.update(
            idx,
            Thread { pending_signals: t.pending_signals | (1u64 << ((sig - 1) as u64)), ..t },
        );
        lemma_terminated_keeps_boot(marked, idx, (128 + sig) as i32, Some(sig));
    }
    let z = first_where(s.threads, zombie_of(s.running().pid, wanted(want)), 0);
    lemma_first_where_is(s.threads, zombie_of(s.running().pid, wanted(want)), 0);
    if z < s.threads.len() {
        assert(zombie_of(s.running().pid, wanted(want))(s.threads[z]));
    }
    assert(s.signalled(pid, sig).threads[0].state is Runnable);
    if s.current != 0 {
        lemma_terminated_keeps_boot(s.threads, s.current, status, signal);
        assert(s.threads[0].state is Runnable);
        assert(s.exited(status, signal).threads[0].state is Runnable);
    }
}

/// The thread that is switched to goes on with its own stack pointer, its own kernel stack and its
/// own address space, or that of the kernel where it has none. No thread changes by it.
pub proof fn law_switch_goes_to_the_thread_itself(s: SchedView)
    requires
        s.wf(),
        s.switched().1 is Some,
        s.threads.len() <= usize::MAX,
    ensures
        ({
            let (s2, w) = s.switched();
            let t = s2.threads[s2.current];
            &&& s2 == (SchedView { current: s2.current, ..s })
            &&& 0 <= s2.current < s.threads.len()
            &&& t.state is Runnable
            &&& w->0.from == s.current
            &&& w->0.to == s2.current
            &&& w->0.rsp == t.rsp
            &&& w->0.rsp0 == t.kernel_stack_top
            &&& w->0.cr3 == (match t.cr3 {
                Some(c) => c,
                None => s.kernel_cr3,
            })
        }),
{
    let len = s.threads.len() as int;
    let step = next_ready(s.threads, s.current, 1);
    lemma_next_ready_is(s.threads, s.current, 1);
    vstd::arithmetic::div_mod::lemma_mod_bound(s.current + step, len);
}

proof fn lemma_next_ready_is(ts: Seq<Thread>, cur: int, from: int)
    requires
        0 <= cur < ts.len(),
        1 <= from,
    ensures
        next_ready(ts, cur, from) < ts.len() ==> ts[round(
            cur,
            next_ready(ts, cur, from),
            ts.len() as int,
        )].state is Runnable,
        next_ready(ts, cur, from) >= 1,
    decreases ts.len() - from,
{
    if from < ts.len() && !(ts[round(cur, from, ts.len() as int)].state is Runnable) {
        lemma_next_ready_is(ts, cur, from + 1);
    }
}

/// Where no other thread is ready nobody is switched to.
pub proof fn law_nobody_else_is_switched_to(s: SchedView)
    requires
        s.wf(),
        forall|i: int|
            0 <= i < s.threads.len() && i != s.current ==> !((#[trigger] s.threads[i]).state
                is Runnable),
    ensures
        s.switched() == (s, None::<Switch>),
{
    lemma_none_ready(s, 1);
}

proof fn lemma_none_ready(s: SchedView, from: int)
    requires
        s.wf(),
        1 <= from,
        forall|i: int|
            0 <= i < s.threads.len() && i != s.current ==> !((#[trigger] s.threads[i]).state
                is Runnable),
    ensures
        next_ready(s.threads, s.current, from) >= s.threads.len(),
    decreases s.threads.len() - from,
{
    let len = s.threads.len() as int;
    if from < len {
        let i = round(s.current, from, len);
        if s.current + from < len {
            vstd::arithmetic::div_mod::lemma_small_mod((s.current + from) as nat, len as nat);
        } else {
            vstd::arithmetic::div_mod::lemma_mod_sub_multiples_vanish(s.current + from, len);
            vstd::arithmetic::div_mod::lemma_small_mod((s.current + from - len) as nat, len as nat);
        }
        assert(0 <= i < len && i != s.current);
        assert(!(s.threads[i].state is Runnable));
        lemma_none_ready(s, from + 1);
    }
}

/// Those who wait for what has happened become ready, and nobody else.
pub proof fn law_waiting_threads_are_woken(ts: Seq<Thread>, reason: BlockReason, i: int)
    requires
        0 <= i < ts.len(),
    ensures
        woken(ts, reason).len() == ts.len(),
        ts[i].state is Blocked && ts[i].blocked_on == reason ==> woken(ts, reason)[i] == (Thread {
            state: State::Runnable,
            ..ts[i]
        }),
        !(ts[i].state is Blocked && ts[i].blocked_on == reason) ==> woken(ts, reason)[i] == ts[i],
{
}

/// What is left of ended threads is handed out for every one of them that nobody waits for any
/// more: its address space and its stack, which it then has no longer.
pub proof fn law_ended_threads_are_freed(s: SchedView, i: int)
    requires
        s.wf(),
        0 <= i < s.threads.len(),
        i != s.current,
        s.threads[i].state is Dead || (s.threads[i].state is Zombie && s.threads[i].parent == 0),
    ensures
        ({
            let n = s.threads.len() as int;
            let t = s.reaped(n).threads[i];
            &&& s.corpses(n).contains((s.threads[i].cr3, s.threads[i].stack))
            &&& t.cr3 is None && t.stack is None && t.state is Reaped
        }),
{
    lemma_corpse_among(s, s.threads.len() as int, i);
}

proof fn lemma_corpse_among(s: SchedView, n: int, i: int)
    requires
        0 <= i < n <= s.threads.len(),
        s.reaps(i),
    ensures
        s.corpses(n).contains((s.threads[i].cr3, s.threads[i].stack)),
    decreases n,
{
    let before = s.corpses(n - 1);
    let c = (s.threads[i].cr3, s.threads[i].stack);
    if i < n - 1 {
        lemma_corpse_among(s, n - 1, i);
        let k = choose|k: int| 0 <= k < before.len() && before[k] == c;
        assert(s.corpses(n)[k] == c);
    } else {
        assert(s.corpses(n)[before.len() as int] == c);
    }
}

/// A new thread stands behind the others, which stay as they are. It is a child of the running
/// thread, ready to run, and nothing has happened to it yet; the running thread goes on.
pub proof fn law_new_thread_is_ready(
    s: SchedView,
    rsp: u64,
    stack: u64,
    cr3: Option<u64>,
    top: u64,
)
    requires
        s.wf(),
    ensures
        ({
            let s2 = s.spawned(rsp, stack, cr3, top);
            let t = s2.threads.last();
            &&& s2.threads.len() == s.threads.len() + 1
            &&& forall|i: int|
                0 <= i < s.threads.len() ==> #[trigger] s2.threads[i] == s.threads[i]
            &&& s2.current == s.current
            &&& t.pid == s.next_pid
            &&& t.parent == s.threads[s.current as int].pid
            &&& t.state == State::Runnable
            &&& t.rsp == rsp && t.stack == Some(stack) && t.cr3 == cr3 && t.kernel_stack_top == top
            &&& t.exit_status is None && t.term_signal is None && t.pending_signals == 0
        }),
{
}

} // verus!
