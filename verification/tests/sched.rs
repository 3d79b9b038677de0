use ferros::sched::executor::Executor;
use ferros::sched::simple_executor::SimpleExecutor;
use ferros::sched::task::TaskId;
use ferros::sched::thread::{
    add_user_task, block_current_on_pipe, block_current_on_stdin, current_pid, default_terminates,
    exec_replace_cr3, exit_current, exit_current_killed, init, is_alive, kernel_cr3, on_timer_tick,
    reap, save_rsp, signal, spawn, start_preemption, stop_preemption, switch_to_next,
    try_collect_or_block, wait_current, wake_pipe_waiters, wake_stdin_readers, yield_now,
    BlockReason, Scheduler, SignalOutcome, State, Switch, WaitResult, WaitStep,
};

const KERNEL: u64 = 0x1000;

/// The boot thread and two processes, the first of which runs and is the parent of the second.
fn family() -> Scheduler {
    let mut s = init(KERNEL);
    add_user_task(&mut s, 0x100, 0xA000, 0x110, 0x10);
    assert!(switch_to_next(&mut s).is_some());
    add_user_task(&mut s, 0x200, 0xB000, 0x210, 0x20);
    assert_eq!(current_pid(&s), 1);
    s
}

fn state(s: &Scheduler, i: usize) -> State {
    s.threads[i].state
}

#[test]
fn boot_thread_runs_alone() {
    let mut s = init(KERNEL);
    assert_eq!(kernel_cr3(&s), KERNEL);
    assert_eq!(current_pid(&s), 0);
    assert_eq!(yield_now(&mut s), None);
}

#[test]
fn pids_count_up_and_parents_are_kept() {
    let s = family();
    let pids: Vec<(u32, u32)> = s.threads.iter().map(|t| (t.pid, t.parent)).collect();
    assert_eq!(pids, vec![(0, 0), (1, 0), (2, 1)]);
}

#[test]
fn switch_takes_the_next_ready() {
    let mut s = family();
    assert_eq!(
        switch_to_next(&mut s),
        Some(Switch { from: 1, to: 2, rsp: 0x200, cr3: 0xB000, rsp0: 0x210 })
    );
    save_rsp(&mut s, 1, 0x1F0);
    assert_eq!(
        switch_to_next(&mut s),
        Some(Switch { from: 2, to: 0, rsp: 0, cr3: KERNEL, rsp0: 0 })
    );
    assert_eq!(switch_to_next(&mut s).unwrap().rsp, 0x1F0);
}

#[test]
fn blocked_threads_are_passed_over() {
    let mut s = family();
    s.threads[2].state = State::Blocked;
    assert_eq!(switch_to_next(&mut s).unwrap().to, 0);
}

#[test]
fn kernel_threads_are_spawned() {
    let mut s = init(KERNEL);
    spawn(&mut s, 0x300, 0x30, 0x3F0);
    let w = yield_now(&mut s).unwrap();
    assert_eq!((w.to, w.rsp, w.cr3), (1, 0x300, KERNEL));
    assert_eq!(s.threads[1].stack, Some(0x30));
    assert_eq!(s.threads[1].cr3, None);
}

#[test]
fn timer_switches_only_when_preemption_is_on() {
    let mut s = family();
    assert_eq!(on_timer_tick(&mut s), None);
    start_preemption(&mut s);
    assert_eq!(on_timer_tick(&mut s).unwrap().to, 2);
    stop_preemption(&mut s);
    assert_eq!(on_timer_tick(&mut s), None);
}

#[test]
fn exit_wakes_a_waiting_parent_which_collects() {
    let mut s = family();
    match wait_current(&mut s, -1) {
        WaitStep::Switched(w) => assert_eq!(w.to, 2),
        WaitStep::Done(_) => panic!("nothing to collect yet"),
    }
    assert_eq!(state(&s, 1), State::Blocked);
    assert_eq!(s.threads[1].blocked_on, BlockReason::Child);
    assert_eq!(exit_current(&mut s, 42).unwrap().to, 0);
    assert_eq!(state(&s, 2), State::Zombie);
    assert_eq!(state(&s, 1), State::Runnable);
    assert_eq!(switch_to_next(&mut s).unwrap().to, 1);
    assert_eq!(wait_current(&mut s, -1), WaitStep::Done(Some((2, 42, None))));
    assert_eq!(wait_current(&mut s, -1), WaitStep::Done(None));
}

#[test]
fn waiting_for_a_stranger_finds_no_child() {
    let mut s = family();
    assert_eq!(try_collect_or_block(&mut s, 7), WaitResult::NoChildren);
    assert_eq!(try_collect_or_block(&mut s, 2), WaitResult::WouldBlock);
}

#[test]
fn exit_leaves_no_children() {
    let mut s = family();
    assert!(exit_current(&mut s, 0).is_some());
    assert!(s.threads.iter().all(|t| t.pid == 1 || t.parent != 1));
}

#[test]
fn killed_process_has_its_signal() {
    let mut s = family();
    assert_eq!(signal(&mut s, 2, 9), SignalOutcome::Delivered);
    assert_eq!(s.threads[2].term_signal, Some(9));
    assert!(!is_alive(state(&s, 2)));
    match try_collect_or_block(&mut s, 2) {
        WaitResult::Collected(pid, _, sig) => assert_eq!((pid, sig), (2, Some(9))),
        _ => panic!("not collected"),
    }
}

#[test]
fn signals_that_do_not_kill() {
    let mut s = family();
    assert_eq!(signal(&mut s, 2, 0), SignalOutcome::Delivered);
    assert_eq!(s.threads[2].pending_signals, 0);
    assert_eq!(signal(&mut s, 9, 9), SignalOutcome::NoSuchProcess);
    // Kernel threads get no signal.
    assert_eq!(signal(&mut s, 0, 9), SignalOutcome::NoSuchProcess);
    assert!(is_alive(state(&s, 2)));
}

#[test]
fn process_can_kill_itself() {
    let mut s = family();
    match signal(&mut s, 1, 15) {
        SignalOutcome::SelfTerminated(w) => assert_eq!((w.from, w.to), (1, 2)),
        _ => panic!("still there"),
    }
    assert_eq!(s.threads[1].term_signal, Some(15));
}

#[test]
fn fault_ends_the_running_process() {
    let mut s = family();
    assert_eq!(exit_current_killed(&mut s, 11).unwrap().to, 2);
    assert_eq!(s.threads[1].term_signal, Some(11));
}

#[test]
fn which_signals_terminate() {
    assert!(default_terminates(9) && default_terminates(15) && default_terminates(11));
    for sig in [17, 18, 19, 20, 21, 22, 23, 28] {
        assert!(!default_terminates(sig));
    }
    assert!(is_alive(State::Runnable) && is_alive(State::Blocked));
    assert!(!is_alive(State::Zombie) && !is_alive(State::Dead) && !is_alive(State::Reaped));
}

#[test]
fn readers_sleep_until_they_are_woken() {
    let mut s = family();
    assert_eq!(block_current_on_stdin(&mut s).unwrap().to, 2);
    assert_eq!(s.stdin_blocks, 1);
    assert_eq!(block_current_on_pipe(&mut s).unwrap().to, 0);
    wake_pipe_waiters(&mut s);
    assert_eq!((state(&s, 1), state(&s, 2)), (State::Blocked, State::Runnable));
    wake_stdin_readers(&mut s);
    assert_eq!(state(&s, 1), State::Runnable);
    assert_eq!(s.threads[1].blocked_on, BlockReason::Stdin);
}

#[test]
fn collected_threads_are_reaped_once() {
    let mut s = family();
    assert_eq!(signal(&mut s, 2, 9), SignalOutcome::Delivered);
    assert!(matches!(try_collect_or_block(&mut s, -1), WaitResult::Collected(2, _, _)));
    assert_eq!(reap(&mut s, false), vec![]);
    assert_eq!(reap(&mut s, true), vec![(Some(0xB000), Some(0x20))]);
    assert_eq!(state(&s, 2), State::Reaped);
    assert_eq!(reap(&mut s, true), vec![]);
}

#[test]
fn exec_changes_the_address_space() {
    let mut s = family();
    assert_eq!(exec_replace_cr3(&mut s, 0xC000), 0xA000);
    assert_eq!(s.threads[1].cr3, Some(0xC000));
}

// ---- cooperative tasks ----

#[test]
fn task_ids_count_up() {
    let mut next = 5u64;
    assert_eq!(TaskId::new(&mut next), TaskId(5));
    assert_eq!(TaskId::new(&mut next), TaskId(6));
    assert_eq!(next, 7);
}

#[test]
fn woken_tasks_are_polled_in_turn() {
    let mut e = Executor::new();
    e.spawn(TaskId(1));
    e.spawn(TaskId(2));
    assert!(!e.is_idle());
    assert_eq!(e.next_ready(), Some((TaskId(1), true)));
    assert_eq!(e.next_ready(), Some((TaskId(2), true)));
    assert_eq!(e.next_ready(), None);
    assert!(e.is_idle());
    e.wake_task(TaskId(1));
    // The waker was made at the first poll.
    assert_eq!(e.next_ready(), Some((TaskId(1), false)));
}

#[test]
fn finished_tasks_are_not_polled() {
    let mut e = Executor::new();
    e.spawn(TaskId(1));
    assert!(e.is_spawned(TaskId(1)));
    assert_eq!(e.next_ready(), Some((TaskId(1), true)));
    e.finished(TaskId(1));
    assert!(!e.is_spawned(TaskId(1)));
    e.wake_task(TaskId(1));
    assert_eq!(e.next_ready(), None);
}

#[test]
fn executor_has_room_for_a_hundred_wakes() {
    let mut e = Executor::new();
    for i in 0..100 {
        assert!(e.has_room());
        e.spawn(TaskId(i));
    }
    assert!(!e.has_room());
}

#[test]
fn simple_executor_takes_turns() {
    let mut e = SimpleExecutor::new();
    let mut left = [2u32, 1, 3];
    for i in 0..3 {
        e.spawn(TaskId(i));
    }
    let mut polls = Vec::new();
    while let Some(id) = e.next_task() {
        polls.push(id.0);
        left[id.0 as usize] -= 1;
        e.polled(id, left[id.0 as usize] == 0);
    }
    assert_eq!(polls, vec![0, 1, 2, 0, 2, 2]);
    assert_eq!(e.next_task(), None);
}
