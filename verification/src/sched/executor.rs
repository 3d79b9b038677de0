//! Runs tasks that were woken, and no others.
//!
//! A task that is spawned or woken waits in a queue for its turn. Who runs the executor asks it
//! for the next task, polls that task and tells whether it is finished.

use crate::sched::queue::{self, new_queue, pop_item, push_item};
use crate::sched::task::TaskId;
use crossbeam_queue::ArrayQueue;
use std::collections::BTreeSet;
use vstd::prelude::*;

verus! {

/// Most wake-ups that wait.
pub const QUEUE_LIMIT: usize = 100;

/// The tasks that live, the wake-ups that wait, and the tasks that have a waker.
pub struct Executor {
    pub tasks: BTreeSet<u64>,
    pub task_queue: ArrayQueue<u64>,
    pub waker_cache: BTreeSet<u64>,
}

/// What an [`Executor`] holds.
#[verifier::ext_equal]
pub struct ExecView {
    pub tasks: Set<u64>,
    pub woken: Seq<u64>,
    pub wakers: Set<u64>,
}

impl View for Executor {
    type V = ExecView;

    open spec fn view(&self) -> ExecView {
        ExecView {
            tasks: self.tasks@,
            woken: queue::queued(self.task_queue),
            wakers: self.waker_cache@,
        }
    }
}

/// Index of the first of the woken tasks that lives; the length if none does.
pub open spec fn first_live(woken: Seq<u64>, tasks: Set<u64>) -> int
    decreases woken.len(),
{
    if woken.len() == 0 {
        0
    } else if tasks.contains(woken[0]) {
        0
    } else {
        1 + first_live(woken.skip(1), tasks)
    }
}

/// What is known of that index.
proof fn lemma_first_live(woken: Seq<u64>, tasks: Set<u64>)
    ensures
        0 <= first_live(woken, tasks) <= woken.len(),
        first_live(woken, tasks) < woken.len() ==> tasks.contains(woken[first_live(woken, tasks)]),
        forall|i: int| 0 <= i < first_live(woken, tasks) ==> !tasks.contains(#[trigger] woken[i]),
    decreases woken.len(),
{
    if woken.len() > 0 && !tasks.contains(woken[0]) {
        lemma_first_live(woken.skip(1), tasks);
        let n = first_live(woken.skip(1), tasks);
        assert forall|i: int| 0 <= i < 1 + n implies !tasks.contains(#[trigger] woken[i]) by {
            if i > 0 {
                assert(woken.skip(1)[i - 1] == woken[i]);
            }
        }
        assert(n < woken.skip(1).len() ==> woken.skip(1)[n] == woken[1 + n]);
    }
}

impl Executor {
    /// The queue has its limit, and no more waits in it.
    pub open spec fn wf(&self) -> bool {
        queue::queue_limit(self.task_queue) == QUEUE_LIMIT && self@.woken.len() <= QUEUE_LIMIT
    }

    /// No tasks.
    pub fn new() -> (e: Executor)
        ensures
            e.wf(),
            e@ == (ExecView { tasks: Set::empty(), woken: Seq::empty(), wakers: Set::empty() }),
    {
        Executor {
            tasks: BTreeSet::new(),
            task_queue: new_queue(QUEUE_LIMIT),
            waker_cache: BTreeSet::new(),
        }
    }

    /// Adds a task, which is to be polled first as if it had been woken.
    pub fn spawn(&mut self, id: TaskId)
        requires
            old(self).wf(),
            !old(self)@.tasks.contains(id.0),
            old(self)@.woken.len() < QUEUE_LIMIT,
        ensures
            final(self).wf(),
            final(self)@ == (ExecView {
                tasks: old(self)@.tasks.insert(id.0),
                woken: old(self)@.woken.push(id.0),
                ..old(self)@
            }),
    {
        self.tasks.insert(id.0);
        let _ = push_item(&mut self.task_queue, id.0);
    }

    /// Wakes a task.
    pub fn wake_task(&mut self, id: TaskId)
        requires
            old(self).wf(),
            old(self)@.woken.len() < QUEUE_LIMIT,
        ensures
            final(self).wf(),
            final(self)@ == (ExecView { woken: old(self)@.woken.push(id.0), ..old(self)@ }),
    {
        let _ = push_item(&mut self.task_queue, id.0);
    }

    /// Whether one more task can be woken.
    pub fn has_room(&self) -> (r: bool)
        requires
            self.wf(),
        ensures
            r == (self@.woken.len() < QUEUE_LIMIT),
    {
        queue::count(&self.task_queue) < QUEUE_LIMIT
    }

    /// Whether a task lives.
    pub fn is_spawned(&self, id: TaskId) -> (r: bool)
        ensures
            r == self@.tasks.contains(id.0),
    {
        self.tasks.contains(&id.0)
    }

    /// The next task to be polled, and whether a waker is to be made for it: the one that was woken
    /// first, of those that live.
    pub fn next_ready(&mut self) -> (r: Option<(TaskId, bool)>)
        requires
            old(self).wf(),
        ensures
            final(self).wf(),
            ({
                let e = old(self)@;
                let n = first_live(e.woken, e.tasks);
                if n < e.woken.len() {
                    &&& r == Some((TaskId(e.woken[n]), !e.wakers.contains(e.woken[n])))
                    &&& final(self)@ == (ExecView {
                        woken: e.woken.skip(n + 1),
                        wakers: e.wakers.insert(e.woken[n]),
                        ..e
                    })
                } else {
                    r is None && final(self)@ == (ExecView { woken: Seq::empty(), ..e })
                }
            }),
    {
        let ghost e = self@;
        let ghost mut taken: int = 0;
        assert(e.woken.skip(0) =~= e.woken);
        loop
            invariant
                self.wf(),
                e == old(self)@,
                0 <= taken <= e.woken.len(),
                self@ == (ExecView { woken: e.woken.skip(taken), ..e }),
                first_live(e.woken, e.tasks) == taken + first_live(e.woken.skip(taken), e.tasks),
            decreases e.woken.len() - taken,
        {
            let id = match pop_item(&mut self.task_queue) {
                Some(id) => id,
                None => {
                    assert(self@ =~= ExecView { woken: Seq::empty(), ..e });
                    return None;
                },
            };
            proof {
                assert(e.woken.skip(taken)[0] == e.woken[taken]);
                assert(e.woken.skip(taken).skip(1) =~= e.woken.skip(taken + 1));
            }
            if self.tasks.contains(&id) {
                let fresh = !self.waker_cache.contains(&id);
                self.waker_cache.insert(id);
                assert(self@ =~= ExecView {
                    woken: e.woken.skip(taken + 1),
                    wakers: e.wakers.insert(id),
                    ..e
                });
                return Some((TaskId(id), fresh));
            }
            proof {
                taken = taken + 1;
            }
        }
    }

    /// Drops a task that is finished, with its waker.
    pub fn finished(&mut self, id: TaskId)
        requires
            old(self).wf(),
        ensures
            final(self).wf(),
            final(self)@ == (ExecView {
                tasks: old(self)@.tasks.remove(id.0),
                wakers: old(self)@.wakers.remove(id.0),
                ..old(self)@
            }),
    {
        let ghost e = self@;
        let _ = self.tasks.remove(&id.0);
        let _ = self.waker_cache.remove(&id.0);
        assert(self@ =~= ExecView {
            tasks: e.tasks.remove(id.0),
            wakers: e.wakers.remove(id.0),
            ..e
        });
    }

    /// Whether there is nothing to do until a task is woken.
    pub fn is_idle(&self) -> (r: bool)
        ensures
            r == (self@.woken.len() == 0),
    {
        queue::is_empty(&self.task_queue)
    }
}

/// A task is polled only if it lives and was woken; and a task that lives and was woken is polled
/// before the executor is idle.
pub proof fn law_woken_tasks_are_polled(e: ExecView, i: int)
    requires
        0 <= i < e.woken.len(),
    ensures
        ({
            let n = first_live(e.woken, e.tasks);
            &&& n < e.woken.len() ==> e.tasks.contains(e.woken[n])
            &&& e.tasks.contains(e.woken[i]) ==> n <= i
        }),
{
    lemma_first_live(e.woken, e.tasks);
}

/// A task that is finished is not polled again, though wake-ups for it may still wait.
pub proof fn law_finished_tasks_are_not_polled(e: ExecView, id: u64)
    ensures
        ({
            let left = e.tasks.remove(id);
            let n = first_live(e.woken, left);
            n < e.woken.len() ==> e.woken[n] != id
        }),
{
    lemma_first_live(e.woken, e.tasks.remove(id));
}

} // verus!
