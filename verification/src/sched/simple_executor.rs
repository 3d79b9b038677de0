//! Polls tasks in turn until all are finished, whether they were woken or not.

use crate::sched::task::TaskId;
use std::collections::VecDeque;
use vstd::prelude::*;

verus! {

/// The tasks, the next one to be polled first.
pub struct SimpleExecutor {
    pub task_queue: VecDeque<TaskId>,
}

impl View for SimpleExecutor {
    type V = Seq<TaskId>;

    open spec fn view(&self) -> Seq<TaskId> {
        self.task_queue@
    }
}

impl SimpleExecutor {
    /// No tasks.
    pub fn new() -> (e: SimpleExecutor)
        ensures
            e@ == Seq::<TaskId>::empty(),
    {
        SimpleExecutor { task_queue: VecDeque::new() }
    }

    /// Adds a task behind the others.
    pub fn spawn(&mut self, id: TaskId)
        ensures
            final(self)@ == old(self)@.push(id),
    {
        self.task_queue.push_back(id);
    }

    /// Takes the next task to be polled.
    pub fn next_task(&mut self) -> (r: Option<TaskId>)
        ensures
            match r {
                Some(id) => old(self)@.len() > 0 && id == old(self)@[0] && final(self)@ == old(
                    self,
                )@.skip(1),
                None => old(self)@.len() == 0 && final(self)@ == old(self)@,
            },
    {
        let ghost before = self@;
        let r = self.task_queue.pop_front();
        assert(r is Some ==> self@ =~= before.skip(1));
        r
    }

    /// Takes note of the outcome of a poll: a task that is not finished goes behind the others,
    /// one that is finished is dropped.
    pub fn polled(&mut self, id: TaskId, ready: bool)
        ensures
            final(self)@ == (if ready {
                old(self)@
            } else {
                old(self)@.push(id)
            }),
    {
        if !ready {
            self.task_queue.push_back(id);
        }
    }
}

/// The tasks after the first was taken and polled.
pub open spec fn after_poll(tasks: Seq<TaskId>, ready: bool) -> Seq<TaskId> {
    if ready {
        tasks.skip(1)
    } else {
        tasks.skip(1).push(tasks[0])
    }
}

/// Tasks, each with the number of polls after which it is finished.
pub type Load = Seq<(TaskId, nat)>;

/// The tasks of a load, in order.
pub open spec fn ids(q: Load) -> Seq<TaskId> {
    Seq::new(q.len(), |i: int| q[i].0)
}

/// A load after its first task was polled.
pub open spec fn load_polled(q: Load) -> Load {
    if q.len() == 0 {
        q
    } else if q[0].1 <= 1 {
        q.skip(1)
    } else {
        q.skip(1).push((q[0].0, (q[0].1 - 1) as nat))
    }
}

/// A load after `n` polls.
pub open spec fn load_after(q: Load, n: nat) -> Load
    decreases n,
{
    if n == 0 {
        q
    } else {
        load_polled(load_after(q, (n - 1) as nat))
    }
}

/// The tasks that are polled in the first `n` polls, in order.
pub open spec fn trace(q: Load, n: nat) -> Seq<TaskId>
    decreases n,
{
    if n == 0 {
        Seq::empty()
    } else {
        let before = load_after(q, (n - 1) as nat);
        if before.len() == 0 {
            trace(q, (n - 1) as nat)
        } else {
            trace(q, (n - 1) as nat).push(before[0].0)
        }
    }
}

/// The tasks of a load that need more than `j` polls, in order, with what they need beyond.
pub open spec fn beyond(q: Load, j: nat) -> Load
    decreases q.len(),
{
    if q.len() == 0 {
        q
    } else if q.last().1 > j {
        beyond(q.drop_last(), j).push((q.last().0, (q.last().1 - j) as nat))
    } else {
        beyond(q.drop_last(), j)
    }
}

/// What is polled in the first `j` rounds: in each, once and in order, the tasks that need more
/// polls than there were rounds before.
pub open spec fn rounds(q: Load, j: nat) -> Seq<TaskId>
    decreases j,
{
    if j == 0 {
        Seq::empty()
    } else {
        rounds(q, (j - 1) as nat) + ids(beyond(q, (j - 1) as nat))
    }
}

/// One poll after others.
proof fn lemma_one_round(q: Load, m: nat)
    requires
        m <= q.len(),
    ensures
        load_after(q, m) == q.skip(m as int) + beyond(q.take(m as int), 1),
        trace(q, m) == ids(q).take(m as int),
    decreases m,
{
    if m == 0 {
        assert(q.skip(0) + beyond(q.take(0), 1) =~= q);
        assert(ids(q).take(0) =~= Seq::empty());
    } else {
        let n = (m - 1) as nat;
        lemma_one_round(q, n);
        assert(q.take(m as int).drop_last() =~= q.take(n as int));
        assert(load_after(q, m) =~= q.skip(m as int) + beyond(q.take(m as int), 1));
        assert(trace(q, m) =~= ids(q).take(m as int));
    }
}

/// Polls go on where others ended.
proof fn lemma_polls_go_on(q: Load, a: nat, b: nat)
    ensures
        load_after(q, a + b) == load_after(load_after(q, a), b),
        trace(q, a + b) == trace(q, a) + trace(load_after(q, a), b),
    decreases b,
{
    if b == 0 {
        assert(trace(q, a) + trace(load_after(q, a), 0) =~= trace(q, a));
    } else {
        lemma_polls_go_on(q, a, (b - 1) as nat);
        assert(trace(q, a + b) =~= trace(q, a) + trace(load_after(q, a), b));
    }
}

/// What a task needs beyond `j` polls and one more.
proof fn lemma_beyond(q: Load, j: nat)
    ensures
        beyond(beyond(q, j), 1) == beyond(q, j + 1),
        j == 0 && (forall|i: int| 0 <= i < q.len() ==> (#[trigger] q[i]).1 > 0) ==> beyond(q, j) == q,
        (forall|i: int| 0 <= i < q.len() ==> (#[trigger] q[i]).1 <= j) ==> beyond(q, j).len() == 0,
    decreases q.len(),
{
    if q.len() > 0 {
        let p = q.drop_last();
        lemma_beyond(p, j);
        assert(forall|i: int| 0 <= i < p.len() ==> p[i] == q[i]);
        if q.last().1 > j {
            assert(beyond(q, j).drop_last() =~= beyond(p, j));
        }
        if j == 0 && (forall|i: int| 0 <= i < q.len() ==> (#[trigger] q[i]).1 > 0) {
            assert(q[q.len() - 1].1 > 0);
            assert(beyond(q, j) =~= q);
        }
        if forall|i: int| 0 <= i < q.len() ==> (#[trigger] q[i]).1 <= j {
            assert(q[q.len() - 1].1 <= j);
        }
    }
}

/// Tasks have their turns in rounds, however many polls each needs: every round polls the tasks
/// that are not finished, once each and in the order in which they were added. No task is polled
/// after it was finished, and once there were as many rounds as the longest needs none is left.
pub proof fn law_tasks_take_turns(q: Load, j: nat)
    requires
        forall|i: int| 0 <= i < q.len() ==> (#[trigger] q[i]).1 > 0,
    ensures
        load_after(q, rounds(q, j).len()) == beyond(q, j),
        trace(q, rounds(q, j).len()) == rounds(q, j),
        (forall|i: int| 0 <= i < q.len() ==> (#[trigger] q[i]).1 <= j) ==> beyond(q, j).len() == 0,
        q.len() > 0 ==> ids(load_polled(q)) == after_poll(ids(q), q[0].1 == 1),
    decreases j,
{
    lemma_beyond(q, j);
    if q.len() > 0 {
        assert(ids(load_polled(q)) =~= after_poll(ids(q), q[0].1 == 1));
    }
    if j == 0 {
        assert(trace(q, 0) =~= rounds(q, 0));
    } else {
        let i = (j - 1) as nat;
        law_tasks_take_turns(q, i);
        lemma_beyond(q, i);
        let a = rounds(q, i).len();
        let now = beyond(q, i);
        lemma_polls_go_on(q, a, now.len());
        lemma_one_round(now, now.len());
        assert(now.take(now.len() as int) =~= now);
        assert(now.skip(now.len() as int) + beyond(now, 1) =~= beyond(now, 1));
        assert(ids(now).take(now.len() as int) =~= ids(now));
    }
}

} // verus!
