//! Tasks are known by numbers; what a task does is kept by who polls it.

use vstd::prelude::*;

verus! {

/// The number of a task.
#[derive(Debug, Clone, Copy, PartialEq, Eq, PartialOrd, Ord, Structural)]
pub struct TaskId(pub u64);

impl TaskId {
    /// The next number. They are given out in turn.
    pub fn new(next_id: &mut u64) -> (id: TaskId)
        ensures
            id.0 == *old(next_id),
            *final(next_id) == nth_id(*old(next_id), 1),
    {
        let id = *next_id;
        *next_id = if id == u64::MAX { 0 } else { id + 1 };
        TaskId(id)
    }
}

/// The number that the next but `n` task gets.
pub open spec fn nth_id(next_id: u64, n: nat) -> u64 {
    ((next_id + n) % 0x1_0000_0000_0000_0000) as u64
}

/// No two tasks get the same number, as long as fewer are made than there are numbers.
pub proof fn law_task_numbers_differ(next_id: u64, m: nat, n: nat)
    requires
        m < n <= u64::MAX,
    ensures
        nth_id(next_id, 0) == next_id,
        nth_id(next_id, m + 1) == (if nth_id(next_id, m) == u64::MAX {
            0
        } else {
            (nth_id(next_id, m) + 1) as u64
        }),
        nth_id(next_id, m) != nth_id(next_id, n),
{
}

} // verus!
