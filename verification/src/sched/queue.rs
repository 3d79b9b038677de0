//! A queue of bounded length, first in, first out.

use crossbeam_queue::ArrayQueue;
use vstd::prelude::*;

verus! {

/// The queue.
#[verifier::external_type_specification]
#[verifier::external_body]
#[verifier::reject_recursive_types(T)]
pub struct ExArrayQueue<T>(ArrayQueue<T>);

/// What waits in a queue, the oldest first.
pub uninterp spec fn queued(q: ArrayQueue<u64>) -> Seq<u64>;

/// How much a queue can hold.
pub uninterp spec fn queue_limit(q: ArrayQueue<u64>) -> nat;

/// An empty queue that can hold `limit` items. Calls `crossbeam_queue::ArrayQueue::new`, which
/// refuses a queue that can hold nothing.
#[verifier::external_body]
pub(crate) fn new_queue(limit: usize) -> (q: ArrayQueue<u64>)
    requires
        0 < limit <= 0x1_0000,
    ensures
        queued(q) == Seq::<u64>::empty(),
        queue_limit(q) == limit,
{
    ArrayQueue::new(limit)
}

/// Puts an item behind the others. Calls `crossbeam_queue::ArrayQueue::push`, which fails exactly
/// where the queue is full; nobody else uses the queue meanwhile.
#[verifier::external_body]
pub(crate) fn push_item(q: &mut ArrayQueue<u64>, item: u64) -> (ok: bool)
    ensures
        ok == (queued(*old(q)).len() < queue_limit(*old(q))),
        queued(*final(q)) == (if ok {
            queued(*old(q)).push(item)
        } else {
            queued(*old(q))
        }),
        queue_limit(*final(q)) == queue_limit(*old(q)),
{
    q.push(item).is_ok()
}

/// Takes the oldest item. Calls `crossbeam_queue::ArrayQueue::pop`, which fails exactly where the
/// queue is empty; nobody else uses the queue meanwhile.
#[verifier::external_body]
pub(crate) fn pop_item(q: &mut ArrayQueue<u64>) -> (r: Option<u64>)
    ensures
        match r {
            Some(item) => queued(*old(q)).len() > 0 && item == queued(*old(q))[0] && queued(
                *final(q),
            ) == queued(*old(q)).skip(1),
            None => queued(*old(q)).len() == 0 && queued(*final(q)) == queued(*old(q)),
        },
        queue_limit(*final(q)) == queue_limit(*old(q)),
{
    q.pop()
}

/// Whether nothing waits in the queue. Calls `crossbeam_queue::ArrayQueue::is_empty`.
#[verifier::external_body]
pub(crate) fn is_empty(q: &ArrayQueue<u64>) -> (r: bool)
    ensures
        r == (queued(*q).len() == 0),
{
    q.is_empty()
}

/// How many items wait in the queue. Calls `crossbeam_queue::ArrayQueue::len`.
#[verifier::external_body]
pub(crate) fn count(q: &ArrayQueue<u64>) -> (n: usize)
    ensures
        n == queued(*q).len(),
{
    q.len()
}

} // verus!
