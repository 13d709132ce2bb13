//! The work queue of the growth strategies.
//!
//! The breadth-first strategies keep the frontier of nodes still to be
//! expanded in a FIFO queue of node ids.

use vstd::prelude::*;

verus! {

#[verifier::external_type_specification]
#[verifier::external_body]
#[verifier::reject_recursive_types(T)]
pub struct ExQueue<T: Clone>(queues::Queue<T>);

/// The node ids a queue holds, oldest first.
pub uninterp spec fn queue_view(q: queues::Queue<usize>) -> Seq<usize>;

/// Relies on `queues::Queue::new`: the new queue holds nothing.
#[verifier::external_body]
pub(crate) fn queue_new() -> (r: queues::Queue<usize>)
    ensures
        queue_view(r).len() == 0,
{
    queues::Queue::new()
}

/// Relies on `queues::Queue::add`, which appends at the back and always
/// returns `Ok`.
#[verifier::external_body]
pub(crate) fn queue_add(q: &mut queues::Queue<usize>, x: usize)
    ensures
        queue_view(*final(q)) == queue_view(*old(q)).push(x),
{
    let _ = queues::IsQueue::add(q, x);
}

/// Relies on `queues::Queue::remove`, which takes the oldest element and
/// errs exactly on an empty queue.
#[verifier::external_body]
pub(crate) fn queue_remove(q: &mut queues::Queue<usize>) -> (r: Option<usize>)
    ensures
        queue_view(*old(q)).len() == 0 ==> r is None && queue_view(*final(q)) == queue_view(
            *old(q),
        ),
        queue_view(*old(q)).len() > 0 ==> r == Some(queue_view(*old(q))[0]) && queue_view(
            *final(q),
        ) == queue_view(*old(q)).drop_first(),
{
    match queues::IsQueue::remove(q) {
        Ok(v) => Some(v),
        Err(_) => None,
    }
}

/// Relies on `queues::Queue::size`: how many elements are queued.
#[verifier::external_body]
pub(crate) fn queue_size(q: &queues::Queue<usize>) -> (r: usize)
    ensures
        r == queue_view(*q).len(),
{
    queues::IsQueue::size(q)
}

} // verus!
