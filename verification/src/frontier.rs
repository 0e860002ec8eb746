//! The open set of the search, held in a priority queue of the
//! `priority_queue` crate. The queue holds the numbers of the open entries,
//! each with a priority, and hands out an entry of the greatest priority
//! first.

use priority_queue::PriorityQueue;
use vstd::prelude::*;

verus! {

/// The priority queue of the `priority_queue` crate, as an opaque type.
#[verifier::external_type_specification]
#[verifier::external_body]
#[verifier::reject_recursive_types(I)]
#[verifier::reject_recursive_types(P)]
#[verifier::reject_recursive_types(H)]
pub struct ExPriorityQueue<I, P, H>(PriorityQueue<I, P, H>);

/// The queue of the open entries: entry numbers with their priorities.
pub type OpenQueue = PriorityQueue<usize, u64>;

/// What a queue holds: the priority of each item in it.
pub uninterp spec fn queue_entries(q: OpenQueue) -> Map<usize, u64>;

/// The contents of a queue that holds nothing.
pub open spec fn nothing() -> Map<usize, u64> {
    Map::empty()
}

/// `PriorityQueue::new`: makes a queue that holds nothing.
#[verifier::external_body]
pub(crate) fn queue_new() -> (q: OpenQueue)
    ensures
        queue_entries(q) == nothing(),
{
    PriorityQueue::new()
}

/// `PriorityQueue::push`: puts an item into the queue with a priority. An
/// item that is in the queue already gets the new priority, and its old one
/// is handed back; all other items stay as they are.
#[verifier::external_body]
pub(crate) fn queue_push(q: &mut OpenQueue, item: usize, priority: u64) -> (before: Option<u64>)
    ensures
        queue_entries(*final(q)) == queue_entries(*old(q)).insert(item, priority),
        before == (if queue_entries(*old(q)).contains_key(item) {
            Some(queue_entries(*old(q))[item])
        } else {
            None
        }),
{
    q.push(item, priority)
}

/// `PriorityQueue::pop`: takes out an item of the greatest priority and hands
/// it back with that priority, or `None` from a queue that holds nothing.
/// Which of several items of the greatest priority leaves is left open.
#[verifier::external_body]
pub(crate) fn queue_pop(q: &mut OpenQueue) -> (top: Option<(usize, u64)>)
    ensures
        match top {
            None => {
                &&& forall|item: usize| !queue_entries(*old(q)).contains_key(item)
                &&& queue_entries(*final(q)) == queue_entries(*old(q))
            },
            Some((item, priority)) => {
                &&& queue_entries(*old(q)).contains_key(item)
                &&& queue_entries(*old(q))[item] == priority
                &&& forall|other: usize|
                    queue_entries(*old(q)).contains_key(other) ==> #[trigger] queue_entries(
                        *old(q),
                    )[other] <= priority
                &&& queue_entries(*final(q)) == queue_entries(*old(q)).remove(item)
            },
        },
{
    q.pop()
}

} // verus!
