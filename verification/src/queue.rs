//! The queue of unsolved cells, ordered by priority: a `PriorityQueue` of the
//! `priority_queue` crate, with what its operations are taken to do.

use priority_queue::PriorityQueue;
use std::collections::hash_map::RandomState;
use vstd::prelude::*;

verus! {

/// `PriorityQueue` of the `priority_queue` crate, taken as it is: nothing is known of
/// what is inside a value of it.
#[verifier::external_type_specification]
#[verifier::external_body]
#[verifier::reject_recursive_types(I)]
#[verifier::reject_recursive_types(P)]
#[verifier::reject_recursive_types(H)]
pub struct ExPriorityQueue<I, P, H>(PriorityQueue<I, P, H>);

/// A queue of cells, each with a priority.
pub type CellQueue = PriorityQueue<usize, i128, RandomState>;

/// The cells in the queue, each with its priority.
pub uninterp spec fn queue_entries(q: CellQueue) -> Map<usize, i128>;

/// `PriorityQueue::new`: a queue without items.
#[verifier::external_body]
pub(crate) fn queue_new() -> (q: CellQueue)
    ensures
        (queue_entries(q) == Map::<usize, i128>::empty()),
{
    PriorityQueue::new()
}

/// `PriorityQueue::push`: puts the item in with the priority, or gives the item that
/// priority if it is in the queue already. Returns the priority that the item had.
#[verifier::external_body]
pub(crate) fn queue_push(q: &mut CellQueue, cell: usize, priority: i128) -> (was: Option<i128>)
    ensures
        queue_entries(*final(q)) == queue_entries(*old(q)).insert(cell, priority),
        was == if queue_entries(*old(q)).contains_key(cell) {
            Some(queue_entries(*old(q))[cell])
        } else {
            None
        },
{
    q.push(cell, priority)
}

/// `PriorityQueue::remove`: takes the item out, if it is in the queue. Returns the
/// priority that it had.
#[verifier::external_body]
pub(crate) fn queue_remove(q: &mut CellQueue, cell: usize) -> (was: Option<i128>)
    ensures
        queue_entries(*final(q)) == queue_entries(*old(q)).remove(cell),
        was == if queue_entries(*old(q)).contains_key(cell) {
            Some(queue_entries(*old(q))[cell])
        } else {
            None
        },
{
    match q.remove(&cell) {
        Some((_, priority)) => Some(priority),
        None => None,
    }
}

/// `PriorityQueue::peek`: an item of the greatest priority in the queue, with that
/// priority, or `None` if the queue has no item. Which of several items of the greatest
/// priority it is, is left open.
#[verifier::external_body]
pub(crate) fn queue_peek(q: &CellQueue) -> (top: Option<(usize, i128)>)
    ensures
        match top {
            Some((cell, priority)) => queue_entries(*q).contains_key(cell) && queue_entries(*q)[cell]
                == priority && forall|c: usize|
                queue_entries(*q).contains_key(c) ==> queue_entries(*q)[c] <= priority,
            None => forall|c: usize| !queue_entries(*q).contains_key(c),
        },
{
    match q.peek() {
        Some((cell, priority)) => Some((*cell, *priority)),
        None => None,
    }
}

} // verus!
