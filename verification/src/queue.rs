//! The priority queue of the search, kept by the `priority_queue` crate. The
//! contracts in this file are believed, not proved.

use priority_queue::PriorityQueue;
use std::hash::Hash;
use vstd::prelude::*;

verus! {

/// The queue type of the `priority_queue` crate.
#[verifier::external_type_specification]
#[verifier::external_body]
#[verifier::reject_recursive_types(I)]
#[verifier::reject_recursive_types(P)]
#[verifier::reject_recursive_types(H)]
pub struct ExPriorityQueue<I: Hash + Eq, P: Ord, H>(PriorityQueue<I, P, H>);

/// What a queue holds: its items, each with its priority.
pub uninterp spec fn queue_entries(queue: PriorityQueue<usize, u128>) -> Map<usize, u128>;

/// Calls `PriorityQueue::new`, which makes a queue without items.
#[verifier::external_body]
pub(crate) fn queue_new() -> (queue: PriorityQueue<usize, u128>)
    ensures
        queue_entries(queue).dom() == Set::<usize>::empty(),
{
    PriorityQueue::new()
}

/// Calls `PriorityQueue::push`, which puts `item` into the queue with
/// `priority`. Where the queue held the item already, only its priority
/// changes, and the old one is returned.
#[verifier::external_body]
pub(crate) fn queue_push(queue: &mut PriorityQueue<usize, u128>, item: usize, priority: u128) -> (previous:
    Option<u128>)
    ensures
        queue_entries(*final(queue)) == queue_entries(*old(queue)).insert(item, priority),
        previous == (if queue_entries(*old(queue)).contains_key(item) {
            Some(queue_entries(*old(queue))[item])
        } else {
            None
        }),
{
    queue.push(item, priority)
}

/// Calls `PriorityQueue::len`, which returns the number of items in the
/// queue.
#[verifier::external_body]
pub(crate) fn queue_len(queue: &PriorityQueue<usize, u128>) -> (n: usize)
    ensures
        n == queue_entries(*queue).dom().len(),
{
    queue.len()
}

/// Calls `PriorityQueue::pop`, which takes an item of the greatest priority
/// out of the queue and returns it with that priority, or returns `None` and
/// changes nothing where the queue holds no item. Which of several items of
/// the greatest priority leaves is not stated.
#[verifier::external_body]
pub(crate) fn queue_pop(queue: &mut PriorityQueue<usize, u128>) -> (top: Option<(usize, u128)>)
    ensures
        match top {
            Some((item, priority)) => {
                &&& queue_entries(*old(queue)).contains_key(item)
                &&& queue_entries(*old(queue))[item] == priority
                &&& forall|other: usize| #[trigger]
                    queue_entries(*old(queue)).contains_key(other) ==> queue_entries(
                        *old(queue),
                    )[other] <= priority
                &&& queue_entries(*final(queue)) == queue_entries(*old(queue)).remove(item)
            },
            None => {
                &&& queue_entries(*old(queue)).dom() == Set::<usize>::empty()
                &&& queue_entries(*final(queue)) == queue_entries(*old(queue))
            },
        },
{
    queue.pop()
}

} // verus!
