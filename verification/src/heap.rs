//! The priority queue of the `priority_queue` crate, as far as the planner
//! uses it. Nothing in this file is proved: each contract restates what the
//! crate's documentation and source say of the method that the body calls.

use vstd::prelude::*;

use priority_queue::PriorityQueue;
use std::cmp::Reverse;

verus! {

/// `std::cmp::Reverse`, named so that it can stand in the queue's type.
/// Nothing is said of what it holds.
#[verifier::external_type_specification]
#[verifier::external_body]
#[verifier::reject_recursive_types(T)]
pub struct ExReverse<T>(Reverse<T>);

/// `priority_queue::PriorityQueue`. Nothing of its inside is visible; what a
/// queue holds has a name, [`queue_entries`].
#[verifier::external_type_specification]
#[verifier::external_body]
#[verifier::reject_recursive_types(I)]
#[verifier::reject_recursive_types(P)]
#[verifier::reject_recursive_types(H)]
pub struct ExPriorityQueue<I, P, H>(PriorityQueue<I, P, H>);

/// The queue of the planner: items are numbers, and the priority of an item is
/// its cost turned round, so that the least cost ranks highest.
pub type CostQueue = PriorityQueue<u64, Reverse<u16>>;

/// What a queue holds: each item with its cost, the number inside the
/// `Reverse` that is its priority. The queue hands out an item of least cost
/// first.
pub uninterp spec fn queue_entries(q: CostQueue) -> Map<u64, u16>;

/// `PriorityQueue::new`: the new queue holds nothing.
#[verifier::external_body]
pub(crate) fn queue_new() -> (queue: CostQueue)
    ensures
        queue_entries(queue).dom() == Set::<u64>::empty(),
{
    PriorityQueue::new()
}

/// `PriorityQueue::push`: an item that the queue does not hold is added with
/// the given cost, and `None` comes back; for one that it holds, the cost is
/// replaced and the earlier cost comes back. No other item is touched.
#[verifier::external_body]
pub(crate) fn queue_push(q: &mut CostQueue, item: u64, cost: u16) -> (earlier: Option<u16>)
    ensures
        queue_entries(*final(q)) == queue_entries(*old(q)).insert(item, cost),
        earlier == if queue_entries(*old(q)).contains_key(item) {
            Some(queue_entries(*old(q))[item])
        } else {
            None
        },
{
    q.push(item, Reverse(cost)).map(|earlier| earlier.0)
}

/// `PriorityQueue::pop`: from an empty queue `None` comes back and nothing
/// changes. Otherwise an item of greatest priority, that is of least cost,
/// leaves the queue and comes back with its cost; which one among several of
/// least cost is not said.
#[verifier::external_body]
pub(crate) fn queue_pop(q: &mut CostQueue) -> (top: Option<(u64, u16)>)
    ensures
        match top {
            Some((item, cost)) => {
                &&& queue_entries(*old(q)).contains_key(item)
                &&& queue_entries(*old(q))[item] == cost
                &&& forall|other: u64| #[trigger]
                    queue_entries(*old(q)).contains_key(other) ==> cost <= queue_entries(
                        *old(q),
                    )[other]
                &&& queue_entries(*final(q)) == queue_entries(*old(q)).remove(item)
            },
            None => {
                &&& queue_entries(*old(q)).dom() == Set::<u64>::empty()
                &&& queue_entries(*final(q)) == queue_entries(*old(q))
            },
        },
{
    q.pop().map(|(item, cost)| (item, cost.0))
}

/// `PriorityQueue::iter`: every item that the queue holds is handed out, each
/// once, in an order that is not said.
#[verifier::external_body]
pub(crate) fn queue_items(q: &CostQueue) -> (items: Vec<u64>)
    ensures
        items@.no_duplicates(),
        items@.to_set() == queue_entries(*q).dom(),
{
    q.iter().map(|(item, _)| *item).collect()
}

} // verus!
