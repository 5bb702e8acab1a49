//! The priority queue of trees waiting to be paired in a clustering round,
//! kept in the `priority_queue` crate's queue, with each tree index as item
//! and the negated cost of its best pairing as priority.
use vstd::prelude::*;
use priority_queue::PriorityQueue;

verus! {

#[verifier::external_type_specification]
#[verifier::external_body]
#[verifier::reject_recursive_types(I)]
#[verifier::reject_recursive_types(P)]
#[verifier::reject_recursive_types(H)]
pub struct ExPriorityQueue<I: std::hash::Hash + std::cmp::Eq, P: std::cmp::Ord, H>(PriorityQueue<I, P, H>);

/// The queue of a clustering round: tree indices by priority.
pub type ClusterQueue = PriorityQueue<usize, i64>;

/// What a queue holds: each item with its priority.
pub uninterp spec fn queue_contents(q: ClusterQueue) -> Map<usize, i64>;

/// Relies on `PriorityQueue::new`: the new queue is empty.
#[verifier::external_body]
pub(crate) fn queue_new() -> (r: ClusterQueue)
    ensures
        queue_contents(r).dom() == Set::<usize>::empty(),
{
    PriorityQueue::new()
}

/// Relies on `PriorityQueue::len`: the number of items held.
#[verifier::external_body]
pub(crate) fn queue_len(q: &ClusterQueue) -> (r: usize)
    ensures
        queue_contents(*q).dom().finite() ==> r == queue_contents(*q).dom().len(),
{
    q.len()
}

/// Relies on `PriorityQueue::push`: the item gets the priority, replacing
/// the priority it had, which is returned.
#[verifier::external_body]
pub(crate) fn queue_push(q: &mut ClusterQueue, item: usize, priority: i64) -> (r: Option<i64>)
    ensures
        queue_contents(*final(q)) == queue_contents(*old(q)).insert(item, priority),
        r == (if queue_contents(*old(q)).contains_key(item) {
            Some(queue_contents(*old(q))[item])
        } else {
            None
        }),
{
    q.push(item, priority)
}

/// Relies on `PriorityQueue::pop`: an item of greatest priority leaves the
/// queue, with its priority; `None` when the queue is empty.
#[verifier::external_body]
pub(crate) fn queue_pop(q: &mut ClusterQueue) -> (r: Option<(usize, i64)>)
    ensures
        r is None <==> queue_contents(*old(q)).dom() == Set::<usize>::empty(),
        r is None ==> queue_contents(*final(q)) == queue_contents(*old(q)),
        r matches Some((item, priority)) ==> {
            &&& queue_contents(*old(q)).contains_key(item)
            &&& queue_contents(*old(q))[item] == priority
            &&& forall|j: usize| #[trigger] queue_contents(*old(q)).contains_key(j) ==> queue_contents(*old(q))[j] <= priority
            &&& queue_contents(*final(q)) == queue_contents(*old(q)).remove(item)
        },
{
    q.pop()
}

/// Relies on `PriorityQueue::remove`: the item leaves the queue, if it was
/// there, with its priority.
#[verifier::external_body]
pub(crate) fn queue_remove(q: &mut ClusterQueue, item: usize) -> (r: Option<(usize, i64)>)
    ensures
        queue_contents(*final(q)) == queue_contents(*old(q)).remove(item),
        r == (if queue_contents(*old(q)).contains_key(item) {
            Some((item, queue_contents(*old(q))[item]))
        } else {
            None
        }),
{
    q.remove(&item)
}

} // verus!
