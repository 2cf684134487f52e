//! The queue of nodes that a search has reached and not yet left, kept in
//! `priority_queue::PriorityQueue`.
//!
//! Nothing in this file is proved: it states what the queue does, as its
//! source shows it, for the search to build on.

use priority_queue::PriorityQueue;
use std::collections::hash_map::RandomState;
use vstd::prelude::*;

verus! {

#[verifier::external_type_specification]
#[verifier::external_body]
#[verifier::reject_recursive_types(I)]
#[verifier::reject_recursive_types(P)]
#[verifier::reject_recursive_types(H)]
pub struct ExPriorityQueue<I, P, H>(PriorityQueue<I, P, H>);

/// The queue of a search: nodes by their index, each with a priority.
pub type Frontier = PriorityQueue<usize, i64, RandomState>;

/// The items that a queue holds, each with its priority.
pub uninterp spec fn queued(queue: Frontier) -> Map<usize, i64>;

/// `PriorityQueue::new`: a queue that holds nothing.
#[verifier::external_body]
pub(crate) fn frontier_new() -> (queue: Frontier)
    ensures
        forall|item: usize| !queued(queue).contains_key(item),
{
    PriorityQueue::new()
}

/// `PriorityQueue::is_empty`: whether the queue holds no item.
#[verifier::external_body]
pub(crate) fn frontier_is_empty(queue: &Frontier) -> (empty: bool)
    ensures
        empty <==> forall|item: usize| !queued(*queue).contains_key(item),
{
    queue.is_empty()
}

/// `PriorityQueue::push`: the queue then holds `item` with `priority`,
/// whether or not it held `item` before, and every other item as before.
/// Returned is the priority that `item` had.
#[verifier::external_body]
pub(crate) fn frontier_push(
    queue: &mut Frontier,
    item: usize,
    priority: i64,
) -> (before: Option<i64>)
    ensures
        queued(*final(queue)) == queued(*old(queue)).insert(item, priority),
        queued(*old(queue)).contains_key(item) ==> before == Some(queued(*old(queue))[item]),
        !queued(*old(queue)).contains_key(item) ==> before is None,
{
    queue.push(item, priority)
}

/// `PriorityQueue::pop`: takes out an item that no other item of the queue
/// exceeds in priority, and returns it with its priority; `None`, and the
/// queue unchanged, where it holds nothing. Which of several items of the
/// greatest priority leaves is not stated.
#[verifier::external_body]
pub(crate) fn frontier_pop(queue: &mut Frontier) -> (top: Option<
    (usize, i64),
>)
    ensures
        top is None ==> forall|item: usize| !queued(*old(queue)).contains_key(item),
        top is None ==> queued(*final(queue)) == queued(*old(queue)),
        top matches Some(pair) ==> queued(*old(queue)).contains_key(pair.0),
        top matches Some(pair) ==> queued(*old(queue))[pair.0] == pair.1,
        top matches Some(pair) ==> forall|other: usize|
            queued(*old(queue)).contains_key(other) ==> queued(*old(queue))[other] <= pair.1,
        top matches Some(pair) ==> queued(*final(queue)) == queued(*old(queue)).remove(pair.0),
{
    queue.pop()
}

} // verus!
