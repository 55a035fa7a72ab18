//! The min-priority index that the weighted engines keep beside their arenas.
//!
//! The index is a `priority_queue::PriorityQueue` whose items are arena slot
//! numbers and whose priorities are wrapped in `Reverse`, so that the queue's
//! greatest element is a slot with the least priority number. Nothing in this
//! file is proved: each function states what the queue's documentation
//! promises of the call it makes.

use priority_queue::PriorityQueue;
use std::cmp::Reverse;
use vstd::prelude::*;

verus! {

#[verifier::external_type_specification]
#[verifier::external_body]
#[verifier::reject_recursive_types(I)]
#[verifier::reject_recursive_types(P)]
#[verifier::reject_recursive_types(H)]
pub struct ExPriorityQueue<I, P, H>(PriorityQueue<I, P, H>);

#[verifier::external_type_specification]
#[verifier::external_body]
#[verifier::reject_recursive_types(T)]
pub struct ExReverse<T>(Reverse<T>);

/// The queue of arena slots, least priority number first.
pub type SlotQueue = PriorityQueue<usize, Reverse<u128>>;

/// The slots that a queue holds, each with its priority number.
pub uninterp spec fn queue_entries(q: SlotQueue) -> Map<usize, u128>;

/// Whether no slot of `entries` has a priority number below that of `slot`.
pub open spec fn least(entries: Map<usize, u128>, slot: usize) -> bool {
    forall|other: usize| #[trigger] entries.contains_key(other) ==> entries[slot] <= entries[other]
}

/// `PriorityQueue::new`: the new queue holds nothing.
#[verifier::external_body]
pub(crate) fn queue_new() -> (fresh: SlotQueue)
    ensures
        queue_entries(fresh) == (Map::<usize, u128>::empty()),
{
    PriorityQueue::new()
}

/// `PriorityQueue::push`: the slot is entered with the priority, or takes the
/// new priority if the queue held it already; the earlier priority comes back.
#[verifier::external_body]
pub(crate) fn queue_push(q: &mut SlotQueue, slot: usize, priority: u128) -> (earlier: Option<u128>)
    ensures
        queue_entries(*final(q)) == queue_entries(*old(q)).insert(slot, priority),
        earlier == if queue_entries(*old(q)).contains_key(slot) {
            Some(queue_entries(*old(q))[slot])
        } else {
            None
        },
{
    match q.push(slot, Reverse(priority)) {
        Some(Reverse(p)) => Some(p),
        None => None,
    }
}

/// `PriorityQueue::pop`: takes out an element that is greatest in the queue's
/// order, which under `Reverse` is a slot whose priority number is least, and
/// returns it with that number; `None`, and no change, if the queue is empty.
/// Which of several least slots leaves is not said.
#[verifier::external_body]
pub(crate) fn queue_pop(q: &mut SlotQueue) -> (popped: Option<(usize, u128)>)
    ensures
        match popped {
            Some((slot, priority)) => {
                &&& queue_entries(*old(q)).contains_key(slot)
                &&& queue_entries(*old(q))[slot] == priority
                &&& least(queue_entries(*old(q)), slot)
                &&& queue_entries(*final(q)) == queue_entries(*old(q)).remove(slot)
            },
            None => {
                &&& queue_entries(*old(q)) == (Map::<usize, u128>::empty())
                &&& queue_entries(*final(q)) == queue_entries(*old(q))
            },
        },
{
    match q.pop() {
        Some((slot, Reverse(p))) => Some((slot, p)),
        None => None,
    }
}

/// `PriorityQueue::peek`: the element that `pop` would take out, left in
/// place; `None` if the queue is empty.
#[verifier::external_body]
pub(crate) fn queue_peek(q: &SlotQueue) -> (top: Option<(usize, u128)>)
    ensures
        match top {
            Some((slot, priority)) => {
                &&& queue_entries(*q).contains_key(slot)
                &&& queue_entries(*q)[slot] == priority
                &&& least(queue_entries(*q), slot)
            },
            None => queue_entries(*q) == (Map::<usize, u128>::empty()),
        },
{
    match q.peek() {
        Some((slot, Reverse(p))) => Some((*slot, *p)),
        None => None,
    }
}

/// `PriorityQueue::change_priority`: a slot that the queue holds takes the
/// new priority and its earlier one comes back; for a slot that it does not
/// hold nothing changes and `None` comes back.
#[verifier::external_body]
pub(crate) fn queue_change_priority(q: &mut SlotQueue, slot: usize, priority: u128) -> (earlier:
    Option<u128>)
    ensures
        queue_entries(*final(q)) == if queue_entries(*old(q)).contains_key(slot) {
            queue_entries(*old(q)).insert(slot, priority)
        } else {
            queue_entries(*old(q))
        },
        earlier == if queue_entries(*old(q)).contains_key(slot) {
            Some(queue_entries(*old(q))[slot])
        } else {
            None
        },
{
    match q.change_priority(&slot, Reverse(priority)) {
        Some(Reverse(p)) => Some(p),
        None => None,
    }
}

/// `PriorityQueue::remove`: takes the slot out of the queue and returns the
/// priority it had; `None`, and no change, if the queue did not hold it.
#[verifier::external_body]
pub(crate) fn queue_remove(q: &mut SlotQueue, slot: usize) -> (earlier: Option<u128>)
    ensures
        queue_entries(*final(q)) == queue_entries(*old(q)).remove(slot),
        earlier == if queue_entries(*old(q)).contains_key(slot) {
            Some(queue_entries(*old(q))[slot])
        } else {
            None
        },
{
    match q.remove(&slot) {
        Some((_, Reverse(p))) => Some(p),
        None => None,
    }
}

} // verus!
