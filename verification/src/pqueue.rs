//! Trusted declarations for the keyed priority queue that schedules the
//! propagation frontier.
//!
//! The queue is modeled by [`queue_entries`], a map from key to priority.
//! Each wrapper's contract states, over that map, what the queue's own
//! documentation promises of the call it makes.

use std::hash::BuildHasher;
use std::hash::Hash;

use keyed_priority_queue::KeyedPriorityQueue;
use vstd::prelude::*;

verus! {

#[verifier::external_type_specification]
#[verifier::external_body]
#[verifier::reject_recursive_types(TKey)]
#[verifier::reject_recursive_types(TPriority)]
#[verifier::reject_recursive_types(S)]
pub struct ExKeyedPriorityQueue<TKey, TPriority, S>(KeyedPriorityQueue<TKey, TPriority, S>) where
    TKey: Hash + Eq,
    TPriority: Ord,
    S: BuildHasher,
;

/// The scheduling queue of the propagation frontier: board positions keyed
/// as `(row, column)` pairs, each with a `usize` priority.
pub type EntropyQueue = KeyedPriorityQueue<(usize, usize), usize>;

/// What a queue holds: each stored key with its current priority.
pub uninterp spec fn queue_entries(q: EntropyQueue) -> Map<(usize, usize), usize>;

/// Relies on KeyedPriorityQueue::new: creates an empty queue.
#[verifier::external_body]
pub fn queue_new() -> (q: EntropyQueue)
    ensures
        queue_entries(q).dom() == Set::<(usize, usize)>::empty(),
{
    KeyedPriorityQueue::new()
}

/// Relies on KeyedPriorityQueue::push: inserts the key with the priority, or
/// updates the priority of a present key, returning the old priority.
#[verifier::external_body]
pub fn queue_push(q: &mut EntropyQueue, key: (usize, usize), priority: usize) -> (r: Option<
    usize,
>)
    ensures
        queue_entries(*final(q)) == queue_entries(*old(q)).insert(key, priority),
        r == (if queue_entries(*old(q)).dom().contains(key) {
            Some(queue_entries(*old(q))[key])
        } else {
            None::<usize>
        }),
{
    q.push(key, priority)
}

/// Relies on KeyedPriorityQueue::peek: yields an entry of maximal priority,
/// or nothing exactly when the queue is empty.
#[verifier::external_body]
pub fn queue_peek(q: &EntropyQueue) -> (r: Option<((usize, usize), usize)>)
    ensures
        (match r {
            None => forall|k: (usize, usize)| !queue_entries(*q).dom().contains(k),
            Some((key, priority)) => {
                &&& queue_entries(*q).dom().contains(key)
                &&& queue_entries(*q)[key] == priority
                &&& forall|k: (usize, usize)|
                    queue_entries(*q).dom().contains(k) ==> queue_entries(*q)[k] <= priority
            },
        }),
{
    match q.peek() {
        Some((key, priority)) => Some((*key, *priority)),
        None => None,
    }
}

/// Relies on KeyedPriorityQueue::set_priority: updates the priority of a
/// present key and returns the old one; leaves an absent key alone.
#[verifier::external_body]
pub fn queue_set_priority(q: &mut EntropyQueue, key: (usize, usize), priority: usize) -> (r:
    Option<usize>)
    ensures
        (if queue_entries(*old(q)).dom().contains(key) {
            queue_entries(*final(q)) == queue_entries(*old(q)).insert(key, priority) && r == Some(
                queue_entries(*old(q))[key],
            )
        } else {
            queue_entries(*final(q)) == queue_entries(*old(q)) && r == None::<usize>
        }),
{
    match q.set_priority(&key, priority) {
        Ok(previous) => Some(previous),
        Err(_) => None,
    }
}

/// Relies on KeyedPriorityQueue::remove: takes the key out, returning its
/// priority if it was present.
#[verifier::external_body]
pub fn queue_remove(q: &mut EntropyQueue, key: (usize, usize)) -> (r: Option<usize>)
    ensures
        queue_entries(*final(q)) == queue_entries(*old(q)).remove(key),
        r == (if queue_entries(*old(q)).dom().contains(key) {
            Some(queue_entries(*old(q))[key])
        } else {
            None::<usize>
        }),
{
    q.remove(&key)
}

/// Relies on the derived Clone of KeyedPriorityQueue, which clones the
/// backing heap and key index: the copy holds the same entries.
#[verifier::external_body]
pub fn queue_clone(q: &EntropyQueue) -> (r: EntropyQueue)
    ensures
        queue_entries(r) == queue_entries(*q),
{
    q.clone()
}

} // verus!
