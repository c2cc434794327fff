//! The per-node expiry queue: a keyed priority queue from an outside crate,
//! held behind trusted wrappers.  A push with a key already present
//! replaces that key's priority (upsert by key), which is what keeps a
//! later, longer TTL from being cut short by an earlier record.  Contents
//! are modelled as a map from key characters to the expiry instant.

use vstd::prelude::*;

verus! {

/// The keyed priority queue type.  Declared so that values of it can stand
/// in fields; nothing inside it is visible to proofs.
#[verifier::external_type_specification]
#[verifier::external_body]
#[verifier::reject_recursive_types(I)]
#[verifier::reject_recursive_types(P)]
#[verifier::reject_recursive_types(H)]
pub struct ExDoublePriorityQueue<I, P, H>(priority_queue::DoublePriorityQueue<I, P, H>);

/// A node's expiry queue: each key due to expire mapped to its expiry
/// instant (a millisecond count), smallest due first.
pub type ExpiryQueue = priority_queue::DoublePriorityQueue<String, u64>;

/// What the queue holds: each queued key mapped to its expiry instant.
pub uninterp spec fn queue_contents(q: ExpiryQueue) -> Map<Seq<char>, u64>;

/// The model of a queue that holds nothing.
pub open spec fn queue_empty_model() -> Map<Seq<char>, u64> {
    Map::empty()
}

/// Relies on `priority_queue::DoublePriorityQueue::new`: a fresh queue
/// holds nothing.
#[verifier::external_body]
pub(crate) fn queue_new() -> (r: ExpiryQueue)
    ensures
        queue_contents(r) == queue_empty_model(),
{
    priority_queue::DoublePriorityQueue::new()
}

/// Relies on `priority_queue::DoublePriorityQueue::push`: inserts the
/// key with its priority; a key already present keeps one record, with the
/// new priority.
#[verifier::external_body]
pub(crate) fn queue_push(q: &mut ExpiryQueue, key: String, expiry: u64)
    ensures
        queue_contents(*final(q)) == queue_contents(*old(q)).insert(key@, expiry),
{
    q.push(key, expiry);
}

/// Relies on `priority_queue::DoublePriorityQueue::remove`: drops the
/// record under the key; removing an absent key changes nothing.
#[verifier::external_body]
pub(crate) fn queue_remove(q: &mut ExpiryQueue, key: &str)
    ensures
        queue_contents(*final(q)) == queue_contents(*old(q)).remove(key@),
{
    q.remove(key);
}

/// Relies on `priority_queue::DoublePriorityQueue::peek_min`: returns a
/// pair with the lowest priority in the queue, or nothing when the queue is
/// empty.  When priorities tie, which key comes back is the crate's choice.
#[verifier::external_body]
pub(crate) fn queue_peek_min(q: &ExpiryQueue) -> (r: Option<(String, u64)>)
    ensures
        match r {
            Some(kp) => queue_contents(*q).contains_pair(kp.0@, kp.1) && forall|k2: Seq<char>|
                queue_contents(*q).dom().contains(k2) ==> kp.1 <= queue_contents(*q)[k2],
            None => queue_contents(*q).dom() == Set::<Seq<char>>::empty(),
        },
{
    match q.peek_min() {
        Some((k, p)) => Some((k.clone(), *p)),
        None => None,
    }
}

} // verus!
