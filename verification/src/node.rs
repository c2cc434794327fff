//! The per-node storage engine: a live key→entry map, an expiry queue
//! upserted by key, and a bounded FIFO mailbox of replication operations.
//! Time enters as an explicit millisecond count; the drain and expiry
//! steps are functions a host runtime calls on its own cadence.

use vstd::prelude::*;

verus! {

use crate::store::{
    StoreMap,
    store_contents,
    store_new,
    store_insert,
    store_remove,
    store_get,
    store_empty_model,
};
use crate::ttl_queue::{
    ExpiryQueue,
    queue_contents,
    queue_new,
    queue_push,
    queue_remove,
    queue_peek_min,
    queue_empty_model,
};

/// How many replication operations a node's mailbox holds before the
/// sender is pushed back on.
pub const MAILBOX_CAPACITY: usize = 1000;

/// A replication operation carried by a node's mailbox.
pub enum KVOperation {
    Put(String, Vec<u8>, Option<u64>),
    Del(String),
}

/// The mathematical form of a replication operation.
pub enum OpView {
    Put(Seq<char>, Seq<u8>, Option<u64>),
    Del(Seq<char>),
}

impl View for KVOperation {
    type V = OpView;

    open spec fn view(&self) -> OpView {
        match self {
            KVOperation::Put(k, v, ttl) => OpView::Put(k@, v@, *ttl),
            KVOperation::Del(k) => OpView::Del(k@),
        }
    }
}

/// The mathematical form of a node: its identifier, its live store (key to
/// value bytes and optional expiry), its expiry queue (key to expiry), and
/// its inbound mailbox in arrival order.
pub struct NodeView {
    pub id: Seq<char>,
    pub store: Map<Seq<char>, (Seq<u8>, Option<u64>)>,
    pub queue: Map<Seq<char>, u64>,
    pub mailbox: Seq<OpView>,
}

/// An entry is expired at `now` when it carries an expiry not after `now`.
pub open spec fn entry_expired(e: (Seq<u8>, Option<u64>), now: u64) -> bool {
    e.1 is Some && e.1->0 <= now
}

/// A node is well formed when the expiry queue holds exactly the stored
/// keys that carry an expiry, each under its live expiry instant.  The
/// store may hold keys without a queue record (entries stored with no
/// TTL); the queue never holds a key the store lacks.
pub open spec fn node_wf(n: NodeView) -> bool {
    &&& n.queue.dom().finite()
    &&& (forall|k: Seq<char>|
        #![trigger n.queue.dom().contains(k)]
        #![trigger n.store.dom().contains(k)]
        n.queue.dom().contains(k) <==> (n.store.dom().contains(k) && n.store[k].1 is Some))
    &&& (forall|k: Seq<char>| #[trigger]
        n.queue.dom().contains(k) ==> n.queue[k] == n.store[k].1->0)
}

/// A node holding nothing.
pub open spec fn node_empty_view(id: Seq<char>) -> NodeView {
    NodeView { id, store: store_empty_model(), queue: queue_empty_model(), mailbox: Seq::empty() }
}

/// The expiry instant `now + ttl`, saturating at the far end of time.
pub open spec fn expiry_at(now: u64, ttl: u64) -> u64 {
    if now + ttl <= u64::MAX {
        (now + ttl) as u64
    } else {
        u64::MAX
    }
}

/// The expiry an operation stored at `now` carries.
pub open spec fn expiry_of(now: u64, ttl: Option<u64>) -> Option<u64> {
    match ttl {
        Some(t) => Some(expiry_at(now, t)),
        None => None,
    }
}

/// The node after an entry is stored: the entry replaces any prior one;
/// the queue record is upserted when an expiry is given and dropped when
/// none is, so the queue always tracks the live expiry.
pub open spec fn node_insert_spec(
    n: NodeView,
    k: Seq<char>,
    v: Seq<u8>,
    expiry: Option<u64>,
) -> NodeView {
    NodeView {
        store: n.store.insert(k, (v, expiry)),
        queue: match expiry {
            Some(e) => n.queue.insert(k, e),
            None => n.queue.remove(k),
        },
        ..n
    }
}

/// The node after a key is removed from store and queue alike.
pub open spec fn node_remove_spec(n: NodeView, k: Seq<char>) -> NodeView {
    NodeView { store: n.store.remove(k), queue: n.queue.remove(k), ..n }
}

/// The node after one replication operation is applied at `now`.
pub open spec fn node_apply_op_spec(n: NodeView, op: OpView, now: u64) -> NodeView {
    match op {
        OpView::Put(k, v, ttl) => node_insert_spec(n, k, v, expiry_of(now, ttl)),
        OpView::Del(k) => node_remove_spec(n, k),
    }
}

/// What a point read of `k` at `now` returns: the value bytes when the key
/// is held and unexpired, nothing otherwise.
pub open spec fn lookup_result_spec(n: NodeView, k: Seq<char>, now: u64) -> Option<Seq<u8>> {
    if n.store.dom().contains(k) && !entry_expired(n.store[k], now) {
        Some(n.store[k].0)
    } else {
        None
    }
}

/// The node after a point read of `k` at `now`: a read that observes a
/// past expiry evicts the entry (the lazy expiry path); any other read
/// changes nothing.
pub open spec fn lookup_state_spec(n: NodeView, k: Seq<char>, now: u64) -> NodeView {
    if n.store.dom().contains(k) && entry_expired(n.store[k], now) {
        node_remove_spec(n, k)
    } else {
        n
    }
}

/// The node after one operation arrives in the mailbox.
pub open spec fn node_enqueue_spec(n: NodeView, op: OpView) -> NodeView {
    NodeView { mailbox: n.mailbox.push(op), ..n }
}

/// The node after the oldest mailbox operation is applied at `now`.
pub open spec fn node_step_spec(n: NodeView, now: u64) -> NodeView {
    NodeView { mailbox: n.mailbox.drop_first(), ..node_apply_op_spec(n, n.mailbox[0], now) }
}

/// The node after the whole mailbox is drained, oldest first, at `now`.
pub open spec fn node_drain_spec(n: NodeView, now: u64) -> NodeView
    decreases n.mailbox.len(),
{
    if n.mailbox.len() == 0 {
        n
    } else {
        node_drain_spec(node_step_spec(n, now), now)
    }
}

/// The queued keys due at `now`.
pub open spec fn expired_keys(n: NodeView, now: u64) -> Set<Seq<char>> {
    n.queue.dom().filter(|k: Seq<char>| n.queue[k] <= now)
}

/// The node after the eager expiry pass at `now`: every due key leaves the
/// store and the queue.
pub open spec fn node_expire_spec(n: NodeView, now: u64) -> NodeView {
    NodeView {
        store: n.store.remove_keys(expired_keys(n, now)),
        queue: n.queue.remove_keys(expired_keys(n, now)),
        ..n
    }
}

pub(crate) fn expiry_at_exec(now: u64, ttl: u64) -> (r: u64)
    ensures
        r == expiry_at(now, ttl),
{
    if ttl <= u64::MAX - now {
        now + ttl
    } else {
        u64::MAX
    }
}

/// One logical storage unit: a stable identifier, a live key→entry map, an
/// expiry queue, and a bounded inbound mailbox.
pub struct KVNode {
    id: String,
    store: StoreMap,
    ttl_queue: ExpiryQueue,
    mailbox: Vec<KVOperation>,
}

impl View for KVNode {
    type V = NodeView;

    closed spec fn view(&self) -> NodeView {
        NodeView {
            id: self.id@,
            store: store_contents(self.store),
            queue: queue_contents(self.ttl_queue),
            mailbox: self.mailbox@.map_values(|op: KVOperation| op@),
        }
    }
}

impl KVNode {
    pub fn new(id: String) -> (n: KVNode)
        ensures
            n@ == node_empty_view(id@),
            node_wf(n@),
    {
        let n = KVNode { id, store: store_new(), ttl_queue: queue_new(), mailbox: Vec::new() };
        proof {
            assert(n@.mailbox =~= Seq::<OpView>::empty());
            assert(n@ == node_empty_view(n@.id));
        }
        n
    }

    pub fn mailbox_len(&self) -> (r: usize)
        ensures
            r == self@.mailbox.len(),
    {
        self.mailbox.len()
    }

    /// Reads the store directly, ignoring any expiry: the testing hook
    /// replica convergence is observed through.
    pub fn read_raw(&self, key: &str) -> (r: Option<Vec<u8>>)
        ensures
            match r {
                Some(v) => self@.store.dom().contains(key@) && self@.store[key@].0 == v@,
                None => !self@.store.dom().contains(key@),
            },
    {
        match store_get(&self.store, key) {
            Some(e) => Some(e.0),
            None => None,
        }
    }

    /// Stores an entry, replacing any prior one under the key; the expiry
    /// queue is upserted to track exactly the live expiry.
    pub fn insert(&mut self, key: String, value: Vec<u8>, expiry: Option<u64>)
        requires
            node_wf(old(self)@),
        ensures
            final(self)@ == node_insert_spec(old(self)@, key@, value@, expiry),
            node_wf(final(self)@),
    {
        let ghost n0 = self@;
        let ghost kk = key@;
        match expiry {
            Some(e) => {
                store_insert(&mut self.store, key.clone(), value, expiry);
                queue_push(&mut self.ttl_queue, key, e);
            },
            None => {
                store_insert(&mut self.store, key.clone(), value, expiry);
                queue_remove(&mut self.ttl_queue, key.as_str());
            },
        }
        proof {
            let n1 = self@;
            assert(n1 == node_insert_spec(n0, kk, n1.store[kk].0, expiry));
            assert forall|k: Seq<char>| #![trigger n1.queue.dom().contains(k)]
                #![trigger n1.store.dom().contains(k)]
                n1.queue.dom().contains(k) <==> (n1.store.dom().contains(k)
                && n1.store[k].1 is Some) by {
                if k != kk {
                    assert(n0.queue.dom().contains(k) <==> (n0.store.dom().contains(k)
                        && n0.store[k].1 is Some));
                }
            }
        }
    }

    /// Drops the entry and any queue record under the key; a no-op when
    /// the key is absent.
    pub fn remove(&mut self, key: &str)
        requires
            node_wf(old(self)@),
        ensures
            final(self)@ == node_remove_spec(old(self)@, key@),
            node_wf(final(self)@),
    {
        store_remove(&mut self.store, key);
        queue_remove(&mut self.ttl_queue, key);
    }

    /// Reads the key at `now`: the value when present and unexpired; a
    /// read that observes a past expiry evicts the entry and reports
    /// absence (the lazy expiry path).
    pub fn lookup(&mut self, key: &str, now: u64) -> (r: Option<Vec<u8>>)
        requires
            node_wf(old(self)@),
        ensures
            final(self)@ == lookup_state_spec(old(self)@, key@, now),
            node_wf(final(self)@),
            match r {
                Some(v) => lookup_result_spec(old(self)@, key@, now) == Some(v@),
                None => lookup_result_spec(old(self)@, key@, now) is None,
            },
    {
        let got = store_get(&self.store, key);
        match got {
            None => None,
            Some(e) => {
                let expired = match e.1 {
                    Some(exp) => exp <= now,
                    None => false,
                };
                if expired {
                    store_remove(&mut self.store, key);
                    queue_remove(&mut self.ttl_queue, key);
                    None
                } else {
                    Some(e.0)
                }
            },
        }
    }

    /// Delivers a replication operation to the mailbox; reports whether it
    /// was accepted or the mailbox stood at capacity.
    pub fn enqueue(&mut self, op: KVOperation) -> (r: bool)
        requires
            node_wf(old(self)@),
        ensures
            node_wf(final(self)@),
            r == (old(self)@.mailbox.len() < MAILBOX_CAPACITY),
            r ==> final(self)@ == node_enqueue_spec(old(self)@, op@),
            !r ==> final(self)@ == old(self)@,
    {
        let ghost n0 = self@;
        if self.mailbox.len() < MAILBOX_CAPACITY {
            let ghost opv = op@;
            self.mailbox.push(op);
            proof {
                assert(self@.mailbox =~= n0.mailbox.push(opv));
            }
            true
        } else {
            false
        }
    }

    /// Applies one replication operation at `now`, as the drain task does
    /// for each mailbox message in receipt order.
    pub fn apply_op(&mut self, op: KVOperation, now: u64)
        requires
            node_wf(old(self)@),
        ensures
            final(self)@ == node_apply_op_spec(old(self)@, op@, now),
            node_wf(final(self)@),
    {
        match op {
            KVOperation::Put(k, v, ttl) => {
                let expiry = match ttl {
                    Some(t) => Some(expiry_at_exec(now, t)),
                    None => None,
                };
                self.insert(k, v, expiry);
            },
            KVOperation::Del(k) => {
                self.remove(k.as_str());
            },
        }
    }

    /// Applies the oldest mailbox operation at `now`; reports whether the
    /// mailbox held one.
    pub fn drain_one(&mut self, now: u64) -> (r: bool)
        requires
            node_wf(old(self)@),
        ensures
            node_wf(final(self)@),
            r == (old(self)@.mailbox.len() > 0),
            r ==> final(self)@ == node_step_spec(old(self)@, now),
            !r ==> final(self)@ == old(self)@,
    {
        let ghost n0 = self@;
        if self.mailbox.len() == 0 {
            return false;
        }
        let op = self.mailbox.remove(0);
        proof {
            assert(self@.mailbox =~= n0.mailbox.drop_first());
            assert(op@ == n0.mailbox[0]);
        }
        let ghost n1 = self@;
        self.apply_op(op, now);
        proof {
            lemma_apply_op_same_but_mailbox(n1, n0, op@, now);
        }
        true
    }

    /// Drains the whole mailbox at `now`, oldest operation first.
    pub fn drain_all(&mut self, now: u64)
        requires
            node_wf(old(self)@),
        ensures
            node_wf(final(self)@),
            final(self)@ == node_drain_spec(old(self)@, now),
    {
        let ghost n0 = self@;
        while self.mailbox_len() != 0
            invariant
                node_wf(self@),
                node_drain_spec(self@, now) == node_drain_spec(n0, now),
            decreases self@.mailbox.len(),
        {
            let _ = self.drain_one(now);
        }
    }

    /// Runs one eager expiry pass at `now`: repeatedly peeks the earliest
    /// queued expiry and, while it is due, evicts that key from the store
    /// and the queue.
    pub fn expire_due(&mut self, now: u64)
        requires
            node_wf(old(self)@),
        ensures
            node_wf(final(self)@),
            final(self)@ == node_expire_spec(old(self)@, now),
    {
        let ghost n0 = self@;
        loop
            invariant_except_break
                node_wf(self@),
                node_expire_spec(self@, now) == node_expire_spec(n0, now),
            ensures
                node_wf(self@),
                node_expire_spec(self@, now) == node_expire_spec(n0, now),
                expired_keys(self@, now) =~= Set::<Seq<char>>::empty(),
            decreases self@.queue.dom().len(),
        {
            let top = queue_peek_min(&self.ttl_queue);
            match top {
                None => {
                    proof {
                        assert(expired_keys(self@, now) =~= Set::<Seq<char>>::empty());
                    }
                    break ;
                },
                Some(kp) => {
                    if kp.1 <= now {
                        let ghost n = self@;
                        store_remove(&mut self.store, kp.0.as_str());
                        queue_remove(&mut self.ttl_queue, kp.0.as_str());
                        proof {
                            lemma_expire_step(n, kp.0@, now);
                        }
                    } else {
                        proof {
                            assert forall|k: Seq<char>|
                                self@.queue.dom().contains(k) implies self@.queue[k] > now by {}
                            assert(expired_keys(self@, now) =~= Set::<Seq<char>>::empty());
                        }
                        break ;
                    }
                },
            }
        }
        proof {
            let n1 = self@;
            assert(node_expire_spec(n1, now).store =~= n1.store);
            assert(node_expire_spec(n1, now).queue =~= n1.queue);
            assert(node_expire_spec(n1, now) == n1);
        }
    }
}

/// Applying an operation reads and writes the store and the queue alone,
/// never the mailbox; so it commutes with replacing the mailbox.
proof fn lemma_apply_op_same_but_mailbox(n1: NodeView, n0: NodeView, op: OpView, now: u64)
    requires
        n1.id == n0.id,
        n1.store == n0.store,
        n1.queue == n0.queue,
        n1.mailbox == n0.mailbox.drop_first(),
        n0.mailbox.len() > 0,
        op == n0.mailbox[0],
    ensures
        node_apply_op_spec(n1, op, now) == node_step_spec(n0, now),
{
    match op {
        OpView::Put(k, v, ttl) => {
            assert(node_apply_op_spec(n1, op, now) == node_step_spec(n0, now));
        },
        OpView::Del(k) => {
            assert(node_apply_op_spec(n1, op, now) == node_step_spec(n0, now));
        },
    }
}

/// Evicting one due key leaves the outcome of the whole expiry pass
/// unchanged.
proof fn lemma_expire_step(n: NodeView, k: Seq<char>, now: u64)
    requires
        node_wf(n),
        n.queue.dom().contains(k),
        n.queue[k] <= now,
    ensures
        node_wf(node_remove_spec(n, k)),
        node_expire_spec(node_remove_spec(n, k), now) == node_expire_spec(n, now),
        node_remove_spec(n, k).queue.dom().len() < n.queue.dom().len(),
{
    let n1 = node_remove_spec(n, k);
    assert(expired_keys(n1, now) =~= expired_keys(n, now).remove(k));
    assert(n1.store.remove_keys(expired_keys(n1, now)) =~= n.store.remove_keys(
        expired_keys(n, now),
    ));
    assert(n1.queue.remove_keys(expired_keys(n1, now)) =~= n.queue.remove_keys(
        expired_keys(n, now),
    ));
    assert(node_expire_spec(n1, now) == node_expire_spec(n, now));
}

/// Replica convergence, storing side: a node whose latest mailbox
/// operation stores `k` holds `k` with that value once the mailbox is
/// drained, whatever else the mailbox carried.
pub proof fn lemma_drain_last_set(n: NodeView, now: u64, k: Seq<char>, v: Seq<u8>, ttl: Option<
    u64,
>)
    requires
        n.mailbox.len() > 0,
        n.mailbox.last() == OpView::Put(k, v, ttl),
    ensures
        node_drain_spec(n, now).store.dom().contains(k),
        node_drain_spec(n, now).store[k] == (v, expiry_of(now, ttl)),
        node_drain_spec(n, now).mailbox.len() == 0,
    decreases n.mailbox.len(),
{
    let n1 = node_step_spec(n, now);
    assert(node_drain_spec(n, now) == node_drain_spec(n1, now));
    if n.mailbox.len() == 1 {
        assert(n.mailbox[0] == OpView::Put(k, v, ttl));
        assert(n1.mailbox.len() == 0);
        assert(node_drain_spec(n1, now) == n1);
        assert(n1.store == n.store.insert(k, (v, expiry_of(now, ttl))));
    } else {
        assert(n1.mailbox.last() == n.mailbox.last());
        lemma_drain_last_set(n1, now, k, v, ttl);
    }
}

/// Replica convergence, deleting side: a node whose latest mailbox
/// operation deletes `k` no longer holds `k` once the mailbox is drained.
pub proof fn lemma_drain_last_del(n: NodeView, now: u64, k: Seq<char>)
    requires
        n.mailbox.len() > 0,
        n.mailbox.last() == OpView::Del(k),
    ensures
        !node_drain_spec(n, now).store.dom().contains(k),
        node_drain_spec(n, now).mailbox.len() == 0,
    decreases n.mailbox.len(),
{
    let n1 = node_step_spec(n, now);
    assert(node_drain_spec(n, now) == node_drain_spec(n1, now));
    if n.mailbox.len() == 1 {
        assert(n.mailbox[0] == OpView::Del(k));
        assert(n1.mailbox.len() == 0);
        assert(node_drain_spec(n1, now) == n1);
    } else {
        assert(n1.mailbox.last() == n.mailbox.last());
        lemma_drain_last_del(n1, now, k);
    }
}

} // verus!

