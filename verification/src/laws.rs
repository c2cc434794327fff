//! The laws of the store, each proved over the cluster's mathematical
//! form from the relations its operations ensure: routing determinism,
//! replica-set size, read-your-writes, overwrite, delete, both expiry
//! paths, TTL upsert, and replica convergence.

use vstd::prelude::*;

verus! {

use crate::hash::key_coord;
use crate::ring::{
    node_values,
    lemma_replica_set_size,
    lemma_ring_nonempty_values,
    lemma_node_values_in_bounds,
};
use crate::node::{
    OpView,
    node_insert_spec,
    node_remove_spec,
    node_enqueue_spec,
    node_drain_spec,
    node_expire_spec,
    expired_keys,
    lookup_result_spec,
    lookup_state_spec,
    entry_expired,
    expiry_of,
    expiry_at,
    lemma_drain_last_set,
    lemma_drain_last_del,
    MAILBOX_CAPACITY,
};
use crate::cluster::{
    ClusterView,
    cluster_wf,
    replicas_of,
    primary_of,
    set_rel,
    del_rel,
    full_replicas,
    mailbox_full_pred,
};

/// On a well-formed cluster with at least one node, every key has a
/// primary, and every member of its replica set addresses an existing
/// node.
pub proof fn lemma_routing_in_bounds(c: ClusterView, k: Seq<char>)
    requires
        cluster_wf(c),
        c.ring.len() > 0,
    ensures
        replicas_of(c, k).len() >= 1,
        forall|j: int|
            0 <= j < replicas_of(c, k).len() ==> (#[trigger] replicas_of(c, k)[j] as int)
                < c.nodes.len(),
{
    lemma_replica_set_size(c.ring, key_coord(k), c.replication);
    lemma_ring_nonempty_values(c.ring);
    assert forall|j: int|
        0 <= j < replicas_of(c, k).len() implies (#[trigger] replicas_of(c, k)[j] as int)
        < c.nodes.len() by {
        assert(replicas_of(c, k).to_set().contains(replicas_of(c, k)[j]));
        lemma_node_values_in_bounds(c.ring, c.nodes.len() as int, replicas_of(c, k)[j]);
    }
}

/// Routing determinism: the replica set is a function of the ring and the
/// replication factor applied to the key, so two clusters whose rings were
/// built by the same sequence of node additions route every key alike.
pub proof fn lemma_routing_deterministic(c1: ClusterView, c2: ClusterView, k: Seq<char>)
    requires
        c1.ring == c2.ring,
        c1.replication == c2.replication,
    ensures
        replicas_of(c1, k) == replicas_of(c2, k),
{
}

/// Replica-set size: the replica set of any key holds no duplicates and
/// has exactly `R` nodes when the ring carries at least `R` distinct
/// nodes, and exactly as many nodes as the ring carries otherwise.
pub proof fn lemma_replica_set_size_law(c: ClusterView, k: Seq<char>)
    requires
        cluster_wf(c),
    ensures
        replicas_of(c, k).no_duplicates(),
        replicas_of(c, k).len() == (if c.replication <= node_values(c.ring).len() {
            c.replication as int
        } else {
            node_values(c.ring).len() as int
        }),
{
    lemma_replica_set_size(c.ring, key_coord(k), c.replication);
}

/// Read-your-writes on the primary: once a SET has taken effect, a read
/// of the key before its expiry, against the primary the routing picks,
/// returns the written value.
pub proof fn lemma_read_your_writes(
    c0: ClusterView,
    c1: ClusterView,
    k: Seq<char>,
    v: Seq<u8>,
    ttl: Option<u64>,
    now: u64,
    rejected: Seq<usize>,
    now2: u64,
)
    requires
        cluster_wf(c0),
        c0.ring.len() > 0,
        set_rel(c0, c1, k, v, ttl, now, rejected),
        ttl matches Some(t) ==> now2 < expiry_at(now, t),
    ensures
        lookup_result_spec(c1.nodes[primary_of(c1, k) as int], k, now2) == Some(v),
{
    lemma_routing_in_bounds(c0, k);
    let p = primary_of(c0, k) as int;
    assert(replicas_of(c1, k) == replicas_of(c0, k));
    assert(c1.nodes[p] == node_insert_spec(c0.nodes[p], k, v, expiry_of(now, ttl)));
    assert(c1.nodes[p].store[k] == (v, expiry_of(now, ttl)));
}

/// Overwrite: two SETs of the same key in sequence leave the second value
/// in force; a read before the second expiry returns it.
pub proof fn lemma_overwrite(
    c0: ClusterView,
    c1: ClusterView,
    c2: ClusterView,
    k: Seq<char>,
    v1: Seq<u8>,
    ttl1: Option<u64>,
    now1: u64,
    rej1: Seq<usize>,
    v2: Seq<u8>,
    ttl2: Option<u64>,
    now2: u64,
    rej2: Seq<usize>,
    now3: u64,
)
    requires
        cluster_wf(c0),
        cluster_wf(c1),
        c0.ring.len() > 0,
        set_rel(c0, c1, k, v1, ttl1, now1, rej1),
        set_rel(c1, c2, k, v2, ttl2, now2, rej2),
        ttl2 matches Some(t) ==> now3 < expiry_at(now2, t),
    ensures
        lookup_result_spec(c2.nodes[primary_of(c2, k) as int], k, now3) == Some(v2),
{
    lemma_read_your_writes(c1, c2, k, v2, ttl2, now2, rej2, now3);
}

/// Delete: once a DEL has taken effect, a read of the key against the
/// primary reports absence, at any time.
pub proof fn lemma_delete(
    c0: ClusterView,
    c1: ClusterView,
    k: Seq<char>,
    rejected: Seq<usize>,
    now2: u64,
)
    requires
        cluster_wf(c0),
        c0.ring.len() > 0,
        del_rel(c0, c1, k, rejected),
    ensures
        lookup_result_spec(c1.nodes[primary_of(c1, k) as int], k, now2) is None,
{
    lemma_routing_in_bounds(c0, k);
    let p = primary_of(c0, k) as int;
    assert(replicas_of(c1, k) == replicas_of(c0, k));
    assert(c1.nodes[p] == node_remove_spec(c0.nodes[p], k));
    assert(!c1.nodes[p].store.dom().contains(k));
}

/// Eager expiry: once the entry's expiry is due, the expirer pass on the
/// primary removes it from the store, with no read required.
pub proof fn lemma_eager_expiry(
    c0: ClusterView,
    c1: ClusterView,
    k: Seq<char>,
    v: Seq<u8>,
    ttl: u64,
    now: u64,
    rejected: Seq<usize>,
    now1: u64,
)
    requires
        cluster_wf(c0),
        c0.ring.len() > 0,
        set_rel(c0, c1, k, v, Some(ttl), now, rejected),
        now1 >= expiry_at(now, ttl),
    ensures
        !node_expire_spec(c1.nodes[primary_of(c1, k) as int], now1).store.dom().contains(k),
{
    lemma_routing_in_bounds(c0, k);
    let p = primary_of(c0, k) as int;
    assert(replicas_of(c1, k) == replicas_of(c0, k));
    assert(c1.nodes[p] == node_insert_spec(c0.nodes[p], k, v, expiry_of(now, Some(ttl))));
    assert(c1.nodes[p].queue[k] == expiry_at(now, ttl));
    assert(c1.nodes[p].queue.dom().contains(k));
    assert(expired_keys(c1.nodes[p], now1).contains(k));
}

/// Lazy expiry: with the expirer never run, a read of the key at or past
/// its expiry still reports absence, and itself removes the entry from
/// the primary's store.
pub proof fn lemma_lazy_expiry(
    c0: ClusterView,
    c1: ClusterView,
    k: Seq<char>,
    v: Seq<u8>,
    ttl: u64,
    now: u64,
    rejected: Seq<usize>,
    now2: u64,
)
    requires
        cluster_wf(c0),
        c0.ring.len() > 0,
        set_rel(c0, c1, k, v, Some(ttl), now, rejected),
        now2 >= expiry_at(now, ttl),
    ensures
        lookup_result_spec(c1.nodes[primary_of(c1, k) as int], k, now2) is None,
        !lookup_state_spec(c1.nodes[primary_of(c1, k) as int], k, now2).store.dom().contains(k),
{
    lemma_routing_in_bounds(c0, k);
    let p = primary_of(c0, k) as int;
    assert(replicas_of(c1, k) == replicas_of(c0, k));
    assert(c1.nodes[p] == node_insert_spec(c0.nodes[p], k, v, expiry_of(now, Some(ttl))));
    assert(c1.nodes[p].store[k] == (v, expiry_of(now, Some(ttl))));
    assert(entry_expired(c1.nodes[p].store[k], now2));
}

/// TTL upsert: a second SET of the same key with a later expiry replaces
/// the queued record, so an expirer pass after the first expiry but
/// before the second evicts nothing, and a read still returns the second
/// value.  (The queue keeps one record per key, with the latest expiry.)
pub proof fn lemma_ttl_upsert(
    c0: ClusterView,
    c1: ClusterView,
    c2: ClusterView,
    k: Seq<char>,
    v1: Seq<u8>,
    ttl1: u64,
    now1: u64,
    rej1: Seq<usize>,
    v2: Seq<u8>,
    ttl2: u64,
    now2: u64,
    rej2: Seq<usize>,
    now3: u64,
)
    requires
        cluster_wf(c0),
        cluster_wf(c1),
        c0.ring.len() > 0,
        set_rel(c0, c1, k, v1, Some(ttl1), now1, rej1),
        set_rel(c1, c2, k, v2, Some(ttl2), now2, rej2),
        now3 < expiry_at(now2, ttl2),
    ensures
        ({
            let n3 = node_expire_spec(c2.nodes[primary_of(c2, k) as int], now3);
            &&& n3.store.dom().contains(k)
            &&& n3.store[k].0 == v2
            &&& lookup_result_spec(n3, k, now3) == Some(v2)
        }),
{
    lemma_routing_in_bounds(c1, k);
    let p = primary_of(c1, k) as int;
    assert(replicas_of(c2, k) == replicas_of(c1, k));
    assert(replicas_of(c1, k) == replicas_of(c0, k));
    assert(c2.nodes[p] == node_insert_spec(c1.nodes[p], k, v2, expiry_of(now2, Some(ttl2))));
    let n2 = c2.nodes[p];
    assert(n2.queue[k] == expiry_at(now2, ttl2));
    assert(n2.store[k] == (v2, expiry_of(now2, Some(ttl2))));
    assert(!expired_keys(n2, now3).contains(k));
    let n3 = node_expire_spec(n2, now3);
    assert(n3.store.dom().contains(k));
    assert(n3.store[k] == n2.store[k]);
    assert(!entry_expired(n3.store[k], now3));
}

/// Replica convergence, storing side: once a SET's operation reached a
/// replica's mailbox (it was not full), draining that mailbox at any
/// later instant leaves the replica's store holding the key with the
/// written value.
pub proof fn lemma_replica_convergence(
    c0: ClusterView,
    c1: ClusterView,
    k: Seq<char>,
    v: Seq<u8>,
    ttl: Option<u64>,
    now: u64,
    rejected: Seq<usize>,
    j: int,
    now2: u64,
)
    requires
        cluster_wf(c0),
        c0.ring.len() > 0,
        set_rel(c0, c1, k, v, ttl, now, rejected),
        1 <= j < replicas_of(c0, k).len(),
        !rejected.contains(replicas_of(c0, k)[j]),
    ensures
        ({
            let drained = node_drain_spec(c1.nodes[replicas_of(c0, k)[j] as int], now2);
            &&& drained.store.dom().contains(k)
            &&& drained.store[k] == (v, expiry_of(now2, ttl))
            &&& drained.mailbox.len() == 0
        }),
{
    let rs = replicas_of(c0, k);
    let i = rs[j] as int;
    lemma_routing_in_bounds(c0, k);
    lemma_not_rejected_not_full(c0, rs, j, rejected);
    assert(c1.nodes[rs[j] as int] == node_enqueue_spec(
        c0.nodes[i],
        OpView::Put(k, v, ttl),
    ));
    assert(c1.nodes[i].mailbox.last() == OpView::Put(k, v, ttl));
    lemma_drain_last_set(c1.nodes[i], now2, k, v, ttl);
}

/// Replica convergence, deleting side: once a DEL's operation reached a
/// replica's mailbox, draining that mailbox leaves the replica's store
/// without the key.
pub proof fn lemma_replica_convergence_del(
    c0: ClusterView,
    c1: ClusterView,
    k: Seq<char>,
    rejected: Seq<usize>,
    j: int,
    now2: u64,
)
    requires
        cluster_wf(c0),
        c0.ring.len() > 0,
        del_rel(c0, c1, k, rejected),
        1 <= j < replicas_of(c0, k).len(),
        !rejected.contains(replicas_of(c0, k)[j]),
    ensures
        !node_drain_spec(c1.nodes[replicas_of(c0, k)[j] as int], now2).store.dom().contains(k),
        node_drain_spec(c1.nodes[replicas_of(c0, k)[j] as int], now2).mailbox.len() == 0,
{
    let rs = replicas_of(c0, k);
    let i = rs[j] as int;
    lemma_routing_in_bounds(c0, k);
    lemma_not_rejected_not_full(c0, rs, j, rejected);
    assert(c1.nodes[rs[j] as int] == node_enqueue_spec(c0.nodes[i], OpView::Del(k)));
    assert(c1.nodes[i].mailbox.last() == OpView::Del(k));
    lemma_drain_last_del(c1.nodes[i], now2, k);
}

/// A replica outside the rejected list had room in its mailbox: every
/// full replica is listed.
proof fn lemma_not_rejected_not_full(
    c0: ClusterView,
    rs: Seq<usize>,
    j: int,
    rejected: Seq<usize>,
)
    requires
        1 <= j < rs.len(),
        rejected == full_replicas(c0, rs),
        !rejected.contains(rs[j]),
    ensures
        c0.nodes[rs[j] as int].mailbox.len() < MAILBOX_CAPACITY,
{
    let pred = mailbox_full_pred(c0);
    if c0.nodes[rs[j] as int].mailbox.len() >= MAILBOX_CAPACITY {
        rs.drop_first().filter_lemma(pred);
        assert(rs.drop_first()[j - 1] == rs[j]);
        assert(pred(rs.drop_first()[j - 1]));
        assert(rejected.contains(rs[j]));
    }
}

} // verus!
