//! The cluster coordinator: the public surface of the store.  SET applies
//! the write inline on the primary and enqueues it to each replica's
//! mailbox; GET consults the primary alone; DEL mirrors SET.  Nodes are
//! appended by `add_node`, which also places their virtual nodes on the
//! ring; keys are never migrated when a node arrives.

use vstd::prelude::*;

verus! {

use crate::hash::{key_coord, vnode_coord};
use crate::hash::{key_coord_exec, vnode_coord_exec};
use crate::ring::{
    Ring,
    ring_sorted,
    ring_in_bounds,
    ring_has_value,
    ring_insert_spec,
    replica_set_spec,
    node_values,
    lemma_replica_set_size,
};
use crate::node::{
    KVNode,
    KVOperation,
    OpView,
    NodeView,
    node_wf,
    node_empty_view,
    node_insert_spec,
    node_remove_spec,
    node_enqueue_spec,
    node_drain_spec,
    node_expire_spec,
    lookup_result_spec,
    lookup_state_spec,
    expiry_of,
    MAILBOX_CAPACITY,
};

/// The one failure the coordinator surfaces: an operation routed before
/// any node was added.
#[derive(Debug)]
pub enum KVError {
    EmptyRing,
}

/// The mathematical form of the cluster: the nodes in insertion order, the
/// ring sorted by coordinate, and the two fixed parameters.
pub struct ClusterView {
    pub nodes: Seq<NodeView>,
    pub ring: Seq<(u32, usize)>,
    pub vnodes: nat,
    pub replication: nat,
}

/// A cluster is well formed when the ring is sorted, every ring entry
/// addresses an existing node, every node is well formed, and both fixed
/// parameters are positive.
pub open spec fn cluster_wf(c: ClusterView) -> bool {
    &&& ring_sorted(c.ring)
    &&& ring_in_bounds(c.ring, c.nodes.len() as int)
    &&& (forall|i: int| 0 <= i < c.nodes.len() ==> node_wf(#[trigger] c.nodes[i]))
    &&& c.vnodes >= 1
    &&& c.replication >= 1
}

/// A fresh cluster with no nodes.
pub open spec fn cluster_empty_view(v: nat, r: nat) -> ClusterView {
    ClusterView { nodes: Seq::empty(), ring: Seq::empty(), vnodes: v, replication: r }
}

/// The replica set of a key: the first distinct node indices met on the
/// clockwise ring walk from the key's coordinate, the primary first.
pub open spec fn replicas_of(c: ClusterView, k: Seq<char>) -> Seq<usize> {
    replica_set_spec(c.ring, key_coord(k), c.replication)
}

/// The primary of a key.
pub open spec fn primary_of(c: ClusterView, k: Seq<char>) -> usize {
    replicas_of(c, k)[0]
}

/// The ring after one node's virtual nodes are placed: coordinate
/// `vnode_coord(id, i)` bound to `idx` for each `i` below `v`, in order.
pub open spec fn ring_add_spec(s: Seq<(u32, usize)>, id: Seq<char>, v: nat, idx: usize) -> Seq<
    (u32, usize),
>
    decreases v,
{
    if v == 0 {
        s
    } else {
        ring_insert_spec(ring_add_spec(s, id, (v - 1) as nat, idx), vnode_coord(id, (v - 1) as nat), idx)
    }
}

/// Once any node's virtual nodes are placed, the ring is nonempty, so
/// every later operation routes instead of failing.
pub proof fn lemma_ring_add_nonempty(s: Seq<(u32, usize)>, id: Seq<char>, v: nat, idx: usize)
    requires
        v >= 1,
    ensures
        ring_add_spec(s, id, v, idx).len() >= 1,
{
    crate::ring::lemma_ring_insert_nonempty(
        ring_add_spec(s, id, (v - 1) as nat, idx),
        vnode_coord(id, (v - 1) as nat),
        idx,
    );
}

/// Holds of a node index whose mailbox stands at capacity in `c`.
pub open spec fn mailbox_full_pred(c: ClusterView) -> spec_fn(usize) -> bool {
    |i: usize| c.nodes[i as int].mailbox.len() >= MAILBOX_CAPACITY
}

/// The replicas of `rs` (all but the primary) whose mailbox stands at
/// capacity in `c`, in walk order: the sends the coordinator could not
/// deliver and hands back for the caller to retry.
pub open spec fn full_replicas(c: ClusterView, rs: Seq<usize>) -> Seq<usize> {
    rs.drop_first().filter(mailbox_full_pred(c))
}

/// How one SET relates the cluster before (`c0`) to the cluster after
/// (`c1`): the routing is unchanged, the primary holds the new entry, each
/// replica's mailbox took the operation unless it stood at capacity, every
/// other node is untouched, and `rejected` lists exactly the full replicas.
pub open spec fn set_rel(
    c0: ClusterView,
    c1: ClusterView,
    k: Seq<char>,
    v: Seq<u8>,
    ttl: Option<u64>,
    now: u64,
    rejected: Seq<usize>,
) -> bool {
    let rs = replicas_of(c0, k);
    let p = rs[0] as int;
    let op = OpView::Put(k, v, ttl);
    &&& c1.ring == c0.ring
    &&& c1.vnodes == c0.vnodes
    &&& c1.replication == c0.replication
    &&& c1.nodes.len() == c0.nodes.len()
    &&& c1.nodes[p] == node_insert_spec(c0.nodes[p], k, v, expiry_of(now, ttl))
    &&& (forall|j: int|
        1 <= j < rs.len() ==> c1.nodes[#[trigger] rs[j] as int] == (
        if c0.nodes[rs[j] as int].mailbox.len() < MAILBOX_CAPACITY {
            node_enqueue_spec(c0.nodes[rs[j] as int], op)
        } else {
            c0.nodes[rs[j] as int]
        }))
    &&& (forall|i: int|
        0 <= i < c0.nodes.len() && i != p && !rs.drop_first().contains(i as usize)
            ==> #[trigger] c1.nodes[i] == c0.nodes[i])
    &&& rejected == full_replicas(c0, rs)
}

/// How one DEL relates the cluster before to the cluster after: as a SET,
/// with the entry removed on the primary and the delete operation mailed
/// to the replicas.
pub open spec fn del_rel(
    c0: ClusterView,
    c1: ClusterView,
    k: Seq<char>,
    rejected: Seq<usize>,
) -> bool {
    let rs = replicas_of(c0, k);
    let p = rs[0] as int;
    let op = OpView::Del(k);
    &&& c1.ring == c0.ring
    &&& c1.vnodes == c0.vnodes
    &&& c1.replication == c0.replication
    &&& c1.nodes.len() == c0.nodes.len()
    &&& c1.nodes[p] == node_remove_spec(c0.nodes[p], k)
    &&& (forall|j: int|
        1 <= j < rs.len() ==> c1.nodes[#[trigger] rs[j] as int] == (
        if c0.nodes[rs[j] as int].mailbox.len() < MAILBOX_CAPACITY {
            node_enqueue_spec(c0.nodes[rs[j] as int], op)
        } else {
            c0.nodes[rs[j] as int]
        }))
    &&& (forall|i: int|
        0 <= i < c0.nodes.len() && i != p && !rs.drop_first().contains(i as usize)
            ==> #[trigger] c1.nodes[i] == c0.nodes[i])
    &&& rejected == full_replicas(c0, rs)
}

fn node_mut(nodes: &mut Vec<KVNode>, i: usize) -> (r: &mut KVNode)
    requires
        i < old(nodes)@.len(),
    ensures
        *r == old(nodes)@[i as int],
        final(nodes)@ == old(nodes)@.update(i as int, *final(r)),
{
    &mut nodes[i]
}

fn clone_value(v: &Vec<u8>) -> (r: Vec<u8>)
    ensures
        r@ == v@,
{
    let mut out: Vec<u8> = Vec::new();
    let mut i: usize = 0;
    while i < v.len()
        invariant
            0 <= i <= v@.len(),
            out@ == v@.take(i as int),
        decreases v@.len() - i,
    {
        out.push(v[i]);
        proof {
            assert(out@ =~= v@.take(i as int + 1));
        }
        i += 1;
    }
    proof {
        assert(out@ =~= v@);
    }
    out
}

/// The cluster: an append-only list of nodes, the consistent-hash ring of
/// their virtual nodes, and the two fixed parameters `V` (virtual nodes
/// per node) and `R` (replication factor).
pub struct KVCluster {
    nodes: Vec<KVNode>,
    ring: Ring,
    vnodes_per_node: usize,
    replication_factor: usize,
}

impl View for KVCluster {
    type V = ClusterView;

    closed spec fn view(&self) -> ClusterView {
        ClusterView {
            nodes: self.nodes@.map_values(|n: KVNode| n@),
            ring: self.ring@,
            vnodes: self.vnodes_per_node as nat,
            replication: self.replication_factor as nat,
        }
    }
}

impl KVCluster {
    /// A fresh, empty cluster with `vnodes_per_node` virtual nodes per
    /// physical node and replication factor `replication_factor`.
    pub fn new(vnodes_per_node: usize, replication_factor: usize) -> (c: KVCluster)
        requires
            vnodes_per_node >= 1,
            replication_factor >= 1,
        ensures
            c@ == cluster_empty_view(vnodes_per_node as nat, replication_factor as nat),
            cluster_wf(c@),
    {
        let c = KVCluster {
            nodes: Vec::new(),
            ring: Ring::new(),
            vnodes_per_node,
            replication_factor,
        };
        proof {
            assert(c@.nodes =~= Seq::<NodeView>::empty());
            assert(c@ == cluster_empty_view(vnodes_per_node as nat, replication_factor as nat));
        }
        c
    }

    pub fn node_count(&self) -> (r: usize)
        ensures
            r == self@.nodes.len(),
    {
        self.nodes.len()
    }

    /// Installs a new node: appends it to the node list (its index is the
    /// prior length) and places its `V` virtual nodes on the ring.  Keys
    /// already stored elsewhere are not migrated.
    pub fn add_node(&mut self, node_id: String)
        requires
            cluster_wf(old(self)@),
            node_id@.len() > 0,
            old(self)@.nodes.len() < usize::MAX,
        ensures
            cluster_wf(final(self)@),
            final(self)@.nodes == old(self)@.nodes.push(node_empty_view(node_id@)),
            final(self)@.ring == ring_add_spec(
                old(self)@.ring,
                node_id@,
                old(self)@.vnodes,
                old(self)@.nodes.len() as usize,
            ),
            final(self)@.vnodes == old(self)@.vnodes,
            final(self)@.replication == old(self)@.replication,
    {
        let ghost c0 = self@;
        let idx = self.nodes.len();
        let node = KVNode::new(node_id.clone());
        self.nodes.push(node);
        proof {
            assert(self@.nodes =~= c0.nodes.push(node_empty_view(node_id@)));
            assert(ring_in_bounds(self@.ring, self@.nodes.len() as int));
        }
        let vcount = self.vnodes_per_node;
        let mut i: usize = 0;
        while i < vcount
            invariant
                vcount == c0.vnodes,
                idx as int == c0.nodes.len(),
                self@.nodes == c0.nodes.push(node_empty_view(node_id@)),
                self@.vnodes == c0.vnodes,
                self@.replication == c0.replication,
                0 <= i <= vcount,
                self@.ring == ring_add_spec(c0.ring, node_id@, i as nat, idx),
                ring_sorted(self@.ring),
                ring_in_bounds(self@.ring, self@.nodes.len() as int),
            decreases vcount - i,
        {
            let ghost ringpre = self@.ring;
            let c = vnode_coord_exec(node_id.as_str(), i);
            self.ring.insert(c, idx);
            proof {
                assert(self@.ring == ring_insert_spec(ringpre, vnode_coord(node_id@, i as nat), idx));
                assert(self@.ring == ring_add_spec(c0.ring, node_id@, (i + 1) as nat, idx));
                assert forall|j: int| 0 <= j < self@.ring.len() implies self@.ring[j].1
                    < self@.nodes.len() as int by {
                    assert(ring_has_value(self@.ring, self@.ring[j].1));
                }
            }
            i += 1;
        }
        proof {
            assert forall|i2: int| 0 <= i2 < self@.nodes.len() implies node_wf(
                #[trigger] self@.nodes[i2],
            ) by {
                if i2 < c0.nodes.len() {
                    assert(self@.nodes[i2] == c0.nodes[i2]);
                }
            }
        }
    }

    /// The replica set of a key: the node indices that own it, primary
    /// first.  Deterministic in the ring contents and the key; empty
    /// exactly when no node has been added.
    pub fn get_nodes(&self, key: &str) -> (rs: Vec<usize>)
        requires
            cluster_wf(self@),
        ensures
            rs@ == replicas_of(self@, key@),
            rs@.no_duplicates(),
            forall|j: int| 0 <= j < rs@.len() ==> rs@[j] < self@.nodes.len(),
            (rs@.len() == 0) <==> (self@.ring.len() == 0),
    {
        let coord = key_coord_exec(key);
        let rs = self.ring.replica_set(coord, self.replication_factor);
        proof {
            lemma_replica_set_size(self@.ring, coord, self@.replication);
            assert forall|j: int| 0 <= j < rs@.len() implies rs@[j] < self@.nodes.len() by {
                assert(ring_has_value(self@.ring, rs@[j]));
            }
            if self@.ring.len() == 0 {
                assert(node_values(self@.ring) =~= Set::<usize>::empty());
            } else {
                crate::ring::lemma_ring_nonempty_values(self@.ring);
            }
        }
        rs
    }

    /// Stores `value` under `key` with an optional TTL, at time `now`:
    /// inline on the primary, by mailbox on each replica.  Returns the
    /// replica indices whose mailbox stood at capacity (normally none) so
    /// the caller can exert back-pressure, or the empty-ring failure when
    /// no node has been added.
    pub fn set(&mut self, key: String, value: Vec<u8>, ttl: Option<u64>, now: u64) -> (r: Result<
        Vec<usize>,
        KVError,
    >)
        requires
            cluster_wf(old(self)@),
        ensures
            cluster_wf(final(self)@),
            (r is Err) <==> (old(self)@.ring.len() == 0),
            r is Err ==> final(self)@ == old(self)@,
            r matches Ok(rejected) ==> set_rel(
                old(self)@,
                final(self)@,
                key@,
                value@,
                ttl,
                now,
                rejected@,
            ),
    {
        let ghost c0 = self@;
        let rs = self.get_nodes(key.as_str());
        if rs.len() == 0 {
            return Err(KVError::EmptyRing);
        }
        let ghost rsv = rs@;
        let ghost op = OpView::Put(key@, value@, ttl);
        let p = rs[0];
        let expiry = match ttl {
            Some(t) => Some(crate::node::expiry_at_exec(now, t)),
            None => None,
        };
        proof {
            assert(node_wf(c0.nodes[p as int]));
        }
        let pn = node_mut(&mut self.nodes, p);
        pn.insert(key.clone(), clone_value(&value), expiry);
        proof {
            assert(self@.nodes =~= c0.nodes.update(
                p as int,
                node_insert_spec(c0.nodes[p as int], key@, value@, expiry_of(now, ttl)),
            ));
        }
        proof {
            reveal_filter_empty(rsv, c0);
        }
        let mut rejected: Vec<usize> = Vec::new();
        let mut j: usize = 1;
        while j < rs.len()
            invariant
                cluster_wf(c0),
                rs@ == rsv,
                rsv == replicas_of(c0, key@),
                rsv.no_duplicates(),
                forall|jj: int| 0 <= jj < rsv.len() ==> rsv[jj] < c0.nodes.len(),
                1 <= j <= rsv.len(),
                p == rsv[0],
                op == OpView::Put(key@, value@, ttl),
                self@.ring == c0.ring,
                self@.vnodes == c0.vnodes,
                self@.replication == c0.replication,
                self@.nodes.len() == c0.nodes.len(),
                self@.nodes[p as int] == node_insert_spec(
                    c0.nodes[p as int],
                    key@,
                    value@,
                    expiry_of(now, ttl),
                ),
                forall|jj: int|
                    1 <= jj < j ==> self@.nodes[#[trigger] rsv[jj] as int] == (
                    if c0.nodes[rsv[jj] as int].mailbox.len() < MAILBOX_CAPACITY {
                        node_enqueue_spec(c0.nodes[rsv[jj] as int], op)
                    } else {
                        c0.nodes[rsv[jj] as int]
                    }),
                forall|i: int|
                    0 <= i < c0.nodes.len() && i != p as int && !rsv.subrange(1, j as int).contains(
                        i as usize,
                    ) ==> #[trigger] self@.nodes[i] == c0.nodes[i],
                rejected@ == rsv.subrange(1, j as int).filter(mailbox_full_pred(c0)),
                forall|i: int| 0 <= i < self@.nodes.len() ==> node_wf(#[trigger] self@.nodes[i]),
            decreases rsv.len() - j,
        {
            let idx = rs[j];
            proof {
                assert(rsv[j as int] == idx);
                assert(idx != p) by {
                    assert(rsv[0] == p);
                }
                assert(!rsv.subrange(1, j as int).contains(idx)) by {
                    if rsv.subrange(1, j as int).contains(idx) {
                        let jj = choose|jj: int|
                            0 <= jj < j - 1 && rsv.subrange(1, j as int)[jj] == idx;
                        assert(rsv[jj + 1] == idx);
                    }
                }
                assert(self@.nodes[idx as int] == c0.nodes[idx as int]);
            }
            let ghost pre = self@.nodes;
            proof {
                assert(node_wf(self@.nodes[idx as int]));
            }
            let rn = node_mut(&mut self.nodes, idx);
            let ok = rn.enqueue(KVOperation::Put(key.clone(), clone_value(&value), ttl));
            if !ok {
                rejected.push(idx);
            }
            proof {
                assert(self@.nodes =~= pre.update(idx as int, self@.nodes[idx as int]));
                let taken = rsv.subrange(1, j as int + 1);
                assert(taken.drop_last() =~= rsv.subrange(1, j as int));
                assert(taken.last() == idx);
                reveal_filter_step(rsv, c0, j as int, idx);
                assert forall|i: int|
                    0 <= i < c0.nodes.len() && i != p as int && !rsv.subrange(
                        1,
                        j as int + 1,
                    ).contains(i as usize) implies #[trigger] self@.nodes[i] == c0.nodes[i] by {
                    assert(!rsv.subrange(1, j as int).contains(i as usize)) by {
                        if rsv.subrange(1, j as int).contains(i as usize) {
                            let jj = choose|jj: int|
                                0 <= jj < j - 1 && rsv.subrange(1, j as int)[jj] == i as usize;
                            assert(rsv.subrange(1, j as int + 1)[jj] == i as usize);
                        }
                    }
                }
            }
            j += 1;
        }
        proof {
            assert(rsv.subrange(1, rsv.len() as int) =~= rsv.drop_first());
        }
        Ok(rejected)
    }

    /// Reads `key` at time `now` from its primary alone.  Returns the
    /// value when the primary holds it unexpired; a read that observes a
    /// past expiry evicts the entry on the primary and reports absence.
    /// Fails only when no node has been added.
    pub fn get(&mut self, key: &str, now: u64) -> (r: Result<Option<Vec<u8>>, KVError>)
        requires
            cluster_wf(old(self)@),
        ensures
            cluster_wf(final(self)@),
            (r is Err) <==> (old(self)@.ring.len() == 0),
            r is Err ==> final(self)@ == old(self)@,
            r matches Ok(res) ==> ({
                let c0 = old(self)@;
                let p = primary_of(c0, key@) as int;
                &&& final(self)@.nodes == c0.nodes.update(
                    p,
                    lookup_state_spec(c0.nodes[p], key@, now),
                )
                &&& final(self)@.ring == c0.ring
                &&& final(self)@.vnodes == c0.vnodes
                &&& final(self)@.replication == c0.replication
                &&& (match res {
                    Some(v) => lookup_result_spec(c0.nodes[p], key@, now) == Some(v@),
                    None => lookup_result_spec(c0.nodes[p], key@, now) is None,
                })
            }),
    {
        let ghost c0 = self@;
        let rs = self.get_nodes(key);
        if rs.len() == 0 {
            return Err(KVError::EmptyRing);
        }
        let p = rs[0];
        proof {
            assert(node_wf(c0.nodes[p as int]));
        }
        let pn = node_mut(&mut self.nodes, p);
        let res = pn.lookup(key, now);
        proof {
            assert(self@.nodes =~= c0.nodes.update(
                p as int,
                lookup_state_spec(c0.nodes[p as int], key@, now),
            ));
            assert forall|i: int| 0 <= i < self@.nodes.len() implies node_wf(
                #[trigger] self@.nodes[i],
            ) by {
                if i != p as int {
                    assert(self@.nodes[i] == c0.nodes[i]);
                }
            }
        }
        Ok(res)
    }

    /// Removes `key` at its primary inline and mails the delete to each
    /// replica.  Returns the replica indices whose mailbox stood at
    /// capacity, or the empty-ring failure when no node has been added.
    pub fn del(&mut self, key: &str, now: u64) -> (r: Result<Vec<usize>, KVError>)
        requires
            cluster_wf(old(self)@),
        ensures
            cluster_wf(final(self)@),
            (r is Err) <==> (old(self)@.ring.len() == 0),
            r is Err ==> final(self)@ == old(self)@,
            r matches Ok(rejected) ==> del_rel(old(self)@, final(self)@, key@, rejected@),
    {
        let ghost c0 = self@;
        let rs = self.get_nodes(key);
        if rs.len() == 0 {
            return Err(KVError::EmptyRing);
        }
        let ghost rsv = rs@;
        let ghost op = OpView::Del(key@);
        let p = rs[0];
        proof {
            assert(node_wf(c0.nodes[p as int]));
        }
        let pn = node_mut(&mut self.nodes, p);
        pn.remove(key);
        proof {
            assert(self@.nodes =~= c0.nodes.update(
                p as int,
                node_remove_spec(c0.nodes[p as int], key@),
            ));
        }
        proof {
            reveal_filter_empty(rsv, c0);
        }
        let mut rejected: Vec<usize> = Vec::new();
        let mut j: usize = 1;
        while j < rs.len()
            invariant
                cluster_wf(c0),
                rs@ == rsv,
                rsv == replicas_of(c0, key@),
                rsv.no_duplicates(),
                forall|jj: int| 0 <= jj < rsv.len() ==> rsv[jj] < c0.nodes.len(),
                1 <= j <= rsv.len(),
                p == rsv[0],
                op == OpView::Del(key@),
                self@.ring == c0.ring,
                self@.vnodes == c0.vnodes,
                self@.replication == c0.replication,
                self@.nodes.len() == c0.nodes.len(),
                self@.nodes[p as int] == node_remove_spec(c0.nodes[p as int], key@),
                forall|jj: int|
                    1 <= jj < j ==> self@.nodes[#[trigger] rsv[jj] as int] == (
                    if c0.nodes[rsv[jj] as int].mailbox.len() < MAILBOX_CAPACITY {
                        node_enqueue_spec(c0.nodes[rsv[jj] as int], op)
                    } else {
                        c0.nodes[rsv[jj] as int]
                    }),
                forall|i: int|
                    0 <= i < c0.nodes.len() && i != p as int && !rsv.subrange(1, j as int).contains(
                        i as usize,
                    ) ==> #[trigger] self@.nodes[i] == c0.nodes[i],
                rejected@ == rsv.subrange(1, j as int).filter(mailbox_full_pred(c0)),
                forall|i: int| 0 <= i < self@.nodes.len() ==> node_wf(#[trigger] self@.nodes[i]),
            decreases rsv.len() - j,
        {
            let idx = rs[j];
            proof {
                assert(rsv[j as int] == idx);
                assert(idx != p) by {
                    assert(rsv[0] == p);
                }
                assert(!rsv.subrange(1, j as int).contains(idx)) by {
                    if rsv.subrange(1, j as int).contains(idx) {
                        let jj = choose|jj: int|
                            0 <= jj < j - 1 && rsv.subrange(1, j as int)[jj] == idx;
                        assert(rsv[jj + 1] == idx);
                    }
                }
                assert(self@.nodes[idx as int] == c0.nodes[idx as int]);
            }
            let ghost pre = self@.nodes;
            proof {
                assert(node_wf(self@.nodes[idx as int]));
            }
            let rn = node_mut(&mut self.nodes, idx);
            let ok = rn.enqueue(KVOperation::Del(key.to_string()));
            if !ok {
                rejected.push(idx);
            }
            proof {
                assert(self@.nodes =~= pre.update(idx as int, self@.nodes[idx as int]));
                let taken = rsv.subrange(1, j as int + 1);
                assert(taken.drop_last() =~= rsv.subrange(1, j as int));
                assert(taken.last() == idx);
                reveal_filter_step(rsv, c0, j as int, idx);
                assert forall|i: int|
                    0 <= i < c0.nodes.len() && i != p as int && !rsv.subrange(
                        1,
                        j as int + 1,
                    ).contains(i as usize) implies #[trigger] self@.nodes[i] == c0.nodes[i] by {
                    assert(!rsv.subrange(1, j as int).contains(i as usize)) by {
                        if rsv.subrange(1, j as int).contains(i as usize) {
                            let jj = choose|jj: int|
                                0 <= jj < j - 1 && rsv.subrange(1, j as int)[jj] == i as usize;
                            assert(rsv.subrange(1, j as int + 1)[jj] == i as usize);
                        }
                    }
                }
            }
            j += 1;
        }
        proof {
            assert(rsv.subrange(1, rsv.len() as int) =~= rsv.drop_first());
        }
        Ok(rejected)
    }

    /// Applies every operation waiting in node `i`'s mailbox, oldest
    /// first, at time `now`: the drain task's work, exposed as a step the
    /// host runtime calls.
    pub fn drain_node(&mut self, i: usize, now: u64)
        requires
            cluster_wf(old(self)@),
            i < old(self)@.nodes.len(),
        ensures
            cluster_wf(final(self)@),
            final(self)@.nodes == old(self)@.nodes.update(
                i as int,
                node_drain_spec(old(self)@.nodes[i as int], now),
            ),
            final(self)@.ring == old(self)@.ring,
            final(self)@.vnodes == old(self)@.vnodes,
            final(self)@.replication == old(self)@.replication,
    {
        let ghost c0 = self@;
        proof {
            assert(node_wf(c0.nodes[i as int]));
        }
        let n = node_mut(&mut self.nodes, i);
        n.drain_all(now);
        proof {
            assert(self@.nodes =~= c0.nodes.update(
                i as int,
                node_drain_spec(c0.nodes[i as int], now),
            ));
            assert forall|i2: int| 0 <= i2 < self@.nodes.len() implies node_wf(
                #[trigger] self@.nodes[i2],
            ) by {
                if i2 != i as int {
                    assert(self@.nodes[i2] == c0.nodes[i2]);
                }
            }
        }
    }

    /// Runs one eager expiry pass on node `i` at time `now`: every entry
    /// whose expiry is due leaves the node's store and queue.
    pub fn expire_node(&mut self, i: usize, now: u64)
        requires
            cluster_wf(old(self)@),
            i < old(self)@.nodes.len(),
        ensures
            cluster_wf(final(self)@),
            final(self)@.nodes == old(self)@.nodes.update(
                i as int,
                node_expire_spec(old(self)@.nodes[i as int], now),
            ),
            final(self)@.ring == old(self)@.ring,
            final(self)@.vnodes == old(self)@.vnodes,
            final(self)@.replication == old(self)@.replication,
    {
        let ghost c0 = self@;
        proof {
            assert(node_wf(c0.nodes[i as int]));
        }
        let n = node_mut(&mut self.nodes, i);
        n.expire_due(now);
        proof {
            assert(self@.nodes =~= c0.nodes.update(
                i as int,
                node_expire_spec(c0.nodes[i as int], now),
            ));
            assert forall|i2: int| 0 <= i2 < self@.nodes.len() implies node_wf(
                #[trigger] self@.nodes[i2],
            ) by {
                if i2 != i as int {
                    assert(self@.nodes[i2] == c0.nodes[i2]);
                }
            }
        }
    }

    /// Delivers one replication operation to node `i`'s mailbox, as a
    /// caller does when it retries a send the coordinator reported
    /// rejected; reports whether the mailbox had room.
    pub fn enqueue_op(&mut self, i: usize, op: KVOperation) -> (r: bool)
        requires
            cluster_wf(old(self)@),
            i < old(self)@.nodes.len(),
        ensures
            cluster_wf(final(self)@),
            r == (old(self)@.nodes[i as int].mailbox.len() < MAILBOX_CAPACITY),
            r ==> final(self)@.nodes == old(self)@.nodes.update(
                i as int,
                node_enqueue_spec(old(self)@.nodes[i as int], op@),
            ),
            !r ==> final(self)@ == old(self)@,
            final(self)@.ring == old(self)@.ring,
            final(self)@.vnodes == old(self)@.vnodes,
            final(self)@.replication == old(self)@.replication,
    {
        let ghost c0 = self@;
        proof {
            assert(node_wf(c0.nodes[i as int]));
        }
        let n = node_mut(&mut self.nodes, i);
        let ok = n.enqueue(op);
        proof {
            if ok {
                assert(self@.nodes =~= c0.nodes.update(
                    i as int,
                    node_enqueue_spec(c0.nodes[i as int], op@),
                ));
            } else {
                assert(self@.nodes =~= c0.nodes);
                assert(self@ == c0);
            }
            assert forall|i2: int| 0 <= i2 < self@.nodes.len() implies node_wf(
                #[trigger] self@.nodes[i2],
            ) by {
                if i2 != i as int {
                    assert(self@.nodes[i2] == c0.nodes[i2]);
                }
            }
        }
        ok
    }

    /// Reads node `i`'s store directly, ignoring expiry: the testing hook
    /// replica convergence is observed through.
    pub fn node_read(&self, i: usize, key: &str) -> (r: Option<Vec<u8>>)
        requires
            i < self@.nodes.len(),
        ensures
            match r {
                Some(v) => self@.nodes[i as int].store.dom().contains(key@)
                    && self@.nodes[i as int].store[key@].0 == v@,
                None => !self@.nodes[i as int].store.dom().contains(key@),
            },
    {
        self.nodes[i].read_raw(key)
    }

    /// How many operations wait in node `i`'s mailbox.
    pub fn node_mailbox_len(&self, i: usize) -> (r: usize)
        requires
            i < self@.nodes.len(),
        ensures
            r == self@.nodes[i as int].mailbox.len(),
    {
        self.nodes[i].mailbox_len()
    }
}

/// Filtering the replicas processed so far grows by the newest one
/// exactly when its mailbox stood at capacity.
proof fn reveal_filter_step(rsv: Seq<usize>, c0: ClusterView, j: int, idx: usize)
    requires
        1 <= j < rsv.len(),
        rsv[j] == idx,
    ensures
        rsv.subrange(1, j + 1).filter(mailbox_full_pred(c0)) == (if mailbox_full_pred(c0)(idx) {
            rsv.subrange(1, j).filter(mailbox_full_pred(c0)).push(idx)
        } else {
            rsv.subrange(1, j).filter(mailbox_full_pred(c0))
        }),
{
    let pred = mailbox_full_pred(c0);
    let taken = rsv.subrange(1, j + 1);
    assert(taken.drop_last() =~= rsv.subrange(1, j));
    assert(taken.last() == idx);
    reveal_with_fuel(Seq::filter, 2);
    assert(taken.filter(pred) == if pred(idx) {
        taken.drop_last().filter(pred).push(idx)
    } else {
        taken.drop_last().filter(pred)
    });
}

/// Filtering no replicas yields no rejections.
proof fn reveal_filter_empty(rsv: Seq<usize>, c0: ClusterView)
    requires
        rsv.len() >= 1,
    ensures
        rsv.subrange(1, 1).filter(mailbox_full_pred(c0)) == Seq::<usize>::empty(),
{
    assert(rsv.subrange(1, 1) =~= Seq::<usize>::empty());
    reveal_with_fuel(Seq::filter, 1);
    assert(rsv.subrange(1, 1).filter(mailbox_full_pred(c0)) =~= Seq::<usize>::empty());
}

} // verus!
