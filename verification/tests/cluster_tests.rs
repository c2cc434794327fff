//! End-to-end scenarios against the cluster, driven with explicit
//! millisecond timestamps: what a host would observe around sleeps is
//! observed here by advancing `now`.

use volt::KVCluster;
use volt::KVError;

fn cluster_with(nodes: &[&str], vnodes: usize, replication: usize) -> KVCluster {
    let mut c = KVCluster::new(vnodes, replication);
    for id in nodes {
        c.add_node(id.to_string());
    }
    c
}

#[test]
fn set_get_and_replicate() {
    let mut c = cluster_with(&["a", "b"], 100, 2);
    let rejected = c.set("k".to_string(), b"v".to_vec(), None, 0).unwrap();
    assert!(rejected.is_empty());
    assert_eq!(c.get("k", 0).unwrap(), Some(b"v".to_vec()));
    let rs = c.get_nodes("k");
    assert_eq!(rs.len(), 2);
    let primary = rs[0];
    let replica = rs[1];
    assert_eq!(c.node_read(primary, "k"), Some(b"v".to_vec()));
    assert_eq!(c.node_mailbox_len(replica), 1);
    c.drain_node(replica, 1);
    assert_eq!(c.node_read(replica, "k"), Some(b"v".to_vec()));
}

#[test]
fn single_node_cluster() {
    let mut c = cluster_with(&["a"], 100, 3);
    c.set("x".to_string(), b"1".to_vec(), None, 0).unwrap();
    assert_eq!(c.get("x", 0).unwrap(), Some(b"1".to_vec()));
    assert_eq!(c.get_nodes("x").len(), 1);
}

#[test]
fn ttl_expired_key_is_absent() {
    let mut c = cluster_with(&["a", "b"], 100, 2);
    c.set("t".to_string(), b"hot".to_vec(), Some(50), 0).unwrap();
    assert_eq!(c.get("t", 120).unwrap(), None);
}

#[test]
fn eager_expiry_removes_from_store() {
    let mut c = cluster_with(&["a", "b"], 100, 2);
    c.set("t".to_string(), b"hot".to_vec(), Some(50), 0).unwrap();
    let primary = c.get_nodes("t")[0];
    assert_eq!(c.node_read(primary, "t"), Some(b"hot".to_vec()));
    c.expire_node(primary, 120);
    assert_eq!(c.node_read(primary, "t"), None);
}

#[test]
fn ttl_upsert_keeps_later_expiry() {
    let mut c = cluster_with(&["a", "b"], 100, 2);
    c.set("t".to_string(), b"v1".to_vec(), Some(20), 0).unwrap();
    c.set("t".to_string(), b"v2".to_vec(), Some(10_000), 0).unwrap();
    let primary = c.get_nodes("t")[0];
    c.expire_node(primary, 60);
    assert_eq!(c.get("t", 60).unwrap(), Some(b"v2".to_vec()));
}

#[test]
fn delete_reaches_replica() {
    let mut c = cluster_with(&["a", "b"], 100, 2);
    c.set("k".to_string(), b"v".to_vec(), None, 0).unwrap();
    c.del("k", 1).unwrap();
    assert_eq!(c.get("k", 1).unwrap(), None);
    let rs = c.get_nodes("k");
    let replica = rs[1];
    c.drain_node(replica, 2);
    assert_eq!(c.node_read(replica, "k"), None);
}

#[test]
fn load_balance_five_nodes() {
    let mut c = cluster_with(&["n0", "n1", "n2", "n3", "n4"], 100, 3);
    let mut counts = [0usize; 5];
    for i in 0..10_000 {
        let key = format!("key{}", i);
        c.set(key.clone(), b"x".to_vec(), None, 0).unwrap();
        let primary = c.get_nodes(&key)[0];
        counts[primary] += 1;
    }
    for (i, n) in counts.iter().enumerate() {
        assert!(
            (1600..=2400).contains(n),
            "node {} owns {} of 10000 keys",
            i,
            n
        );
    }
}

#[test]
fn overwrite_returns_second_value() {
    let mut c = cluster_with(&["a", "b"], 100, 2);
    c.set("k".to_string(), b"v1".to_vec(), None, 0).unwrap();
    c.set("k".to_string(), b"v2".to_vec(), None, 0).unwrap();
    assert_eq!(c.get("k", 0).unwrap(), Some(b"v2".to_vec()));
}

#[test]
fn read_your_writes_before_expiry() {
    let mut c = cluster_with(&["a", "b"], 100, 2);
    c.set("k".to_string(), b"v".to_vec(), Some(1000), 0).unwrap();
    assert_eq!(c.get("k", 999).unwrap(), Some(b"v".to_vec()));
}

#[test]
fn lazy_expiry_evicts_without_expirer() {
    let mut c = cluster_with(&["a", "b"], 100, 2);
    c.set("k".to_string(), b"v".to_vec(), Some(50), 0).unwrap();
    let primary = c.get_nodes("k")[0];
    assert_eq!(c.get("k", 100).unwrap(), None);
    assert_eq!(c.node_read(primary, "k"), None);
}

#[test]
fn expirer_takes_earliest_expiry_first() {
    let mut c = cluster_with(&["a", "b"], 100, 2);
    let mut keys: Vec<String> = Vec::new();
    for i in 0..10 {
        keys.push(format!("k{}", i));
    }
    let shared_primary = c.get_nodes(&keys[0])[0];
    let other = keys
        .iter()
        .skip(1)
        .find(|k| c.get_nodes(k)[0] == shared_primary)
        .expect("two keys sharing a primary among ten")
        .clone();
    c.set(keys[0].clone(), b"soon".to_vec(), Some(50), 0).unwrap();
    c.set(other.clone(), b"late".to_vec(), Some(5000), 0).unwrap();
    c.expire_node(shared_primary, 100);
    assert_eq!(c.node_read(shared_primary, &keys[0]), None);
    assert_eq!(c.node_read(shared_primary, &other), Some(b"late".to_vec()));
}

#[test]
fn replica_applies_operations_in_order() {
    let mut c = cluster_with(&["a", "b"], 100, 2);
    c.set("k".to_string(), b"v1".to_vec(), None, 0).unwrap();
    c.set("k".to_string(), b"v2".to_vec(), None, 0).unwrap();
    let replica = c.get_nodes("k")[1];
    assert_eq!(c.node_mailbox_len(replica), 2);
    c.drain_node(replica, 1);
    assert_eq!(c.node_read(replica, "k"), Some(b"v2".to_vec()));
}

#[test]
fn mailbox_bound_reports_full_replica() {
    let mut c = cluster_with(&["a", "b"], 100, 2);
    let rs = c.get_nodes("k");
    let replica = rs[1];
    for i in 0..1000u32 {
        let rejected = c
            .set("k".to_string(), i.to_be_bytes().to_vec(), None, 0)
            .unwrap();
        assert!(rejected.is_empty());
    }
    assert_eq!(c.node_mailbox_len(replica), 1000);
    let rejected = c.set("k".to_string(), b"last".to_vec(), None, 0).unwrap();
    assert_eq!(rejected, vec![replica]);
    c.drain_node(replica, 1);
    assert_eq!(c.node_mailbox_len(replica), 0);
    assert_eq!(c.node_read(replica, "k"), Some(999u32.to_be_bytes().to_vec()));
}

#[test]
fn empty_cluster_surfaces_explicit_failure() {
    let mut c = KVCluster::new(100, 2);
    assert!(matches!(c.get("k", 0), Err(KVError::EmptyRing)));
    assert!(matches!(
        c.set("k".to_string(), b"v".to_vec(), None, 0),
        Err(KVError::EmptyRing)
    ));
    assert!(matches!(c.del("k", 0), Err(KVError::EmptyRing)));
}
