//! Routing properties: determinism, replica-set size, and the statistical
//! balance the virtual nodes are there for.

use volt::KVCluster;
use volt::SetRequest;

fn cluster_with(nodes: &[&str], vnodes: usize, replication: usize) -> KVCluster {
    let mut c = KVCluster::new(vnodes, replication);
    for id in nodes {
        c.add_node(id.to_string());
    }
    c
}

#[test]
fn routing_deterministic_across_builds() {
    let c1 = cluster_with(&["a", "b", "c"], 100, 2);
    let c2 = cluster_with(&["a", "b", "c"], 100, 2);
    for i in 0..50 {
        let key = format!("key{}", i);
        assert_eq!(c1.get_nodes(&key), c2.get_nodes(&key));
    }
}

#[test]
fn replica_set_sizes() {
    let few = cluster_with(&["a", "b"], 100, 3);
    assert_eq!(few.get_nodes("k").len(), 2);
    let many = cluster_with(&["a", "b", "c", "d", "e"], 100, 3);
    assert_eq!(many.get_nodes("k").len(), 3);
    let one = cluster_with(&["a"], 100, 2);
    assert_eq!(one.get_nodes("k").len(), 1);
}

#[test]
fn replica_sets_hold_distinct_nodes() {
    let c = cluster_with(&["a", "b", "c"], 100, 3);
    for i in 0..50 {
        let rs = c.get_nodes(&format!("key{}", i));
        assert_eq!(rs.len(), 3);
        assert!(rs[0] != rs[1] && rs[1] != rs[2] && rs[0] != rs[2]);
    }
}

#[test]
fn load_balance_four_nodes() {
    let c = cluster_with(&["a", "b", "c", "d"], 100, 2);
    let mut counts = [0usize; 4];
    for i in 0..10_000 {
        let primary = c.get_nodes(&format!("key{}", i))[0];
        counts[primary] += 1;
    }
    for (i, n) in counts.iter().enumerate() {
        assert!(
            (1875..=3125).contains(n),
            "node {} is primary for {} of 10000 keys",
            i,
            n
        );
    }
}

#[test]
fn ttl_seconds_turn_into_milliseconds() {
    let with_ttl = SetRequest { value: "v".to_string(), ttl_seconds: Some(2) };
    assert_eq!(with_ttl.ttl_millis(), Some(2000));
    let without = SetRequest { value: "v".to_string(), ttl_seconds: None };
    assert_eq!(without.ttl_millis(), None);
    let huge = SetRequest { value: "v".to_string(), ttl_seconds: Some(u64::MAX) };
    assert_eq!(huge.ttl_millis(), Some(u64::MAX));
}
