use ads_search::consistent_hash::{AddNodeError, ConsistentHashRing};

#[test]
fn test_create_empty_ring() {
    let ring = ConsistentHashRing::new();
    assert!(ring.is_empty());
    assert_eq!(ring.node_count(), 0);
    assert_eq!(ring.virtual_node_count(), 0);
}

#[test]
fn test_add_node() {
    let mut ring = ConsistentHashRing::new();
    assert!(ring.add_node("node1", 100).is_ok());
    assert_eq!(ring.node_count(), 1);
    assert_eq!(ring.virtual_node_count(), 100);

    let result = ring.add_node("node1", 100);
    assert!(result.is_err());
    assert!(matches!(result, Err(AddNodeError::NodeAlreadyExists(_))));
}

#[test]
fn test_reject_invalid_node_names() {
    let mut ring = ConsistentHashRing::new();

    let result = ring.add_node("server#1", 100);
    assert!(result.is_err());
    assert!(matches!(result, Err(AddNodeError::InvalidNodeName(_))));

    assert!(ring.add_node("server-1", 100).is_ok());
    assert!(ring.add_node("server_2", 100).is_ok());
    assert!(ring.add_node("server.3", 100).is_ok());
}

#[test]
fn test_remove_node() {
    let mut ring = ConsistentHashRing::new();
    ring.add_node("node1", 100).unwrap();
    assert!(ring.remove_node("node1"));
    assert!(ring.is_empty());

    assert!(!ring.remove_node("node2"));
}

#[test]
fn test_get_node() {
    let mut ring = ConsistentHashRing::new();
    ring.add_node("node1", 150).unwrap();
    ring.add_node("node2", 150).unwrap();
    ring.add_node("node3", 150).unwrap();

    let node = ring.get_node("test_key");
    assert!(node.is_some());
    assert!(["node1", "node2", "node3"].contains(&node.unwrap()));
}

#[test]
fn test_get_node_empty_ring() {
    let ring = ConsistentHashRing::new();
    assert!(ring.get_node("test_key").is_none());
}

#[test]
fn test_consistent_mapping() {
    let mut ring = ConsistentHashRing::new();
    ring.add_node("node1", 150).unwrap();
    ring.add_node("node2", 150).unwrap();

    let node1 = ring.get_node("test_key").unwrap();
    let node2 = ring.get_node("test_key").unwrap();
    assert_eq!(node1, node2);
}

#[test]
fn test_get_nodes_replicas() {
    let mut ring = ConsistentHashRing::new();
    ring.add_node("node1", 150).unwrap();
    ring.add_node("node2", 150).unwrap();
    ring.add_node("node3", 150).unwrap();

    let replicas = ring.get_nodes("test_key", 2);
    assert_eq!(replicas.len(), 2);
    assert_ne!(replicas[0], replicas[1]);
}

#[test]
fn test_get_nodes_all_replicas() {
    let mut ring = ConsistentHashRing::new();
    ring.add_node("node1", 50).unwrap();
    ring.add_node("node2", 50).unwrap();
    ring.add_node("node3", 50).unwrap();

    let replicas = ring.get_nodes("test_key", 3);
    assert_eq!(replicas.len(), 3);

    let unique: std::collections::HashSet<_> = replicas.iter().collect();
    assert_eq!(unique.len(), 3);
}

#[test]
fn test_with_nodes() {
    let nodes = vec!["node1", "node2", "node3"];
    let ring = ConsistentHashRing::with_nodes(&nodes, 100).unwrap();

    assert_eq!(ring.node_count(), 3);
    assert_eq!(ring.virtual_node_count(), 300);
}

#[test]
fn test_distribution() {
    let mut ring = ConsistentHashRing::new();
    ring.add_node("node1", 150).unwrap();
    ring.add_node("node2", 150).unwrap();
    ring.add_node("node3", 150).unwrap();

    let keys: Vec<String> = (0..1000).map(|i| format!("key{}", i)).collect();
    let distribution = ring.get_distribution(&keys);

    println!("Distribution: {:?}", distribution);

    assert_eq!(distribution.len(), 3);
    for (node, count) in distribution.iter() {
        println!(
            "{}: {} keys ({:.1}%)",
            node,
            count,
            (*count as f64 / 1000.0 * 100.0)
        );
    }

    let avg = 1000 / 3;
    for (_, count) in distribution.iter() {
        let diff = (*count as i32 - avg as i32).abs();
        let deviation = diff as f64 / avg as f64;
        assert!(
            deviation < 0.3,
            "Distribution too unbalanced: {}",
            deviation
        );
    }
}

#[test]
fn test_node_addition_minimal_disruption() {
    let mut ring = ConsistentHashRing::new();
    ring.add_node("node1", 150).unwrap();
    ring.add_node("node2", 150).unwrap();

    let keys: Vec<String> = (0..1000).map(|i| format!("key{}", i)).collect();
    let before: Vec<_> = keys
        .iter()
        .map(|k| ring.get_node(k).map(|s| s.to_string()))
        .collect();

    ring.add_node("node3", 150).unwrap();

    let after: Vec<_> = keys
        .iter()
        .map(|k| ring.get_node(k).map(|s| s.to_string()))
        .collect();

    let changed = before
        .iter()
        .zip(after.iter())
        .filter(|(b, a)| b != a)
        .count();

    let change_ratio = changed as f64 / keys.len() as f64;
    println!(
        "Changed: {} / {} ({:.1}%)",
        changed,
        keys.len(),
        change_ratio * 100.0
    );

    assert!(
        change_ratio < 0.5,
        "Too many keys changed: {:.1}%",
        change_ratio * 100.0
    );
}

#[test]
fn test_virtual_node_count() {
    let mut ring = ConsistentHashRing::new();
    ring.add_node("node1", 100).unwrap();
    ring.add_node("node2", 200).unwrap();

    assert_eq!(ring.get_virtual_node_count("node1"), Some(100));
    assert_eq!(ring.get_virtual_node_count("node2"), Some(200));
    assert_eq!(ring.get_virtual_node_count("node3"), None);
}

#[test]
fn test_zero_copy_get_node() {
    let mut ring = ConsistentHashRing::new();
    ring.add_node("node1", 100).unwrap();

    let node_ref = ring.get_node("test_key").unwrap();
    let _: &str = node_ref;
    let _node_owned: String = node_ref.to_string();
}

#[test]
fn moved_keys_only_go_to_the_new_node() {
    let mut ring = ConsistentHashRing::new();
    ring.add_node("node1", 150).unwrap();
    ring.add_node("node2", 150).unwrap();
    let keys: Vec<String> = (0..500).map(|i| format!("key{}", i)).collect();
    let before: Vec<String> = keys.iter().map(|k| ring.get_node(k).unwrap().to_string()).collect();
    ring.add_node("node3", 150).unwrap();
    for (k, b) in keys.iter().zip(before.iter()) {
        let a = ring.get_node(k).unwrap();
        assert!(a == b || a == "node3");
    }
}

#[test]
fn removing_a_node_keeps_other_keys_in_place() {
    let mut ring = ConsistentHashRing::new();
    ring.add_node("node1", 150).unwrap();
    ring.add_node("node2", 150).unwrap();
    ring.add_node("node3", 150).unwrap();
    let keys: Vec<String> = (0..500).map(|i| format!("key{}", i)).collect();
    let before: Vec<String> = keys.iter().map(|k| ring.get_node(k).unwrap().to_string()).collect();
    assert!(ring.remove_node("node2"));
    for (k, b) in keys.iter().zip(before.iter()) {
        let a = ring.get_node(k).unwrap();
        if b != "node2" {
            assert_eq!(a, b);
        } else {
            assert_ne!(a, "node2");
        }
    }
}

#[test]
fn invalid_name_error_message() {
    let mut ring = ConsistentHashRing::new();
    match ring.add_node("a#b", 3) {
        Err(e) => assert!(!e.to_string().is_empty()),
        Ok(()) => panic!("expected an error"),
    }
}

#[test]
fn with_nodes_reports_the_first_bad_name() {
    assert_eq!(
        ConsistentHashRing::with_nodes(&["a", "a"], 10).err(),
        Some(AddNodeError::NodeAlreadyExists("a".to_string()))
    );
    assert!(matches!(
        ConsistentHashRing::with_nodes(&["a", "b#1"], 10),
        Err(AddNodeError::InvalidNodeName(_))
    ));
    let ring = ConsistentHashRing::with_nodes(&["x", "y"], 7).unwrap();
    assert_eq!(ring.virtual_node_count(), 14);
}

#[test]
fn get_node_serves_from_a_node_with_virtual_nodes() {
    let empty = ConsistentHashRing::new();
    assert_eq!(empty.get_node("k"), None);
    let ring = ConsistentHashRing::with_nodes(&["n1", "n2"], 20).unwrap();
    for i in 0..50 {
        let key = format!("key-{}", i);
        let node = ring.get_node(&key).expect("served");
        assert!(ring.get_virtual_node_count(node).unwrap_or(0) > 0);
    }
}

#[test]
fn adding_then_removing_a_node_restores_routes() {
    let mut ring = ConsistentHashRing::with_nodes(&["n1", "n2", "n3"], 40).unwrap();
    let keys: Vec<String> = (0..200).map(|i| format!("k{}", i)).collect();
    let before: Vec<Option<String>> = keys.iter().map(|k| ring.get_node(k).map(|s| s.to_string())).collect();
    let count_before = ring.virtual_node_count();
    ring.add_node("n4", 40).unwrap();
    assert!(ring.remove_node("n4"));
    let after: Vec<Option<String>> = keys.iter().map(|k| ring.get_node(k).map(|s| s.to_string())).collect();
    assert_eq!(before, after);
    assert_eq!(ring.virtual_node_count(), count_before);
    assert_eq!(ring.get_virtual_node_count("n4"), None);
    assert!(!ring.remove_node("n4"));
}

#[test]
fn virtual_node_count_is_the_sum_of_node_counts() {
    let mut ring = ConsistentHashRing::new();
    ring.add_node("a", 5).unwrap();
    ring.add_node("b", 7).unwrap();
    ring.add_node("c", 11).unwrap();
    assert!(ring.remove_node("b"));
    let sum: usize = ring
        .get_all_nodes()
        .iter()
        .map(|n| ring.get_virtual_node_count(n).unwrap())
        .sum();
    assert_eq!(sum, 16);
    assert_eq!(ring.virtual_node_count(), sum);
}
