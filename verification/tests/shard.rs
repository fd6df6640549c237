//! Scenarios for shard allocation.
use cassettedb::document::Document;
use cassettedb::json::JsonValue;
use cassettedb::shard::{ShardAllocator, ShardMap};

#[test]
fn test_shard_allocation() {
    let nodes = vec!["a".to_string(), "b".to_string()];
    let map = ShardAllocator::allocate(4, &nodes);
    assert_eq!(map.shard_to_node.len(), 4);
    let nodes_assigned: Vec<_> = map.shard_to_node.values();
    assert_eq!(nodes_assigned[0], "a");
    assert_eq!(nodes_assigned[1], "b");
    assert_eq!(nodes_assigned[2], "a");
    assert_eq!(nodes_assigned[3], "b");
}

#[test]
fn test_reassign_failed_node() {
    let nodes = vec!["a".to_string(), "b".to_string(), "c".to_string()];
    let mut map = ShardAllocator::allocate(6, &nodes);
    let healthy = vec!["b".to_string(), "c".to_string()];
    ShardAllocator::reassign_failed_node(&mut map, "a", &healthy);
    for node_id in map.shard_to_node.values() {
        assert_ne!(node_id, "a");
    }
}

#[test]
fn shard_names_are_numbered_from_zero() {
    let nodes = vec!["x".to_string()];
    let map = ShardAllocator::allocate(3, &nodes);
    assert_eq!(map.shard_to_node.keys(), vec!["shard-0000".to_string(), "shard-0001".to_string(), "shard-0002".to_string()]);
    assert_eq!(map.node_for_shard(&"shard-0002".to_string()), Some(&"x".to_string()));
    assert_eq!(map.node_for_shard(&"shard-0003".to_string()), None);
}

#[test]
fn allocation_without_nodes_leaves_shards_unassigned() {
    let map = ShardAllocator::allocate(2, &[]);
    assert_eq!(map.shard_to_node.len(), 2);
    assert_eq!(map.node_for_shard(&"shard-0000".to_string()), None);
    assert_eq!(map.shard_to_node.get("shard-0000"), Some(&"".to_string()));
}

#[test]
fn reassignment_spreads_over_healthy_nodes_in_turn() {
    let nodes = vec!["a".to_string(), "b".to_string()];
    let mut map = ShardAllocator::allocate(4, &nodes);
    let healthy = vec!["c".to_string(), "d".to_string()];
    ShardAllocator::reassign_failed_node(&mut map, "a", &healthy);
    assert_eq!(map.shard_to_node.values(), vec!["c".to_string(), "b".to_string(), "d".to_string(), "b".to_string()]);
}

#[test]
fn reassignment_without_healthy_nodes_changes_nothing() {
    let nodes = vec!["a".to_string(), "b".to_string()];
    let mut map = ShardAllocator::allocate(2, &nodes);
    ShardAllocator::reassign_failed_node(&mut map, "a", &[]);
    assert_eq!(map.shard_to_node.values(), vec!["a".to_string(), "b".to_string()]);
}

#[test]
fn shard_map_add_remove() {
    let mut map = ShardMap::new(150);
    map.add_shard("s1".to_string(), Some("n1".to_string()));
    map.add_shard("s0".to_string(), None);
    assert_eq!(map.node_for_shard(&"s1".to_string()), Some(&"n1".to_string()));
    assert_eq!(map.shard_to_node.keys(), vec!["s0".to_string(), "s1".to_string()]);
    map.remove_shard(&"s1".to_string());
    assert_eq!(map.node_for_shard(&"s1".to_string()), None);
    assert_eq!(map.virtual_nodes, 150);
}

#[test]
fn default_shard_map_has_150_virtual_nodes() {
    let map = ShardMap::default();
    assert_eq!(map.virtual_nodes, 150);
    assert!(map.shard_to_node.is_empty());
}

#[test]
fn test_router_consistent() {
    let router = cassettedb::shard::ShardRouter::with_shards(
        vec!["s0".to_string(), "s1".to_string(), "s2".to_string()],
        "shards",
    )
    .unwrap();
    let shard1 = router.shard_for("doc-1");
    let shard2 = router.shard_for("doc-1");
    assert_eq!(shard1, shard2);
}

#[test]
fn test_router_crud() {
    let mut router = cassettedb::shard::ShardRouter::with_shards(
        vec!["s0".to_string(), "s1".to_string()],
        "shards",
    )
    .unwrap();

    let hello = |v: &str| cassettedb::json::JsonValue::Object(vec![("hello".to_string(), cassettedb::json::JsonValue::String(v.to_string()))]);
    let doc = cassettedb::document::Document::new(hello("world"));
    let id = router.insert(doc.clone()).unwrap();
    assert_eq!(router.doc_count(), 1);

    let got = router.get(&id).unwrap();
    assert!(cassettedb::json::json_eq(&got.data, &hello("world")));

    router.update(&id, hello("sharded")).unwrap();
    let got = router.get(&id).unwrap();
    assert!(matches!(got.data.get("hello"), Some(cassettedb::json::JsonValue::String(s)) if s == "sharded"));

    router.delete(&id).unwrap();
    assert_eq!(router.doc_count(), 0);
}

#[test]
fn routing_without_shards_fails() {
    let mut router = cassettedb::shard::ShardRouter::with_shards(vec![], "shards").unwrap();
    assert_eq!(router.shard_for("x"), None);
    let doc = cassettedb::document::Document::with_id("x".into(), cassettedb::json::JsonValue::Null);
    assert!(matches!(router.insert(doc), Err(cassettedb::error::CassetteError::Shard(m)) if m == "no shards available"));
    assert!(router.get("x").is_none());
}

#[test]
fn hashes_fold_the_halves() {
    let h = cassettedb::shard::hash_key("doc-1");
    assert_eq!(h, cassettedb::shard::hash_key("doc-1"));
    let router = cassettedb::shard::ShardRouter::with_shards(vec!["a".to_string()], "d").unwrap();
    assert_eq!(router.shard_for("anything"), Some("a".to_string()));
    assert_eq!(router.shard_ids(), vec!["a".to_string()]);
}

#[test]
fn rebalance_moves_documents_to_their_shard() {
    let mut router = cassettedb::shard::ShardRouter::with_shards(
        vec!["a".to_string(), "b".to_string()],
        "shards",
    )
    .unwrap();
    for i in 0..20 {
        router
            .insert_into("a", Document::with_id(format!("doc{}", i), JsonValue::Null))
            .unwrap();
    }
    let expected = (0..20)
        .filter(|i| router.shard_for(&format!("doc{}", i)) == Some("b".to_string()))
        .count();
    assert!(expected > 0 && expected < 20);
    let moved = router.rebalance("a", "b").unwrap();
    assert_eq!(moved, expected);
    assert_eq!(router.doc_count(), 20);
    for i in 0..20 {
        assert!(router.get(&format!("doc{}", i)).is_some());
    }
    // Nothing is left to move.
    assert_eq!(router.rebalance("a", "b").unwrap(), 0);
}

#[test]
fn rebalance_needs_an_open_source() {
    let mut router = cassettedb::shard::ShardRouter::with_shards(vec!["a".to_string()], "shards").unwrap();
    match router.rebalance("zzz", "a") {
        Err(cassettedb::error::CassetteError::Shard(m)) => assert_eq!(m, "source shard zzz does not exist"),
        other => panic!("unexpected {:?}", other),
    }
}

#[test]
fn rebalance_within_one_shard_keeps_every_document() {
    let mut router = cassettedb::shard::ShardRouter::with_shards(vec!["a".to_string()], "shards").unwrap();
    for i in 0..5 {
        router
            .insert_into("a", Document::with_id(format!("d{}", i), JsonValue::Null))
            .unwrap();
    }
    assert_eq!(router.rebalance("a", "a").unwrap(), 5);
    assert_eq!(router.doc_count(), 5);
    for i in 0..5 {
        assert!(router.get(&format!("d{}", i)).is_some());
    }
}

#[test]
fn reads_after_add_and_remove_shard() {
    let mut map = ShardMap::new(150);
    map.add_shard("s1".to_string(), Some("n1".to_string()));
    map.add_shard("s2".to_string(), Some(String::new()));
    map.add_shard("s3".to_string(), None);
    assert_eq!(map.node_for_shard(&"s1".to_string()), Some(&"n1".to_string()));
    assert_eq!(map.node_for_shard(&"s2".to_string()), None);
    assert_eq!(map.node_for_shard(&"s3".to_string()), None);
    // Adding again replaces the assignment; the others read as before.
    map.add_shard("s3".to_string(), Some("n3".to_string()));
    assert_eq!(map.node_for_shard(&"s3".to_string()), Some(&"n3".to_string()));
    assert_eq!(map.node_for_shard(&"s1".to_string()), Some(&"n1".to_string()));
    map.remove_shard(&"s1".to_string());
    assert_eq!(map.node_for_shard(&"s1".to_string()), None);
    assert_eq!(map.node_for_shard(&"s3".to_string()), Some(&"n3".to_string()));
}

#[test]
fn routed_writes_keep_the_shard_index_in_step() {
    let mut router = cassettedb::shard::ShardRouter::with_shards(vec!["s0".to_string()], "shards").unwrap();
    let text = |v: &str| JsonValue::Object(vec![("t".to_string(), JsonValue::String(v.to_string()))]);
    let id = router.insert(Document::new(text("hello world"))).unwrap();
    let found = |r: &cassettedb::shard::ShardRouter, term: &str| -> Vec<String> {
        r.engines()[0].1.search(term).iter().map(|d| d.id.clone()).collect()
    };
    assert_eq!(found(&router, "hello"), vec![id.clone()]);
    router.update(&id, text("goodbye")).unwrap();
    assert!(found(&router, "hello").is_empty());
    assert_eq!(found(&router, "goodbye"), vec![id.clone()]);
    router.delete(&id).unwrap();
    assert!(found(&router, "goodbye").is_empty());
}
