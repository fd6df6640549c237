//! Scenarios for cluster membership, health and failover.
use cassettedb::cluster::{
    ClusterConfig, ClusterManager, ClusterNode, ClusterStatus, HealthStatus, NodeInfo, NodeRole,
};
use cassettedb::error::CassetteError;
use cassettedb::raft::{RaftRole, RequestVoteResponse};

fn node_info(id: &str, addr: &str, role: NodeRole) -> NodeInfo {
    NodeInfo { id: id.to_string(), address: addr.to_string(), role, last_seen: 0 }
}

fn make_leader(node: &mut ClusterNode) {
    let me = node.local_id().clone();
    node.raft_mut().start_election();
    node.raft_mut().record_vote(me, RequestVoteResponse { term: 1, vote_granted: true });
}

#[test]
fn test_init_and_load_cluster() {
    let node = ClusterNode::init_cluster(
        "test-cluster".to_string(),
        "node-a".to_string(),
        "127.0.0.1:7001".to_string(),
        "/tmp/cluster-a".to_string(),
    );
    assert_eq!(node.local_id(), "node-a");

    let loaded = ClusterNode::load("node-a".to_string(), "/tmp/cluster-a".to_string(), node.config());
    assert_eq!(loaded.config().cluster_id, "test-cluster");
}

#[test]
fn test_add_remove_node() {
    let mut node = ClusterNode::init_cluster(
        "c".to_string(),
        "a".to_string(),
        "127.0.0.1:1".to_string(),
        "/tmp/cluster-c".to_string(),
    );
    node.raft_mut().start_election();
    node.raft_mut().record_vote("a".to_string(), RequestVoteResponse { term: 1, vote_granted: true });
    assert!(node.is_leader());

    node.add_node(node_info("b", "127.0.0.1:2", NodeRole::Secondary)).unwrap();
    assert!(node.config().find_node(&"b".to_string()).is_some());

    node.remove_node(&"b".to_string()).unwrap();
    assert!(node.config().find_node(&"b".to_string()).is_none());
}

#[test]
fn test_failover() {
    let mut node = ClusterNode::init_cluster(
        "c".to_string(),
        "a".to_string(),
        "127.0.0.1:1".to_string(),
        "/tmp/cluster-c".to_string(),
    );
    node.raft_mut().start_election();
    node.raft_mut().record_vote("a".to_string(), RequestVoteResponse { term: 1, vote_granted: true });
    assert!(node.is_leader());

    node.add_node(node_info("b", "127.0.0.1:2", NodeRole::Primary)).unwrap();

    node.perform_failover(&"b".to_string()).unwrap();
    let cfg = node.config();
    let a = cfg.find_node(&"a".to_string()).unwrap();
    assert_eq!(a.role, NodeRole::Primary);
}

#[test]
fn init_cluster_seeds_a_single_primary() {
    let node = ClusterNode::init_cluster("c".to_string(), "a".to_string(), "addr".to_string(), "d".to_string());
    let cfg = node.config();
    assert_eq!(cfg.nodes.len(), 1);
    assert_eq!(cfg.nodes[0].id, "a");
    assert_eq!(cfg.nodes[0].address, "addr");
    assert_eq!(cfg.nodes[0].role, NodeRole::Primary);
    assert!(cfg.failover_enabled);
    assert_eq!(cfg.health_check_interval_ms, 1000);
    assert_eq!(cfg.health_check_timeout_ms, 3000);
    assert!(node.raft().peers().is_empty());
    assert_eq!(cfg.primary().unwrap().id, "a");
}

#[test]
fn join_takes_other_nodes_as_sorted_unique_peers() {
    let mut cfg = ClusterConfig::new("c".to_string(), node_info("z", "1", NodeRole::Primary));
    cfg.nodes.push(node_info("b", "2", NodeRole::Secondary));
    cfg.nodes.push(node_info("me", "3", NodeRole::Secondary));
    cfg.nodes.push(node_info("b", "4", NodeRole::Observer));
    let node = ClusterNode::join_cluster("me".to_string(), "3".to_string(), "d".to_string(), cfg);
    assert_eq!(node.raft().peers(), &["b".to_string(), "z".to_string()]);
    assert_eq!(node.raft().current_term(), 0);
}

#[test]
fn config_membership_operations() {
    let mut cfg = ClusterConfig::new("c".to_string(), node_info("a", "1", NodeRole::Primary));
    cfg.add_node(node_info("b", "2", NodeRole::Observer));
    cfg.add_node(node_info("b", "9", NodeRole::Secondary));
    assert_eq!(cfg.nodes.len(), 2);
    assert_eq!(cfg.find_node(&"b".to_string()).unwrap().address, "2");
    let voting: Vec<String> = cfg.voting_nodes().iter().map(|n| n.id.clone()).collect();
    assert_eq!(voting, vec!["a".to_string()]);
    cfg.remove_node(&"a".to_string());
    assert!(cfg.primary().is_none());
    assert_eq!(cfg.nodes.len(), 1);
}

#[test]
fn only_the_leader_changes_membership() {
    let mut node = ClusterNode::init_cluster("c".to_string(), "a".to_string(), "x".to_string(), "d".to_string());
    let r = node.add_node(node_info("b", "y", NodeRole::Secondary));
    assert!(matches!(r, Err(CassetteError::Cluster(_))));
    let r = node.remove_node(&"a".to_string());
    assert!(matches!(r, Err(CassetteError::Cluster(_))));
    assert_eq!(node.config().nodes.len(), 1);
}

#[test]
fn adding_a_node_logs_a_command() {
    let mut node = ClusterNode::init_cluster("c".to_string(), "a".to_string(), "x".to_string(), "d".to_string());
    make_leader(&mut node);
    node.add_node(node_info("b", "y", NodeRole::Secondary)).unwrap();
    assert_eq!(node.raft().log().len(), 1);
    assert_eq!(node.raft().volatile().next_index.get("b"), Some(1));
    node.remove_node(&"b".to_string()).unwrap();
    assert_eq!(node.raft().log().len(), 2);
    assert_eq!(node.raft().volatile().next_index.get("b"), None);
}

#[test]
fn three_missed_heartbeats_make_a_peer_unhealthy() {
    let mut node = ClusterNode::init_cluster("c".to_string(), "a".to_string(), "x".to_string(), "d".to_string());
    node.record_missed_heartbeat(&"p".to_string());
    assert_eq!(node.health_snapshot(), vec![("p".to_string(), HealthStatus::Unknown)]);
    node.record_missed_heartbeat(&"p".to_string());
    assert_eq!(node.health_snapshot(), vec![("p".to_string(), HealthStatus::Unknown)]);
    node.record_missed_heartbeat(&"p".to_string());
    assert_eq!(node.health_snapshot(), vec![("p".to_string(), HealthStatus::Unhealthy)]);
    node.record_heartbeat(&"p".to_string());
    assert_eq!(node.health_snapshot(), vec![("p".to_string(), HealthStatus::Healthy)]);
}

#[test]
fn failover_needs_enabled_known_remote_primary() {
    let mut cfg = ClusterConfig::new("c".to_string(), node_info("p", "1", NodeRole::Primary));
    cfg.add_node(node_info("s", "2", NodeRole::Secondary));
    cfg.add_node(node_info("me", "3", NodeRole::Secondary));
    cfg.add_node(node_info("q", "4", NodeRole::Primary));
    let mut node = ClusterNode::join_cluster("me".to_string(), "3".to_string(), "d".to_string(), cfg);
    assert!(!node.should_failover(&"s".to_string()));
    assert!(!node.should_failover(&"ghost".to_string()));
    assert!(node.should_failover(&"p".to_string()));
    assert!(node.should_failover_after(&"p".to_string(), 0));
    let r = node.perform_failover(&"s".to_string());
    assert!(matches!(r, Err(CassetteError::Cluster(_))));
    node.perform_failover(&"p".to_string()).unwrap();
    let cfg = node.config();
    // The failed node leaves the configuration; the others stay, in order.
    assert!(cfg.find_node(&"p".to_string()).is_none());
    assert_eq!(cfg.find_node(&"me".to_string()).unwrap().role, NodeRole::Primary);
    assert_eq!(cfg.find_node(&"s".to_string()).unwrap().role, NodeRole::Secondary);
    let ids: Vec<&str> = cfg.nodes.iter().map(|n| n.id.as_str()).collect();
    assert_eq!(ids, vec!["s", "me", "q"]);
    // Within the cool-down, a second failover is refused; after it, allowed.
    assert!(!node.should_failover_after(&"me".to_string(), 0));
    assert!(!node.should_failover_after(&"p".to_string(), 5_000_000_000));
    assert!(!node.should_failover_after(&"q".to_string(), 4_999_999_999));
    assert!(node.should_failover_after(&"q".to_string(), 5_000_000_000));
}

#[test]
fn failover_is_refused_when_disabled() {
    let cfg = ClusterConfig::new("c".to_string(), node_info("p", "1", NodeRole::Primary));
    let mut mgr = ClusterManager::join("me".to_string(), "2".to_string(), "d".to_string(), cfg);
    mgr.set_failover_enabled(false);
    assert!(mgr.failover(&"p".to_string()).is_err());
    mgr.set_failover_enabled(true);
    assert!(mgr.failover(&"p".to_string()).is_ok());
}

#[test]
fn status_reports_health_by_name() {
    let mut mgr = ClusterManager::init("cid".to_string(), "a".to_string(), "x".to_string(), "d".to_string());
    mgr.node_mut().record_heartbeat(&"b".to_string());
    mgr.node_mut().record_missed_heartbeat(&"c".to_string());
    let st: ClusterStatus = mgr.status();
    assert_eq!(st.cluster_id, "cid");
    assert_eq!(st.local_id, "a");
    assert_eq!(st.leader_id, None);
    assert_eq!(st.role, RaftRole::Follower);
    assert_eq!(st.nodes.len(), 1);
    assert_eq!(
        st.health,
        vec![("b".to_string(), "healthy".to_string()), ("c".to_string(), "unknown".to_string())]
    );
    assert!(st.failover_enabled);
    let raw = mgr.node().status_raw();
    assert_eq!(raw.health, vec![("b".to_string(), HealthStatus::Healthy), ("c".to_string(), HealthStatus::Unknown)]);
}

#[test]
fn leader_tick_marks_peers_healthy() {
    let mut cfg = ClusterConfig::new("c".to_string(), node_info("a", "1", NodeRole::Primary));
    cfg.add_node(node_info("b", "2", NodeRole::Secondary));
    let mut node = ClusterNode::join_cluster("a".to_string(), "1".to_string(), "d".to_string(), cfg);
    assert!(node.tick_with(true));
    assert!(node.is_leader());
    assert!(!node.tick_with(false));
    assert_eq!(node.health_snapshot(), vec![("b".to_string(), HealthStatus::Healthy)]);
}

#[test]
fn follower_tick_without_timeout_does_nothing() {
    let mut node = ClusterNode::init_cluster("c".to_string(), "a".to_string(), "x".to_string(), "d".to_string());
    assert!(!node.tick_with(false));
    assert_eq!(node.raft().current_term(), 0);
    // With no peers an election starts but cannot be won by the tick.
    assert!(!node.tick_with(true));
    assert_eq!(node.raft().current_term(), 1);
    assert_eq!(node.raft().role(), RaftRole::Candidate);
}

#[test]
fn health_status_names() {
    assert_eq!(HealthStatus::Healthy.name(), "healthy");
    assert_eq!(HealthStatus::Unhealthy.name(), "unhealthy");
    assert_eq!(HealthStatus::Unknown.name(), "unknown");
}

#[test]
fn a_heartbeat_at_an_instant_makes_the_peer_healthy() {
    let mut node = ClusterNode::init_cluster("c".to_string(), "a".to_string(), "x".to_string(), "d".to_string());
    node.record_missed_heartbeat(&"p".to_string());
    node.record_missed_heartbeat(&"p".to_string());
    node.record_missed_heartbeat(&"p".to_string());
    node.record_heartbeat(&"q".to_string());
    assert_eq!(
        node.health_snapshot(),
        vec![("p".to_string(), HealthStatus::Unhealthy), ("q".to_string(), HealthStatus::Healthy)]
    );
    node.record_heartbeat_at(&"p".to_string(), std::time::Instant::now());
    assert_eq!(
        node.health_snapshot(),
        vec![("p".to_string(), HealthStatus::Healthy), ("q".to_string(), HealthStatus::Healthy)]
    );
    let at = std::time::Instant::now();
    node.record_missed_heartbeat_at(&"r".to_string(), at);
    node.record_missed_heartbeat_at(&"r".to_string(), at);
    assert_eq!(node.health_snapshot()[2], ("r".to_string(), HealthStatus::Unknown));
    node.record_missed_heartbeat_at(&"r".to_string(), at);
    assert_eq!(node.health_snapshot()[2], ("r".to_string(), HealthStatus::Unhealthy));
}

#[test]
fn a_due_election_wins_with_a_quorum_of_distinct_peers() {
    let mut cfg = ClusterConfig::new("c".to_string(), node_info("a", "1", NodeRole::Primary));
    cfg.add_node(node_info("b", "2", NodeRole::Secondary));
    cfg.add_node(node_info("c", "3", NodeRole::Secondary));
    cfg.add_node(node_info("d", "4", NodeRole::Secondary));
    let mut node = ClusterNode::join_cluster("a".to_string(), "1".to_string(), "d".to_string(), cfg);
    assert_eq!(node.raft().peers().len(), 3);
    // Quorum of four nodes is three: a, b and c suffice.
    assert!(node.tick_with(true));
    assert_eq!(node.raft().role(), RaftRole::Leader);
    assert_eq!(node.leader_id(), Some("a".to_string()));
    assert_eq!(node.raft().current_term(), 1);
}
