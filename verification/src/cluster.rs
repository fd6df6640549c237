//! Cluster management: node membership, health monitoring and failover, on
//! top of the Raft layer.
//!
//! Every operation here changes the node's state in memory; writing the
//! configuration to disk after a change is the caller's part.
use std::time::Instant;
use vstd::prelude::*;
use crate::assoc::{assoc_get, assoc_insert, assoc_insert_all, assoc_map, lemma_map_insert, KeyedTable};
use crate::error::CassetteError;
use crate::raft::{
    create_raft_node, insert_all, AppendEntriesRequest, AppendEntriesResponse, ClusterCommand,
    CommandView, NodeId, PersistentView, RaftNode, RaftNodeView, RaftRole, RequestVoteRequest,
    RequestVoteResponse, VolatileView,
};
use crate::seqs::{find_first, keep, lemma_find_at, lemma_find_none, lemma_keep_contains, lemma_keep_step};
use crate::text::{insert_sorted_unique, opt_view, str_eq, strictly_sorted, views};
use crate::time::{nanos_since, now, unix_timestamp};

verus! {

/// Role of a node in the cluster.
#[derive(Debug, Clone, Copy, PartialEq, Eq, Structural)]
pub enum NodeRole {
    /// Primary (leader) node.
    Primary,
    /// Secondary (follower) node.
    Secondary,
    /// Observer node: does not vote.
    Observer,
}

/// Configuration of one cluster node.
#[derive(Debug)]
pub struct NodeInfo {
    pub id: NodeId,
    pub address: String,
    pub role: NodeRole,
    pub last_seen: i64,
}

/// The plain value of a `NodeInfo`.
pub struct NodeInfoView {
    pub id: Seq<char>,
    pub address: Seq<char>,
    pub role: NodeRole,
    pub last_seen: i64,
}

impl View for NodeInfo {
    type V = NodeInfoView;

    open spec fn view(&self) -> NodeInfoView {
        NodeInfoView { id: self.id@, address: self.address@, role: self.role, last_seen: self.last_seen }
    }
}

impl Clone for NodeInfo {
    fn clone(&self) -> (r: Self)
        ensures
            r@ == self@,
    {
        NodeInfo {
            id: self.id.clone(),
            address: self.address.clone(),
            role: self.role,
            last_seen: self.last_seen,
        }
    }
}

/// The views of a sequence of node records.
pub open spec fn node_views(s: Seq<NodeInfo>) -> Seq<NodeInfoView> {
    s.map_values(|n: NodeInfo| n@)
}

/// A copy of each node record, in order.
fn clone_nodes(v: &Vec<NodeInfo>) -> (r: Vec<NodeInfo>)
    ensures
        node_views(r@) == node_views(v@),
{
    let mut out: Vec<NodeInfo> = Vec::new();
    let mut i: usize = 0;
    while i < v.len()
        invariant
            i <= v.len(),
            node_views(out@) == node_views(v@).subrange(0, i as int),
        decreases v.len() - i,
    {
        let n = v[i].clone();
        let ghost before = out@;
        out.push(n);
        assert(node_views(out@) =~= node_views(before).push(n@));
        i = i + 1;
        assert(node_views(out@) =~= node_views(v@).subrange(0, i as int));
    }
    assert(node_views(v@).subrange(0, i as int) =~= node_views(v@));
    out
}

/// Cluster-wide configuration, kept on every node.
#[derive(Debug)]
pub struct ClusterConfig {
    pub cluster_id: String,
    pub nodes: Vec<NodeInfo>,
    pub failover_enabled: bool,
    pub health_check_interval_ms: u64,
    pub health_check_timeout_ms: u64,
}

/// The plain value of a `ClusterConfig`.
pub struct ConfigView {
    pub cluster_id: Seq<char>,
    pub nodes: Seq<NodeInfoView>,
    pub failover_enabled: bool,
    pub health_check_interval_ms: u64,
    pub health_check_timeout_ms: u64,
}

impl View for ClusterConfig {
    type V = ConfigView;

    open spec fn view(&self) -> ConfigView {
        ConfigView {
            cluster_id: self.cluster_id@,
            nodes: node_views(self.nodes@),
            failover_enabled: self.failover_enabled,
            health_check_interval_ms: self.health_check_interval_ms,
            health_check_timeout_ms: self.health_check_timeout_ms,
        }
    }
}

impl Clone for ClusterConfig {
    fn clone(&self) -> (r: Self)
        ensures
            r@ == self@,
    {
        ClusterConfig {
            cluster_id: self.cluster_id.clone(),
            nodes: clone_nodes(&self.nodes),
            failover_enabled: self.failover_enabled,
            health_check_interval_ms: self.health_check_interval_ms,
            health_check_timeout_ms: self.health_check_timeout_ms,
        }
    }
}

/// The test that a node record has the given ID.
pub open spec fn has_id(id: Seq<char>) -> spec_fn(NodeInfoView) -> bool {
    |n: NodeInfoView| n.id == id
}

/// The test that a node record has another ID.
pub open spec fn lacks_id(id: Seq<char>) -> spec_fn(NodeInfoView) -> bool {
    |n: NodeInfoView| n.id != id
}

/// The test that a node votes (it is not an observer).
pub open spec fn votes() -> spec_fn(NodeInfoView) -> bool {
    |n: NodeInfoView| n.role != NodeRole::Observer
}

/// The test that a node is a primary.
pub open spec fn is_primary() -> spec_fn(NodeInfoView) -> bool {
    |n: NodeInfoView| n.role == NodeRole::Primary
}

/// The view of an optional node record.
pub open spec fn opt_node_view(o: Option<&NodeInfo>) -> Option<NodeInfoView> {
    match o {
        Some(n) => Some(n@),
        None => None,
    }
}

impl ClusterConfig {
    /// A configuration with the single seed node, failover on, health checks
    /// every second with a three-second timeout.
    pub fn new(cluster_id: String, seed: NodeInfo) -> (r: Self)
        ensures
            r@ == (ConfigView {
                cluster_id: cluster_id@,
                nodes: seq![seed@],
                failover_enabled: true,
                health_check_interval_ms: 1000,
                health_check_timeout_ms: 3000,
            }),
    {
        let ghost sv = seed@;
        let mut nodes: Vec<NodeInfo> = Vec::new();
        nodes.push(seed);
        let r = ClusterConfig {
            cluster_id,
            nodes,
            failover_enabled: true,
            health_check_interval_ms: 1000,
            health_check_timeout_ms: 3000,
        };
        assert(r@.nodes =~= seq![sv]);
        r
    }

    fn position_of(&self, id: &str) -> (r: Option<usize>)
        ensures
            match r {
                Some(i) => i < self@.nodes.len() && self@.nodes[i as int].id == id@ && forall|j: int|
                    0 <= j < i ==> #[trigger] self@.nodes[j].id != id@,
                None => forall|j: int| 0 <= j < self@.nodes.len() ==> #[trigger] self@.nodes[j].id != id@,
            },
    {
        let mut i: usize = 0;
        while i < self.nodes.len()
            invariant
                i <= self.nodes.len(),
                self@.nodes.len() == self.nodes@.len(),
                forall|j: int| 0 <= j < i ==> #[trigger] self@.nodes[j].id != id@,
            decreases self.nodes.len() - i,
        {
            assert(self@.nodes[i as int] == self.nodes@[i as int]@);
            if str_eq(self.nodes[i].id.as_str(), id) {
                return Some(i);
            }
            i = i + 1;
        }
        None
    }

    /// The first node with ID `id`.
    pub fn find_node(&self, id: &NodeId) -> (r: Option<&NodeInfo>)
        ensures
            opt_node_view(r) == find_first(self@.nodes, has_id(id@)),
    {
        match self.position_of(id.as_str()) {
            Some(i) => {
                proof {
                    lemma_find_at(self@.nodes, has_id(id@), i as int);
                }
                Some(&self.nodes[i])
            },
            None => {
                proof {
                    lemma_find_none(self@.nodes, has_id(id@));
                }
                None
            },
        }
    }

    /// Adds a node unless one with the same ID is present.
    pub fn add_node(&mut self, node: NodeInfo)
        ensures
            final(self)@ == (ConfigView {
                nodes: if find_first(old(self)@.nodes, has_id(node@.id)) is Some {
                    old(self)@.nodes
                } else {
                    old(self)@.nodes.push(node@)
                },
                ..old(self)@
            }),
    {
        match self.position_of(node.id.as_str()) {
            Some(i) => {
                proof {
                    lemma_find_at(self@.nodes, has_id(node@.id), i as int);
                }
            },
            None => {
                proof {
                    lemma_find_none(self@.nodes, has_id(node@.id));
                }
                let ghost nv = node@;
                self.nodes.push(node);
                assert(self@.nodes =~= old(self)@.nodes.push(nv));
            },
        }
    }

    /// Removes every node with ID `id`.
    pub fn remove_node(&mut self, id: &NodeId)
        ensures
            final(self)@ == (ConfigView { nodes: keep(old(self)@.nodes, lacks_id(id@)), ..old(self)@ }),
    {
        let ghost s = self@.nodes;
        let mut out: Vec<NodeInfo> = Vec::new();
        let mut i: usize = 0;
        while i < self.nodes.len()
            invariant
                i <= self.nodes.len(),
                s == self@.nodes,
                s.len() == self.nodes@.len(),
                node_views(out@) == keep(s.subrange(0, i as int), lacks_id(id@)),
            decreases self.nodes.len() - i,
        {
            proof {
                lemma_keep_step(s, lacks_id(id@), i as int);
            }
            assert(s[i as int] == self.nodes@[i as int]@);
            if !str_eq(self.nodes[i].id.as_str(), id.as_str()) {
                let n = self.nodes[i].clone();
                let ghost before = out@;
                out.push(n);
                assert(node_views(out@) =~= node_views(before).push(n@));
            }
            i = i + 1;
        }
        assert(s.subrange(0, i as int) =~= s);
        self.nodes = out;
    }

    /// The voting nodes (primaries and secondaries), in order.
    pub fn voting_nodes(&self) -> (r: Vec<&NodeInfo>)
        ensures
            r@.map_values(|n: &NodeInfo| n@) == keep(self@.nodes, votes()),
    {
        let ghost s = self@.nodes;
        let mut out: Vec<&NodeInfo> = Vec::new();
        let mut i: usize = 0;
        while i < self.nodes.len()
            invariant
                i <= self.nodes.len(),
                s == self@.nodes,
                s.len() == self.nodes@.len(),
                out@.map_values(|n: &NodeInfo| n@) == keep(s.subrange(0, i as int), votes()),
            decreases self.nodes.len() - i,
        {
            proof {
                lemma_keep_step(s, votes(), i as int);
            }
            assert(s[i as int] == self.nodes@[i as int]@);
            if self.nodes[i].role != NodeRole::Observer {
                let ghost before = out@;
                out.push(&self.nodes[i]);
                assert(out@.map_values(|n: &NodeInfo| n@) =~= before.map_values(|n: &NodeInfo| n@).push(s[i as int]));
            }
            i = i + 1;
        }
        assert(s.subrange(0, i as int) =~= s);
        out
    }

    /// The first primary node.
    pub fn primary(&self) -> (r: Option<&NodeInfo>)
        ensures
            opt_node_view(r) == find_first(self@.nodes, is_primary()),
    {
        let mut i: usize = 0;
        while i < self.nodes.len()
            invariant
                i <= self.nodes.len(),
                self@.nodes.len() == self.nodes@.len(),
                forall|j: int| 0 <= j < i ==> !is_primary()(#[trigger] self@.nodes[j]),
            decreases self.nodes.len() - i,
        {
            assert(self@.nodes[i as int] == self.nodes@[i as int]@);
            if self.nodes[i].role == NodeRole::Primary {
                proof {
                    lemma_find_at(self@.nodes, is_primary(), i as int);
                }
                return Some(&self.nodes[i]);
            }
            i = i + 1;
        }
        proof {
            lemma_find_none(self@.nodes, is_primary());
        }
        None
    }
}

} // verus!

verus! {

/// Health status of a node.
#[derive(Debug, Clone, Copy, PartialEq, Eq, Structural)]
pub enum HealthStatus {
    Healthy,
    Unhealthy,
    Unknown,
}

/// The lowercase name of a health status.
pub open spec fn status_name(s: HealthStatus) -> Seq<char> {
    match s {
        HealthStatus::Healthy => "healthy"@,
        HealthStatus::Unhealthy => "unhealthy"@,
        HealthStatus::Unknown => "unknown"@,
    }
}

impl HealthStatus {
    /// The lowercase name of the status.
    pub fn name(&self) -> (r: String)
        ensures
            r@ == status_name(*self),
    {
        match self {
            HealthStatus::Healthy => "healthy".to_owned(),
            HealthStatus::Unhealthy => "unhealthy".to_owned(),
            HealthStatus::Unknown => "unknown".to_owned(),
        }
    }
}

/// Health record for a peer.
#[derive(Debug, Clone, Copy)]
pub struct HealthRecord {
    pub status: HealthStatus,
    pub last_heartbeat: Instant,
    pub missed_beats: u32,
}

/// The status and the missed-beat count of a record.
pub open spec fn health_state() -> spec_fn(HealthRecord) -> (HealthStatus, u32) {
    |r: HealthRecord| (r.status, r.missed_beats)
}

/// The status of a record.
pub open spec fn health_status() -> spec_fn(HealthRecord) -> HealthStatus {
    |r: HealthRecord| r.status
}

/// The status name of a record.
pub open spec fn health_text() -> spec_fn(HealthRecord) -> Seq<char> {
    |r: HealthRecord| status_name(r.status)
}

/// The record of a heartbeat received at `t`.
pub open spec fn heartbeat_record(t: Instant) -> HealthRecord {
    HealthRecord { status: HealthStatus::Healthy, last_heartbeat: t, missed_beats: 0 }
}

/// The record after one more missed heartbeat: a peer without a record
/// starts as `Unknown` at `t`; three missed beats make it `Unhealthy`.
pub open spec fn missed_record(prev: Option<HealthRecord>, t: Instant) -> HealthRecord {
    let base = match prev {
        Some(r) => r,
        None => HealthRecord { status: HealthStatus::Unknown, last_heartbeat: t, missed_beats: 0 },
    };
    let m = base.missed_beats + 1;
    HealthRecord {
        status: if m >= 3 { HealthStatus::Unhealthy } else { base.status },
        last_heartbeat: base.last_heartbeat,
        missed_beats: m as u32,
    }
}

/// A node record with `local` made primary; other records stay.
pub open spec fn promoted(local: Seq<char>) -> spec_fn(NodeInfoView) -> NodeInfoView {
    |n: NodeInfoView| NodeInfoView { role: if n.id == local { NodeRole::Primary } else { n.role }, ..n }
}

/// The nodes after failing over from `failed` to `local`: `failed` is
/// removed and `local` becomes primary; the others stay, in order.
pub open spec fn after_failover(nodes: Seq<NodeInfoView>, failed: Seq<char>, local: Seq<char>) -> Seq<NodeInfoView> {
    keep(nodes, lacks_id(failed)).map_values(promoted(local))
}

/// Whether `x` is the ID of one of `nodes` and not `local`.
pub open spec fn other_id(nodes: Seq<NodeInfoView>, local: Seq<char>, x: Seq<char>) -> bool {
    x != local && exists|i: int| 0 <= i < nodes.len() && #[trigger] nodes[i].id == x
}

/// The IDs of the nodes other than `local`, ascending, each once.
fn peer_ids(nodes: &Vec<NodeInfo>, local: &str) -> (r: Vec<NodeId>)
    ensures
        strictly_sorted(views(r@)),
        forall|x: Seq<char>| #[trigger] views(r@).contains(x) <==> other_id(node_views(nodes@), local@, x),
{
    let ghost ns = node_views(nodes@);
    let mut out: Vec<NodeId> = Vec::new();
    let mut i: usize = 0;
    while i < nodes.len()
        invariant
            i <= nodes.len(),
            ns == node_views(nodes@),
            strictly_sorted(views(out@)),
            forall|x: Seq<char>| #[trigger] views(out@).contains(x) <==> other_id(ns.subrange(0, i as int), local@, x),
        decreases nodes.len() - i,
    {
        proof {
            assert forall|x: Seq<char>| other_id(ns.subrange(0, i + 1), local@, x) <==> (other_id(
                ns.subrange(0, i as int),
                local@,
                x,
            ) || (x == ns[i as int].id && x != local@)) by {
                if other_id(ns.subrange(0, i + 1), local@, x) {
                    let k = choose|k: int| 0 <= k < i + 1 && #[trigger] ns.subrange(0, i + 1)[k].id == x;
                    if k < i {
                        assert(ns.subrange(0, i as int)[k].id == x);
                    }
                }
                if other_id(ns.subrange(0, i as int), local@, x) {
                    let k = choose|k: int| 0 <= k < i && #[trigger] ns.subrange(0, i as int)[k].id == x;
                    assert(ns.subrange(0, i + 1)[k].id == x);
                }
                if x == ns[i as int].id && x != local@ {
                    assert(ns.subrange(0, i + 1)[i as int].id == x);
                }
            }
        }
        assert(ns[i as int] == nodes@[i as int]@);
        let ghost before = views(out@);
        if !str_eq(nodes[i].id.as_str(), local) {
            insert_sorted_unique(&mut out, nodes[i].id.clone());
        }
        assert forall|x: Seq<char>| #[trigger] views(out@).contains(x) <==> other_id(
            ns.subrange(0, i + 1),
            local@,
            x,
        ) by {
            assert(before.contains(x) <==> other_id(ns.subrange(0, i as int), local@, x));
        }
        i = i + 1;
    }
    assert(ns.subrange(0, i as int) =~= ns);
    out
}

/// A managed cluster node: its configuration, its Raft node, the health of
/// its peers and the failover cool-down.
#[derive(Debug)]
pub struct ClusterNode {
    local_id: NodeId,
    config_dir: String,
    config: ClusterConfig,
    raft: RaftNode,
    health: KeyedTable<HealthRecord>,
    last_failover: Option<Instant>,
    failover_cooldown_ms: u64,
}

/// The plain value of a cluster node.
pub struct ClusterNodeView {
    pub local_id: Seq<char>,
    pub config_dir: Seq<char>,
    pub config: ConfigView,
    pub raft: RaftNodeView,
    pub health: Seq<(Seq<char>, HealthRecord)>,
    pub last_failover: Option<Instant>,
    pub failover_cooldown_ms: u64,
}

impl ClusterNode {
    /// The node's state as plain values.
    pub closed spec fn spec_state(&self) -> ClusterNodeView {
        ClusterNodeView {
            local_id: self.local_id@,
            config_dir: self.config_dir@,
            config: self.config@,
            raft: self.raft@,
            health: self.health@,
            last_failover: self.last_failover,
            failover_cooldown_ms: self.failover_cooldown_ms,
        }
    }
}

impl View for ClusterNode {
    type V = ClusterNodeView;

    open spec fn view(&self) -> ClusterNodeView {
        self.spec_state()
    }
}

impl ClusterNodeView {
    /// A node just set up from `config`: its Raft node is fresh, with the
    /// other nodes of the configuration as peers (ascending, each once); no
    /// health records, no failover yet, a five-second failover cool-down.
    pub open spec fn is_joined(self, local_id: Seq<char>, config_dir: Seq<char>, config: ConfigView) -> bool {
        &&& self.local_id == local_id
        &&& self.config_dir == config_dir
        &&& self.config == config
        &&& self.raft.is_initial(local_id, self.raft.peers)
        &&& strictly_sorted(self.raft.peers)
        &&& forall|x: Seq<char>| #[trigger] self.raft.peers.contains(x) <==> other_id(config.nodes, local_id, x)
        &&& self.health.len() == 0
        &&& self.last_failover is None
        &&& self.failover_cooldown_ms == 5000
    }

    /// Failover from `failed` is allowed by the configuration: failover is
    /// on, `failed` is a known primary, and it is not this node.
    pub open spec fn failover_conditions(self, failed: Seq<char>) -> bool {
        &&& self.config.failover_enabled
        &&& match find_first(self.config.nodes, has_id(failed)) {
            Some(n) => n.role == NodeRole::Primary,
            None => false,
        }
        &&& self.local_id != failed
    }

    /// The node after the leader adds `node`: it joins the configuration
    /// unless its ID is there, Raft tracks it, and `AddNode` is logged.
    pub open spec fn added(self, node: NodeInfoView) -> Self {
        ClusterNodeView {
            config: ConfigView {
                nodes: if find_first(self.config.nodes, has_id(node.id)) is Some {
                    self.config.nodes
                } else {
                    self.config.nodes.push(node)
                },
                ..self.config
            },
            raft: self.raft.with_peer(node.id).proposed(
                CommandView::AddNode { node_id: node.id, address: node.address },
            ),
            ..self
        }
    }

    /// The node after the leader removes the node `id`: it leaves the
    /// configuration, Raft stops tracking it, and `RemoveNode` is logged.
    pub open spec fn removed(self, id: Seq<char>) -> Self {
        ClusterNodeView {
            config: ConfigView { nodes: keep(self.config.nodes, lacks_id(id)), ..self.config },
            raft: self.raft.without_peer(id).proposed(CommandView::RemoveNode { node_id: id }),
            ..self
        }
    }

    /// The node after failing over from `failed` to itself, at `at`.
    pub open spec fn failed_over(self, failed: Seq<char>, at: Option<Instant>) -> Self {
        ClusterNodeView {
            config: ConfigView { nodes: after_failover(self.config.nodes, failed, self.local_id), ..self.config },
            last_failover: at,
            ..self
        }
    }

    /// The same node with the Raft state `raft`.
    pub open spec fn with_raft(self, raft: RaftNodeView) -> Self {
        ClusterNodeView { raft, ..self }
    }
}

} // verus!

verus! {

impl ClusterNode {
    fn assemble(local_id: NodeId, config_dir: String, config: ClusterConfig) -> (r: ClusterNode)
        ensures
            r@.is_joined(local_id@, config_dir@, config@),
    {
        let peers = peer_ids(&config.nodes, local_id.as_str());
        let raft = create_raft_node(local_id.clone(), peers);
        let r = ClusterNode {
            local_id,
            config_dir,
            config,
            raft,
            health: KeyedTable::new(),
            last_failover: None,
            failover_cooldown_ms: 5000,
        };
        r
    }

    /// Starts a new cluster with this node as its only member, the primary,
    /// last seen now.  The caller saves the configuration.
    pub fn init_cluster(cluster_id: String, local_id: NodeId, address: String, config_dir: String) -> (r: ClusterNode)
        ensures
            r@.config.nodes.len() == 1,
            r@.is_joined(
                local_id@,
                config_dir@,
                ConfigView {
                    cluster_id: cluster_id@,
                    nodes: seq![
                        NodeInfoView {
                            id: local_id@,
                            address: address@,
                            role: NodeRole::Primary,
                            last_seen: r@.config.nodes[0].last_seen,
                        },
                    ],
                    failover_enabled: true,
                    health_check_interval_ms: 1000,
                    health_check_timeout_ms: 3000,
                },
            ),
            r@.raft.peers.len() == 0,
    {
        let seed = NodeInfo {
            id: local_id.clone(),
            address,
            role: NodeRole::Primary,
            last_seen: unix_timestamp(),
        };
        let config = ClusterConfig::new(cluster_id, seed);
        let r = Self::assemble(local_id, config_dir, config);
        proof {
            if r@.raft.peers.len() > 0 {
                let x = r@.raft.peers[0];
                assert(r@.raft.peers.contains(x));
                assert(other_id(r@.config.nodes, r@.local_id, x));
            }
        }
        r
    }

    /// Joins an existing cluster whose configuration is `cluster_config`;
    /// every other node of it becomes a Raft peer.
    pub fn join_cluster(local_id: NodeId, address: String, config_dir: String, cluster_config: ClusterConfig) -> (r: ClusterNode)
        ensures
            r@.is_joined(local_id@, config_dir@, cluster_config@),
    {
        Self::assemble(local_id, config_dir, cluster_config)
    }

    /// Sets up a node from the configuration `config` that was read from
    /// `config_dir`.
    pub fn load(local_id: NodeId, config_dir: String, config: ClusterConfig) -> (r: ClusterNode)
        ensures
            r@.is_joined(local_id@, config_dir@, config@),
    {
        Self::assemble(local_id, config_dir, config)
    }

    /// This node's ID.
    pub fn local_id(&self) -> (r: &NodeId)
        ensures
            r@ == self@.local_id,
    {
        &self.local_id
    }

    /// The directory the configuration is saved in.
    pub fn config_dir(&self) -> (r: &String)
        ensures
            r@ == self@.config_dir,
    {
        &self.config_dir
    }

    /// A copy of the cluster configuration.
    pub fn config(&self) -> (r: ClusterConfig)
        ensures
            r@ == self@.config,
    {
        self.config.clone()
    }

    /// The Raft node.
    pub fn raft(&self) -> (r: &RaftNode)
        ensures
            r@ == self@.raft,
    {
        &self.raft
    }

    /// The Raft node, for driving it directly.
    pub fn raft_mut(&mut self) -> (r: &mut RaftNode)
        ensures
            r@ == old(self)@.raft,
            final(self)@ == old(self)@.with_raft(final(r)@),
    {
        &mut self.raft
    }

    /// Whether this node is the Raft leader.
    pub fn is_leader(&self) -> (r: bool)
        ensures
            r == (self@.raft.v.role == RaftRole::Leader),
    {
        self.raft.is_leader()
    }

    /// The leader according to Raft.
    pub fn leader_id(&self) -> (r: Option<NodeId>)
        ensures
            opt_view(r) == self@.raft.v.leader_id,
    {
        self.raft.leader_id()
    }

    /// Adds a node to the cluster; only the leader may.  The node joins the
    /// configuration (unless its ID is there), becomes a Raft peer, and an
    /// `AddNode` command is appended to the log.
    pub fn add_node(&mut self, node: NodeInfo) -> (r: Result<(), CassetteError>)
        requires
            old(self)@.raft.p.log.len() < u64::MAX,
        ensures
            old(self)@.raft.v.role != RaftRole::Leader ==> r is Err && final(self)@ == old(self)@,
            r matches Err(e) ==> e is Cluster,
            old(self)@.raft.v.role == RaftRole::Leader ==> r is Ok && final(self)@ == old(self)@.added(node@),
    {
        if !self.is_leader() {
            return Err(CassetteError::Cluster("only the leader can add nodes".to_string()));
        }
        let id = node.id.clone();
        let address = node.address.clone();
        self.config.add_node(node);
        self.raft.add_peer(id.clone());
        let proposed = self.raft.propose(ClusterCommand::AddNode { node_id: id, address });
        match proposed {
            Ok(_) => Ok(()),
            Err(e) => Err(e),
        }
    }

    /// Removes a node from the cluster; only the leader may.  The node leaves
    /// the configuration, stops being tracked by Raft, and a `RemoveNode`
    /// command is appended to the log.
    pub fn remove_node(&mut self, node_id: &NodeId) -> (r: Result<(), CassetteError>)
        requires
            old(self)@.raft.p.log.len() < u64::MAX,
        ensures
            old(self)@.raft.v.role != RaftRole::Leader ==> r is Err && final(self)@ == old(self)@,
            r matches Err(e) ==> e is Cluster,
            old(self)@.raft.v.role == RaftRole::Leader ==> r is Ok && final(self)@ == old(self)@.removed(node_id@),
    {
        if !self.is_leader() {
            return Err(CassetteError::Cluster("only the leader can remove nodes".to_string()));
        }
        self.config.remove_node(node_id);
        self.raft.remove_peer(node_id);
        let proposed = self.raft.propose(ClusterCommand::RemoveNode { node_id: node_id.clone() });
        match proposed {
            Ok(_) => Ok(()),
            Err(e) => Err(e),
        }
    }

    /// Records a heartbeat from `peer`, received now: the peer is healthy
    /// with no missed beats.
    pub fn record_heartbeat(&mut self, peer: &NodeId)
        ensures
            exists|t: Instant| final(self)@ == (ClusterNodeView {
                health: assoc_insert(old(self)@.health, peer@, #[trigger] heartbeat_record(t)),
                ..old(self)@
            }),
    {
        let t = now();
        self.record_heartbeat_at(peer, t);
    }

    /// Records a heartbeat from `peer`, received at `at`: the peer is
    /// healthy with no missed beats, last heard from at `at`.
    pub fn record_heartbeat_at(&mut self, peer: &NodeId, at: Instant)
        ensures
            final(self)@ == (ClusterNodeView {
                health: assoc_insert(old(self)@.health, peer@, heartbeat_record(at)),
                ..old(self)@
            }),
    {
        self.health.insert(
            peer.clone(),
            HealthRecord { status: HealthStatus::Healthy, last_heartbeat: at, missed_beats: 0 },
        );
    }

    /// Records a missed heartbeat from `peer`: its missed-beat count goes up
    /// by one, and at three it is marked unhealthy.  A peer without a record
    /// starts as `Unknown`, last heard from now.
    pub fn record_missed_heartbeat(&mut self, peer: &NodeId)
        requires
            match assoc_get(old(self)@.health, peer@) {
                Some(r) => r.missed_beats < u32::MAX,
                None => true,
            },
        ensures
            exists|t: Instant| final(self)@ == (ClusterNodeView {
                health: assoc_insert(
                    old(self)@.health,
                    peer@,
                    #[trigger] missed_record(assoc_get(old(self)@.health, peer@), t),
                ),
                ..old(self)@
            }),
    {
        let t = now();
        self.record_missed_heartbeat_at(peer, t);
    }

    /// Records a missed heartbeat from `peer`, noticed at `at`: its
    /// missed-beat count goes up by one, and at three it is marked
    /// unhealthy.  A peer without a record starts as `Unknown`, last heard
    /// from at `at`.
    pub fn record_missed_heartbeat_at(&mut self, peer: &NodeId, at: Instant)
        requires
            match assoc_get(old(self)@.health, peer@) {
                Some(r) => r.missed_beats < u32::MAX,
                None => true,
            },
        ensures
            final(self)@ == (ClusterNodeView {
                health: assoc_insert(old(self)@.health, peer@, missed_record(assoc_get(old(self)@.health, peer@), at)),
                ..old(self)@
            }),
    {
        let base = match self.health.get(peer.as_str()) {
            Some(r) => r,
            None => HealthRecord { status: HealthStatus::Unknown, last_heartbeat: at, missed_beats: 0 },
        };
        let missed = base.missed_beats + 1;
        let status = if missed >= 3 {
            HealthStatus::Unhealthy
        } else {
            base.status
        };
        self.health.insert(
            peer.clone(),
            HealthRecord { status, last_heartbeat: base.last_heartbeat, missed_beats: missed },
        );
    }

    /// Each peer's health status, in the order the peers were first recorded.
    pub fn health_snapshot(&self) -> (r: Vec<(NodeId, HealthStatus)>)
        ensures
            r@.map_values(|e: (NodeId, HealthStatus)| (e.0@, e.1)) == assoc_map(self@.health, health_status()),
    {
        let entries = self.health.to_vec();
        let ghost es = entries@.map_values(|e: (String, HealthRecord)| (e.0@, e.1));
        let ghost target = assoc_map(self@.health, health_status());
        let mut out: Vec<(NodeId, HealthStatus)> = Vec::new();
        let mut i: usize = 0;
        while i < entries.len()
            invariant
                i <= entries.len(),
                es == entries@.map_values(|e: (String, HealthRecord)| (e.0@, e.1)),
                es == self@.health,
                target == assoc_map(self@.health, health_status()),
                out@.map_values(|e: (NodeId, HealthStatus)| (e.0@, e.1)) == target.subrange(0, i as int),
            decreases entries.len() - i,
        {
            assert(es[i as int] == (entries@[i as int].0@, entries@[i as int].1));
            let k = entries[i].0.clone();
            let ghost before = out@;
            out.push((k, entries[i].1.status));
            assert(out@.map_values(|e: (NodeId, HealthStatus)| (e.0@, e.1)) =~= before.map_values(
                |e: (NodeId, HealthStatus)| (e.0@, e.1),
            ).push(target[i as int]));
            i = i + 1;
            assert(target.subrange(0, i as int) =~= target.subrange(0, i - 1).push(target[i - 1]));
        }
        assert(target.subrange(0, i as int) =~= target);
        out
    }
}

} // verus!

verus! {

impl ClusterNode {
    /// Whether failover from `failed_node` should happen, `elapsed_nanos`
    /// after the last failover: the configuration allows it, and the last
    /// failover, if any, is at least the cool-down ago.
    pub fn should_failover_after(&self, failed_node: &NodeId, elapsed_nanos: u128) -> (r: bool)
        ensures
            r == (self@.failover_conditions(failed_node@) && (self@.last_failover is Some ==> elapsed_nanos
                >= self@.failover_cooldown_ms * 1_000_000)),
    {
        if !self.config.failover_enabled {
            return false;
        }
        match self.config.find_node(failed_node) {
            None => {
                return false;
            },
            Some(n) => {
                if n.role != NodeRole::Primary {
                    return false;
                }
            },
        }
        if str_eq(self.local_id.as_str(), failed_node.as_str()) {
            return false;
        }
        if self.last_failover.is_some() && elapsed_nanos < (self.failover_cooldown_ms as u128) * 1_000_000 {
            return false;
        }
        true
    }

    /// Whether failover from `failed_node` should happen now, by the clock.
    pub fn should_failover(&self, failed_node: &NodeId) -> (r: bool)
        ensures
            r ==> self@.failover_conditions(failed_node@),
            self@.last_failover is None ==> r == self@.failover_conditions(failed_node@),
    {
        let elapsed = match &self.last_failover {
            Some(t) => nanos_since(t),
            None => 0,
        };
        self.should_failover_after(failed_node, elapsed)
    }

    /// Fails over from `failed_node` to this node: `failed_node` is removed
    /// from the configuration, this node becomes the primary, and the
    /// failover time is now.
    /// Refused when `should_failover` says no.  The caller saves the
    /// configuration.
    pub fn perform_failover(&mut self, failed_node: &NodeId) -> (r: Result<(), CassetteError>)
        ensures
            r is Err ==> final(self)@ == old(self)@,
            r matches Err(e) ==> e is Cluster,
            r is Ok ==> {
                &&& old(self)@.failover_conditions(failed_node@)
                &&& final(self)@ == old(self)@.failed_over(failed_node@, final(self)@.last_failover)
                &&& final(self)@.last_failover is Some
                &&& find_first(final(self)@.config.nodes, has_id(failed_node@)) is None
                &&& find_first(old(self)@.config.nodes, has_id(old(self)@.local_id)) is Some ==> (find_first(
                    final(self)@.config.nodes,
                    has_id(old(self)@.local_id),
                ) matches Some(n) && n.role == NodeRole::Primary)
            },
            old(self)@.last_failover is None ==> (r is Ok <==> old(self)@.failover_conditions(failed_node@)),
    {
        if !self.should_failover(failed_node) {
            return Err(CassetteError::Cluster("failover preconditions not met".to_string()));
        }
        self.config.remove_node(failed_node);
        let ghost n0 = self@.config.nodes;
        let ghost target = n0.map_values(promoted(self@.local_id));
        assert(target == after_failover(old(self)@.config.nodes, failed_node@, old(self)@.local_id));
        let mut i: usize = 0;
        while i < self.config.nodes.len()
            invariant
                i <= self.config.nodes.len(),
                n0.len() == self.config.nodes.len(),
                target == n0.map_values(promoted(old(self)@.local_id)),
                self@ == (ClusterNodeView {
                    config: ConfigView { nodes: self@.config.nodes, ..old(self)@.config },
                    ..old(self)@
                }),
                forall|j: int| 0 <= j < i ==> self@.config.nodes[j] == #[trigger] target[j],
                forall|j: int| i <= j < n0.len() ==> self@.config.nodes[j] == #[trigger] n0[j],
            decreases self.config.nodes.len() - i,
        {
            let mut n = self.config.nodes[i].clone();
            assert(n@ == n0[i as int]);
            if str_eq(n.id.as_str(), self.local_id.as_str()) {
                n.role = NodeRole::Primary;
            }
            assert(n@ == target[i as int]);
            self.config.nodes.set(i, n);
            i = i + 1;
        }
        assert(self@.config.nodes =~= target);
        proof {
            lemma_failover_roles(old(self)@.config.nodes, failed_node@, old(self)@.local_id);
        }
        self.last_failover = Some(now());
        Ok(())
    }

    /// Starts an election and returns the RequestVote to send.
    pub fn request_vote(&mut self) -> (r: RequestVoteRequest)
        requires
            old(self)@.raft.p.current_term < u64::MAX,
        ensures
            old(self)@.raft.election_step(final(self)@.raft, r),
            final(self)@ == old(self)@.with_raft(final(self)@.raft),
    {
        self.raft.start_election()
    }

    /// Answers a RequestVote.
    pub fn handle_request_vote(&mut self, req: RequestVoteRequest) -> (res: RequestVoteResponse)
        ensures
            old(self)@.raft.request_vote_step(req, final(self)@.raft, res),
            final(self)@ == old(self)@.with_raft(final(self)@.raft),
    {
        self.raft.handle_request_vote(req)
    }

    /// Answers an AppendEntries.
    pub fn handle_append_entries(&mut self, req: AppendEntriesRequest) -> (res: AppendEntriesResponse)
        requires
            req.prev_log_index + req.entries@.len() <= u64::MAX,
        ensures
            old(self)@.raft.append_entries_step(req, final(self)@.raft, res),
            final(self)@ == old(self)@.with_raft(final(self)@.raft),
    {
        self.raft.handle_append_entries(req)
    }

    /// Records a vote response; reports whether this node has just won.
    pub fn record_vote(&mut self, voter: NodeId, res: RequestVoteResponse) -> (won: bool)
        requires
            old(self)@.raft.p.log.len() < u64::MAX,
            old(self)@.raft.peers.len() < usize::MAX,
        ensures
            old(self)@.raft.vote_step(voter@, res, final(self)@.raft, won),
            final(self)@ == old(self)@.with_raft(final(self)@.raft),
    {
        self.raft.record_vote(voter, res)
    }

    /// Records a successful AppendEntries reply from `peer`.
    pub fn record_append_success(&mut self, peer: NodeId, res: AppendEntriesResponse)
        requires
            res.match_index < u64::MAX,
        ensures
            old(self)@.raft.append_success_step(peer@, res, final(self)@.raft),
            final(self)@ == old(self)@.with_raft(final(self)@.raft),
    {
        self.raft.record_append_success(peer, res)
    }

    /// Records a failed AppendEntries reply from `peer`.
    pub fn record_append_failure(&mut self, peer: NodeId, res: AppendEntriesResponse)
        ensures
            old(self)@.raft.append_failure_step(peer@, res, final(self)@.raft),
            final(self)@ == old(self)@.with_raft(final(self)@.raft),
    {
        self.raft.record_append_failure(peer, res)
    }
}

} // verus!

verus! {

/// Whether an ID differs from `x`.
pub open spec fn differs_from(x: Seq<char>) -> spec_fn(Seq<char>) -> bool {
    |p: Seq<char>| p != x
}

/// The voters after each of `voters`, in order, answers yes: a voter not yet
/// among `votes` joins at the end.
pub open spec fn votes_after(votes: Seq<Seq<char>>, voters: Seq<Seq<char>>) -> Seq<Seq<char>>
    decreases voters.len(),
{
    if voters.len() == 0 {
        votes
    } else {
        let v = votes_after(votes, voters.drop_last());
        if v.contains(voters.last()) {
            v
        } else {
            v.push(voters.last())
        }
    }
}

impl ClusterNodeView {
    /// The peers other than this node, in order: those a tick asks for a vote.
    pub open spec fn other_peers(self) -> Seq<Seq<char>> {
        keep(self.raft.peers, differs_from(self.local_id))
    }

    /// The votes a due election collects: this node's own, then each other
    /// peer's, once per distinct peer.
    pub open spec fn election_votes(self) -> Seq<Seq<char>> {
        votes_after(seq![self.raft.node_id], self.other_peers())
    }

    /// One tick of the node, from this state to `s`, with the election timer
    /// run out (`due`) or not; `became` tells whether it became leader.  A
    /// leader marks every peer healthy (as if its heartbeat came back) and
    /// applies the committed entries.  Otherwise, when the timer has run out,
    /// the node starts an election and asks each other peer for a vote; the
    /// votes are simulated by this node's own answer, as a local harness.
    pub open spec fn tick_step(self, due: bool, s: Self, became: bool) -> bool {
        if self.raft.v.role == RaftRole::Leader {
            &&& !became
            &&& s == (ClusterNodeView { raft: self.raft.after_apply(), health: s.health, ..self })
            &&& assoc_map(s.health, health_state()) == assoc_insert_all(
                assoc_map(self.health, health_state()),
                self.raft.peers,
                (HealthStatus::Healthy, 0u32),
            )
        } else if !due {
            !became && s == self
        } else {
            &&& s == self.with_raft(s.raft)
            &&& s.raft.node_id == self.raft.node_id
            &&& s.raft.peers == self.raft.peers
            &&& s.raft.p == (PersistentView {
                current_term: (self.raft.p.current_term + 1) as u64,
                voted_for: Some(self.raft.node_id),
                ..self.raft.p
            })
            &&& became == (self.other_peers().len() > 0 && self.election_votes().len() >= self.raft.quorum())
            &&& s.raft.v.role == (if became { RaftRole::Leader } else { RaftRole::Candidate })
            &&& became ==> s.raft.v.leader_id == Some(self.raft.node_id)
            &&& !became ==> s.raft.v.votes_received == self.election_votes()
        }
    }
}

impl ClusterNode {
    /// One tick of the node, given whether the election timer has run out
    /// (see `tick_step`).
    pub fn tick_with(&mut self, election_due: bool) -> (became_leader: bool)
        requires
            old(self)@.raft.p.current_term < u64::MAX,
            old(self)@.raft.p.log.len() < u64::MAX,
            old(self)@.raft.peers.len() < usize::MAX,
        ensures
            old(self)@.tick_step(election_due, final(self)@, became_leader),
    {
        if self.raft.role() == RaftRole::Leader {
            let ghost s0 = self@;
            let ghost h0 = assoc_map(s0.health, health_state());
            let n = self.raft.peers().len();
            let mut i: usize = 0;
            while i < n
                invariant
                    n == s0.raft.peers.len(),
                    i <= n,
                    self@ == (ClusterNodeView { health: self@.health, ..s0 }),
                    assoc_map(self@.health, health_state()) == assoc_insert_all(
                        h0,
                        s0.raft.peers.subrange(0, i as int),
                        (HealthStatus::Healthy, 0u32),
                    ),
                decreases n - i,
            {
                let peer = self.raft.peers()[i].clone();
                assert(peer@ == s0.raft.peers[i as int]);
                let _heartbeat = self.raft.heartbeat_for(&peer);
                let ghost pre = self@;
                self.record_heartbeat(&peer);
                proof {
                    let t = choose|t: Instant| self@ == (ClusterNodeView {
                        health: assoc_insert(pre.health, peer@, #[trigger] heartbeat_record(t)),
                        ..pre
                    });
                    lemma_map_insert(pre.health, peer@, heartbeat_record(t), health_state());
                    assert(s0.raft.peers.subrange(0, i + 1).drop_last() =~= s0.raft.peers.subrange(0, i as int));
                }
                i = i + 1;
            }
            assert(s0.raft.peers.subrange(0, n as int) =~= s0.raft.peers);
            let _commands = self.raft.apply_committed();
            return false;
        }
        if !election_due {
            return false;
        }
        let ghost s0 = self@;
        let req = self.raft.start_election();
        let ghost s1 = self@;
        let mut others: Vec<NodeId> = Vec::new();
        let n = self.raft.peers().len();
        let mut i: usize = 0;
        while i < n
            invariant
                i <= n,
                n == self@.raft.peers.len(),
                self@ == s1,
                views(others@) == keep(s1.raft.peers.subrange(0, i as int), differs_from(s1.local_id)),
            decreases n - i,
        {
            proof {
                lemma_keep_step(s1.raft.peers, differs_from(s1.local_id), i as int);
            }
            let ps = self.raft.peers();
            assert(ps@[i as int]@ == s1.raft.peers[i as int]);
            if !str_eq(ps[i].as_str(), self.local_id.as_str()) {
                let ghost before = views(others@);
                others.push(ps[i].clone());
                assert(views(others@) =~= before.push(s1.raft.peers[i as int]));
            }
            i = i + 1;
        }
        assert(s1.raft.peers.subrange(0, n as int) =~= s1.raft.peers);
        let ghost ov = views(others@);
        assert(ov == s0.other_peers());
        let ghost q = s1.raft.quorum();
        let mut became = false;
        let mut j: usize = 0;
        while j < others.len()
            invariant
                j <= others.len(),
                ov == views(others@),
                q == s1.raft.quorum(),
                self@ == s1.with_raft(self@.raft),
                self@.raft.node_id == s1.raft.node_id,
                self@.raft.peers == s1.raft.peers,
                self@.raft.p == s1.raft.p,
                self@.raft.v.role == (if became { RaftRole::Leader } else { RaftRole::Candidate }),
                became ==> self@.raft.v.leader_id == Some(s1.raft.node_id),
                became ==> j > 0 && votes_after(seq![s1.raft.node_id], ov.take(j as int)).len() >= q,
                !became ==> self@.raft.v.votes_received == votes_after(seq![s1.raft.node_id], ov.take(j as int)),
                !became && j > 0 ==> votes_after(seq![s1.raft.node_id], ov.take(j as int)).len() < q,
                req.term == s1.raft.p.current_term,
                req.candidate_id@ == s1.raft.node_id,
                req.last_log_index == s1.raft.p.last_index(),
                req.last_log_term == s1.raft.p.last_term(),
                s1.raft.p.voted_for == Some(s1.raft.node_id),
                s1.raft.p.log.len() < u64::MAX,
                s1.raft.peers.len() < usize::MAX,
            decreases others.len() - j,
        {
            assert(ov.take(j + 1).drop_last() =~= ov.take(j as int));
            assert(ov.take(j + 1).last() == others@[j as int]@);
            assert(ov.take(0) =~= Seq::<Seq<char>>::empty());
            let res = self.handle_request_vote(req.clone());
            let won = self.record_vote(others[j].clone(), res);
            if won {
                became = true;
            }
            j = j + 1;
        }
        assert(ov.take(ov.len() as int) =~= ov);
        became
    }

    /// One tick of the node, reading the election timer from the clock
    /// (see `tick_step`).
    pub fn tick(&mut self) -> (became_leader: bool)
        requires
            old(self)@.raft.p.current_term < u64::MAX,
            old(self)@.raft.p.log.len() < u64::MAX,
            old(self)@.raft.peers.len() < usize::MAX,
        ensures
            exists|due: bool| old(self)@.tick_step(due, final(self)@, became_leader),
    {
        let due = if self.raft.role() == RaftRole::Leader {
            false
        } else {
            self.raft.election_due()
        };
        let r = self.tick_with(due);
        assert(old(self)@.tick_step(due, self@, r));
        r
    }
}

} // verus!

verus! {

/// Cluster status with typed health values.
#[derive(Debug)]
pub struct RawClusterStatus {
    pub cluster_id: String,
    pub local_id: NodeId,
    pub leader_id: Option<NodeId>,
    pub role: RaftRole,
    pub nodes: Vec<NodeInfo>,
    pub health: Vec<(NodeId, HealthStatus)>,
    pub failover_enabled: bool,
}

/// Cluster status for display, with health statuses by name.
#[derive(Debug)]
pub struct ClusterStatus {
    pub cluster_id: String,
    pub local_id: NodeId,
    pub leader_id: Option<NodeId>,
    pub role: RaftRole,
    pub nodes: Vec<NodeInfo>,
    pub health: Vec<(NodeId, String)>,
    pub failover_enabled: bool,
}

impl ClusterNodeView {
    /// Whether `st` reports this node's state.
    pub open spec fn shown_by(self, st: ClusterStatus) -> bool {
        &&& st.cluster_id@ == self.config.cluster_id
        &&& st.local_id@ == self.local_id
        &&& opt_view(st.leader_id) == self.raft.v.leader_id
        &&& st.role == self.raft.v.role
        &&& node_views(st.nodes@) == self.config.nodes
        &&& st.health@.map_values(|e: (NodeId, String)| (e.0@, e.1@)) == assoc_map(self.health, health_text())
        &&& st.failover_enabled == self.config.failover_enabled
    }
}

impl ClusterNode {
    /// The cluster's status as this node sees it.
    pub fn status_raw(&self) -> (r: RawClusterStatus)
        ensures
            r.cluster_id@ == self@.config.cluster_id,
            r.local_id@ == self@.local_id,
            opt_view(r.leader_id) == self@.raft.v.leader_id,
            r.role == self@.raft.v.role,
            node_views(r.nodes@) == self@.config.nodes,
            r.health@.map_values(|e: (NodeId, HealthStatus)| (e.0@, e.1)) == assoc_map(self@.health, health_status()),
            r.failover_enabled == self@.config.failover_enabled,
    {
        RawClusterStatus {
            cluster_id: self.config.cluster_id.clone(),
            local_id: self.local_id.clone(),
            leader_id: self.leader_id(),
            role: self.raft.role(),
            nodes: clone_nodes(&self.config.nodes),
            health: self.health_snapshot(),
            failover_enabled: self.config.failover_enabled,
        }
    }
}

impl ClusterStatus {
    /// The status of `node`, with health statuses by name.
    pub fn from_node(node: &ClusterNode) -> (r: ClusterStatus)
        ensures
            node@.shown_by(r),
    {
        let raw = node.status_raw();
        let ghost hv = raw.health@.map_values(|e: (NodeId, HealthStatus)| (e.0@, e.1));
        let ghost target = assoc_map(node@.health, health_text());
        assert(hv.len() == target.len());
        let mut health: Vec<(NodeId, String)> = Vec::new();
        let mut i: usize = 0;
        while i < raw.health.len()
            invariant
                i <= raw.health.len(),
                hv == raw.health@.map_values(|e: (NodeId, HealthStatus)| (e.0@, e.1)),
                hv == assoc_map(node@.health, health_status()),
                target == assoc_map(node@.health, health_text()),
                target.len() == raw.health@.len(),
                health@.map_values(|e: (NodeId, String)| (e.0@, e.1@)) == target.subrange(0, i as int),
            decreases raw.health.len() - i,
        {
            assert(hv[i as int] == (raw.health@[i as int].0@, raw.health@[i as int].1));
            assert(hv[i as int] == (node@.health[i as int].0, node@.health[i as int].1.status));
            assert(target[i as int] == (hv[i as int].0, status_name(hv[i as int].1)));
            let k = raw.health[i].0.clone();
            let name = raw.health[i].1.name();
            let ghost before = health@;
            health.push((k, name));
            assert(health@.map_values(|e: (NodeId, String)| (e.0@, e.1@)) =~= before.map_values(
                |e: (NodeId, String)| (e.0@, e.1@),
            ).push(target[i as int]));
            i = i + 1;
            assert(target.subrange(0, i as int) =~= target.subrange(0, i - 1).push(target[i - 1]));
        }
        assert(target.subrange(0, i as int) =~= target);
        ClusterStatus {
            cluster_id: raw.cluster_id,
            local_id: raw.local_id,
            leader_id: raw.leader_id,
            role: raw.role,
            nodes: raw.nodes,
            health,
            failover_enabled: raw.failover_enabled,
        }
    }
}

/// The cluster management interface used by the command line and the server.
#[derive(Debug)]
pub struct ClusterManager {
    inner: ClusterNode,
}

impl View for ClusterManager {
    type V = ClusterNodeView;

    closed spec fn view(&self) -> ClusterNodeView {
        self.inner@
    }
}

impl ClusterManager {
    /// Starts a new cluster (see `ClusterNode::init_cluster`).
    pub fn init(cluster_id: String, local_id: NodeId, address: String, config_dir: String) -> (r: Self)
        ensures
            r@.config.nodes.len() == 1,
            r@.is_joined(
                local_id@,
                config_dir@,
                ConfigView {
                    cluster_id: cluster_id@,
                    nodes: seq![
                        NodeInfoView {
                            id: local_id@,
                            address: address@,
                            role: NodeRole::Primary,
                            last_seen: r@.config.nodes[0].last_seen,
                        },
                    ],
                    failover_enabled: true,
                    health_check_interval_ms: 1000,
                    health_check_timeout_ms: 3000,
                },
            ),
            r@.raft.peers.len() == 0,
    {
        ClusterManager { inner: ClusterNode::init_cluster(cluster_id, local_id, address, config_dir) }
    }

    /// Joins an existing cluster (see `ClusterNode::join_cluster`).
    pub fn join(local_id: NodeId, address: String, config_dir: String, config: ClusterConfig) -> (r: Self)
        ensures
            r@.is_joined(local_id@, config_dir@, config@),
    {
        ClusterManager { inner: ClusterNode::join_cluster(local_id, address, config_dir, config) }
    }

    /// Sets up a node from a saved configuration (see `ClusterNode::load`).
    pub fn load(local_id: NodeId, config_dir: String, config: ClusterConfig) -> (r: Self)
        ensures
            r@.is_joined(local_id@, config_dir@, config@),
    {
        ClusterManager { inner: ClusterNode::load(local_id, config_dir, config) }
    }

    /// Adds a node (see `ClusterNode::add_node`).
    pub fn add_node(&mut self, node: NodeInfo) -> (r: Result<(), CassetteError>)
        requires
            old(self)@.raft.p.log.len() < u64::MAX,
        ensures
            old(self)@.raft.v.role != RaftRole::Leader ==> r is Err && final(self)@ == old(self)@,
            r matches Err(e) ==> e is Cluster,
            old(self)@.raft.v.role == RaftRole::Leader ==> r is Ok && final(self)@ == old(self)@.added(node@),
    {
        self.inner.add_node(node)
    }

    /// Removes a node (see `ClusterNode::remove_node`).
    pub fn remove_node(&mut self, node_id: &NodeId) -> (r: Result<(), CassetteError>)
        requires
            old(self)@.raft.p.log.len() < u64::MAX,
        ensures
            old(self)@.raft.v.role != RaftRole::Leader ==> r is Err && final(self)@ == old(self)@,
            r matches Err(e) ==> e is Cluster,
            old(self)@.raft.v.role == RaftRole::Leader ==> r is Ok && final(self)@ == old(self)@.removed(node_id@),
    {
        self.inner.remove_node(node_id)
    }

    /// Fails over from `failed_node` to this node if allowed (see
    /// `ClusterNode::perform_failover`).
    pub fn failover(&mut self, failed_node: &NodeId) -> (r: Result<(), CassetteError>)
        ensures
            r is Err ==> final(self)@ == old(self)@,
            r matches Err(e) ==> e is Cluster,
            r is Ok ==> {
                &&& old(self)@.failover_conditions(failed_node@)
                &&& final(self)@ == old(self)@.failed_over(failed_node@, final(self)@.last_failover)
                &&& final(self)@.last_failover is Some
                &&& find_first(final(self)@.config.nodes, has_id(failed_node@)) is None
                &&& find_first(old(self)@.config.nodes, has_id(old(self)@.local_id)) is Some ==> (find_first(
                    final(self)@.config.nodes,
                    has_id(old(self)@.local_id),
                ) matches Some(n) && n.role == NodeRole::Primary)
            },
            old(self)@.last_failover is None ==> (r is Ok <==> old(self)@.failover_conditions(failed_node@)),
    {
        self.inner.perform_failover(failed_node)
    }

    /// Turns automatic failover on or off.  The caller saves the configuration.
    pub fn set_failover_enabled(&mut self, enabled: bool)
        ensures
            final(self)@ == (ClusterNodeView {
                config: ConfigView { failover_enabled: enabled, ..old(self)@.config },
                ..old(self)@
            }),
    {
        self.inner.config.failover_enabled = enabled;
    }

    /// The cluster's status.
    pub fn status(&self) -> (r: ClusterStatus)
        ensures
            self@.shown_by(r),
    {
        ClusterStatus::from_node(&self.inner)
    }

    /// The cluster node.
    pub fn node(&self) -> (r: &ClusterNode)
        ensures
            r@ == self@,
    {
        &self.inner
    }

    /// The cluster node, for driving it directly.
    pub fn node_mut(&mut self) -> (r: &mut ClusterNode)
        ensures
            r@ == old(self)@,
            final(self)@ == final(r)@,
    {
        &mut self.inner
    }
}

} // verus!

verus! {

/// After a node is added to a configuration, a node with its ID is found.
pub proof fn lemma_added_node_found(nodes: Seq<NodeInfoView>, node: NodeInfoView)
    ensures
        find_first(
            if find_first(nodes, has_id(node.id)) is Some { nodes } else { nodes.push(node) },
            has_id(node.id),
        ) is Some,
{
    crate::seqs::lemma_find_some_iff(nodes, has_id(node.id));
    if find_first(nodes, has_id(node.id)) is None {
        let s = nodes.push(node);
        assert(has_id(node.id)(s[nodes.len() as int]));
        crate::seqs::lemma_find_some_iff(s, has_id(node.id));
    }
}

/// After the nodes with an ID are removed from a configuration, none with
/// that ID is found, and every other node stays, in order.
pub proof fn lemma_removed_node_gone(nodes: Seq<NodeInfoView>, id: Seq<char>)
    ensures
        find_first(keep(nodes, lacks_id(id)), has_id(id)) is None,
        forall|x: Seq<char>| x != id ==> #[trigger] find_first(keep(nodes, lacks_id(id)), has_id(x)) == find_first(
            nodes,
            has_id(x),
        ),
    decreases nodes.len(),
{
    if nodes.len() > 0 {
        lemma_removed_node_gone(nodes.drop_last(), id);
        let k0 = keep(nodes.drop_last(), lacks_id(id));
        lemma_find_append(k0, nodes.last(), id);
        lemma_find_append(nodes.drop_last(), nodes.last(), id);
        assert(nodes.drop_last().push(nodes.last()) =~= nodes);
        assert forall|x: Seq<char>| x != id implies #[trigger] find_first(keep(nodes, lacks_id(id)), has_id(x))
            == find_first(nodes, has_id(x)) by {
            lemma_find_append(k0, nodes.last(), x);
            lemma_find_append(nodes.drop_last(), nodes.last(), x);
        }
    }
}

/// Searching a sequence with one more element at the end.
proof fn lemma_find_append(s: Seq<NodeInfoView>, n: NodeInfoView, id: Seq<char>)
    ensures
        find_first(s.push(n), has_id(id)) == match find_first(s, has_id(id)) {
            Some(m) => Some(m),
            None => if n.id == id { Some(n) } else { None },
        },
    decreases s.len(),
{
    if s.len() > 0 {
        assert(s.push(n).drop_first() =~= s.drop_first().push(n));
        lemma_find_append(s.drop_first(), n, id);
    } else {
        assert(s.push(n).drop_first() =~= s);
    }
}

/// After a failover from `failed` to `local`, no node `failed` is found,
/// the node `local` (if present) is found as primary, and every other node
/// stays as it was.
pub proof fn lemma_failover_roles(nodes: Seq<NodeInfoView>, failed: Seq<char>, local: Seq<char>)
    requires
        failed != local,
    ensures
        find_first(after_failover(nodes, failed, local), has_id(failed)) is None,
        find_first(nodes, has_id(local)) is Some ==> (find_first(after_failover(nodes, failed, local), has_id(local))
            matches Some(n) && n.role == NodeRole::Primary),
        forall|i: int|
            0 <= i < nodes.len() && nodes[i].id != failed && nodes[i].id != local ==> after_failover(
                nodes,
                failed,
                local,
            ).contains(#[trigger] nodes[i]),
{
    let kept = keep(nodes, lacks_id(failed));
    let after = after_failover(nodes, failed, local);
    assert forall|j: int| 0 <= j < after.len() implies !has_id(failed)(#[trigger] after[j]) by {
        assert(kept.contains(kept[j]));
        lemma_keep_contains(nodes, lacks_id(failed), kept[j]);
        assert(after[j] == promoted(local)(kept[j]));
    }
    lemma_find_none(after, has_id(failed));
    crate::seqs::lemma_find_some_iff(nodes, has_id(local));
    crate::seqs::lemma_find_some_iff(after, has_id(local));
    if find_first(nodes, has_id(local)) is Some {
        let i = choose|i: int| 0 <= i < nodes.len() && has_id(local)(#[trigger] nodes[i]);
        assert(nodes.contains(nodes[i]));
        lemma_keep_contains(nodes, lacks_id(failed), nodes[i]);
        let k = choose|k: int| 0 <= k < kept.len() && kept[k] == nodes[i];
        assert(has_id(local)(after[k]));
        crate::seqs::lemma_position_find(after, has_id(local));
        let m = crate::seqs::position(after, has_id(local));
        assert(after[m] == promoted(local)(kept[m]));
    }
    assert forall|i: int| 0 <= i < nodes.len() && nodes[i].id != failed && nodes[i].id != local implies after.contains(
        #[trigger] nodes[i],
    ) by {
        assert(nodes.contains(nodes[i]));
        lemma_keep_contains(nodes, lacks_id(failed), nodes[i]);
        let k = choose|k: int| 0 <= k < kept.len() && kept[k] == nodes[i];
        assert(after[k] == nodes[i]);
    }
}

} // verus!
