//! Raft consensus for leader election and log replication.
//!
//! A simplified Raft for cluster coordination: leader election through
//! RequestVote, heartbeats and replication through AppendEntries, and a log
//! of cluster commands.  Every state transition is a method of `RaftNode`
//! whose contract gives the next state exactly; the RPCs themselves are
//! carried by the caller.
use std::time::Instant;
use vstd::prelude::*;
use crate::assoc::{assoc_get, assoc_insert, assoc_remove, assoc_values, KeyedTable};
use crate::error::CassetteError;
use crate::shard::{ShardMap, ShardMapView};
use crate::text::{clone_strings, contains_str, opt_view, str_eq, views};
use crate::time::{nanos_since, now};

verus! {

/// Unique identifier for a Raft node.
pub type NodeId = String;

/// Raft term number.
pub type Term = u64;

/// Raft log index (1-based; 0 means "before the first entry").
pub type LogIndex = u64;

/// Commands that can be replicated through Raft.
#[derive(Debug, PartialEq)]
pub enum ClusterCommand {
    /// No-op sent by a new leader.
    NoOp,
    /// Add a node to the cluster.
    AddNode { node_id: NodeId, address: String },
    /// Remove a node from the cluster.
    RemoveNode { node_id: NodeId },
    /// Update shard assignment.
    UpdateShardMap { shard_map: ShardMap },
    /// Begin a distributed transaction.
    BeginDistTx { tx_id: String, participants: Vec<NodeId> },
    /// Commit a distributed transaction.
    CommitDistTx { tx_id: String },
    /// Abort a distributed transaction.
    AbortDistTx { tx_id: String },
}

/// The plain value of a cluster command.
pub enum CommandView {
    NoOp,
    AddNode { node_id: Seq<char>, address: Seq<char> },
    RemoveNode { node_id: Seq<char> },
    UpdateShardMap { shard_map: ShardMapView },
    BeginDistTx { tx_id: Seq<char>, participants: Seq<Seq<char>> },
    CommitDistTx { tx_id: Seq<char> },
    AbortDistTx { tx_id: Seq<char> },
}

impl View for ClusterCommand {
    type V = CommandView;

    open spec fn view(&self) -> CommandView {
        match self {
            ClusterCommand::NoOp => CommandView::NoOp,
            ClusterCommand::AddNode { node_id, address } => CommandView::AddNode {
                node_id: node_id@,
                address: address@,
            },
            ClusterCommand::RemoveNode { node_id } => CommandView::RemoveNode { node_id: node_id@ },
            ClusterCommand::UpdateShardMap { shard_map } => CommandView::UpdateShardMap {
                shard_map: shard_map@,
            },
            ClusterCommand::BeginDistTx { tx_id, participants } => CommandView::BeginDistTx {
                tx_id: tx_id@,
                participants: views(participants@),
            },
            ClusterCommand::CommitDistTx { tx_id } => CommandView::CommitDistTx { tx_id: tx_id@ },
            ClusterCommand::AbortDistTx { tx_id } => CommandView::AbortDistTx { tx_id: tx_id@ },
        }
    }
}

impl Clone for ClusterCommand {
    fn clone(&self) -> (r: Self)
        ensures
            r@ == self@,
    {
        match self {
            ClusterCommand::NoOp => ClusterCommand::NoOp,
            ClusterCommand::AddNode { node_id, address } => ClusterCommand::AddNode {
                node_id: node_id.clone(),
                address: address.clone(),
            },
            ClusterCommand::RemoveNode { node_id } => ClusterCommand::RemoveNode {
                node_id: node_id.clone(),
            },
            ClusterCommand::UpdateShardMap { shard_map } => ClusterCommand::UpdateShardMap {
                shard_map: shard_map.clone(),
            },
            ClusterCommand::BeginDistTx { tx_id, participants } => ClusterCommand::BeginDistTx {
                tx_id: tx_id.clone(),
                participants: clone_strings(participants),
            },
            ClusterCommand::CommitDistTx { tx_id } => ClusterCommand::CommitDistTx {
                tx_id: tx_id.clone(),
            },
            ClusterCommand::AbortDistTx { tx_id } => ClusterCommand::AbortDistTx {
                tx_id: tx_id.clone(),
            },
        }
    }
}

/// A single entry in the Raft log.
#[derive(Debug, PartialEq)]
pub struct LogEntry {
    pub index: LogIndex,
    pub term: Term,
    pub command: ClusterCommand,
}

/// The plain value of a log entry.
pub struct EntryView {
    pub index: LogIndex,
    pub term: Term,
    pub command: CommandView,
}

impl View for LogEntry {
    type V = EntryView;

    open spec fn view(&self) -> EntryView {
        EntryView { index: self.index, term: self.term, command: self.command@ }
    }
}

impl Clone for LogEntry {
    fn clone(&self) -> (r: Self)
        ensures
            r@ == self@,
    {
        LogEntry { index: self.index, term: self.term, command: self.command.clone() }
    }
}

/// The plain values of a sequence of log entries.
pub open spec fn log_view(s: Seq<LogEntry>) -> Seq<EntryView> {
    s.map_values(|e: LogEntry| e@)
}

/// The commands of a sequence of entries.
pub open spec fn commands(s: Seq<EntryView>) -> Seq<CommandView> {
    s.map_values(|e: EntryView| e.command)
}

/// Role of a Raft node.
#[derive(Debug, Clone, Copy, PartialEq, Eq, Structural)]
pub enum RaftRole {
    Follower,
    Candidate,
    Leader,
}

impl RaftRole {
    /// The role's name, as it is displayed.
    pub fn name(&self) -> (r: &'static str)
        ensures
            r@ == match self {
                RaftRole::Follower => "Follower"@,
                RaftRole::Candidate => "Candidate"@,
                RaftRole::Leader => "Leader"@,
            },
    {
        match self {
            RaftRole::Follower => "Follower",
            RaftRole::Candidate => "Candidate",
            RaftRole::Leader => "Leader",
        }
    }
}

/// Persistent Raft state that must survive crashes.
#[derive(Debug)]
pub struct PersistentState {
    pub current_term: Term,
    pub voted_for: Option<NodeId>,
    pub log: Vec<LogEntry>,
}

/// The plain value of the persistent state.
pub struct PersistentView {
    pub current_term: Term,
    pub voted_for: Option<Seq<char>>,
    pub log: Seq<EntryView>,
}

impl View for PersistentState {
    type V = PersistentView;

    open spec fn view(&self) -> PersistentView {
        PersistentView {
            current_term: self.current_term,
            voted_for: opt_view(self.voted_for),
            log: log_view(self.log@),
        }
    }
}

impl PersistentView {
    /// Index of the last entry (0 when the log is empty).
    pub open spec fn last_index(self) -> nat {
        self.log.len()
    }

    /// Term of the last entry (0 when the log is empty).
    pub open spec fn last_term(self) -> Term {
        if self.log.len() == 0 {
            0
        } else {
            self.log.last().term
        }
    }

    /// The entry at 1-based `index`, if there is one.
    pub open spec fn entry(self, index: int) -> Option<EntryView> {
        if 1 <= index <= self.log.len() {
            Some(self.log[index - 1])
        } else {
            None
        }
    }

    /// The term of the entry at `index`, or 0 when there is none.
    pub open spec fn term_at(self, index: int) -> Term {
        match self.entry(index) {
            Some(e) => e.term,
            None => 0,
        }
    }
}

impl PersistentState {
    /// Term 0, no vote, an empty log.
    pub fn new() -> (r: Self)
        ensures
            r@.current_term == 0,
            r@.voted_for is None,
            r@.log.len() == 0,
    {
        PersistentState { current_term: 0, voted_for: None, log: Vec::new() }
    }

    /// Appends an entry with the next index and returns that index.
    pub fn append(&mut self, term: Term, command: ClusterCommand) -> (r: LogIndex)
        requires
            old(self).log@.len() < u64::MAX,
        ensures
            r == old(self)@.log.len() + 1,
            final(self)@.current_term == old(self)@.current_term,
            final(self)@.voted_for == old(self)@.voted_for,
            final(self)@.log == old(self)@.log.push(
                EntryView { index: r, term: term, command: command@ },
            ),
    {
        let index = self.log.len() as u64 + 1;
        let ghost cmd = command@;
        self.log.push(LogEntry { index, term, command });
        assert(log_view(self.log@) =~= log_view(old(self).log@).push(
            EntryView { index, term, command: cmd },
        ));
        index
    }

    /// Index of the last entry.
    pub fn last_index(&self) -> (r: LogIndex)
        ensures
            r == self@.last_index(),
    {
        self.log.len() as u64
    }

    /// Term of the last entry (0 if the log is empty).
    pub fn last_term(&self) -> (r: Term)
        ensures
            r == self@.last_term(),
    {
        if self.log.len() == 0 {
            0
        } else {
            self.log[self.log.len() - 1].term
        }
    }

    /// The entry at a 1-based index.
    pub fn entry(&self, index: LogIndex) -> (r: Option<&LogEntry>)
        ensures
            match r {
                Some(e) => self@.entry(index as int) == Some(e@),
                None => self@.entry(index as int) is None,
            },
    {
        if index == 0 || index > self.log.len() as u64 {
            None
        } else {
            Some(&self.log[(index - 1) as usize])
        }
    }

    /// The term of the entry at `index`, or 0 when there is none.
    pub fn term_at(&self, index: LogIndex) -> (r: Term)
        ensures
            r == self@.term_at(index as int),
    {
        match self.entry(index) {
            Some(e) => e.term,
            None => 0,
        }
    }
}

impl Default for PersistentState {
    fn default() -> (r: Self)
        ensures
            r@.current_term == 0,
            r@.voted_for is None,
            r@.log.len() == 0,
    {
        PersistentState::new()
    }
}

/// A read of the log gives back what an append wrote: after appending, the
/// returned index names the appended entry and every earlier entry is unchanged.
pub proof fn lemma_append_then_entry(before: PersistentView, after: PersistentView, term: Term, command: CommandView)
    requires
        after.log == before.log.push(EntryView { index: (before.log.len() + 1) as u64, term, command }),
    ensures
        after.entry(before.log.len() + 1int) == Some(
            EntryView { index: (before.log.len() + 1) as u64, term, command },
        ),
        forall|i: int| 1 <= i <= before.log.len() ==> after.entry(i) == before.entry(i),
        after.last_index() == before.last_index() + 1,
        after.last_term() == term,
{
}

/// RequestVote RPC request.
#[derive(Debug)]
pub struct RequestVoteRequest {
    pub term: Term,
    pub candidate_id: NodeId,
    pub last_log_index: LogIndex,
    pub last_log_term: Term,
}

impl Clone for RequestVoteRequest {
    fn clone(&self) -> (r: Self)
        ensures
            r.term == self.term,
            r.candidate_id@ == self.candidate_id@,
            r.last_log_index == self.last_log_index,
            r.last_log_term == self.last_log_term,
    {
        RequestVoteRequest {
            term: self.term,
            candidate_id: self.candidate_id.clone(),
            last_log_index: self.last_log_index,
            last_log_term: self.last_log_term,
        }
    }
}

/// RequestVote RPC response.
#[derive(Debug, Clone, Copy, PartialEq, Eq, Structural)]
pub struct RequestVoteResponse {
    pub term: Term,
    pub vote_granted: bool,
}

/// AppendEntries RPC request (also used as heartbeat).
#[derive(Debug)]
pub struct AppendEntriesRequest {
    pub term: Term,
    pub leader_id: NodeId,
    pub prev_log_index: LogIndex,
    pub prev_log_term: Term,
    pub entries: Vec<LogEntry>,
    pub leader_commit: LogIndex,
}

/// AppendEntries RPC response.
#[derive(Debug, Clone, Copy, PartialEq, Eq, Structural)]
pub struct AppendEntriesResponse {
    pub term: Term,
    pub success: bool,
    pub match_index: LogIndex,
}

/// A per-peer index table (next index or match index).
pub type PeerIndex = KeyedTable<LogIndex>;

/// Volatile state common to all Raft nodes.
#[derive(Debug)]
pub struct VolatileState {
    pub commit_index: LogIndex,
    pub last_applied: LogIndex,
    pub role: RaftRole,
    pub leader_id: Option<NodeId>,
    pub last_heartbeat: Instant,
    pub votes_received: Vec<NodeId>,
    pub next_index: PeerIndex,
    pub match_index: PeerIndex,
    pub election_timeout_ms: u64,
    pub heartbeat_interval_ms: u64,
}

/// The plain value of the volatile state.
pub struct VolatileView {
    pub commit_index: LogIndex,
    pub last_applied: LogIndex,
    pub role: RaftRole,
    pub leader_id: Option<Seq<char>>,
    pub last_heartbeat: Instant,
    pub votes_received: Seq<Seq<char>>,
    pub next_index: Seq<(Seq<char>, u64)>,
    pub match_index: Seq<(Seq<char>, u64)>,
    pub election_timeout_ms: u64,
    pub heartbeat_interval_ms: u64,
}

impl View for VolatileState {
    type V = VolatileView;

    open spec fn view(&self) -> VolatileView {
        VolatileView {
            commit_index: self.commit_index,
            last_applied: self.last_applied,
            role: self.role,
            leader_id: opt_view(self.leader_id),
            last_heartbeat: self.last_heartbeat,
            votes_received: views(self.votes_received@),
            next_index: self.next_index@,
            match_index: self.match_index@,
            election_timeout_ms: self.election_timeout_ms,
            heartbeat_interval_ms: self.heartbeat_interval_ms,
        }
    }
}

impl VolatileState {
    /// A follower with nothing committed, no known leader, and the timer started now.
    pub fn new(election_timeout_ms: u64, heartbeat_interval_ms: u64) -> (r: Self)
        ensures
            r@.commit_index == 0,
            r@.last_applied == 0,
            r@.role == RaftRole::Follower,
            r@.leader_id is None,
            r@.votes_received.len() == 0,
            r@.next_index.len() == 0,
            r@.match_index.len() == 0,
            r@.election_timeout_ms == election_timeout_ms,
            r@.heartbeat_interval_ms == heartbeat_interval_ms,
    {
        Self::new_at(election_timeout_ms, heartbeat_interval_ms, now())
    }

    /// A follower with nothing committed, no known leader, and the timer
    /// started at `at`.
    pub fn new_at(election_timeout_ms: u64, heartbeat_interval_ms: u64, at: Instant) -> (r: Self)
        ensures
            r@.commit_index == 0,
            r@.last_applied == 0,
            r@.role == RaftRole::Follower,
            r@.leader_id is None,
            r@.last_heartbeat == at,
            r@.votes_received.len() == 0,
            r@.next_index.len() == 0,
            r@.match_index.len() == 0,
            r@.election_timeout_ms == election_timeout_ms,
            r@.heartbeat_interval_ms == heartbeat_interval_ms,
    {
        let r = VolatileState {
            commit_index: 0,
            last_applied: 0,
            role: RaftRole::Follower,
            leader_id: None,
            last_heartbeat: at,
            votes_received: Vec::new(),
            next_index: PeerIndex::new(),
            match_index: PeerIndex::new(),
            election_timeout_ms,
            heartbeat_interval_ms,
        };
        assert(r@.votes_received =~= Seq::<Seq<char>>::empty());
        r
    }

    /// Restarts the election timer.
    pub fn reset_election_timer(&mut self)
        ensures
            final(self)@ == (VolatileView { last_heartbeat: final(self)@.last_heartbeat, ..old(self)@ }),
    {
        self.last_heartbeat = now();
    }

    /// Whether `elapsed_nanos` since the last heartbeat exceeds the election timeout.
    pub fn timed_out_after(&self, elapsed_nanos: u128) -> (r: bool)
        ensures
            r == (elapsed_nanos > self.election_timeout_ms * 1_000_000),
    {
        elapsed_nanos > (self.election_timeout_ms as u128) * 1_000_000
    }

    /// Whether the election timeout has passed since the last heartbeat, by the clock.
    pub fn is_election_timed_out(&self) -> bool {
        let elapsed = nanos_since(&self.last_heartbeat);
        self.timed_out_after(elapsed)
    }
}

/// The largest value `v` of `s` such that more than `k` values of `s` are at
/// least `v`: with `s` sorted in descending order, the value at position `k`.
pub open spec fn is_kth_largest(s: Seq<u64>, k: nat, v: u64) -> bool {
    &&& s.contains(v)
    &&& count_at_least(s, v) > k
    &&& forall|w: u64| s.contains(w) && count_at_least(s, w) > k ==> w <= v
}

/// The value that `is_kth_largest` determines.
pub open spec fn kth_largest(s: Seq<u64>, k: nat) -> u64 {
    choose|v: u64| is_kth_largest(s, k, v)
}

/// `is_kth_largest` holds of one value only.
pub proof fn lemma_kth_largest_unique(s: Seq<u64>, k: nat, a: u64, b: u64)
    requires
        is_kth_largest(s, k, a),
        is_kth_largest(s, k, b),
    ensures
        a == b,
{
}

/// How many values of `s` are at least `v`.
pub open spec fn count_at_least(s: Seq<u64>, v: u64) -> nat
    decreases s.len(),
{
    if s.len() == 0 {
        0
    } else {
        count_at_least(s.drop_last(), v) + if s.last() >= v { 1nat } else { 0nat }
    }
}

proof fn lemma_count_all(s: Seq<u64>, v: u64)
    requires
        forall|j: int| 0 <= j < s.len() ==> s[j] >= v,
    ensures
        count_at_least(s, v) == s.len(),
    decreases s.len(),
{
    if s.len() > 0 {
        lemma_count_all(s.drop_last(), v);
    }
}

fn count_at_least_exec(s: &Vec<u64>, v: u64) -> (r: usize)
    ensures
        r == count_at_least(s@, v),
{
    let mut c: usize = 0;
    let mut j: usize = 0;
    while j < s.len()
        invariant
            j <= s.len(),
            c == count_at_least(s@.subrange(0, j as int), v),
            c <= j,
        decreases s.len() - j,
    {
        assert(s@.subrange(0, j + 1).drop_last() =~= s@.subrange(0, j as int));
        if s[j] >= v {
            c = c + 1;
        }
        j = j + 1;
    }
    assert(s@.subrange(0, j as int) =~= s@);
    c
}

/// The match index that a majority has reached: the value at position
/// `len / 2` of `values` sorted in descending order.
pub fn quorum_match(values: &Vec<u64>) -> (r: u64)
    requires
        values@.len() > 0,
    ensures
        is_kth_largest(values@, (values@.len() / 2) as nat, r),
        r == kth_largest(values@, (values@.len() / 2) as nat),
{
    let n = values.len();
    let k = n / 2;
    let mut m: usize = 0;
    let mut i: usize = 1;
    while i < n
        invariant
            n == values@.len(),
            m < n,
            1 <= i <= n,
            forall|j: int| 0 <= j < i ==> values@[j] >= values@[m as int],
        decreases n - i,
    {
        if values[i] < values[m] {
            m = i;
        }
        i = i + 1;
    }
    proof {
        lemma_count_all(values@, values@[m as int]);
    }
    let mut best = values[m];
    let mut i: usize = 0;
    while i < n
        invariant
            n == values@.len(),
            k == n / 2,
            i <= n,
            values@.contains(best),
            count_at_least(values@, best) > k,
            forall|j: int| 0 <= j < i && count_at_least(values@, values@[j]) > k ==> values@[j] <= best,
        decreases n - i,
    {
        let c = count_at_least_exec(values, values[i]);
        if c > k && values[i] > best {
            best = values[i];
        }
        i = i + 1;
    }
    proof {
        assert forall|w: u64| values@.contains(w) && count_at_least(values@, w) > k implies w <= best by {
            let j = choose|j: int| 0 <= j < values@.len() && values@[j] == w;
        }
        let q = kth_largest(values@, k as nat);
        assert(is_kth_largest(values@, k as nat, best));
        assert(is_kth_largest(values@, k as nat, q));
    }
    best
}

/// In-memory Raft node.
#[derive(Debug)]
pub struct RaftNode {
    node_id: NodeId,
    peers: Vec<NodeId>,
    persistent: PersistentState,
    volatile: VolatileState,
}

/// The plain value of a Raft node.
pub struct RaftNodeView {
    pub node_id: Seq<char>,
    pub peers: Seq<Seq<char>>,
    pub p: PersistentView,
    pub v: VolatileView,
}

impl RaftNode {
    /// The node's state as plain values.
    pub closed spec fn spec_state(&self) -> RaftNodeView {
        RaftNodeView {
            node_id: self.node_id@,
            peers: views(self.peers@),
            p: self.persistent@,
            v: self.volatile@,
        }
    }
}

impl View for RaftNode {
    type V = RaftNodeView;

    open spec fn view(&self) -> RaftNodeView {
        self.spec_state()
    }
}

/// Sets `v` for every key of `keys`, in order.
pub open spec fn insert_all(m: Seq<(Seq<char>, u64)>, keys: Seq<Seq<char>>, v: u64) -> Seq<(Seq<char>, u64)>
    decreases keys.len(),
{
    if keys.len() == 0 {
        m
    } else {
        assoc_insert(insert_all(m, keys.drop_last(), v), keys.last(), v)
    }
}

impl RaftNodeView {
    /// Votes needed to win an election: a strict majority of the peers and this node.
    pub open spec fn quorum(self) -> nat {
        (self.peers.len() + 1) / 2 + 1
    }

    /// A leader names itself as leader.
    pub open spec fn leader_is_self(self) -> bool {
        self.v.role == RaftRole::Leader ==> self.v.leader_id == Some(self.node_id)
    }

    /// The same state with the election timer restarted at `t`.
    pub open spec fn timer_at(self, t: Instant) -> Self {
        RaftNodeView { v: VolatileView { last_heartbeat: t, ..self.v }, ..self }
    }

    /// On seeing `term`, a newer term: adopt it, forget the vote, follow, forget the leader.
    pub open spec fn step_down(self, term: Term) -> Self {
        RaftNodeView {
            p: PersistentView { current_term: term, voted_for: None, ..self.p },
            v: VolatileView { role: RaftRole::Follower, leader_id: None, ..self.v },
            ..self
        }
    }

    /// Whether a candidate's log (last index, last term) is at least as up to date as ours.
    pub open spec fn log_ok(self, last_log_index: u64, last_log_term: u64) -> bool {
        last_log_term > self.p.last_term() || (last_log_term == self.p.last_term()
            && last_log_index >= self.p.last_index())
    }

    /// Whether the log agrees with a leader at `prev_index` / `prev_term`.
    /// Index 0 agrees when `prev_term` is 0; a missing entry is taken as agreeing.
    pub open spec fn log_consistent(self, prev_index: u64, prev_term: u64) -> bool {
        if prev_index == 0 {
            prev_term == 0
        } else {
            match self.p.entry(prev_index as int) {
                Some(e) => e.term == prev_term,
                None => true,
            }
        }
    }
}

/// One entry sent by a leader merged into the log: a new index is appended, an
/// existing index with another term replaces the rest of the log from there,
/// and a matching or zero index changes nothing.
pub open spec fn apply_entry(log: Seq<EntryView>, e: EntryView) -> Seq<EntryView> {
    if e.index > log.len() {
        log.push(e)
    } else if e.index >= 1 && log[e.index - 1].term != e.term {
        log.subrange(0, e.index - 1).push(e)
    } else {
        log
    }
}

/// The entries merged into the log in order.
pub open spec fn apply_entries(log: Seq<EntryView>, es: Seq<EntryView>) -> Seq<EntryView>
    decreases es.len(),
{
    if es.len() == 0 {
        log
    } else {
        apply_entry(apply_entries(log, es.drop_last()), es.last())
    }
}

/// The commands that applying committed entries yields: those of the entries
/// after `last_applied` up to `commit_index` that the log holds.
pub open spec fn applied_commands(log: Seq<EntryView>, last_applied: u64, commit_index: u64) -> Seq<CommandView> {
    let lo = if last_applied <= log.len() { last_applied as int } else { log.len() as int };
    let top = if commit_index > last_applied { commit_index } else { last_applied };
    let hi = if top <= log.len() { top as int } else { log.len() as int };
    commands(log.subrange(lo, hi))
}

impl RaftNodeView {
    /// A fresh node: term 0, no vote, empty log, nothing committed, a
    /// follower with no known leader and no votes; each peer at next index 1
    /// and match index 0; timeouts of 150 ms (election) and 50 ms (heartbeat).
    pub open spec fn is_initial(self, node_id: Seq<char>, peers: Seq<Seq<char>>) -> bool {
        &&& self.node_id == node_id
        &&& self.peers == peers
        &&& self.p.current_term == 0
        &&& self.p.voted_for is None
        &&& self.p.log.len() == 0
        &&& self.v.commit_index == 0
        &&& self.v.last_applied == 0
        &&& self.v.role == RaftRole::Follower
        &&& self.v.leader_id is None
        &&& self.v.votes_received.len() == 0
        &&& self.v.next_index == insert_all(Seq::empty(), peers, 1)
        &&& self.v.match_index == insert_all(Seq::empty(), peers, 0)
        &&& self.v.election_timeout_ms == 150
        &&& self.v.heartbeat_interval_ms == 50
    }

    /// The state after a leader appends `command` to its log at the current term.
    pub open spec fn proposed(self, command: CommandView) -> Self {
        RaftNodeView {
            p: PersistentView {
                log: self.p.log.push(
                    EntryView { index: (self.p.log.len() + 1) as u64, term: self.p.current_term, command },
                ),
                ..self.p
            },
            ..self
        }
    }

    /// The transition of starting an election, to `s`, with the request `r` to send.
    pub open spec fn election_step(self, s: Self, r: RequestVoteRequest) -> bool {
        &&& s == (RaftNodeView {
            p: PersistentView {
                current_term: (self.p.current_term + 1) as u64,
                voted_for: Some(self.node_id),
                ..self.p
            },
            v: VolatileView {
                role: RaftRole::Candidate,
                votes_received: seq![self.node_id],
                last_heartbeat: s.v.last_heartbeat,
                ..self.v
            },
            ..self
        })
        &&& r.term == self.p.current_term + 1
        &&& r.candidate_id@ == self.node_id
        &&& r.last_log_index == self.p.last_index()
        &&& r.last_log_term == self.p.last_term()
    }

    /// The state after starting to track `peer` (next index 1, match index 0),
    /// unless it is a configured peer or this node.
    pub open spec fn with_peer(self, peer: Seq<char>) -> Self {
        if !self.peers.contains(peer) && peer != self.node_id {
            RaftNodeView {
                v: VolatileView {
                    next_index: assoc_insert(self.v.next_index, peer, 1),
                    match_index: assoc_insert(self.v.match_index, peer, 0),
                    ..self.v
                },
                ..self
            }
        } else {
            self
        }
    }

    /// The state after applying the committed entries: the last applied
    /// index reaches the commit index.
    pub open spec fn after_apply(self) -> Self {
        RaftNodeView {
            v: VolatileView {
                last_applied: if self.v.commit_index > self.v.last_applied {
                    self.v.commit_index
                } else {
                    self.v.last_applied
                },
                ..self.v
            },
            ..self
        }
    }

    /// The state after no longer tracking `peer`'s indices.
    pub open spec fn without_peer(self, peer: Seq<char>) -> Self {
        RaftNodeView {
            v: VolatileView {
                next_index: assoc_remove(self.v.next_index, peer),
                match_index: assoc_remove(self.v.match_index, peer),
                ..self.v
            },
            ..self
        }
    }

    /// The transition of answering a RequestVote `req` with `res`, from this state to `s`.
    pub open spec fn request_vote_step(self, req: RequestVoteRequest, s: Self, res: RequestVoteResponse) -> bool {
        let s1 = if req.term > self.p.current_term { self.step_down(req.term) } else { self };
        let granted = req.term >= self.p.current_term && s1.log_ok(
            req.last_log_index,
            req.last_log_term,
        ) && (s1.p.voted_for is None || s1.p.voted_for == Some(req.candidate_id@));
        &&& res.term == s1.p.current_term
        &&& res.vote_granted == granted
        &&& granted ==> s == (RaftNodeView {
            p: PersistentView { voted_for: Some(req.candidate_id@), ..s1.p },
            ..s1
        }).timer_at(s.v.last_heartbeat)
        &&& !granted ==> s == s1
    }

    /// The transition of recording the vote response `res` from `voter`, from this state to `s`, with `won` reported.
    pub open spec fn vote_step(self, voter: Seq<char>, res: RequestVoteResponse, s: Self, won: bool) -> bool {
        if res.term > self.p.current_term {
            !won && s == self.step_down(res.term)
        } else if res.term < self.p.current_term || self.v.role != RaftRole::Candidate {
            !won && s == self
        } else {
            let votes = if res.vote_granted && !self.v.votes_received.contains(voter) {
                self.v.votes_received.push(voter)
            } else {
                self.v.votes_received
            };
            let s1 = RaftNodeView { v: VolatileView { votes_received: votes, ..self.v }, ..self };
            &&& won == (votes.len() >= self.quorum())
            &&& !won ==> s == s1
            &&& won ==> s == (RaftNodeView {
                v: VolatileView {
                    role: RaftRole::Leader,
                    leader_id: Some(self.node_id),
                    next_index: insert_all(self.v.next_index, self.peers, (self.p.log.len() + 1) as u64),
                    match_index: insert_all(self.v.match_index, self.peers, 0),
                    ..s1.v
                },
                ..s1
            })
        }
    }

    /// The transition of answering an AppendEntries `req` with `res`, from this state to `s`.
    pub open spec fn append_entries_step(self, req: AppendEntriesRequest, s: Self, res: AppendEntriesResponse) -> bool {
        if req.term < self.p.current_term {
            &&& s == self
            &&& res == AppendEntriesResponse { term: self.p.current_term, success: false, match_index: 0 }
        } else {
            let s1 = RaftNodeView {
                p: PersistentView {
                    current_term: req.term,
                    voted_for: if req.term > self.p.current_term { None } else { self.p.voted_for },
                    ..self.p
                },
                v: VolatileView {
                    role: RaftRole::Follower,
                    leader_id: Some(req.leader_id@),
                    last_heartbeat: s.v.last_heartbeat,
                    ..self.v
                },
                ..self
            };
            if !self.log_consistent(req.prev_log_index, req.prev_log_term) {
                &&& s == s1
                &&& res == AppendEntriesResponse { term: req.term, success: false, match_index: 0 }
            } else {
                let log = apply_entries(self.p.log, log_view(req.entries@));
                let commit = if req.leader_commit > self.v.commit_index {
                    if req.leader_commit <= log.len() { req.leader_commit } else { log.len() as u64 }
                } else {
                    self.v.commit_index
                };
                &&& s == (RaftNodeView {
                    p: PersistentView { log: log, ..s1.p },
                    v: VolatileView { commit_index: commit, ..s1.v },
                    ..s1
                })
                &&& res == AppendEntriesResponse {
                    term: req.term,
                    success: true,
                    match_index: (req.prev_log_index + req.entries@.len()) as u64,
                }
            }
        }
    }

    /// The transition of recording a successful AppendEntries reply `res` from `peer`, from this state to `s`.
    pub open spec fn append_success_step(self, peer: Seq<char>, res: AppendEntriesResponse, s: Self) -> bool {
        if res.term > self.p.current_term {
            s == self.step_down(res.term)
        } else if self.v.role != RaftRole::Leader {
            s == self
        } else {
            let mi = assoc_insert(self.v.match_index, peer, res.match_index);
            let ni = assoc_insert(self.v.next_index, peer, (res.match_index + 1) as u64);
            let s1 = RaftNodeView { v: VolatileView { match_index: mi, next_index: ni, ..self.v }, ..self };
            if res.match_index > self.v.commit_index {
                let vals = assoc_values(mi).push(self.p.log.len() as u64);
                let q = kth_largest(vals, (vals.len() / 2) as nat);
                s == if q > self.v.commit_index && self.p.term_at(q as int) == self.p.current_term {
                    RaftNodeView { v: VolatileView { commit_index: q, ..s1.v }, ..s1 }
                } else {
                    s1
                }
            } else {
                s == s1
            }
        }
    }

    /// The transition of recording a failed AppendEntries reply `res` from `peer`, from this state to `s`.
    pub open spec fn append_failure_step(self, peer: Seq<char>, res: AppendEntriesResponse, s: Self) -> bool {
        if res.term > self.p.current_term {
            s == self.step_down(res.term)
        } else if self.v.role != RaftRole::Leader {
            s == self
        } else {
            let next = match assoc_get(self.v.next_index, peer) {
                Some(n) => n,
                None => 1,
            };
            if next > 1 {
                s == (RaftNodeView {
                    v: VolatileView { next_index: assoc_insert(self.v.next_index, peer, (next - 1) as u64), ..self.v },
                    ..self
                })
            } else {
                s == self
            }
        }
    }
}


impl RaftNode {
    /// A follower at term 0 with an empty log; each peer starts at next index 1
    /// and match index 0.
    pub fn new(node_id: NodeId, peers: Vec<NodeId>) -> (r: Self)
        ensures
            r@.is_initial(node_id@, views(peers@)),
            r@.leader_is_self(),
    {
        let mut volatile = VolatileState::new(150, 50);
        let mut i: usize = 0;
        while i < peers.len()
            invariant
                i <= peers.len(),
                volatile@.commit_index == 0,
                volatile@.last_applied == 0,
                volatile@.role == RaftRole::Follower,
                volatile@.leader_id is None,
                volatile@.votes_received.len() == 0,
                volatile@.election_timeout_ms == 150,
                volatile@.heartbeat_interval_ms == 50,
                volatile@.next_index == insert_all(Seq::empty(), views(peers@).subrange(0, i as int), 1),
                volatile@.match_index == insert_all(Seq::empty(), views(peers@).subrange(0, i as int), 0),
            decreases peers.len() - i,
        {
            assert(views(peers@).subrange(0, i + 1).drop_last() =~= views(peers@).subrange(0, i as int));
            volatile.next_index.insert(peers[i].clone(), 1);
            volatile.match_index.insert(peers[i].clone(), 0);
            i = i + 1;
        }
        assert(views(peers@).subrange(0, i as int) =~= views(peers@));
        RaftNode { node_id, peers, persistent: PersistentState::new(), volatile }
    }

    /// This node's ID.
    pub fn node_id(&self) -> (r: &NodeId)
        ensures
            r@ == self@.node_id,
    {
        &self.node_id
    }

    /// The current term.
    pub fn current_term(&self) -> (r: Term)
        ensures
            r == self@.p.current_term,
    {
        self.persistent.current_term
    }

    /// The current role.
    pub fn role(&self) -> (r: RaftRole)
        ensures
            r == self@.v.role,
    {
        self.volatile.role
    }

    /// The current leader, if known.
    pub fn leader_id(&self) -> (r: Option<NodeId>)
        ensures
            opt_view(r) == self@.v.leader_id,
    {
        match &self.volatile.leader_id {
            Some(l) => Some(l.clone()),
            None => None,
        }
    }

    /// Whether this node is the leader.
    pub fn is_leader(&self) -> (r: bool)
        ensures
            r == (self@.v.role == RaftRole::Leader),
    {
        self.volatile.role == RaftRole::Leader
    }

    /// The peer node IDs.
    pub fn peers(&self) -> (r: &[NodeId])
        ensures
            views(r@) == self@.peers,
    {
        self.peers.as_slice()
    }

    /// A copy of the log.
    pub fn log(&self) -> (r: Vec<LogEntry>)
        ensures
            log_view(r@) == self@.p.log,
    {
        let mut out: Vec<LogEntry> = Vec::new();
        let mut i: usize = 0;
        while i < self.persistent.log.len()
            invariant
                i <= self.persistent.log.len(),
                log_view(out@) == log_view(self.persistent.log@).subrange(0, i as int),
            decreases self.persistent.log.len() - i,
        {
            let e = self.persistent.log[i].clone();
            let ghost before = out@;
            out.push(e);
            assert(log_view(out@) =~= log_view(before).push(e@));
            i = i + 1;
            assert(log_view(out@) =~= log_view(self.persistent.log@).subrange(0, i as int));
        }
        assert(log_view(self.persistent.log@).subrange(0, i as int) =~= log_view(self.persistent.log@));
        out
    }

    /// The persistent state, for inspection.
    pub fn persistent(&self) -> (r: &PersistentState)
        ensures
            r@ == self@.p,
    {
        &self.persistent
    }

    /// The volatile state, for inspection.
    pub fn volatile(&self) -> (r: &VolatileState)
        ensures
            r@ == self@.v,
    {
        &self.volatile
    }

    /// The persistent state, for direct modification (restoring saved state, tests).
    pub fn persistent_mut(&mut self) -> (r: &mut PersistentState)
        ensures
            r@ == old(self)@.p,
            final(self)@ == (RaftNodeView { p: final(r)@, ..old(self)@ }),
    {
        &mut self.persistent
    }

    /// The volatile state, for direct modification (tests).
    pub fn volatile_mut(&mut self) -> (r: &mut VolatileState)
        ensures
            r@ == old(self)@.v,
            final(self)@ == (RaftNodeView { v: final(r)@, ..old(self)@ }),
    {
        &mut self.volatile
    }

    fn step_down_to(&mut self, term: Term)
        ensures
            final(self)@ == old(self)@.step_down(term),
    {
        self.persistent.current_term = term;
        self.persistent.voted_for = None;
        self.volatile.role = RaftRole::Follower;
        self.volatile.leader_id = None;
    }

    /// Appends a command to the log; only the leader may.
    pub fn propose(&mut self, command: ClusterCommand) -> (r: Result<LogIndex, CassetteError>)
        requires
            old(self)@.p.log.len() < u64::MAX,
        ensures
            old(self)@.v.role != RaftRole::Leader ==> r is Err && final(self)@ == old(self)@,
            r matches Err(e) ==> e is Cluster,
            old(self)@.v.role == RaftRole::Leader ==> r == Ok::<LogIndex, CassetteError>(
                (old(self)@.p.log.len() + 1) as u64,
            ) && final(self)@ == old(self)@.proposed(command@),
    {
        if self.volatile.role != RaftRole::Leader {
            return Err(CassetteError::Cluster("only leader can propose commands".to_string()));
        }
        let term = self.persistent.current_term;
        let index = self.persistent.append(term, command);
        Ok(index)
    }

    /// Starts an election: a new term, a vote for itself, candidacy.
    pub fn start_election(&mut self) -> (r: RequestVoteRequest)
        requires
            old(self)@.p.current_term < u64::MAX,
        ensures
            old(self)@.election_step(final(self)@, r),
            old(self)@.leader_is_self() ==> final(self)@.leader_is_self(),
    {
        self.persistent.current_term = self.persistent.current_term + 1;
        self.persistent.voted_for = Some(self.node_id.clone());
        self.volatile.role = RaftRole::Candidate;
        let mut votes: Vec<NodeId> = Vec::new();
        votes.push(self.node_id.clone());
        self.volatile.votes_received = votes;
        self.volatile.reset_election_timer();
        assert(self@.v.votes_received =~= seq![old(self)@.node_id]);
        RequestVoteRequest {
            term: self.persistent.current_term,
            candidate_id: self.node_id.clone(),
            last_log_index: self.persistent.last_index(),
            last_log_term: self.persistent.last_term(),
        }
    }
}

} // verus!

verus! {

impl RaftNode {
    /// Answers a RequestVote.  A newer term is adopted first (the node steps
    /// down).  The vote is granted when the request's term is current, the
    /// candidate's log is at least as up to date, and this node has not voted
    /// for someone else in this term; granting restarts the election timer.
    pub fn handle_request_vote(&mut self, req: RequestVoteRequest) -> (res: RequestVoteResponse)
        ensures
            old(self)@.request_vote_step(req, final(self)@, res),
            final(self)@.p.current_term >= old(self)@.p.current_term,
            // At most one vote per term: a vote in the current term only goes to
            // the candidate already voted for, if any.
            res.vote_granted && res.term == old(self)@.p.current_term ==> (old(self)@.p.voted_for is None
                || old(self)@.p.voted_for == Some(req.candidate_id@)),
            old(self)@.leader_is_self() ==> final(self)@.leader_is_self(),
    {
        if req.term > self.persistent.current_term {
            self.step_down_to(req.term);
        }
        if req.term < self.persistent.current_term {
            return RequestVoteResponse { term: self.persistent.current_term, vote_granted: false };
        }
        let last_term = self.persistent.last_term();
        let last_index = self.persistent.last_index();
        let log_ok = req.last_log_term > last_term || (req.last_log_term == last_term
            && req.last_log_index >= last_index);
        let free = match &self.persistent.voted_for {
            None => true,
            Some(v) => str_eq(v.as_str(), req.candidate_id.as_str()),
        };
        let vote_granted = log_ok && free;
        if vote_granted {
            self.persistent.voted_for = Some(req.candidate_id);
            self.volatile.reset_election_timer();
        }
        RequestVoteResponse { term: self.persistent.current_term, vote_granted }
    }

    /// Records a vote response during an election and reports whether this
    /// node has just won.  A newer term makes the node step down.  Otherwise,
    /// while a candidate in the current term, a granted vote from a new voter
    /// is counted; a quorum of votes makes the node leader, with each peer's
    /// next index set past the log and its match index set to 0.
    pub fn record_vote(&mut self, voter: NodeId, res: RequestVoteResponse) -> (won: bool)
        requires
            old(self)@.p.log.len() < u64::MAX,
            old(self)@.peers.len() < usize::MAX,
        ensures
            old(self)@.vote_step(voter@, res, final(self)@, won),
            final(self)@.p.current_term >= old(self)@.p.current_term,
            won ==> final(self)@.v.votes_received.len() >= final(self)@.quorum(),
            old(self)@.v.votes_received.no_duplicates() ==> final(self)@.v.votes_received.no_duplicates(),
            old(self)@.leader_is_self() ==> final(self)@.leader_is_self(),
    {
        if res.term > self.persistent.current_term {
            self.step_down_to(res.term);
            return false;
        }
        if res.term < self.persistent.current_term || self.volatile.role != RaftRole::Candidate {
            return false;
        }
        if res.vote_granted && !contains_str(&self.volatile.votes_received, voter.as_str()) {
            let ghost before = self.volatile.votes_received@;
            self.volatile.votes_received.push(voter);
            assert(views(self.volatile.votes_received@) =~= views(before).push(voter@));
        }
        let total_nodes = self.peers.len() + 1;
        let quorum = (total_nodes / 2) + 1;
        let won = self.volatile.votes_received.len() >= quorum;
        if won {
            self.volatile.role = RaftRole::Leader;
            self.volatile.leader_id = Some(self.node_id.clone());
            let next = self.persistent.last_index() + 1;
            let ghost ni0 = self.volatile.next_index@;
            let ghost mi0 = self.volatile.match_index@;
            let ghost sb = self@;
            let mut i: usize = 0;
            while i < self.peers.len()
                invariant
                    i <= self.peers.len(),
                    self@ == (RaftNodeView {
                        v: VolatileView {
                            next_index: self.volatile.next_index@,
                            match_index: self.volatile.match_index@,
                            ..sb.v
                        },
                        ..sb
                    }),
                    next == old(self)@.p.log.len() + 1,
                    self.volatile.next_index@ == insert_all(ni0, views(self.peers@).subrange(0, i as int), next),
                    self.volatile.match_index@ == insert_all(mi0, views(self.peers@).subrange(0, i as int), 0),
                decreases self.peers.len() - i,
            {
                assert(views(self.peers@).subrange(0, i + 1).drop_last() =~= views(self.peers@).subrange(0, i as int));
                let p1 = self.peers[i].clone();
                let p2 = self.peers[i].clone();
                self.volatile.next_index.insert(p1, next);
                self.volatile.match_index.insert(p2, 0);
                i = i + 1;
            }
            assert(views(self.peers@).subrange(0, i as int) =~= views(self.peers@));
        }
        won
    }

    /// Builds an empty AppendEntries (a heartbeat) for `peer`, anchored just
    /// before the peer's next index (which counts as 1 when unknown).
    pub fn heartbeat_for(&self, peer: &NodeId) -> (r: AppendEntriesRequest)
        ensures
            ({
                let next = match assoc_get(self@.v.next_index, peer@) {
                    Some(n) => n,
                    None => 1,
                };
                let prev = if next >= 1 { (next - 1) as u64 } else { 0 };
                &&& r.term == self@.p.current_term
                &&& r.leader_id@ == self@.node_id
                &&& r.prev_log_index == prev
                &&& r.prev_log_term == self@.p.term_at(prev as int)
                &&& r.entries@.len() == 0
                &&& r.leader_commit == self@.v.commit_index
            }),
    {
        let next_idx = match self.volatile.next_index.get(peer.as_str()) {
            Some(n) => n,
            None => 1,
        };
        let prev_log_index = if next_idx >= 1 { next_idx - 1 } else { 0 };
        let prev_log_term = self.persistent.term_at(prev_log_index);
        AppendEntriesRequest {
            term: self.persistent.current_term,
            leader_id: self.node_id.clone(),
            prev_log_index,
            prev_log_term,
            entries: Vec::new(),
            leader_commit: self.volatile.commit_index,
        }
    }

    /// Answers an AppendEntries (heartbeat or replication).  A stale term is
    /// refused with no change.  Otherwise the sender's term is adopted, the
    /// node follows the sender and restarts its timer; if the log agrees at
    /// the request's anchor, the entries are merged in and the commit index
    /// follows the leader's, capped by the log's length.
    pub fn handle_append_entries(&mut self, req: AppendEntriesRequest) -> (res: AppendEntriesResponse)
        requires
            req.prev_log_index + req.entries@.len() <= u64::MAX,
        ensures
            old(self)@.append_entries_step(req, final(self)@, res),
            final(self)@.p.current_term >= old(self)@.p.current_term,
            old(self)@.leader_is_self() ==> final(self)@.leader_is_self(),
    {
        if req.term > self.persistent.current_term {
            self.persistent.current_term = req.term;
            self.persistent.voted_for = None;
            self.volatile.role = RaftRole::Follower;
        }
        if req.term < self.persistent.current_term {
            return AppendEntriesResponse { term: self.persistent.current_term, success: false, match_index: 0 };
        }
        self.volatile.reset_election_timer();
        self.volatile.role = RaftRole::Follower;
        self.volatile.leader_id = Some(req.leader_id.clone());

        let log_consistent = if req.prev_log_index == 0 {
            req.prev_log_term == 0
        } else {
            match self.persistent.entry(req.prev_log_index) {
                Some(e) => e.term == req.prev_log_term,
                None => true,
            }
        };
        if !log_consistent {
            return AppendEntriesResponse { term: self.persistent.current_term, success: false, match_index: 0 };
        }

        let ghost log0 = self.persistent@.log;
        let ghost sb = self@;
        let n = req.entries.len();
        let mut i: usize = 0;
        while i < n
            invariant
                n == req.entries@.len(),
                self@ == (RaftNodeView { p: PersistentView { log: self.persistent@.log, ..sb.p }, ..sb }),
                i <= n,
                self.persistent@.log == apply_entries(log0, log_view(req.entries@).subrange(0, i as int)),
                self.persistent@.current_term == req.term,
                self.persistent@.voted_for == (if req.term > old(self)@.p.current_term { None } else { old(self)@.p.voted_for }),
            decreases n - i,
        {
            assert(log_view(req.entries@).subrange(0, i + 1).drop_last() =~= log_view(req.entries@).subrange(0, i as int));
            let entry = &req.entries[i];
            let len = self.persistent.log.len() as u64;
            if entry.index > len {
                let ghost before = self.persistent.log@;
                self.persistent.log.push(entry.clone());
                assert(log_view(self.persistent.log@) =~= log_view(before).push(entry@));
            } else if entry.index >= 1 {
                let existing_term = self.persistent.log[(entry.index - 1) as usize].term;
                if existing_term != entry.term {
                    let ghost before = self.persistent.log@;
                    self.persistent.log.truncate((entry.index - 1) as usize);
                    self.persistent.log.push(entry.clone());
                    assert(log_view(self.persistent.log@) =~= log_view(before).subrange(0, entry.index - 1).push(entry@));
                }
            }
            i = i + 1;
        }
        assert(log_view(req.entries@).subrange(0, n as int) =~= log_view(req.entries@));

        if req.leader_commit > self.volatile.commit_index {
            let last = self.persistent.last_index();
            self.volatile.commit_index = if req.leader_commit <= last { req.leader_commit } else { last };
        }
        AppendEntriesResponse {
            term: self.persistent.current_term,
            success: true,
            match_index: req.prev_log_index + req.entries.len() as u64,
        }
    }

    /// Records a successful AppendEntries reply from `peer`.  A newer term
    /// makes the node step down; a non-leader ignores it.  The leader records
    /// the peer's match index and next index; when the reply goes past the
    /// commit index, the commit index moves to the index that a majority has
    /// reached (counting the leader's own log), provided that index is newer
    /// and its entry is from the current term.
    pub fn record_append_success(&mut self, peer: NodeId, res: AppendEntriesResponse)
        requires
            res.match_index < u64::MAX,
        ensures
            old(self)@.append_success_step(peer@, res, final(self)@),
            final(self)@.p.current_term >= old(self)@.p.current_term,
            // The commit index only moves to an entry of the current term.
            final(self)@.v.commit_index > old(self)@.v.commit_index ==> final(self)@.p.term_at(
                final(self)@.v.commit_index as int,
            ) == final(self)@.p.current_term,
            old(self)@.leader_is_self() ==> final(self)@.leader_is_self(),
    {
        if res.term > self.persistent.current_term {
            self.step_down_to(res.term);
            return;
        }
        if self.volatile.role != RaftRole::Leader {
            return;
        }
        let p2 = peer.clone();
        self.volatile.match_index.insert(peer, res.match_index);
        self.volatile.next_index.insert(p2, res.match_index + 1);

        let new_commit = res.match_index;
        if new_commit > self.volatile.commit_index {
            let mut match_indices = self.volatile.match_index.values();
            match_indices.push(self.persistent.last_index());
            let quorum = quorum_match(&match_indices);
            if quorum > self.volatile.commit_index && self.persistent.term_at(quorum) == self.persistent.current_term {
                self.volatile.commit_index = quorum;
            }
        }
    }

    /// Records a failed AppendEntries reply from `peer`.  A newer term makes
    /// the node step down; a non-leader ignores it.  The leader moves the
    /// peer's next index back by one, never below 1.
    pub fn record_append_failure(&mut self, peer: NodeId, res: AppendEntriesResponse)
        ensures
            old(self)@.append_failure_step(peer@, res, final(self)@),
            final(self)@.p.current_term >= old(self)@.p.current_term,
            old(self)@.leader_is_self() ==> final(self)@.leader_is_self(),
    {
        if res.term > self.persistent.current_term {
            self.step_down_to(res.term);
            return;
        }
        if self.volatile.role != RaftRole::Leader {
            return;
        }
        let next = match self.volatile.next_index.get(peer.as_str()) {
            Some(n) => n,
            None => 1,
        };
        if next > 1 {
            self.volatile.next_index.insert(peer, next - 1);
        }
    }

    /// Starts tracking a peer that is neither a configured peer nor this node:
    /// next index 1, match index 0.
    pub fn add_peer(&mut self, peer: NodeId)
        ensures
            final(self)@ == old(self)@.with_peer(peer@),
    {
        if !contains_str(&self.peers, peer.as_str()) && !str_eq(peer.as_str(), self.node_id.as_str()) {
            let p2 = peer.clone();
            self.volatile.next_index.insert(peer, 1);
            self.volatile.match_index.insert(p2, 0);
        }
    }

    /// Stops tracking a peer's next and match index.
    pub fn remove_peer(&mut self, peer: &NodeId)
        ensures
            final(self)@ == old(self)@.without_peer(peer@),
    {
        self.volatile.next_index.remove(peer.as_str());
        self.volatile.match_index.remove(peer.as_str());
    }

    /// Whether the election timeout has passed, by the clock.
    pub fn election_due(&self) -> bool {
        self.volatile.is_election_timed_out()
    }

    /// The commit index.
    pub fn commit_index(&self) -> (r: LogIndex)
        ensures
            r == self@.v.commit_index,
    {
        self.volatile.commit_index
    }

    /// The last applied index.
    pub fn last_applied(&self) -> (r: LogIndex)
        ensures
            r == self@.v.last_applied,
    {
        self.volatile.last_applied
    }

    /// Applies the committed entries not applied yet and returns their
    /// commands, in log order; the last applied index reaches the commit index.
    pub fn apply_committed(&mut self) -> (r: Vec<ClusterCommand>)
        ensures
            r@.map_values(|c: ClusterCommand| c@) == applied_commands(
                old(self)@.p.log,
                old(self)@.v.last_applied,
                old(self)@.v.commit_index,
            ),
            final(self)@ == old(self)@.after_apply(),
            final(self)@.v.last_applied >= final(self)@.v.commit_index,
    {
        let ghost s0 = self@;
        let ghost log = s0.p.log;
        let ghost la0 = s0.v.last_applied;
        let ghost lo: int = if la0 <= log.len() { la0 as int } else { log.len() as int };
        let mut applied: Vec<ClusterCommand> = Vec::new();
        while self.volatile.last_applied < self.volatile.commit_index
            invariant
                log == s0.p.log,
                la0 == s0.v.last_applied,
                lo == (if la0 <= log.len() { la0 as int } else { log.len() as int }),
                self.persistent@ == s0.p,
                self@ == (RaftNodeView {
                    v: VolatileView { last_applied: self.volatile.last_applied, ..s0.v },
                    ..s0
                }),
                la0 <= self.volatile.last_applied,
                self.volatile.last_applied <= s0.v.commit_index || self.volatile.last_applied == la0,
                applied@.map_values(|c: ClusterCommand| c@) == commands(
                    log.subrange(
                        lo,
                        if self.volatile.last_applied <= log.len() {
                            self.volatile.last_applied as int
                        } else {
                            log.len() as int
                        },
                    ),
                ),
            decreases self.volatile.commit_index - self.volatile.last_applied,
        {
            let ghost la = self.volatile.last_applied;
            assert(lo <= la);
            self.volatile.last_applied = self.volatile.last_applied + 1;
            let idx = self.volatile.last_applied;
            match self.persistent.entry(idx) {
                Some(e) => {
                    assert(idx <= log.len());
                    assert(e@ == log[la as int]);
                    let c = e.command.clone();
                    let ghost before = applied@;
                    applied.push(c);
                    assert(log.subrange(lo, idx as int) =~= log.subrange(lo, la as int).push(log[la as int]));
                    assert(commands(log.subrange(lo, idx as int)) =~= commands(log.subrange(lo, la as int)).push(log[la as int].command));
                    assert(applied@.map_values(|c: ClusterCommand| c@) =~= before.map_values(
                        |c: ClusterCommand| c@,
                    ).push(c@));
                },
                None => {},
            }
        }
        applied
    }
}

/// Creates a Raft node (see `RaftNode::new`).
pub fn create_raft_node(node_id: NodeId, peers: Vec<NodeId>) -> (r: RaftNode)
    ensures
        r@.is_initial(node_id@, views(peers@)),
{
    RaftNode::new(node_id, peers)
}

} // verus!
