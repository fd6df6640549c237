//! Distributed transactions by two-phase commit (2PC).
//!
//! A coordinator registers a transaction with its participants, collects
//! their votes (the prepare phase), and then commits when every participant
//! voted yes, or aborts.  The operations of a transaction are carried as
//! they are; applying them is the participants' part.
use vstd::prelude::*;
use crate::assoc::{assoc_get, assoc_insert, lemma_get_absent, lemma_get_at, lemma_insert_absent, lemma_insert_at};
use crate::error::CassetteError;
use crate::raft::NodeId;
use crate::seqs::{find_first, keep, lemma_find_at, lemma_find_none, lemma_keep_step};
use crate::text::{str_eq, views};

verus! {

/// Phase of a distributed transaction.
#[derive(Debug, Clone, Copy, PartialEq, Eq, Structural)]
pub enum TxPhase {
    /// The coordinator is collecting votes.
    Voting,
    /// Every participant voted yes; ready to commit.
    Prepared,
    /// Committed.
    Committed,
    /// Aborted.
    Aborted,
}

/// A participant's vote in the prepare phase.
#[derive(Debug, Clone, Copy, PartialEq, Eq, Structural)]
pub enum ParticipantVote {
    Yes,
    No,
}

/// A participant of a distributed transaction, with its vote once cast.
#[derive(Debug)]
pub struct Participant {
    pub node_id: NodeId,
    pub vote: Option<ParticipantVote>,
}

/// The plain values of participants.
pub open spec fn participant_views(ps: Seq<Participant>) -> Seq<(Seq<char>, Option<ParticipantVote>)> {
    ps.map_values(|p: Participant| (p.node_id@, p.vote))
}

/// A distributed transaction with operations of type `Op`.
#[derive(Debug)]
pub struct DistributedTransaction<Op> {
    pub tx_id: String,
    pub coordinator: NodeId,
    pub participants: Vec<Participant>,
    pub operations: Vec<Op>,
    pub phase: TxPhase,
}

/// The plain value of a distributed transaction.
pub struct TxView<Op> {
    pub tx_id: Seq<char>,
    pub coordinator: Seq<char>,
    pub participants: Seq<(Seq<char>, Option<ParticipantVote>)>,
    pub operations: Seq<Op>,
    pub phase: TxPhase,
}

impl<Op> View for DistributedTransaction<Op> {
    type V = TxView<Op>;

    open spec fn view(&self) -> TxView<Op> {
        TxView {
            tx_id: self.tx_id@,
            coordinator: self.coordinator@,
            participants: participant_views(self.participants@),
            operations: self.operations@,
            phase: self.phase,
        }
    }
}

/// Whether `b` is a copy of `a`: the same but for operations that are
/// clones of `a`'s.
pub open spec fn tx_copy<Op: Clone>(a: TxView<Op>, b: TxView<Op>) -> bool {
    &&& b.tx_id == a.tx_id
    &&& b.coordinator == a.coordinator
    &&& b.participants == a.participants
    &&& b.phase == a.phase
    &&& b.operations.len() == a.operations.len()
    &&& forall|i: int| 0 <= i < a.operations.len() ==> vstd::pervasive::cloned(a.operations[i], #[trigger] b.operations[i])
}

impl<Op: Clone> Clone for DistributedTransaction<Op> {
    fn clone(&self) -> (r: Self)
        ensures
            tx_copy(self@, r@),
    {
        DistributedTransaction {
            tx_id: self.tx_id.clone(),
            coordinator: self.coordinator.clone(),
            participants: clone_participants(&self.participants),
            operations: self.operations.clone(),
            phase: self.phase,
        }
    }
}

fn clone_participants(ps: &Vec<Participant>) -> (r: Vec<Participant>)
    ensures
        participant_views(r@) == participant_views(ps@),
{
    let mut out: Vec<Participant> = Vec::new();
    let mut i: usize = 0;
    while i < ps.len()
        invariant
            i <= ps@.len(),
            participant_views(out@) == participant_views(ps@).take(i as int),
        decreases ps.len() - i,
    {
        let p = Participant { node_id: ps[i].node_id.clone(), vote: ps[i].vote };
        let ghost before = out@;
        out.push(p);
        assert(participant_views(out@) =~= participant_views(before).push((ps@[i as int].node_id@, ps@[i as int].vote)));
        i = i + 1;
        assert(participant_views(out@) =~= participant_views(ps@).take(i as int));
    }
    assert(participant_views(ps@).take(i as int) =~= participant_views(ps@));
    out
}

/// The test that a participant has the given node ID.
pub open spec fn is_node(id: Seq<char>) -> spec_fn((Seq<char>, Option<ParticipantVote>)) -> bool {
    |p: (Seq<char>, Option<ParticipantVote>)| p.0 == id
}

/// The participants after `node` votes `vote`: the first participant with
/// that ID records it; `None` when there is none.
pub open spec fn with_vote(
    ps: Seq<(Seq<char>, Option<ParticipantVote>)>,
    node: Seq<char>,
    vote: ParticipantVote,
) -> Option<Seq<(Seq<char>, Option<ParticipantVote>)>> {
    if exists|i: int| 0 <= i < ps.len() && ps[i].0 == node {
        let i = choose|i: int| 0 <= i < ps.len() && ps[i].0 == node && forall|j: int| 0 <= j < i ==> ps[j].0 != node;
        Some(ps.update(i, (node, Some(vote))))
    } else {
        None
    }
}

/// Every participant has voted.
pub open spec fn all_voted(ps: Seq<(Seq<char>, Option<ParticipantVote>)>) -> bool {
    forall|i: int| 0 <= i < ps.len() ==> (#[trigger] ps[i]).1 is Some
}

/// The outcome of the votes: none until everyone voted; then prepared when
/// every vote is yes, aborted otherwise.
pub open spec fn vote_outcome(ps: Seq<(Seq<char>, Option<ParticipantVote>)>) -> Option<TxPhase> {
    if !all_voted(ps) {
        None
    } else if forall|i: int| 0 <= i < ps.len() ==> (#[trigger] ps[i]).1 == Some(ParticipantVote::Yes) {
        Some(TxPhase::Prepared)
    } else {
        Some(TxPhase::Aborted)
    }
}

impl<Op> DistributedTransaction<Op> {
    /// A transaction in the voting phase with no participants or operations.
    pub fn new(tx_id: String, coordinator: NodeId) -> (r: Self)
        ensures
            r@ == (TxView::<Op> {
                tx_id: tx_id@,
                coordinator: coordinator@,
                participants: Seq::empty(),
                operations: Seq::empty(),
                phase: TxPhase::Voting,
            }),
    {
        let r = DistributedTransaction {
            tx_id,
            coordinator,
            participants: Vec::new(),
            operations: Vec::new(),
            phase: TxPhase::Voting,
        };
        assert(r@.participants =~= Seq::<(Seq<char>, Option<ParticipantVote>)>::empty());
        assert(r@.operations =~= Seq::<Op>::empty());
        r
    }

    fn participant_pos(&self, node_id: &str) -> (r: Option<usize>)
        ensures
            match r {
                Some(i) => i < self@.participants.len() && self@.participants[i as int].0 == node_id@
                    && forall|j: int| 0 <= j < i ==> #[trigger] self@.participants[j].0 != node_id@,
                None => forall|j: int| 0 <= j < self@.participants.len() ==> #[trigger] self@.participants[j].0 != node_id@,
            },
    {
        let mut i: usize = 0;
        while i < self.participants.len()
            invariant
                i <= self.participants@.len(),
                self@.participants.len() == self.participants@.len(),
                forall|j: int| 0 <= j < i ==> #[trigger] self@.participants[j].0 != node_id@,
            decreases self.participants.len() - i,
        {
            assert(self@.participants[i as int].0 == self.participants@[i as int].node_id@);
            if str_eq(self.participants[i].node_id.as_str(), node_id) {
                return Some(i);
            }
            i = i + 1;
        }
        None
    }

    /// Registers a participant, unless one with the same ID is there.
    pub fn add_participant(&mut self, node_id: NodeId)
        ensures
            final(self)@ == (TxView {
                participants: if exists|i: int| 0 <= i < old(self)@.participants.len() && old(self)@.participants[i].0
                    == node_id@ {
                    old(self)@.participants
                } else {
                    old(self)@.participants.push((node_id@, None))
                },
                ..old(self)@
            }),
    {
        match self.participant_pos(node_id.as_str()) {
            Some(i) => {},
            None => {
                let ghost nv = node_id@;
                self.participants.push(Participant { node_id, vote: None });
                assert(self@.participants =~= old(self)@.participants.push((nv, None)));
            },
        }
    }

    /// Adds an operation.
    pub fn add_operation(&mut self, op: Op)
        ensures
            final(self)@ == (TxView { operations: old(self)@.operations.push(op), ..old(self)@ }),
    {
        self.operations.push(op);
    }

    /// Records `node_id`'s vote; an unknown participant is an error.
    pub fn record_vote(&mut self, node_id: &NodeId, vote: ParticipantVote) -> (r: Result<(), CassetteError>)
        ensures
            match with_vote(old(self)@.participants, node_id@, vote) {
                Some(ps) => r is Ok && final(self)@ == (TxView { participants: ps, ..old(self)@ }),
                None => r matches Err(CassetteError::DistTx(m)) && m@ == "unknown participant"@ && final(self)@
                    == old(self)@,
            },
    {
        match self.participant_pos(node_id.as_str()) {
            Some(i) => {
                let ghost ps = old(self)@.participants;
                let p = Participant { node_id: self.participants[i].node_id.clone(), vote: Some(vote) };
                self.participants.set(i, p);
                proof {
                    let k = choose|k: int| 0 <= k < ps.len() && ps[k].0 == node_id@ && forall|j: int|
                        0 <= j < k ==> ps[j].0 != node_id@;
                    assert(k == i as int) by {
                        if k < i {
                            assert(ps[k].0 != node_id@);
                        } else if k > i {
                            assert(ps[i as int].0 != node_id@);
                        }
                    }
                }
                assert(self@.participants =~= ps.update(i as int, (node_id@, Some(vote))));
                Ok(())
            },
            None => Err(CassetteError::DistTx("unknown participant".to_string())),
        }
    }

    /// Whether every participant has voted.
    pub fn all_votes_received(&self) -> (r: bool)
        ensures
            r == all_voted(self@.participants),
    {
        let mut i: usize = 0;
        while i < self.participants.len()
            invariant
                i <= self.participants@.len(),
                forall|j: int| 0 <= j < i ==> (#[trigger] self@.participants[j]).1 is Some,
            decreases self.participants.len() - i,
        {
            if self.participants[i].vote.is_none() {
                assert(self@.participants[i as int].1 is None);
                return false;
            }
            i = i + 1;
        }
        true
    }

    /// The outcome of the votes (see `vote_outcome`).
    pub fn outcome(&self) -> (r: Option<TxPhase>)
        ensures
            r == vote_outcome(self@.participants),
    {
        if !self.all_votes_received() {
            return None;
        }
        let mut i: usize = 0;
        while i < self.participants.len()
            invariant
                i <= self.participants@.len(),
                all_voted(self@.participants),
                forall|j: int| 0 <= j < i ==> (#[trigger] self@.participants[j]).1 == Some(ParticipantVote::Yes),
            decreases self.participants.len() - i,
        {
            match self.participants[i].vote {
                Some(ParticipantVote::Yes) => {},
                _ => {
                    assert(self@.participants[i as int].1 != Some(ParticipantVote::Yes));
                    return Some(TxPhase::Aborted);
                },
            }
            i = i + 1;
        }
        Some(TxPhase::Prepared)
    }

    /// Commits a prepared transaction; otherwise an error.
    pub fn commit(&mut self) -> (r: Result<(), CassetteError>)
        ensures
            old(self)@.phase == TxPhase::Prepared ==> r is Ok && final(self)@ == (TxView {
                phase: TxPhase::Committed,
                ..old(self)@
            }),
            old(self)@.phase != TxPhase::Prepared ==> (r matches Err(CassetteError::DistTx(m)) && m@
                == "transaction is not prepared"@ && final(self)@ == old(self)@),
    {
        if self.phase != TxPhase::Prepared {
            return Err(CassetteError::DistTx("transaction is not prepared".to_string()));
        }
        self.phase = TxPhase::Committed;
        Ok(())
    }

    /// Aborts a transaction that is not committed; a committed one is an error.
    pub fn abort(&mut self) -> (r: Result<(), CassetteError>)
        ensures
            old(self)@.phase != TxPhase::Committed ==> r is Ok && final(self)@ == (TxView {
                phase: TxPhase::Aborted,
                ..old(self)@
            }),
            old(self)@.phase == TxPhase::Committed ==> (r matches Err(CassetteError::DistTx(m)) && m@
                == "cannot abort a committed transaction"@ && final(self)@ == old(self)@),
    {
        if self.phase == TxPhase::Committed {
            return Err(CassetteError::DistTx("cannot abort a committed transaction".to_string()));
        }
        self.phase = TxPhase::Aborted;
        Ok(())
    }

    /// The participants' node IDs, in order.
    pub fn participant_ids(&self) -> (r: Vec<NodeId>)
        ensures
            views(r@) == self@.participants.map_values(|p: (Seq<char>, Option<ParticipantVote>)| p.0),
    {
        let mut out: Vec<NodeId> = Vec::new();
        let mut i: usize = 0;
        while i < self.participants.len()
            invariant
                i <= self.participants@.len(),
                views(out@) == self@.participants.map_values(|p: (Seq<char>, Option<ParticipantVote>)| p.0).take(
                    i as int,
                ),
            decreases self.participants.len() - i,
        {
            let id = self.participants[i].node_id.clone();
            let ghost before = out@;
            out.push(id);
            assert(views(out@) =~= views(before).push(id@));
            i = i + 1;
            assert(views(out@) =~= self@.participants.map_values(|p: (Seq<char>, Option<ParticipantVote>)| p.0).take(
                i as int,
            ));
        }
        assert(self@.participants.map_values(|p: (Seq<char>, Option<ParticipantVote>)| p.0).take(i as int)
            =~= self@.participants.map_values(|p: (Seq<char>, Option<ParticipantVote>)| p.0));
        out
    }
}

/// Prepare request sent to a participant.
#[derive(Debug)]
pub struct PrepareRequest<Op> {
    pub tx_id: String,
    pub coordinator: NodeId,
    pub operations: Vec<Op>,
}

/// A participant's answer to a prepare request.
#[derive(Debug)]
pub struct PrepareResponse {
    pub tx_id: String,
    pub node_id: NodeId,
    pub vote: ParticipantVote,
}

/// Commit request sent by the coordinator.
#[derive(Debug)]
pub struct CommitRequest {
    pub tx_id: String,
}

/// Abort request sent by the coordinator.
#[derive(Debug)]
pub struct AbortRequest {
    pub tx_id: String,
}

} // verus!

verus! {

/// The transactions of a log, by ID.
pub open spec fn log_view<Op>(txs: Seq<DistributedTransaction<Op>>) -> Seq<(Seq<char>, TxView<Op>)> {
    txs.map_values(|t: DistributedTransaction<Op>| (t.tx_id@, t@))
}

/// In-memory transaction log of a coordinator.
#[derive(Debug)]
pub struct DistTxLog<Op> {
    transactions: Vec<DistributedTransaction<Op>>,
}

impl<Op> View for DistTxLog<Op> {
    type V = Seq<(Seq<char>, TxView<Op>)>;

    closed spec fn view(&self) -> Seq<(Seq<char>, TxView<Op>)> {
        log_view(self.transactions@)
    }
}

/// A transaction is not finished: neither committed nor aborted.
pub open spec fn is_active<Op>() -> spec_fn((Seq<char>, TxView<Op>)) -> bool {
    |e: (Seq<char>, TxView<Op>)| e.1.phase != TxPhase::Committed && e.1.phase != TxPhase::Aborted
}

impl<Op> DistTxLog<Op> {
    /// An empty log.
    pub fn new() -> (r: Self)
        ensures
            r@ == Seq::<(Seq<char>, TxView<Op>)>::empty(),
    {
        let r = DistTxLog { transactions: Vec::new() };
        assert(r@ =~= Seq::<(Seq<char>, TxView<Op>)>::empty());
        r
    }

    fn position(&self, tx_id: &str) -> (r: Option<usize>)
        ensures
            match r {
                Some(i) => i < self@.len() && self@[i as int].0 == tx_id@ && forall|j: int|
                    0 <= j < i ==> #[trigger] self@[j].0 != tx_id@,
                None => forall|j: int| 0 <= j < self@.len() ==> #[trigger] self@[j].0 != tx_id@,
            },
    {
        let mut i: usize = 0;
        while i < self.transactions.len()
            invariant
                i <= self.transactions@.len(),
                self@ == log_view(self.transactions@),
                forall|j: int| 0 <= j < i ==> #[trigger] self@[j].0 != tx_id@,
            decreases self.transactions.len() - i,
        {
            assert(self@[i as int].0 == self.transactions@[i as int].tx_id@);
            if str_eq(self.transactions[i].tx_id.as_str(), tx_id) {
                return Some(i);
            }
            i = i + 1;
        }
        None
    }

    /// Registers a transaction, replacing one with the same ID.
    pub fn register(&mut self, tx: DistributedTransaction<Op>)
        ensures
            final(self)@ == assoc_insert(old(self)@, tx@.tx_id, tx@),
    {
        let ghost key = tx@.tx_id;
        let ghost tv = tx@;
        match self.position(tx.tx_id.as_str()) {
            Some(i) => {
                proof {
                    lemma_insert_at(self@, key, tv, i as int);
                }
                self.transactions.set(i, tx);
                assert(self@ =~= old(self)@.update(i as int, (key, tv)));
            },
            None => {
                proof {
                    lemma_insert_absent(self@, key, tv);
                }
                self.transactions.push(tx);
                assert(self@ =~= old(self)@.push((key, tv)));
            },
        }
    }

    /// Replaces a registered transaction; an unknown one is an error.
    pub fn update(&mut self, tx: DistributedTransaction<Op>) -> (r: Result<(), CassetteError>)
        ensures
            assoc_get(old(self)@, tx@.tx_id) is Some ==> r is Ok && final(self)@ == assoc_insert(
                old(self)@,
                tx@.tx_id,
                tx@,
            ),
            assoc_get(old(self)@, tx@.tx_id) is None ==> (r matches Err(CassetteError::DistTx(m)) && m@
                == "transaction not found"@ && final(self)@ == old(self)@),
    {
        match self.position(tx.tx_id.as_str()) {
            Some(i) => {
                proof {
                    lemma_get_at(self@, tx@.tx_id, i as int);
                }
                self.register(tx);
                Ok(())
            },
            None => {
                proof {
                    lemma_get_absent(self@, tx@.tx_id);
                }
                Err(CassetteError::DistTx("transaction not found".to_string()))
            },
        }
    }
}

impl<Op: Clone> DistTxLog<Op> {
    /// A copy of the transaction `tx_id`.
    pub fn get(&self, tx_id: &str) -> (r: Option<DistributedTransaction<Op>>)
        ensures
            match assoc_get(self@, tx_id@) {
                Some(t) => r matches Some(x) && tx_copy(t, x@),
                None => r is None,
            },
    {
        match self.position(tx_id) {
            Some(i) => {
                proof {
                    lemma_get_at(self@, tx_id@, i as int);
                }
                assert(self@[i as int].1 == self.transactions@[i as int]@);
                Some(self.transactions[i].clone())
            },
            None => {
                proof {
                    lemma_get_absent(self@, tx_id@);
                }
                None
            },
        }
    }

    /// Copies of the unfinished transactions, in log order.
    pub fn active(&self) -> (r: Vec<DistributedTransaction<Op>>)
        ensures
            r@.len() == keep(self@, is_active()).len(),
            forall|i: int| 0 <= i < r@.len() ==> tx_copy(keep(self@, is_active())[i].1, #[trigger] r@[i]@),
    {
        let ghost s = self@;
        let mut out: Vec<DistributedTransaction<Op>> = Vec::new();
        let mut i: usize = 0;
        while i < self.transactions.len()
            invariant
                i <= self.transactions@.len(),
                s == self@,
                s == log_view(self.transactions@),
                out@.len() == keep(s.take(i as int), is_active()).len(),
                forall|j: int| 0 <= j < out@.len() ==> tx_copy(keep(s.take(i as int), is_active())[j].1, #[trigger] out@[j]@),
            decreases self.transactions.len() - i,
        {
            proof {
                lemma_keep_step(s, is_active(), i as int);
                assert(s.subrange(0, i + 1) =~= s.take(i + 1));
                assert(s.subrange(0, i as int) =~= s.take(i as int));
            }
            assert(s[i as int] == (self.transactions@[i as int].tx_id@, self.transactions@[i as int]@));
            let phase = self.transactions[i].phase;
            if phase != TxPhase::Committed && phase != TxPhase::Aborted {
                let c = self.transactions[i].clone();
                out.push(c);
            }
            i = i + 1;
        }
        assert(s.take(i as int) =~= s);
        out
    }
}

impl<Op> Default for DistTxLog<Op> {
    fn default() -> (r: Self)
        ensures
            r@ == Seq::<(Seq<char>, TxView<Op>)>::empty(),
    {
        Self::new()
    }
}

} // verus!

verus! {

/// The participants after registering each of `ids` in turn (a repeated
/// ID is registered once).
pub open spec fn with_participants(
    ps: Seq<(Seq<char>, Option<ParticipantVote>)>,
    ids: Seq<Seq<char>>,
) -> Seq<(Seq<char>, Option<ParticipantVote>)>
    decreases ids.len(),
{
    if ids.len() == 0 {
        ps
    } else {
        let before = with_participants(ps, ids.drop_last());
        if exists|i: int| 0 <= i < before.len() && before[i].0 == ids.last() {
            before
        } else {
            before.push((ids.last(), None))
        }
    }
}

/// The participants after the votes `rs`, in turn (see `with_vote`);
/// `None` as soon as one names no participant.
pub open spec fn with_votes(
    ps: Seq<(Seq<char>, Option<ParticipantVote>)>,
    rs: Seq<(Seq<char>, ParticipantVote)>,
) -> Option<Seq<(Seq<char>, Option<ParticipantVote>)>>
    decreases rs.len(),
{
    if rs.len() == 0 {
        Some(ps)
    } else {
        match with_votes(ps, rs.drop_last()) {
            Some(before) => with_vote(before, rs.last().0, rs.last().1),
            None => None,
        }
    }
}

/// The votes of prepare responses.
pub open spec fn response_votes(rs: Seq<PrepareResponse>) -> Seq<(Seq<char>, ParticipantVote)> {
    rs.map_values(|r: PrepareResponse| (r.node_id@, r.vote))
}

/// Every participant voted yes.
pub open spec fn unanimous(ps: Seq<(Seq<char>, Option<ParticipantVote>)>) -> bool {
    forall|i: int| 0 <= i < ps.len() ==> (#[trigger] ps[i]).1 == Some(ParticipantVote::Yes)
}

/// The atomic-commit rule over a log: a prepared or committed transaction
/// had every participant vote yes.
pub open spec fn votes_respected<Op>(log: Seq<(Seq<char>, TxView<Op>)>) -> bool {
    forall|i: int|
        0 <= i < log.len() && ((#[trigger] log[i]).1.phase == TxPhase::Prepared || log[i].1.phase
            == TxPhase::Committed) ==> unanimous(log[i].1.participants)
}

/// What `prepare` does to the log `log` with the votes `rs`: the phase it
/// reports and the log after, or the error message.
pub open spec fn prepare_outcome<Op>(
    log: Seq<(Seq<char>, TxView<Op>)>,
    tx_id: Seq<char>,
    rs: Seq<(Seq<char>, ParticipantVote)>,
) -> Result<(TxPhase, Seq<(Seq<char>, TxView<Op>)>), Seq<char>> {
    match assoc_get(log, tx_id) {
        None => Err("transaction not found"@),
        Some(t) => if t.phase != TxPhase::Voting {
            Err("transaction is not in voting phase"@)
        } else {
            match with_votes(t.participants, rs) {
                None => Err("unknown participant"@),
                Some(ps) => match vote_outcome(ps) {
                    None => Err("votes not complete"@),
                    Some(o) => Ok((o, assoc_insert(log, tx_id, TxView { participants: ps, phase: o, ..t }))),
                },
            }
        },
    }
}

/// The two-phase-commit coordinator.
#[derive(Debug)]
pub struct TwoPhaseCoordinator<Op> {
    node_id: NodeId,
    log: DistTxLog<Op>,
}

/// The plain value of a coordinator.
pub struct CoordinatorView<Op> {
    pub node_id: Seq<char>,
    pub log: Seq<(Seq<char>, TxView<Op>)>,
}

impl<Op> View for TwoPhaseCoordinator<Op> {
    type V = CoordinatorView<Op>;

    closed spec fn view(&self) -> CoordinatorView<Op> {
        CoordinatorView { node_id: self.node_id@, log: self.log@ }
    }
}

fn vote_of(ps: &mut Vec<Participant>, node_id: &str, vote: ParticipantVote) -> (r: bool)
    ensures
        match with_vote(participant_views(old(ps)@), node_id@, vote) {
            Some(v) => r && participant_views(final(ps)@) == v,
            None => !r && final(ps)@ == old(ps)@,
        },
{
    let ghost pv = participant_views(ps@);
    let mut i: usize = 0;
    while i < ps.len()
        invariant
            i <= ps@.len(),
            pv == participant_views(ps@),
            ps@ == old(ps)@,
            forall|j: int| 0 <= j < i ==> #[trigger] pv[j].0 != node_id@,
        decreases ps.len() - i,
    {
        assert(pv[i as int].0 == ps@[i as int].node_id@);
        if str_eq(ps[i].node_id.as_str(), node_id) {
            let p = Participant { node_id: ps[i].node_id.clone(), vote: Some(vote) };
            ps.set(i, p);
            proof {
                let k = choose|k: int| 0 <= k < pv.len() && pv[k].0 == node_id@ && forall|j: int|
                    0 <= j < k ==> pv[j].0 != node_id@;
                assert(k == i as int) by {
                    if k < i {
                        assert(pv[k].0 != node_id@);
                    } else if k > i {
                        assert(pv[i as int].0 != node_id@);
                    }
                }
            }
            assert(participant_views(ps@) =~= pv.update(i as int, (node_id@, Some(vote))));
            return true;
        }
        i = i + 1;
    }
    false
}

fn outcome_of(ps: &Vec<Participant>) -> (r: Option<TxPhase>)
    ensures
        r == vote_outcome(participant_views(ps@)),
{
    let mut i: usize = 0;
    while i < ps.len()
        invariant
            i <= ps@.len(),
            forall|j: int| 0 <= j < i ==> (#[trigger] participant_views(ps@)[j]).1 is Some,
        decreases ps.len() - i,
    {
        if ps[i].vote.is_none() {
            assert(participant_views(ps@)[i as int].1 is None);
            return None;
        }
        i = i + 1;
    }
    let mut k: usize = 0;
    while k < ps.len()
        invariant
            k <= ps@.len(),
            all_voted(participant_views(ps@)),
            forall|j: int| 0 <= j < k ==> (#[trigger] participant_views(ps@)[j]).1 == Some(ParticipantVote::Yes),
        decreases ps.len() - k,
    {
        match ps[k].vote {
            Some(ParticipantVote::Yes) => {},
            _ => {
                assert(participant_views(ps@)[k as int].1 != Some(ParticipantVote::Yes));
                return Some(TxPhase::Aborted);
            },
        }
        k = k + 1;
    }
    Some(TxPhase::Prepared)
}

impl<Op> TwoPhaseCoordinator<Op> {
    /// A coordinator with an empty log.
    pub fn new(node_id: NodeId) -> (r: Self)
        ensures
            r@.node_id == node_id@,
            r@.log == Seq::<(Seq<char>, TxView<Op>)>::empty(),
    {
        TwoPhaseCoordinator { node_id, log: DistTxLog::new() }
    }

    /// The transaction log.
    pub fn log(&self) -> (r: &DistTxLog<Op>)
        ensures
            r@ == self@.log,
    {
        &self.log
    }

    /// Adds an operation to a registered transaction.
    pub fn add_operation(&mut self, tx_id: &str, op: Op) -> (r: Result<(), CassetteError>)
        ensures
            match assoc_get(old(self)@.log, tx_id@) {
                Some(t) => r is Ok && final(self)@ == (CoordinatorView {
                    log: assoc_insert(old(self)@.log, tx_id@, TxView { operations: t.operations.push(op), ..t }),
                    ..old(self)@
                }),
                None => r matches Err(CassetteError::DistTx(m)) && m@ == "transaction not found"@ && final(self)@
                    == old(self)@,
            },
            votes_respected(old(self)@.log) ==> votes_respected(final(self)@.log),
    {
        let ghost s = self@.log;
        match self.log.position(tx_id) {
            None => {
                proof {
                    lemma_get_absent(s, tx_id@);
                }
                Err(CassetteError::DistTx("transaction not found".to_string()))
            },
            Some(i) => {
                proof {
                    lemma_get_at(s, tx_id@, i as int);
                    lemma_insert_at(s, tx_id@, TxView { operations: s[i as int].1.operations.push(op), ..s[i as int].1 }, i as int);
                }
                let mut tx = self.log.transactions.remove(i);
                assert(tx@ == s[i as int].1);
                tx.add_operation(op);
                let ghost tv = tx@;
                self.log.transactions.insert(i, tx);
                assert(self.log@ =~= s.update(i as int, (tx_id@, tv)));
                Ok(())
            },
        }
    }

    /// Collects the votes of `responses` for transaction `tx_id` and moves it
    /// to the outcome (see `prepare_outcome`); on an error the log is unchanged.
    pub fn prepare(&mut self, tx_id: &str, responses: Vec<PrepareResponse>) -> (r: Result<TxPhase, CassetteError>)
        ensures
            match prepare_outcome(old(self)@.log, tx_id@, response_votes(responses@)) {
                Ok((o, log)) => r == Ok::<TxPhase, CassetteError>(o) && final(self)@ == (CoordinatorView {
                    log,
                    ..old(self)@
                }),
                Err(m) => r matches Err(CassetteError::DistTx(e)) && e@ == m && final(self)@ == old(self)@,
            },
            votes_respected(old(self)@.log) ==> votes_respected(final(self)@.log),
    {
        let ghost s = self@.log;
        let i = match self.log.position(tx_id) {
            None => {
                proof {
                    lemma_get_absent(s, tx_id@);
                }
                return Err(CassetteError::DistTx("transaction not found".to_string()));
            },
            Some(i) => i,
        };
        proof {
            lemma_get_at(s, tx_id@, i as int);
        }
        assert(s[i as int].1 == self.log.transactions@[i as int]@);
        if self.log.transactions[i].phase != TxPhase::Voting {
            return Err(CassetteError::DistTx("transaction is not in voting phase".to_string()));
        }
        let mut ps = clone_participants(&self.log.transactions[i].participants);
        let ghost t = s[i as int].1;
        let ghost rv = response_votes(responses@);
        let mut k: usize = 0;
        assert(rv.take(0) =~= Seq::<(Seq<char>, ParticipantVote)>::empty());
        while k < responses.len()
            invariant
                k <= responses@.len(),
                rv == response_votes(responses@),
                self@ == old(self)@,
                s == old(self)@.log,
                assoc_get(s, tx_id@) == Some(t),
                t.phase == TxPhase::Voting,
                with_votes(t.participants, rv.take(k as int)) == Some(participant_views(ps@)),
            decreases responses.len() - k,
        {
            assert(rv.take(k + 1).drop_last() =~= rv.take(k as int));
            assert(rv.take(k + 1).last() == (responses@[k as int].node_id@, responses@[k as int].vote));
            let ghost before_ps = participant_views(ps@);
            if !vote_of(&mut ps, responses[k].node_id.as_str(), responses[k].vote) {
                proof {
                    assert(with_vote(before_ps, rv[k as int].0, rv[k as int].1) is None);
                    assert(with_votes(t.participants, rv.take(k + 1)) is None);
                    lemma_with_votes_stuck(t.participants, rv, k as int);
                    assert(with_votes(t.participants, rv) is None);
                }
                return Err(CassetteError::DistTx("unknown participant".to_string()));
            }
            k = k + 1;
        }
        assert(rv.take(k as int) =~= rv);
        let outcome = match outcome_of(&ps) {
            None => {
                return Err(CassetteError::DistTx("votes not complete".to_string()));
            },
            Some(o) => o,
        };
        let mut tx = self.log.transactions.remove(i);
        tx.participants = ps;
        tx.phase = outcome;
        let ghost tv = tx@;
        self.log.transactions.insert(i, tx);
        proof {
            lemma_insert_at(s, tx_id@, tv, i as int);
        }
        assert(self.log@ =~= s.update(i as int, (tx_id@, tv)));
        Ok(outcome)
    }

    /// Commits a prepared transaction (see `DistributedTransaction::commit`).
    pub fn commit(&mut self, tx_id: &str) -> (r: Result<(), CassetteError>)
        ensures
            match assoc_get(old(self)@.log, tx_id@) {
                Some(t) => if t.phase == TxPhase::Prepared {
                    r is Ok && final(self)@ == (CoordinatorView {
                        log: assoc_insert(old(self)@.log, tx_id@, TxView { phase: TxPhase::Committed, ..t }),
                        ..old(self)@
                    })
                } else {
                    r matches Err(CassetteError::DistTx(m)) && m@ == "transaction is not prepared"@ && final(self)@
                        == old(self)@
                },
                None => r matches Err(CassetteError::DistTx(m)) && m@ == "transaction not found"@ && final(self)@
                    == old(self)@,
            },
            votes_respected(old(self)@.log) ==> votes_respected(final(self)@.log),
    {
        let ghost s = self@.log;
        let i = match self.log.position(tx_id) {
            None => {
                proof {
                    lemma_get_absent(s, tx_id@);
                }
                return Err(CassetteError::DistTx("transaction not found".to_string()));
            },
            Some(i) => i,
        };
        proof {
            lemma_get_at(s, tx_id@, i as int);
        }
        assert(s[i as int].1 == self.log.transactions@[i as int]@);
        if self.log.transactions[i].phase != TxPhase::Prepared {
            return Err(CassetteError::DistTx("transaction is not prepared".to_string()));
        }
        let mut tx = self.log.transactions.remove(i);
        tx.phase = TxPhase::Committed;
        let ghost tv = tx@;
        self.log.transactions.insert(i, tx);
        proof {
            lemma_insert_at(s, tx_id@, tv, i as int);
        }
        assert(self.log@ =~= s.update(i as int, (tx_id@, tv)));
        Ok(())
    }

    /// Aborts a transaction that is not committed (see
    /// `DistributedTransaction::abort`).
    pub fn abort(&mut self, tx_id: &str) -> (r: Result<(), CassetteError>)
        ensures
            match assoc_get(old(self)@.log, tx_id@) {
                Some(t) => if t.phase != TxPhase::Committed {
                    r is Ok && final(self)@ == (CoordinatorView {
                        log: assoc_insert(old(self)@.log, tx_id@, TxView { phase: TxPhase::Aborted, ..t }),
                        ..old(self)@
                    })
                } else {
                    r matches Err(CassetteError::DistTx(m)) && m@ == "cannot abort a committed transaction"@
                        && final(self)@ == old(self)@
                },
                None => r matches Err(CassetteError::DistTx(m)) && m@ == "transaction not found"@ && final(self)@
                    == old(self)@,
            },
            votes_respected(old(self)@.log) ==> votes_respected(final(self)@.log),
    {
        let ghost s = self@.log;
        let i = match self.log.position(tx_id) {
            None => {
                proof {
                    lemma_get_absent(s, tx_id@);
                }
                return Err(CassetteError::DistTx("transaction not found".to_string()));
            },
            Some(i) => i,
        };
        proof {
            lemma_get_at(s, tx_id@, i as int);
        }
        assert(s[i as int].1 == self.log.transactions@[i as int]@);
        if self.log.transactions[i].phase == TxPhase::Committed {
            return Err(CassetteError::DistTx("cannot abort a committed transaction".to_string()));
        }
        let mut tx = self.log.transactions.remove(i);
        tx.phase = TxPhase::Aborted;
        let ghost tv = tx@;
        self.log.transactions.insert(i, tx);
        proof {
            lemma_insert_at(s, tx_id@, tv, i as int);
        }
        assert(self.log@ =~= s.update(i as int, (tx_id@, tv)));
        Ok(())
    }

    /// The phase of transaction `tx_id`, if registered.
    pub fn recover(&self, tx_id: &str) -> (r: Option<TxPhase>)
        ensures
            r == match assoc_get(self@.log, tx_id@) {
                Some(t) => Some(t.phase),
                None => None::<TxPhase>,
            },
    {
        match self.log.position(tx_id) {
            None => {
                proof {
                    lemma_get_absent(self@.log, tx_id@);
                }
                None
            },
            Some(i) => {
                proof {
                    lemma_get_at(self@.log, tx_id@, i as int);
                }
                assert(self@.log[i as int].1 == self.log.transactions@[i as int]@);
                Some(self.log.transactions[i].phase)
            },
        }
    }
}

/// Once a vote names no participant, later votes do not help.
proof fn lemma_with_votes_stuck(
    ps: Seq<(Seq<char>, Option<ParticipantVote>)>,
    rs: Seq<(Seq<char>, ParticipantVote)>,
    k: int,
)
    requires
        0 <= k < rs.len(),
        with_votes(ps, rs.take(k + 1)) is None,
    ensures
        with_votes(ps, rs) is None,
    decreases rs.len() - k,
{
    if k + 1 < rs.len() {
        assert(rs.take(k + 2).drop_last() =~= rs.take(k + 1));
        lemma_with_votes_stuck(ps, rs, k + 1);
    } else {
        assert(rs.take(k + 1) =~= rs);
    }
}

} // verus!

verus! {

impl<Op: Clone> TwoPhaseCoordinator<Op> {
    /// Starts a transaction in the voting phase with the given participants
    /// (each once), registers it, and returns it.
    pub fn begin(&mut self, tx_id: String, participants: Vec<NodeId>) -> (r: DistributedTransaction<Op>)
        ensures
            r@ == (TxView::<Op> {
                tx_id: tx_id@,
                coordinator: old(self)@.node_id,
                participants: with_participants(Seq::empty(), views(participants@)),
                operations: Seq::empty(),
                phase: TxPhase::Voting,
            }),
            final(self)@ == (CoordinatorView { log: assoc_insert(old(self)@.log, tx_id@, r@), ..old(self)@ }),
            votes_respected(old(self)@.log) ==> votes_respected(final(self)@.log),
    {
        let mut tx: DistributedTransaction<Op> = DistributedTransaction::new(tx_id, self.node_id.clone());
        let ghost ids = views(participants@);
        let mut i: usize = 0;
        assert(ids.take(0) =~= Seq::<Seq<char>>::empty());
        while i < participants.len()
            invariant
                i <= participants@.len(),
                ids == views(participants@),
                tx@.participants == with_participants(Seq::empty(), ids.take(i as int)),
                tx@.operations == Seq::<Op>::empty(),
                tx@.phase == TxPhase::Voting,
                tx@.tx_id == tx_id@,
                tx@.coordinator == self@.node_id,
            decreases participants.len() - i,
        {
            assert(ids.take(i + 1).drop_last() =~= ids.take(i as int));
            assert(ids.take(i + 1).last() == participants@[i as int]@);
            tx.add_participant(participants[i].clone());
            i = i + 1;
        }
        assert(ids.take(i as int) =~= ids);
        let copy = tx.clone();
        assert(copy@.operations =~= Seq::<Op>::empty());
        assert(copy@ == tx@);
        let ghost old_log = self@.log;
        self.log.register(copy);
        proof {
            if votes_respected(old_log) {
                assert forall|k: int|
                    0 <= k < self@.log.len() && ((#[trigger] self@.log[k]).1.phase == TxPhase::Prepared
                        || self@.log[k].1.phase == TxPhase::Committed) implies unanimous(self@.log[k].1.participants) by {
                    lemma_insert_entries(old_log, tx_id@, tx@, k);
                    if self@.log[k] != (tx_id@, tx@) {
                        let j = choose|j: int| 0 <= j < old_log.len() && self@.log[k] == old_log[j];
                        assert(old_log[j] == self@.log[k]);
                    }
                }
            }
        }
        tx
    }
}

/// Every entry of a list after setting one key is the new value or an old entry.
proof fn lemma_insert_entries<V>(s: Seq<(Seq<char>, V)>, key: Seq<char>, v: V, k: int)
    requires
        0 <= k < assoc_insert(s, key, v).len(),
    ensures
        assoc_insert(s, key, v)[k] == (key, v) || exists|j: int| 0 <= j < s.len() && assoc_insert(s, key, v)[k] == s[j],
    decreases s.len(),
{
    if s.len() > 0 && s[0].0 != key {
        if k > 0 {
            lemma_insert_entries(s.drop_first(), key, v, k - 1);
            if assoc_insert(s.drop_first(), key, v)[k - 1] != (key, v) {
                let j = choose|j: int| 0 <= j < s.drop_first().len() && assoc_insert(s.drop_first(), key, v)[k - 1] == s.drop_first()[j];
                assert(s[j + 1] == s.drop_first()[j]);
            }
        } else {
            assert(assoc_insert(s, key, v)[0] == s[0]);
        }
    } else if s.len() > 0 {
        if k > 0 {
            assert(assoc_insert(s, key, v)[k] == s[k]);
        }
    }
}

/// A participant that applies a transaction's operations through its router
/// `R` and votes by the result.
#[derive(Debug)]
pub struct LocalParticipant<R> {
    node_id: NodeId,
    router: R,
}

impl<R> LocalParticipant<R> {
    /// A participant named `node_id` working through `router`.
    pub fn new(node_id: NodeId, router: R) -> (r: Self)
        ensures
            r.node_id()@ == node_id@,
            r.router() == router,
    {
        LocalParticipant { node_id, router }
    }

    /// The participant's node ID.
    pub closed spec fn node_id(&self) -> NodeId {
        self.node_id
    }

    /// The participant's router.
    pub closed spec fn router(&self) -> R {
        self.router
    }

    /// The router, for applying operations.
    pub fn router_mut(&mut self) -> (r: &mut R)
        ensures
            *r == old(self).router(),
            final(self).router() == *final(r),
            final(self).node_id() == old(self).node_id(),
    {
        &mut self.router
    }

    /// The answer to `req` once its operations were applied (`applied`) or
    /// one of them failed: a yes vote exactly when all were applied.
    pub fn vote<Op>(&self, req: &PrepareRequest<Op>, applied: bool) -> (r: PrepareResponse)
        ensures
            r.tx_id@ == req.tx_id@,
            r.node_id@ == self.node_id()@,
            r.vote == if applied { ParticipantVote::Yes } else { ParticipantVote::No },
    {
        PrepareResponse {
            tx_id: req.tx_id.clone(),
            node_id: self.node_id.clone(),
            vote: if applied {
                ParticipantVote::Yes
            } else {
                ParticipantVote::No
            },
        }
    }
}

} // verus!

verus! {

/// An operation of a distributed transaction, on one shard.
#[derive(Debug, Clone)]
pub enum TxOp {
    Insert { doc: crate::document::Document, shard: String },
    Update { id: String, data: crate::json::JsonValue, shard: String },
    Delete { id: String, shard: String },
}

/// The shard an operation goes to.
pub open spec fn op_shard(op: TxOp) -> Seq<char> {
    match op {
        TxOp::Insert { shard, .. } => shard@,
        TxOp::Update { shard, .. } => shard@,
        TxOp::Delete { shard, .. } => shard@,
    }
}

/// Whether applying `op` to the router `b` leads to `a`, succeeding when
/// `ok`: the shard must have an engine, which then does the operation on a
/// copy of its document or data, its full-text index following.
pub open spec fn op_applied(
    b: crate::shard::RouterView,
    op: TxOp,
    a: crate::shard::RouterView,
    ok: bool,
) -> bool {
    let i = crate::seqs::position(b.engines, crate::shard::engine_of(op_shard(op)));
    if i == b.engines.len() {
        !ok && a == b
    } else {
        &&& a == crate::shard::with_engine(b, i, a.engines[i].1, a.indexes[i])
        &&& match op {
            TxOp::Insert { doc, .. } => ok && exists|d: crate::document::Document, id: Seq<char>|
                d@ == doc@ && #[trigger] crate::engine::docs_inserted(b.engines[i].1, a.engines[i].1, d, id)
                    && crate::engine::index_added(b.indexes[i], a.indexes[i], id, d.data),
            TxOp::Update { id, data, .. } => exists|x: crate::json::JsonValue, r: Result<(), CassetteError>|
                x@ == data@ && #[trigger] crate::engine::docs_updated(b.engines[i].1, a.engines[i].1, id@, x, r) && ok
                    == r is Ok && crate::engine::index_after_update(b.engines[i].1, b.indexes[i], a.indexes[i], id@, x),
            TxOp::Delete { id, .. } => exists|r: Result<(), CassetteError>|
                #[trigger] crate::engine::docs_deleted(b.engines[i].1, a.engines[i].1, id@, r) && ok == r is Ok
                    && crate::engine::index_after_delete(b.engines[i].1, b.indexes[i], a.indexes[i], id@),
        }
    }
}

/// Router states that applying `ops` in order leads through, each step as
/// `op_applied` says, stopping after the first failure.
pub open spec fn applied_chain(ops: Seq<TxOp>, states: Seq<crate::shard::RouterView>, oks: Seq<bool>) -> bool {
    &&& states.len() == oks.len() + 1
    &&& oks.len() <= ops.len()
    &&& forall|i: int| 0 <= i < oks.len() ==> op_applied(#[trigger] states[i], ops[i], states[i + 1], oks[i])
    &&& forall|i: int| 0 <= i < oks.len() - 1 ==> #[trigger] oks[i]
    &&& oks.len() < ops.len() ==> oks.len() > 0 && !oks.last()
}

/// Whether a chain applied every operation.
pub open spec fn all_applied(ops: Seq<TxOp>, oks: Seq<bool>) -> bool {
    oks.len() == ops.len() && (oks.len() == 0 || oks.last())
}

impl LocalParticipant<crate::shard::ShardRouter> {
    /// Prepares a transaction: applies its operations in order through the
    /// router, stopping at the first that fails, and votes yes exactly when
    /// all were applied.
    pub fn prepare(&mut self, req: &PrepareRequest<TxOp>) -> (r: PrepareResponse)
        ensures
            r.tx_id@ == req.tx_id@,
            r.node_id@ == old(self).node_id()@,
            final(self).node_id() == old(self).node_id(),
            exists|states: Seq<crate::shard::RouterView>, oks: Seq<bool>|
                {
                    &&& #[trigger] applied_chain(req.operations@, states, oks)
                    &&& states[0] == old(self).router()@
                    &&& states.last() == final(self).router()@
                    &&& r.vote == if all_applied(req.operations@, oks) {
                        ParticipantVote::Yes
                    } else {
                        ParticipantVote::No
                    }
                },
    {
        let ghost ops = req.operations@;
        let ghost mut states: Seq<crate::shard::RouterView> = seq![self.router@];
        let ghost mut oks: Seq<bool> = Seq::empty();
        let mut all_ok = true;
        let mut k: usize = 0;
        while k < req.operations.len()
            invariant_except_break
                k <= ops.len(),
                ops == req.operations@,
                all_ok,
                oks.len() == k,
                states.len() == k + 1,
                states[0] == old(self).router()@,
                states.last() == self.router@,
                self.node_id == old(self).node_id(),
                forall|i: int| 0 <= i < oks.len() ==> op_applied(#[trigger] states[i], ops[i], states[i + 1], oks[i]),
                forall|i: int| 0 <= i < oks.len() ==> #[trigger] oks[i],
            ensures
                ops == req.operations@,
                states[0] == old(self).router()@,
                states.last() == self.router@,
                self.node_id == old(self).node_id(),
                applied_chain(ops, states, oks),
                all_ok == all_applied(ops, oks),
            decreases req.operations.len() - k,
        {
            let ghost before = self.router@;
            let ok = match &req.operations[k] {
                TxOp::Insert { doc, shard } => {
                    let d = doc.copy();
                    let ghost dd = d;
                    let r = self.router.insert_into(shard.as_str(), d);
                    proof {
                        let i = crate::seqs::position(before.engines, crate::shard::engine_of(shard@));
                        if i < before.engines.len() {
                            assert(crate::engine::docs_inserted(before.engines[i].1, self.router@.engines[i].1, dd, r->Ok_0@));
                        }
                    }
                    r.is_ok()
                },
                TxOp::Update { id, data, shard } => {
                    let x = data.copy();
                    let ghost xx = x;
                    let r = self.router.update_in(shard.as_str(), id.as_str(), x);
                    proof {
                        let i = crate::seqs::position(before.engines, crate::shard::engine_of(shard@));
                        if i < before.engines.len() {
                            assert(crate::engine::docs_updated(before.engines[i].1, self.router@.engines[i].1, id@, xx, r));
                        }
                    }
                    r.is_ok()
                },
                TxOp::Delete { id, shard } => {
                    let r = self.router.delete_in(shard.as_str(), id.as_str());
                    proof {
                        let i = crate::seqs::position(before.engines, crate::shard::engine_of(shard@));
                        if i < before.engines.len() {
                            assert(crate::engine::docs_deleted(before.engines[i].1, self.router@.engines[i].1, id@, r));
                        }
                    }
                    r.is_ok()
                },
            };
            assert(op_applied(before, ops[k as int], self.router@, ok));
            proof {
                let old_states = states;
                let old_oks = oks;
                states = states.push(self.router@);
                oks = oks.push(ok);
                assert forall|i: int| 0 <= i < oks.len() implies op_applied(#[trigger] states[i], ops[i], states[i + 1], oks[i]) by {
                    if i < k {
                        assert(states[i] == old_states[i]);
                        assert(states[i + 1] == old_states[i + 1]);
                        assert(oks[i] == old_oks[i]);
                    }
                }
            }
            k = k + 1;
            if !ok {
                all_ok = false;
                break;
            }
        }
        PrepareResponse {
            tx_id: req.tx_id.clone(),
            node_id: self.node_id.clone(),
            vote: if all_ok {
                ParticipantVote::Yes
            } else {
                ParticipantVote::No
            },
        }
    }

    /// The router back, once the participant is done.
    pub fn into_router(self) -> (r: crate::shard::ShardRouter)
        ensures
            r == self.router(),
    {
        self.router
    }
}

} // verus!

verus! {

/// A transaction is prepared only when every participant voted yes.
pub proof fn lemma_prepared_needs_every_yes(ps: Seq<(Seq<char>, Option<ParticipantVote>)>, i: int)
    requires
        vote_outcome(ps) == Some(TxPhase::Prepared),
        0 <= i < ps.len(),
    ensures
        ps[i].1 == Some(ParticipantVote::Yes),
{
}

/// Once everyone has voted, a single no vote aborts the transaction.
pub proof fn lemma_one_no_aborts(ps: Seq<(Seq<char>, Option<ParticipantVote>)>, i: int)
    requires
        all_voted(ps),
        0 <= i < ps.len(),
        ps[i].1 == Some(ParticipantVote::No),
    ensures
        vote_outcome(ps) == Some(TxPhase::Aborted),
{
}

/// While a participant has not voted there is no outcome.
pub proof fn lemma_no_outcome_before_all_votes(ps: Seq<(Seq<char>, Option<ParticipantVote>)>, i: int)
    requires
        0 <= i < ps.len(),
        ps[i].1 is None,
    ensures
        vote_outcome(ps) is None,
{
}

} // verus!
