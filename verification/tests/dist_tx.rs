use cassettedb::dist_tx::{LocalParticipant, ParticipantVote, PrepareRequest, PrepareResponse, TwoPhaseCoordinator, TxOp, TxPhase};
use cassettedb::document::Document;
use cassettedb::json::JsonValue;
use cassettedb::shard::ShardRouter;

fn obj(k: &str, v: JsonValue) -> JsonValue {
    JsonValue::Object(vec![(k.to_string(), v)])
}

#[test]
fn test_dist_tx_lifecycle() {
    let mut coord: TwoPhaseCoordinator<TxOp> = TwoPhaseCoordinator::new("coord".to_string());
    let tx = coord.begin("tx-1".to_string(), vec!["p1".to_string(), "p2".to_string()]);
    assert_eq!(tx.phase, TxPhase::Voting);

    coord
        .add_operation("tx-1", TxOp::Insert {
            doc: Document::new(obj("x", JsonValue::Number("1".into()))),
            shard: "s0".to_string(),
        })
        .unwrap();

    let responses = vec![
        PrepareResponse {
            tx_id: "tx-1".to_string(),
            node_id: "p1".to_string(),
            vote: ParticipantVote::Yes,
        },
        PrepareResponse {
            tx_id: "tx-1".to_string(),
            node_id: "p2".to_string(),
            vote: ParticipantVote::Yes,
        },
    ];

    let phase = coord.prepare("tx-1", responses).unwrap();
    assert_eq!(phase, TxPhase::Prepared);

    coord.commit("tx-1").unwrap();
    assert_eq!(coord.recover("tx-1"), Some(TxPhase::Committed));
}

#[test]
fn test_dist_tx_abort_on_no_vote() {
    let mut coord: TwoPhaseCoordinator<TxOp> = TwoPhaseCoordinator::new("coord".to_string());
    coord.begin("tx-2".to_string(), vec!["p1".to_string()]);
    let responses = vec![PrepareResponse {
        tx_id: "tx-2".to_string(),
        node_id: "p1".to_string(),
        vote: ParticipantVote::No,
    }];
    let phase = coord.prepare("tx-2", responses).unwrap();
    assert_eq!(phase, TxPhase::Aborted);
}

#[test]
fn test_local_participant() {
    let router = ShardRouter::with_shards(vec!["s0".to_string()], "shards").unwrap();
    let mut participant = LocalParticipant::new("node-1".to_string(), router);
    let req = PrepareRequest {
        tx_id: "tx-3".to_string(),
        coordinator: "coord".to_string(),
        operations: vec![TxOp::Insert {
            doc: Document::new(obj("k", JsonValue::String("v".into()))),
            shard: "s0".to_string(),
        }],
    };
    let resp = participant.prepare(&req);
    assert_eq!(resp.vote, ParticipantVote::Yes);
    let router = participant.into_router();
    assert_eq!(router.doc_count(), 1);
}

#[test]
fn a_failed_operation_stops_the_prepare_and_votes_no() {
    let router = ShardRouter::with_shards(vec!["s0".to_string()], "shards").unwrap();
    let mut participant = LocalParticipant::new("node-1".to_string(), router);
    let req = PrepareRequest {
        tx_id: "tx-4".to_string(),
        coordinator: "coord".to_string(),
        operations: vec![
            TxOp::Insert { doc: Document::with_id("d".into(), JsonValue::Null), shard: "s0".to_string() },
            TxOp::Delete { id: "missing".into(), shard: "s0".to_string() },
            TxOp::Insert { doc: Document::with_id("e".into(), JsonValue::Null), shard: "s0".to_string() },
        ],
    };
    let resp = participant.prepare(&req);
    assert_eq!(resp.vote, ParticipantVote::No);
    assert_eq!(resp.tx_id, "tx-4");
    assert_eq!(resp.node_id, "node-1");
    let router = participant.into_router();
    assert_eq!(router.doc_count(), 1);
}

#[test]
fn an_unknown_shard_votes_no() {
    let router = ShardRouter::with_shards(vec!["s0".to_string()], "shards").unwrap();
    let mut participant = LocalParticipant::new("node-1".to_string(), router);
    let req = PrepareRequest {
        tx_id: "tx-5".to_string(),
        coordinator: "coord".to_string(),
        operations: vec![TxOp::Update { id: "x".into(), data: JsonValue::Null, shard: "s9".to_string() }],
    };
    assert_eq!(participant.prepare(&req).vote, ParticipantVote::No);
}
