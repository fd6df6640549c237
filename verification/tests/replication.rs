use cassettedb::error::CassetteError;
use cassettedb::replication::{
    check_repl_header, frame_change, next_frame, next_sequence_after, repl_header, ChangeRecord, FrameScan,
    Follower,
};
use cassettedb::wal::WalOp;

fn rec(seq: u64, op: WalOp, id: &str, payload: &[u8]) -> ChangeRecord {
    ChangeRecord { sequence: seq, op, doc_id: id.to_string(), payload: payload.to_vec(), timestamp: 0 }
}

#[test]
fn test_follower_poll() {
    let log = || vec![Ok(rec(1, WalOp::Insert, "doc1", b"data1")), Ok(rec(2, WalOp::Delete, "doc1", b""))];

    let mut follower = Follower::new("repl.log");
    let changes = follower.poll(log()).unwrap();
    assert_eq!(changes.len(), 2);
    assert_eq!(follower.last_sequence(), 2);

    // Poll again — no new changes.
    let changes = follower.poll(log()).unwrap();
    assert!(changes.is_empty());
}

#[test]
fn a_read_error_ends_the_poll_after_the_records_before_it() {
    let mut follower = Follower::new("x");
    let items = vec![
        Ok(rec(1, WalOp::Insert, "a", b"")),
        Err(CassetteError::Io("failed to fill whole buffer".into())),
        Ok(rec(2, WalOp::Insert, "b", b"")),
    ];
    assert!(matches!(follower.poll(items), Err(CassetteError::Io(_))));
    assert_eq!(follower.last_sequence(), 1);
    assert_eq!(follower.log_path(), "x");
}

#[test]
fn headers_and_frames() {
    let h = repl_header();
    assert_eq!(h, vec![b'C', b'R', b'L', b'1', 1, 0]);
    assert!(check_repl_header(&h).is_ok());
    assert!(matches!(check_repl_header(b"CRL"), Err(CassetteError::Io(_))));
    assert!(matches!(check_repl_header(b"XXXX\x01\x00"), Err(CassetteError::Corrupt(m)) if m == "Invalid replication log magic"));
    assert!(matches!(check_repl_header(b"CRL1\x02\x00"), Err(CassetteError::Corrupt(m)) if m == "Unsupported replication log version 2"));
    let f = frame_change(b"{}");
    assert_eq!(f, vec![2, 0, 0, 0, b'{', b'}']);
    assert_eq!(next_frame(&f, 0), FrameScan::Frame { start: 4, len: 2 });
    assert_eq!(next_frame(&f, 6), FrameScan::End);
    assert_eq!(next_frame(&f[..5], 0), FrameScan::Truncated);
    assert_eq!(next_frame(&f[..3], 0), FrameScan::End);
}

#[test]
fn the_next_sequence_follows_the_highest() {
    assert_eq!(next_sequence_after(&vec![]), 1);
    assert_eq!(next_sequence_after(&vec![3, 9, 4]), 10);
}
