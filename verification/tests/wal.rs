use cassettedb::error::CassetteError;
use cassettedb::wal::{
    check_wal_header, encode_record, next_committed, read_record, wal_header, ReplayState, WalControl, WalOp,
    WAL_HEADER_LEN,
};

#[test]
fn header_is_magic_then_version() {
    let h = wal_header();
    assert_eq!(h, vec![b'C', b'W', b'L', b'1', 1, 0]);
    assert_eq!(h.len(), WAL_HEADER_LEN);
    assert!(check_wal_header(&h).is_ok());
}

#[test]
fn bad_headers_are_refused() {
    assert!(matches!(check_wal_header(b"CW"), Err(CassetteError::Io(m)) if m == "failed to fill whole buffer"));
    assert!(matches!(check_wal_header(b"XXXX\x01\x00"), Err(CassetteError::Wal(m)) if m == "Invalid WAL magic"));
    assert!(matches!(check_wal_header(b"CWL1\x07\x00"), Err(CassetteError::Wal(m)) if m == "Unsupported WAL version 7"));
}

#[test]
fn encoded_record_layout() {
    let r = encode_record(WalOp::Update, "ab", b"xyz");
    assert_eq!(r.len(), 1 + 4 + 2 + 4 + 3 + 4 + 1);
    assert_eq!(r[0], 2);
    assert_eq!(&r[1..5], &[2, 0, 0, 0]);
    assert_eq!(&r[5..7], b"ab");
    assert_eq!(&r[7..11], &[3, 0, 0, 0]);
    assert_eq!(&r[11..14], b"xyz");
    assert_eq!(&r[14..18], &crc32fast::hash(b"xyz").to_le_bytes());
    assert_eq!(r[18], 0);
    let rec = read_record(&r, 0).unwrap().unwrap();
    assert_eq!(rec.op, 2);
    assert_eq!(rec.id, b"ab".to_vec());
    assert_eq!(rec.payload, b"xyz".to_vec());
    assert_eq!(rec.flag, 0);
    assert_eq!(rec.next, r.len());
    assert!(matches!(read_record(&r, r.len()), Ok(None)));
    assert!(matches!(read_record(&r[..10], 0), Err(CassetteError::Io(_))));
}

#[test]
fn uncommitted_records_are_skipped_and_committed_ones_read() {
    let mut log = wal_header();
    log.extend(encode_record(WalOp::Insert, "a", b"1"));
    let second = log.len();
    log.extend(encode_record(WalOp::Delete, "b", b""));
    // Nothing is committed yet.
    let (next, _) = next_committed(&log, WAL_HEADER_LEN);
    assert!(next.is_none());
    // Commit the second record by setting its flag.
    let flag_at = read_record(&log, second).unwrap().unwrap().next - 1;
    log[flag_at] = 1;
    let (next, pos) = next_committed(&log, WAL_HEADER_LEN);
    let rec = next.unwrap().unwrap();
    assert_eq!(rec.op, WalOp::Delete);
    assert_eq!(rec.doc_id, "b");
    assert!(rec.payload.is_empty());
    assert_eq!(pos, log.len());
    assert!(next_committed(&log, pos).0.is_none());
}

#[test]
fn unknown_committed_code_is_an_error() {
    let mut log = wal_header();
    let mut r = encode_record(WalOp::Insert, "a", b"1");
    r[0] = 9;
    let last = r.len() - 1;
    r[last] = 1;
    log.extend(r);
    let (next, pos) = next_committed(&log, WAL_HEADER_LEN);
    assert!(matches!(next, Some(Err(CassetteError::Wal(m))) if m == "Unknown op"));
    assert_eq!(pos, log.len());
}

#[test]
fn replay_applies_committed_transactions_only() {
    let mut st: ReplayState<&str> = ReplayState::new();
    assert_eq!(st.step(WalControl::Data, "loose"), vec!["loose"]);
    assert!(st.step(WalControl::Begin(1), "b1").is_empty());
    assert!(st.step(WalControl::Data, "x").is_empty());
    assert!(st.step(WalControl::Data, "y").is_empty());
    assert_eq!(st.step(WalControl::Commit(1), "c1"), vec!["x", "y"]);
    assert!(st.step(WalControl::Begin(2), "b2").is_empty());
    assert!(st.step(WalControl::Data, "z").is_empty());
    assert!(st.step(WalControl::Abort(2), "a2").is_empty());
    assert!(st.step(WalControl::Begin(3), "b3").is_empty());
    assert!(st.step(WalControl::Data, "w").is_empty());
    assert!(st.step(WalControl::Commit(4), "c4").is_empty());
}
