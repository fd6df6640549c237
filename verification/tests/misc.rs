use cassettedb::backup::{snapshot_files, snapshot_id, sort_snapshots, new_snapshot_id, SnapshotMeta};
use cassettedb::feedback::{feedback_lines, FeedbackCategory, FeedbackEntry};
use cassettedb::json::{json_eq, JsonValue};
use cassettedb::wal::{WalControl, WalEntry};

fn meta(id: &str, at: &str) -> SnapshotMeta {
    SnapshotMeta { id: id.into(), created_at: at.into(), db_name: "db".into(), size_bytes: 1 }
}

#[test]
fn snapshots_are_named_and_listed_newest_first() {
    assert_eq!(snapshot_id("20240101_000000"), "snap_20240101_000000");
    assert!(new_snapshot_id().starts_with("snap_"));
    assert_eq!(
        snapshot_files("snap_1"),
        ("snap_1.cassette".to_string(), "snap_1.cassette.wal".to_string(), "snap_1.json".to_string())
    );
    let sorted = sort_snapshots(vec![meta("a", "2024-01-01"), meta("b", "2024-03-01"), meta("c", "2024-01-01"), meta("d", "2024-02-01")]);
    let ids: Vec<String> = sorted.into_iter().map(|m| m.id).collect();
    assert_eq!(ids, vec!["b", "d", "a", "c"]);
}

#[test]
fn feedback_logs_skip_blank_lines() {
    assert_eq!(feedback_lines("{\"a\":1}\n\n  \r\n{\"b\":2}\r\n"), vec!["{\"a\":1}".to_string(), "{\"b\":2}".to_string()]);
    assert_eq!(feedback_lines("x\r"), vec!["x\r".to_string()]);
    assert!(feedback_lines("").is_empty());
    let e = FeedbackEntry::new(FeedbackCategory::Bug, "m".into(), "1.0".into(), None);
    assert_eq!(e.category, FeedbackCategory::Bug);
    assert!(!e.timestamp.is_empty());
}

#[test]
fn json_values_copy_compare_and_edit_fields() {
    let v = JsonValue::Object(vec![("b".into(), JsonValue::Number("1".into())), ("d".into(), JsonValue::Null)]);
    let c = v.copy();
    assert!(json_eq(&v, &c));
    assert!(!json_eq(&v, &JsonValue::Null));
    let mut w = v.copy();
    w.insert_field("c".into(), JsonValue::Bool(true));
    assert!(matches!(&w, JsonValue::Object(f) if f.len() == 3 && f[1].0 == "c"));
    w.insert_field("b".into(), JsonValue::Bool(false));
    assert!(matches!(w.get("b"), Some(JsonValue::Bool(false))));
    w.remove_field("b");
    assert!(w.get("b").is_none());
    assert_eq!(w.get("d").is_some(), true);
    let mut x = JsonValue::Null;
    x.insert_field("k".into(), JsonValue::Null);
    assert!(matches!(x, JsonValue::Null));
    assert_eq!(JsonValue::String("s".into()).as_str(), Some("s"));
}

#[test]
fn log_entries_tell_recovery_what_they_are() {
    assert_eq!(WalEntry::Begin { tx_id: 1 }.control(), WalControl::Begin(1));
    assert_eq!(WalEntry::Commit { tx_id: 2 }.control(), WalControl::Commit(2));
    assert_eq!(WalEntry::Abort { tx_id: 3 }.control(), WalControl::Abort(3));
    assert_eq!(WalEntry::Delete { tx_id: 4, collection: "c".into(), id: "i".into() }.control(), WalControl::Data);
}
