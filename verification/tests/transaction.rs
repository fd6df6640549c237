use cassettedb::db::Cassette;
use cassettedb::json::JsonValue;
use cassettedb::transaction::{Transaction, TxError};
use cassettedb::wal::WalEntry;

fn obj(k: &str, v: &str) -> JsonValue {
    JsonValue::Object(vec![(k.to_string(), JsonValue::String(v.to_string()))])
}

fn base() -> Cassette {
    let mut db = Cassette::new();
    db.insert_with("c", obj("name", "one"), "1".into(), "t".into(), "t".into());
    db.insert_with("c", obj("name", "two"), "2".into(), "t".into(), "t".into());
    db
}

#[test]
fn reads_see_the_snapshot_and_own_writes() {
    let db = base();
    let mut tx = Transaction::begin(&db, 7);
    assert_eq!(tx.tx_id(), 7);
    let tmp = tx.insert("c", obj("name", "three")).unwrap();
    assert!(tmp.ends_with("-tx"));
    tx.update("c", "1", obj("name", "uno")).unwrap();
    tx.delete("c", "2").unwrap();
    let docs = tx.scan("c").unwrap();
    assert_eq!(docs.len(), 2);
    assert_eq!(docs[0].id, "1");
    assert!(matches!(&docs[0].data, JsonValue::Object(f) if matches!(&f[0].1, JsonValue::String(s) if s == "uno")));
    assert_eq!(docs[1].id, "");
    assert!(matches!(&docs[1].data, JsonValue::Object(f) if f.len() == 1));
    let got = tx.get("c", &tmp).unwrap();
    assert_eq!(got.id, tmp);
    assert!(tx.get("c", "2").is_none());
    assert_eq!(tx.get("c", "1").unwrap().id, "1");
    let q = tx.query("c", "name=one").unwrap();
    assert_eq!(q.len(), 2);
    assert_eq!(q[0].id, "1");
    assert_eq!(q[1].id, "");
    let q2 = tx.query("c", "name=uno").unwrap();
    assert_eq!(q2.len(), 1);
    assert_eq!(q2[0].id, "");
    assert_eq!(db.scan("c").unwrap().len(), 2);
}

#[test]
fn commit_applies_writes_and_gives_log_entries() {
    let mut db = base();
    let mut tx = Transaction::begin(&db, 3);
    tx.insert("c", obj("name", "three")).unwrap();
    tx.update("c", "1", obj("name", "uno")).unwrap();
    tx.delete("c", "2").unwrap();
    let entries = tx.commit(&mut db).unwrap();
    assert_eq!(entries.len(), 4);
    assert!(matches!(&entries[0], WalEntry::Insert { tx_id: 3, collection, .. } if collection == "c"));
    assert!(matches!(&entries[1], WalEntry::Update { tx_id: 3, id, .. } if id == "1"));
    assert!(matches!(&entries[2], WalEntry::Delete { tx_id: 3, id, .. } if id == "2"));
    assert!(matches!(&entries[3], WalEntry::Commit { tx_id: 3 }));
    let live = db.scan("c").unwrap();
    assert_eq!(live.len(), 2);
    assert_eq!(db.search("c", "three").unwrap().len(), 1);
    let inserted = db.search("c", "three").unwrap()[0];
    assert!(matches!(&inserted.data, JsonValue::Object(f) if f.len() == 1));
}

#[test]
fn rollback_gives_the_abort_entry() {
    let db = base();
    let tx = Transaction::begin(&db, 9);
    assert!(matches!(tx.rollback(), Ok(WalEntry::Abort { tx_id: 9 })));
}

#[test]
fn error_texts() {
    assert_eq!(TxError::AlreadyCommitted.to_text(), "transaction already committed");
    assert_eq!(TxError::AlreadyRolledBack.to_text(), "transaction already rolled back");
}
