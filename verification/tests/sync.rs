use cassettedb::db::Cassette;
use cassettedb::json::JsonValue;
use cassettedb::sync::{decide, sync_into, SyncAction, SyncResult};

fn obj(k: &str, v: &str) -> JsonValue {
    JsonValue::Object(vec![(k.to_string(), JsonValue::String(v.to_string()))])
}

fn db_with(docs: Vec<(&str, &str, &str, bool)>) -> Cassette {
    let mut db = Cassette::new();
    for (id, text, at, deleted) in docs {
        db.insert_with("c", obj("t", text), id.to_string(), at.to_string(), at.to_string());
        if deleted {
            db.delete("c", id).unwrap();
            let coll = &mut db.collections[0];
            let pos = coll.documents.iter().position(|d| d.id == id).unwrap();
            coll.documents[pos].updated_at = at.to_string();
        }
    }
    db
}

const T1: &str = "2024-01-01T00:00:00+00:00";
const T2: &str = "2024-01-02T00:00:00+00:00";

#[test]
fn missing_live_documents_are_added() {
    let mut local = Cassette::new();
    let remote = db_with(vec![("x", "hello", T1, false), ("y", "gone", T1, true)]);
    let r = sync_into(&mut local, &remote).unwrap();
    assert_eq!(r.summary.added, 1);
    assert_eq!(local.get("c", "x").unwrap().updated_at, T1);
    assert!(local.get("c", "y").is_none());
    assert_eq!(local.search("c", "hello").unwrap().len(), 1);
}

#[test]
fn later_remote_update_wins_and_earlier_is_ignored() {
    let mut local = db_with(vec![("x", "old", T1, false), ("y", "mine", T2, false)]);
    let remote = db_with(vec![("x", "new", T2, false), ("y", "theirs", T1, false)]);
    let r = sync_into(&mut local, &remote).unwrap();
    assert_eq!(r.summary.updated, 1);
    assert_eq!(r.summary.unchanged, 1);
    assert_eq!(local.search("c", "new").unwrap().len(), 1);
    assert_eq!(local.get("c", "x").unwrap().updated_at, T2);
    assert_eq!(local.search("c", "mine").unwrap().len(), 1);
}

#[test]
fn deletions_and_revivals_follow_the_later_side() {
    let mut local = db_with(vec![("x", "a", T1, false), ("y", "b", T1, true), ("z", "c", T2, true)]);
    let remote = db_with(vec![("x", "a", T2, true), ("y", "b2", T2, false), ("z", "c", T1, false)]);
    let r = sync_into(&mut local, &remote).unwrap();
    assert_eq!(r.summary.deleted, 1);
    assert_eq!(r.summary.updated, 1);
    assert_eq!(r.summary.unchanged, 1);
    assert!(local.get("c", "x").is_none());
    assert!(local.get("c", "y").is_some());
    assert!(local.get("c", "z").is_none());
}

#[test]
fn same_instant_different_content_is_a_conflict() {
    let mut local = db_with(vec![("x", "mine", T1, false), ("y", "same", T1, false)]);
    let remote = db_with(vec![("x", "theirs", T1, false), ("y", "same", T2, false)]);
    let r = sync_into(&mut local, &remote).unwrap();
    assert_eq!(r.summary.conflicts, 1);
    assert_eq!(r.summary.unchanged, 1);
    assert_eq!(r.conflicts.len(), 1);
    assert_eq!(r.conflicts[0].collection, "c");
    assert_eq!(r.conflicts[0].doc_id, "x");
    assert_eq!(local.search("c", "mine").unwrap().len(), 1);
}

#[test]
fn unparsable_times_count_as_the_epoch() {
    let mut local = db_with(vec![("x", "mine", "not a time", false)]);
    let remote = db_with(vec![("x", "theirs", T1, false)]);
    let r = sync_into(&mut local, &remote).unwrap();
    assert_eq!(r.summary.updated, 1);
}

#[test]
fn decisions_for_matched_pairs() {
    let local = db_with(vec![("x", "a", T1, false)]);
    let remote = db_with(vec![("x", "a", T1, false)]);
    let l = &local.collections[0].documents[0];
    let r = &remote.collections[0].documents[0];
    assert_eq!(decide(l, r, Some((1, 0)), Some((1, 0))), SyncAction::Unchanged);
    let remote2 = db_with(vec![("x", "b", T1, false)]);
    let r2 = &remote2.collections[0].documents[0];
    assert_eq!(decide(l, r2, Some((1, 0)), Some((1, 0))), SyncAction::Conflict);
    assert_eq!(decide(l, r2, Some((1, 0)), Some((1, 1))), SyncAction::Take);
    assert_eq!(decide(l, r2, Some((2, 0)), None), SyncAction::Unchanged);
}

#[test]
fn empty_result_counts_nothing() {
    let r = SyncResult::empty();
    assert_eq!(r.summary.added + r.summary.updated + r.summary.deleted + r.summary.conflicts + r.summary.unchanged, 0);
    assert!(r.conflicts.is_empty());
}

#[test]
fn syncing_with_a_copy_changes_nothing() {
    let mut local = db_with(vec![("x", "a", T1, false), ("y", "b", T2, true)]);
    let remote = local.copy();
    let r = sync_into(&mut local, &remote).unwrap();
    assert_eq!(r.summary.unchanged, 2);
    assert_eq!(r.summary.added + r.summary.updated + r.summary.deleted + r.summary.conflicts, 0);
    assert!(r.conflicts.is_empty());
    assert!(cassettedb::json::json_eq(&local.get("c", "x").unwrap().data, &remote.get("c", "x").unwrap().data));
}
