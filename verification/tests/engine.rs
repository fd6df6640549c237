use cassettedb::document::Document;
use cassettedb::engine::{Engine, Recovered};
use cassettedb::error::CassetteError;
use cassettedb::json::JsonValue;

fn obj(fields: Vec<(&str, JsonValue)>) -> JsonValue {
    JsonValue::Object(fields.into_iter().map(|(k, v)| (k.to_string(), v)).collect())
}

fn field<'a>(v: &'a JsonValue, k: &str) -> &'a JsonValue {
    v.get(k).unwrap()
}

#[test]
fn test_crud() {
    let mut engine = Engine::new();
    let doc = Document::new(obj(vec![("title", JsonValue::String("Hello".into())), ("views", JsonValue::Number("42".into()))]));
    let id = engine.insert(doc);
    assert_eq!(engine.doc_count(), 1);

    engine
        .update(&id, obj(vec![("title", JsonValue::String("World".into())), ("views", JsonValue::Number("100".into()))]))
        .unwrap();
    assert!(matches!(field(&engine.get(&id).unwrap().data, "views"), JsonValue::Number(n) if n == "100"));

    engine.delete(&id).unwrap();
    assert_eq!(engine.doc_count(), 0);
}

#[test]
fn missing_documents_are_not_found() {
    let mut engine = Engine::new();
    assert!(matches!(engine.update("x", JsonValue::Null), Err(CassetteError::NotFound(m)) if m == "x"));
    assert!(matches!(engine.delete("x"), Err(CassetteError::NotFound(m)) if m == "x"));
    assert!(engine.get("x").is_none());
}

#[test]
fn documents_without_id_get_a_uuid_and_ids_are_kept() {
    let mut engine = Engine::new();
    let id = engine.insert(Document::with_id(String::new(), JsonValue::Null));
    assert_eq!(id.len(), 36);
    let id2 = engine.insert(Document::with_id("mine".into(), JsonValue::Null));
    assert_eq!(id2, "mine");
    assert_eq!(engine.doc_count(), 2);
    engine.insert(Document::with_id("mine".into(), JsonValue::Bool(true)));
    assert_eq!(engine.doc_count(), 2);
}

#[test]
fn search_finds_documents_by_every_word() {
    let mut engine = Engine::new();
    engine.insert(Document::with_id("a".into(), obj(vec![("name", JsonValue::String("Alice Smith".into()))])));
    engine.insert(Document::with_id("b".into(), obj(vec![("name", JsonValue::String("Bob Smith".into()))])));
    let mut found: Vec<String> = engine.search("smith").into_iter().map(|d| d.id).collect();
    found.sort();
    assert_eq!(found, vec!["a", "b"]);
    let found: Vec<String> = engine.search("alice smith").into_iter().map(|d| d.id).collect();
    assert_eq!(found, vec!["a"]);
    assert!(engine.search("").is_empty());
    engine.delete("a").unwrap();
    let found: Vec<String> = engine.search("smith").into_iter().map(|d| d.id).collect();
    assert_eq!(found, vec!["b"]);
}

#[test]
fn recovery_replays_puts_and_removes() {
    let recs = vec![
        Recovered::Put(Document::with_id("a".into(), obj(vec![("t", JsonValue::String("one".into()))]))),
        Recovered::Put(Document::with_id("b".into(), obj(vec![("t", JsonValue::String("two".into()))]))),
        Recovered::Put(Document::with_id("a".into(), obj(vec![("t", JsonValue::String("three".into()))]))),
        Recovered::Remove("b".into()),
        Recovered::Skip,
    ];
    let engine = Engine::recover(recs);
    assert_eq!(engine.doc_count(), 1);
    assert!(engine.search("one").is_empty());
    assert_eq!(engine.search("three").len(), 1);
    assert!(engine.search("two").is_empty());
    assert_eq!(engine.documents().len(), 1);
}

#[test]
fn index_follows_updates_and_deletes() {
    let mut engine = Engine::new();
    engine.insert(Document::with_id("a".into(), obj(vec![("w", JsonValue::String("alpha".into()))])));
    assert_eq!(engine.search("alpha").len(), 1);
    engine.update("a", obj(vec![("w", JsonValue::String("beta".into()))])).unwrap();
    assert!(engine.search("alpha").is_empty());
    assert_eq!(engine.search("beta").len(), 1);
    engine.delete("a").unwrap();
    assert!(engine.search("beta").is_empty());
}
