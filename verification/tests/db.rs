use cassettedb::db::{
    index_document, value_to_index_key, words_of, Cassette, Document, DbError, Posting,
};
use cassettedb::json::JsonValue;

fn s(x: &str) -> JsonValue {
    JsonValue::String(x.to_string())
}

fn n(x: &str) -> JsonValue {
    JsonValue::Number(x.to_string())
}

fn obj(fields: Vec<(&str, JsonValue)>) -> JsonValue {
    JsonValue::Object(fields.into_iter().map(|(k, v)| (k.to_string(), v)).collect())
}

fn people() -> Cassette {
    let mut db = Cassette::new();
    db.insert_with("people", obj(vec![("age", n("30")), ("name", s("Alice Smith"))]), "a".into(), "t1".into(), "t1".into());
    db.insert_with("people", obj(vec![("age", n("25")), ("name", s("Bob"))]), "b".into(), "t2".into(), "t2".into());
    db.insert_with("people", obj(vec![("age", n("35")), ("name", s("Charlie alice"))]), "c".into(), "t3".into(), "t3".into());
    db
}

fn ids(docs: &[&Document]) -> Vec<String> {
    docs.iter().map(|d| d.id.clone()).collect()
}

#[test]
fn new_database_is_empty_version_one() {
    let db = Cassette::new();
    assert_eq!(db.version, 1);
    assert!(db.collections().is_empty());
}

#[test]
fn insert_creates_collection_and_ids_have_time_and_random_parts() {
    let mut db = Cassette::new();
    let id = db.insert("notes", obj(vec![("text", s("hello"))])).unwrap();
    let parts: Vec<&str> = id.split('-').collect();
    assert_eq!(parts.len(), 2);
    assert!(parts[0].parse::<i64>().is_ok());
    assert!(parts[1].parse::<u16>().is_ok());
    let names: Vec<String> = db.collections().into_iter().cloned().collect();
    assert_eq!(names, vec!["notes".to_string()]);
    let d = db.get("notes", &id).unwrap();
    assert!(!d.deleted);
    assert_eq!(d.created_at.len() > 0, true);
}

#[test]
fn get_scan_and_delete() {
    let mut db = people();
    assert_eq!(db.get("people", "b").unwrap().id, "b");
    assert!(db.get("people", "zzz").is_none());
    assert!(db.get("nobody", "a").is_none());
    assert_eq!(db.delete("people", "b").unwrap(), true);
    assert!(db.get("people", "b").is_none());
    assert_eq!(ids(&db.scan("people").unwrap()), vec!["a", "c"]);
    assert_eq!(db.delete("people", "zzz").unwrap(), false);
    assert!(matches!(db.delete("nobody", "a"), Err(DbError::CollectionNotFound)));
    assert!(db.scan("nobody").unwrap().is_empty());
}

#[test]
fn delete_of_a_deleted_document_still_reports_true() {
    let mut db = people();
    assert_eq!(db.delete("people", "a").unwrap(), true);
    assert_eq!(db.delete("people", "a").unwrap(), true);
}

#[test]
fn update_replaces_data_and_reindexes() {
    let mut db = people();
    assert_eq!(db.update("people", "b", obj(vec![("name", s("Robert Alice"))])).unwrap(), true);
    let d = db.get("people", "b").unwrap();
    assert!(matches!(&d.data, JsonValue::Object(f) if f.len() == 1));
    let found = ids(&db.search("people", "robert").unwrap());
    assert_eq!(found, vec!["b"]);
    assert!(db.search("people", "bob").unwrap().is_empty());
    assert_eq!(db.update("people", "zzz", obj(vec![])).unwrap(), false);
    db.delete("people", "c").unwrap();
    assert_eq!(db.update("people", "c", obj(vec![])).unwrap(), false);
    assert!(matches!(db.update("nobody", "a", obj(vec![])), Err(DbError::CollectionNotFound)));
    assert_eq!(DbError::CollectionNotFound.to_text(), "collection not found");
}

#[test]
fn query_by_field_with_and_without_index() {
    let mut db = people();
    assert_eq!(ids(&db.query("people", "name=Bob").unwrap()), vec!["b"]);
    assert_eq!(ids(&db.query("people", " name = \"Bob\" ").unwrap()), vec!["b"]);
    assert!(db.query("people", "age=30").unwrap().is_empty());
    assert_eq!(ids(&db.query("people", "no filter").unwrap()), vec!["a", "b", "c"]);
    assert_eq!(ids(&db.query("people", "a=b=c").unwrap()), vec!["a", "b", "c"]);
    db.create_index("people", "age").unwrap();
    assert_eq!(ids(&db.query("people", "age=30").unwrap()), vec!["a"]);
    assert!(db.query("people", "age=31").unwrap().is_empty());
    assert!(db.query("nobody", "age=30").unwrap().is_empty());
}

#[test]
fn owned_queries_scan_without_indexes() {
    let mut db = people();
    db.create_index("people", "age").unwrap();
    assert!(db.query_owned("people", "age=30").unwrap().is_empty());
    let got = db.query_owned("people", "name=Bob").unwrap();
    assert_eq!(got.len(), 1);
    assert_eq!(got[0].id, "b");
    assert_eq!(db.scan_owned("people").unwrap().len(), 3);
    assert_eq!(db.get_owned("people", "c").unwrap().id, "c");
    assert!(db.get_owned("people", "x").is_none());
}

#[test]
fn range_queries_compare_keys_as_text() {
    let mut db = people();
    assert_eq!(ids(&db.query_range("people", "age", ">", "28").unwrap()), vec!["a", "c"]);
    assert_eq!(ids(&db.query_range("people", "age", "<", "30").unwrap()), vec!["b"]);
    assert_eq!(ids(&db.query_range("people", "age", ">=", "30").unwrap()), vec!["a", "c"]);
    assert_eq!(ids(&db.query_range("people", "age", "<=", "30").unwrap()), vec!["a", "b"]);
    assert!(db.query_range("people", "age", "!=", "30").unwrap().is_empty());
    db.create_index("people", "age").unwrap();
    assert_eq!(ids(&db.query_range("people", "age", ">", "28").unwrap()), vec!["a", "c"]);
    assert_eq!(ids(&db.query_range("people", "age", ">", "30").unwrap()), vec!["c"]);
    assert_eq!(ids(&db.query_range("people", "age", "<", "30").unwrap()), vec!["b"]);
    assert_eq!(ids(&db.query_range("people", "age", ">=", "30").unwrap()), vec!["a", "c"]);
    assert_eq!(ids(&db.query_range("people", "age", "<=", "30").unwrap()), vec!["b", "a"]);
    assert!(db.query_range("people", "age", "~", "30").unwrap().is_empty());
    assert!(db.query_range("nobody", "age", ">", "1").unwrap().is_empty());
}

#[test]
fn secondary_indexes_are_created_listed_and_dropped() {
    let mut db = people();
    db.create_index("people", "age").unwrap();
    db.create_index("people", "age").unwrap();
    db.create_index("people", "name").unwrap();
    assert_eq!(db.list_indexes("people"), vec!["age".to_string(), "name".to_string()]);
    assert!(db.list_indexes("nobody").is_empty());
    assert_eq!(db.drop_index("people", "age").unwrap(), true);
    assert_eq!(db.drop_index("people", "age").unwrap(), false);
    assert_eq!(db.list_indexes("people"), vec!["name".to_string()]);
    assert!(matches!(db.create_index("nobody", "x"), Err(DbError::CollectionNotFound)));
    assert!(matches!(db.drop_index("nobody", "x"), Err(DbError::CollectionNotFound)));
}

#[test]
fn search_ranks_by_number_of_matching_words() {
    let db = people();
    assert_eq!(ids(&db.search("people", "alice").unwrap()), vec!["a", "c"]);
    assert_eq!(ids(&db.search("people", "alice smith").unwrap()), vec!["a", "c"]);
    assert_eq!(ids(&db.search("people", "CHARLIE alice").unwrap()), vec!["c", "a"]);
    assert_eq!(ids(&db.search("people", "  ").unwrap()), vec!["a", "b", "c"]);
    assert!(db.search("people", "zebra").unwrap().is_empty());
    assert!(db.search("nobody", "alice").unwrap().is_empty());
}

#[test]
fn compact_drops_deleted_documents_and_rebuilds_indexes() {
    let mut db = people();
    db.create_index("people", "age").unwrap();
    db.delete("people", "a").unwrap();
    db.delete("people", "b").unwrap();
    assert_eq!(db.compact().unwrap(), 2);
    assert_eq!(ids(&db.scan("people").unwrap()), vec!["c"]);
    assert_eq!(db.collections[0].documents.len(), 1);
    assert_eq!(ids(&db.query("people", "age=35").unwrap()), vec!["c"]);
    assert_eq!(ids(&db.search("people", "alice").unwrap()), vec!["c"]);
    assert_eq!(db.compact().unwrap(), 0);
}

#[test]
fn index_keys_of_values() {
    assert_eq!(value_to_index_key(&s("x")), "x");
    assert_eq!(value_to_index_key(&n("4.5")), "4.5");
    assert_eq!(value_to_index_key(&JsonValue::Bool(true)), "true");
    assert_eq!(value_to_index_key(&JsonValue::Bool(false)), "false");
    assert_eq!(value_to_index_key(&JsonValue::Null), "null");
    assert_eq!(value_to_index_key(&JsonValue::Array(vec![n("1"), s("a")])), "[1,\"a\"]");
    assert_eq!(value_to_index_key(&obj(vec![("k", n("2"))])), "{\"k\":2}");
}

#[test]
fn words_are_lowercased_runs_of_ascii_letters_and_digits() {
    assert_eq!(words_of("Hello, World! x2"), vec!["hello", "world", "x2"]);
    assert_eq!(words_of("--a--b--"), vec!["a", "b"]);
    assert!(words_of("").is_empty());
    assert_eq!(words_of("café au lait"), vec!["caf", "au", "lait"]);
}

#[test]
fn index_document_lists_every_word_of_every_text_field() {
    let d = Document {
        id: "d1".into(),
        data: obj(vec![("n", n("1")), ("t", s("a b a"))]),
        created_at: String::new(),
        updated_at: String::new(),
        deleted: false,
    };
    let mut idx: Vec<Posting> = Vec::new();
    index_document(&mut idx, &d);
    let got: Vec<(String, String)> = idx.iter().map(|p| (p.1.clone(), p.2.clone())).collect();
    assert_eq!(got, vec![("a".into(), "d1".into()), ("b".into(), "d1".into()), ("a".into(), "d1".into())]);
}

#[test]
fn jsonpath_queries_select_documents() {
    let db = people();
    let got = ids(&db.query_jsonpath("people", "$.name").unwrap());
    assert_eq!(got, vec!["a", "b", "c"]);
    assert!(db.query_jsonpath("people", "$.missing").unwrap().is_empty());
    assert!(db.query_jsonpath("people", "not a path [").unwrap().is_empty());
    assert!(db.query_jsonpath("nobody", "$.name").unwrap().is_empty());
}

fn listed() -> Cassette {
    let mut db = Cassette::new();
    let list = JsonValue::Array(vec![n("1"), n("2"), n("3")]);
    db.insert_with("lists", obj(vec![("xs", list)]), "l".into(), "t".into(), "t".into());
    db.insert_with("lists", obj(vec![("xs", JsonValue::Array(vec![]))]), "e".into(), "t".into(), "t".into());
    db
}

#[test]
fn jsonpath_array_indexes_that_evaluate() {
    let db = listed();
    assert_eq!(ids(&db.query_jsonpath("lists", "$.xs[0,2]").unwrap()), vec!["l"]);
    assert_eq!(ids(&db.query_jsonpath("lists", "$.xs[-1:]").unwrap()), vec!["l"]);
    assert_eq!(ids(&db.query_jsonpath("lists", "$.xs[0:3:2]").unwrap()), vec!["l"]);
    assert_eq!(ids(&db.query_jsonpath("lists", "$.xs[1]").unwrap()), vec!["l"]);
    assert!(db.query_jsonpath("lists", "$.xs[7]").unwrap().is_empty());
    // A key in quotes is text, whatever brackets it holds.
    assert!(db.query_jsonpath("lists", "$['xs[-1,0]']").unwrap().is_empty());
    assert_eq!(ids(&db.query_jsonpath("lists", "$.xs[0,9223372036854775807]").unwrap()), vec!["l"]);
}

#[test]
fn jsonpath_array_indexes_that_are_refused() {
    let db = listed();
    for p in ["$.xs[-1,0]", "$.xs[0, 1.5]", "$.xs[1e0,2]", "$.xs[0:2:0]", "$.xs[99999999999999999999]"] {
        assert!(matches!(db.query_jsonpath("lists", p), Err(DbError::UnsupportedPath)), "{}", p);
    }
    // Without a live document nothing is evaluated, so nothing is refused.
    assert!(db.query_jsonpath("nobody", "$.xs[-1,0]").unwrap().is_empty());
    let mut gone = listed();
    gone.delete("lists", "l").unwrap();
    gone.delete("lists", "e").unwrap();
    assert!(gone.query_jsonpath("lists", "$.xs[-1,0]").unwrap().is_empty());
    assert_eq!(
        DbError::UnsupportedPath.to_text(),
        "unsupported array index in JSONPath expression"
    );
}

#[test]
fn copies_are_independent_and_equal() {
    let db = people();
    let c = db.copy();
    assert_eq!(c.collections.len(), 1);
    assert_eq!(c.collections[0].documents.len(), 3);
    assert_eq!(c.collections[0].inverted_index.len(), db.collections[0].inverted_index.len());
}
