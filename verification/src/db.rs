//! The document database: named collections of JSON documents.
//!
//! Each collection keeps its documents in insertion order (a delete only
//! marks a document), a full-text index of the words of its text fields,
//! and optional secondary indexes that map the key of a field's value to
//! the IDs of the documents holding it, in ascending key order.
use vstd::prelude::*;
use jsonpath_rust::JsonPathQuery;
use crate::index::{lowercase, to_lower};
use crate::json::{field_of, Json, JsonValue};
use crate::seqs::{find_first, keep, lemma_find_at, lemma_find_none, lemma_keep_step};
use crate::path_check::{index_safe, jsonpath_index_safe};
use crate::text::{chars_of, lex_lt, str_eq, str_lt, string_of, views};

verus! {

/// A stored document.
#[derive(Debug)]
pub struct Document {
    pub id: String,
    pub data: JsonValue,
    pub created_at: String,
    pub updated_at: String,
    pub deleted: bool,
}

/// The plain value of a document.
pub struct DocView {
    pub id: Seq<char>,
    pub data: Json,
    pub created_at: Seq<char>,
    pub updated_at: Seq<char>,
    pub deleted: bool,
}

impl View for Document {
    type V = DocView;

    open spec fn view(&self) -> DocView {
        DocView {
            id: self.id@,
            data: self.data@,
            created_at: self.created_at@,
            updated_at: self.updated_at@,
            deleted: self.deleted,
        }
    }
}

/// The views of a sequence of documents.
pub open spec fn doc_views(s: Seq<Document>) -> Seq<DocView> {
    s.map_values(|d: Document| d@)
}

/// The views of a sequence of document references.
pub open spec fn ref_views(s: Seq<&Document>) -> Seq<DocView> {
    s.map_values(|d: &Document| d@)
}

/// One entry of a full-text index: a field, a word of its text, and the
/// document it belongs to.
pub type Posting = (String, String, String);

/// The plain value of a full-text index.
pub open spec fn postings_view(s: Seq<Posting>) -> Seq<(Seq<char>, Seq<char>, Seq<char>)> {
    s.map_values(|p: Posting| (p.0@, p.1@, p.2@))
}

/// A secondary index on one field: keys in ascending order, each with the
/// IDs of the documents whose field has that key, in the order they were
/// added.
pub type SecondaryIndex = Vec<(String, Vec<String>)>;

/// The plain value of a secondary index.
pub open spec fn entries_view(s: Seq<(String, Vec<String>)>) -> Seq<(Seq<char>, Seq<Seq<char>>)> {
    s.map_values(|e: (String, Vec<String>)| (e.0@, views(e.1@)))
}

/// The plain value of the secondary indexes of a collection, by field.
pub open spec fn secondary_view(s: Seq<(String, SecondaryIndex)>) -> Seq<(Seq<char>, Seq<(Seq<char>, Seq<Seq<char>>)>)> {
    s.map_values(|e: (String, SecondaryIndex)| (e.0@, entries_view(e.1@)))
}

/// Whether `c` is an ASCII letter or digit.
pub open spec fn ascii_alnum(c: char) -> bool {
    ('a' <= c && c <= 'z') || ('A' <= c && c <= 'Z') || ('0' <= c && c <= '9')
}

/// The pieces of `s` between the runs of characters other than ASCII
/// letters and digits; a run at either end leaves an empty piece there.
pub open spec fn separator_pieces(s: Seq<char>) -> Seq<Seq<char>>
    decreases s.len(),
{
    if s.len() == 0 {
        seq![Seq::<char>::empty()]
    } else {
        let init = separator_pieces(s.drop_last());
        let c = s.last();
        if ascii_alnum(c) {
            init.update(init.len() - 1, init.last().push(c))
        } else if s.len() >= 2 && !ascii_alnum(s[s.len() - 2]) {
            init
        } else {
            init.push(Seq::<char>::empty())
        }
    }
}

/// The separator runs that the regex splits text at.
pub open spec fn word_separators() -> Seq<char> {
    "[^a-zA-Z0-9]+"@
}

/// regex `Regex::new(pattern)` then `split(text)`, for the pattern of runs
/// of characters other than ASCII letters and digits: the pieces between
/// the runs, as the crate documents `split` (`separator_pieces`).
#[verifier::external_body]
fn regex_split(pattern: &str, text: &str) -> (r: Vec<String>)
    requires
        pattern@ == word_separators(),
    ensures
        views(r@) == separator_pieces(text@),
{
    regex::Regex::new(pattern).unwrap().split(text).map(|p| p.to_string()).collect()
}

/// Whether a word is not empty.
pub open spec fn nonempty() -> spec_fn(Seq<char>) -> bool {
    |w: Seq<char>| w.len() > 0
}

/// The lowercase form of a word.
pub open spec fn lowered() -> spec_fn(Seq<char>) -> Seq<char> {
    |w: Seq<char>| lowercase(w)
}

/// The words of a text: the non-empty pieces between separator runs,
/// lowercased.
pub open spec fn words(text: Seq<char>) -> Seq<Seq<char>> {
    keep(separator_pieces(text), nonempty()).map_values(lowered())
}

/// The words of `text` (see `words`).
pub fn words_of(text: &str) -> (r: Vec<String>)
    ensures
        views(r@) == words(text@),
{
    let pieces = regex_split("[^a-zA-Z0-9]+", text);
    let ghost ps = views(pieces@);
    let mut out: Vec<String> = Vec::new();
    let mut i: usize = 0;
    while i < pieces.len()
        invariant
            i <= pieces@.len(),
            ps == views(pieces@),
            views(out@) == keep(ps.subrange(0, i as int), nonempty()).map_values(lowered()),
        decreases pieces.len() - i,
    {
        proof {
            lemma_keep_step(ps, nonempty(), i as int);
        }
        assert(ps[i as int] == pieces@[i as int]@);
        if !pieces[i].as_str().is_empty() {
            assert(nonempty()(ps[i as int]));
            let ghost k = keep(ps.subrange(0, i as int), nonempty());
            let ghost before = views(out@);
            let w = to_lower(pieces[i].as_str());
            assert(w@ == lowercase(ps[i as int]));
            out.push(w);
            assert(views(out@) =~= before.push(lowercase(ps[i as int])));
            assert(k.push(ps[i as int]).map_values(lowered()) =~= k.map_values(lowered()).push(lowercase(ps[i as int])));
        } else {
            assert(views(out@) =~= keep(ps.subrange(0, i + 1), nonempty()).map_values(lowered()));
        }
        i = i + 1;
    }
    assert(ps.subrange(0, ps.len() as int) =~= ps);
    out
}

/// The postings of one text field of a document.
pub open spec fn field_postings(field: Seq<char>, text: Seq<char>, id: Seq<char>) -> Seq<(Seq<char>, Seq<char>, Seq<char>)> {
    words(text).map_values(|w: Seq<char>| (field, w, id))
}

/// The postings of the text fields among `fields`, in field order.
pub open spec fn fields_postings(fields: Seq<(Seq<char>, Json)>, id: Seq<char>) -> Seq<(Seq<char>, Seq<char>, Seq<char>)>
    decreases fields.len(),
{
    if fields.len() == 0 {
        Seq::empty()
    } else {
        fields_postings(fields.drop_last(), id) + match fields.last().1 {
            Json::Str(t) => field_postings(fields.last().0, t, id),
            _ => Seq::empty(),
        }
    }
}

/// The postings of a document: those of its text fields, when its data is
/// an object.
pub open spec fn doc_postings(d: DocView) -> Seq<(Seq<char>, Seq<char>, Seq<char>)> {
    match d.data {
        Json::Object(fields) => fields_postings(fields, d.id),
        _ => Seq::empty(),
    }
}

} // verus!

verus! {

/// Adds the postings of `doc` (see `doc_postings`) to a full-text index.
pub fn index_document(inverted_index: &mut Vec<Posting>, doc: &Document)
    ensures
        postings_view(final(inverted_index)@) == postings_view(old(inverted_index)@) + doc_postings(doc@),
{
    match &doc.data {
        JsonValue::Object(fields) => {
            let ghost base = postings_view(inverted_index@);
            let ghost id = doc.id@;
            let mut i: usize = 0;
            proof {
                assert(crate::json::fields_view(fields@, 0) =~= Seq::<(Seq<char>, Json)>::empty());
                assert(postings_view(inverted_index@) =~= base + fields_postings(crate::json::fields_view(fields@, 0), id));
            }
            while i < fields.len()
                invariant
                    i <= fields@.len(),
                    id == doc.id@,
                    postings_view(inverted_index@) == base + fields_postings(crate::json::fields_view(fields@, i as int), id),
                decreases fields.len() - i,
            {
                let ghost fv = crate::json::fields_view(fields@, i as int);
                let ghost fv1 = crate::json::fields_view(fields@, i + 1);
                assert(fv1.drop_last() =~= fv);
                assert(fv1.last() == (fields@[i as int].0@, fields@[i as int].1@));
                match fields[i].1.as_str() {
                    Some(text) => {
                        let ws = words_of(text);
                        let ghost mid = postings_view(inverted_index@);
                        let ghost fp = field_postings(fields@[i as int].0@, text@, id);
                        let mut k: usize = 0;
                        while k < ws.len()
                            invariant
                                k <= ws@.len(),
                                views(ws@) == words(text@),
                                fp == field_postings(fields@[i as int].0@, text@, id),
                                id == doc.id@,
                                i < fields@.len(),
                                postings_view(inverted_index@) == mid + fp.subrange(0, k as int),
                            decreases ws.len() - k,
                        {
                            let ghost before = postings_view(inverted_index@);
                            inverted_index.push((fields[i].0.clone(), ws[k].clone(), doc.id.clone()));
                            assert(postings_view(inverted_index@) =~= before.push(fp[k as int]));
                            assert(fp.subrange(0, k + 1) =~= fp.subrange(0, k as int).push(fp[k as int]));
                            k = k + 1;
                        }
                        assert(fp.subrange(0, fp.len() as int) =~= fp);
                        assert(fv1.last().1 == Json::Str(text@));
                        assert(fields_postings(fv1, id) == fields_postings(fv, id) + fp);
                    },
                    None => {
                        assert(!(fv1.last().1 is Str));
                        assert(fields_postings(fv1, id) =~= fields_postings(fv, id));
                    },
                }
                i = i + 1;
            }
            proof {
                crate::json::lemma_fields_view(fields@, fields@.len() as int);
            }
        },
        _ => {
            assert(postings_view(inverted_index@) =~= postings_view(old(inverted_index)@) + doc_postings(doc@));
        },
    }
}

} // verus!

verus! {

#[verifier::external_type_specification]
#[verifier::external_body]
pub struct ExSerdeValue(serde_json::Value);

/// The value in serde_json's own type, variant for variant: a number's text
/// is read with `str::parse` into serde_json's `Number` (text that is no
/// number gives null).  Nothing is claimed of the result; the wrappers that
/// hand it to serde_json name what they get back.
#[verifier::external_body]
fn to_serde(v: &JsonValue) -> serde_json::Value {
    match v {
        JsonValue::Null => serde_json::Value::Null,
        JsonValue::Bool(b) => serde_json::Value::Bool(*b),
        JsonValue::Number(n) => n.parse().map(serde_json::Value::Number).unwrap_or(serde_json::Value::Null),
        JsonValue::String(s) => serde_json::Value::String(s.clone()),
        JsonValue::Array(a) => serde_json::Value::Array(a.iter().map(to_serde).collect()),
        JsonValue::Object(f) => serde_json::Value::Object(f.iter().map(|(k, x)| (k.clone(), to_serde(x))).collect()),
    }
}

/// The compact JSON text that serde_json writes for a value.
pub uninterp spec fn json_text(v: Json) -> Seq<char>;

/// serde_json `to_string` on the value in serde_json's type.  The text is
/// named (`json_text`), not stated.
#[verifier::external_body]
fn json_text_of(v: &JsonValue) -> (r: String)
    ensures
        r@ == json_text(v@),
{
    serde_json::to_string(&to_serde(v)).unwrap_or_default()
}

/// The key under which a value is indexed: a string's text, a number's
/// text, `true` or `false`, and the JSON text of anything else.
pub open spec fn index_key(v: Json) -> Seq<char> {
    match v {
        Json::Str(s) => s,
        Json::Number(n) => n,
        Json::Bool(b) => if b {
            "true"@
        } else {
            "false"@
        },
        _ => json_text(v),
    }
}

/// The index key of a value (see `index_key`).
pub fn value_to_index_key(value: &JsonValue) -> (r: String)
    ensures
        r@ == index_key(value@),
{
    match value {
        JsonValue::String(s) => s.clone(),
        JsonValue::Number(n) => n.clone(),
        JsonValue::Bool(b) => {
            if *b {
                "true".to_owned()
            } else {
                "false".to_owned()
            }
        },
        _ => json_text_of(value),
    }
}

/// The first position whose key does not sort before `key`: where `key`
/// is, or belongs, in an index with ascending keys.
pub open spec fn seek(idx: Seq<(Seq<char>, Seq<Seq<char>>)>, key: Seq<char>) -> int
    decreases idx.len(),
{
    if idx.len() == 0 {
        0
    } else if !lex_lt(idx[0].0, key) {
        0
    } else {
        1 + seek(idx.drop_first(), key)
    }
}

/// The IDs under `key`.
pub open spec fn lookup(idx: Seq<(Seq<char>, Seq<Seq<char>>)>, key: Seq<char>) -> Option<Seq<Seq<char>>> {
    let i = seek(idx, key);
    if i < idx.len() && idx[i].0 == key {
        Some(idx[i].1)
    } else {
        None
    }
}

/// `id` added under `key`: after the IDs already there, or as a new entry
/// at the key's place.
pub open spec fn add_entry(idx: Seq<(Seq<char>, Seq<Seq<char>>)>, key: Seq<char>, id: Seq<char>) -> Seq<(Seq<char>, Seq<Seq<char>>)> {
    let i = seek(idx, key);
    if i < idx.len() && idx[i].0 == key {
        idx.update(i, (key, idx[i].1.push(id)))
    } else {
        idx.insert(i, (key, seq![id]))
    }
}

/// Whether an ID differs from `id`.
pub open spec fn other_than(id: Seq<char>) -> spec_fn(Seq<char>) -> bool {
    |x: Seq<char>| x != id
}

/// `id` removed from under `key`; an entry left without IDs goes.
pub open spec fn remove_entry(idx: Seq<(Seq<char>, Seq<Seq<char>>)>, key: Seq<char>, id: Seq<char>) -> Seq<(Seq<char>, Seq<Seq<char>>)> {
    let i = seek(idx, key);
    if i < idx.len() && idx[i].0 == key {
        let rest = keep(idx[i].1, other_than(id));
        if rest.len() == 0 {
            idx.remove(i)
        } else {
            idx.update(i, (key, rest))
        }
    } else {
        idx
    }
}

pub proof fn lemma_seek(idx: Seq<(Seq<char>, Seq<Seq<char>>)>, key: Seq<char>, i: int)
    requires
        0 <= i <= idx.len(),
        forall|j: int| 0 <= j < i ==> lex_lt(#[trigger] idx[j].0, key),
        i == idx.len() || !lex_lt(idx[i].0, key),
    ensures
        seek(idx, key) == i,
    decreases i,
{
    if i > 0 {
        assert forall|j: int| 0 <= j < i - 1 implies lex_lt(#[trigger] idx.drop_first()[j].0, key) by {
            assert(idx.drop_first()[j] == idx[j + 1]);
        }
        lemma_seek(idx.drop_first(), key, i - 1);
    }
}

/// The position where `key` is, or belongs (see `seek`).
fn seek_pos(idx: &SecondaryIndex, key: &str) -> (r: usize)
    ensures
        r == seek(entries_view(idx@), key@),
        r <= idx@.len(),
{
    let ghost ev = entries_view(idx@);
    let mut i: usize = 0;
    while i < idx.len() && str_lt(idx[i].0.as_str(), key)
        invariant
            i <= idx@.len(),
            ev == entries_view(idx@),
            forall|j: int| 0 <= j < i ==> lex_lt(#[trigger] ev[j].0, key@),
        decreases idx.len() - i,
    {
        assert(ev[i as int].0 == idx@[i as int].0@);
        i = i + 1;
    }
    proof {
        if i < idx.len() {
            assert(ev[i as int].0 == idx@[i as int].0@);
        }
        lemma_seek(ev, key@, i as int);
    }
    i
}

/// The key of the field `field` of some data, if the data has that field.
pub open spec fn field_key(data: Json, field: Seq<char>) -> Option<Seq<char>> {
    match field_of(data, field) {
        Some(v) => Some(index_key(v)),
        None => None,
    }
}

/// Adds `doc` to the secondary index on `field`, under the key of its
/// value there; a document without the field is not added.
pub fn add_to_secondary_index(index: &mut SecondaryIndex, field: &str, doc: &Document)
    ensures
        entries_view(final(index)@) == match field_key(doc@.data, field@) {
            Some(k) => add_entry(entries_view(old(index)@), k, doc@.id),
            None => entries_view(old(index)@),
        },
{
    match doc.data.get(field) {
        Some(value) => {
            let key = value_to_index_key(value);
            let ghost ev = entries_view(index@);
            let i = seek_pos(index, key.as_str());
            if i < index.len() && str_eq(index[i].0.as_str(), key.as_str()) {
                let ghost raw = index@;
                let mut entry = index.remove(i);
                assert(entry == raw[i as int]);
                let ghost before_ids = views(entry.1@);
                entry.1.push(doc.id.clone());
                assert(views(entry.1@) =~= before_ids.push(doc.id@));
                let ghost e2 = entry;
                index.insert(i, entry);
                assert(index@ =~= raw.update(i as int, e2));
                assert(entries_view(index@) =~= ev.update(i as int, (key@, ev[i as int].1.push(doc.id@))));
            } else {
                let mut ids: Vec<String> = Vec::new();
                ids.push(doc.id.clone());
                assert(views(ids@) =~= seq![doc.id@]);
                index.insert(i, (key, ids));
                assert(entries_view(index@) =~= ev.insert(i as int, (key@, seq![doc.id@])));
            }
        },
        None => {},
    }
}

/// The IDs of `ids` other than `id`, in order.
fn without_id(ids: &Vec<String>, id: &str) -> (r: Vec<String>)
    ensures
        views(r@) == keep(views(ids@), other_than(id@)),
{
    let ghost v = views(ids@);
    let mut out: Vec<String> = Vec::new();
    let mut i: usize = 0;
    while i < ids.len()
        invariant
            i <= ids@.len(),
            v == views(ids@),
            views(out@) == keep(v.subrange(0, i as int), other_than(id@)),
        decreases ids.len() - i,
    {
        proof {
            lemma_keep_step(v, other_than(id@), i as int);
        }
        assert(v[i as int] == ids@[i as int]@);
        if !str_eq(ids[i].as_str(), id) {
            let ghost before = views(out@);
            out.push(ids[i].clone());
            assert(views(out@) =~= before.push(v[i as int]));
        }
        i = i + 1;
    }
    assert(v.subrange(0, v.len() as int) =~= v);
    out
}

/// Removes `doc` from under the key of its `field` value in a secondary
/// index; an entry left without IDs goes.
pub fn remove_from_secondary_index(index: &mut SecondaryIndex, field: &str, doc: &Document)
    ensures
        entries_view(final(index)@) == match field_key(doc@.data, field@) {
            Some(k) => remove_entry(entries_view(old(index)@), k, doc@.id),
            None => entries_view(old(index)@),
        },
{
    match doc.data.get(field) {
        Some(value) => {
            let key = value_to_index_key(value);
            let ghost ev = entries_view(index@);
            let i = seek_pos(index, key.as_str());
            if i < index.len() && str_eq(index[i].0.as_str(), key.as_str()) {
                let entry = index.remove(i);
                let rest = without_id(&entry.1, doc.id.as_str());
                assert(views(entry.1@) == ev[i as int].1);
                if rest.len() == 0 {
                    assert(entries_view(index@) =~= ev.remove(i as int));
                } else {
                    index.insert(i, (entry.0, rest));
                    assert(entries_view(index@) =~= ev.update(i as int, (key@, keep(ev[i as int].1, other_than(doc.id@)))));
                }
            }
        },
        None => {},
    }
}

} // verus!

verus! {

/// A named collection of documents with its indexes.
#[derive(Debug)]
pub struct Collection {
    pub name: String,
    pub documents: Vec<Document>,
    /// The full-text index: one posting per word of each text field.
    pub inverted_index: Vec<Posting>,
    /// The secondary indexes, by field.
    pub secondary_indexes: Vec<(String, SecondaryIndex)>,
}

/// The plain value of a collection.
pub struct CollView {
    pub name: Seq<char>,
    pub docs: Seq<DocView>,
    pub postings: Seq<(Seq<char>, Seq<char>, Seq<char>)>,
    pub secondary: Seq<(Seq<char>, Seq<(Seq<char>, Seq<Seq<char>>)>)>,
}

impl View for Collection {
    type V = CollView;

    open spec fn view(&self) -> CollView {
        CollView {
            name: self.name@,
            docs: doc_views(self.documents@),
            postings: postings_view(self.inverted_index@),
            secondary: secondary_view(self.secondary_indexes@),
        }
    }
}

/// A database: its format version, its collections and free-form metadata.
#[derive(Debug)]
pub struct Cassette {
    pub version: u32,
    pub collections: Vec<Collection>,
    pub meta: Vec<(String, String)>,
}

/// The plain value of a database.
pub struct CassetteView {
    pub version: u32,
    pub collections: Seq<CollView>,
    pub meta: Seq<(Seq<char>, Seq<char>)>,
}

/// The texts of a sequence of string references.
pub open spec fn ref_strings(s: Seq<&String>) -> Seq<Seq<char>> {
    s.map_values(|x: &String| x@)
}

/// The names of a sequence of collections.
pub open spec fn coll_names(s: Seq<CollView>) -> Seq<Seq<char>> {
    s.map_values(|c: CollView| c.name)
}

/// The fields of a sequence of secondary indexes.
pub open spec fn index_fields(s: Seq<(Seq<char>, Seq<(Seq<char>, Seq<Seq<char>>)>)>) -> Seq<Seq<char>> {
    s.map_values(|e: (Seq<char>, Seq<(Seq<char>, Seq<Seq<char>>)>)| e.0)
}

/// The views of a sequence of collections.
pub open spec fn coll_views(s: Seq<Collection>) -> Seq<CollView> {
    s.map_values(|c: Collection| c@)
}

impl View for Cassette {
    type V = CassetteView;

    open spec fn view(&self) -> CassetteView {
        CassetteView {
            version: self.version,
            collections: coll_views(self.collections@),
            meta: self.meta@.map_values(|m: (String, String)| (m.0@, m.1@)),
        }
    }
}

/// Errors of the database operations.
#[derive(Debug)]
pub enum DbError {
    /// The named collection does not exist.
    CollectionNotFound,
    /// A JSONPath expression holds an array index that cannot be evaluated
    /// (see `path_check`).
    UnsupportedPath,
}

impl DbError {
    /// The error's message.
    pub fn to_text(&self) -> (r: String)
        ensures
            self is CollectionNotFound ==> r@ == "collection not found"@,
            self is UnsupportedPath ==> r@ == "unsupported array index in JSONPath expression"@,
    {
        match self {
            DbError::CollectionNotFound => "collection not found".to_owned(),
            DbError::UnsupportedPath => "unsupported array index in JSONPath expression".to_owned(),
        }
    }
}

/// Whether a collection has the name `name`.
pub open spec fn coll_named(name: Seq<char>) -> spec_fn(CollView) -> bool {
    |c: CollView| c.name == name
}

/// Whether a document has the ID `id`.
pub open spec fn doc_with_id(id: Seq<char>) -> spec_fn(DocView) -> bool {
    |d: DocView| d.id == id
}

/// Whether a document has the ID `id` and is not deleted.
pub open spec fn live_with_id(id: Seq<char>) -> spec_fn(DocView) -> bool {
    |d: DocView| d.id == id && !d.deleted
}

/// Whether a document is not deleted.
pub open spec fn is_live() -> spec_fn(DocView) -> bool {
    |d: DocView| !d.deleted
}

/// The collection named `name`.
pub open spec fn coll_of(c: CassetteView, name: Seq<char>) -> Option<CollView> {
    find_first(c.collections, coll_named(name))
}

/// An empty collection.
pub open spec fn empty_coll(name: Seq<char>) -> CollView {
    CollView { name, docs: Seq::empty(), postings: Seq::empty(), secondary: Seq::empty() }
}

/// An index entry with `d` added (see `add_to_secondary_index`).
pub open spec fn index_doc_into(idx: Seq<(Seq<char>, Seq<Seq<char>>)>, field: Seq<char>, d: DocView) -> Seq<(Seq<char>, Seq<Seq<char>>)> {
    match field_key(d.data, field) {
        Some(k) => add_entry(idx, k, d.id),
        None => idx,
    }
}

/// Every secondary index with `d` added.
pub open spec fn add_doc_secondary(sec: Seq<(Seq<char>, Seq<(Seq<char>, Seq<Seq<char>>)>)>, d: DocView) -> Seq<(Seq<char>, Seq<(Seq<char>, Seq<Seq<char>>)>)> {
    Seq::new(sec.len(), |j: int| (sec[j].0, index_doc_into(sec[j].1, sec[j].0, d)))
}

/// A collection with `d` appended and indexed.
pub open spec fn add_doc(cv: CollView, d: DocView) -> CollView {
    CollView {
        docs: cv.docs.push(d),
        postings: cv.postings + doc_postings(d),
        secondary: add_doc_secondary(cv.secondary, d),
        ..cv
    }
}

/// A database with `d` added to the collection `name`, which is created
/// (last) when it does not exist.
pub open spec fn inserted(c: CassetteView, name: Seq<char>, d: DocView) -> CassetteView {
    let i = crate::seqs::position(c.collections, coll_named(name));
    if i < c.collections.len() {
        CassetteView { collections: c.collections.update(i, add_doc(c.collections[i], d)), ..c }
    } else {
        CassetteView { collections: c.collections.push(add_doc(empty_coll(name), d)), ..c }
    }
}

/// Adds `doc` to every secondary index (see `add_doc_secondary`).
fn index_secondary(secondary_indexes: &mut Vec<(String, SecondaryIndex)>, doc: &Document)
    ensures
        secondary_view(final(secondary_indexes)@) == add_doc_secondary(secondary_view(old(secondary_indexes)@), doc@),
{
    let ghost sv = secondary_view(secondary_indexes@);
    let mut j: usize = 0;
    while j < secondary_indexes.len()
        invariant
            j <= secondary_indexes@.len(),
            secondary_indexes@.len() == sv.len(),
            forall|k: int| 0 <= k < j ==> #[trigger] secondary_view(secondary_indexes@)[k] == (sv[k].0, index_doc_into(sv[k].1, sv[k].0, doc@)),
            forall|k: int| j <= k < sv.len() ==> #[trigger] secondary_view(secondary_indexes@)[k] == sv[k],
        decreases secondary_indexes.len() - j,
    {
        let ghost raw = secondary_indexes@;
        assert(secondary_view(raw)[j as int] == sv[j as int]);
        let (field, mut idx) = secondary_indexes.remove(j);
        assert((field, idx) == raw[j as int]);
        assert((field@, entries_view(idx@)) == sv[j as int]);
        add_to_secondary_index(&mut idx, field.as_str(), doc);
        let ghost e = (field, idx);
        secondary_indexes.insert(j, (field, idx));
        assert(secondary_indexes@ =~= raw.update(j as int, e));
        assert(secondary_view(secondary_indexes@) =~= secondary_view(raw).update(j as int, (sv[j as int].0, index_doc_into(sv[j as int].1, sv[j as int].0, doc@))));
        j = j + 1;
    }
    assert(secondary_view(secondary_indexes@) =~= add_doc_secondary(sv, doc@));
}

impl Cassette {
    /// An empty database of format version 1.
    pub fn new() -> (r: Self)
        ensures
            r@.version == 1,
            r@.collections.len() == 0,
            r@.meta.len() == 0,
    {
        Cassette { version: 1, collections: Vec::new(), meta: Vec::new() }
    }

    /// The position of the collection `name` (see `position`).
    pub(crate) fn coll_pos(&self, name: &str) -> (r: usize)
        ensures
            r == crate::seqs::position(self@.collections, coll_named(name@)),
            r <= self.collections@.len(),
    {
        let ghost cs = self@.collections;
        let mut i: usize = 0;
        while i < self.collections.len()
            invariant
                i <= self.collections@.len(),
                cs == self@.collections,
                forall|j: int| 0 <= j < i ==> !coll_named(name@)(#[trigger] cs[j]),
            decreases self.collections.len() - i,
        {
            assert(cs[i as int] == self.collections@[i as int]@);
            if str_eq(self.collections[i].name.as_str(), name) {
                proof {
                    crate::seqs::lemma_position(cs, coll_named(name@), i as int);
                }
                return i;
            }
            i = i + 1;
        }
        proof {
            crate::seqs::lemma_position(cs, coll_named(name@), i as int);
        }
        i
    }

    /// Adds a document with the given ID and timestamps to the collection
    /// `collection` (created when missing), indexing it; returns the ID.
    pub fn insert_with(
        &mut self,
        collection: &str,
        doc: JsonValue,
        id: String,
        created_at: String,
        updated_at: String,
    ) -> (r: String)
        ensures
            r@ == id@,
            final(self)@ == inserted(
                old(self)@,
                collection@,
                DocView { id: id@, data: doc@, created_at: created_at@, updated_at: updated_at@, deleted: false },
            ),
    {
        let ghost cs = self@.collections;
        let i = self.coll_pos(collection);
        let found = i < self.collections.len();
        let mut coll = if found {
            self.collections.remove(i)
        } else {
            Collection {
                name: collection.to_owned(),
                documents: Vec::new(),
                inverted_index: Vec::new(),
                secondary_indexes: Vec::new(),
            }
        };
        let ghost cv = coll@;
        let ghost rest = self.collections@;
        let document = Document { id: id.clone(), data: doc, created_at, updated_at, deleted: false };
        index_document(&mut coll.inverted_index, &document);
        index_secondary(&mut coll.secondary_indexes, &document);
        let ghost dv = document@;
        coll.documents.push(document);
        assert(doc_views(coll.documents@) =~= cv.docs.push(dv));
        assert(coll@ == add_doc(cv, dv));
        if found {
            self.collections.insert(i, coll);
            assert(coll_views(self.collections@) =~= cs.update(i as int, add_doc(cs[i as int], dv)));
        } else {
            assert(cv == empty_coll(collection@)) by {
                assert(cv.docs =~= Seq::<DocView>::empty());
                assert(cv.postings =~= Seq::<(Seq<char>, Seq<char>, Seq<char>)>::empty());
                assert(cv.secondary =~= Seq::<(Seq<char>, Seq<(Seq<char>, Seq<Seq<char>>)>)>::empty());
            }
            self.collections.push(coll);
            assert(coll_views(self.collections@) =~= cs.push(add_doc(empty_coll(collection@), dv)));
        }
        id
    }
}

} // verus!

verus! {

/// rand `random::<u16>()`: a random number.  Nothing is claimed of it.
#[verifier::external_body]
pub(crate) fn random_u16() -> u16 {
    rand::random::<u16>()
}

/// The view of an optional document reference.
pub open spec fn opt_doc_view(r: Option<&Document>) -> Option<DocView> {
    match r {
        Some(d) => Some(d@),
        None => None,
    }
}

/// Whether a secondary index is on `field`.
pub open spec fn index_on(field: Seq<char>) -> spec_fn((Seq<char>, Seq<(Seq<char>, Seq<Seq<char>>)>)) -> bool {
    |e: (Seq<char>, Seq<(Seq<char>, Seq<Seq<char>>)>)| e.0 == field
}

/// The secondary index on `field` over `docs`, built by adding them in order.
pub open spec fn build_index(docs: Seq<DocView>, field: Seq<char>) -> Seq<(Seq<char>, Seq<Seq<char>>)>
    decreases docs.len(),
{
    if docs.len() == 0 {
        Seq::empty()
    } else {
        index_doc_into(build_index(docs.drop_last(), field), field, docs.last())
    }
}

/// The live documents of `docs`, as references, in order.
fn live_refs(docs: &Vec<Document>) -> (r: Vec<&Document>)
    ensures
        ref_views(r@) == keep(doc_views(docs@), is_live()),
{
    let ghost dv = doc_views(docs@);
    let mut out: Vec<&Document> = Vec::new();
    let mut i: usize = 0;
    while i < docs.len()
        invariant
            i <= docs@.len(),
            dv == doc_views(docs@),
            ref_views(out@) == keep(dv.subrange(0, i as int), is_live()),
        decreases docs.len() - i,
    {
        proof {
            lemma_keep_step(dv, is_live(), i as int);
        }
        assert(dv[i as int] == docs@[i as int]@);
        if !docs[i].deleted {
            let ghost before = ref_views(out@);
            out.push(&docs[i]);
            assert(ref_views(out@) =~= before.push(dv[i as int]));
        }
        i = i + 1;
    }
    assert(dv.subrange(0, dv.len() as int) =~= dv);
    out
}

/// The position of the first document with ID `id` (see `position`).
pub(crate) fn doc_pos(docs: &Vec<Document>, id: &str) -> (r: usize)
    ensures
        r == crate::seqs::position(doc_views(docs@), doc_with_id(id@)),
        r <= docs@.len(),
{
    let ghost dv = doc_views(docs@);
    let mut i: usize = 0;
    while i < docs.len()
        invariant
            i <= docs@.len(),
            dv == doc_views(docs@),
            forall|j: int| 0 <= j < i ==> !doc_with_id(id@)(#[trigger] dv[j]),
        decreases docs.len() - i,
    {
        assert(dv[i as int] == docs@[i as int]@);
        if str_eq(docs[i].id.as_str(), id) {
            proof {
                crate::seqs::lemma_position(dv, doc_with_id(id@), i as int);
            }
            return i;
        }
        i = i + 1;
    }
    proof {
        crate::seqs::lemma_position(dv, doc_with_id(id@), i as int);
    }
    i
}

/// The first live document with ID `id`.
fn first_live<'a>(docs: &'a Vec<Document>, id: &str) -> (r: Option<&'a Document>)
    ensures
        opt_doc_view(r) == find_first(doc_views(docs@), live_with_id(id@)),
{
    let ghost dv = doc_views(docs@);
    let mut i: usize = 0;
    while i < docs.len()
        invariant
            i <= docs@.len(),
            dv == doc_views(docs@),
            forall|j: int| 0 <= j < i ==> !live_with_id(id@)(#[trigger] dv[j]),
        decreases docs.len() - i,
    {
        assert(dv[i as int] == docs@[i as int]@);
        if !docs[i].deleted && str_eq(docs[i].id.as_str(), id) {
            proof {
                lemma_find_at(dv, live_with_id(id@), i as int);
            }
            return Some(&docs[i]);
        }
        i = i + 1;
    }
    proof {
        lemma_find_none(dv, live_with_id(id@));
    }
    None
}

/// The position of the secondary index on `field` (see `position`).
fn index_pos(sec: &Vec<(String, SecondaryIndex)>, field: &str) -> (r: usize)
    ensures
        r == crate::seqs::position(secondary_view(sec@), index_on(field@)),
        r <= sec@.len(),
{
    let ghost sv = secondary_view(sec@);
    let mut i: usize = 0;
    while i < sec.len()
        invariant
            i <= sec@.len(),
            sv == secondary_view(sec@),
            forall|j: int| 0 <= j < i ==> !index_on(field@)(#[trigger] sv[j]),
        decreases sec.len() - i,
    {
        assert(sv[i as int].0 == sec@[i as int].0@);
        if str_eq(sec[i].0.as_str(), field) {
            proof {
                crate::seqs::lemma_position(sv, index_on(field@), i as int);
            }
            return i;
        }
        i = i + 1;
    }
    proof {
        crate::seqs::lemma_position(sv, index_on(field@), i as int);
    }
    i
}

impl Cassette {
    /// Adds a document to the collection `collection` (created when
    /// missing) under a new ID: the time in milliseconds, `-`, and a random
    /// number; both timestamps are the current time.  Returns the ID.
    pub fn insert(&mut self, collection: &str, doc: JsonValue) -> (r: Result<String, DbError>)
        ensures
            r is Ok,
            exists|ms: i64, n: u16|
                #![trigger crate::text::signed_decimal(ms as int), crate::text::decimal(n as nat)]
                r->Ok_0@ == crate::text::signed_decimal(ms as int) + seq!['-'] + crate::text::decimal(n as nat),
            exists|d: DocView|
                d.id == r->Ok_0@ && d.data == doc@ && !d.deleted
                    && final(self)@ == #[trigger] inserted(old(self)@, collection@, d),
    {
        let ms = crate::time::unix_millis();
        let n = random_u16();
        let mut text: Vec<char> = Vec::new();
        crate::text::push_signed_decimal(&mut text, ms);
        text.push('-');
        crate::text::push_decimal(&mut text, n as u64);
        let id = string_of(text.as_slice());
        let created_at = crate::time::now_rfc3339();
        let updated_at = crate::time::now_rfc3339();
        let ghost t1 = created_at@;
        let ghost t2 = updated_at@;
        let ghost data = doc@;
        let r = self.insert_with(collection, doc, id, created_at, updated_at);
        assert(r@ =~= crate::text::signed_decimal(ms as int) + seq!['-'] + crate::text::decimal(n as nat));
        let ghost d = DocView { id: r@, data, created_at: t1, updated_at: t2, deleted: false };
        assert(self@ == inserted(old(self)@, collection@, d));
        Ok(r)
    }

    /// The live document with ID `id` in the collection `collection`.
    pub fn get(&self, collection: &str, id: &str) -> (r: Option<&Document>)
        ensures
            opt_doc_view(r) == match coll_of(self@, collection@) {
                Some(cv) => find_first(cv.docs, live_with_id(id@)),
                None => None,
            },
    {
        let i = self.coll_pos(collection);
        proof {
            crate::seqs::lemma_position_find(self@.collections, coll_named(collection@));
        }
        if i < self.collections.len() {
            first_live(&self.collections[i].documents, id)
        } else {
            None
        }
    }

    /// The live documents of the collection `collection`, in order; none
    /// for a missing collection.
    pub fn scan(&self, collection: &str) -> (r: Result<Vec<&Document>, DbError>)
        ensures
            r is Ok,
            ref_views(r->Ok_0@) == match coll_of(self@, collection@) {
                Some(cv) => keep(cv.docs, is_live()),
                None => Seq::empty(),
            },
    {
        let i = self.coll_pos(collection);
        proof {
            crate::seqs::lemma_position_find(self@.collections, coll_named(collection@));
        }
        if i < self.collections.len() {
            Ok(live_refs(&self.collections[i].documents))
        } else {
            let out: Vec<&Document> = Vec::new();
            assert(ref_views(out@) =~= Seq::<DocView>::empty());
            Ok(out)
        }
    }

    /// The names of the collections, in the order they were created.
    pub fn collections(&self) -> (r: Vec<&String>)
        ensures
            ref_strings(r@) == coll_names(self@.collections),
    {
        let mut out: Vec<&String> = Vec::new();
        let mut i: usize = 0;
        while i < self.collections.len()
            invariant
                i <= self.collections@.len(),
                ref_strings(out@) == coll_names(self@.collections).subrange(0, i as int),
            decreases self.collections.len() - i,
        {
            let ghost names = coll_names(self@.collections);
            assert(names[i as int] == self.collections@[i as int].name@);
            let ghost before = ref_strings(out@);
            out.push(&self.collections[i].name);
            assert(ref_strings(out@) =~= before.push(names[i as int]));
            assert(names.subrange(0, i + 1) =~= names.subrange(0, i as int).push(names[i as int]));
            i = i + 1;
            assert(ref_strings(out@) =~= coll_names(self@.collections).subrange(0, i as int));
        }
        assert(coll_names(self@.collections).subrange(0, i as int) =~= coll_names(self@.collections));
        out
    }

    /// Marks the first document with ID `id` in the collection
    /// `collection` deleted, stamping it with the current time; `false`
    /// when there is no such document, an error when there is no such
    /// collection.
    pub fn delete(&mut self, collection: &str, id: &str) -> (r: Result<bool, DbError>)
        ensures
            ({
                let cs = old(self)@.collections;
                let i = crate::seqs::position(cs, coll_named(collection@));
                if i == cs.len() {
                    r is Err && final(self)@ == old(self)@
                } else {
                    let p = crate::seqs::position(cs[i].docs, doc_with_id(id@));
                    if p == cs[i].docs.len() {
                        r == Ok::<bool, DbError>(false) && final(self)@ == old(self)@
                    } else {
                        &&& r == Ok::<bool, DbError>(true)
                        &&& final(self)@ == CassetteView {
                            collections: cs.update(
                                i,
                                CollView {
                                    docs: cs[i].docs.update(
                                        p,
                                        DocView {
                                            deleted: true,
                                            updated_at: final(self)@.collections[i].docs[p].updated_at,
                                            ..cs[i].docs[p]
                                        },
                                    ),
                                    ..cs[i]
                                },
                            ),
                            ..old(self)@
                        }
                    }
                }
            }),
    {
        let ghost cs = self@.collections;
        let i = self.coll_pos(collection);
        proof {
            crate::seqs::lemma_position_bounds(cs, coll_named(collection@));
        }
        if i == self.collections.len() {
            return Err(DbError::CollectionNotFound);
        }
        let p = doc_pos(&self.collections[i].documents, id);
        if p == self.collections[i].documents.len() {
            return Ok(false);
        }
        let mut coll = self.collections.remove(i);
        assert(coll@ == cs[i as int]);
        let ghost cv = coll@;
        let mut d = coll.documents.remove(p);
        assert(d@ == cv.docs[p as int]);
        d.deleted = true;
        d.updated_at = crate::time::now_rfc3339();
        let ghost t = d.updated_at@;
        let ghost dv = d@;
        coll.documents.insert(p, d);
        assert(doc_views(coll.documents@) =~= cv.docs.update(p as int, dv));
        let ghost nc = coll@;
        self.collections.insert(i, coll);
        assert(coll_views(self.collections@) =~= cs.update(i as int, nc));
        Ok(true)
    }

    /// Creates a secondary index on `field` over the live documents of the
    /// collection `collection`; nothing changes when one exists already.
    pub fn create_index(&mut self, collection: &str, field: &str) -> (r: Result<(), DbError>)
        ensures
            ({
                let cs = old(self)@.collections;
                let i = crate::seqs::position(cs, coll_named(collection@));
                if i == cs.len() {
                    r is Err && final(self)@ == old(self)@
                } else if find_first(cs[i].secondary, index_on(field@)) is Some {
                    r is Ok && final(self)@ == old(self)@
                } else {
                    &&& r is Ok
                    &&& final(self)@ == CassetteView {
                        collections: cs.update(
                            i,
                            CollView {
                                secondary: cs[i].secondary.push((field@, build_index(keep(cs[i].docs, is_live()), field@))),
                                ..cs[i]
                            },
                        ),
                        ..old(self)@
                    }
                }
            }),
    {
        let ghost cs = self@.collections;
        let i = self.coll_pos(collection);
        proof {
            crate::seqs::lemma_position_bounds(cs, coll_named(collection@));
        }
        if i == self.collections.len() {
            return Err(DbError::CollectionNotFound);
        }
        let q = index_pos(&self.collections[i].secondary_indexes, field);
        proof {
            crate::seqs::lemma_position_find(cs[i as int].secondary, index_on(field@));
        }
        if q < self.collections[i].secondary_indexes.len() {
            return Ok(());
        }
        let mut coll = self.collections.remove(i);
        assert(coll@ == cs[i as int]);
        let ghost cv = coll@;
        let mut index: SecondaryIndex = Vec::new();
        let mut k: usize = 0;
        while k < coll.documents.len()
            invariant
                k <= coll.documents@.len(),
                coll@ == cv,
                entries_view(index@) == build_index(keep(cv.docs.subrange(0, k as int), is_live()), field@),
            decreases coll.documents.len() - k,
        {
            proof {
                lemma_keep_step(cv.docs, is_live(), k as int);
            }
            assert(cv.docs[k as int] == coll.documents@[k as int]@);
            if !coll.documents[k].deleted {
                let ghost kept = keep(cv.docs.subrange(0, k as int), is_live());
                add_to_secondary_index(&mut index, field, &coll.documents[k]);
                assert(kept.push(cv.docs[k as int]).drop_last() =~= kept);
            }
            k = k + 1;
        }
        assert(cv.docs.subrange(0, cv.docs.len() as int) =~= cv.docs);
        let ghost built = entries_view(index@);
        coll.secondary_indexes.push((field.to_owned(), index));
        assert(secondary_view(coll.secondary_indexes@) =~= cv.secondary.push((field@, built)));
        let ghost nc = coll@;
        self.collections.insert(i, coll);
        assert(coll_views(self.collections@) =~= cs.update(i as int, nc));
        Ok(())
    }

    /// Drops the secondary index on `field` of the collection `collection`;
    /// whether there was one.
    pub fn drop_index(&mut self, collection: &str, field: &str) -> (r: Result<bool, DbError>)
        ensures
            ({
                let cs = old(self)@.collections;
                let i = crate::seqs::position(cs, coll_named(collection@));
                if i == cs.len() {
                    r is Err && final(self)@ == old(self)@
                } else {
                    let q = crate::seqs::position(cs[i].secondary, index_on(field@));
                    if q == cs[i].secondary.len() {
                        r == Ok::<bool, DbError>(false) && final(self)@ == old(self)@
                    } else {
                        &&& r == Ok::<bool, DbError>(true)
                        &&& final(self)@ == CassetteView {
                            collections: cs.update(i, CollView { secondary: cs[i].secondary.remove(q), ..cs[i] }),
                            ..old(self)@
                        }
                    }
                }
            }),
    {
        let ghost cs = self@.collections;
        let i = self.coll_pos(collection);
        proof {
            crate::seqs::lemma_position_bounds(cs, coll_named(collection@));
        }
        if i == self.collections.len() {
            return Err(DbError::CollectionNotFound);
        }
        let q = index_pos(&self.collections[i].secondary_indexes, field);
        if q == self.collections[i].secondary_indexes.len() {
            return Ok(false);
        }
        let mut coll = self.collections.remove(i);
        assert(coll@ == cs[i as int]);
        let ghost cv = coll@;
        let _ = coll.secondary_indexes.remove(q);
        assert(secondary_view(coll.secondary_indexes@) =~= cv.secondary.remove(q as int));
        let ghost nc = coll@;
        self.collections.insert(i, coll);
        assert(coll_views(self.collections@) =~= cs.update(i as int, nc));
        Ok(true)
    }

    /// The fields of the secondary indexes of the collection `collection`;
    /// none for a missing collection.
    pub fn list_indexes(&self, collection: &str) -> (r: Vec<String>)
        ensures
            views(r@) == match coll_of(self@, collection@) {
                Some(cv) => index_fields(cv.secondary),
                None => Seq::empty(),
            },
    {
        let i = self.coll_pos(collection);
        proof {
            crate::seqs::lemma_position_find(self@.collections, coll_named(collection@));
        }
        let mut out: Vec<String> = Vec::new();
        if i < self.collections.len() {
            let sec = &self.collections[i].secondary_indexes;
            let ghost fields = index_fields(secondary_view(sec@));
            let mut k: usize = 0;
            while k < sec.len()
                invariant
                    k <= sec@.len(),
                    fields == index_fields(secondary_view(sec@)),
                    views(out@) == fields.subrange(0, k as int),
                decreases sec.len() - k,
            {
                assert(fields[k as int] == sec@[k as int].0@);
                let ghost before = views(out@);
                out.push(sec[k].0.clone());
                assert(views(out@) =~= before.push(fields[k as int]));
                assert(fields.subrange(0, k + 1) =~= fields.subrange(0, k as int).push(fields[k as int]));
                k = k + 1;
                assert(views(out@) =~= fields.subrange(0, k as int));
            }
            assert(fields.subrange(0, fields.len() as int) =~= fields);
        } else {
            assert(views(out@) =~= Seq::<Seq<char>>::empty());
        }
        out
    }
}

} // verus!

verus! {

/// Whether a posting belongs to a document other than `id`.
pub open spec fn posting_not_of(id: Seq<char>) -> spec_fn((Seq<char>, Seq<char>, Seq<char>)) -> bool {
    |p: (Seq<char>, Seq<char>, Seq<char>)| p.2 != id
}

/// An index entry with `d` removed (see `remove_from_secondary_index`).
pub open spec fn unindex_doc(idx: Seq<(Seq<char>, Seq<Seq<char>>)>, field: Seq<char>, d: DocView) -> Seq<(Seq<char>, Seq<Seq<char>>)> {
    match field_key(d.data, field) {
        Some(k) => remove_entry(idx, k, d.id),
        None => idx,
    }
}

/// Every secondary index with `d` removed.
pub open spec fn remove_doc_secondary(sec: Seq<(Seq<char>, Seq<(Seq<char>, Seq<Seq<char>>)>)>, d: DocView) -> Seq<(Seq<char>, Seq<(Seq<char>, Seq<Seq<char>>)>)> {
    Seq::new(sec.len(), |j: int| (sec[j].0, unindex_doc(sec[j].1, sec[j].0, d)))
}

/// A collection whose document at `p` gets the data `data` and the update
/// time `t`, reindexed: its postings and secondary entries go, and those of
/// the new data are added.
pub open spec fn updated_coll(cv: CollView, p: int, data: Json, t: Seq<char>) -> CollView {
    let old_d = cv.docs[p];
    let new_d = DocView { data, updated_at: t, ..old_d };
    CollView {
        docs: cv.docs.update(p, new_d),
        postings: keep(cv.postings, posting_not_of(old_d.id)) + doc_postings(new_d),
        secondary: add_doc_secondary(remove_doc_secondary(cv.secondary, old_d), new_d),
        ..cv
    }
}

/// Removes every posting of the document `id`.
fn remove_from_index(inverted_index: &mut Vec<Posting>, id: &str)
    ensures
        postings_view(final(inverted_index)@) == keep(postings_view(old(inverted_index)@), posting_not_of(id@)),
{
    let ghost pv = postings_view(inverted_index@);
    let mut out: Vec<Posting> = Vec::new();
    let mut i: usize = 0;
    while i < inverted_index.len()
        invariant
            i <= inverted_index@.len(),
            pv == postings_view(inverted_index@),
            postings_view(out@) == keep(pv.subrange(0, i as int), posting_not_of(id@)),
        decreases inverted_index.len() - i,
    {
        proof {
            lemma_keep_step(pv, posting_not_of(id@), i as int);
        }
        assert(pv[i as int] == (inverted_index@[i as int].0@, inverted_index@[i as int].1@, inverted_index@[i as int].2@));
        if !str_eq(inverted_index[i].2.as_str(), id) {
            let ghost before = postings_view(out@);
            let p = (inverted_index[i].0.clone(), inverted_index[i].1.clone(), inverted_index[i].2.clone());
            out.push(p);
            assert(postings_view(out@) =~= before.push(pv[i as int]));
        }
        i = i + 1;
    }
    assert(pv.subrange(0, pv.len() as int) =~= pv);
    *inverted_index = out;
}

/// Removes `doc` from every secondary index (see `remove_doc_secondary`).
fn remove_from_secondary_index_all(secondary_indexes: &mut Vec<(String, SecondaryIndex)>, doc: &Document)
    ensures
        secondary_view(final(secondary_indexes)@) == remove_doc_secondary(secondary_view(old(secondary_indexes)@), doc@),
{
    let ghost sv = secondary_view(secondary_indexes@);
    let mut j: usize = 0;
    while j < secondary_indexes.len()
        invariant
            j <= secondary_indexes@.len(),
            secondary_indexes@.len() == sv.len(),
            forall|k: int| 0 <= k < j ==> #[trigger] secondary_view(secondary_indexes@)[k] == (sv[k].0, unindex_doc(sv[k].1, sv[k].0, doc@)),
            forall|k: int| j <= k < sv.len() ==> #[trigger] secondary_view(secondary_indexes@)[k] == sv[k],
        decreases secondary_indexes.len() - j,
    {
        let ghost raw = secondary_indexes@;
        assert(secondary_view(raw)[j as int] == sv[j as int]);
        let (field, mut idx) = secondary_indexes.remove(j);
        assert((field, idx) == raw[j as int]);
        remove_from_secondary_index(&mut idx, field.as_str(), doc);
        let ghost e = (field, idx);
        secondary_indexes.insert(j, (field, idx));
        assert(secondary_indexes@ =~= raw.update(j as int, e));
        assert(secondary_view(secondary_indexes@) =~= secondary_view(raw).update(j as int, (sv[j as int].0, unindex_doc(sv[j as int].1, sv[j as int].0, doc@))));
        j = j + 1;
    }
    assert(secondary_view(secondary_indexes@) =~= remove_doc_secondary(sv, doc@));
}

impl Document {
    /// A copy of this document.
    pub fn copy(&self) -> (r: Document)
        ensures
            r@ == self@,
    {
        Document {
            id: self.id.clone(),
            data: self.data.copy(),
            created_at: self.created_at.clone(),
            updated_at: self.updated_at.clone(),
            deleted: self.deleted,
        }
    }
}

impl Cassette {
    /// Replaces the data of the first document with ID `id` in the
    /// collection `collection`, stamping it with the current time and
    /// reindexing it; `false` when that document is missing or deleted, an
    /// error when the collection is missing.
    pub fn update(&mut self, collection: &str, id: &str, data: JsonValue) -> (r: Result<bool, DbError>)
        ensures
            ({
                let cs = old(self)@.collections;
                let i = crate::seqs::position(cs, coll_named(collection@));
                if i == cs.len() {
                    r is Err && final(self)@ == old(self)@
                } else {
                    let p = crate::seqs::position(cs[i].docs, doc_with_id(id@));
                    if p == cs[i].docs.len() || cs[i].docs[p].deleted {
                        r == Ok::<bool, DbError>(false) && final(self)@ == old(self)@
                    } else {
                        &&& r == Ok::<bool, DbError>(true)
                        &&& final(self)@ == CassetteView {
                            collections: cs.update(
                                i,
                                updated_coll(cs[i], p, data@, final(self)@.collections[i].docs[p].updated_at),
                            ),
                            ..old(self)@
                        }
                    }
                }
            }),
    {
        let ghost cs = self@.collections;
        let i = self.coll_pos(collection);
        proof {
            crate::seqs::lemma_position_bounds(cs, coll_named(collection@));
        }
        if i == self.collections.len() {
            return Err(DbError::CollectionNotFound);
        }
        let p = doc_pos(&self.collections[i].documents, id);
        proof {
            crate::seqs::lemma_position_find(cs[i as int].docs, doc_with_id(id@));
        }
        if p == self.collections[i].documents.len() {
            return Ok(false);
        }
        assert(cs[i as int].docs[p as int] == self.collections@[i as int].documents@[p as int]@);
        if self.collections[i].documents[p].deleted {
            return Ok(false);
        }
        let mut coll = self.collections.remove(i);
        assert(coll@ == cs[i as int]);
        let ghost cv = coll@;
        let ghost dv = cv.docs[p as int];
        let mut d = coll.documents.remove(p);
        assert(d@ == dv);
        remove_from_index(&mut coll.inverted_index, id);
        remove_from_secondary_index_all(&mut coll.secondary_indexes, &d);
        d.data = data;
        d.updated_at = crate::time::now_rfc3339();
        let ghost nd = d@;
        index_document(&mut coll.inverted_index, &d);
        index_secondary(&mut coll.secondary_indexes, &d);
        coll.documents.insert(p, d);
        assert(doc_views(coll.documents@) =~= cv.docs.update(p as int, nd));
        let ghost nc = coll@;
        assert(nc == updated_coll(cv, p as int, nd.data, nd.updated_at));
        self.collections.insert(i, coll);
        assert(coll_views(self.collections@) =~= cs.update(i as int, nc));
        Ok(true)
    }
}

} // verus!

verus! {

/// Whether a document is live and its ID is among `ids`.
pub open spec fn live_in(ids: Seq<Seq<char>>) -> spec_fn(DocView) -> bool {
    |d: DocView| !d.deleted && ids.contains(d.id)
}

/// Whether a document is live and its field `key` is the string `val`.
pub open spec fn live_field_is(key: Seq<char>, val: Seq<char>) -> spec_fn(DocView) -> bool {
    |d: DocView| !d.deleted && field_of(d.data, key) == Some(Json::Str(val))
}

/// How a filter `key=value` reads: the text split at `=` must give two
/// parts; the key is the first trimmed, the value the second trimmed and
/// stripped of quotes.
pub open spec fn filter_parts(filter: Seq<char>) -> Option<(Seq<char>, Seq<char>)> {
    let parts = crate::text::split_on(filter, '=');
    if parts.len() == 2 {
        Some((crate::text::trim(parts[0]), crate::text::strip_char(crate::text::trim(parts[1]), '"')))
    } else {
        None
    }
}

/// The documents of a collection that a filter selects, scanning them:
/// every live document when the filter is no `key=value`, else the live
/// ones whose field `key` is the string `value`.
pub open spec fn scan_filter(cv: CollView, filter: Seq<char>) -> Seq<DocView> {
    match filter_parts(filter) {
        None => keep(cv.docs, is_live()),
        Some((key, val)) => keep(cv.docs, live_field_is(key, val)),
    }
}

/// The documents of a collection that a filter selects, using the
/// secondary index on the key's field when there is one: then the live
/// documents whose IDs the index holds under the value.
pub open spec fn query_filter(cv: CollView, filter: Seq<char>) -> Seq<DocView> {
    match filter_parts(filter) {
        None => keep(cv.docs, is_live()),
        Some((key, val)) => match find_first(cv.secondary, index_on(key)) {
            Some(e) => match lookup(e.1, val) {
                Some(ids) => keep(cv.docs, live_in(ids)),
                None => Seq::empty(),
            },
            None => keep(cv.docs, live_field_is(key, val)),
        },
    }
}

/// The parts of a `key=value` filter (see `filter_parts`).
fn split_filter(filter: &str) -> (r: Option<(String, String)>)
    ensures
        match r {
            Some((k, v)) => filter_parts(filter@) == Some((k@, v@)),
            None => filter_parts(filter@) is None,
        },
{
    let chars = chars_of(filter);
    let parts = crate::text::split_chars(&chars, '=');
    if parts.len() != 2 {
        return None;
    }
    let key = crate::text::trim_chars(&parts[0]);
    let t = crate::text::trim_chars(&parts[1]);
    let val = crate::text::strip_char_chars(&t, '"');
    Some((string_of(key.as_slice()), string_of(val.as_slice())))
}

/// The documents of `docs` whose field `key` is the string `val`, live only.
fn docs_with_field<'a>(docs: &'a Vec<Document>, key: &str, val: &str) -> (r: Vec<&'a Document>)
    ensures
        ref_views(r@) == keep(doc_views(docs@), live_field_is(key@, val@)),
{
    let ghost dv = doc_views(docs@);
    let mut out: Vec<&Document> = Vec::new();
    let mut i: usize = 0;
    while i < docs.len()
        invariant
            i <= docs@.len(),
            dv == doc_views(docs@),
            ref_views(out@) == keep(dv.subrange(0, i as int), live_field_is(key@, val@)),
        decreases docs.len() - i,
    {
        proof {
            lemma_keep_step(dv, live_field_is(key@, val@), i as int);
        }
        assert(dv[i as int] == docs@[i as int]@);
        let hit = match docs[i].data.get(key) {
            Some(v) => match v.as_str() {
                Some(s) => str_eq(s, val),
                None => false,
            },
            None => false,
        };
        if !docs[i].deleted && hit {
            let ghost before = ref_views(out@);
            out.push(&docs[i]);
            assert(ref_views(out@) =~= before.push(dv[i as int]));
        }
        i = i + 1;
    }
    assert(dv.subrange(0, dv.len() as int) =~= dv);
    out
}

/// The live documents of `docs` whose IDs are among `ids`.
fn docs_with_ids<'a>(docs: &'a Vec<Document>, ids: &Vec<String>) -> (r: Vec<&'a Document>)
    ensures
        ref_views(r@) == keep(doc_views(docs@), live_in(views(ids@))),
{
    let ghost dv = doc_views(docs@);
    let mut out: Vec<&Document> = Vec::new();
    let mut i: usize = 0;
    while i < docs.len()
        invariant
            i <= docs@.len(),
            dv == doc_views(docs@),
            ref_views(out@) == keep(dv.subrange(0, i as int), live_in(views(ids@))),
        decreases docs.len() - i,
    {
        proof {
            lemma_keep_step(dv, live_in(views(ids@)), i as int);
        }
        assert(dv[i as int] == docs@[i as int]@);
        if !docs[i].deleted && crate::text::contains_str(ids, docs[i].id.as_str()) {
            let ghost before = ref_views(out@);
            out.push(&docs[i]);
            assert(ref_views(out@) =~= before.push(dv[i as int]));
        }
        i = i + 1;
    }
    assert(dv.subrange(0, dv.len() as int) =~= dv);
    out
}

/// Copies of the documents behind some references.
fn copies(refs: &Vec<&Document>) -> (r: Vec<Document>)
    ensures
        doc_views(r@) == ref_views(refs@),
{
    let mut out: Vec<Document> = Vec::new();
    let mut i: usize = 0;
    while i < refs.len()
        invariant
            i <= refs@.len(),
            doc_views(out@) == ref_views(refs@).subrange(0, i as int),
        decreases refs.len() - i,
    {
        let ghost before = doc_views(out@);
        out.push(refs[i].copy());
        assert(doc_views(out@) =~= before.push(ref_views(refs@)[i as int]));
        assert(ref_views(refs@).subrange(0, i + 1) =~= ref_views(refs@).subrange(0, i as int).push(ref_views(refs@)[i as int]));
        i = i + 1;
    }
    assert(ref_views(refs@).subrange(0, i as int) =~= ref_views(refs@));
    out
}

impl Cassette {
    /// The documents of the collection `collection` that a `key=value`
    /// filter selects (see `query_filter`); none for a missing collection.
    pub fn query(&self, collection: &str, filter: &str) -> (r: Result<Vec<&Document>, DbError>)
        ensures
            r is Ok,
            ref_views(r->Ok_0@) == match coll_of(self@, collection@) {
                Some(cv) => query_filter(cv, filter@),
                None => Seq::empty(),
            },
    {
        let i = self.coll_pos(collection);
        proof {
            crate::seqs::lemma_position_find(self@.collections, coll_named(collection@));
        }
        if i == self.collections.len() {
            let out: Vec<&Document> = Vec::new();
            assert(ref_views(out@) =~= Seq::<DocView>::empty());
            return Ok(out);
        }
        let coll = &self.collections[i];
        match split_filter(filter) {
            None => Ok(live_refs(&coll.documents)),
            Some((key, val)) => {
                let q = index_pos(&coll.secondary_indexes, key.as_str());
                proof {
                    crate::seqs::lemma_position_find(coll@.secondary, index_on(key@));
                }
                if q < coll.secondary_indexes.len() {
                    let index = &coll.secondary_indexes[q].1;
                    let k = seek_pos(index, val.as_str());
                    if k < index.len() && str_eq(index[k].0.as_str(), val.as_str()) {
                        assert(entries_view(index@)[k as int] == (index@[k as int].0@, views(index@[k as int].1@)));
                        Ok(docs_with_ids(&coll.documents, &index[k].1))
                    } else {
                        let out: Vec<&Document> = Vec::new();
                        assert(ref_views(out@) =~= Seq::<DocView>::empty());
                        Ok(out)
                    }
                } else {
                    Ok(docs_with_field(&coll.documents, key.as_str(), val.as_str()))
                }
            },
        }
    }

    /// Copies of the documents that a `key=value` filter selects by
    /// scanning (see `scan_filter`); none for a missing collection.
    pub fn query_owned(&self, collection: &str, filter: &str) -> (r: Result<Vec<Document>, DbError>)
        ensures
            r is Ok,
            doc_views(r->Ok_0@) == match coll_of(self@, collection@) {
                Some(cv) => scan_filter(cv, filter@),
                None => Seq::empty(),
            },
    {
        let i = self.coll_pos(collection);
        proof {
            crate::seqs::lemma_position_find(self@.collections, coll_named(collection@));
        }
        if i == self.collections.len() {
            let out: Vec<Document> = Vec::new();
            assert(doc_views(out@) =~= Seq::<DocView>::empty());
            return Ok(out);
        }
        let coll = &self.collections[i];
        let refs = match split_filter(filter) {
            None => live_refs(&coll.documents),
            Some((key, val)) => docs_with_field(&coll.documents, key.as_str(), val.as_str()),
        };
        Ok(copies(&refs))
    }

    /// Copies of the live documents of the collection `collection`.
    pub fn scan_owned(&self, collection: &str) -> (r: Result<Vec<Document>, DbError>)
        ensures
            r is Ok,
            doc_views(r->Ok_0@) == match coll_of(self@, collection@) {
                Some(cv) => keep(cv.docs, is_live()),
                None => Seq::empty(),
            },
    {
        let refs = match self.scan(collection) {
            Ok(v) => v,
            Err(_) => Vec::new(),
        };
        Ok(copies(&refs))
    }

    /// A copy of the live document with ID `id` in the collection
    /// `collection`.
    pub fn get_owned(&self, collection: &str, id: &str) -> (r: Option<Document>)
        ensures
            match r {
                Some(d) => Some(d@) == match coll_of(self@, collection@) {
                    Some(cv) => find_first(cv.docs, live_with_id(id@)),
                    None => None,
                },
                None => match coll_of(self@, collection@) {
                    Some(cv) => find_first(cv.docs, live_with_id(id@)) is None,
                    None => true,
                },
            },
    {
        match self.get(collection, id) {
            Some(d) => Some(d.copy()),
            None => None,
        }
    }
}

} // verus!

verus! {

/// How a range operator compares a key with the bound: `>`, `<`, `>=`,
/// `<=` in string order; any other operator selects nothing.
pub open spec fn key_in_range(op: Seq<char>, key: Seq<char>, value: Seq<char>) -> bool {
    if op == ">"@ {
        lex_lt(value, key)
    } else if op == "<"@ {
        lex_lt(key, value)
    } else if op == ">="@ {
        !lex_lt(key, value)
    } else if op == "<="@ {
        !lex_lt(value, key)
    } else {
        false
    }
}

/// Whether a live document's field `field` has a key that compares with
/// the bound.
pub open spec fn field_in_range(field: Seq<char>, op: Seq<char>, value: Seq<char>) -> spec_fn(DocView) -> bool {
    |d: DocView| !d.deleted && match field_key(d.data, field) {
        Some(k) => key_in_range(op, k, value),
        None => false,
    }
}

/// Which index entries a range takes: those from the bound up for `>` and
/// `>=`, below it for `<`, up to it for `<=`; `>` also passes over an
/// entry whose IDs are those under the bound itself (`skip`).
pub open spec fn entry_pred(op: Seq<char>, value: Seq<char>, skip: Option<Seq<Seq<char>>>) -> spec_fn((Seq<char>, Seq<Seq<char>>)) -> bool {
    |e: (Seq<char>, Seq<Seq<char>>)|
        if op == ">"@ {
            !lex_lt(e.0, value) && skip != Some(e.1)
        } else if op == ">="@ {
            !lex_lt(e.0, value)
        } else if op == "<"@ {
            lex_lt(e.0, value)
        } else if op == "<="@ {
            !lex_lt(value, e.0)
        } else {
            false
        }
}

/// A field's value, or null when the data has no such field.
pub open spec fn field_or_null(data: Json, field: Seq<char>) -> Json {
    match field_of(data, field) {
        Some(v) => v,
        None => Json::Null,
    }
}

/// Whether a document passes the check of `>` ranges: the key of its field
/// (null when missing) is above the bound.
pub open spec fn passes(check: Option<(Seq<char>, Seq<char>)>, d: DocView) -> bool {
    match check {
        Some((field, value)) => lex_lt(value, index_key(field_or_null(d.data, field))),
        None => true,
    }
}

/// For each ID in order, the first live document with it, when there is
/// one and it passes the check.
pub open spec fn ids_docs(docs: Seq<DocView>, ids: Seq<Seq<char>>, check: Option<(Seq<char>, Seq<char>)>) -> Seq<DocView>
    decreases ids.len(),
{
    if ids.len() == 0 {
        Seq::empty()
    } else {
        ids_docs(docs, ids.drop_last(), check) + match find_first(docs, live_with_id(ids.last())) {
            Some(d) => if passes(check, d) {
                seq![d]
            } else {
                Seq::empty()
            },
            None => Seq::empty(),
        }
    }
}

/// The documents of the IDs of each entry in order (see `ids_docs`).
pub open spec fn range_docs(docs: Seq<DocView>, entries: Seq<(Seq<char>, Seq<Seq<char>>)>, check: Option<(Seq<char>, Seq<char>)>) -> Seq<DocView>
    decreases entries.len(),
{
    if entries.len() == 0 {
        Seq::empty()
    } else {
        range_docs(docs, entries.drop_last(), check) + ids_docs(docs, entries.last().1, check)
    }
}

/// The documents of a collection whose field `field` compares with the
/// bound `value` under `op`.  With a secondary index on the field they come
/// entry by entry in key order; without one, in document order.
pub open spec fn range_query(cv: CollView, field: Seq<char>, op: Seq<char>, value: Seq<char>) -> Seq<DocView> {
    match find_first(cv.secondary, index_on(field)) {
        Some(e) => range_docs(
            cv.docs,
            keep(e.1, entry_pred(op, value, lookup(e.1, value))),
            if op == ">"@ {
                Some((field, value))
            } else {
                None
            },
        ),
        None => keep(cv.docs, field_in_range(field, op, value)),
    }
}

/// Whether two lists of IDs are the same.
fn same_ids(a: &Vec<String>, b: &Vec<String>) -> (r: bool)
    ensures
        r == (views(a@) == views(b@)),
{
    if a.len() != b.len() {
        assert(views(a@).len() != views(b@).len());
        return false;
    }
    let mut i: usize = 0;
    while i < a.len()
        invariant
            i <= a@.len(),
            a@.len() == b@.len(),
            forall|j: int| 0 <= j < i ==> (#[trigger] a@[j])@ == b@[j]@,
        decreases a.len() - i,
    {
        if !str_eq(a[i].as_str(), b[i].as_str()) {
            assert(views(a@)[i as int] != views(b@)[i as int]);
            return false;
        }
        i = i + 1;
    }
    assert(views(a@) =~= views(b@));
    true
}

/// Appends the documents of `ids` (see `ids_docs`).
fn push_ids_docs<'a>(
    docs: &'a Vec<Document>,
    ids: &Vec<String>,
    check: bool,
    field: &str,
    value: &str,
    out: &mut Vec<&'a Document>,
)
    ensures
        ref_views(final(out)@) == ref_views(old(out)@) + ids_docs(
            doc_views(docs@),
            views(ids@),
            if check {
                Some((field@, value@))
            } else {
                None
            },
        ),
{
    let ghost chk = if check {
        Some((field@, value@))
    } else {
        None
    };
    let ghost dv = doc_views(docs@);
    let ghost iv = views(ids@);
    let mut k: usize = 0;
    assert(ref_views(out@) =~= ref_views(old(out)@) + ids_docs(dv, iv.subrange(0, 0), chk));
    while k < ids.len()
        invariant
            k <= ids@.len(),
            iv == views(ids@),
            dv == doc_views(docs@),
            chk == if check {
                Some((field@, value@))
            } else {
                None::<(Seq<char>, Seq<char>)>
            },
            ref_views(out@) == ref_views(old(out)@) + ids_docs(dv, iv.subrange(0, k as int), chk),
        decreases ids.len() - k,
    {
        let ghost sub = iv.subrange(0, k + 1);
        assert(sub.drop_last() =~= iv.subrange(0, k as int));
        assert(sub.last() == ids@[k as int]@);
        let ghost before = ref_views(out@);
        match first_live(docs, ids[k].as_str()) {
            Some(d) => {
                let ok = if check {
                    let key = match d.data.get(field) {
                        Some(v) => value_to_index_key(v),
                        None => value_to_index_key(&JsonValue::Null),
                    };
                    str_lt(value, key.as_str())
                } else {
                    true
                };
                assert(ok == passes(chk, d@));
                if ok {
                    out.push(d);
                    assert(ref_views(out@) =~= before + seq![d@]);
                } else {
                    assert(ref_views(out@) =~= before + Seq::<DocView>::empty());
                }
            },
            None => {
                assert(ref_views(out@) =~= before + Seq::<DocView>::empty());
            },
        }
        k = k + 1;
    }
    assert(iv.subrange(0, iv.len() as int) =~= iv);
}

/// The documents of `docs` whose field `field` compares with `value`
/// under `op`, live only.
fn docs_in_range<'a>(docs: &'a Vec<Document>, field: &str, op: &str, value: &str) -> (r: Vec<&'a Document>)
    ensures
        ref_views(r@) == keep(doc_views(docs@), field_in_range(field@, op@, value@)),
{
    let gt = str_eq(op, ">");
    let lt = str_eq(op, "<");
    let ge = str_eq(op, ">=");
    let le = str_eq(op, "<=");
    let ghost dv = doc_views(docs@);
    let mut out: Vec<&Document> = Vec::new();
    let mut i: usize = 0;
    while i < docs.len()
        invariant
            i <= docs@.len(),
            dv == doc_views(docs@),
            gt == (op@ == ">"@),
            lt == (op@ == "<"@),
            ge == (op@ == ">="@),
            le == (op@ == "<="@),
            ref_views(out@) == keep(dv.subrange(0, i as int), field_in_range(field@, op@, value@)),
        decreases docs.len() - i,
    {
        proof {
            lemma_keep_step(dv, field_in_range(field@, op@, value@), i as int);
        }
        assert(dv[i as int] == docs@[i as int]@);
        let hit = match docs[i].data.get(field) {
            Some(v) => {
                let key = value_to_index_key(v);
                if gt {
                    str_lt(value, key.as_str())
                } else if lt {
                    str_lt(key.as_str(), value)
                } else if ge {
                    !str_lt(key.as_str(), value)
                } else if le {
                    !str_lt(value, key.as_str())
                } else {
                    false
                }
            },
            None => false,
        };
        if !docs[i].deleted && hit {
            let ghost before = ref_views(out@);
            out.push(&docs[i]);
            assert(ref_views(out@) =~= before.push(dv[i as int]));
        }
        i = i + 1;
    }
    assert(dv.subrange(0, dv.len() as int) =~= dv);
    out
}

impl Cassette {
    /// The documents of the collection `collection` whose field `field`
    /// compares with `value` under `op` (`>`, `<`, `>=`, `<=`), using the
    /// field's secondary index when there is one (see `range_query`); none
    /// for a missing collection.
    pub fn query_range(&self, collection: &str, field: &str, op: &str, value: &str) -> (r: Result<Vec<&Document>, DbError>)
        ensures
            r is Ok,
            ref_views(r->Ok_0@) == match coll_of(self@, collection@) {
                Some(cv) => range_query(cv, field@, op@, value@),
                None => Seq::empty(),
            },
    {
        let i = self.coll_pos(collection);
        proof {
            crate::seqs::lemma_position_find(self@.collections, coll_named(collection@));
        }
        if i == self.collections.len() {
            let out: Vec<&Document> = Vec::new();
            assert(ref_views(out@) =~= Seq::<DocView>::empty());
            return Ok(out);
        }
        let coll = &self.collections[i];
        let q = index_pos(&coll.secondary_indexes, field);
        proof {
            crate::seqs::lemma_position_find(coll@.secondary, index_on(field@));
        }
        if q == coll.secondary_indexes.len() {
            return Ok(docs_in_range(&coll.documents, field, op, value));
        }
        let index = &coll.secondary_indexes[q].1;
        let ghost ev = entries_view(index@);
        assert(coll@.secondary[q as int].1 == ev);
        let gt = str_eq(op, ">");
        let lt = str_eq(op, "<");
        let ge = str_eq(op, ">=");
        let le = str_eq(op, "<=");
        let b = seek_pos(index, value);
        let exact: Option<&Vec<String>> = if b < index.len() && str_eq(index[b].0.as_str(), value) {
            Some(&index[b].1)
        } else {
            None
        };
        assert(b < ev.len() ==> ev[b as int] == (index@[b as int].0@, views(index@[b as int].1@)));
        let ghost skip = lookup(ev, value@);
        assert(match exact {
            Some(ids) => skip == Some(views(ids@)),
            None => skip is None,
        });
        let ghost pred = entry_pred(op@, value@, skip);
        let ghost chk = if op@ == ">"@ {
            Some((field@, value@))
        } else {
            None
        };
        let mut out: Vec<&Document> = Vec::new();
        let mut j: usize = 0;
        assert(ref_views(out@) =~= range_docs(doc_views(coll.documents@), keep(ev.subrange(0, 0), pred), chk));
        while j < index.len()
            invariant
                j <= index@.len(),
                ev == entries_view(index@),
                pred == entry_pred(op@, value@, skip),
                chk == if op@ == ">"@ {
                    Some((field@, value@))
                } else {
                    None::<(Seq<char>, Seq<char>)>
                },
                gt == (op@ == ">"@),
                lt == (op@ == "<"@),
                ge == (op@ == ">="@),
                le == (op@ == "<="@),
                match exact {
                    Some(ids) => skip == Some(views(ids@)),
                    None => skip is None,
                },
                ref_views(out@) == range_docs(doc_views(coll.documents@), keep(ev.subrange(0, j as int), pred), chk),
            decreases index.len() - j,
        {
            proof {
                lemma_keep_step(ev, pred, j as int);
            }
            assert(ev[j as int] == (index@[j as int].0@, views(index@[j as int].1@)));
            let key = index[j].0.as_str();
            let take = if gt {
                let skipped = match exact {
                    Some(ids) => same_ids(ids, &index[j].1),
                    None => false,
                };
                !str_lt(key, value) && !skipped
            } else if ge {
                !str_lt(key, value)
            } else if lt {
                str_lt(key, value)
            } else if le {
                !str_lt(value, key)
            } else {
                false
            };
            assert(take == pred(ev[j as int]));
            if take {
                let ghost kept = keep(ev.subrange(0, j as int), pred);
                assert(kept.push(ev[j as int]).drop_last() =~= kept);
                push_ids_docs(&coll.documents, &index[j].1, gt, field, value, &mut out);
            }
            j = j + 1;
        }
        assert(ev.subrange(0, ev.len() as int) =~= ev);
        Ok(out)
    }
}

} // verus!

verus! {

/// The postings of `docs`, document by document.
pub open spec fn all_postings(docs: Seq<DocView>) -> Seq<(Seq<char>, Seq<char>, Seq<char>)>
    decreases docs.len(),
{
    if docs.len() == 0 {
        Seq::empty()
    } else {
        all_postings(docs.drop_last()) + doc_postings(docs.last())
    }
}

/// A collection without its deleted documents, its indexes rebuilt over
/// the documents left (the same fields keep secondary indexes).
pub open spec fn compacted(cv: CollView) -> CollView {
    let docs = keep(cv.docs, is_live());
    CollView {
        docs,
        postings: all_postings(docs),
        secondary: cv.secondary.map_values(
            |e: (Seq<char>, Seq<(Seq<char>, Seq<Seq<char>>)>)| (e.0, build_index(docs, e.0)),
        ),
        ..cv
    }
}

/// Every collection compacted.
pub open spec fn compacted_all(cs: Seq<CollView>) -> Seq<CollView> {
    cs.map_values(|c: CollView| compacted(c))
}

/// The number of deleted documents in the collections.
pub open spec fn deleted_count(cs: Seq<CollView>) -> int
    decreases cs.len(),
{
    if cs.len() == 0 {
        0
    } else {
        deleted_count(cs.drop_last()) + (cs.last().docs.len() - keep(cs.last().docs, is_live()).len())
    }
}

/// The number of documents in the collections.
pub open spec fn total_docs(cs: Seq<CollView>) -> int
    decreases cs.len(),
{
    if cs.len() == 0 {
        0
    } else {
        total_docs(cs.drop_last()) + cs.last().docs.len()
    }
}

proof fn lemma_deleted_count(cs: Seq<CollView>)
    ensures
        0 <= deleted_count(cs) <= total_docs(cs),
    decreases cs.len(),
{
    if cs.len() > 0 {
        lemma_deleted_count(cs.drop_last());
        crate::seqs::lemma_keep_len(cs.last().docs, is_live());
    }
}

/// The collection compacted (see `compacted`).
fn compact_collection(coll: Collection) -> (r: Collection)
    ensures
        r@ == compacted(coll@),
{
    let ghost cv = coll@;
    let mut docs: Vec<Document> = Vec::new();
    let mut k: usize = 0;
    while k < coll.documents.len()
        invariant
            k <= coll.documents@.len(),
            cv == coll@,
            doc_views(docs@) == keep(cv.docs.subrange(0, k as int), is_live()),
        decreases coll.documents.len() - k,
    {
        proof {
            lemma_keep_step(cv.docs, is_live(), k as int);
        }
        assert(cv.docs[k as int] == coll.documents@[k as int]@);
        if !coll.documents[k].deleted {
            let ghost before = doc_views(docs@);
            docs.push(coll.documents[k].copy());
            assert(doc_views(docs@) =~= before.push(cv.docs[k as int]));
        }
        k = k + 1;
    }
    assert(cv.docs.subrange(0, cv.docs.len() as int) =~= cv.docs);
    let ghost live = doc_views(docs@);
    let mut postings: Vec<Posting> = Vec::new();
    let mut m: usize = 0;
    assert(postings_view(postings@) =~= all_postings(live.subrange(0, 0)));
    while m < docs.len()
        invariant
            m <= docs@.len(),
            live == doc_views(docs@),
            postings_view(postings@) == all_postings(live.subrange(0, m as int)),
        decreases docs.len() - m,
    {
        index_document(&mut postings, &docs[m]);
        assert(live.subrange(0, m + 1).drop_last() =~= live.subrange(0, m as int));
        m = m + 1;
    }
    assert(live.subrange(0, live.len() as int) =~= live);
    let ghost target = cv.secondary.map_values(
        |e: (Seq<char>, Seq<(Seq<char>, Seq<Seq<char>>)>)| (e.0, build_index(live, e.0)),
    );
    let mut secondary: Vec<(String, SecondaryIndex)> = Vec::new();
    let mut j: usize = 0;
    while j < coll.secondary_indexes.len()
        invariant
            j <= coll.secondary_indexes@.len(),
            cv == coll@,
            live == doc_views(docs@),
            target == cv.secondary.map_values(
                |e: (Seq<char>, Seq<(Seq<char>, Seq<Seq<char>>)>)| (e.0, build_index(live, e.0)),
            ),
            secondary_view(secondary@) == target.subrange(0, j as int),
        decreases coll.secondary_indexes.len() - j,
    {
        let field = &coll.secondary_indexes[j].0;
        assert(cv.secondary[j as int].0 == field@);
        let mut index: SecondaryIndex = Vec::new();
        let mut d: usize = 0;
        assert(entries_view(index@) =~= build_index(live.subrange(0, 0), field@));
        while d < docs.len()
            invariant
                d <= docs@.len(),
                live == doc_views(docs@),
                entries_view(index@) == build_index(live.subrange(0, d as int), field@),
            decreases docs.len() - d,
        {
            add_to_secondary_index(&mut index, field.as_str(), &docs[d]);
            assert(live.subrange(0, d + 1).drop_last() =~= live.subrange(0, d as int));
            d = d + 1;
        }
        assert(live.subrange(0, live.len() as int) =~= live);
        let ghost before = secondary_view(secondary@);
        secondary.push((field.clone(), index));
        assert(secondary_view(secondary@) =~= before.push(target[j as int]));
        assert(target.subrange(0, j + 1) =~= target.subrange(0, j as int).push(target[j as int]));
        j = j + 1;
    }
    assert(target.subrange(0, target.len() as int) =~= target);
    Collection { name: coll.name, documents: docs, inverted_index: postings, secondary_indexes: secondary }
}

impl Cassette {
    /// Removes the deleted documents of every collection and rebuilds the
    /// indexes over the documents left; returns how many were removed.
    pub fn compact(&mut self) -> (r: Result<usize, DbError>)
        requires
            total_docs(old(self)@.collections) <= usize::MAX,
        ensures
            r is Ok,
            r->Ok_0 == deleted_count(old(self)@.collections),
            final(self)@ == (CassetteView { collections: compacted_all(old(self)@.collections), ..old(self)@ }),
    {
        let ghost cs = self@.collections;
        let mut colls: Vec<Collection> = Vec::new();
        std::mem::swap(&mut colls, &mut self.collections);
        let n = colls.len();
        assert(coll_views(colls@) =~= cs.subrange(0, n as int));
        let mut out: Vec<Collection> = Vec::new();
        let mut removed: usize = 0;
        let mut i: usize = 0;
        while i < n
            invariant
                i <= n,
                n == cs.len(),
                coll_views(colls@) == cs.subrange(i as int, n as int),
                total_docs(cs) <= usize::MAX,
                coll_views(out@) == compacted_all(cs).subrange(0, i as int),
                removed == deleted_count(cs.subrange(0, i as int)),
            decreases n - i,
        {
            let ghost sub = cs.subrange(0, i + 1);
            assert(sub.drop_last() =~= cs.subrange(0, i as int));
            proof {
                lemma_deleted_count(sub);
                lemma_deleted_count(cs);
                lemma_total_prefix(cs, i + 1);
            }
            assert(coll_views(colls@).len() == n - i);
            assert(coll_views(colls@)[0] == cs[i as int]);
            let ghost before_colls = coll_views(colls@);
            let coll = colls.remove(0);
            assert(coll_views(colls@) =~= before_colls.drop_first());
            assert(coll_views(colls@) =~= cs.subrange(i + 1, n as int));
            assert(coll@ == cs[i as int]);
            let before = coll.documents.len();
            let c2 = compact_collection(coll);
            proof {
                crate::seqs::lemma_keep_len(cs[i as int].docs, is_live());
            }
            let after = c2.documents.len();
            removed = removed + (before - after);
            let ghost vb = coll_views(out@);
            out.push(c2);
            assert(coll_views(out@) =~= vb.push(compacted(cs[i as int])));
            assert(compacted_all(cs).subrange(0, i + 1) =~= compacted_all(cs).subrange(0, i as int).push(compacted(cs[i as int])));
            i = i + 1;
        }
        assert(cs.subrange(0, cs.len() as int) =~= cs);
        assert(compacted_all(cs).subrange(0, cs.len() as int) =~= compacted_all(cs));
        self.collections = out;
        Ok(removed)
    }
}

pub proof fn lemma_total_prefix(cs: Seq<CollView>, n: int)
    requires
        0 <= n <= cs.len(),
    ensures
        total_docs(cs.subrange(0, n)) <= total_docs(cs),
    decreases cs.len(),
{
    if n < cs.len() {
        assert(cs.drop_last().subrange(0, n) =~= cs.subrange(0, n));
        lemma_total_prefix(cs.drop_last(), n);
    } else {
        assert(cs.subrange(0, n) =~= cs);
    }
}

} // verus!

verus! {

/// Whether a posting has the word `w` and the document `id`.
pub open spec fn word_of_id(w: Seq<char>, id: Seq<char>) -> spec_fn((Seq<char>, Seq<char>, Seq<char>)) -> bool {
    |p: (Seq<char>, Seq<char>, Seq<char>)| p.1 == w && p.2 == id
}

/// Whether a posting has one of the words `ws`.
pub open spec fn of_words(ws: Seq<Seq<char>>) -> spec_fn((Seq<char>, Seq<char>, Seq<char>)) -> bool {
    |p: (Seq<char>, Seq<char>, Seq<char>)| ws.contains(p.1)
}

/// The score of the document `id` for the query words `ws`: for each word,
/// as often as it occurs, the number of postings of `id` with that word.
pub open spec fn score(pv: Seq<(Seq<char>, Seq<char>, Seq<char>)>, ws: Seq<Seq<char>>, id: Seq<char>) -> nat
    decreases ws.len(),
{
    if ws.len() == 0 {
        0
    } else {
        score(pv, ws.drop_last(), id) + keep(pv, word_of_id(ws.last(), id)).len()
    }
}

/// The elements of `s` without repeats, each where it first occurs.
pub open spec fn distinct(s: Seq<Seq<char>>) -> Seq<Seq<char>>
    decreases s.len(),
{
    if s.len() == 0 {
        s
    } else {
        let d = distinct(s.drop_last());
        if d.contains(s.last()) {
            d
        } else {
            d.push(s.last())
        }
    }
}

/// The documents of a list of postings.
pub open spec fn posting_ids(ps: Seq<(Seq<char>, Seq<char>, Seq<char>)>) -> Seq<Seq<char>> {
    ps.map_values(|p: (Seq<char>, Seq<char>, Seq<char>)| p.2)
}

/// The documents with a posting of a query word, in order of their first
/// such posting, with their scores.
pub open spec fn scored(pv: Seq<(Seq<char>, Seq<char>, Seq<char>)>, ws: Seq<Seq<char>>) -> Seq<(Seq<char>, nat)> {
    distinct(posting_ids(keep(pv, of_words(ws)))).map_values(with_score(pv, ws))
}

/// A document with its score.
pub open spec fn with_score(pv: Seq<(Seq<char>, Seq<char>, Seq<char>)>, ws: Seq<Seq<char>>) -> spec_fn(Seq<char>) -> (Seq<char>, nat) {
    |id: Seq<char>| (id, score(pv, ws, id))
}

/// The documents of a list of scored documents.
pub open spec fn ids_of(c: Seq<(Seq<char>, nat)>) -> Seq<Seq<char>> {
    c.map_values(|e: (Seq<char>, nat)| e.0)
}

/// Whether a scored document has the score `s`.
pub open spec fn has_score(s: nat) -> spec_fn((Seq<char>, nat)) -> bool {
    |e: (Seq<char>, nat)| e.1 == s
}

/// The documents with the score `s`, in order.
pub open spec fn at_score(c: Seq<(Seq<char>, nat)>, s: nat) -> Seq<Seq<char>> {
    ids_of(keep(c, has_score(s)))
}

/// The documents with scores from `top` down to just above `level`,
/// higher scores first.
pub open spec fn band(c: Seq<(Seq<char>, nat)>, top: nat, level: nat) -> Seq<Seq<char>>
    decreases top,
{
    if top <= level {
        Seq::empty()
    } else {
        at_score(c, top) + band(c, (top - 1) as nat, level)
    }
}

/// The highest score, 0 for none.
pub open spec fn max_score(c: Seq<(Seq<char>, nat)>) -> nat
    decreases c.len(),
{
    if c.len() == 0 {
        0
    } else {
        let m = max_score(c.drop_last());
        if c.last().1 > m {
            c.last().1
        } else {
            m
        }
    }
}

/// The documents by descending score; equal scores in order of first
/// posting.
pub open spec fn ranked(c: Seq<(Seq<char>, nat)>) -> Seq<Seq<char>> {
    band(c, max_score(c), 0)
}

/// The result of a full-text search of a collection: for a query without
/// words every live document; else the live documents with a posting of a
/// query word, by descending score (see `ranked`).
pub open spec fn search_docs(cv: CollView, query: Seq<char>) -> Seq<DocView> {
    let ws = words(query);
    if ws.len() == 0 {
        keep(cv.docs, is_live())
    } else {
        ids_docs(cv.docs, ranked(scored(cv.postings, ws)), None)
    }
}

proof fn lemma_band_step(c: Seq<(Seq<char>, nat)>, top: nat, level: nat)
    requires
        1 <= level <= top,
    ensures
        band(c, top, (level - 1) as nat) == band(c, top, level) + at_score(c, level),
    decreases top,
{
    if top == level {
        assert(band(c, (top - 1) as nat, (level - 1) as nat) =~= Seq::<Seq<char>>::empty());
        assert(band(c, top, (level - 1) as nat) =~= at_score(c, top));
        assert(band(c, top, level) =~= Seq::<Seq<char>>::empty());
    } else {
        lemma_band_step(c, (top - 1) as nat, level);
        assert(band(c, top, (level - 1) as nat) =~= at_score(c, top) + band(c, (top - 1) as nat, (level - 1) as nat));
    }
}

proof fn lemma_ids_docs_append(docs: Seq<DocView>, a: Seq<Seq<char>>, b: Seq<Seq<char>>, check: Option<(Seq<char>, Seq<char>)>)
    ensures
        ids_docs(docs, a + b, check) == ids_docs(docs, a, check) + ids_docs(docs, b, check),
    decreases b.len(),
{
    if b.len() == 0 {
        assert(a + b =~= a);
        assert(ids_docs(docs, a, check) + ids_docs(docs, b, check) =~= ids_docs(docs, a, check));
    } else {
        assert((a + b).drop_last() =~= a + b.drop_last());
        assert((a + b).last() == b.last());
        lemma_ids_docs_append(docs, a, b.drop_last(), check);
    }
}

proof fn lemma_score_bound(pv: Seq<(Seq<char>, Seq<char>, Seq<char>)>, ws: Seq<Seq<char>>, id: Seq<char>)
    ensures
        score(pv, ws, id) <= ws.len() * pv.len(),
    decreases ws.len(),
{
    if ws.len() > 0 {
        lemma_score_bound(pv, ws.drop_last(), id);
        crate::seqs::lemma_keep_len(pv, word_of_id(ws.last(), id));
        let k = ws.len() - 1;
        assert(k * pv.len() + pv.len() == ws.len() * pv.len()) by (nonlinear_arith)
            requires
                k == ws.len() - 1,
        ;
    }
}

/// The number of postings with the word `w` and the document `id`.
fn count_hits(postings: &Vec<Posting>, w: &str, id: &str) -> (r: usize)
    ensures
        r == keep(postings_view(postings@), word_of_id(w@, id@)).len(),
{
    let ghost pv = postings_view(postings@);
    let mut n: usize = 0;
    let mut j: usize = 0;
    while j < postings.len()
        invariant
            j <= postings@.len(),
            pv == postings_view(postings@),
            n == keep(pv.subrange(0, j as int), word_of_id(w@, id@)).len(),
            n <= j,
        decreases postings.len() - j,
    {
        proof {
            lemma_keep_step(pv, word_of_id(w@, id@), j as int);
        }
        assert(pv[j as int] == (postings@[j as int].0@, postings@[j as int].1@, postings@[j as int].2@));
        if str_eq(postings[j].1.as_str(), w) && str_eq(postings[j].2.as_str(), id) {
            n = n + 1;
        }
        j = j + 1;
    }
    assert(pv.subrange(0, pv.len() as int) =~= pv);
    n
}

/// The score of the document `id` (see `score`).
fn score_of(postings: &Vec<Posting>, ws: &Vec<String>, id: &str) -> (r: u128)
    ensures
        r == score(postings_view(postings@), views(ws@), id@),
{
    let ghost pv = postings_view(postings@);
    let ghost wv = views(ws@);
    let mut total: u128 = 0;
    let mut k: usize = 0;
    while k < ws.len()
        invariant
            k <= ws@.len(),
            pv == postings_view(postings@),
            wv == views(ws@),
            total == score(pv, wv.subrange(0, k as int), id@),
        decreases ws.len() - k,
    {
        let ghost sub = wv.subrange(0, k + 1);
        assert(sub.drop_last() =~= wv.subrange(0, k as int));
        assert(sub.last() == ws@[k as int]@);
        let plen = postings.len();
        proof {
            lemma_score_bound(pv, wv.subrange(0, k as int), id@);
            crate::seqs::lemma_keep_len(pv, word_of_id(sub.last(), id@));
            assert(pv.len() == plen);
            assert(wv.subrange(0, k as int).len() == k);
            let n = pv.len();
            assert((k as int) * n + n <= 0x1_0000_0000_0000_0000 * 0xffff_ffff_ffff_ffff) by (nonlinear_arith)
                requires
                    k < 0x1_0000_0000_0000_0000,
                    n <= 0xffff_ffff_ffff_ffff,
            ;
        }
        let h = count_hits(postings, ws[k].as_str(), id);
        total = total + h as u128;
        k = k + 1;
    }
    assert(wv.subrange(0, wv.len() as int) =~= wv);
    total
}

} // verus!

verus! {

/// The plain value of a list of scored documents.
pub open spec fn cand_view(c: Seq<(String, u128)>) -> Seq<(Seq<char>, nat)> {
    c.map_values(|e: (String, u128)| (e.0@, e.1 as nat))
}

/// Whether `id` is among the scored documents.
fn has_cand(cands: &Vec<(String, u128)>, id: &str) -> (r: bool)
    ensures
        r == ids_of(cand_view(cands@)).contains(id@),
{
    let ghost iv = ids_of(cand_view(cands@));
    let mut j: usize = 0;
    while j < cands.len()
        invariant
            j <= cands@.len(),
            iv == ids_of(cand_view(cands@)),
            forall|k: int| 0 <= k < j ==> iv[k] != id@,
        decreases cands.len() - j,
    {
        assert(iv[j as int] == cands@[j as int].0@);
        if str_eq(cands[j].0.as_str(), id) {
            return true;
        }
        j = j + 1;
    }
    false
}

/// The scored documents of a search (see `scored`).
fn score_candidates(postings: &Vec<Posting>, ws: &Vec<String>) -> (r: Vec<(String, u128)>)
    ensures
        cand_view(r@) == scored(postings_view(postings@), views(ws@)),
{
    let ghost pv = postings_view(postings@);
    let ghost wv = views(ws@);
    let mut cands: Vec<(String, u128)> = Vec::new();
    let mut i: usize = 0;
    assert(cand_view(cands@) =~= distinct(posting_ids(keep(pv.subrange(0, 0), of_words(wv)))).map_values(with_score(pv, wv)));
    while i < postings.len()
        invariant
            i <= postings@.len(),
            pv == postings_view(postings@),
            wv == views(ws@),
            cand_view(cands@) == distinct(posting_ids(keep(pv.subrange(0, i as int), of_words(wv)))).map_values(with_score(pv, wv)),
        decreases postings.len() - i,
    {
        proof {
            lemma_keep_step(pv, of_words(wv), i as int);
        }
        let ghost kept = keep(pv.subrange(0, i as int), of_words(wv));
        let ghost d = distinct(posting_ids(kept));
        assert(pv[i as int] == (postings@[i as int].0@, postings@[i as int].1@, postings@[i as int].2@));
        assert(ids_of(cand_view(cands@)) =~= d);
        if crate::text::contains_str(ws, postings[i].1.as_str()) {
            assert(posting_ids(kept.push(pv[i as int])) =~= posting_ids(kept).push(pv[i as int].2));
            assert(posting_ids(kept.push(pv[i as int])).drop_last() =~= posting_ids(kept));
            if !has_cand(&cands, postings[i].2.as_str()) {
                let sc = score_of(postings, ws, postings[i].2.as_str());
                let ghost before = cand_view(cands@);
                cands.push((postings[i].2.clone(), sc));
                assert(cand_view(cands@) =~= before.push((pv[i as int].2, sc as nat)));
                assert(d.push(pv[i as int].2).map_values(with_score(pv, wv)) =~= d.map_values(with_score(pv, wv)).push(with_score(pv, wv)(pv[i as int].2)));
            }
        }
        i = i + 1;
    }
    assert(pv.subrange(0, pv.len() as int) =~= pv);
    cands
}

/// The highest score among the scored documents.
fn top_score(cands: &Vec<(String, u128)>) -> (r: u128)
    ensures
        r == max_score(cand_view(cands@)),
{
    let ghost c = cand_view(cands@);
    let mut top: u128 = 0;
    let mut j: usize = 0;
    while j < cands.len()
        invariant
            j <= cands@.len(),
            c == cand_view(cands@),
            top == max_score(c.subrange(0, j as int)),
        decreases cands.len() - j,
    {
        assert(c.subrange(0, j + 1).drop_last() =~= c.subrange(0, j as int));
        assert(c[j as int] == (cands@[j as int].0@, cands@[j as int].1 as nat));
        if cands[j].1 > top {
            top = cands[j].1;
        }
        j = j + 1;
    }
    assert(c.subrange(0, c.len() as int) =~= c);
    top
}

impl Cassette {
    /// Full-text search of the collection `collection` (see
    /// `search_docs`); none for a missing collection.
    pub fn search(&self, collection: &str, query: &str) -> (r: Result<Vec<&Document>, DbError>)
        ensures
            r is Ok,
            ref_views(r->Ok_0@) == match coll_of(self@, collection@) {
                Some(cv) => search_docs(cv, query@),
                None => Seq::empty(),
            },
    {
        let i = self.coll_pos(collection);
        proof {
            crate::seqs::lemma_position_find(self@.collections, coll_named(collection@));
        }
        if i == self.collections.len() {
            let out: Vec<&Document> = Vec::new();
            assert(ref_views(out@) =~= Seq::<DocView>::empty());
            return Ok(out);
        }
        let coll = &self.collections[i];
        let ws = words_of(query);
        if ws.len() == 0 {
            return Ok(live_refs(&coll.documents));
        }
        let cands = score_candidates(&coll.inverted_index, &ws);
        let ghost c = cand_view(cands@);
        let ghost dv = doc_views(coll.documents@);
        let top = top_score(&cands);
        let mut out: Vec<&Document> = Vec::new();
        let mut level: u128 = top;
        assert(band(c, top as nat, top as nat) =~= Seq::<Seq<char>>::empty());
        assert(ref_views(out@) =~= ids_docs(dv, band(c, top as nat, level as nat), None));
        while level > 0
            invariant
                level <= top,
                c == cand_view(cands@),
                dv == doc_views(coll.documents@),
                ref_views(out@) == ids_docs(dv, band(c, top as nat, level as nat), None),
            decreases level,
        {
            let ghost base = band(c, top as nat, level as nat);
            let mut j: usize = 0;
            assert(ids_of(keep(c.subrange(0, 0), has_score(level as nat))) =~= Seq::<Seq<char>>::empty());
            assert(base + Seq::<Seq<char>>::empty() =~= base);
            while j < cands.len()
                invariant
                    j <= cands@.len(),
                    c == cand_view(cands@),
                    dv == doc_views(coll.documents@),
                    base == band(c, top as nat, level as nat),
                    ref_views(out@) == ids_docs(dv, base + ids_of(keep(c.subrange(0, j as int), has_score(level as nat))), None),
                decreases cands.len() - j,
            {
                proof {
                    lemma_keep_step(c, has_score(level as nat), j as int);
                }
                let ghost k = keep(c.subrange(0, j as int), has_score(level as nat));
                assert(c[j as int] == (cands@[j as int].0@, cands@[j as int].1 as nat));
                if cands[j].1 == level {
                    let ghost before = ref_views(out@);
                    let ghost ids1 = base + ids_of(k.push(c[j as int]));
                    assert(ids1 =~= (base + ids_of(k)).push(c[j as int].0));
                    assert(ids1.drop_last() =~= base + ids_of(k));
                    match first_live(&coll.documents, cands[j].0.as_str()) {
                        Some(d) => {
                            out.push(d);
                            assert(ref_views(out@) =~= before + seq![d@]);
                        },
                        None => {
                            assert(ref_views(out@) =~= before + Seq::<DocView>::empty());
                        },
                    }
                }
                j = j + 1;
            }
            assert(c.subrange(0, c.len() as int) =~= c);
            proof {
                lemma_band_step(c, top as nat, level as nat);
            }
            level = level - 1;
        }
        Ok(out)
    }
}

} // verus!

verus! {

/// The value in the library's type, variant for variant: a number as the
/// text that serde_json's `Number::to_string` writes, an object's fields in
/// serde_json's order.  Nothing is claimed of the result.
#[verifier::external_body]
fn from_serde(v: &serde_json::Value) -> JsonValue {
    match v {
        serde_json::Value::Null => JsonValue::Null,
        serde_json::Value::Bool(b) => JsonValue::Bool(*b),
        serde_json::Value::Number(n) => JsonValue::Number(n.to_string()),
        serde_json::Value::String(s) => JsonValue::String(s.clone()),
        serde_json::Value::Array(a) => JsonValue::Array(a.iter().map(from_serde).collect()),
        serde_json::Value::Object(m) => JsonValue::Object(m.iter().map(|(k, x)| (k.clone(), from_serde(x))).collect()),
    }
}

/// What a JSONPath expression selects from a value, or nothing when the
/// expression does not parse.
pub uninterp spec fn jsonpath_result(data: Json, path: Seq<char>) -> Option<Json>;

/// jsonpath_rust `JsonPathQuery::path` on a copy of the value in
/// serde_json's type, the result converted back; a parse error gives
/// nothing.  The result is named (`jsonpath_result`), not stated.  The
/// evaluator panics on some array indexes (a union index that is not a
/// non-negative `i64`, a single index beyond `i64`, a zero slice step), so
/// the expression must pass the index check of `path_check`.
#[verifier::external_body]
fn jsonpath_select(data: &JsonValue, path: &str) -> (r: Option<JsonValue>)
    requires
        jsonpath_index_safe(path@),
    ensures
        match r {
            Some(v) => jsonpath_result(data@, path@) == Some(v@),
            None => jsonpath_result(data@, path@) is None,
        },
{
    match to_serde(data).path(path) {
        Ok(v) => Some(from_serde(&v)),
        Err(_) => None,
    }
}

/// Whether a JSONPath result selects something: a value other than null,
/// and not an empty array.
pub open spec fn selects(r: Option<Json>) -> bool {
    match r {
        Some(Json::Null) => false,
        Some(Json::Array(items)) => items.len() > 0,
        Some(_) => true,
        None => false,
    }
}

/// Whether a live document's data gives a JSONPath expression a selection.
pub open spec fn path_selects(path: Seq<char>) -> spec_fn(DocView) -> bool {
    |d: DocView| !d.deleted && selects(jsonpath_result(d.data, path))
}

/// Whether some document of `docs` is live.
pub open spec fn has_live(docs: Seq<DocView>) -> bool {
    exists|j: int| 0 <= j < docs.len() && !(#[trigger] docs[j]).deleted
}

/// Whether a JSONPath result selects something (see `selects`).
pub fn selection_found(r: &Option<JsonValue>) -> (b: bool)
    ensures
        b == selects(match r {
            Some(v) => Some(v@),
            None => None,
        }),
{
    match r {
        Some(JsonValue::Null) => false,
        Some(JsonValue::Array(items)) => {
            proof {
                crate::json::lemma_items_view(items@, items@.len() as int);
            }
            items.len() > 0
        },
        Some(_) => true,
        None => false,
    }
}

impl Cassette {
    /// The live documents of the collection `collection` from whose data a
    /// JSONPath expression selects something; none for a missing collection.
    /// An expression that fails the index check of `path_check` is refused
    /// when there is a live document to evaluate it on.
    pub fn query_jsonpath(&self, collection: &str, path: &str) -> (r: Result<Vec<&Document>, DbError>)
        ensures
            r is Err <==> match coll_of(self@, collection@) {
                Some(cv) => has_live(cv.docs) && !jsonpath_index_safe(path@),
                None => false,
            },
            r matches Err(e) ==> e is UnsupportedPath,
            r is Ok ==> ref_views(r->Ok_0@) == match coll_of(self@, collection@) {
                Some(cv) => keep(cv.docs, path_selects(path@)),
                None => Seq::empty(),
            },
    {
        let safe = index_safe(path);
        let i = self.coll_pos(collection);
        proof {
            crate::seqs::lemma_position_find(self@.collections, coll_named(collection@));
        }
        let mut out: Vec<&Document> = Vec::new();
        if i == self.collections.len() {
            assert(ref_views(out@) =~= Seq::<DocView>::empty());
            return Ok(out);
        }
        let docs = &self.collections[i].documents;
        let ghost dv = doc_views(docs@);
        let mut k: usize = 0;
        while k < docs.len()
            invariant
                k <= docs@.len(),
                dv == doc_views(docs@),
                ref_views(out@) == keep(dv.subrange(0, k as int), path_selects(path@)),
                safe == jsonpath_index_safe(path@),
                !safe ==> forall|j: int| 0 <= j < k ==> (#[trigger] dv[j]).deleted,
                coll_of(self@, collection@) matches Some(cv) && cv.docs == dv,
            decreases docs.len() - k,
        {
            proof {
                lemma_keep_step(dv, path_selects(path@), k as int);
            }
            assert(dv[k as int] == docs@[k as int]@);
            if !docs[k].deleted {
                if !safe {
                    assert(!dv[k as int].deleted);
                    return Err(DbError::UnsupportedPath);
                }
                let sel = jsonpath_select(&docs[k].data, path);
                if selection_found(&sel) {
                    let ghost before = ref_views(out@);
                    out.push(&docs[k]);
                    assert(ref_views(out@) =~= before.push(dv[k as int]));
                }
            }
            k = k + 1;
        }
        assert(dv.subrange(0, dv.len() as int) =~= dv);
        Ok(out)
    }
}

} // verus!

verus! {

/// The database `n` after inserting `data` into the collection
/// `collection` of `c`, under some new ID and timestamps.
pub open spec fn insert_outcome(c: CassetteView, collection: Seq<char>, data: Json, n: CassetteView) -> bool {
    exists|d: DocView| d.data == data && !d.deleted && n == #[trigger] inserted(c, collection, d)
}

/// The database `n` after updating the document `id` of the collection
/// `collection` of `c` with `data` (see `Cassette::update`).
pub open spec fn update_outcome(c: CassetteView, collection: Seq<char>, id: Seq<char>, data: Json, n: CassetteView) -> bool {
    let cs = c.collections;
    let i = crate::seqs::position(cs, coll_named(collection));
    if i == cs.len() {
        n == c
    } else {
        let p = crate::seqs::position(cs[i].docs, doc_with_id(id));
        if p == cs[i].docs.len() || cs[i].docs[p].deleted {
            n == c
        } else {
            n == CassetteView {
                collections: cs.update(i, updated_coll(cs[i], p, data, n.collections[i].docs[p].updated_at)),
                ..c
            }
        }
    }
}

/// The database `n` after deleting the document `id` of the collection
/// `collection` of `c` (see `Cassette::delete`).
pub open spec fn delete_outcome(c: CassetteView, collection: Seq<char>, id: Seq<char>, n: CassetteView) -> bool {
    let cs = c.collections;
    let i = crate::seqs::position(cs, coll_named(collection));
    if i == cs.len() {
        n == c
    } else {
        let p = crate::seqs::position(cs[i].docs, doc_with_id(id));
        if p == cs[i].docs.len() {
            n == c
        } else {
            n == CassetteView {
                collections: cs.update(
                    i,
                    CollView {
                        docs: cs[i].docs.update(
                            p,
                            DocView { deleted: true, updated_at: n.collections[i].docs[p].updated_at, ..cs[i].docs[p] },
                        ),
                        ..cs[i]
                    },
                ),
                ..c
            }
        }
    }
}

impl Cassette {
    /// Applies a recovered log entry: an insert, update or delete changes
    /// the database as those operations do (their errors are ignored); any
    /// other entry changes nothing.
    pub fn apply_entry(&mut self, entry: crate::wal::WalEntry)
        ensures
            match entry {
                crate::wal::WalEntry::Insert { collection, doc, .. } => insert_outcome(old(self)@, collection@, doc@, final(self)@),
                crate::wal::WalEntry::Update { collection, id, doc, .. } => update_outcome(old(self)@, collection@, id@, doc@, final(self)@),
                crate::wal::WalEntry::Delete { collection, id, .. } => delete_outcome(old(self)@, collection@, id@, final(self)@),
                _ => final(self)@ == old(self)@,
            },
    {
        match entry {
            crate::wal::WalEntry::Insert { collection, doc, .. } => {
                let _ = self.insert(collection.as_str(), doc);
            },
            crate::wal::WalEntry::Update { collection, id, doc, .. } => {
                let _ = self.update(collection.as_str(), id.as_str(), doc);
            },
            crate::wal::WalEntry::Delete { collection, id, .. } => {
                let _ = self.delete(collection.as_str(), id.as_str());
            },
            _ => {},
        }
    }
}

} // verus!

verus! {

fn copy_postings(ps: &Vec<Posting>) -> (r: Vec<Posting>)
    ensures
        postings_view(r@) == postings_view(ps@),
{
    let mut out: Vec<Posting> = Vec::new();
    let mut i: usize = 0;
    while i < ps.len()
        invariant
            i <= ps@.len(),
            postings_view(out@) == postings_view(ps@).subrange(0, i as int),
        decreases ps.len() - i,
    {
        let ghost before = postings_view(out@);
        out.push((ps[i].0.clone(), ps[i].1.clone(), ps[i].2.clone()));
        assert(postings_view(out@) =~= before.push(postings_view(ps@)[i as int]));
        assert(postings_view(ps@).subrange(0, i + 1) =~= postings_view(ps@).subrange(0, i as int).push(postings_view(ps@)[i as int]));
        i = i + 1;
    }
    assert(postings_view(ps@).subrange(0, i as int) =~= postings_view(ps@));
    out
}

fn copy_index(idx: &SecondaryIndex) -> (r: SecondaryIndex)
    ensures
        entries_view(r@) == entries_view(idx@),
{
    let mut out: SecondaryIndex = Vec::new();
    let mut i: usize = 0;
    while i < idx.len()
        invariant
            i <= idx@.len(),
            entries_view(out@) == entries_view(idx@).subrange(0, i as int),
        decreases idx.len() - i,
    {
        let ghost before = entries_view(out@);
        out.push((idx[i].0.clone(), crate::text::clone_strings(&idx[i].1)));
        assert(entries_view(out@) =~= before.push(entries_view(idx@)[i as int]));
        assert(entries_view(idx@).subrange(0, i + 1) =~= entries_view(idx@).subrange(0, i as int).push(entries_view(idx@)[i as int]));
        i = i + 1;
    }
    assert(entries_view(idx@).subrange(0, i as int) =~= entries_view(idx@));
    out
}

impl Collection {
    /// A copy of this collection.
    pub fn copy(&self) -> (r: Collection)
        ensures
            r@ == self@,
    {
        let mut docs: Vec<Document> = Vec::new();
        let mut i: usize = 0;
        while i < self.documents.len()
            invariant
                i <= self.documents@.len(),
                doc_views(docs@) == doc_views(self.documents@).subrange(0, i as int),
            decreases self.documents.len() - i,
        {
            let ghost before = doc_views(docs@);
            docs.push(self.documents[i].copy());
            assert(doc_views(docs@) =~= before.push(doc_views(self.documents@)[i as int]));
            assert(doc_views(self.documents@).subrange(0, i + 1) =~= doc_views(self.documents@).subrange(0, i as int).push(
                doc_views(self.documents@)[i as int],
            ));
            i = i + 1;
        }
        assert(doc_views(self.documents@).subrange(0, i as int) =~= doc_views(self.documents@));
        let mut sec: Vec<(String, SecondaryIndex)> = Vec::new();
        let mut j: usize = 0;
        while j < self.secondary_indexes.len()
            invariant
                j <= self.secondary_indexes@.len(),
                secondary_view(sec@) == secondary_view(self.secondary_indexes@).subrange(0, j as int),
            decreases self.secondary_indexes.len() - j,
        {
            let ghost before = secondary_view(sec@);
            sec.push((self.secondary_indexes[j].0.clone(), copy_index(&self.secondary_indexes[j].1)));
            assert(secondary_view(sec@) =~= before.push(secondary_view(self.secondary_indexes@)[j as int]));
            assert(secondary_view(self.secondary_indexes@).subrange(0, j + 1) =~= secondary_view(
                self.secondary_indexes@,
            ).subrange(0, j as int).push(secondary_view(self.secondary_indexes@)[j as int]));
            j = j + 1;
        }
        assert(secondary_view(self.secondary_indexes@).subrange(0, j as int) =~= secondary_view(self.secondary_indexes@));
        Collection {
            name: self.name.clone(),
            documents: docs,
            inverted_index: copy_postings(&self.inverted_index),
            secondary_indexes: sec,
        }
    }
}

impl Cassette {
    /// A copy of this database.
    pub fn copy(&self) -> (r: Cassette)
        ensures
            r@ == self@,
    {
        let mut cs: Vec<Collection> = Vec::new();
        let mut i: usize = 0;
        while i < self.collections.len()
            invariant
                i <= self.collections@.len(),
                coll_views(cs@) == coll_views(self.collections@).subrange(0, i as int),
            decreases self.collections.len() - i,
        {
            let ghost before = coll_views(cs@);
            cs.push(self.collections[i].copy());
            assert(coll_views(cs@) =~= before.push(coll_views(self.collections@)[i as int]));
            assert(coll_views(self.collections@).subrange(0, i + 1) =~= coll_views(self.collections@).subrange(0, i as int).push(
                coll_views(self.collections@)[i as int],
            ));
            i = i + 1;
        }
        assert(coll_views(self.collections@).subrange(0, i as int) =~= coll_views(self.collections@));
        let mut meta: Vec<(String, String)> = Vec::new();
        let mut k: usize = 0;
        let ghost mv = self@.meta;
        while k < self.meta.len()
            invariant
                k <= self.meta@.len(),
                mv == self@.meta,
                meta@.map_values(|m: (String, String)| (m.0@, m.1@)) == mv.subrange(0, k as int),
            decreases self.meta.len() - k,
        {
            let ghost before = meta@.map_values(|m: (String, String)| (m.0@, m.1@));
            meta.push((self.meta[k].0.clone(), self.meta[k].1.clone()));
            assert(meta@.map_values(|m: (String, String)| (m.0@, m.1@)) =~= before.push(mv[k as int]));
            assert(mv.subrange(0, k + 1) =~= mv.subrange(0, k as int).push(mv[k as int]));
            k = k + 1;
        }
        assert(mv.subrange(0, k as int) =~= mv);
        Cassette { version: self.version, collections: cs, meta }
    }
}

} // verus!

verus! {

/// A document just inserted under an ID that no live document of its
/// collection had is what a read of that ID gives back.
pub proof fn lemma_inserted_document_found(c: CassetteView, name: Seq<char>, d: DocView)
    requires
        !d.deleted,
        match coll_of(c, name) {
            Some(cv) => find_first(cv.docs, live_with_id(d.id)) is None,
            None => true,
        },
    ensures
        match coll_of(inserted(c, name, d), name) {
            Some(cv) => find_first(cv.docs, live_with_id(d.id)) == Some(d),
            None => false,
        },
{
    let cs = c.collections;
    let i = crate::seqs::position(cs, coll_named(name));
    crate::seqs::lemma_position_find(cs, coll_named(name));
    let n = inserted(c, name, d).collections;
    if i < cs.len() {
        let docs = cs[i].docs;
        crate::seqs::lemma_find_some_iff(docs, live_with_id(d.id));
        assert(n == cs.update(i, add_doc(cs[i], d)));
        assert forall|j: int| 0 <= j < i implies !coll_named(name)(#[trigger] n[j]) by {
            assert(n[j] == cs[j]);
        }
        crate::seqs::lemma_position(n, coll_named(name), i);
        let nd = docs.push(d);
        assert forall|j: int| 0 <= j < docs.len() implies !live_with_id(d.id)(#[trigger] nd[j]) by {
            assert(nd[j] == docs[j]);
            if live_with_id(d.id)(docs[j]) {
                assert(exists|k: int| 0 <= k < docs.len() && live_with_id(d.id)(#[trigger] docs[k]));
            }
        }
        lemma_find_at(nd, live_with_id(d.id), docs.len() as int);
    } else {
        assert(n == cs.push(add_doc(empty_coll(name), d)));
        assert forall|j: int| 0 <= j < cs.len() implies !coll_named(name)(#[trigger] n[j]) by {
            assert(n[j] == cs[j]);
        }
        crate::seqs::lemma_position(n, coll_named(name), cs.len() as int);
        let nd = Seq::<DocView>::empty().push(d);
        lemma_find_at(nd, live_with_id(d.id), 0);
    }
}

/// After an update of a live document, a read of its ID gives the new
/// data.
pub proof fn lemma_updated_document_read_back(c: CassetteView, name: Seq<char>, id: Seq<char>, data: Json, t: Seq<char>)
    requires
        ({
            let i = crate::seqs::position(c.collections, coll_named(name));
            &&& i < c.collections.len()
            &&& crate::seqs::position(c.collections[i].docs, doc_with_id(id)) < c.collections[i].docs.len()
            &&& !c.collections[i].docs[crate::seqs::position(c.collections[i].docs, doc_with_id(id))].deleted
        }),
    ensures
        ({
            let i = crate::seqs::position(c.collections, coll_named(name));
            let p = crate::seqs::position(c.collections[i].docs, doc_with_id(id));
            let n = CassetteView { collections: c.collections.update(i, updated_coll(c.collections[i], p, data, t)), ..c };
            match coll_of(n, name) {
                Some(cv) => match find_first(cv.docs, live_with_id(id)) {
                    Some(d) => d.data == data && d.updated_at == t,
                    None => false,
                },
                None => false,
            }
        }),
{
    let cs = c.collections;
    let i = crate::seqs::position(cs, coll_named(name));
    crate::seqs::lemma_position_find(cs, coll_named(name));
    let docs = cs[i].docs;
    let p = crate::seqs::position(docs, doc_with_id(id));
    crate::seqs::lemma_position_find(docs, doc_with_id(id));
    let uc = updated_coll(cs[i], p, data, t);
    let n = cs.update(i, uc);
    assert forall|j: int| 0 <= j < i implies !coll_named(name)(#[trigger] n[j]) by {
        assert(n[j] == cs[j]);
    }
    crate::seqs::lemma_position(n, coll_named(name), i);
    assert forall|j: int| 0 <= j < p implies !live_with_id(id)(#[trigger] uc.docs[j]) by {
        assert(uc.docs[j] == docs[j]);
        assert(!doc_with_id(id)(docs[j]));
    }
    lemma_find_at(uc.docs, live_with_id(id), p);
}

/// Compacting keeps the live documents, in order, and only them.
pub proof fn lemma_compact_keeps_live_documents(cv: CollView)
    ensures
        compacted(cv).docs == keep(cv.docs, is_live()),
        forall|j: int| 0 <= j < compacted(cv).docs.len() ==> !(#[trigger] compacted(cv).docs[j]).deleted,
{
    lemma_keep_all_live(cv.docs);
}

proof fn lemma_keep_all_live(s: Seq<DocView>)
    ensures
        forall|j: int| 0 <= j < keep(s, is_live()).len() ==> !(#[trigger] keep(s, is_live())[j]).deleted,
    decreases s.len(),
{
    if s.len() > 0 {
        lemma_keep_all_live(s.drop_last());
        let k = keep(s.drop_last(), is_live());
        if is_live()(s.last()) {
            assert forall|j: int| 0 <= j < k.len() + 1 implies !(#[trigger] k.push(s.last())[j]).deleted by {
                if j < k.len() {
                    assert(k.push(s.last())[j] == k[j]);
                }
            }
        }
    }
}

/// Whether the keys of a secondary index are in strictly ascending order.
pub open spec fn keys_ascending(idx: Seq<(Seq<char>, Seq<Seq<char>>)>) -> bool {
    forall|a: int, b: int| 0 <= a < b < idx.len() ==> lex_lt(#[trigger] idx[a].0, #[trigger] idx[b].0)
}

proof fn lemma_seek_bounds(idx: Seq<(Seq<char>, Seq<Seq<char>>)>, key: Seq<char>)
    ensures
        0 <= seek(idx, key) <= idx.len(),
        forall|j: int| 0 <= j < seek(idx, key) ==> lex_lt(#[trigger] idx[j].0, key),
        seek(idx, key) < idx.len() ==> !lex_lt(idx[seek(idx, key)].0, key),
    decreases idx.len(),
{
    if idx.len() > 0 && lex_lt(idx[0].0, key) {
        lemma_seek_bounds(idx.drop_first(), key);
        assert forall|j: int| 0 <= j < seek(idx, key) implies lex_lt(#[trigger] idx[j].0, key) by {
            if j > 0 {
                assert(idx[j] == idx.drop_first()[j - 1]);
            }
        }
    }
}

/// Adding an ID keeps the keys of a secondary index in strictly ascending
/// order, the order in which a sorted map lists them.
pub proof fn lemma_add_entry_keeps_keys_ascending(idx: Seq<(Seq<char>, Seq<Seq<char>>)>, key: Seq<char>, id: Seq<char>)
    requires
        keys_ascending(idx),
    ensures
        keys_ascending(add_entry(idx, key, id)),
{
    lemma_seek_bounds(idx, key);
    let i = seek(idx, key);
    let n = add_entry(idx, key, id);
    if i < idx.len() && idx[i].0 == key {
        assert forall|a: int, b: int| 0 <= a < b < n.len() implies lex_lt(#[trigger] n[a].0, #[trigger] n[b].0) by {
            assert(n[a].0 == idx[a].0 && n[b].0 == idx[b].0);
        }
    } else {
        if i < idx.len() {
            crate::text::lemma_lex_total(idx[i].0, key);
        }
        assert forall|a: int, b: int| 0 <= a < b < n.len() implies lex_lt(#[trigger] n[a].0, #[trigger] n[b].0) by {
            if b < i {
                assert(n[a] == idx[a] && n[b] == idx[b]);
            } else if b == i {
                assert(n[b].0 == key);
                assert(n[a] == idx[a]);
            } else if a < i {
                assert(n[a] == idx[a] && n[b] == idx[b - 1]);
                crate::text::lemma_lex_transitive(idx[a].0, key, idx[i].0);
                if b - 1 > i {
                    crate::text::lemma_lex_transitive(idx[a].0, idx[i].0, idx[b - 1].0);
                }
            } else if a == i {
                assert(n[a].0 == key && n[b] == idx[b - 1]);
                if b - 1 > i {
                    crate::text::lemma_lex_transitive(key, idx[i].0, idx[b - 1].0);
                }
            } else {
                assert(n[a] == idx[a - 1] && n[b] == idx[b - 1]);
            }
        }
    }
}

/// Removing an ID keeps the keys of a secondary index in strictly
/// ascending order.
pub proof fn lemma_remove_entry_keeps_keys_ascending(idx: Seq<(Seq<char>, Seq<Seq<char>>)>, key: Seq<char>, id: Seq<char>)
    requires
        keys_ascending(idx),
    ensures
        keys_ascending(remove_entry(idx, key, id)),
{
    let i = seek(idx, key);
    let n = remove_entry(idx, key, id);
    lemma_seek_bounds(idx, key);
    if i < idx.len() && idx[i].0 == key {
        let rest = keep(idx[i].1, other_than(id));
        if rest.len() == 0 {
            assert forall|a: int, b: int| 0 <= a < b < n.len() implies lex_lt(#[trigger] n[a].0, #[trigger] n[b].0) by {
                let a2 = if a < i { a } else { a + 1 };
                let b2 = if b < i { b } else { b + 1 };
                assert(n[a] == idx[a2] && n[b] == idx[b2]);
            }
        } else {
            assert forall|a: int, b: int| 0 <= a < b < n.len() implies lex_lt(#[trigger] n[a].0, #[trigger] n[b].0) by {
                assert(n[a].0 == idx[a].0 && n[b].0 == idx[b].0);
            }
        }
    }
}

} // verus!
