//! Documents of the engine: a unique ID, a JSON payload and metadata.
use vstd::prelude::*;
use crate::json::{Json, JsonValue};

verus! {

/// A document stored by the engine.
#[derive(Debug, Clone)]
pub struct Document {
    /// Unique document identifier (a UUID v4 for new documents).
    pub id: String,
    /// User-defined JSON payload.
    pub data: JsonValue,
    /// Internal metadata.
    pub meta: Vec<(String, JsonValue)>,
}

/// The plain value of a document.
pub struct DocumentView {
    pub id: Seq<char>,
    pub data: Json,
    pub meta: Seq<(Seq<char>, Json)>,
}

impl View for Document {
    type V = DocumentView;

    open spec fn view(&self) -> DocumentView {
        DocumentView {
            id: self.id@,
            data: self.data@,
            meta: self.meta@.map_values(|m: (String, JsonValue)| (m.0@, m.1@)),
        }
    }
}

/// uuid `Uuid::new_v4().to_string()`: a random UUID in hyphenated form,
/// which has 36 characters.
#[verifier::external_body]
fn new_uuid() -> (r: String)
    ensures
        r@.len() == 36,
{
    uuid::Uuid::new_v4().to_string()
}

impl Document {
    /// A document with a new random ID and no metadata.
    pub fn new(data: JsonValue) -> (r: Self)
        ensures
            r.data == data,
            r.id@.len() == 36,
            r.meta@.len() == 0,
    {
        Document { id: new_uuid(), data, meta: Vec::new() }
    }

    /// A document with the given ID and no metadata.
    pub fn with_id(id: String, data: JsonValue) -> (r: Self)
        ensures
            r.id == id,
            r.data == data,
            r.meta@.len() == 0,
    {
        Document { id, data, meta: Vec::new() }
    }

    /// A copy of this document.
    pub fn copy(&self) -> (r: Self)
        ensures
            r@ == self@,
    {
        let mut meta: Vec<(String, JsonValue)> = Vec::new();
        let mut i: usize = 0;
        let ghost mv = self@.meta;
        while i < self.meta.len()
            invariant
                i <= self.meta@.len(),
                mv == self@.meta,
                meta@.map_values(|m: (String, JsonValue)| (m.0@, m.1@)) == mv.subrange(0, i as int),
            decreases self.meta.len() - i,
        {
            let ghost before = meta@.map_values(|m: (String, JsonValue)| (m.0@, m.1@));
            meta.push((self.meta[i].0.clone(), self.meta[i].1.copy()));
            assert(meta@.map_values(|m: (String, JsonValue)| (m.0@, m.1@)) =~= before.push(mv[i as int]));
            assert(mv.subrange(0, i + 1) =~= mv.subrange(0, i as int).push(mv[i as int]));
            i = i + 1;
        }
        assert(mv.subrange(0, i as int) =~= mv);
        Document { id: self.id.clone(), data: self.data.copy(), meta }
    }
}

} // verus!
