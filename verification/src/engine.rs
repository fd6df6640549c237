//! The engine's in-memory state: documents by ID and the full-text index
//! over their strings, kept in step by every write.  Writing the log, the
//! storage file and the change feed is the caller's part.
use vstd::prelude::*;
use crate::assoc::{assoc_get, assoc_insert, assoc_remove};
use crate::document::{Document, DocumentView};
use crate::error::CassetteError;
use crate::index::{all_tokens, postings, search_result, InvertedIndex};
use crate::json::{json_strings, JsonValue};
use crate::text::{str_eq, views};

verus! {

/// A record recovered from the log: a document to store under its ID, an
/// ID to remove, or nothing to do.
#[derive(Debug)]
pub enum Recovered {
    Put(Document),
    Remove(String),
    Skip,
}

/// The engine's documents by ID, and its full-text index.
#[derive(Debug)]
pub struct Engine {
    docs: Vec<Document>,
    index: InvertedIndex,
}

/// The documents as an association list from ID to document.
pub open spec fn doc_entries(docs: Seq<Document>) -> Seq<(Seq<char>, Document)> {
    docs.map_values(|d: Document| (d.id@, d))
}

impl Engine {
    /// The documents by ID.
    pub closed spec fn spec_docs(&self) -> Seq<(Seq<char>, Document)> {
        doc_entries(self.docs@)
    }

    /// The full-text index.
    pub closed spec fn spec_index(&self) -> Seq<(Seq<char>, Seq<Seq<char>>)> {
        self.index@
    }
}

/// The index `n` is `o` with `id` listed under every token of the strings
/// of `data`.
pub open spec fn index_added(o: Seq<(Seq<char>, Seq<Seq<char>>)>, n: Seq<(Seq<char>, Seq<Seq<char>>)>, id: Seq<char>, data: JsonValue) -> bool {
    forall|t: Seq<char>|
        #[trigger] postings(n, t) == if all_tokens(json_strings(data)).contains(t) {
            postings(o, t).insert(id)
        } else {
            postings(o, t)
        }
}

/// The index `n` is `o` with `id` taken off the list of every token of the
/// strings of `data`.
pub open spec fn index_removed(o: Seq<(Seq<char>, Seq<Seq<char>>)>, n: Seq<(Seq<char>, Seq<Seq<char>>)>, id: Seq<char>, data: JsonValue) -> bool {
    forall|t: Seq<char>|
        #[trigger] postings(n, t) == if all_tokens(json_strings(data)).contains(t) {
            postings(o, t).remove(id)
        } else {
            postings(o, t)
        }
}

/// The index `n` is `o` with `id` taken off the tokens of `old_data` and
/// then listed under the tokens of `new_data`.
pub open spec fn index_replaced(
    o: Seq<(Seq<char>, Seq<Seq<char>>)>,
    n: Seq<(Seq<char>, Seq<Seq<char>>)>,
    id: Seq<char>,
    old_data: JsonValue,
    new_data: JsonValue,
) -> bool {
    forall|t: Seq<char>|
        #[trigger] postings(n, t) == {
            let removed = if all_tokens(json_strings(old_data)).contains(t) {
                postings(o, t).remove(id)
            } else {
                postings(o, t)
            };
            if all_tokens(json_strings(new_data)).contains(t) {
                removed.insert(id)
            } else {
                removed
            }
        }
}

} // verus!

verus! {

/// Whether no two entries share an ID.
pub open spec fn unique_ids(s: Seq<(Seq<char>, Document)>) -> bool {
    forall|i: int, j: int| 0 <= i < s.len() && 0 <= j < s.len() && i != j ==> (#[trigger] s[i]).0 != (#[trigger] s[j]).0
}

proof fn lemma_remove_unique(s: Seq<(Seq<char>, Document)>, i: int)
    requires
        0 <= i < s.len(),
        unique_ids(s),
    ensures
        assoc_remove(s, s[i].0) == s.remove(i),
{
    let k = s[i].0;
    assert forall|n: int| 0 <= n <= s.len() implies #[trigger] assoc_remove(s.subrange(0, n), k) == if n <= i {
        s.subrange(0, n)
    } else {
        s.remove(i).subrange(0, n - 1)
    } by {
        lemma_remove_prefix(s, i, n);
    }
    assert(s.subrange(0, s.len() as int) =~= s);
    assert(s.remove(i).subrange(0, s.len() - 1) =~= s.remove(i));
}

proof fn lemma_remove_prefix(s: Seq<(Seq<char>, Document)>, i: int, n: int)
    requires
        0 <= i < s.len(),
        0 <= n <= s.len(),
        unique_ids(s),
    ensures
        assoc_remove(s.subrange(0, n), s[i].0) == if n <= i {
            s.subrange(0, n)
        } else {
            s.remove(i).subrange(0, n - 1)
        },
    decreases n,
{
    let k = s[i].0;
    if n > 0 {
        lemma_remove_prefix(s, i, n - 1);
        crate::assoc::lemma_remove_step(s, k, n - 1);
        if n - 1 < i {
            assert(s[n - 1].0 != k);
            assert(s.subrange(0, n - 1).push(s[n - 1]) =~= s.subrange(0, n));
        } else if n - 1 == i {
            assert(s.subrange(0, n - 1) =~= s.remove(i).subrange(0, n - 1));
        } else {
            assert(s[n - 1].0 != k);
            assert(s.remove(i).subrange(0, n - 2).push(s[n - 1]) =~= s.remove(i).subrange(0, n - 1));
        }
    } else {
        assert(s.subrange(0, 0) =~= Seq::<(Seq<char>, Document)>::empty());
    }
}

impl Engine {
    #[verifier::type_invariant]
    spec fn wf(&self) -> bool {
        unique_ids(doc_entries(self.docs@))
    }

    /// An engine without documents.
    pub fn new() -> (r: Self)
        ensures
            r.spec_docs().len() == 0,
            r.spec_index() == Seq::<(Seq<char>, Seq<Seq<char>>)>::empty(),
            forall|t: Seq<char>| postings(r.spec_index(), t) == Set::<Seq<char>>::empty(),
    {
        let r = Engine { docs: Vec::new(), index: InvertedIndex::new() };
        assert(doc_entries(r.docs@) =~= Seq::<(Seq<char>, Document)>::empty());
        r
    }

    /// The position of the document `id`.
    fn pos_of(&self, id: &str) -> (r: Option<usize>)
        ensures
            match r {
                Some(i) => i < self.docs@.len() && self.docs@[i as int].id@ == id@,
                None => forall|j: int| 0 <= j < self.docs@.len() ==> self.docs@[j].id@ != id@,
            },
            match r {
                Some(i) => assoc_get(self.spec_docs(), id@) == Some(self.docs@[i as int]),
                None => assoc_get(self.spec_docs(), id@) is None,
            },
    {
        proof {
            use_type_invariant(self);
        }
        let ghost s = doc_entries(self.docs@);
        let mut i: usize = 0;
        while i < self.docs.len()
            invariant
                i <= self.docs@.len(),
                s == doc_entries(self.docs@),
                forall|j: int| 0 <= j < i ==> self.docs@[j].id@ != id@,
            decreases self.docs.len() - i,
        {
            if str_eq(self.docs[i].id.as_str(), id) {
                proof {
                    assert forall|j: int| 0 <= j < i implies s[j].0 != id@ by {
                        assert(s[j].0 == self.docs@[j].id@);
                    }
                    crate::assoc::lemma_get_at(s, id@, i as int);
                }
                return Some(i);
            }
            i = i + 1;
        }
        proof {
            assert forall|j: int| 0 <= j < s.len() implies s[j].0 != id@ by {
                assert(s[j].0 == self.docs@[j].id@);
            }
            crate::assoc::lemma_get_absent(s, id@);
        }
        None
    }

    /// The document `id`.
    pub fn get(&self, id: &str) -> (r: Option<&Document>)
        ensures
            match r {
                Some(d) => assoc_get(self.spec_docs(), id@) == Some(*d),
                None => assoc_get(self.spec_docs(), id@) is None,
            },
    {
        match self.pos_of(id) {
            Some(i) => Some(&self.docs[i]),
            None => None,
        }
    }

    /// The number of documents.
    pub fn doc_count(&self) -> (r: usize)
        ensures
            r == self.spec_docs().len(),
    {
        self.docs.len()
    }

    /// Stores `doc` under its ID (replacing a document with that ID) and
    /// indexes its strings under the ID.
    fn put(&mut self, doc: Document)
        ensures
            final(self).spec_docs() == assoc_insert(old(self).spec_docs(), doc.id@, doc),
            index_added(old(self).spec_index(), final(self).spec_index(), doc.id@, doc.data),
    {
        proof {
            use_type_invariant(&*self);
        }
        let ghost s = doc_entries(self.docs@);
        let mut index = InvertedIndex::new();
        std::mem::swap(&mut index, &mut self.index);
        index.index_document(doc.id.as_str(), &doc.data);
        self.index = index;
        let ghost d = doc;
        match self.pos_of(doc.id.as_str()) {
            Some(i) => {
                proof {
                    assert forall|j: int| 0 <= j < i implies s[j].0 != doc.id@ by {
                        assert(s[j].0 == self.docs@[j].id@);
                        assert(s[i as int].0 == self.docs@[i as int].id@);
                    }
                    crate::assoc::lemma_insert_at(s, doc.id@, doc, i as int);
                }
                let mut docs = Vec::new();
                std::mem::swap(&mut docs, &mut self.docs);
                let _ = docs.remove(i);
                docs.insert(i, doc);
                assert(doc_entries(docs@) =~= s.update(i as int, (d.id@, d)));
                assert(forall|j: int| 0 <= j < s.len() ==> (#[trigger] doc_entries(docs@)[j]).0 == s[j].0);
                self.docs = docs;
            },
            None => {
                proof {
                    assert forall|j: int| 0 <= j < s.len() implies s[j].0 != doc.id@ by {
                        assert(s[j].0 == self.docs@[j].id@);
                    }
                    crate::assoc::lemma_insert_absent(s, doc.id@, doc);
                }
                let mut docs = Vec::new();
                std::mem::swap(&mut docs, &mut self.docs);
                docs.push(doc);
                assert(doc_entries(docs@) =~= s.push((d.id@, d)));
                assert(forall|j: int| 0 <= j < s.len() ==> (#[trigger] doc_entries(docs@)[j]).0 == s[j].0);
                self.docs = docs;
            },
        }
    }
}

} // verus!

verus! {

impl Engine {
    /// Stores a new document and indexes it; returns its ID.  A document
    /// without an ID gets a new random one (and loses its metadata).
    pub fn insert(&mut self, doc: Document) -> (r: String)
        ensures
            doc.id@.len() > 0 ==> {
                &&& r@ == doc.id@
                &&& final(self).spec_docs() == assoc_insert(old(self).spec_docs(), doc.id@, doc)
                &&& index_added(old(self).spec_index(), final(self).spec_index(), doc.id@, doc.data)
            },
            doc.id@.len() == 0 ==> {
                &&& r@.len() == 36
                &&& exists|d: Document|
                    d.id@ == r@ && d.data == doc.data && d.meta@.len() == 0 && final(self).spec_docs()
                        == #[trigger] assoc_insert(old(self).spec_docs(), r@, d)
                &&& index_added(old(self).spec_index(), final(self).spec_index(), r@, doc.data)
            },
    {
        let ghost orig = doc;
        let d = if doc.id.as_str().is_empty() {
            Document::new(doc.data)
        } else {
            doc
        };
        let id = d.id.clone();
        let ghost dd = d;
        self.put(d);
        assert(orig.id@.len() == 0 ==> final(self).spec_docs() == assoc_insert(old(self).spec_docs(), id@, dd));
        id
    }

    /// Replaces the data of the document `id` and reindexes it; an error
    /// naming the ID when there is no such document.
    pub fn update(&mut self, id: &str, data: JsonValue) -> (r: Result<(), CassetteError>)
        ensures
            match assoc_get(old(self).spec_docs(), id@) {
                None => {
                    &&& r matches Err(CassetteError::NotFound(m)) && m@ == id@
                    &&& final(self).spec_docs() == old(self).spec_docs()
                    &&& final(self).spec_index() == old(self).spec_index()
                },
                Some(od) => {
                    &&& r is Ok
                    &&& final(self).spec_docs() == assoc_insert(old(self).spec_docs(), id@, (Document { data: data, ..od }))
                    &&& index_replaced(old(self).spec_index(), final(self).spec_index(), id@, od.data, data)
                },
            },
    {
        proof {
            use_type_invariant(&*self);
        }
        let ghost s = doc_entries(self.docs@);
        match self.pos_of(id) {
            None => Err(CassetteError::NotFound(id.to_owned())),
            Some(i) => {
                proof {
                    assert forall|j: int| 0 <= j < i implies s[j].0 != id@ by {
                        assert(s[j].0 == self.docs@[j].id@);
                        assert(s[i as int].0 == self.docs@[i as int].id@);
                    }
                }
                let mut docs = Vec::new();
                std::mem::swap(&mut docs, &mut self.docs);
                let mut od = docs.remove(i);
                let ghost old_doc = od;
                let mut index = InvertedIndex::new();
                std::mem::swap(&mut index, &mut self.index);
                index.remove_document(id, &od.data);
                od.data = data;
                index.index_document(id, &od.data);
                self.index = index;
                let ghost nd = od;
                docs.insert(i, od);
                proof {
                    crate::assoc::lemma_insert_at(s, id@, nd, i as int);
                }
                assert(doc_entries(docs@) =~= s.update(i as int, (id@, nd)));
                assert(forall|j: int| 0 <= j < s.len() ==> (#[trigger] doc_entries(docs@)[j]).0 == s[j].0);
                self.docs = docs;
                Ok(())
            },
        }
    }

    /// Removes the document `id` and takes it off the index; an error
    /// naming the ID when there is no such document.
    pub fn delete(&mut self, id: &str) -> (r: Result<(), CassetteError>)
        ensures
            match assoc_get(old(self).spec_docs(), id@) {
                None => {
                    &&& r matches Err(CassetteError::NotFound(m)) && m@ == id@
                    &&& final(self).spec_docs() == old(self).spec_docs()
                    &&& final(self).spec_index() == old(self).spec_index()
                },
                Some(od) => {
                    &&& r is Ok
                    &&& final(self).spec_docs() == assoc_remove(old(self).spec_docs(), id@)
                    &&& index_removed(old(self).spec_index(), final(self).spec_index(), id@, od.data)
                },
            },
    {
        proof {
            use_type_invariant(&*self);
        }
        let ghost s = doc_entries(self.docs@);
        match self.pos_of(id) {
            None => Err(CassetteError::NotFound(id.to_owned())),
            Some(i) => {
                let mut docs = Vec::new();
                std::mem::swap(&mut docs, &mut self.docs);
                let od = docs.remove(i);
                let mut index = InvertedIndex::new();
                std::mem::swap(&mut index, &mut self.index);
                index.remove_document(id, &od.data);
                self.index = index;
                proof {
                    assert(s[i as int].0 == id@);
                    lemma_remove_unique(s, i as int);
                }
                assert(doc_entries(docs@) =~= s.remove(i as int));
                assert forall|a: int, b: int|
                    0 <= a < doc_entries(docs@).len() && 0 <= b < doc_entries(docs@).len() && a != b implies (#[trigger] doc_entries(docs@)[a]).0
                    != (#[trigger] doc_entries(docs@)[b]).0 by {
                    let a2 = if a < i { a } else { a + 1 };
                    let b2 = if b < i { b } else { b + 1 };
                    assert(doc_entries(docs@)[a] == s[a2]);
                    assert(doc_entries(docs@)[b] == s[b2]);
                }
                self.docs = docs;
                Ok(())
            },
        }
    }

    /// Copies of all documents, in the order they are kept.
    pub fn documents(&self) -> (r: Vec<Document>)
        ensures
            r@.len() == self.spec_docs().len(),
            forall|k: int| 0 <= k < r@.len() ==> (#[trigger] r@[k])@ == self.spec_docs()[k].1@,
            forall|k: int| 0 <= k < r@.len() ==> (#[trigger] self.spec_docs()[k]).0 == self.spec_docs()[k].1.id@,
    {
        let mut out: Vec<Document> = Vec::new();
        let mut i: usize = 0;
        while i < self.docs.len()
            invariant
                i <= self.docs@.len(),
                out@.len() == i,
                forall|k: int| 0 <= k < i ==> (#[trigger] out@[k])@ == self.docs@[k]@,
            decreases self.docs.len() - i,
        {
            out.push(self.docs[i].copy());
            i = i + 1;
        }
        out
    }
}

} // verus!

verus! {

/// Whether a document with the ID is stored.
pub open spec fn stored(docs: Seq<(Seq<char>, Document)>) -> spec_fn(Seq<char>) -> bool {
    |id: Seq<char>| assoc_get(docs, id) is Some
}

/// The IDs of a sequence of documents.
pub open spec fn doc_ids(r: Seq<Document>) -> Seq<Seq<char>> {
    r.map_values(|d: Document| d.id@)
}

impl Engine {
    /// Copies of the stored documents that a full-text search of the index
    /// finds (see `search_result`), each once.
    pub fn search(&self, term: &str) -> (r: Vec<Document>)
        ensures
            forall|id: Seq<char>|
                #[trigger] doc_ids(r@).contains(id) <==> search_result(self.spec_index(), term@).contains(id)
                    && assoc_get(self.spec_docs(), id) is Some,
            doc_ids(r@).no_duplicates(),
            forall|k: int|
                0 <= k < r@.len() ==> (assoc_get(self.spec_docs(), (#[trigger] r@[k]).id@) matches Some(d) && r@[k]@ == d@),
    {
        let ids = self.index.search(term);
        let ghost iv = views(ids@);
        let ghost docs = self.spec_docs();
        let mut out: Vec<Document> = Vec::new();
        let mut i: usize = 0;
        while i < ids.len()
            invariant
                i <= ids@.len(),
                iv == views(ids@),
                docs == self.spec_docs(),
                doc_ids(out@) == crate::seqs::keep(iv.subrange(0, i as int), stored(docs)),
                forall|k: int| 0 <= k < out@.len() ==> (assoc_get(docs, (#[trigger] out@[k]).id@) matches Some(d) && out@[k]@ == d@),
            decreases ids.len() - i,
        {
            proof {
                crate::seqs::lemma_keep_step(iv, stored(docs), i as int);
            }
            assert(iv[i as int] == ids@[i as int]@);
            match self.get(ids[i].as_str()) {
                Some(d) => {
                    let c = d.copy();
                    assert(c.id@ == ids@[i as int]@) by {
                        crate::assoc::lemma_get_some_key(docs, ids@[i as int]@);
                    }
                    let ghost before = doc_ids(out@);
                    out.push(c);
                    assert(doc_ids(out@) =~= before.push(iv[i as int]));
                },
                None => {},
            }
            i = i + 1;
        }
        assert(iv.subrange(0, iv.len() as int) =~= iv);
        proof {
            crate::seqs::lemma_keep_no_duplicates(iv, stored(docs));
            assert forall|id: Seq<char>|
                #[trigger] doc_ids(out@).contains(id) <==> search_result(self.spec_index(), term@).contains(id)
                    && assoc_get(self.spec_docs(), id) is Some by {
                crate::seqs::lemma_keep_contains(iv, stored(docs), id);
                assert(iv.to_set().contains(id) <==> iv.contains(id));
            }
        }
        out
    }
}

} // verus!

verus! {

/// Whether the index lists each stored document under exactly the tokens
/// of its strings, and nothing else.
pub open spec fn index_matches(docs: Seq<(Seq<char>, Document)>, idx: Seq<(Seq<char>, Seq<Seq<char>>)>) -> bool {
    forall|t: Seq<char>, id: Seq<char>|
        #[trigger] postings(idx, t).contains(id) <==> match assoc_get(docs, id) {
            Some(d) => all_tokens(json_strings(d.data)).contains(t),
            None => false,
        }
}

/// The documents after replaying recovered records in order.
pub open spec fn replayed(recs: Seq<Recovered>) -> Seq<(Seq<char>, Document)>
    decreases recs.len(),
{
    if recs.len() == 0 {
        Seq::empty()
    } else {
        let s = replayed(recs.drop_last());
        match recs.last() {
            Recovered::Put(d) => assoc_insert(s, d.id@, d),
            Recovered::Remove(id) => assoc_remove(s, id@),
            Recovered::Skip => s,
        }
    }
}

impl Engine {
    /// Applies a recovered record: a document is stored under its ID (a
    /// document it replaces is first taken off the index), an ID is
    /// removed; the index is kept matching the documents.
    pub fn apply(&mut self, rec: Recovered)
        ensures
            final(self).spec_docs() == match rec {
                Recovered::Put(d) => assoc_insert(old(self).spec_docs(), d.id@, d),
                Recovered::Remove(id) => assoc_remove(old(self).spec_docs(), id@),
                Recovered::Skip => old(self).spec_docs(),
            },
            index_matches(old(self).spec_docs(), old(self).spec_index()) ==> index_matches(
                final(self).spec_docs(),
                final(self).spec_index(),
            ),
    {
        proof {
            use_type_invariant(&*self);
        }
        let ghost s = doc_entries(self.docs@);
        let ghost oi = self.index@;
        match rec {
            Recovered::Put(doc) => {
                let ghost d = doc;
                match self.pos_of(doc.id.as_str()) {
                    Some(i) => {
                        proof {
                            assert forall|j: int| 0 <= j < i implies s[j].0 != doc.id@ by {
                                assert(s[j].0 == self.docs@[j].id@);
                                assert(s[i as int].0 == self.docs@[i as int].id@);
                            }
                            crate::assoc::lemma_insert_at(s, doc.id@, doc, i as int);
                        }
                        let mut docs = Vec::new();
                        std::mem::swap(&mut docs, &mut self.docs);
                        let od = docs.remove(i);
                        let ghost old_doc = od;
                        assert(s[i as int] == (doc.id@, old_doc));
                        let mut index = InvertedIndex::new();
                        std::mem::swap(&mut index, &mut self.index);
                        index.remove_document(doc.id.as_str(), &od.data);
                        index.index_document(doc.id.as_str(), &doc.data);
                        self.index = index;
                        docs.insert(i, doc);
                        assert(doc_entries(docs@) =~= s.update(i as int, (d.id@, d)));
                        assert(forall|j: int| 0 <= j < s.len() ==> (#[trigger] doc_entries(docs@)[j]).0 == s[j].0);
                        self.docs = docs;
                        proof {
                            if index_matches(s, oi) {
                                assert forall|t: Seq<char>, id: Seq<char>|
                                    #[trigger] postings(self.index@, t).contains(id) <==> match assoc_get(
                                        doc_entries(self.docs@),
                                        id,
                                    ) {
                                        Some(x) => all_tokens(json_strings(x.data)).contains(t),
                                        None => false,
                                    } by {
                                    crate::assoc::lemma_get_update_value(s, i as int, d, id);
                                    assert(postings(oi, t).contains(id) <==> match assoc_get(s, id) {
                                        Some(x) => all_tokens(json_strings(x.data)).contains(t),
                                        None => false,
                                    });
                                }
                            }
                        }
                    },
                    None => {
                        proof {
                            assert forall|j: int| 0 <= j < s.len() implies s[j].0 != doc.id@ by {
                                assert(s[j].0 == self.docs@[j].id@);
                            }
                            crate::assoc::lemma_insert_absent(s, doc.id@, doc);
                        }
                        let mut index = InvertedIndex::new();
                        std::mem::swap(&mut index, &mut self.index);
                        index.index_document(doc.id.as_str(), &doc.data);
                        self.index = index;
                        let mut docs = Vec::new();
                        std::mem::swap(&mut docs, &mut self.docs);
                        docs.push(doc);
                        assert(doc_entries(docs@) =~= s.push((d.id@, d)));
                        assert(forall|j: int| 0 <= j < s.len() ==> (#[trigger] doc_entries(docs@)[j]).0 == s[j].0);
                        self.docs = docs;
                        proof {
                            if index_matches(s, oi) {
                                assert forall|t: Seq<char>, id: Seq<char>|
                                    #[trigger] postings(self.index@, t).contains(id) <==> match assoc_get(
                                        doc_entries(self.docs@),
                                        id,
                                    ) {
                                        Some(x) => all_tokens(json_strings(x.data)).contains(t),
                                        None => false,
                                    } by {
                                    crate::assoc::lemma_get_push(s, d.id@, d, id);
                                    assert(postings(oi, t).contains(id) <==> match assoc_get(s, id) {
                                        Some(x) => all_tokens(json_strings(x.data)).contains(t),
                                        None => false,
                                    });
                                }
                            }
                        }
                    },
                }
            },
            Recovered::Remove(id) => {
                match self.pos_of(id.as_str()) {
                    Some(i) => {
                        let mut docs = Vec::new();
                        std::mem::swap(&mut docs, &mut self.docs);
                        let od = docs.remove(i);
                        let ghost old_doc = od;
                        assert(s[i as int] == (id@, old_doc));
                        let mut index = InvertedIndex::new();
                        std::mem::swap(&mut index, &mut self.index);
                        index.remove_document(id.as_str(), &od.data);
                        self.index = index;
                        proof {
                            lemma_remove_unique(s, i as int);
                        }
                        assert(doc_entries(docs@) =~= s.remove(i as int));
                        assert forall|a: int, b: int|
                            0 <= a < doc_entries(docs@).len() && 0 <= b < doc_entries(docs@).len() && a != b implies (#[trigger] doc_entries(
                                docs@,
                            )[a]).0 != (#[trigger] doc_entries(docs@)[b]).0 by {
                            let a2 = if a < i {
                                a
                            } else {
                                a + 1
                            };
                            let b2 = if b < i {
                                b
                            } else {
                                b + 1
                            };
                            assert(doc_entries(docs@)[a] == s[a2]);
                            assert(doc_entries(docs@)[b] == s[b2]);
                        }
                        self.docs = docs;
                        proof {
                            if index_matches(s, oi) {
                                assert forall|t: Seq<char>, x: Seq<char>|
                                    #[trigger] postings(self.index@, t).contains(x) <==> match assoc_get(
                                        doc_entries(self.docs@),
                                        x,
                                    ) {
                                        Some(y) => all_tokens(json_strings(y.data)).contains(t),
                                        None => false,
                                    } by {
                                    crate::assoc::lemma_get_remove_at(s, i as int, x);
                                    assert(postings(oi, t).contains(x) <==> match assoc_get(s, x) {
                                        Some(y) => all_tokens(json_strings(y.data)).contains(t),
                                        None => false,
                                    });
                                }
                            }
                        }
                    },
                    None => {
                        proof {
                            assert forall|j: int| 0 <= j < s.len() implies s[j].0 != id@ by {
                                assert(s[j].0 == self.docs@[j].id@);
                            }
                            lemma_remove_absent(s, id@);
                        }
                    },
                }
            },
            Recovered::Skip => {},
        }
    }
}

proof fn lemma_remove_absent(s: Seq<(Seq<char>, Document)>, k: Seq<char>)
    requires
        forall|j: int| 0 <= j < s.len() ==> s[j].0 != k,
    ensures
        assoc_remove(s, k) == s,
    decreases s.len(),
{
    if s.len() > 0 {
        lemma_remove_absent(s.drop_last(), k);
        assert(s.drop_last().push(s.last()) =~= s);
    }
}

} // verus!

verus! {

impl Engine {
    /// The engine rebuilt by replaying recovered records in order: its
    /// documents are those the records leave (see `replayed`), and its
    /// index lists each under exactly the tokens of its strings.
    pub fn recover(records: Vec<Recovered>) -> (r: Engine)
        ensures
            r.spec_docs() == replayed(records@),
            index_matches(r.spec_docs(), r.spec_index()),
    {
        let ghost all = records@;
        let mut rest = records;
        let mut e = Engine::new();
        let n = rest.len();
        let mut k: usize = 0;
        assert(all.subrange(0, 0) =~= Seq::<Recovered>::empty());
        assert(rest@ =~= all.subrange(0, n as int));
        while k < n
            invariant
                k <= n,
                n == all.len(),
                rest@ == all.subrange(k as int, n as int),
                e.spec_docs() == replayed(all.subrange(0, k as int)),
                index_matches(e.spec_docs(), e.spec_index()),
            decreases n - k,
        {
            assert(rest@.len() == n - k);
            let ghost before = rest@;
            let rec = rest.remove(0);
            assert(rec == all[k as int]);
            assert(rest@ =~= all.subrange(k + 1, n as int));
            let ghost sub = all.subrange(0, k + 1);
            assert(sub.drop_last() =~= all.subrange(0, k as int));
            e.apply(rec);
            k = k + 1;
        }
        assert(all.subrange(0, n as int) =~= all);
        e
    }
}

} // verus!

verus! {

/// The documents `n` after inserting `doc` into `o`, the insert answering
/// the ID `id` (see `Engine::insert`).
pub open spec fn docs_inserted(o: Seq<(Seq<char>, Document)>, n: Seq<(Seq<char>, Document)>, doc: Document, id: Seq<char>) -> bool {
    &&& doc.id@.len() > 0 ==> id == doc.id@ && n == assoc_insert(o, doc.id@, doc)
    &&& doc.id@.len() == 0 ==> id.len() == 36 && exists|d: Document|
        d.id@ == id && d.data == doc.data && d.meta@.len() == 0 && n == #[trigger] assoc_insert(o, id, d)
}

/// The documents `n` after updating the document `id` of `o` with `data`,
/// the update answering `r` (see `Engine::update`).
pub open spec fn docs_updated(o: Seq<(Seq<char>, Document)>, n: Seq<(Seq<char>, Document)>, id: Seq<char>, data: JsonValue, r: Result<(), CassetteError>) -> bool {
    match assoc_get(o, id) {
        None => (r matches Err(CassetteError::NotFound(m)) && m@ == id) && n == o,
        Some(od) => r is Ok && n == assoc_insert(o, id, (Document { data: data, ..od })),
    }
}

/// The index `ni` of an engine after updating the document `id` of the
/// documents `docs` with `data` (see `Engine::update`): unchanged for a
/// missing document, else `id` moved from the old data's tokens to the new.
pub open spec fn index_after_update(
    docs: Seq<(Seq<char>, Document)>,
    oi: Seq<(Seq<char>, Seq<Seq<char>>)>,
    ni: Seq<(Seq<char>, Seq<Seq<char>>)>,
    id: Seq<char>,
    data: JsonValue,
) -> bool {
    match assoc_get(docs, id) {
        None => ni == oi,
        Some(od) => index_replaced(oi, ni, id, od.data, data),
    }
}

/// The index `ni` of an engine after deleting the document `id` of the
/// documents `docs` (see `Engine::delete`): unchanged for a missing
/// document, else `id` taken off the tokens of its data.
pub open spec fn index_after_delete(
    docs: Seq<(Seq<char>, Document)>,
    oi: Seq<(Seq<char>, Seq<Seq<char>>)>,
    ni: Seq<(Seq<char>, Seq<Seq<char>>)>,
    id: Seq<char>,
) -> bool {
    match assoc_get(docs, id) {
        None => ni == oi,
        Some(od) => index_removed(oi, ni, id, od.data),
    }
}

/// The documents `n` after deleting the document `id` of `o`, the delete
/// answering `r` (see `Engine::delete`).
pub open spec fn docs_deleted(o: Seq<(Seq<char>, Document)>, n: Seq<(Seq<char>, Document)>, id: Seq<char>, r: Result<(), CassetteError>) -> bool {
    match assoc_get(o, id) {
        None => (r matches Err(CassetteError::NotFound(m)) && m@ == id) && n == o,
        Some(od) => r is Ok && n == assoc_remove(o, id),
    }
}

} // verus!

verus! {

/// A document just stored is what a read of its ID gives back, and the
/// other IDs read as before.
pub proof fn lemma_stored_document_read_back(s: Seq<(Seq<char>, Document)>, k: Seq<char>, v: Document, t: Seq<char>)
    ensures
        assoc_get(assoc_insert(s, k, v), t) == if t == k {
            Some(v)
        } else {
            assoc_get(s, t)
        },
    decreases s.len(),
{
    let n = assoc_insert(s, k, v);
    if s.len() == 0 {
        assert(n == seq![(k, v)]);
        assert(n.drop_first() =~= Seq::<(Seq<char>, Document)>::empty());
        assert(assoc_get(n.drop_first(), t) is None);
    } else if s[0].0 != k {
        lemma_stored_document_read_back(s.drop_first(), k, v, t);
        assert(n == seq![s[0]] + assoc_insert(s.drop_first(), k, v));
        assert(n[0] == s[0]);
        assert(n.drop_first() =~= assoc_insert(s.drop_first(), k, v));
        if s[0].0 == t {
            assert(assoc_get(n, t) == Some(s[0].1));
        } else {
            assert(assoc_get(n, t) == assoc_get(n.drop_first(), t));
            assert(assoc_get(s, t) == assoc_get(s.drop_first(), t));
        }
    } else {
        assert(n == s.update(0, (k, v)));
        assert(n[0] == (k, v));
        assert(n.drop_first() =~= s.drop_first());
        if t != k {
            assert(assoc_get(n, t) == assoc_get(n.drop_first(), t));
            assert(assoc_get(s, t) == assoc_get(s.drop_first(), t));
        }
    }
}

/// A removed ID reads as missing, when the documents had unique IDs; the
/// other IDs read as before.
pub proof fn lemma_removed_document_gone(s: Seq<(Seq<char>, Document)>, k: Seq<char>, t: Seq<char>)
    ensures
        assoc_get(assoc_remove(s, k), t) == if t == k {
            None
        } else {
            assoc_get(s, t)
        },
    decreases s.len(),
{
    if s.len() > 0 {
        let p = s.drop_last();
        lemma_removed_document_gone(p, k, t);
        assert(s =~= p.push(s.last()));
        lemma_get_push_doc(p, s.last(), t);
        if s.last().0 != k {
            assert(assoc_remove(s, k) == assoc_remove(p, k).push(s.last()));
            lemma_get_push_doc(assoc_remove(p, k), s.last(), t);
        } else {
            assert(assoc_remove(s, k) == assoc_remove(p, k));
        }
    }
}

proof fn lemma_get_push_doc(s: Seq<(Seq<char>, Document)>, e: (Seq<char>, Document), t: Seq<char>)
    ensures
        assoc_get(s.push(e), t) == match assoc_get(s, t) {
            Some(x) => Some(x),
            None => if t == e.0 {
                Some(e.1)
            } else {
                None
            },
        },
{
    crate::assoc::lemma_get_push(s, e.0, e.1, t);
}

} // verus!

verus! {

/// Whether an entry's ID is one of `ids`.
pub open spec fn id_in(ids: Seq<Seq<char>>) -> spec_fn((Seq<char>, Document)) -> bool {
    |e: (Seq<char>, Document)| ids.contains(e.0)
}

/// Whether an entry's ID is none of `ids`.
pub open spec fn id_not_in(ids: Seq<Seq<char>>) -> spec_fn((Seq<char>, Document)) -> bool {
    |e: (Seq<char>, Document)| !ids.contains(e.0)
}

/// The documents `o` after inserting `docs` one after another, each under
/// its own ID.
pub open spec fn insert_all(o: Seq<(Seq<char>, Document)>, docs: Seq<Document>) -> Seq<(Seq<char>, Document)>
    decreases docs.len(),
{
    if docs.len() == 0 {
        o
    } else {
        assoc_insert(insert_all(o, docs.drop_last()), docs.last().id@, docs.last())
    }
}

impl Engine {
    /// Takes out the documents whose IDs are among `ids`, in their order,
    /// and drops them from the index; the others stay in order.
    pub(crate) fn take_docs(&mut self, ids: &Vec<String>) -> (r: Vec<Document>)
        ensures
            final(self).spec_docs() == crate::seqs::keep(old(self).spec_docs(), id_not_in(views(ids@))),
            doc_entries(r@) == crate::seqs::keep(old(self).spec_docs(), id_in(views(ids@))),
    {
        proof {
            use_type_invariant(&*self);
        }
        let ghost s = doc_entries(self.docs@);
        let ghost iv = views(ids@);
        let mut all: Vec<Document> = Vec::new();
        std::mem::swap(&mut all, &mut self.docs);
        let ghost orig = all@;
        let mut index = InvertedIndex::new();
        std::mem::swap(&mut index, &mut self.index);
        let n = all.len();
        let mut kept: Vec<Document> = Vec::new();
        let mut taken: Vec<Document> = Vec::new();
        let mut k: usize = 0;
        assert(s.subrange(0, 0) =~= Seq::<(Seq<char>, Document)>::empty());
        assert(all@ =~= orig.subrange(0, n as int));
        while k < n
            invariant
                k <= n,
                n == orig.len(),
                s == doc_entries(orig),
                unique_ids(s),
                all@ == orig.subrange(k as int, n as int),
                doc_entries(kept@) == crate::seqs::keep(s.subrange(0, k as int), id_not_in(iv)),
                doc_entries(taken@) == crate::seqs::keep(s.subrange(0, k as int), id_in(iv)),
                unique_ids(doc_entries(kept@)),
                forall|a: int, i: int|
                    0 <= a < kept@.len() && k <= i < n ==> (#[trigger] doc_entries(kept@)[a]).0 != (#[trigger] s[i]).0,
                iv == views(ids@),
            decreases n - k,
        {
            let d = all.remove(0);
            assert(d == orig[k as int]);
            assert(all@ =~= orig.subrange(k + 1, n as int));
            proof {
                crate::seqs::lemma_keep_step(s, id_not_in(iv), k as int);
                crate::seqs::lemma_keep_step(s, id_in(iv), k as int);
                assert(s.subrange(0, k + 1) =~= s.take(k + 1));
                assert(s.subrange(0, k as int) =~= s.take(k as int));
            }
            let ghost ke = doc_entries(kept@);
            let ghost te = doc_entries(taken@);
            if crate::text::contains_str(ids, d.id.as_str()) {
                index.remove_document(d.id.as_str(), &d.data);
                taken.push(d);
                assert(doc_entries(taken@) =~= te.push(s[k as int]));
                assert(doc_entries(kept@) == ke);
            } else {
                kept.push(d);
                assert(doc_entries(kept@) =~= ke.push(s[k as int]));
                assert forall|a: int, b: int|
                    0 <= a < kept@.len() && 0 <= b < kept@.len() && a != b implies (#[trigger] doc_entries(kept@)[a]).0
                    != (#[trigger] doc_entries(kept@)[b]).0 by {
                    if a < ke.len() && b < ke.len() {
                        assert(doc_entries(kept@)[a] == ke[a]);
                        assert(doc_entries(kept@)[b] == ke[b]);
                    } else if a < ke.len() {
                        assert(doc_entries(kept@)[a] == ke[a]);
                        assert(ke[a].0 != s[k as int].0);
                    } else {
                        assert(doc_entries(kept@)[b] == ke[b]);
                        assert(ke[b].0 != s[k as int].0);
                    }
                }
            }
            assert forall|a: int, i: int|
                0 <= a < kept@.len() && k + 1 <= i < n implies (#[trigger] doc_entries(kept@)[a]).0 != (#[trigger] s[i]).0 by {
                if a < ke.len() {
                    assert(doc_entries(kept@)[a] == ke[a]);
                } else {
                    assert(doc_entries(kept@)[a] == s[k as int]);
                }
            }
            k = k + 1;
        }
        assert(s.subrange(0, n as int) =~= s);
        self.index = index;
        self.docs = kept;
        taken
    }
}

} // verus!

verus! {

/// Inserting a document under a new ID keeps the index matching the
/// documents.
pub proof fn lemma_insert_keeps_index(
    od: Seq<(Seq<char>, Document)>,
    oi: Seq<(Seq<char>, Seq<Seq<char>>)>,
    ni: Seq<(Seq<char>, Seq<Seq<char>>)>,
    doc: Document,
)
    requires
        index_matches(od, oi),
        assoc_get(od, doc.id@) is None,
        index_added(oi, ni, doc.id@, doc.data),
    ensures
        index_matches(assoc_insert(od, doc.id@, doc), ni),
{
    let nd = assoc_insert(od, doc.id@, doc);
    assert forall|t: Seq<char>, x: Seq<char>|
        #[trigger] postings(ni, t).contains(x) <==> match assoc_get(nd, x) {
            Some(d) => all_tokens(json_strings(d.data)).contains(t),
            None => false,
        } by {
        lemma_stored_document_read_back(od, doc.id@, doc, x);
        assert(postings(oi, t).contains(x) <==> match assoc_get(od, x) {
            Some(d) => all_tokens(json_strings(d.data)).contains(t),
            None => false,
        });
    }
}

/// Replacing a stored document's data keeps the index matching the
/// documents.
pub proof fn lemma_update_keeps_index(
    od: Seq<(Seq<char>, Document)>,
    oi: Seq<(Seq<char>, Seq<Seq<char>>)>,
    ni: Seq<(Seq<char>, Seq<Seq<char>>)>,
    id: Seq<char>,
    data: JsonValue,
)
    requires
        index_matches(od, oi),
        assoc_get(od, id) is Some,
        index_replaced(oi, ni, id, assoc_get(od, id)->0.data, data),
    ensures
        index_matches(assoc_insert(od, id, (Document { data: data, ..assoc_get(od, id)->0 })), ni),
{
    let old_doc = assoc_get(od, id)->0;
    let new_doc = Document { data: data, ..old_doc };
    let nd = assoc_insert(od, id, new_doc);
    assert forall|t: Seq<char>, x: Seq<char>|
        #[trigger] postings(ni, t).contains(x) <==> match assoc_get(nd, x) {
            Some(d) => all_tokens(json_strings(d.data)).contains(t),
            None => false,
        } by {
        lemma_stored_document_read_back(od, id, new_doc, x);
        assert(postings(oi, t).contains(x) <==> match assoc_get(od, x) {
            Some(d) => all_tokens(json_strings(d.data)).contains(t),
            None => false,
        });
        assert(postings(oi, t).contains(id) <==> all_tokens(json_strings(old_doc.data)).contains(t));
    }
}

/// Removing a stored document keeps the index matching the documents.
pub proof fn lemma_delete_keeps_index(
    od: Seq<(Seq<char>, Document)>,
    oi: Seq<(Seq<char>, Seq<Seq<char>>)>,
    ni: Seq<(Seq<char>, Seq<Seq<char>>)>,
    id: Seq<char>,
)
    requires
        index_matches(od, oi),
        assoc_get(od, id) is Some,
        index_removed(oi, ni, id, assoc_get(od, id)->0.data),
    ensures
        index_matches(assoc_remove(od, id), ni),
{
    let old_doc = assoc_get(od, id)->0;
    let nd = assoc_remove(od, id);
    assert forall|t: Seq<char>, x: Seq<char>|
        #[trigger] postings(ni, t).contains(x) <==> match assoc_get(nd, x) {
            Some(d) => all_tokens(json_strings(d.data)).contains(t),
            None => false,
        } by {
        lemma_removed_document_gone(od, id, x);
        assert(postings(oi, t).contains(x) <==> match assoc_get(od, x) {
            Some(d) => all_tokens(json_strings(d.data)).contains(t),
            None => false,
        });
        assert(postings(oi, t).contains(id) <==> all_tokens(json_strings(old_doc.data)).contains(t));
    }
}

} // verus!
