//! Transactions over a database.
//!
//! A transaction queues its writes and reads a snapshot of the database
//! taken when it began, overlaid with its own queued writes.  Committing
//! applies the writes to the database in order and gives the log entries
//! to write; rolling back gives the abort entry.
use vstd::prelude::*;
use crate::db::{
    coll_of, delete_outcome, doc_views, insert_outcome, is_live, scan_filter, update_outcome, Cassette,
    CassetteView, DocView, Document,
};
use crate::json::{field_of, with_field, without_field, Json, JsonValue};
use crate::seqs::keep;
use crate::text::{str_eq, string_of};
use crate::wal::WalEntry;

verus! {

/// A queued write.
#[derive(Debug)]
pub enum TxOp {
    Insert { collection: String, doc: JsonValue },
    Update { collection: String, id: String, doc: JsonValue },
    Delete { collection: String, id: String },
}

/// The plain value of a queued write.
pub enum TxOpView {
    Insert { collection: Seq<char>, doc: Json },
    Update { collection: Seq<char>, id: Seq<char>, doc: Json },
    Delete { collection: Seq<char>, id: Seq<char> },
}

impl View for TxOp {
    type V = TxOpView;

    open spec fn view(&self) -> TxOpView {
        match self {
            TxOp::Insert { collection, doc } => TxOpView::Insert { collection: collection@, doc: doc@ },
            TxOp::Update { collection, id, doc } => TxOpView::Update { collection: collection@, id: id@, doc: doc@ },
            TxOp::Delete { collection, id } => TxOpView::Delete { collection: collection@, id: id@ },
        }
    }
}

/// The views of a sequence of queued writes.
pub open spec fn op_views(s: Seq<TxOp>) -> Seq<TxOpView> {
    s.map_values(|o: TxOp| o@)
}

/// A transaction: its ID, its queued writes, the snapshot it reads, and
/// whether it has been committed or rolled back.
#[derive(Debug)]
pub struct Transaction {
    tx_id: u64,
    ops: Vec<TxOp>,
    snapshot: Cassette,
    committed: bool,
    rolled_back: bool,
}

/// The plain value of a transaction.
pub struct TxView {
    pub tx_id: u64,
    pub ops: Seq<TxOpView>,
    pub snapshot: CassetteView,
    pub committed: bool,
    pub rolled_back: bool,
}

impl View for Transaction {
    type V = TxView;

    closed spec fn view(&self) -> TxView {
        TxView {
            tx_id: self.tx_id,
            ops: op_views(self.ops@),
            snapshot: self.snapshot@,
            committed: self.committed,
            rolled_back: self.rolled_back,
        }
    }
}

/// Errors of a transaction that is over.
#[derive(Debug, Clone, Copy, PartialEq, Eq, Structural)]
pub enum TxError {
    AlreadyCommitted,
    AlreadyRolledBack,
}

/// The message of a transaction error.
pub open spec fn tx_error_text(e: TxError) -> Seq<char> {
    match e {
        TxError::AlreadyCommitted => "transaction already committed"@,
        TxError::AlreadyRolledBack => "transaction already rolled back"@,
    }
}

impl TxError {
    /// The error's message (see `tx_error_text`).
    pub fn to_text(&self) -> (r: String)
        ensures
            r@ == tx_error_text(*self),
    {
        match self {
            TxError::AlreadyCommitted => "transaction already committed".to_owned(),
            TxError::AlreadyRolledBack => "transaction already rolled back".to_owned(),
        }
    }
}

/// The field that marks a queued insert with its temporary ID.
pub open spec fn tmp_field() -> Seq<char> {
    "_tx_tmp_id"@
}

/// Whether a transaction still accepts operations.
pub open spec fn active(t: TxView) -> bool {
    !t.committed && !t.rolled_back
}

/// The error for a transaction that is over: committed is reported first.
pub open spec fn over_error(t: TxView) -> TxError {
    if t.committed {
        TxError::AlreadyCommitted
    } else {
        TxError::AlreadyRolledBack
    }
}

/// The collection a write goes to.
pub open spec fn op_collection(op: TxOpView) -> Seq<char> {
    match op {
        TxOpView::Insert { collection, .. } => collection,
        TxOpView::Update { collection, .. } => collection,
        TxOpView::Delete { collection, .. } => collection,
    }
}

/// The IDs that the queued writes to `c` leave deleted: deleted, and not
/// updated since.
pub open spec fn deleted_ids(ops: Seq<TxOpView>, c: Seq<char>) -> Set<Seq<char>>
    decreases ops.len(),
{
    if ops.len() == 0 {
        Set::empty()
    } else {
        let s = deleted_ids(ops.drop_last(), c);
        match ops.last() {
            TxOpView::Delete { collection, id } => if collection == c {
                s.insert(id)
            } else {
                s
            },
            TxOpView::Update { collection, id, .. } => if collection == c {
                s.remove(id)
            } else {
                s
            },
            _ => s,
        }
    }
}

/// The data of the last queued update of the document `id` of `c`.
pub open spec fn updated_data(ops: Seq<TxOpView>, c: Seq<char>, id: Seq<char>) -> Option<Json>
    decreases ops.len(),
{
    if ops.len() == 0 {
        None
    } else {
        match ops.last() {
            TxOpView::Update { collection, id: oid, doc } => if collection == c && oid == id {
                Some(doc)
            } else {
                updated_data(ops.drop_last(), c, id)
            },
            _ => updated_data(ops.drop_last(), c, id),
        }
    }
}

/// The data of the queued inserts into `c`, in order, without the
/// temporary-ID field.
pub open spec fn pending_inserts(ops: Seq<TxOpView>, c: Seq<char>) -> Seq<Json>
    decreases ops.len(),
{
    if ops.len() == 0 {
        Seq::empty()
    } else {
        let s = pending_inserts(ops.drop_last(), c);
        match ops.last() {
            TxOpView::Insert { collection, doc } => if collection == c {
                s.push(without_field(doc, tmp_field()))
            } else {
                s
            },
            _ => s,
        }
    }
}

/// Whether the queued writes leave a document in place.
pub open spec fn kept_by(ops: Seq<TxOpView>, c: Seq<char>) -> spec_fn(DocView) -> bool {
    |d: DocView| !deleted_ids(ops, c).contains(d.id)
}

/// A document with the data of its last queued update.
pub open spec fn with_updates(ops: Seq<TxOpView>, c: Seq<char>) -> spec_fn(DocView) -> DocView {
    |d: DocView| match updated_data(ops, c, d.id) {
        Some(j) => DocView { data: j, ..d },
        None => d,
    }
}

/// Snapshot documents as the queued writes to `c` leave them: deleted ones
/// gone, updated ones with their new data.
pub open spec fn overlay(docs: Seq<DocView>, ops: Seq<TxOpView>, c: Seq<char>) -> Seq<DocView> {
    keep(docs, kept_by(ops, c)).map_values(with_updates(ops, c))
}

/// The ID that a queued insert's document shows once its temporary-ID
/// field is gone: the text of a remaining such field, else empty.
pub open spec fn pending_id(data: Json) -> Seq<char> {
    match field_of(data, tmp_field()) {
        Some(Json::Str(s)) => s,
        _ => Seq::empty(),
    }
}

/// Whether documents read through a transaction are the snapshot's
/// documents `base` as the queued writes to `c` leave them, followed by a
/// live document for each queued insert into `c` (timestamps aside).
pub open spec fn read_through(r: Seq<DocView>, base: Seq<DocView>, ops: Seq<TxOpView>, c: Seq<char>) -> bool {
    let o = overlay(base, ops, c);
    let ins = pending_inserts(ops, c);
    &&& r.len() == o.len() + ins.len()
    &&& r.subrange(0, o.len() as int) == o
    &&& forall|k: int|
        0 <= k < ins.len() ==> {
            let d = #[trigger] r[o.len() + k];
            d.id == pending_id(ins[k]) && d.data == ins[k] && !d.deleted
        }
}

/// A transaction's own write to the document `id` of `c`, the last one
/// first: the data it has (an insert shows its data without the
/// temporary-ID field), nothing when deleted, or no write at all.
pub open spec fn own_write(ops: Seq<TxOpView>, c: Seq<char>, id: Seq<char>) -> Option<Option<Json>>
    decreases ops.len(),
{
    if ops.len() == 0 {
        None
    } else {
        match ops.last() {
            TxOpView::Insert { collection, doc } => if collection == c && field_of(doc, tmp_field()) == Some(Json::Str(id)) {
                Some(Some(without_field(doc, tmp_field())))
            } else {
                own_write(ops.drop_last(), c, id)
            },
            TxOpView::Update { collection, id: oid, doc } => if collection == c && oid == id {
                Some(Some(doc))
            } else {
                own_write(ops.drop_last(), c, id)
            },
            TxOpView::Delete { collection, id: did } => if collection == c && did == id {
                Some(None)
            } else {
                own_write(ops.drop_last(), c, id)
            },
        }
    }
}

/// The database `n` after applying one write to `c`.
pub open spec fn op_outcome(c: CassetteView, op: TxOpView, n: CassetteView) -> bool {
    match op {
        TxOpView::Insert { collection, doc } => insert_outcome(c, collection, without_field(doc, tmp_field()), n),
        TxOpView::Update { collection, id, doc } => update_outcome(c, collection, id, doc, n),
        TxOpView::Delete { collection, id } => delete_outcome(c, collection, id, n),
    }
}

/// Databases `states` that the writes lead through from `c`, one write
/// per step.
pub open spec fn chain(c: CassetteView, ops: Seq<TxOpView>, states: Seq<CassetteView>) -> bool {
    &&& states.len() == ops.len() + 1
    &&& states[0] == c
    &&& forall|i: int| 0 <= i < ops.len() ==> op_outcome(#[trigger] states[i], ops[i], states[i + 1])
}

/// The database `n` after applying the writes to `c` in order.
pub open spec fn ops_outcome(c: CassetteView, ops: Seq<TxOpView>, n: CassetteView) -> bool {
    exists|states: Seq<CassetteView>| #[trigger] chain(c, ops, states) && states.last() == n
}

/// Whether a log entry records a write of the transaction `tx`.
pub open spec fn entry_for(e: WalEntry, op: TxOpView, tx: u64) -> bool {
    match (e, op) {
        (WalEntry::Insert { tx_id, collection, doc }, TxOpView::Insert { collection: c, doc: d }) => tx_id == tx
            && collection@ == c && doc@ == d,
        (WalEntry::Update { tx_id, collection, id, doc }, TxOpView::Update { collection: c, id: i, doc: d }) => tx_id
            == tx && collection@ == c && id@ == i && doc@ == d,
        (WalEntry::Delete { tx_id, collection, id }, TxOpView::Delete { collection: c, id: i }) => tx_id == tx
            && collection@ == c && id@ == i,
        _ => false,
    }
}

} // verus!

verus! {

/// Whether the queued writes leave the document `id` of `c` deleted, and
/// the data of its last queued update.
fn pending_for<'a>(ops: &'a Vec<TxOp>, c: &str, id: &str) -> (r: (bool, Option<&'a JsonValue>))
    ensures
        r.0 == deleted_ids(op_views(ops@), c@).contains(id@),
        match r.1 {
            Some(j) => updated_data(op_views(ops@), c@, id@) == Some(j@),
            None => updated_data(op_views(ops@), c@, id@) is None,
        },
{
    let ghost ov = op_views(ops@);
    let mut del = false;
    let mut upd: Option<&JsonValue> = None;
    let mut k: usize = 0;
    while k < ops.len()
        invariant
            k <= ops@.len(),
            ov == op_views(ops@),
            del == deleted_ids(ov.subrange(0, k as int), c@).contains(id@),
            match upd {
                Some(j) => updated_data(ov.subrange(0, k as int), c@, id@) == Some(j@),
                None => updated_data(ov.subrange(0, k as int), c@, id@) is None,
            },
        decreases ops.len() - k,
    {
        let ghost sub = ov.subrange(0, k + 1);
        assert(sub.drop_last() =~= ov.subrange(0, k as int));
        assert(sub.last() == ops@[k as int]@);
        match &ops[k] {
            TxOp::Delete { collection, id: did } => {
                if str_eq(collection.as_str(), c) && str_eq(did.as_str(), id) {
                    del = true;
                }
            },
            TxOp::Update { collection, id: oid, doc } => {
                if str_eq(collection.as_str(), c) && str_eq(oid.as_str(), id) {
                    del = false;
                    upd = Some(doc);
                }
            },
            _ => {},
        }
        k = k + 1;
    }
    assert(ov.subrange(0, ov.len() as int) =~= ov);
    (del, upd)
}

impl Transaction {
    /// A transaction with the ID `tx_id` over a snapshot of `db`.
    pub fn begin(db: &Cassette, tx_id: u64) -> (r: Self)
        ensures
            r@.tx_id == tx_id,
            r@.ops.len() == 0,
            r@.snapshot == db@,
            active(r@),
    {
        Transaction { tx_id, ops: Vec::new(), snapshot: db.copy(), committed: false, rolled_back: false }
    }

    /// The transaction's ID.
    pub fn tx_id(&self) -> (r: u64)
        ensures
            r == self@.tx_id,
    {
        self.tx_id
    }

    fn assert_active(&self) -> (r: Result<(), TxError>)
        ensures
            active(self@) <==> r is Ok,
            r matches Err(e) ==> e == over_error(self@),
    {
        if self.committed {
            return Err(TxError::AlreadyCommitted);
        }
        if self.rolled_back {
            return Err(TxError::AlreadyRolledBack);
        }
        Ok(())
    }

    /// Queues an insert into `collection` and returns its temporary ID: the
    /// time in milliseconds, `-`, a random number and `-tx`.  An object
    /// document carries the ID in its temporary-ID field.
    pub fn insert(&mut self, collection: &str, doc: JsonValue) -> (r: Result<String, TxError>)
        ensures
            !active(old(self)@) ==> r == Err::<String, TxError>(over_error(old(self)@)) && final(self)@ == old(self)@,
            active(old(self)@) ==> {
                &&& r is Ok
                &&& exists|ms: i64, n: u16|
                    #![trigger crate::text::signed_decimal(ms as int), crate::text::decimal(n as nat)]
                    r->Ok_0@ == crate::text::signed_decimal(ms as int) + seq!['-'] + crate::text::decimal(n as nat) + "-tx"@
                &&& final(self)@ == TxView {
                    ops: old(self)@.ops.push(
                        TxOpView::Insert {
                            collection: collection@,
                            doc: with_field(doc@, tmp_field(), Json::Str(r->Ok_0@)),
                        },
                    ),
                    ..old(self)@
                }
            },
    {
        match self.assert_active() {
            Err(e) => return Err(e),
            Ok(()) => {},
        }
        let ms = crate::time::unix_millis();
        let n = crate::db::random_u16();
        let mut text: Vec<char> = Vec::new();
        crate::text::push_signed_decimal(&mut text, ms);
        text.push('-');
        crate::text::push_decimal(&mut text, n as u64);
        crate::text::push_str(&mut text, "-tx");
        let id = string_of(text.as_slice());
        let mut d = doc;
        d.insert_field("_tx_tmp_id".to_owned(), JsonValue::String(id.clone()));
        let ghost ov = op_views(self.ops@);
        let op = TxOp::Insert { collection: collection.to_owned(), doc: d };
        let ghost opv = op@;
        self.ops.push(op);
        assert(op_views(self.ops@) =~= ov.push(opv));
        assert(id@ =~= crate::text::signed_decimal(ms as int) + seq!['-'] + crate::text::decimal(n as nat) + "-tx"@);
        Ok(id)
    }

    /// Queues an update of the document `id` of `collection`.
    pub fn update(&mut self, collection: &str, id: &str, doc: JsonValue) -> (r: Result<bool, TxError>)
        ensures
            !active(old(self)@) ==> r == Err::<bool, TxError>(over_error(old(self)@)) && final(self)@ == old(self)@,
            active(old(self)@) ==> r == Ok::<bool, TxError>(true) && final(self)@ == (TxView {
                ops: old(self)@.ops.push(TxOpView::Update { collection: collection@, id: id@, doc: doc@ }),
                ..old(self)@
            }),
    {
        match self.assert_active() {
            Err(e) => return Err(e),
            Ok(()) => {},
        }
        let ghost ov = op_views(self.ops@);
        let op = TxOp::Update { collection: collection.to_owned(), id: id.to_owned(), doc };
        let ghost opv = op@;
        self.ops.push(op);
        assert(op_views(self.ops@) =~= ov.push(opv));
        Ok(true)
    }

    /// Queues a delete of the document `id` of `collection`.
    pub fn delete(&mut self, collection: &str, id: &str) -> (r: Result<bool, TxError>)
        ensures
            !active(old(self)@) ==> r == Err::<bool, TxError>(over_error(old(self)@)) && final(self)@ == old(self)@,
            active(old(self)@) ==> r == Ok::<bool, TxError>(true) && final(self)@ == (TxView {
                ops: old(self)@.ops.push(TxOpView::Delete { collection: collection@, id: id@ }),
                ..old(self)@
            }),
    {
        match self.assert_active() {
            Err(e) => return Err(e),
            Ok(()) => {},
        }
        let ghost ov = op_views(self.ops@);
        let op = TxOp::Delete { collection: collection.to_owned(), id: id.to_owned() };
        let ghost opv = op@;
        self.ops.push(op);
        assert(op_views(self.ops@) =~= ov.push(opv));
        Ok(true)
    }

    /// Applies the queued writes to `collection` to documents read from the
    /// snapshot (see `read_through`).
    fn apply_pending_to_results(&self, collection: &str, docs: &mut Vec<Document>)
        ensures
            read_through(doc_views(final(docs)@), doc_views(old(docs)@), self@.ops, collection@),
    {
        let ghost ov = self@.ops;
        let ghost base = doc_views(docs@);
        let ghost o = overlay(base, ov, collection@);
        let mut out: Vec<Document> = Vec::new();
        let mut i: usize = 0;
        while i < docs.len()
            invariant
                i <= docs@.len(),
                base == doc_views(docs@),
                ov == self@.ops,
                ov == op_views(self.ops@),
                doc_views(out@) == keep(base.subrange(0, i as int), kept_by(ov, collection@)).map_values(
                    with_updates(ov, collection@),
                ),
            decreases docs.len() - i,
        {
            proof {
                crate::seqs::lemma_keep_step(base, kept_by(ov, collection@), i as int);
            }
            let ghost k0 = keep(base.subrange(0, i as int), kept_by(ov, collection@));
            assert(base[i as int] == docs@[i as int]@);
            let (del, upd) = pending_for(&self.ops, collection, docs[i].id.as_str());
            if !del {
                let mut d = docs[i].copy();
                match upd {
                    Some(j) => {
                        d.data = j.copy();
                    },
                    None => {},
                }
                let ghost before = doc_views(out@);
                let ghost dv = d@;
                out.push(d);
                assert(dv == with_updates(ov, collection@)(base[i as int]));
                assert(doc_views(out@) =~= before.push(dv));
                assert(k0.push(base[i as int]).map_values(with_updates(ov, collection@)) =~= k0.map_values(
                    with_updates(ov, collection@),
                ).push(with_updates(ov, collection@)(base[i as int])));
            }
            i = i + 1;
        }
        assert(base.subrange(0, base.len() as int) =~= base);
        assert(doc_views(out@) == o);
        let ghost ins = pending_inserts(ov, collection@);
        let mut k: usize = 0;
        let mut added: usize = 0;
        assert(ov.subrange(0, 0) =~= Seq::<TxOpView>::empty());
        while k < self.ops.len()
            invariant
                k <= self.ops@.len(),
                ov == op_views(self.ops@),
                o == overlay(base, ov, collection@),
                added == pending_inserts(ov.subrange(0, k as int), collection@).len(),
                added <= k,
                doc_views(out@).len() == o.len() + added,
                doc_views(out@).subrange(0, o.len() as int) == o,
                forall|m: int|
                    0 <= m < added ==> {
                        let d = #[trigger] doc_views(out@)[o.len() + m];
                        let pi = pending_inserts(ov.subrange(0, k as int), collection@);
                        d.id == pending_id(pi[m]) && d.data == pi[m] && !d.deleted
                    },
            decreases self.ops.len() - k,
        {
            let ghost sub = ov.subrange(0, k + 1);
            assert(sub.drop_last() =~= ov.subrange(0, k as int));
            assert(sub.last() == self.ops@[k as int]@);
            let ghost pi0 = pending_inserts(ov.subrange(0, k as int), collection@);
            match &self.ops[k] {
                TxOp::Insert { collection: c, doc } => {
                    if str_eq(c.as_str(), collection) {
                        let mut d = doc.copy();
                        d.remove_field("_tx_tmp_id");
                        let id = match d.get("_tx_tmp_id") {
                            Some(v) => match v.as_str() {
                                Some(s) => s.to_owned(),
                                None => String::new(),
                            },
                            None => String::new(),
                        };
                        assert(id@ == pending_id(d@));
                        let created_at = crate::time::now_rfc3339();
                        let updated_at = crate::time::now_rfc3339();
                        let nd = Document { id, data: d, created_at, updated_at, deleted: false };
                        let ghost before = doc_views(out@);
                        let ghost ndv = nd@;
                        out.push(nd);
                        assert(doc_views(out@) =~= before.push(ndv));
                        assert(doc_views(out@).subrange(0, o.len() as int) =~= before.subrange(0, o.len() as int));
                        added = added + 1;
                    }
                },
                _ => {},
            }
            k = k + 1;
        }
        assert(ov.subrange(0, ov.len() as int) =~= ov);
        *docs = out;
    }

    /// The documents of `collection` that a `key=value` filter selects by
    /// scanning the snapshot, as the queued writes leave them (see
    /// `read_through`).
    pub fn query(&self, collection: &str, filter: &str) -> (r: Result<Vec<Document>, TxError>)
        ensures
            !active(self@) ==> r == Err::<Vec<Document>, TxError>(over_error(self@)),
            active(self@) ==> r is Ok && read_through(
                doc_views(r->Ok_0@),
                match coll_of(self@.snapshot, collection@) {
                    Some(cv) => scan_filter(cv, filter@),
                    None => Seq::empty(),
                },
                self@.ops,
                collection@,
            ),
    {
        match self.assert_active() {
            Err(e) => return Err(e),
            Ok(()) => {},
        }
        let mut docs = match self.snapshot.query_owned(collection, filter) {
            Ok(v) => v,
            Err(_) => Vec::new(),
        };
        self.apply_pending_to_results(collection, &mut docs);
        Ok(docs)
    }

    /// The live documents of `collection` in the snapshot, as the queued
    /// writes leave them (see `read_through`).
    pub fn scan(&self, collection: &str) -> (r: Result<Vec<Document>, TxError>)
        ensures
            !active(self@) ==> r == Err::<Vec<Document>, TxError>(over_error(self@)),
            active(self@) ==> r is Ok && read_through(
                doc_views(r->Ok_0@),
                match coll_of(self@.snapshot, collection@) {
                    Some(cv) => keep(cv.docs, is_live()),
                    None => Seq::empty(),
                },
                self@.ops,
                collection@,
            ),
    {
        match self.assert_active() {
            Err(e) => return Err(e),
            Ok(()) => {},
        }
        let mut docs = match self.snapshot.scan_owned(collection) {
            Ok(v) => v,
            Err(_) => Vec::new(),
        };
        self.apply_pending_to_results(collection, &mut docs);
        Ok(docs)
    }
}

} // verus!

verus! {

/// The view of an optional owned document.
pub open spec fn opt_owned_view(r: Option<Document>) -> Option<DocView> {
    match r {
        Some(d) => Some(d@),
        None => None,
    }
}

/// A copy of a queued write as a log entry of the transaction `tx_id`.
fn entry_of(op: &TxOp, tx_id: u64) -> (e: WalEntry)
    ensures
        entry_for(e, op@, tx_id),
{
    match op {
        TxOp::Insert { collection, doc } => WalEntry::Insert { tx_id, collection: collection.clone(), doc: doc.copy() },
        TxOp::Update { collection, id, doc } => WalEntry::Update {
            tx_id,
            collection: collection.clone(),
            id: id.clone(),
            doc: doc.copy(),
        },
        TxOp::Delete { collection, id } => WalEntry::Delete { tx_id, collection: collection.clone(), id: id.clone() },
    }
}

impl Transaction {
    /// The document `id` of `collection` as the transaction sees it: its
    /// own last write to it (an insert found by its temporary ID), else the
    /// snapshot's live document.  Timestamps of an own write are the
    /// current time.
    pub fn get(&self, collection: &str, id: &str) -> (r: Option<Document>)
        ensures
            !active(self@) ==> r is None,
            active(self@) ==> match own_write(self@.ops, collection@, id@) {
                Some(Some(data)) => r is Some && r->0@.id == id@ && r->0@.data == data && !r->0@.deleted,
                Some(None) => r is None,
                None => opt_owned_view(r) == match coll_of(self@.snapshot, collection@) {
                    Some(cv) => crate::seqs::find_first(cv.docs, crate::db::live_with_id(id@)),
                    None => None,
                },
            },
    {
        if self.committed || self.rolled_back {
            return None;
        }
        let ghost ov = op_views(self.ops@);
        let mut k: usize = self.ops.len();
        assert(ov.subrange(0, k as int) =~= ov);
        while k > 0
            invariant
                k <= self.ops@.len(),
                ov == op_views(self.ops@),
                ov == self@.ops,
                active(self@),
                own_write(ov, collection@, id@) == own_write(ov.subrange(0, k as int), collection@, id@),
            decreases k,
        {
            let ghost sub = ov.subrange(0, k as int);
            assert(sub.drop_last() =~= ov.subrange(0, k - 1));
            assert(sub.last() == self.ops@[k - 1]@);
            match &self.ops[k - 1] {
                TxOp::Insert { collection: c, doc } => {
                    let hit = str_eq(c.as_str(), collection) && match doc.get("_tx_tmp_id") {
                        Some(v) => match v.as_str() {
                            Some(s) => str_eq(s, id),
                            None => false,
                        },
                        None => false,
                    };
                    if hit {
                        let mut d = doc.copy();
                        d.remove_field("_tx_tmp_id");
                        let created_at = crate::time::now_rfc3339();
                        let updated_at = crate::time::now_rfc3339();
                        return Some(Document { id: id.to_owned(), data: d, created_at, updated_at, deleted: false });
                    }
                },
                TxOp::Update { collection: c, id: oid, doc } => {
                    if str_eq(c.as_str(), collection) && str_eq(oid.as_str(), id) {
                        let created_at = crate::time::now_rfc3339();
                        let updated_at = crate::time::now_rfc3339();
                        return Some(Document { id: id.to_owned(), data: doc.copy(), created_at, updated_at, deleted: false });
                    }
                },
                TxOp::Delete { collection: c, id: did } => {
                    if str_eq(c.as_str(), collection) && str_eq(did.as_str(), id) {
                        return None;
                    }
                },
            }
            k = k - 1;
        }
        assert(ov.subrange(0, 0) =~= Seq::<TxOpView>::empty());
        self.snapshot.get_owned(collection, id)
    }

    /// Commits: applies the queued writes to `db` in order (an insert
    /// without its temporary-ID field, under a new ID; errors of the writes
    /// are ignored) and returns the log entries to write: one per write,
    /// then the commit entry.
    pub fn commit(self, db: &mut Cassette) -> (r: Result<Vec<WalEntry>, TxError>)
        ensures
            !active(self@) ==> r == Err::<Vec<WalEntry>, TxError>(over_error(self@)) && final(db)@ == old(db)@,
            active(self@) ==> {
                &&& r is Ok
                &&& r->Ok_0@.len() == self@.ops.len() + 1
                &&& forall|i: int| 0 <= i < self@.ops.len() ==> entry_for(#[trigger] r->Ok_0@[i], self@.ops[i], self@.tx_id)
                &&& r->Ok_0@[self@.ops.len() as int] == WalEntry::Commit { tx_id: self@.tx_id }
                &&& ops_outcome(old(db)@, self@.ops, final(db)@)
            },
    {
        match self.assert_active() {
            Err(e) => return Err(e),
            Ok(()) => {},
        }
        let ghost ov = op_views(self.ops@);
        let mut entries: Vec<WalEntry> = Vec::new();
        let mut i: usize = 0;
        while i < self.ops.len()
            invariant
                i <= self.ops@.len(),
                ov == op_views(self.ops@),
                entries@.len() == i,
                forall|j: int| 0 <= j < i ==> entry_for(#[trigger] entries@[j], ov[j], self.tx_id),
            decreases self.ops.len() - i,
        {
            let e = entry_of(&self.ops[i], self.tx_id);
            entries.push(e);
            i = i + 1;
        }
        entries.push(WalEntry::Commit { tx_id: self.tx_id });
        let ghost start = db@;
        let ghost mut states: Seq<CassetteView> = seq![start];
        let mut k: usize = 0;
        assert(chain(start, ov.subrange(0, 0), states));
        while k < self.ops.len()
            invariant
                k <= self.ops@.len(),
                ov == op_views(self.ops@),
                chain(start, ov.subrange(0, k as int), states),
                states.last() == db@,
            decreases self.ops.len() - k,
        {
            let ghost m = db@;
            assert(self.ops@[k as int]@ == ov[k as int]);
            match &self.ops[k] {
                TxOp::Insert { collection, doc } => {
                    let mut d = doc.copy();
                    d.remove_field("_tx_tmp_id");
                    let _ = db.insert(collection.as_str(), d);
                },
                TxOp::Update { collection, id, doc } => {
                    let _ = db.update(collection.as_str(), id.as_str(), doc.copy());
                },
                TxOp::Delete { collection, id } => {
                    let _ = db.delete(collection.as_str(), id.as_str());
                },
            }
            assert(op_outcome(m, ov[k as int], db@));
            let ghost old_states = states;
            proof {
                states = states.push(db@);
                let sub = ov.subrange(0, k + 1);
                assert forall|i: int| 0 <= i < sub.len() implies op_outcome(#[trigger] states[i], sub[i], states[i + 1]) by {
                    if i < k {
                        assert(states[i] == old_states[i]);
                        assert(states[i + 1] == old_states[i + 1]);
                        assert(sub[i] == ov.subrange(0, k as int)[i]);
                    } else {
                        assert(states[i] == m);
                    }
                }
            }
            k = k + 1;
        }
        assert(ov.subrange(0, ov.len() as int) =~= ov);
        assert(chain(start, ov, states));
        assert(ov.subrange(0, ov.len() as int) =~= ov);
        Ok(entries)
    }

    /// Rolls back: returns the abort entry to write.
    pub fn rollback(self) -> (r: Result<WalEntry, TxError>)
        ensures
            !active(self@) ==> r == Err::<WalEntry, TxError>(over_error(self@)),
            active(self@) ==> r == Ok::<WalEntry, TxError>(WalEntry::Abort { tx_id: self@.tx_id }),
    {
        match self.assert_active() {
            Err(e) => return Err(e),
            Ok(()) => {},
        }
        Ok(WalEntry::Abort { tx_id: self.tx_id })
    }
}

} // verus!


verus! {

/// A transaction reads back its own last write: an update gives its data,
/// a delete gives nothing.
pub proof fn lemma_reads_own_writes(ops: Seq<TxOpView>, c: Seq<char>, id: Seq<char>, doc: Json)
    ensures
        own_write(ops.push(TxOpView::Update { collection: c, id, doc }), c, id) == Some(Some(doc)),
        own_write(ops.push(TxOpView::Delete { collection: c, id }), c, id) == Some(None::<Json>),
        deleted_ids(ops.push(TxOpView::Delete { collection: c, id }), c).contains(id),
        !deleted_ids(ops.push(TxOpView::Update { collection: c, id, doc }), c).contains(id),
        updated_data(ops.push(TxOpView::Update { collection: c, id, doc }), c, id) == Some(doc),
{
    assert(ops.push(TxOpView::Update { collection: c, id, doc }).drop_last() =~= ops);
    assert(ops.push(TxOpView::Delete { collection: c, id }).drop_last() =~= ops);
}

} // verus!
