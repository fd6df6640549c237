//! Merging one database into another.
//!
//! Each document of the remote database is matched by ID with the local
//! one.  A missing live document is added; otherwise the later update wins
//! (a remote deletion or revival included), equal content is left alone,
//! and two different contents updated at the same instant are reported as
//! a conflict.
use vstd::prelude::*;
use crate::db::{
    Cassette, CassetteView, CollView, Collection, DbError, DocView, Document, Posting, coll_named,
    doc_postings, doc_with_id, empty_coll, postings_view, words_of, words, field_postings,
    fields_postings,
};
use crate::json::{json_eq, Json, JsonValue};
use crate::seqs::position;
use crate::text::{str_eq, views};

verus! {

/// Two versions of a document changed independently.
#[derive(Debug)]
pub struct Conflict {
    pub collection: String,
    pub doc_id: String,
    pub local: JsonValue,
    pub remote: JsonValue,
}

/// The plain value of a conflict.
pub struct ConflictView {
    pub collection: Seq<char>,
    pub doc_id: Seq<char>,
    pub local: Json,
    pub remote: Json,
}

impl View for Conflict {
    type V = ConflictView;

    open spec fn view(&self) -> ConflictView {
        ConflictView { collection: self.collection@, doc_id: self.doc_id@, local: self.local@, remote: self.remote@ }
    }
}

/// How many documents a merge added, updated, deleted, found in conflict
/// and left unchanged.
#[derive(Debug, Clone, Copy)]
pub struct SyncSummary {
    pub added: usize,
    pub updated: usize,
    pub deleted: usize,
    pub conflicts: usize,
    pub unchanged: usize,
}

impl Default for SyncSummary {
    fn default() -> (r: Self)
        ensures
            r.added == 0 && r.updated == 0 && r.deleted == 0 && r.conflicts == 0 && r.unchanged == 0,
    {
        SyncSummary { added: 0, updated: 0, deleted: 0, conflicts: 0, unchanged: 0 }
    }
}

/// The outcome of a merge: the counts and the conflicts found.
#[derive(Debug)]
pub struct SyncResult {
    pub summary: SyncSummary,
    pub conflicts: Vec<Conflict>,
}

/// The plain value of a merge outcome; the number of conflicts is the
/// length of the list.
pub struct Tally {
    pub added: nat,
    pub updated: nat,
    pub deleted: nat,
    pub unchanged: nat,
    pub conflicts: Seq<ConflictView>,
}

impl View for SyncResult {
    type V = Tally;

    open spec fn view(&self) -> Tally {
        Tally {
            added: self.summary.added as nat,
            updated: self.summary.updated as nat,
            deleted: self.summary.deleted as nat,
            unchanged: self.summary.unchanged as nat,
            conflicts: self.conflicts@.map_values(|c: Conflict| c@),
        }
    }
}

/// A merge outcome with nothing counted.
pub open spec fn no_tally() -> Tally {
    Tally { added: 0, updated: 0, deleted: 0, unchanged: 0, conflicts: Seq::empty() }
}

impl SyncResult {
    /// An outcome with nothing counted.
    pub fn empty() -> (r: Self)
        ensures
            r@ == no_tally(),
            r.summary.conflicts == 0,
            r.conflicts@.len() == 0,
    {
        let r = SyncResult { summary: SyncSummary::default(), conflicts: Vec::new() };
        assert(r@.conflicts =~= Seq::<ConflictView>::empty());
        r
    }
}

/// What a merge does with a local document that a remote one matches.
#[derive(Debug, Clone, Copy, PartialEq, Eq, Structural)]
pub enum SyncAction {
    /// Leave it.
    Unchanged,
    /// Mark it deleted, with the remote update time.
    Delete,
    /// Undelete it, with the remote data and update time.
    Revive,
    /// Take the remote data and update time.
    Take,
    /// Report a conflict.
    Conflict,
}

/// An update time: the parsed instant, or the Unix epoch for text that is
/// not RFC 3339.
pub open spec fn instant_of(t: Option<(i64, u32)>) -> (int, int) {
    match t {
        Some((s, n)) => (s as int, n as int),
        None => (0, 0),
    }
}

/// Whether instant `a` comes after instant `b`.
pub open spec fn later(a: (int, int), b: (int, int)) -> bool {
    a.0 > b.0 || (a.0 == b.0 && a.1 > b.1)
}

/// The decision for a local document `l` updated at `lt` and a remote one
/// `r` updated at `rt`.
pub open spec fn sync_action(l: DocView, r: DocView, lt: (int, int), rt: (int, int)) -> SyncAction {
    if r.deleted && l.deleted {
        SyncAction::Unchanged
    } else if r.deleted && later(rt, lt) {
        SyncAction::Delete
    } else if l.deleted && later(lt, rt) {
        SyncAction::Unchanged
    } else if l.deleted && later(rt, lt) {
        SyncAction::Revive
    } else if l.data == r.data && l.deleted == r.deleted {
        SyncAction::Unchanged
    } else if later(rt, lt) {
        SyncAction::Take
    } else if later(lt, rt) {
        SyncAction::Unchanged
    } else {
        SyncAction::Conflict
    }
}

/// Whether instant `a` comes after instant `b`.
fn is_later(a: Option<(i64, u32)>, b: Option<(i64, u32)>) -> (r: bool)
    ensures
        r == later(instant_of(a), instant_of(b)),
{
    let (s1, n1): (i64, u32) = match a {
        Some(x) => x,
        None => (0, 0),
    };
    let (s2, n2): (i64, u32) = match b {
        Some(x) => x,
        None => (0, 0),
    };
    s1 > s2 || (s1 == s2 && n1 > n2)
}

/// The decision for a matched pair (see `sync_action`), given the parsed
/// update times.
pub fn decide(local: &Document, remote: &Document, lt: Option<(i64, u32)>, rt: Option<(i64, u32)>) -> (r: SyncAction)
    ensures
        r == sync_action(local@, remote@, instant_of(lt), instant_of(rt)),
{
    let remote_later = is_later(rt, lt);
    let local_later = is_later(lt, rt);
    if remote.deleted && local.deleted {
        SyncAction::Unchanged
    } else if remote.deleted && remote_later {
        SyncAction::Delete
    } else if local.deleted && local_later {
        SyncAction::Unchanged
    } else if local.deleted && remote_later {
        SyncAction::Revive
    } else if json_eq(&local.data, &remote.data) && local.deleted == remote.deleted {
        SyncAction::Unchanged
    } else if remote_later {
        SyncAction::Take
    } else if local_later {
        SyncAction::Unchanged
    } else {
        SyncAction::Conflict
    }
}

/// `ps` added to a full-text index one by one, each unless already there.
pub open spec fn add_unique(pv: Seq<(Seq<char>, Seq<char>, Seq<char>)>, ps: Seq<(Seq<char>, Seq<char>, Seq<char>)>) -> Seq<(Seq<char>, Seq<char>, Seq<char>)>
    decreases ps.len(),
{
    if ps.len() == 0 {
        pv
    } else {
        let r = add_unique(pv, ps.drop_last());
        if r.contains(ps.last()) {
            r
        } else {
            r.push(ps.last())
        }
    }
}

} // verus!

verus! {

/// Whether a full-text index holds a posting.
fn has_posting(inverted_index: &Vec<Posting>, p: &Posting) -> (r: bool)
    ensures
        r == postings_view(inverted_index@).contains((p.0@, p.1@, p.2@)),
{
    let ghost pv = postings_view(inverted_index@);
    let mut i: usize = 0;
    while i < inverted_index.len()
        invariant
            i <= inverted_index@.len(),
            pv == postings_view(inverted_index@),
            forall|j: int| 0 <= j < i ==> pv[j] != (p.0@, p.1@, p.2@),
        decreases inverted_index.len() - i,
    {
        let q = &inverted_index[i];
        assert(pv[i as int] == (q.0@, q.1@, q.2@));
        if str_eq(q.0.as_str(), p.0.as_str()) && str_eq(q.1.as_str(), p.1.as_str()) && str_eq(q.2.as_str(), p.2.as_str()) {
            return true;
        }
        i = i + 1;
    }
    false
}

impl Cassette {
    /// Adds the postings of `doc` to a full-text index, each unless the
    /// index holds it already (see `add_unique`).
    pub fn reindex_document(inverted_index: &mut Vec<Posting>, doc: &Document)
        ensures
            postings_view(final(inverted_index)@) == add_unique(postings_view(old(inverted_index)@), doc_postings(doc@)),
    {
        let mut ps: Vec<Posting> = Vec::new();
        crate::db::index_document(&mut ps, doc);
        assert(postings_view(ps@) =~= doc_postings(doc@));
        let ghost base = postings_view(inverted_index@);
        let ghost psv = postings_view(ps@);
        let mut k: usize = 0;
        assert(psv.subrange(0, 0) =~= Seq::<(Seq<char>, Seq<char>, Seq<char>)>::empty());
        while k < ps.len()
            invariant
                k <= ps@.len(),
                psv == postings_view(ps@),
                postings_view(inverted_index@) == add_unique(base, psv.subrange(0, k as int)),
            decreases ps.len() - k,
        {
            let ghost sub = psv.subrange(0, k + 1);
            assert(sub.drop_last() =~= psv.subrange(0, k as int));
            assert(sub.last() == (ps@[k as int].0@, ps@[k as int].1@, ps@[k as int].2@));
            if !has_posting(inverted_index, &ps[k]) {
                let ghost before = postings_view(inverted_index@);
                let p = (ps[k].0.clone(), ps[k].1.clone(), ps[k].2.clone());
                inverted_index.push(p);
                assert(postings_view(inverted_index@) =~= before.push(sub.last()));
            }
            k = k + 1;
        }
        assert(psv.subrange(0, psv.len() as int) =~= psv);
    }
}

/// A collection with the document at `p` changed as the decision says,
/// reindexed when it takes remote data.
pub open spec fn apply_action(cv: CollView, p: int, rd: DocView, a: SyncAction) -> CollView {
    let ld = cv.docs[p];
    match a {
        SyncAction::Delete => CollView {
            docs: cv.docs.update(p, DocView { deleted: true, updated_at: rd.updated_at, ..ld }),
            ..cv
        },
        SyncAction::Revive => {
            let nd = DocView { deleted: false, data: rd.data, updated_at: rd.updated_at, ..ld };
            CollView { docs: cv.docs.update(p, nd), postings: add_unique(cv.postings, doc_postings(nd)), ..cv }
        },
        SyncAction::Take => {
            let nd = DocView { data: rd.data, updated_at: rd.updated_at, ..ld };
            CollView { docs: cv.docs.update(p, nd), postings: add_unique(cv.postings, doc_postings(nd)), ..cv }
        },
        _ => cv,
    }
}

/// A tally with a decision counted.
pub open spec fn count_action(t: Tally, a: SyncAction, c: ConflictView) -> Tally {
    match a {
        SyncAction::Unchanged => Tally { unchanged: t.unchanged + 1, ..t },
        SyncAction::Delete => Tally { deleted: t.deleted + 1, ..t },
        SyncAction::Revive => Tally { updated: t.updated + 1, ..t },
        SyncAction::Take => Tally { updated: t.updated + 1, ..t },
        SyncAction::Conflict => Tally { conflicts: t.conflicts.push(c), ..t },
    }
}

/// One remote document merged into the local collection `cv` of the
/// collection named `name`.
pub open spec fn sync_doc(name: Seq<char>, cv: CollView, t: Tally, rd: DocView) -> (CollView, Tally) {
    let p = position(cv.docs, doc_with_id(rd.id));
    if p == cv.docs.len() {
        if rd.deleted {
            (cv, t)
        } else {
            (
                CollView { docs: cv.docs.push(rd), postings: add_unique(cv.postings, doc_postings(rd)), ..cv },
                Tally { added: t.added + 1, ..t },
            )
        }
    } else {
        let ld = cv.docs[p];
        let a = sync_action(
            ld,
            rd,
            instant_of(crate::time::rfc3339_instant(ld.updated_at)),
            instant_of(crate::time::rfc3339_instant(rd.updated_at)),
        );
        (
            apply_action(cv, p, rd, a),
            count_action(t, a, ConflictView { collection: name, doc_id: ld.id, local: ld.data, remote: rd.data }),
        )
    }
}

/// Remote documents merged one by one.
pub open spec fn sync_docs(name: Seq<char>, cv: CollView, t: Tally, rds: Seq<DocView>) -> (CollView, Tally)
    decreases rds.len(),
{
    if rds.len() == 0 {
        (cv, t)
    } else {
        let (c1, t1) = sync_docs(name, cv, t, rds.drop_last());
        sync_doc(name, c1, t1, rds.last())
    }
}

/// Remote collections merged one by one, each into the local collection of
/// its name, which is created (last) when missing.
pub open spec fn sync_colls(local: Seq<CollView>, t: Tally, remote: Seq<CollView>) -> (Seq<CollView>, Tally)
    decreases remote.len(),
{
    if remote.len() == 0 {
        (local, t)
    } else {
        let (l1, t1) = sync_colls(local, t, remote.drop_last());
        let rc = remote.last();
        let i = position(l1, coll_named(rc.name));
        let base = if i < l1.len() {
            l1[i]
        } else {
            empty_coll(rc.name)
        };
        let (c2, t2) = sync_docs(rc.name, base, t1, rc.docs);
        (
            if i < l1.len() {
                l1.update(i, c2)
            } else {
                l1.push(c2)
            },
            t2,
        )
    }
}

/// How many documents a tally counts.
pub open spec fn tally_count(t: Tally) -> nat {
    t.added + t.updated + t.deleted + t.unchanged + t.conflicts.len()
}

proof fn lemma_sync_docs_count(name: Seq<char>, cv: CollView, t: Tally, rds: Seq<DocView>)
    ensures
        tally_count(sync_docs(name, cv, t, rds).1) <= tally_count(t) + rds.len(),
    decreases rds.len(),
{
    if rds.len() > 0 {
        lemma_sync_docs_count(name, cv, t, rds.drop_last());
    }
}

} // verus!

verus! {

/// Merges one remote document into the local collection `coll` of the
/// collection named `name` (see `sync_doc`), parsing both update times.
fn sync_document(name: &str, coll: &mut Collection, res: &mut SyncResult, rd: &Document)
    requires
        tally_count(old(res)@) < usize::MAX,
        old(res).summary.conflicts == old(res).conflicts@.len(),
    ensures
        (final(coll)@, final(res)@) == sync_doc(name@, old(coll)@, old(res)@, rd@),
        final(res).summary.conflicts == final(res).conflicts@.len(),
{
    let ghost cv = coll@;
    let p = crate::db::doc_pos(&coll.documents, rd.id.as_str());
    if p == coll.documents.len() {
        if !rd.deleted {
            let d = rd.copy();
            Cassette::reindex_document(&mut coll.inverted_index, &d);
            let ghost dv = d@;
            coll.documents.push(d);
            assert(crate::db::doc_views(coll.documents@) =~= cv.docs.push(dv));
            res.summary.added = res.summary.added + 1;
        }
        return;
    }
    assert(cv.docs[p as int] == coll.documents@[p as int]@);
    let lt = crate::time::parse_rfc3339(coll.documents[p].updated_at.as_str());
    let rt = crate::time::parse_rfc3339(rd.updated_at.as_str());
    let a = decide(&coll.documents[p], rd, lt, rt);
    match a {
        SyncAction::Unchanged => {
            res.summary.unchanged = res.summary.unchanged + 1;
        },
        SyncAction::Delete => {
            let mut d = coll.documents.remove(p);
            d.deleted = true;
            d.updated_at = rd.updated_at.clone();
            let ghost dv = d@;
            coll.documents.insert(p, d);
            assert(crate::db::doc_views(coll.documents@) =~= cv.docs.update(p as int, dv));
            res.summary.deleted = res.summary.deleted + 1;
        },
        SyncAction::Revive | SyncAction::Take => {
            let mut d = coll.documents.remove(p);
            d.deleted = false;
            d.data = rd.data.copy();
            d.updated_at = rd.updated_at.clone();
            Cassette::reindex_document(&mut coll.inverted_index, &d);
            let ghost dv = d@;
            coll.documents.insert(p, d);
            assert(crate::db::doc_views(coll.documents@) =~= cv.docs.update(p as int, dv));
            res.summary.updated = res.summary.updated + 1;
        },
        SyncAction::Conflict => {
            let ld = &coll.documents[p];
            let c = Conflict {
                collection: name.to_owned(),
                doc_id: ld.id.clone(),
                local: ld.data.copy(),
                remote: rd.data.copy(),
            };
            let ghost before = res.conflicts@.map_values(|c: Conflict| c@);
            let ghost cw = c@;
            res.conflicts.push(c);
            assert(res.conflicts@.map_values(|c: Conflict| c@) =~= before.push(cw));
            res.summary.conflicts = res.summary.conflicts + 1;
        },
    }
}

/// Merges the remote database into the local one (see `sync_colls`): each
/// remote collection into the local one of its name, created when missing.
/// Secondary indexes are left as they are.
pub fn sync_into(local: &mut Cassette, remote: &Cassette) -> (r: Result<SyncResult, DbError>)
    requires
        crate::db::total_docs(remote@.collections) <= usize::MAX,
    ensures
        r is Ok,
        final(local)@ == (CassetteView {
            collections: sync_colls(old(local)@.collections, no_tally(), remote@.collections).0,
            ..old(local)@
        }),
        r->Ok_0@ == sync_colls(old(local)@.collections, no_tally(), remote@.collections).1,
        r->Ok_0.summary.conflicts == r->Ok_0.conflicts@.len(),
{
    let ghost rcs = remote@.collections;
    let ghost lcs = local@.collections;
    let mut res = SyncResult::empty();
    let mut ri: usize = 0;
    assert(rcs.subrange(0, 0) =~= Seq::<CollView>::empty());
    while ri < remote.collections.len()
        invariant
            ri <= remote.collections@.len(),
            rcs == remote@.collections,
            crate::db::total_docs(rcs) <= usize::MAX,
            local@ == (CassetteView { collections: local@.collections, ..old(local)@ }),
            (local@.collections, res@) == sync_colls(lcs, no_tally(), rcs.subrange(0, ri as int)),
            tally_count(res@) <= crate::db::total_docs(rcs.subrange(0, ri as int)),
            res.summary.conflicts == res.conflicts@.len(),
        decreases remote.collections.len() - ri,
    {
        let ghost sub = rcs.subrange(0, ri + 1);
        assert(sub.drop_last() =~= rcs.subrange(0, ri as int));
        proof {
            crate::db::lemma_total_prefix(rcs, ri + 1);
        }
        let rc = &remote.collections[ri];
        assert(rc@ == rcs[ri as int]);
        let ghost l1 = local@.collections;
        let ghost t1 = res@;
        let i = local.coll_pos(rc.name.as_str());
        proof {
            crate::seqs::lemma_position_bounds(l1, coll_named(rc.name@));
        }
        let found = i < local.collections.len();
        if !found {
            let fresh = Collection {
                name: rc.name.clone(),
                documents: Vec::new(),
                inverted_index: Vec::new(),
                secondary_indexes: Vec::new(),
            };
            local.collections.push(fresh);
        }
        let ghost base = if found {
            l1[i as int]
        } else {
            empty_coll(rc.name@)
        };
        let mut coll = local.collections.remove(i);
        proof {
            if !found {
                assert(coll@.docs =~= Seq::<DocView>::empty());
                assert(coll@.postings =~= Seq::<(Seq<char>, Seq<char>, Seq<char>)>::empty());
                assert(coll@.secondary =~= Seq::<(Seq<char>, Seq<(Seq<char>, Seq<Seq<char>>)>)>::empty());
            }
        }
        assert(coll@ == base);
        let ghost rest = local.collections@;
        let mut k: usize = 0;
        let ghost rdv = rc@.docs;
        assert(rdv.subrange(0, 0) =~= Seq::<DocView>::empty());
        while k < rc.documents.len()
            invariant
                k <= rc.documents@.len(),
                rdv == rc@.docs,
                rc@ == rcs[ri as int],
                local.collections@ == rest,
                tally_count(t1) <= crate::db::total_docs(rcs.subrange(0, ri as int)),
                crate::db::total_docs(rcs.subrange(0, ri + 1)) <= usize::MAX,
                crate::db::total_docs(rcs.subrange(0, ri + 1)) == crate::db::total_docs(rcs.subrange(0, ri as int)) + rdv.len(),
                (coll@, res@) == sync_docs(rc.name@, base, t1, rdv.subrange(0, k as int)),
                tally_count(res@) <= tally_count(t1) + k,
                res.summary.conflicts == res.conflicts@.len(),
            decreases rc.documents.len() - k,
        {
            let ghost s2 = rdv.subrange(0, k + 1);
            assert(s2.drop_last() =~= rdv.subrange(0, k as int));
            assert(s2.last() == rc.documents@[k as int]@);
            sync_document(rc.name.as_str(), &mut coll, &mut res, &rc.documents[k]);
            k = k + 1;
        }
        assert(rdv.subrange(0, rdv.len() as int) =~= rdv);
        proof {
            lemma_sync_docs_count(rc.name@, base, t1, rdv);
        }
        let ghost nc = coll@;
        if found {
            local.collections.insert(i, coll);
            assert(crate::db::coll_views(local.collections@) =~= l1.update(i as int, nc));
        } else {
            local.collections.push(coll);
            assert(crate::db::coll_views(local.collections@) =~= l1.push(nc));
        }
        ri = ri + 1;
    }
    assert(rcs.subrange(0, rcs.len() as int) =~= rcs);
    Ok(res)
}

} // verus!

verus! {

/// The same document on both sides, updated at the same time, is left as
/// it is.
pub proof fn lemma_identical_documents_unchanged(d: DocView, t: (int, int))
    ensures
        sync_action(d, d, t, t) == SyncAction::Unchanged,
{
}

/// A local document updated later than the remote one is kept.
pub proof fn lemma_later_local_kept(l: DocView, r: DocView, lt: (int, int), rt: (int, int))
    requires
        later(lt, rt),
    ensures
        sync_action(l, r, lt, rt) == SyncAction::Unchanged,
{
}

/// A conflict is reported only for documents updated at the same instant
/// that differ.
pub proof fn lemma_conflict_needs_same_time(l: DocView, r: DocView, lt: (int, int), rt: (int, int))
    requires
        sync_action(l, r, lt, rt) == SyncAction::Conflict,
    ensures
        lt == rt,
        !(l.data == r.data && l.deleted == r.deleted),
{
}

} // verus!
