//! Snapshots: their names, the files a snapshot consists of, and the order
//! in which they are listed.  Copying the files is the caller's part.
use vstd::prelude::*;
use crate::text::{chars_of, lex_lt, push_str, str_lt, string_of};

verus! {

/// Metadata for a snapshot.
#[derive(Debug)]
pub struct SnapshotMeta {
    pub id: String,
    pub created_at: String,
    pub db_name: String,
    pub size_bytes: u64,
}

/// chrono `Utc::now().format("%Y%m%d_%H%M%S")`: the current time as a
/// compact stamp.  The clock is read; nothing is claimed of the text.
#[verifier::external_body]
pub(crate) fn snapshot_stamp() -> String {
    chrono::Utc::now().format("%Y%m%d_%H%M%S").to_string()
}

/// The ID of a snapshot taken at the stamp: `snap_` and the stamp.
pub fn snapshot_id(stamp: &str) -> (r: String)
    ensures
        r@ == "snap_"@ + stamp@,
{
    let mut v = chars_of("snap_");
    push_str(&mut v, stamp);
    string_of(v.as_slice())
}

/// The ID of a snapshot taken now (see `snapshot_id`).
pub fn new_snapshot_id() -> (r: String)
    ensures
        r@.len() >= 5,
        r@.take(5) == "snap_"@,
{
    let stamp = snapshot_stamp();
    let r = snapshot_id(stamp.as_str());
    proof {
        reveal_strlit("snap_");
    }
    assert(r@.take(5) =~= "snap_"@);
    r
}

/// The files of a snapshot: the database, its log and its metadata.
pub fn snapshot_files(id: &str) -> (r: (String, String, String))
    ensures
        r.0@ == id@ + ".cassette"@,
        r.1@ == id@ + ".cassette.wal"@,
        r.2@ == id@ + ".json"@,
{
    let mut a = chars_of(id);
    push_str(&mut a, ".cassette");
    let mut b = chars_of(id);
    push_str(&mut b, ".cassette.wal");
    let mut c = chars_of(id);
    push_str(&mut c, ".json");
    (string_of(a.as_slice()), string_of(b.as_slice()), string_of(c.as_slice()))
}

/// Where a snapshot created at `t` goes among snapshots listed newest
/// first: before the first one created earlier (in text order).
pub open spec fn insert_pos(times: Seq<Seq<char>>, t: Seq<char>) -> int
    decreases times.len(),
{
    if times.len() == 0 {
        0
    } else if lex_lt(times[0], t) {
        0
    } else {
        1 + insert_pos(times.drop_first(), t)
    }
}

/// The creation times of snapshots.
pub open spec fn times_of(s: Seq<SnapshotMeta>) -> Seq<Seq<char>> {
    s.map_values(|m: SnapshotMeta| m.created_at@)
}

/// Snapshots listed newest first by creation time (in text order), those
/// created at the same time in their original order: each is placed
/// before the first one already listed that was created earlier.
pub open spec fn newest_first(s: Seq<SnapshotMeta>) -> Seq<SnapshotMeta>
    decreases s.len(),
{
    if s.len() == 0 {
        s
    } else {
        let t = newest_first(s.drop_last());
        t.insert(insert_pos(times_of(t), s.last().created_at@), s.last())
    }
}

proof fn lemma_insert_pos(times: Seq<Seq<char>>, t: Seq<char>, i: int)
    requires
        0 <= i <= times.len(),
        forall|j: int| 0 <= j < i ==> !lex_lt(#[trigger] times[j], t),
        i == times.len() || lex_lt(times[i], t),
    ensures
        insert_pos(times, t) == i,
    decreases i,
{
    if i > 0 {
        assert forall|j: int| 0 <= j < i - 1 implies !lex_lt(#[trigger] times.drop_first()[j], t) by {
            assert(times.drop_first()[j] == times[j + 1]);
        }
        lemma_insert_pos(times.drop_first(), t, i - 1);
    }
}

/// Lists snapshots newest first (see `newest_first`).
pub fn sort_snapshots(metas: Vec<SnapshotMeta>) -> (r: Vec<SnapshotMeta>)
    ensures
        r@ == newest_first(metas@),
{
    let ghost all = metas@;
    let mut rest = metas;
    let n = rest.len();
    let mut out: Vec<SnapshotMeta> = Vec::new();
    let mut k: usize = 0;
    assert(all.subrange(0, 0) =~= Seq::<SnapshotMeta>::empty());
    assert(rest@ =~= all.subrange(0, n as int));
    while k < n
        invariant
            k <= n,
            n == all.len(),
            rest@ == all.subrange(k as int, n as int),
            out@ == newest_first(all.subrange(0, k as int)),
        decreases n - k,
    {
        assert(rest@.len() == n - k);
        let m = rest.remove(0);
        assert(m == all[k as int]);
        assert(rest@ =~= all.subrange(k + 1, n as int));
        let ghost sub = all.subrange(0, k + 1);
        assert(sub.drop_last() =~= all.subrange(0, k as int));
        let ghost tv = times_of(out@);
        let mut p: usize = 0;
        while p < out.len() && !str_lt(out[p].created_at.as_str(), m.created_at.as_str())
            invariant
                p <= out@.len(),
                tv == times_of(out@),
                forall|j: int| 0 <= j < p ==> !lex_lt(#[trigger] tv[j], m.created_at@),
            decreases out.len() - p,
        {
            assert(tv[p as int] == out@[p as int].created_at@);
            p = p + 1;
        }
        proof {
            if p < out.len() {
                assert(tv[p as int] == out@[p as int].created_at@);
            }
            lemma_insert_pos(tv, m.created_at@, p as int);
        }
        out.insert(p, m);
        k = k + 1;
    }
    assert(all.subrange(0, n as int) =~= all);
    out
}

} // verus!
