//! The replication log that followers consume, and the follower's rule.
//!
//! The log starts with `CRL1` and a two-byte version; then each change
//! record is its JSON text preceded by its length (four bytes, little
//! endian).  Sequence numbers start at 1 and grow by one per record.
use vstd::prelude::*;
use crate::bytes::{le_u16, le_u32, push_u16, push_u32, read_u16_at, read_u32_at, u16_bytes, u32_bytes};
use crate::error::CassetteError;
use crate::text::{chars_of, push_decimal, string_of};
use crate::wal::WalOp;

verus! {

/// The replication log's magic number, `CRL1`.
pub const REPL_MAGIC: [u8; 4] = [0x43, 0x52, 0x4c, 0x31];

/// The replication log format version.
pub const REPL_VERSION: u16 = 1;

/// A change in the replication log.
#[derive(Debug)]
pub struct ChangeRecord {
    pub sequence: u64,
    pub op: WalOp,
    pub doc_id: String,
    pub payload: Vec<u8>,
    pub timestamp: i64,
}

/// The plain value of a change.
pub struct ChangeView {
    pub sequence: u64,
    pub op: WalOp,
    pub doc_id: Seq<char>,
    pub payload: Seq<u8>,
    pub timestamp: i64,
}

impl View for ChangeRecord {
    type V = ChangeView;

    open spec fn view(&self) -> ChangeView {
        ChangeView {
            sequence: self.sequence,
            op: self.op,
            doc_id: self.doc_id@,
            payload: self.payload@,
            timestamp: self.timestamp,
        }
    }
}

/// The header of a new replication log: the magic, then the version.
pub fn repl_header() -> (r: Vec<u8>)
    ensures
        r@ == REPL_MAGIC@ + u16_bytes(REPL_VERSION),
{
    let mut buf: Vec<u8> = Vec::new();
    buf.push(REPL_MAGIC[0]);
    buf.push(REPL_MAGIC[1]);
    buf.push(REPL_MAGIC[2]);
    buf.push(REPL_MAGIC[3]);
    push_u16(&mut buf, REPL_VERSION);
    assert(buf@ =~= REPL_MAGIC@ + u16_bytes(REPL_VERSION));
    buf
}

/// What checking the start of an existing replication log finds: the
/// magic (four bytes) is read first, then the version (two bytes).
pub open spec fn repl_header_check(b: Seq<u8>) -> Option<crate::wal::HeaderProblem> {
    if b.len() < 4 {
        Some(crate::wal::HeaderProblem::Short)
    } else if b.take(4) != REPL_MAGIC@ {
        Some(crate::wal::HeaderProblem::BadMagic)
    } else if b.len() < 6 {
        Some(crate::wal::HeaderProblem::Short)
    } else if le_u16(b.subrange(4, 6)) != REPL_VERSION {
        Some(crate::wal::HeaderProblem::BadVersion(le_u16(b.subrange(4, 6)) as u16))
    } else {
        None
    }
}

/// Checks the start of an existing replication log (see
/// `repl_header_check`).
pub fn check_repl_header(bytes: &[u8]) -> (r: Result<(), CassetteError>)
    ensures
        match repl_header_check(bytes@) {
            None => r is Ok,
            Some(crate::wal::HeaderProblem::Short) => r matches Err(CassetteError::Io(m)) && m@
                == "failed to fill whole buffer"@,
            Some(crate::wal::HeaderProblem::BadMagic) => r matches Err(CassetteError::Corrupt(m)) && m@
                == "Invalid replication log magic"@,
            Some(crate::wal::HeaderProblem::BadVersion(v)) => r matches Err(CassetteError::Corrupt(m)) && m@
                == "Unsupported replication log version "@ + crate::text::decimal(v as nat),
        },
{
    if bytes.len() < 4 {
        return Err(CassetteError::Io("failed to fill whole buffer".to_string()));
    }
    if bytes[0] != REPL_MAGIC[0] || bytes[1] != REPL_MAGIC[1] || bytes[2] != REPL_MAGIC[2] || bytes[3]
        != REPL_MAGIC[3] {
        assert(bytes@.take(4) != REPL_MAGIC@) by {
            if bytes@.take(4) == REPL_MAGIC@ {
                assert(bytes@.take(4)[0] == bytes@[0]);
                assert(bytes@.take(4)[1] == bytes@[1]);
                assert(bytes@.take(4)[2] == bytes@[2]);
                assert(bytes@.take(4)[3] == bytes@[3]);
            }
        }
        return Err(CassetteError::Corrupt("Invalid replication log magic".to_string()));
    }
    assert(bytes@.take(4) =~= REPL_MAGIC@);
    if bytes.len() < 6 {
        return Err(CassetteError::Io("failed to fill whole buffer".to_string()));
    }
    let version = read_u16_at(bytes, 4);
    if version != REPL_VERSION {
        let mut m = chars_of("Unsupported replication log version ");
        push_decimal(&mut m, version as u64);
        return Err(CassetteError::Corrupt(string_of(m.as_slice())));
    }
    Ok(())
}

/// The bytes that store one record's JSON text: its length, then the text.
pub open spec fn change_frame(json: Seq<u8>) -> Seq<u8> {
    u32_bytes(json.len() as u32) + json
}

/// The stored form of one record's JSON text (see `change_frame`).
pub fn frame_change(json: &[u8]) -> (r: Vec<u8>)
    requires
        json@.len() <= u32::MAX,
    ensures
        r@ == change_frame(json@),
{
    let mut buf: Vec<u8> = Vec::new();
    push_u32(&mut buf, json.len() as u32);
    let mut i: usize = 0;
    while i < json.len()
        invariant
            i <= json@.len(),
            buf@ == u32_bytes(json@.len() as u32) + json@.take(i as int),
        decreases json.len() - i,
    {
        buf.push(json[i]);
        i = i + 1;
        assert(buf@ =~= u32_bytes(json@.len() as u32) + json@.take(i as int));
    }
    assert(json@.take(i as int) =~= json@);
    buf
}

/// What reading a record at `at` finds.
#[derive(Debug, Clone, Copy, PartialEq, Eq, Structural)]
pub enum FrameScan {
    /// Fewer than four bytes remain: the log ends.
    End,
    /// The length is there but the text is cut short.
    Truncated,
    /// The record's text starts at `start` and has `len` bytes.
    Frame { start: usize, len: usize },
}

/// What reading a record at `at` of the bytes `b` finds.
pub open spec fn frame_at(b: Seq<u8>, at: int) -> FrameScan {
    if at + 4 > b.len() {
        FrameScan::End
    } else {
        let n = le_u32(b.subrange(at, at + 4));
        if at + 4 + n > b.len() {
            FrameScan::Truncated
        } else {
            FrameScan::Frame { start: (at + 4) as usize, len: n as usize }
        }
    }
}

/// Reads the record at `at` (see `frame_at`).
pub fn next_frame(b: &[u8], at: usize) -> (r: FrameScan)
    ensures
        r == frame_at(b@, at as int),
{
    if b.len() < 4 || at > b.len() - 4 {
        return FrameScan::End;
    }
    let n = read_u32_at(b, at);
    if n as usize > b.len() - at - 4 {
        return FrameScan::Truncated;
    }
    FrameScan::Frame { start: at + 4, len: n as usize }
}

/// The highest sequence number, 0 for none.
pub open spec fn max_sequence(seqs: Seq<u64>) -> nat
    decreases seqs.len(),
{
    if seqs.len() == 0 {
        0
    } else {
        let m = max_sequence(seqs.drop_last());
        if seqs.last() > m {
            seqs.last() as nat
        } else {
            m
        }
    }
}

proof fn lemma_max_sequence_bound(seqs: Seq<u64>)
    requires
        forall|i: int| 0 <= i < seqs.len() ==> seqs[i] < u64::MAX,
    ensures
        max_sequence(seqs) < u64::MAX,
    decreases seqs.len(),
{
    if seqs.len() > 0 {
        lemma_max_sequence_bound(seqs.drop_last());
    }
}

/// The sequence number the next record gets: one more than the highest
/// of the records read.
pub fn next_sequence_after(seqs: &Vec<u64>) -> (r: u64)
    requires
        forall|i: int| 0 <= i < seqs@.len() ==> seqs@[i] < u64::MAX,
    ensures
        r == max_sequence(seqs@) + 1,
{
    let mut m: u64 = 0;
    let mut i: usize = 0;
    while i < seqs.len()
        invariant
            i <= seqs@.len(),
            m == max_sequence(seqs@.subrange(0, i as int)),
            forall|j: int| 0 <= j < seqs@.len() ==> seqs@[j] < u64::MAX,
        decreases seqs.len() - i,
    {
        assert(seqs@.subrange(0, i + 1).drop_last() =~= seqs@.subrange(0, i as int));
        if seqs[i] > m {
            m = seqs[i];
        }
        i = i + 1;
    }
    assert(seqs@.subrange(0, i as int) =~= seqs@);
    proof {
        lemma_max_sequence_bound(seqs@);
    }
    m + 1
}

} // verus!

verus! {

/// A follower of a replication log: the log's path and the last sequence
/// number it has taken.
#[derive(Debug)]
pub struct Follower {
    log_path: String,
    last_sequence: u64,
}

/// The views of records that a follower takes.
pub open spec fn change_views(s: Seq<ChangeRecord>) -> Seq<ChangeView> {
    s.map_values(|c: ChangeRecord| c@)
}

/// What a poll finds in the records read from the log, at or after `start`
/// in sequence: the records taken, the last sequence number taken (`last`
/// when none), and the first read error, which ends the poll.
pub open spec fn poll_outcome(items: Seq<Result<ChangeRecord, CassetteError>>, start: u64, last: u64) -> (Seq<ChangeView>, u64, Option<CassetteError>)
    decreases items.len(),
{
    if items.len() == 0 {
        (Seq::empty(), last, None)
    } else {
        let (taken, l, err) = poll_outcome(items.drop_last(), start, last);
        if err is Some {
            (taken, l, err)
        } else {
            match items.last() {
                Err(e) => (taken, l, Some(e)),
                Ok(r) => if r.sequence >= start {
                    (taken.push(r@), r.sequence, None)
                } else {
                    (taken, l, None)
                },
            }
        }
    }
}

proof fn lemma_poll_stops(items: Seq<Result<ChangeRecord, CassetteError>>, n: int, start: u64, last: u64)
    requires
        0 <= n <= items.len(),
        poll_outcome(items.subrange(0, n), start, last).2 is Some,
    ensures
        poll_outcome(items, start, last) == poll_outcome(items.subrange(0, n), start, last),
    decreases items.len() - n,
{
    if n < items.len() {
        let sub = items.subrange(0, n + 1);
        assert(sub.drop_last() =~= items.subrange(0, n));
        lemma_poll_stops(items, n + 1, start, last);
    } else {
        assert(items.subrange(0, n) =~= items);
    }
}

impl Follower {
    /// A follower of the log at `log_path` that has taken nothing yet.
    pub fn new(log_path: &str) -> (r: Self)
        ensures
            r.spec_log_path() == log_path@,
            r.spec_last_sequence() == 0,
    {
        Follower { log_path: log_path.to_owned(), last_sequence: 0 }
    }

    pub closed spec fn spec_log_path(&self) -> Seq<char> {
        self.log_path@
    }

    pub closed spec fn spec_last_sequence(&self) -> u64 {
        self.last_sequence
    }

    /// The path of the followed log.
    pub fn log_path(&self) -> (r: &str)
        ensures
            r@ == self.spec_log_path(),
    {
        self.log_path.as_str()
    }

    /// The last sequence number taken.
    pub fn last_sequence(&self) -> (r: u64)
        ensures
            r == self.spec_last_sequence(),
    {
        self.last_sequence
    }

    /// Takes, in order, the records read from the log whose sequence number
    /// follows the last one taken (see `poll_outcome`); the first read error
    /// ends the poll and is returned, the records before it staying taken.
    pub fn poll(&mut self, items: Vec<Result<ChangeRecord, CassetteError>>) -> (r: Result<Vec<ChangeRecord>, CassetteError>)
        requires
            old(self).spec_last_sequence() < u64::MAX,
        ensures
            ({
                let (taken, last, err) = poll_outcome(items@, (old(self).spec_last_sequence() + 1) as u64, old(self).spec_last_sequence());
                &&& final(self).spec_last_sequence() == last
                &&& final(self).spec_log_path() == old(self).spec_log_path()
                &&& match err {
                    Some(e) => r == Err::<Vec<ChangeRecord>, CassetteError>(e),
                    None => r is Ok && change_views(r->Ok_0@) == taken,
                }
            }),
    {
        let start = self.last_sequence + 1;
        let ghost last0 = self.last_sequence;
        let ghost all = items@;
        let mut rest = items;
        let n = rest.len();
        let mut out: Vec<ChangeRecord> = Vec::new();
        let mut k: usize = 0;
        assert(all.subrange(0, 0) =~= Seq::<Result<ChangeRecord, CassetteError>>::empty());
        assert(rest@ =~= all.subrange(0, n as int));
        while k < n
            invariant
                k <= n,
                n == all.len(),
                rest@ == all.subrange(k as int, n as int),
                start == last0 + 1,
                last0 == old(self).spec_last_sequence(),
                all == items@,
                self.log_path@ == old(self).spec_log_path(),
                poll_outcome(all.subrange(0, k as int), start, last0) == (change_views(out@), self.last_sequence, None::<CassetteError>),
            decreases n - k,
        {
            assert(rest@.len() == n - k);
            let item = rest.remove(0);
            assert(item == all[k as int]);
            assert(rest@ =~= all.subrange(k + 1, n as int));
            let ghost sub = all.subrange(0, k + 1);
            assert(sub.drop_last() =~= all.subrange(0, k as int));
            match item {
                Err(e) => {
                    proof {
                        assert(sub.last() == all[k as int]);
                        assert(poll_outcome(sub, start, last0) == (change_views(out@), self.last_sequence, Some(e)));
                        lemma_poll_stops(all, k + 1, start, last0);
                    }
                    return Err(e);
                },
                Ok(rec) => {
                    if rec.sequence >= start {
                        self.last_sequence = rec.sequence;
                        let ghost before = change_views(out@);
                        let ghost rv = rec@;
                        out.push(rec);
                        assert(change_views(out@) =~= before.push(rv));
                    }
                },
            }
            k = k + 1;
        }
        assert(all.subrange(0, n as int) =~= all);
        Ok(out)
    }
}

} // verus!

verus! {

/// A poll takes only records whose sequence number follows the last one
/// taken before, and then remembers the last of them.
pub proof fn lemma_poll_takes_only_new_records(items: Seq<Result<ChangeRecord, CassetteError>>, start: u64, last: u64)
    ensures
        forall|j: int|
            0 <= j < poll_outcome(items, start, last).0.len() ==> (#[trigger] poll_outcome(items, start, last).0[j]).sequence
                >= start,
        poll_outcome(items, start, last).0.len() > 0 ==> poll_outcome(items, start, last).1
            == poll_outcome(items, start, last).0.last().sequence,
        poll_outcome(items, start, last).0.len() == 0 ==> poll_outcome(items, start, last).1 == last,
    decreases items.len(),
{
    if items.len() > 0 {
        lemma_poll_takes_only_new_records(items.drop_last(), start, last);
        let (taken, l, err) = poll_outcome(items.drop_last(), start, last);
        if err is None {
            if let Ok(r) = items.last() {
                if r.sequence >= start {
                    assert forall|j: int| 0 <= j < taken.len() + 1 implies (#[trigger] taken.push(r@)[j]).sequence >= start by {
                        if j < taken.len() {
                            assert(taken.push(r@)[j] == taken[j]);
                        }
                    }
                }
            }
        }
    }
}

} // verus!

verus! {

/// A stored record reads back: at the record's start, the reader finds a
/// frame holding exactly its JSON text.
pub proof fn lemma_frame_read_back(json: Seq<u8>, rest: Seq<u8>)
    requires
        json.len() <= u32::MAX,
    ensures
        frame_at(change_frame(json) + rest, 0) == (FrameScan::Frame { start: 4, len: json.len() as usize }),
        (change_frame(json) + rest).subrange(4, (4 + json.len()) as int) == json,
{
    crate::bytes::lemma_u32_roundtrip(json.len() as u32);
    let b = change_frame(json) + rest;
    assert(b.subrange(0, 4) =~= u32_bytes(json.len() as u32));
    assert(b.subrange(4, (4 + json.len()) as int) =~= json);
}

} // verus!
