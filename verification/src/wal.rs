//! The write-ahead log: its file layout and the recovery rule.
//!
//! The file starts with `CWL1` and a two-byte version.  Each record is
//!
//! | bytes | field                                   |
//! |-------|-----------------------------------------|
//! | 1     | operation code                          |
//! | 4     | length of the document ID (LE)          |
//! | n     | document ID (UTF-8)                     |
//! | 4     | length of the payload (LE)              |
//! | m     | payload                                 |
//! | 4     | CRC-32 of the payload (LE)              |
//! | 1     | commit flag (0: uncommitted)            |
//!
//! Transactions are logged as entries: `Begin`, data entries, then `Commit`
//! or `Abort`.  On recovery the entries of a transaction are applied only
//! when its `Commit` is reached; an aborted or unfinished transaction is
//! ignored.
use vstd::prelude::*;
use crate::bytes::{le_u16, le_u32, push_u16, push_u32, read_u16_at, read_u32_at, u16_bytes, u32_bytes};
use crate::error::CassetteError;
use crate::text::{chars_of, push_decimal, string_of};

verus! {

/// The WAL file's magic number, `CWL1`.
pub const WAL_MAGIC: [u8; 4] = [0x43, 0x57, 0x4c, 0x31];

/// The WAL format version.
pub const WAL_VERSION: u16 = 1;

/// The length of the WAL file header.
pub const WAL_HEADER_LEN: usize = 6;

/// Kinds of WAL records.
#[derive(Debug, Clone, Copy, PartialEq, Eq, Structural)]
pub enum WalOp {
    Insert,
    Update,
    Delete,
    TxEntry,
}

/// The code of an operation in the file.
pub open spec fn op_code(op: WalOp) -> u8 {
    match op {
        WalOp::Insert => 1,
        WalOp::Update => 2,
        WalOp::Delete => 3,
        WalOp::TxEntry => 4,
    }
}

impl WalOp {
    /// The code of the operation in the file (see `op_code`).
    pub fn code(&self) -> (r: u8)
        ensures
            r == op_code(*self),
    {
        match self {
            WalOp::Insert => 1,
            WalOp::Update => 2,
            WalOp::Delete => 3,
            WalOp::TxEntry => 4,
        }
    }

    /// The operation with code `c`, if any.
    pub fn from_code(c: u8) -> (r: Option<WalOp>)
        ensures
            match r {
                Some(op) => op_code(op) == c,
                None => !(1 <= c <= 4),
            },
    {
        match c {
            1 => Some(WalOp::Insert),
            2 => Some(WalOp::Update),
            3 => Some(WalOp::Delete),
            4 => Some(WalOp::TxEntry),
            _ => None,
        }
    }
}

/// A low-level WAL record.
#[derive(Debug, Clone, PartialEq)]
pub struct WalRecord {
    pub op: WalOp,
    pub doc_id: String,
    /// JSON bytes.
    pub payload: Vec<u8>,
}

/// The CRC-32 (IEEE) checksum of `bytes`, as crc32fast computes it.
pub uninterp spec fn crc32(bytes: Seq<u8>) -> u32;

/// crc32fast `hash`: the CRC-32 checksum of `buf`.  Only that the result is
/// a function of the bytes is claimed.
#[verifier::external_body]
fn checksum(buf: &[u8]) -> (r: u32)
    ensures
        r == crc32(buf@),
{
    crc32fast::hash(buf)
}

/// The bytes that start a WAL file.
pub open spec fn wal_header_bytes() -> Seq<u8> {
    WAL_MAGIC@ + u16_bytes(WAL_VERSION)
}

/// The bytes that start a new WAL file.
pub fn wal_header() -> (r: Vec<u8>)
    ensures
        r@ == wal_header_bytes(),
{
    let mut buf: Vec<u8> = Vec::new();
    buf.push(WAL_MAGIC[0]);
    buf.push(WAL_MAGIC[1]);
    buf.push(WAL_MAGIC[2]);
    buf.push(WAL_MAGIC[3]);
    assert(buf@ =~= WAL_MAGIC@);
    push_u16(&mut buf, WAL_VERSION);
    buf
}

/// What is wrong with the start of a WAL file.
pub enum HeaderProblem {
    /// The file ends before the header does.
    Short,
    /// The magic number is not `CWL1`.
    BadMagic,
    /// The version is not `WAL_VERSION`.
    BadVersion(u16),
}

/// What checking the start `b` of an existing WAL file finds, read in order:
/// the magic (four bytes), then the version (two bytes).
pub open spec fn header_check(b: Seq<u8>) -> Option<HeaderProblem> {
    if b.len() < 4 {
        Some(HeaderProblem::Short)
    } else if b.take(4) != WAL_MAGIC@ {
        Some(HeaderProblem::BadMagic)
    } else if b.len() < 6 {
        Some(HeaderProblem::Short)
    } else if le_u16(b.subrange(4, 6)) != WAL_VERSION {
        Some(HeaderProblem::BadVersion(le_u16(b.subrange(4, 6)) as u16))
    } else {
        None
    }
}

/// Checks the start of an existing WAL file (see `header_check`).
pub fn check_wal_header(bytes: &[u8]) -> (r: Result<(), CassetteError>)
    ensures
        match header_check(bytes@) {
            None => r is Ok,
            Some(HeaderProblem::Short) => r matches Err(CassetteError::Io(m)) && m@
                == "failed to fill whole buffer"@,
            Some(HeaderProblem::BadMagic) => r matches Err(CassetteError::Wal(m)) && m@ == "Invalid WAL magic"@,
            Some(HeaderProblem::BadVersion(v)) => r matches Err(CassetteError::Wal(m)) && m@
                == "Unsupported WAL version "@ + crate::text::decimal(v as nat),
        },
{
    if bytes.len() < 4 {
        return Err(CassetteError::Io("failed to fill whole buffer".to_string()));
    }
    if bytes[0] != WAL_MAGIC[0] || bytes[1] != WAL_MAGIC[1] || bytes[2] != WAL_MAGIC[2] || bytes[3]
        != WAL_MAGIC[3] {
        assert(bytes@.take(4) != WAL_MAGIC@) by {
            if bytes@.take(4) == WAL_MAGIC@ {
                assert(bytes@.take(4)[0] == bytes@[0]);
                assert(bytes@.take(4)[1] == bytes@[1]);
                assert(bytes@.take(4)[2] == bytes@[2]);
                assert(bytes@.take(4)[3] == bytes@[3]);
            }
        }
        return Err(CassetteError::Wal("Invalid WAL magic".to_string()));
    }
    assert(bytes@.take(4) =~= WAL_MAGIC@);
    if bytes.len() < 6 {
        return Err(CassetteError::Io("failed to fill whole buffer".to_string()));
    }
    let version = read_u16_at(bytes, 4);
    if version != WAL_VERSION {
        let mut m = chars_of("Unsupported WAL version ");
        push_decimal(&mut m, version as u64);
        return Err(CassetteError::Wal(string_of(m.as_slice())));
    }
    Ok(())
}

} // verus!

verus! {

/// The bytes of one record: code, ID length, ID, payload length, payload,
/// payload checksum, and a zero commit flag.  Lengths are cut to 32 bits.
pub open spec fn record_bytes(op: u8, id: Seq<u8>, payload: Seq<u8>) -> Seq<u8> {
    seq![op] + u32_bytes(id.len() as u32) + id + u32_bytes(payload.len() as u32) + payload + u32_bytes(
        crc32(payload),
    ) + seq![0u8]
}

fn push_bytes(buf: &mut Vec<u8>, b: &[u8])
    ensures
        final(buf)@ == old(buf)@ + b@,
{
    let mut i: usize = 0;
    while i < b.len()
        invariant
            i <= b@.len(),
            buf@ == old(buf)@ + b@.take(i as int),
        decreases b.len() - i,
    {
        buf.push(b[i]);
        i = i + 1;
        assert(buf@ =~= old(buf)@ + b@.take(i as int));
    }
    assert(b@.take(i as int) =~= b@);
}

/// Encodes a record (see `record_bytes`); the ID is written as UTF-8.
pub fn encode_record(op: WalOp, doc_id: &str, payload: &[u8]) -> (r: Vec<u8>)
    ensures
        r@ == record_bytes(op_code(op), vstd::utf8::encode_utf8(doc_id@), payload@),
{
    let id = doc_id.as_bytes();
    let mut buf: Vec<u8> = Vec::new();
    buf.push(op.code());
    push_u32(&mut buf, id.len() as u32);
    push_bytes(&mut buf, id);
    push_u32(&mut buf, payload.len() as u32);
    push_bytes(&mut buf, payload);
    push_u32(&mut buf, checksum(payload));
    buf.push(0u8);
    assert(buf@ =~= record_bytes(op_code(op), vstd::utf8::encode_utf8(doc_id@), payload@));
    buf
}

/// The result of reading one record at an offset.
pub enum RecordScan {
    /// No bytes are left.
    End,
    /// The bytes end inside the record.
    Truncated,
    /// A whole record, and the offset just after it.
    Record { op: u8, id: Seq<u8>, payload: Seq<u8>, checksum: u32, flag: u8, next: int },
}

/// Reads the record that starts at `at` in `b`.
pub open spec fn scan_record(b: Seq<u8>, at: int) -> RecordScan {
    if at >= b.len() {
        RecordScan::End
    } else if at + 5 > b.len() {
        RecordScan::Truncated
    } else {
        let p = at + 5 + le_u32(b.subrange(at + 1, at + 5));
        if p + 4 > b.len() {
            RecordScan::Truncated
        } else {
            let q = p + 4 + le_u32(b.subrange(p, p + 4));
            if q + 5 > b.len() {
                RecordScan::Truncated
            } else {
                RecordScan::Record {
                    op: b[at],
                    id: b.subrange(at + 5, p),
                    payload: b.subrange(p + 4, q),
                    checksum: le_u32(b.subrange(q, q + 4)) as u32,
                    flag: b[q + 4],
                    next: q + 5,
                }
            }
        }
    }
}

/// A record read from a buffer.
#[derive(Debug)]
pub struct RawRecord {
    pub op: u8,
    pub id: Vec<u8>,
    pub payload: Vec<u8>,
    pub checksum: u32,
    pub flag: u8,
    pub next: usize,
}

fn copy_range(b: &[u8], from: usize, to: usize) -> (r: Vec<u8>)
    requires
        from <= to <= b@.len(),
    ensures
        r@ == b@.subrange(from as int, to as int),
{
    let mut out: Vec<u8> = Vec::new();
    let mut k = from;
    while k < to
        invariant
            from <= k <= to <= b@.len(),
            out@ == b@.subrange(from as int, k as int),
        decreases to - k,
    {
        out.push(b[k]);
        k = k + 1;
        assert(out@ =~= b@.subrange(from as int, k as int));
    }
    out
}

/// Reads the record that starts at `at` (see `scan_record`): `Ok(None)` at
/// the end, an end-of-file error inside a record.
pub fn read_record(b: &[u8], at: usize) -> (r: Result<Option<RawRecord>, CassetteError>)
    ensures
        match scan_record(b@, at as int) {
            RecordScan::End => r matches Ok(None),
            RecordScan::Truncated => r matches Err(CassetteError::Io(m)) && m@ == "failed to fill whole buffer"@,
            RecordScan::Record { op, id, payload, checksum, flag, next } => r matches Ok(Some(x)) && x.op == op
                && x.id@ == id && x.payload@ == payload && x.checksum == checksum && x.flag == flag && x.next
                == next,
        },
{
    let n = b.len();
    if at >= n {
        return Ok(None);
    }
    if n - at < 5 {
        return Err(CassetteError::Io("failed to fill whole buffer".to_string()));
    }
    let idl = read_u32_at(b, at + 1) as usize;
    if idl > n - at - 5 || n - at - 5 - idl < 4 {
        return Err(CassetteError::Io("failed to fill whole buffer".to_string()));
    }
    let p = at + 5 + idl;
    let pl = read_u32_at(b, p) as usize;
    if pl > n - p - 4 || n - p - 4 - pl < 5 {
        return Err(CassetteError::Io("failed to fill whole buffer".to_string()));
    }
    let q = p + 4 + pl;
    let rec = RawRecord {
        op: b[at],
        id: copy_range(b, at + 5, p),
        payload: copy_range(b, p + 4, q),
        checksum: read_u32_at(b, q),
        flag: b[q + 4],
        next: q + 5,
    };
    Ok(Some(rec))
}

/// Reading back an encoded record gives its fields, for an ID and payload
/// that fit the 32-bit lengths.
#[verifier::rlimit(40)]
pub proof fn lemma_record_roundtrip(op: u8, id: Seq<u8>, payload: Seq<u8>, rest: Seq<u8>)
    requires
        id.len() <= u32::MAX,
        payload.len() <= u32::MAX,
    ensures
        scan_record(record_bytes(op, id, payload) + rest, 0) == (RecordScan::Record {
            op,
            id,
            payload,
            checksum: crc32(payload),
            flag: 0,
            next: (id.len() + payload.len() + 14) as int,
        }),
{
    crate::bytes::lemma_u32_roundtrip(id.len() as u32);
    crate::bytes::lemma_u32_roundtrip(payload.len() as u32);
    crate::bytes::lemma_u32_roundtrip(crc32(payload));
    let a = seq![op] + u32_bytes(id.len() as u32);
    let c = a + id;
    let d = c + u32_bytes(payload.len() as u32);
    let e = d + payload;
    let f = e + u32_bytes(crc32(payload));
    let g = f + seq![0u8];
    assert(record_bytes(op, id, payload) == g);
    let b = g + rest;
    let p: int = 5 + id.len() as int;
    let q: int = p + 4 + payload.len();
    lemma_slice_of_sum(seq![op], u32_bytes(id.len() as u32), id + u32_bytes(payload.len() as u32) + payload
        + u32_bytes(crc32(payload)) + seq![0u8] + rest);
    assert(b =~= seq![op] + u32_bytes(id.len() as u32) + (id + u32_bytes(payload.len() as u32) + payload
        + u32_bytes(crc32(payload)) + seq![0u8] + rest));
    assert(b.subrange(1, 5) == u32_bytes(id.len() as u32));
    assert(b =~= a + id + (u32_bytes(payload.len() as u32) + payload + u32_bytes(crc32(payload)) + seq![0u8]
        + rest));
    lemma_slice_of_sum(a, id, u32_bytes(payload.len() as u32) + payload + u32_bytes(crc32(payload)) + seq![
        0u8,
    ] + rest);
    assert(b =~= c + u32_bytes(payload.len() as u32) + (payload + u32_bytes(crc32(payload)) + seq![0u8] + rest));
    lemma_slice_of_sum(c, u32_bytes(payload.len() as u32), payload + u32_bytes(crc32(payload)) + seq![0u8]
        + rest);
    assert(b =~= d + payload + (u32_bytes(crc32(payload)) + seq![0u8] + rest));
    lemma_slice_of_sum(d, payload, u32_bytes(crc32(payload)) + seq![0u8] + rest);
    assert(b =~= e + u32_bytes(crc32(payload)) + (seq![0u8] + rest));
    lemma_slice_of_sum(e, u32_bytes(crc32(payload)), seq![0u8] + rest);
    assert(b =~= f + seq![0u8] + rest);
    assert(b[q + 4] == 0u8);
}

/// The middle part of a sum of three sequences.
proof fn lemma_slice_of_sum(x: Seq<u8>, y: Seq<u8>, z: Seq<u8>)
    ensures
        (x + y + z).subrange(x.len() as int, (x.len() + y.len()) as int) == y,
{
    assert((x + y + z).subrange(x.len() as int, (x.len() + y.len()) as int) =~= y);
}

} // verus!

verus! {

/// What a transaction-log entry means for recovery.
#[derive(Debug, Clone, Copy, PartialEq, Eq, Structural)]
pub enum WalControl {
    /// A transaction starts.
    Begin(u64),
    /// A transaction commits.
    Commit(u64),
    /// A transaction aborts.
    Abort(u64),
    /// A change to apply.
    Data,
}

/// Recovery state: the open transaction, and the changes it has logged.
#[derive(Debug)]
pub struct ReplayState<E> {
    pub current_tx: Option<u64>,
    pub pending: Vec<E>,
}

/// The plain value of a recovery state.
pub struct ReplayView<E> {
    pub current_tx: Option<u64>,
    pub pending: Seq<E>,
}

impl<E> View for ReplayState<E> {
    type V = ReplayView<E>;

    open spec fn view(&self) -> ReplayView<E> {
        ReplayView { current_tx: self.current_tx, pending: self.pending@ }
    }
}

/// One entry of recovery: the next state and the changes to apply now.
/// `Begin` opens a transaction (forgetting any unfinished one); `Commit`
/// of the open transaction applies its changes; `Commit` or `Abort` closes
/// the transaction; a change inside a transaction waits, and one outside
/// any is applied at once.
pub open spec fn replay_step<E>(s: ReplayView<E>, c: WalControl, e: E) -> (ReplayView<E>, Seq<E>) {
    match c {
        WalControl::Begin(t) => (ReplayView { current_tx: Some(t), pending: Seq::empty() }, Seq::empty()),
        WalControl::Commit(t) => (
            ReplayView { current_tx: None, pending: Seq::empty() },
            if s.current_tx == Some(t) { s.pending } else { Seq::empty() },
        ),
        WalControl::Abort(t) => (ReplayView { current_tx: None, pending: Seq::empty() }, Seq::empty()),
        WalControl::Data => if s.current_tx is Some {
            (ReplayView { pending: s.pending.push(e), ..s }, Seq::empty())
        } else {
            (s, seq![e])
        },
    }
}

/// Recovery over a log of entries from state `s`: the final state and the
/// changes applied, in order.
pub open spec fn replay_run<E>(s: ReplayView<E>, log: Seq<(WalControl, E)>) -> (ReplayView<E>, Seq<E>)
    decreases log.len(),
{
    if log.len() == 0 {
        (s, Seq::empty())
    } else {
        let (s1, out1) = replay_run(s, log.drop_last());
        let (s2, out2) = replay_step(s1, log.last().0, log.last().1);
        (s2, out1 + out2)
    }
}

/// The state recovery starts in: no transaction open.
pub open spec fn replay_start<E>() -> ReplayView<E> {
    ReplayView { current_tx: None, pending: Seq::empty() }
}

/// The changes recovery applies for a whole log.
pub open spec fn replayed<E>(log: Seq<(WalControl, E)>) -> Seq<E> {
    replay_run(replay_start(), log).1
}

impl<E> ReplayState<E> {
    /// The state recovery starts in.
    pub fn new() -> (r: Self)
        ensures
            r@ == replay_start::<E>(),
    {
        let r = ReplayState { current_tx: None, pending: Vec::new() };
        assert(r@.pending =~= Seq::<E>::empty());
        r
    }

    /// Takes one entry (see `replay_step`) and returns the changes to apply now.
    pub fn step(&mut self, control: WalControl, entry: E) -> (apply: Vec<E>)
        ensures
            (final(self)@, apply@) == replay_step(old(self)@, control, entry),
    {
        match control {
            WalControl::Begin(t) => {
                self.current_tx = Some(t);
                self.pending = Vec::new();
                assert(self@.pending =~= Seq::<E>::empty());
                let out: Vec<E> = Vec::new();
                assert(out@ =~= Seq::<E>::empty());
                out
            },
            WalControl::Commit(t) => {
                let mut out: Vec<E> = Vec::new();
                std::mem::swap(&mut out, &mut self.pending);
                let matches = match self.current_tx {
                    Some(c) => c == t,
                    None => false,
                };
                self.current_tx = None;
                assert(self@.pending =~= Seq::<E>::empty());
                if matches {
                    out
                } else {
                    let none: Vec<E> = Vec::new();
                    assert(none@ =~= Seq::<E>::empty());
                    none
                }
            },
            WalControl::Abort(_) => {
                self.current_tx = None;
                self.pending = Vec::new();
                assert(self@.pending =~= Seq::<E>::empty());
                let out: Vec<E> = Vec::new();
                assert(out@ =~= Seq::<E>::empty());
                out
            },
            WalControl::Data => {
                if self.current_tx.is_some() {
                    self.pending.push(entry);
                    let out: Vec<E> = Vec::new();
                    assert(out@ =~= Seq::<E>::empty());
                    out
                } else {
                    let mut out: Vec<E> = Vec::new();
                    out.push(entry);
                    assert(out@ =~= seq![entry]);
                    out
                }
            },
        }
    }
}

/// Changes logged alone, with no control entries among them.
pub open spec fn only_data<E>(body: Seq<(WalControl, E)>) -> bool {
    forall|i: int| 0 <= i < body.len() ==> (#[trigger] body[i]).0 == WalControl::Data
}

/// The changes of a log, without their control.
pub open spec fn changes<E>(body: Seq<(WalControl, E)>) -> Seq<E> {
    body.map_values(|x: (WalControl, E)| x.1)
}

/// Inside an open transaction, changes only wait: nothing is applied and
/// they join the pending ones in order.
proof fn lemma_body_waits<E>(s: ReplayView<E>, body: Seq<(WalControl, E)>)
    requires
        s.current_tx is Some,
        only_data(body),
    ensures
        replay_run(s, body) == (ReplayView { pending: s.pending + changes(body), ..s }, Seq::<E>::empty()),
    decreases body.len(),
{
    if body.len() == 0 {
        assert(s.pending + changes(body) =~= s.pending);
    } else {
        let init = body.drop_last();
        assert(only_data(init)) by {
            assert forall|i: int| 0 <= i < init.len() implies (#[trigger] init[i]).0 == WalControl::Data by {
                assert(init[i] == body[i]);
            }
        }
        lemma_body_waits(s, init);
        assert(body.last() == body[body.len() - 1]);
        assert(changes(body) =~= changes(init).push(body.last().1));
        assert(s.pending + changes(init) + seq![body.last().1] =~= s.pending + changes(body));
        assert(Seq::<E>::empty() + Seq::<E>::empty() =~= Seq::<E>::empty());
    }
}

/// Recovery over `log1 + log2` is recovery over `log2` from where `log1` left off.
proof fn lemma_run_append<E>(s: ReplayView<E>, log1: Seq<(WalControl, E)>, log2: Seq<(WalControl, E)>)
    ensures
        replay_run(s, log1 + log2) == ({
            let (s1, out1) = replay_run(s, log1);
            let (s2, out2) = replay_run(s1, log2);
            (s2, out1 + out2)
        }),
    decreases log2.len(),
{
    if log2.len() == 0 {
        assert(log1 + log2 =~= log1);
        let (s1, out1) = replay_run(s, log1);
        assert(out1 + Seq::<E>::empty() =~= out1);
    } else {
        lemma_run_append(s, log1, log2.drop_last());
        assert((log1 + log2).drop_last() =~= log1 + log2.drop_last());
        assert((log1 + log2).last() == log2.last());
        let (s1, out1) = replay_run(s, log1);
        let (s2, out2) = replay_run(s1, log2.drop_last());
        let (s3, out3) = replay_step(s2, log2.last().0, log2.last().1);
        assert(out1 + out2 + out3 =~= out1 + (out2 + out3));
    }
}

/// Recovery over a single entry is that entry's step.
proof fn lemma_run_one<E>(s: ReplayView<E>, x: (WalControl, E))
    ensures
        replay_run(s, seq![x]) == replay_step(s, x.0, x.1),
{
    assert(seq![x].drop_last() =~= Seq::<(WalControl, E)>::empty());
    assert(replay_run(s, Seq::<(WalControl, E)>::empty()) == (s, Seq::<E>::empty()));
    let (s2, out2) = replay_step(s, x.0, x.1);
    assert(Seq::<E>::empty() + out2 =~= out2);
}

/// Recovery up to and through the `Begin` of a transaction and its changes:
/// the transaction is open with its changes pending, and nothing more is
/// applied than before it.
proof fn lemma_open_transaction<E>(prefix: Seq<(WalControl, E)>, t: u64, b: E, body: Seq<(WalControl, E)>)
    requires
        only_data(body),
    ensures
        replay_run(replay_start::<E>(), prefix + seq![(WalControl::Begin(t), b)] + body) == (
            ReplayView::<E> { current_tx: Some(t), pending: changes(body) },
            replayed(prefix),
        ),
{
    let s0 = replay_start::<E>();
    let opened = ReplayView::<E> { current_tx: Some(t), pending: Seq::empty() };
    let begin = seq![(WalControl::Begin(t), b)];
    lemma_run_append(s0, prefix, begin);
    let (sp, outp) = replay_run(s0, prefix);
    lemma_run_one(sp, (WalControl::Begin(t), b));
    assert(replay_run(sp, begin) == (opened, Seq::<E>::empty()));
    assert(outp + Seq::<E>::empty() =~= outp);
    assert(replay_run(s0, prefix + begin) == (opened, outp));
    lemma_run_append(s0, prefix + begin, body);
    lemma_body_waits(opened, body);
    assert(Seq::<E>::empty() + changes(body) =~= changes(body));
    assert(outp + Seq::<E>::empty() =~= outp);
}

/// A committed transaction's changes are applied, in order, when its
/// commit is read.
pub proof fn lemma_committed_transaction_applied<E>(
    prefix: Seq<(WalControl, E)>,
    t: u64,
    b: E,
    body: Seq<(WalControl, E)>,
    c: E,
)
    requires
        only_data(body),
    ensures
        replayed(prefix + seq![(WalControl::Begin(t), b)] + body + seq![(WalControl::Commit(t), c)])
            == replayed(prefix) + changes(body),
{
    let s0 = replay_start::<E>();
    let open_log = prefix + seq![(WalControl::Begin(t), b)] + body;
    lemma_open_transaction(prefix, t, b, body);
    lemma_run_append(s0, open_log, seq![(WalControl::Commit(t), c)]);
    let st = ReplayView::<E> { current_tx: Some(t), pending: changes(body) };
    lemma_run_one(st, (WalControl::Commit(t), c));
}

/// An aborted transaction's changes are never applied.
pub proof fn lemma_aborted_transaction_ignored<E>(
    prefix: Seq<(WalControl, E)>,
    t: u64,
    b: E,
    body: Seq<(WalControl, E)>,
    c: E,
)
    requires
        only_data(body),
    ensures
        replayed(prefix + seq![(WalControl::Begin(t), b)] + body + seq![(WalControl::Abort(t), c)])
            == replayed(prefix),
{
    let s0 = replay_start::<E>();
    let open_log = prefix + seq![(WalControl::Begin(t), b)] + body;
    lemma_open_transaction(prefix, t, b, body);
    lemma_run_append(s0, open_log, seq![(WalControl::Abort(t), c)]);
    let st = ReplayView::<E> { current_tx: Some(t), pending: changes(body) };
    lemma_run_one(st, (WalControl::Abort(t), c));
    assert(replayed(prefix) + Seq::<E>::empty() =~= replayed(prefix));
}

/// A transaction that never finishes (a crash before its commit) has
/// none of its changes applied.
pub proof fn lemma_unfinished_transaction_ignored<E>(
    prefix: Seq<(WalControl, E)>,
    t: u64,
    b: E,
    body: Seq<(WalControl, E)>,
)
    requires
        only_data(body),
    ensures
        replayed(prefix + seq![(WalControl::Begin(t), b)] + body) == replayed(prefix),
{
    lemma_open_transaction(prefix, t, b, body);
}

} // verus!

verus! {

/// The characters that `String::from_utf8_lossy` reads from `bytes`.
pub uninterp spec fn utf8_lossy(bytes: Seq<u8>) -> Seq<char>;

/// std `String::from_utf8_lossy`: the bytes read as UTF-8, with each
/// invalid sequence replaced; valid UTF-8 is read as it is.
#[verifier::external_body]
pub(crate) fn lossy_string(b: &[u8]) -> (r: String)
    ensures
        r@ == utf8_lossy(b@),
        vstd::utf8::valid_utf8(b@) ==> r@ == vstd::utf8::decode_utf8(b@),
{
    String::from_utf8_lossy(b).into_owned()
}

/// What the committed-record iterator yields next from offset `at`.
pub enum CommittedNext {
    /// No more records.
    Done,
    /// A read error, after which nothing more is read.
    Failed,
    /// A committed data record and the offset after it.
    Found { op: WalOp, id: Seq<u8>, payload: Seq<u8>, next: int },
    /// A committed record with an unknown code, and the offset after it.
    Unknown { next: int },
}

/// The next committed record from `at`: uncommitted records and
/// transaction-log records are skipped; an unknown code is an error.
pub open spec fn committed_next(b: Seq<u8>, at: int) -> CommittedNext
    decreases b.len() - at,
{
    match scan_record(b, at) {
        RecordScan::End => CommittedNext::Done,
        RecordScan::Truncated => CommittedNext::Failed,
        RecordScan::Record { op, id, payload, checksum, flag, next } => if flag == 0 || op == 4 {
            committed_next(b, next)
        } else if 1 <= op <= 3 {
            CommittedNext::Found {
                op: if op == 1 { WalOp::Insert } else if op == 2 { WalOp::Update } else { WalOp::Delete },
                id,
                payload,
                next,
            }
        } else {
            CommittedNext::Unknown { next }
        },
    }
}

/// The next committed record from `at` (see `committed_next`), with the
/// offset to continue from; the ID is read as lossy UTF-8.
pub fn next_committed(b: &[u8], at: usize) -> (r: (Option<Result<WalRecord, CassetteError>>, usize))
    ensures
        match committed_next(b@, at as int) {
            CommittedNext::Done => r.0 is None,
            CommittedNext::Failed => r.0 matches Some(Err(CassetteError::Io(m))) && m@
                == "failed to fill whole buffer"@ && r.1 == b@.len(),
            CommittedNext::Found { op, id, payload, next } => r.0 matches Some(Ok(rec)) && rec.op == op
                && rec.doc_id@ == utf8_lossy(id) && rec.payload@ == payload && r.1 == next,
            CommittedNext::Unknown { next } => r.0 matches Some(Err(CassetteError::Wal(m))) && m@
                == "Unknown op"@ && r.1 == next,
        },
{
    let mut pos = at;
    loop
        invariant
            at <= pos,
            committed_next(b@, at as int) == committed_next(b@, pos as int),
        decreases b@.len() - pos,
    {
        match read_record(b, pos) {
            Ok(None) => {
                return (None, pos);
            },
            Err(e) => {
                return (Some(Err(e)), b.len());
            },
            Ok(Some(rec)) => {
                if rec.flag == 0 || rec.op == 4 {
                    pos = rec.next;
                    assert(pos <= b@.len());
                } else {
                    let op = match WalOp::from_code(rec.op) {
                        Some(op) => op,
                        None => {
                            return (Some(Err(CassetteError::Wal("Unknown op".to_string()))), rec.next);
                        },
                    };
                    let doc_id = lossy_string(rec.id.as_slice());
                    return (Some(Ok(WalRecord { op, doc_id, payload: rec.payload })), rec.next);
                }
            },
        }
    }
}

} // verus!

verus! {

/// A transaction-log entry.
#[derive(Debug)]
pub enum WalEntry {
    Begin { tx_id: u64 },
    Insert { tx_id: u64, collection: String, doc: crate::json::JsonValue },
    Update { tx_id: u64, collection: String, id: String, doc: crate::json::JsonValue },
    Delete { tx_id: u64, collection: String, id: String },
    Commit { tx_id: u64 },
    Abort { tx_id: u64 },
}

/// What an entry means for recovery.
pub open spec fn entry_control(e: WalEntry) -> WalControl {
    match e {
        WalEntry::Begin { tx_id } => WalControl::Begin(tx_id),
        WalEntry::Commit { tx_id } => WalControl::Commit(tx_id),
        WalEntry::Abort { tx_id } => WalControl::Abort(tx_id),
        _ => WalControl::Data,
    }
}

impl WalEntry {
    /// What the entry means for recovery (see `entry_control`).
    pub fn control(&self) -> (r: WalControl)
        ensures
            r == entry_control(*self),
    {
        match self {
            WalEntry::Begin { tx_id } => WalControl::Begin(*tx_id),
            WalEntry::Commit { tx_id } => WalControl::Commit(*tx_id),
            WalEntry::Abort { tx_id } => WalControl::Abort(*tx_id),
            _ => WalControl::Data,
        }
    }
}

} // verus!

verus! {

/// A record that was appended and never committed is skipped on recovery:
/// reading committed records from it reads on from the record after it.
pub proof fn lemma_uncommitted_record_skipped(op: u8, id: Seq<u8>, payload: Seq<u8>, rest: Seq<u8>)
    requires
        id.len() <= u32::MAX,
        payload.len() <= u32::MAX,
    ensures
        committed_next(record_bytes(op, id, payload) + rest, 0) == committed_next(
            record_bytes(op, id, payload) + rest,
            (id.len() + payload.len() + 14) as int,
        ),
{
    lemma_record_roundtrip(op, id, payload, rest);
}

/// A data record whose commit flag was set is the next committed record:
/// its operation, ID and payload come back as they were written.
pub proof fn lemma_committed_record_read(op: u8, id: Seq<u8>, payload: Seq<u8>, rest: Seq<u8>)
    requires
        id.len() <= u32::MAX,
        payload.len() <= u32::MAX,
        1 <= op <= 3,
    ensures
        committed_next((record_bytes(op, id, payload) + rest).update((id.len() + payload.len() + 13) as int, 1u8), 0)
            == (CommittedNext::Found {
            op: if op == 1 { WalOp::Insert } else if op == 2 { WalOp::Update } else { WalOp::Delete },
            id,
            payload,
            next: (id.len() + payload.len() + 14) as int,
        }),
{
    lemma_record_roundtrip(op, id, payload, rest);
    let b = record_bytes(op, id, payload) + rest;
    let f: int = (id.len() + payload.len() + 13) as int;
    let c = b.update(f, 1u8);
    let p: int = (5 + id.len()) as int;
    let q: int = p + 4 + payload.len();
    assert(q + 4 == f);
    assert(c.subrange(1, 5) =~= b.subrange(1, 5));
    assert(c.subrange(p, p + 4) =~= b.subrange(p, p + 4));
    assert(c.subrange(5, p) =~= b.subrange(5, p));
    assert(c.subrange(p + 4, q) =~= b.subrange(p + 4, q));
    assert(c.subrange(q, q + 4) =~= b.subrange(q, q + 4));
    assert(c[0] == b[0]);
    assert(c[f] == 1u8);
}

} // verus!
