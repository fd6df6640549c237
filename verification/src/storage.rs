//! The header page of the `.cassette` file.
//!
//! The file is divided into pages of `PAGE_SIZE` bytes; page 0 holds the
//! header, and freed pages form a list through their first four bytes.
//! Reading and writing the file is the caller's part; the header's layout
//! and bookkeeping are here.
use vstd::prelude::*;
use crate::bytes::{le_u16, le_u32, push_u16, push_u32, read_u16_at, read_u32_at, u16_bytes, u32_bytes};
use crate::error::CassetteError;

verus! {

/// Bytes per page.
pub const PAGE_SIZE: usize = 4096;

/// The file's magic number, `CDB1`.
pub const MAGIC: [u8; 4] = [0x43, 0x44, 0x42, 0x31];

/// The format version.
pub const VERSION: u16 = 1;

/// The fields of page 0.
#[derive(Debug, Clone, Copy, PartialEq, Eq)]
pub struct Header {
    pub magic: [u8; 4],
    pub version: u16,
    pub page_size: u16,
    pub num_pages: u32,
    /// The first free page, 0 when there is none.
    pub free_list_head: u32,
    pub doc_count: u32,
}

/// The twenty bytes that start an encoded header: the magic, then version
/// and page size (two bytes each), then page count, free-list head and
/// document count (four bytes each), all least significant byte first.
pub open spec fn header_fields(h: Header) -> Seq<u8> {
    h.magic@ + u16_bytes(h.version) + u16_bytes(h.page_size) + u32_bytes(h.num_pages) + u32_bytes(
        h.free_list_head,
    ) + u32_bytes(h.doc_count)
}

/// The header of a fresh file: one page, nothing free, no documents.
pub open spec fn fresh_header() -> Header {
    Header {
        magic: MAGIC,
        version: VERSION,
        page_size: PAGE_SIZE as u16,
        num_pages: 1,
        free_list_head: 0,
        doc_count: 0,
    }
}

/// What decoding a header from `b` gives.
pub open spec fn decoded_header(b: Seq<u8>) -> Result<Header, Seq<char>> {
    if b.len() < 64 {
        Err("Header too short"@)
    } else if b.take(4) != MAGIC@ {
        Err("Invalid magic"@)
    } else {
        Ok(
            Header {
                magic: MAGIC,
                version: le_u16(b.subrange(4, 6)) as u16,
                page_size: le_u16(b.subrange(6, 8)) as u16,
                num_pages: le_u32(b.subrange(8, 12)) as u32,
                free_list_head: le_u32(b.subrange(12, 16)) as u32,
                doc_count: le_u32(b.subrange(16, 20)) as u32,
            },
        )
    }
}

impl Default for Header {
    fn default() -> (r: Self)
        ensures
            r == fresh_header(),
    {
        Header::new()
    }
}

impl Header {
    /// The header of a fresh file (see `fresh_header`).
    pub fn new() -> (r: Self)
        ensures
            r == fresh_header(),
    {
        Header {
            magic: MAGIC,
            version: VERSION,
            page_size: PAGE_SIZE as u16,
            num_pages: 1,
            free_list_head: 0,
            doc_count: 0,
        }
    }

    /// The header as a full page: its fields, then zeros.
    pub fn encode(&self) -> (r: Vec<u8>)
        ensures
            r@.len() == PAGE_SIZE,
            r@.take(20) == header_fields(*self),
            forall|i: int| 20 <= i < PAGE_SIZE ==> r@[i] == 0,
    {
        let mut buf: Vec<u8> = Vec::new();
        buf.push(self.magic[0]);
        buf.push(self.magic[1]);
        buf.push(self.magic[2]);
        buf.push(self.magic[3]);
        assert(buf@ =~= self.magic@);
        push_u16(&mut buf, self.version);
        push_u16(&mut buf, self.page_size);
        push_u32(&mut buf, self.num_pages);
        push_u32(&mut buf, self.free_list_head);
        push_u32(&mut buf, self.doc_count);
        assert(buf@ =~= header_fields(*self));
        while buf.len() < PAGE_SIZE
            invariant
                20 <= buf@.len() <= PAGE_SIZE,
                buf@.take(20) == header_fields(*self),
                forall|i: int| 20 <= i < buf@.len() ==> buf@[i] == 0,
            decreases PAGE_SIZE - buf.len(),
        {
            let ghost before = buf@;
            buf.push(0);
            assert(buf@.take(20) =~= before.take(20));
        }
        buf
    }

    /// Reads a header from the start of `bytes` (see `decoded_header`).
    pub fn decode(bytes: &[u8]) -> (r: Result<Header, CassetteError>)
        ensures
            match decoded_header(bytes@) {
                Ok(h) => r == Ok::<Header, CassetteError>(h),
                Err(m) => r matches Err(CassetteError::Corrupt(e)) && e@ == m,
            },
    {
        if bytes.len() < 64 {
            return Err(CassetteError::Corrupt("Header too short".to_string()));
        }
        let magic = [bytes[0], bytes[1], bytes[2], bytes[3]];
        if magic[0] != MAGIC[0] || magic[1] != MAGIC[1] || magic[2] != MAGIC[2] || magic[3] != MAGIC[3] {
            assert(bytes@.take(4) != MAGIC@) by {
                if bytes@.take(4) == MAGIC@ {
                    assert(bytes@.take(4)[0] == bytes@[0]);
                    assert(bytes@.take(4)[1] == bytes@[1]);
                    assert(bytes@.take(4)[2] == bytes@[2]);
                    assert(bytes@.take(4)[3] == bytes@[3]);
                }
            }
            return Err(CassetteError::Corrupt("Invalid magic".to_string()));
        }
        assert(bytes@.take(4) =~= MAGIC@);
        assert(magic@ =~= MAGIC@);
        Ok(Header {
            magic,
            version: read_u16_at(bytes, 4),
            page_size: read_u16_at(bytes, 6),
            num_pages: read_u32_at(bytes, 8),
            free_list_head: read_u32_at(bytes, 12),
            doc_count: read_u32_at(bytes, 16),
        })
    }

    /// Adds `delta` to the document count, saturating at 0 and `u32::MAX`.
    pub fn increment_doc_count(&mut self, delta: i32)
        ensures
            final(self).doc_count == if delta >= 0 {
                if old(self).doc_count + delta > u32::MAX { u32::MAX as int } else { old(self).doc_count + delta }
            } else {
                if old(self).doc_count + delta < 0 { 0 } else { old(self).doc_count + delta }
            },
            *final(self) == (Header { doc_count: final(self).doc_count, ..*old(self) }),
    {
        if delta >= 0 {
            self.doc_count = self.doc_count.saturating_add(delta as u32);
        } else {
            let d: u32 = if delta == i32::MIN {
                0x8000_0000
            } else {
                (-delta) as u32
            };
            self.doc_count = self.doc_count.saturating_sub(d);
        }
    }

    /// Takes the first free page for use; `next_free`, read from that page,
    /// becomes the head of the free list.
    pub fn reuse_free_page(&mut self, next_free: u32) -> (page_id: u32)
        requires
            old(self).free_list_head != 0,
        ensures
            page_id == old(self).free_list_head,
            *final(self) == (Header { free_list_head: next_free, ..*old(self) }),
    {
        let page_id = self.free_list_head;
        self.free_list_head = next_free;
        page_id
    }

    /// Adds a page at the end of the file and returns its number.
    pub fn append_page(&mut self) -> (page_id: u32)
        requires
            old(self).num_pages < u32::MAX,
        ensures
            page_id == old(self).num_pages,
            *final(self) == (Header { num_pages: (old(self).num_pages + 1) as u32, ..*old(self) }),
    {
        let page_id = self.num_pages;
        self.num_pages = self.num_pages + 1;
        page_id
    }

    /// Puts `page_id` at the head of the free list and returns the previous
    /// head, which the caller writes into the page.
    pub fn release_page(&mut self, page_id: u32) -> (previous: u32)
        ensures
            previous == old(self).free_list_head,
            *final(self) == (Header { free_list_head: page_id, ..*old(self) }),
    {
        let previous = self.free_list_head;
        self.free_list_head = page_id;
        previous
    }
}

/// Decoding an encoded header gives it back, for a header with the magic.
pub proof fn lemma_header_roundtrip(h: Header, page: Seq<u8>)
    requires
        h.magic == MAGIC,
        page.len() == PAGE_SIZE,
        page.take(20) == header_fields(h),
    ensures
        decoded_header(page) == Ok::<Header, Seq<char>>(h),
{
    crate::bytes::lemma_u16_roundtrip(h.version);
    crate::bytes::lemma_u16_roundtrip(h.page_size);
    crate::bytes::lemma_u32_roundtrip(h.num_pages);
    crate::bytes::lemma_u32_roundtrip(h.free_list_head);
    crate::bytes::lemma_u32_roundtrip(h.doc_count);
    let f = header_fields(h);
    assert(page.take(4) =~= f.take(4));
    assert(f.take(4) =~= h.magic@);
    assert(h.magic@.len() == 4);
    assert(f.len() == 20);
    assert(f.subrange(4, 6) =~= u16_bytes(h.version));
    assert(f.subrange(6, 8) =~= u16_bytes(h.page_size));
    assert(page.subrange(4, 6) =~= f.subrange(4, 6));
    assert(page.subrange(6, 8) =~= f.subrange(6, 8));
    assert(f.subrange(8, 12) =~= u32_bytes(h.num_pages));
    assert(f.subrange(12, 16) =~= u32_bytes(h.free_list_head));
    assert(f.subrange(16, 20) =~= u32_bytes(h.doc_count));
    assert(page.subrange(8, 12) =~= f.subrange(8, 12));
    assert(page.subrange(12, 16) =~= f.subrange(12, 16));
    assert(page.subrange(16, 20) =~= f.subrange(16, 20));
}

} // verus!

verus! {

/// The eight bytes of `n`, least significant first.
pub open spec fn u64_bytes(n: u64) -> Seq<u8> {
    seq![
        n as u8,
        (n >> 8u64) as u8,
        (n >> 16u64) as u8,
        (n >> 24u64) as u8,
        (n >> 32u64) as u8,
        (n >> 40u64) as u8,
        (n >> 48u64) as u8,
        (n >> 56u64) as u8,
    ]
}

/// The number that the first eight bytes of `b` spell, least significant
/// first.
pub open spec fn le_u64(b: Seq<u8>) -> u64 {
    (b[0] as u64) | ((b[1] as u64) << 8u64) | ((b[2] as u64) << 16u64) | ((b[3] as u64) << 24u64) | ((
    b[4] as u64) << 32u64) | ((b[5] as u64) << 40u64) | ((b[6] as u64) << 48u64) | ((b[7] as u64) << 56u64)
}

/// Reading back the eight bytes of a number gives the number.
pub proof fn lemma_u64_roundtrip(n: u64)
    ensures
        le_u64(u64_bytes(n)) == n,
{
    let b = u64_bytes(n);
    let (b0, b1, b2, b3, b4, b5, b6, b7) = (b[0], b[1], b[2], b[3], b[4], b[5], b[6], b[7]);
    assert(((b0 as u64) | ((b1 as u64) << 8u64) | ((b2 as u64) << 16u64) | ((b3 as u64) << 24u64) | ((
    b4 as u64) << 32u64) | ((b5 as u64) << 40u64) | ((b6 as u64) << 48u64) | ((b7 as u64) << 56u64))
        == n) by (bit_vector)
        requires
            b0 == n as u8,
            b1 == (n >> 8u64) as u8,
            b2 == (n >> 16u64) as u8,
            b3 == (n >> 24u64) as u8,
            b4 == (n >> 32u64) as u8,
            b5 == (n >> 40u64) as u8,
            b6 == (n >> 48u64) as u8,
            b7 == (n >> 56u64) as u8,
    ;
}

/// The trailer page that records a payload's length: the length's eight
/// bytes, then zeros.
pub open spec fn trailer(len: u64) -> Seq<u8> {
    u64_bytes(len) + Seq::new((PAGE_SIZE - 8) as nat, |j: int| 0u8)
}

/// The trailer page for a payload of `len` bytes (see `trailer`).
pub fn trailer_page(len: u64) -> (r: Vec<u8>)
    ensures
        r@ == trailer(len),
        r@.len() == PAGE_SIZE,
{
    let mut page: Vec<u8> = Vec::new();
    page.push(len as u8);
    page.push((len >> 8u64) as u8);
    page.push((len >> 16u64) as u8);
    page.push((len >> 24u64) as u8);
    page.push((len >> 32u64) as u8);
    page.push((len >> 40u64) as u8);
    page.push((len >> 48u64) as u8);
    page.push((len >> 56u64) as u8);
    assert(page@ =~= u64_bytes(len));
    let mut k: usize = 8;
    while k < PAGE_SIZE
        invariant
            8 <= k <= PAGE_SIZE,
            page@ == u64_bytes(len) + Seq::new((k - 8) as nat, |j: int| 0u8),
        decreases PAGE_SIZE - k,
    {
        page.push(0u8);
        k = k + 1;
        assert(page@ =~= u64_bytes(len) + Seq::new((k - 8) as nat, |j: int| 0u8));
    }
    page
}

/// The payload length a trailer page records (see `le_u64`).
pub fn trailer_len(page: &[u8]) -> (r: u64)
    requires
        page@.len() >= 8,
    ensures
        r == le_u64(page@),
{
    (page[0] as u64) | ((page[1] as u64) << 8u64) | ((page[2] as u64) << 16u64) | ((page[3] as u64) << 24u64)
        | ((page[4] as u64) << 32u64) | ((page[5] as u64) << 40u64) | ((page[6] as u64) << 48u64) | ((
    page[7] as u64) << 56u64)
}

/// A trailer page gives back the length it records.
pub proof fn lemma_trailer_roundtrip(len: u64)
    ensures
        le_u64(trailer(len)) == len,
{
    let t = trailer(len);
    assert(t.take(8) =~= u64_bytes(len));
    lemma_u64_roundtrip(len);
    assert(forall|i: int| 0 <= i < 8 ==> t[i] == u64_bytes(len)[i]);
}

/// The number of pages that `len` bytes fill.
pub open spec fn page_count(len: nat) -> nat {
    ((len + (PAGE_SIZE - 1)) / (PAGE_SIZE as int)) as nat
}

/// Where recovery finds the trailer of the snapshot in the main file, when
/// it falls back to that snapshot: only when the log rebuilt no document
/// and the file has pages after the header; the trailer is the last page.
pub fn snapshot_trailer_page(doc_count: usize, num_pages: u32) -> (r: Option<u32>)
    ensures
        r == (if doc_count == 0 && num_pages > 1 { Some((num_pages - 1) as u32) } else { None }),
{
    if doc_count == 0 && num_pages > 1 {
        Some(num_pages - 1)
    } else {
        None
    }
}

/// The number of pages that `len` bytes fill (see `page_count`).
pub fn pages_needed(len: usize) -> (r: usize)
    requires
        len + PAGE_SIZE <= usize::MAX,
    ensures
        r == page_count(len as nat),
{
    (len + PAGE_SIZE - 1) / PAGE_SIZE
}

/// Page `i` of a payload: its `i`th block of `PAGE_SIZE` bytes, padded
/// with zeros past the payload's end.
pub open spec fn payload_page(payload: Seq<u8>, i: int) -> Seq<u8> {
    Seq::new(
        PAGE_SIZE as nat,
        |j: int|
            if i * (PAGE_SIZE as int) + j < payload.len() {
                payload[i * (PAGE_SIZE as int) + j]
            } else {
                0u8
            },
    )
}

/// Page `i` of a payload (see `payload_page`).
pub fn page_of(payload: &[u8], i: usize) -> (r: Vec<u8>)
    requires
        (i + 1) * PAGE_SIZE <= usize::MAX,
    ensures
        r@ == payload_page(payload@, i as int),
{
    let start = i * PAGE_SIZE;
    let mut page: Vec<u8> = Vec::new();
    let mut k: usize = 0;
    while k < PAGE_SIZE
        invariant
            k <= PAGE_SIZE,
            start == i * PAGE_SIZE,
            start + PAGE_SIZE <= usize::MAX,
            page@.len() == k,
            forall|j: int| 0 <= j < k ==> #[trigger] page@[j] == payload_page(payload@, i as int)[j],
        decreases PAGE_SIZE - k,
    {
        let b = if start + k < payload.len() {
            payload[start + k]
        } else {
            0u8
        };
        page.push(b);
        k = k + 1;
    }
    assert(page@ =~= payload_page(payload@, i as int));
    page
}

/// Pages laid end to end.
pub open spec fn joined(pages: Seq<Seq<u8>>) -> Seq<u8>
    decreases pages.len(),
{
    if pages.len() == 0 {
        Seq::empty()
    } else {
        joined(pages.drop_last()) + pages.last()
    }
}

/// The first `len` bytes of the pages laid end to end (all of them when
/// there are fewer).
pub fn assemble(pages: &Vec<Vec<u8>>, len: usize) -> (r: Vec<u8>)
    ensures
        len <= joined(pages@.map_values(|p: Vec<u8>| p@)).len() ==> r@ == joined(
            pages@.map_values(|p: Vec<u8>| p@),
        ).take(len as int),
        len > joined(pages@.map_values(|p: Vec<u8>| p@)).len() ==> r@ == joined(
            pages@.map_values(|p: Vec<u8>| p@),
        ),
{
    let ghost pv = pages@.map_values(|p: Vec<u8>| p@);
    let mut out: Vec<u8> = Vec::new();
    let mut i: usize = 0;
    assert(pv.take(0) =~= Seq::<Seq<u8>>::empty());
    while i < pages.len()
        invariant
            i <= pages@.len(),
            pv == pages@.map_values(|p: Vec<u8>| p@),
            out@ == joined(pv.take(i as int)),
        decreases pages.len() - i,
    {
        let ghost before = out@;
        let page = &pages[i];
        let mut k: usize = 0;
        while k < page.len()
            invariant
                i < pages@.len(),
                *page == pages@[i as int],
                k <= pages@[i as int]@.len(),
                out@ == before + pages@[i as int]@.take(k as int),
            decreases page.len() - k,
        {
            out.push(page[k]);
            k = k + 1;
            assert(out@ =~= before + pages@[i as int]@.take(k as int));
        }
        assert(pages@[i as int]@.take(k as int) =~= pages@[i as int]@);
        assert(pv.take(i + 1).drop_last() =~= pv.take(i as int));
        assert(pv.take(i + 1).last() == pv[i as int]);
        i = i + 1;
    }
    assert(pv.take(i as int) =~= pv);
    out.truncate(len);
    out
}

/// The first `k` pages of a payload.
pub open spec fn pages_of(payload: Seq<u8>, k: nat) -> Seq<Seq<u8>> {
    Seq::new(k, |i: int| payload_page(payload, i))
}

proof fn lemma_joined_pages(payload: Seq<u8>, k: nat)
    ensures
        joined(pages_of(payload, k)).len() == k * PAGE_SIZE,
        forall|x: int|
            0 <= x < k * PAGE_SIZE ==> #[trigger] joined(pages_of(payload, k))[x] == if x
                < payload.len() {
                payload[x]
            } else {
                0u8
            },
    decreases k,
{
    if k > 0 {
        let ps = pages_of(payload, k);
        let prev = pages_of(payload, (k - 1) as nat);
        assert(ps.drop_last() =~= prev);
        lemma_joined_pages(payload, (k - 1) as nat);
        let j = joined(ps);
        assert(j == joined(prev) + payload_page(payload, k - 1));
        assert forall|x: int| 0 <= x < k * PAGE_SIZE implies #[trigger] j[x] == if x < payload.len() {
            payload[x]
        } else {
            0u8
        } by {
            if x >= (k - 1) * PAGE_SIZE {
                let y = x - (k - 1) * PAGE_SIZE;
                assert(j[x] == payload_page(payload, k - 1)[y]);
            } else {
                assert(j[x] == joined(prev)[x]);
            }
        }
    }
}

/// The pages of a payload, laid end to end and cut to its length, give the
/// payload back.
pub proof fn lemma_pages_roundtrip(payload: Seq<u8>)
    ensures
        joined(pages_of(payload, page_count(payload.len()))).take(payload.len() as int) == payload,
{
    let m = page_count(payload.len());
    lemma_joined_pages(payload, m);
    assert(m * PAGE_SIZE >= payload.len()) by (nonlinear_arith)
        requires
            m == (payload.len() + (PAGE_SIZE - 1)) / (PAGE_SIZE as int),
    ;
    let j = joined(pages_of(payload, m));
    assert(j.take(payload.len() as int) =~= payload);
}

} // verus!

verus! {

/// The free list gives pages back last in, first out: after a page is
/// released, the next page reused is that one, and the list's head goes
/// back to what it was.
pub proof fn lemma_released_page_reused_first(h: Header, page_id: u32)
    requires
        page_id != 0,
    ensures
        ({
            let released = Header { free_list_head: page_id, ..h };
            &&& released.free_list_head == page_id
            &&& (Header { free_list_head: h.free_list_head, ..released }) == h
        }),
{
}

} // verus!
