use cassettedb::error::CassetteError;
use cassettedb::storage::{
    assemble, page_of, pages_needed, snapshot_trailer_page, trailer_len, trailer_page, Header, MAGIC, PAGE_SIZE,
    VERSION,
};

#[test]
fn fresh_header_round_trips() {
    let h = Header::new();
    assert_eq!(h.magic, MAGIC);
    assert_eq!(h.version, VERSION);
    assert_eq!(h.num_pages, 1);
    assert_eq!(h.free_list_head, 0);
    let bytes = h.encode();
    assert_eq!(bytes.len(), PAGE_SIZE);
    assert_eq!(&bytes[..4], b"CDB1");
    assert_eq!(&bytes[6..8], &(PAGE_SIZE as u16).to_le_bytes());
    assert_eq!(Header::decode(&bytes).unwrap(), h);
}

#[test]
fn bad_headers_are_corrupt() {
    assert!(matches!(Header::decode(&[0u8; 10]), Err(CassetteError::Corrupt(m)) if m == "Header too short"));
    assert!(matches!(Header::decode(&[0u8; 64]), Err(CassetteError::Corrupt(m)) if m == "Invalid magic"));
}

#[test]
fn page_bookkeeping() {
    let mut h = Header::new();
    assert_eq!(h.append_page(), 1);
    assert_eq!(h.append_page(), 2);
    assert_eq!(h.num_pages, 3);
    assert_eq!(h.release_page(2), 0);
    assert_eq!(h.release_page(1), 2);
    assert_eq!(h.free_list_head, 1);
    assert_eq!(h.reuse_free_page(2), 1);
    assert_eq!(h.free_list_head, 2);
    h.increment_doc_count(-5);
    assert_eq!(h.doc_count, 0);
    h.increment_doc_count(3);
    assert_eq!(h.doc_count, 3);
    h.doc_count = u32::MAX - 1;
    h.increment_doc_count(7);
    assert_eq!(h.doc_count, u32::MAX);
}

#[test]
fn trailer_records_the_payload_length() {
    let t = trailer_page(0x0102030405060708);
    assert_eq!(t.len(), PAGE_SIZE);
    assert_eq!(&t[..8], &[8, 7, 6, 5, 4, 3, 2, 1]);
    assert!(t[8..].iter().all(|b| *b == 0));
    assert_eq!(trailer_len(&t), 0x0102030405060708);
}

#[test]
fn payload_pages_read_back() {
    let payload: Vec<u8> = (0..10000u32).map(|i| (i % 251) as u8).collect();
    let n = pages_needed(payload.len());
    assert_eq!(n, 3);
    assert_eq!(pages_needed(0), 0);
    assert_eq!(pages_needed(PAGE_SIZE), 1);
    let pages: Vec<Vec<u8>> = (0..n).map(|i| page_of(&payload, i)).collect();
    assert!(pages.iter().all(|p| p.len() == PAGE_SIZE));
    assert_eq!(pages[2][10000 - 2 * PAGE_SIZE], 0);
    assert_eq!(assemble(&pages, payload.len()), payload);
    assert_eq!(assemble(&pages, 5), payload[..5].to_vec());
}

#[test]
fn recovery_reads_the_snapshot_only_for_an_empty_log_and_a_paged_file() {
    assert_eq!(snapshot_trailer_page(0, 4), Some(3));
    assert_eq!(snapshot_trailer_page(0, 2), Some(1));
    assert_eq!(snapshot_trailer_page(0, 1), None);
    assert_eq!(snapshot_trailer_page(0, 0), None);
    assert_eq!(snapshot_trailer_page(5, 4), None);
}
