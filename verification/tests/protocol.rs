use std::collections::BTreeMap;

use bytes::Bytes;
use scale_kv::common::{Error, PAGE_SIZE};
use scale_kv::fsm_pg::{
    class_from_free_bytes, ensure_capacity, find_candidate, get_entry, init_fsm_pages, need_class,
    set_entry, update_leaf, FsmMeta,
};
use scale_kv::http_protocol::{
    append_txn_batch_url, durable_lsn_url, ensure_http_success, normalize_base_url, page_url,
    scan_pages_url, AppendTxnBatchRequest, GetPageResponse, ScanPagesResponse,
};
use scale_kv::wasm_compute::{decode_zero_padded_utf8, fixed_from_utf8, zero_padded_text};

fn space_map(leaves: u64) -> (FsmMeta, BTreeMap<u64, Bytes>) {
    let (meta, pages) = init_fsm_pages(1000, leaves, 100);
    (meta, pages.into_iter().collect())
}

#[test]
fn free_space_classes() {
    assert_eq!(class_from_free_bytes(0), 0);
    assert_eq!(class_from_free_bytes(64), 1);
    assert_eq!(need_class(129), 2);
    assert_eq!(class_from_free_bytes(PAGE_SIZE), 255);
    assert!(class_from_free_bytes(PAGE_SIZE) >= need_class(1));
}

#[test]
fn space_map_finds_a_page_with_room() {
    let (meta, mut pages) = space_map(300);
    assert_eq!(FsmMeta::decode(&meta.encode()).unwrap(), meta);
    assert!(FsmMeta::decode(&vec![0u8; PAGE_SIZE]).is_err());
    assert_eq!(find_candidate(&meta, &pages, 5).unwrap(), None);
    for (id, page) in update_leaf(&meta, &pages, 170, 9).unwrap() {
        pages.insert(id, page);
    }
    assert_eq!(get_entry(&meta, &pages, 0, 170).unwrap(), 9);
    assert_eq!(get_entry(&meta, &pages, 0, 169).unwrap(), 0);
    assert_eq!(find_candidate(&meta, &pages, 5).unwrap(), Some(170));
    assert_eq!(find_candidate(&meta, &pages, 10).unwrap(), None);
    for (id, page) in update_leaf(&meta, &pages, 170, 0).unwrap() {
        pages.insert(id, page);
    }
    assert_eq!(find_candidate(&meta, &pages, 5).unwrap(), None);
    let (id, page) = set_entry(&meta, &pages, 0, 3, 7).unwrap();
    pages.insert(id, page);
    assert_eq!(get_entry(&meta, &pages, 0, 3).unwrap(), 7);
}

#[test]
fn space_map_grows() {
    let (meta, _) = space_map(10);
    let (grown, fresh) = ensure_capacity(&meta, 20_000).unwrap();
    assert!(grown.leaf_count >= 20_000);
    assert!(!fresh.is_empty());
    let (same, none) = ensure_capacity(&grown, 20_000).unwrap();
    assert_eq!(same, grown);
    assert!(none.is_empty());
}

#[test]
fn urls_of_the_storage_service() {
    let base = normalize_base_url("127.0.0.1:80");
    assert_eq!(base, "http://127.0.0.1:80");
    assert_eq!(normalize_base_url("https://h/"), "https://h");
    assert!(durable_lsn_url(&base).starts_with("http://127.0.0.1:80/"));
    assert!(page_url(&base, 42).ends_with("/42"));
    assert_ne!(append_txn_batch_url(&base), scan_pages_url(&base));
    assert!(ensure_http_success(200, "").is_ok());
    assert!(ensure_http_success(299, "").is_ok());
    match ensure_http_success(503, "busy") {
        Err(Error::Io(e)) => assert!(e.message.contains("busy")),
        other => panic!("{other:?}"),
    }
}

#[test]
fn page_writes_arrive_as_sent() {
    let writes = vec![(3u64, Bytes::from(vec![1u8; PAGE_SIZE])), (4, Bytes::from(vec![2u8, 3]))];
    let req = AppendTxnBatchRequest::new(9, 5, 7, &writes);
    assert_eq!((req.request_id, req.start_lsn, req.end_lsn), (9, 5, 7));
    assert_eq!(req.pages(), writes);
    let got = GetPageResponse::new(8, Some((writes[0].1.clone(), 6)));
    assert_eq!(got.page(), Some((writes[0].1.clone(), 6, 8)));
    assert_eq!(GetPageResponse::new(8, None).page(), None);
    let items = vec![(3u64, 6u64, writes[0].1.clone())];
    assert_eq!(ScanPagesResponse::new(8, &items).items(), items);
}

#[test]
fn text_in_fixed_fields() {
    let b = fixed_from_utf8("abc", "key", 5).unwrap();
    assert_eq!(b, vec![b'a', b'b', b'c', 0, 0]);
    assert_eq!(zero_padded_text(&b), b"abc");
    assert_eq!(decode_zero_padded_utf8(&b), "abc");
    assert!(fixed_from_utf8("abcdef", "key", 5).unwrap_err().contains("key"));
    assert_eq!(decode_zero_padded_utf8(&[0xff, b'a', 0]), "\u{fffd}a");
}
