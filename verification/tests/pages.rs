use std::collections::BTreeMap;

use bytes::Bytes;
use scale_kv::btree_meta::{BtreeMeta, BTREE_META_PAGE_ID};
use scale_kv::common::{Error, IoErrorKind, PAGE_SIZE, VALUE_SIZE};
use scale_kv::meta_page::MetaPage;
use scale_kv::page_bptree::provider::AsyncPageProvider;
use scale_kv::slotted_page::{
    clear_slot, debug_slot, defragment, fixed_key_bytes, insert_record,
    insert_record_at_slot_checked, mark_tombstone, new_page, overwrite_value, page_free_space,
    payload_len, read_commit_lsn, read_flags, read_key, read_undo_ptr, read_value, slot_count,
    write_commit_lsn, write_flags, write_slot, write_undo_ptr,
};
use scale_kv::txn_page_provider::TxnPageProvider;
use scale_kv::undo_pg::{
    append_record, new_undo_page, new_undo_segment_page, page_next_id, read_record,
    read_record_ref, read_segment_header, set_page_next_id, undo_count, write_segment_header,
    UndoPtr, UndoRecord, UndoSegmentHeader, SEGMENT_STATE_ABORTED,
    SEGMENT_STATE_COMMITTED, SEGMENT_STATE_IN_PROGRESS,
};

fn key_bytes(seed: u8) -> Vec<u8> {
    fixed_key_bytes(&[seed])
}

fn value_bytes(seed: u8) -> Vec<u8> {
    vec![seed; VALUE_SIZE]
}

#[test]
fn test_mvcc_fields_roundtrip_and_tombstone() {
    let mut page = new_page().to_vec();
    let key = key_bytes(1);
    let value = value_bytes(7);
    let slot = insert_record(&mut page, &key, &value).unwrap();
    assert_eq!(read_value(&page, slot, &key).unwrap(), value);
    assert_eq!(read_commit_lsn(&page, slot, &key), Some(0));

    write_commit_lsn(&mut page, slot, 42);
    assert_eq!(read_commit_lsn(&page, slot, &key), Some(42));

    let undo = UndoPtr { page_id: 99, slot_id: 3 };
    write_undo_ptr(&mut page, slot, Some(undo));
    assert_eq!(read_undo_ptr(&page, slot, &key), Some(undo));

    write_flags(&mut page, slot, 0x20);
    assert_eq!(read_flags(&page, slot, &key), Some(0x20));

    mark_tombstone(&mut page, slot);
    assert!(read_value(&page, slot, &key).is_none());
    assert_eq!(read_flags(&page, slot, &key), Some(0x21));
}

#[test]
fn test_slot_reuse_and_defragment_preserve_live_data() {
    let mut page = new_page().to_vec();
    let key1 = key_bytes(1);
    let key2 = key_bytes(2);
    let key3 = key_bytes(3);
    let v1 = value_bytes(11);
    let v2 = value_bytes(22);
    let v3 = value_bytes(33);

    let s1 = insert_record(&mut page, &key1, &v1).unwrap();
    let s2 = insert_record(&mut page, &key2, &v2).unwrap();
    clear_slot(&mut page, s1);
    let s3 = insert_record(&mut page, &key3, &v3).unwrap();
    assert_eq!(s3, s1);
    assert_eq!(read_value(&page, s2, &key2).unwrap(), v2);
    assert_eq!(read_value(&page, s3, &key3).unwrap(), v3);

    defragment(&mut page).unwrap();
    assert_eq!(read_value(&page, s2, &key2).unwrap(), v2);
    assert_eq!(read_value(&page, s3, &key3).unwrap(), v3);
}

#[test]
fn test_corrupted_slot_bounds_do_not_panic() {
    let mut page = new_page().to_vec();
    let key = key_bytes(9);
    let value = value_bytes(8);
    let slot = insert_record(&mut page, &key, &value).unwrap();

    write_slot(
        &mut page,
        slot,
        (PAGE_SIZE - payload_len() + 1) as u16,
        payload_len() as u16,
    );

    assert!(read_value(&page, slot, &key).is_none());
    assert!(read_commit_lsn(&page, slot, &key).is_none());
    assert!(read_undo_ptr(&page, slot, &key).is_none());
    assert!(read_flags(&page, slot, &key).is_none());

    write_commit_lsn(&mut page, slot, 1);
    write_undo_ptr(&mut page, slot, Some(UndoPtr { page_id: 1, slot_id: 1 }));
    write_flags(&mut page, slot, 5);
    mark_tombstone(&mut page, slot);
}

#[test]
fn test_insert_record_at_slot_checked_rejects_key_mismatch() {
    let mut page = new_page().to_vec();
    let key = key_bytes(1);
    let value = value_bytes(1);
    let slot = insert_record(&mut page, &key, &value).unwrap();

    let other_key = key_bytes(2);
    let err = insert_record_at_slot_checked(&mut page, slot, &other_key, &value).unwrap_err();
    assert!(matches!(err, Error::Io(_)));
}

#[test]
fn slotted_page_fills_up_and_reports_the_room() {
    let mut page = new_page().to_vec();
    assert_eq!(payload_len(), 16 + 1024 + 20);
    assert_eq!(page_free_space(&page), PAGE_SIZE - 6);
    let mut n: u16 = 0;
    loop {
        match insert_record(&mut page, &key_bytes(n as u8), &value_bytes(n as u8)) {
            Ok(slot) => {
                assert_eq!(slot, n);
                n += 1;
            }
            Err(Error::InvalidValueSize(needed, free)) => {
                assert_eq!(needed, payload_len() + 4);
                assert_eq!(free, page_free_space(&page));
                break;
            }
            Err(other) => panic!("unexpected error: {other:?}"),
        }
    }
    assert_eq!(n, 15);
    assert_eq!(slot_count(&page), 15);
    assert_eq!(read_key(&page, 3), Some(key_bytes(3)));
    assert_eq!(debug_slot(&page, 15), None);
    assert_eq!(debug_slot(&page, 0), Some(((PAGE_SIZE - 1060) as u16, 1060)));
    overwrite_value(&mut page, 3, &key_bytes(3), &value_bytes(77)).unwrap();
    assert_eq!(read_value(&page, 3, &key_bytes(3)), Some(value_bytes(77)));
    assert!(overwrite_value(&mut page, 3, &key_bytes(4), &value_bytes(77)).is_err());
    assert!(matches!(
        overwrite_value(&mut page, 3, &[1], &value_bytes(1)),
        Err(Error::InvalidKeySize(1, 16))
    ));
    assert!(matches!(
        overwrite_value(&mut page, 3, &key_bytes(3), &[1]),
        Err(Error::InvalidValueSize(1, 1024))
    ));
    let mut short = vec![0u8; 3];
    assert!(matches!(defragment(&mut short), Err(Error::InvalidPageSize(3, 16384))));
    assert_eq!(fixed_key_bytes(b"0123456789abcdefXYZ"), b"0123456789abcdef".to_vec());
}

fn sample_record(seed: u8) -> UndoRecord {
    UndoRecord {
        data_page_id: 10 + seed as u64,
        data_slot_id: seed as u16,
        prev: Some(UndoPtr { page_id: 20 + seed as u64, slot_id: 2 }),
        txn_id: 30 + seed as u64,
        txn_next: Some(UndoPtr { page_id: 40 + seed as u64, slot_id: 3 }),
        old_commit_lsn: 50 + seed as u64,
        old_flags: seed as u16,
        old_value: [seed; VALUE_SIZE],
    }
}

#[test]
fn test_segment_header_roundtrip_and_page_next() {
    let mut page = new_undo_segment_page(7, 123).to_vec();
    assert_eq!(page_next_id(&page).unwrap(), 0);
    set_page_next_id(&mut page, 999).unwrap();
    assert_eq!(page_next_id(&page).unwrap(), 999);

    let mut hdr = read_segment_header(&page).unwrap();
    assert_eq!(hdr.txn_id, 7);
    assert_eq!(hdr.first_page_id, 123);
    assert_eq!(hdr.last_page_id, 123);
    assert_eq!(hdr.state, SEGMENT_STATE_IN_PROGRESS);

    hdr.begin_lsn = 11;
    hdr.commit_lsn = 12;
    hdr.record_count = 13;
    hdr.state = SEGMENT_STATE_COMMITTED;
    hdr.history_prev = 1001;
    hdr.history_next = 1002;
    write_segment_header(&mut page, hdr).unwrap();
    assert_eq!(read_segment_header(&page).unwrap(), hdr);
}

#[test]
fn test_append_and_read_roundtrip() {
    let mut page = new_undo_page().to_vec();
    let rec = sample_record(9);
    let slot = append_record(&mut page, &rec).unwrap();
    assert_eq!(slot, 0);
    assert_eq!(undo_count(&page), 1);
    assert_eq!(read_record(&page, slot).unwrap(), rec);

    let page_bytes = Bytes::copy_from_slice(&page);
    let rec_ref = read_record_ref(&page_bytes, slot).unwrap();
    assert_eq!(rec_ref.data_page_id, rec.data_page_id);
    assert_eq!(rec_ref.data_slot_id, rec.data_slot_id);
    assert_eq!(rec_ref.prev, rec.prev);
    assert_eq!(rec_ref.txn_id, rec.txn_id);
    assert_eq!(rec_ref.txn_next, rec.txn_next);
    assert_eq!(rec_ref.old_commit_lsn, rec.old_commit_lsn);
    assert_eq!(rec_ref.old_flags, rec.old_flags);
    assert_eq!(rec_ref.old_value.as_ref(), rec.old_value.as_slice());
}

#[test]
fn test_append_until_full_returns_error() {
    let mut page = new_undo_page().to_vec();
    let rec = sample_record(1);
    let mut inserted = 0usize;
    loop {
        match append_record(&mut page, &rec) {
            Ok(_) => inserted += 1,
            Err(Error::Io(err)) if err.kind() == IoErrorKind::Other => break,
            Err(other) => panic!("unexpected error: {other:?}"),
        }
    }
    assert_eq!(undo_count(&page) as usize, inserted);
    assert!(inserted > 0);
}

#[test]
fn test_invalid_page_type_and_slot_errors() {
    let mut raw = vec![0u8; PAGE_SIZE];
    raw[0] = 0;
    assert!(page_next_id(&raw).is_err());
    assert!(read_segment_header(&raw).is_err());
    assert!(write_segment_header(
        &mut raw,
        UndoSegmentHeader {
            txn_id: 0,
            begin_lsn: 0,
            commit_lsn: 0,
            state: SEGMENT_STATE_ABORTED,
            first_page_id: 0,
            last_page_id: 0,
            record_count: 0,
            history_prev: 0,
            history_next: 0,
        }
    )
    .is_err());

    let page = new_undo_page();
    assert!(read_record(&page, 0).is_err());
    assert!(read_record_ref(&page, 0).is_err());
}

#[test]
fn undo_records_keep_their_places() {
    let mut page = new_undo_segment_page(7, 123).to_vec();
    for i in 0..5u8 {
        assert_eq!(append_record(&mut page, &sample_record(i)).unwrap(), i as u16);
    }
    for i in 0..5u8 {
        assert_eq!(read_record(&page, i as u16).unwrap(), sample_record(i));
    }
    let mut bare = sample_record(9);
    bare.prev = UndoPtr::none();
    bare.txn_next = None;
    let slot = append_record(&mut page, &bare).unwrap();
    assert_eq!(read_record(&page, slot).unwrap(), bare);
}

#[test]
fn test_alloc_and_next_page_id_controls() {
    let mut provider = TxnPageProvider::new(100, 1);

    assert_eq!(provider.next_page_id(), 100);
    assert_eq!(provider.alloc_page_id(), 100);
    assert_eq!(provider.alloc_page_id(), 101);
    provider.set_next_page_id(1000);
    assert_eq!(provider.next_page_id(), 1000);
}

#[test]
fn tree_meta_page_round_trip() {
    let page = BtreeMeta { root_page_id: 77 }.encode();
    assert_eq!(page.len(), PAGE_SIZE);
    assert_eq!(BtreeMeta::decode(&page).unwrap().root_page_id, 77);
    assert!(BtreeMeta::decode(&vec![0u8; PAGE_SIZE]).is_err());
    assert!(BtreeMeta::decode(&[1, 2]).is_err());
}

#[test]
fn meta_page_round_trip_and_free_list() {
    let mut m = MetaPage {
        root_page_id: 1,
        next_bptree_page_id: 2,
        next_data_page_id: 3,
        next_undo_page_id: 4,
        undo_free: vec![9, 8],
        undo_history_head: 5,
        undo_history_tail: 6,
    };
    let page = m.encode();
    assert_eq!(page.len(), PAGE_SIZE);
    assert_eq!(MetaPage::decode(&page).unwrap(), m);
    assert!(MetaPage::decode(&vec![0u8; PAGE_SIZE]).is_err());
    m.push_free_undo(7);
    assert_eq!(m.pop_free_undo(), Some(7));
    assert_eq!(m.pop_free_undo(), Some(8));
    assert_eq!(m.duplicate(), m);
    assert_eq!(m.pop_free_undo(), Some(9));
    assert_eq!(m.pop_free_undo(), None);
}

#[test]
fn written_pages_and_a_new_root_are_dirty() {
    let mut provider = TxnPageProvider::new(100, BTREE_META_PAGE_ID);
    let mut dirty: BTreeMap<u64, Bytes> = BTreeMap::new();
    provider.swap_dirty(&mut dirty);
    provider.write_page(5, vec![9; PAGE_SIZE].into());
    provider.set_root_page_id(77);
    provider.swap_dirty(&mut dirty);
    assert!(dirty.contains_key(&5));
    assert!(dirty.contains_key(&BTREE_META_PAGE_ID));
    assert_eq!(provider.root_page_id(), 77);
    assert_eq!(BtreeMeta::decode(&dirty[&BTREE_META_PAGE_ID]).unwrap().root_page_id, 77);
    let held = provider.read_page(BTREE_META_PAGE_ID).unwrap();
    assert_eq!(BtreeMeta::decode(&held).unwrap().root_page_id, 77);
}

#[test]
fn test_demand_paging_hits_fetcher_once_then_cache() {
    let mut provider = TxnPageProvider::new(100, BTREE_META_PAGE_ID);
    let mut fetch_count: usize = 0;
    for _ in 0..2 {
        if provider.read_page(42).is_none() {
            fetch_count += 1;
            provider.load_page(42, vec![7; PAGE_SIZE].into());
        }
        assert_eq!(provider.read_page(42).unwrap()[0], 7);
    }
    assert_eq!(fetch_count, 1);
}

#[test]
fn a_record_goes_into_the_slot_asked_for() {
    let mut page = new_page().to_vec();
    let key = fixed_key_bytes(&[1]);
    insert_record_at_slot_checked(&mut page, 5, &key, &[7u8; VALUE_SIZE]).unwrap();
    assert_eq!(read_value(&page, 5, &key), Some(vec![7u8; VALUE_SIZE]));
    for slot in 0..5u16 {
        assert_eq!(read_value(&page, slot, &key), None);
    }
    let free = page_free_space(&page);
    let other = fixed_key_bytes(&[2]);
    insert_record_at_slot_checked(&mut page, 3, &other, &[8u8; VALUE_SIZE]).unwrap();
    assert_eq!(read_value(&page, 3, &other), Some(vec![8u8; VALUE_SIZE]));
    assert_eq!(read_value(&page, 5, &key), Some(vec![7u8; VALUE_SIZE]));
    assert_eq!(page_free_space(&page), free - 1060);
    insert_record_at_slot_checked(&mut page, 5, &key, &[9u8; VALUE_SIZE]).unwrap();
    assert_eq!(read_value(&page, 5, &key), Some(vec![9u8; VALUE_SIZE]));
    // Thousands of directory entries leave no room for the record.
    let before = page.clone();
    let err = insert_record_at_slot_checked(&mut page, 4000, &other, &[1u8; VALUE_SIZE]).unwrap_err();
    assert!(matches!(err, Error::InvalidValueSize(_, _)));
    assert_eq!(page, before);
}

#[test]
fn packing_twice_is_packing_once() {
    let mut page = new_page().to_vec();
    for i in 0..6u8 {
        insert_record(&mut page, &fixed_key_bytes(&[i]), &[i; VALUE_SIZE]).unwrap();
    }
    clear_slot(&mut page, 2);
    clear_slot(&mut page, 4);
    defragment(&mut page).unwrap();
    let once = page.clone();
    defragment(&mut page).unwrap();
    assert_eq!(page, once);
    assert_eq!(read_value(&page, 5, &fixed_key_bytes(&[5])), Some(vec![5u8; VALUE_SIZE]));
}
