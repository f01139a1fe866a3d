use scale_kv::common::{Error, IoErrorKind, KEY_SIZE, PAGE_SIZE, VALUE_SIZE};
use scale_kv::node::config::{StorageMaintenanceConfig, StorageMetricsSnapshot};
use scale_kv::node::mvcc::{
    apply_txn_batch_to_mvcc, gc_mvcc_versions, mvcc_get_at, MvccStore, MvccVersion,
};
use scale_kv::node::state::{
    limit_action, LimitAction, LimitStage, NodeState, TxnPlan,
};
use scale_kv::node::wal_codec::{
    decode_wal_batch, encode_wal_batch, get_wal_segment_max_lsn, read_wal_batch,
    wal_batch_encoded_len, WalBatch, WalRecord, WAL_OP_PAGE_DEL, WAL_OP_PAGE_IMAGE,
    WAL_OP_PAGE_PUT, WAL_OP_TXN_COMMIT, WAL_OP_TXN_DEL, WAL_OP_TXN_PUT,
};
use scale_kv::node::wal_files::{
    list_wal_segments, parse_wal_segment_name, truncate_wal_segments, wal_segment_name, wal_usage,
    wal_usage_exceeds_limits,
};
use scale_kv::node::wal_replay::{can_apply, needs_replay, replay_page_records, ReplayQueue};
use scale_kv::node::wal_writer::{group_outcome, SegmentPosition, WalWriterConfig};
use scale_kv::page_store::PageStore;
use scale_kv::slotted_page::{fixed_key_bytes, insert_record_at_slot_checked, new_page};

fn make_page(fill: u8) -> Vec<u8> {
    let mut page = vec![0u8; PAGE_SIZE];
    page[0] = fill;
    page[PAGE_SIZE - 1] = fill;
    page
}

fn record(lsn: u64, op: u8, page_id: u64, slot_id: u16, key: &[u8], value: &[u8]) -> WalRecord {
    WalRecord { lsn, op, page_id, slot_id, key: key.to_vec(), value: value.to_vec() }
}

#[test]
fn test_wal_encode_decode_roundtrip() {
    let batch = WalBatch {
        request_id: 0,
        start_lsn: 1,
        end_lsn: 2,
        records: vec![
            record(1, WAL_OP_PAGE_PUT, 7, 0, b"k1", b"v1"),
            record(2, WAL_OP_PAGE_DEL, 7, 0, b"k1", b""),
        ],
    };
    let mut buf = Vec::new();
    encode_wal_batch(&batch, &mut buf).unwrap();
    assert_eq!(wal_batch_encoded_len(&batch), buf.len() as u64);

    let mut cursor: usize = 0;
    let decoded = read_wal_batch(&buf, &mut cursor).unwrap().unwrap();
    assert_eq!(decoded.start_lsn, 1);
    assert_eq!(decoded.end_lsn, 2);
    assert_eq!(decoded.records.len(), 2);
    assert_eq!(decoded.records[0].key, b"k1".to_vec());
    assert_eq!(decoded.records[0].value, b"v1".to_vec());
    assert_eq!(cursor, buf.len());
    assert!(read_wal_batch(&buf, &mut cursor).unwrap().is_none());
    assert_eq!(decode_wal_batch(&buf[4..]).unwrap().end_lsn, 2);
    assert!(decode_wal_batch(&buf[4..20]).is_err());
}

#[test]
fn test_wal_decode_rejects_oversized_frame() {
    let oversized_len = (16 * 1024 * 1024 + 1) as u32;
    let log = oversized_len.to_le_bytes().to_vec();
    let mut cursor: usize = 0;
    let err = read_wal_batch(&log, &mut cursor).unwrap_err();
    assert!(matches!(err, Error::Io(ref ioe) if ioe.kind() == IoErrorKind::InvalidData));
    assert!(err.message().contains("too large"));
}

#[test]
fn test_wal_decode_rejects_truncated_frame_payload() {
    let mut log = 100u32.to_le_bytes().to_vec();
    log.extend_from_slice(&[0u8; 3]);
    let mut cursor: usize = 0;
    let err = read_wal_batch(&log, &mut cursor).unwrap_err();
    assert!(matches!(err, Error::Io(ref ioe) if ioe.kind() == IoErrorKind::UnexpectedEof));
}

#[test]
fn test_append_wal_batch_rejects_out_of_order_start_lsn() {
    let node = NodeState::recovered(0);
    let durable = node.durable_lsn();
    let batch = WalBatch {
        request_id: 0,
        start_lsn: durable + 1,
        end_lsn: durable + 2,
        records: vec![record(durable + 1, WAL_OP_PAGE_IMAGE, 1, 0, b"", &vec![0u8; PAGE_SIZE])],
    };
    let err = node.validate_incoming_wal_batch(&batch).unwrap_err();
    assert!(matches!(err, Error::Io(ref ioe) if ioe.kind() == IoErrorKind::InvalidInput));
}

#[test]
fn test_append_wal_batch_rejects_invalid_range_and_length() {
    let node = NodeState::recovered(0);
    let durable = node.durable_lsn();

    let bad_range = WalBatch {
        request_id: 0,
        start_lsn: durable,
        end_lsn: durable.saturating_sub(1),
        records: vec![],
    };
    let err = node.validate_incoming_wal_batch(&bad_range).unwrap_err();
    assert!(matches!(err, Error::Io(ref ioe) if ioe.kind() == IoErrorKind::InvalidInput));

    let bad_len = WalBatch {
        request_id: 0,
        start_lsn: durable,
        end_lsn: durable + 2,
        records: vec![record(durable, WAL_OP_PAGE_IMAGE, 1, 0, b"", &vec![0u8; PAGE_SIZE])],
    };
    let err = node.validate_incoming_wal_batch(&bad_len).unwrap_err();
    assert!(matches!(err, Error::Io(ref ioe) if ioe.kind() == IoErrorKind::InvalidInput));
}

#[test]
fn test_append_txn_batch_rejects_empty_writes() {
    let node = NodeState::recovered(0);
    let durable = node.durable_lsn();
    let err = node.plan_txn_batch(7, durable, durable, &vec![]).unwrap_err();
    assert!(matches!(err, Error::Io(ref ioe) if ioe.kind() == IoErrorKind::InvalidInput));
}

#[test]
fn test_replay_page_records_applies_updates() {
    let mut page = new_page().to_vec();
    let records = vec![
        record(1, WAL_OP_PAGE_PUT, 10, 0, &fixed_key_bytes(b"k1"), &vec![b'v'; VALUE_SIZE]),
        record(2, WAL_OP_PAGE_PUT, 10, 1, &fixed_key_bytes(b"k2"), &vec![b'w'; VALUE_SIZE]),
    ];
    assert_eq!(replay_page_records(&mut page, &records).unwrap(), 2);
    let read_slot = |page: &[u8], slot_id: u16| -> Vec<u8> {
        // Use slotted page layout (same offsets):
        let offset = 6 + 4 * slot_id as usize;
        let pos = u16::from_le_bytes([page[offset], page[offset + 1]]) as usize;
        let len = u16::from_le_bytes([page[offset + 2], page[offset + 3]]) as usize;
        if len == 0 {
            return Vec::new();
        }
        let value_start = pos + KEY_SIZE;
        let value_end = value_start + VALUE_SIZE;
        page[value_start..value_end].to_vec()
    };
    assert_eq!(read_slot(&page, 0), vec![b'v'; VALUE_SIZE]);
    assert_eq!(read_slot(&page, 1), vec![b'w'; VALUE_SIZE]);
}

#[test]
fn test_wal_slot_key_mismatch_is_rejected() {
    let mut page = new_page().to_vec();
    insert_record_at_slot_checked(
        &mut page,
        0,
        &fixed_key_bytes(b"k1"),
        &vec![b'v'; VALUE_SIZE],
    )
    .unwrap();
    let err = insert_record_at_slot_checked(
        &mut page,
        0,
        &fixed_key_bytes(b"k2"),
        &vec![b'w'; VALUE_SIZE],
    )
    .unwrap_err();
    assert!(err.message().contains("mismatch") || err.message().contains("key"));
}

#[test]
fn test_mvcc_gc_keeps_last_visible_base_version() {
    let mut store = MvccStore::new();
    store.insert(
        b"k".to_vec(),
        vec![
            MvccVersion { commit_lsn: 10, value: Some(b"v1".to_vec()) },
            MvccVersion { commit_lsn: 20, value: Some(b"v2".to_vec()) },
            MvccVersion { commit_lsn: 30, value: None },
        ],
    );

    let (_keys_touched, removed) = gc_mvcc_versions(&mut store, 20);
    assert_eq!(removed, 1);
    let versions = store.get(b"k".as_ref()).unwrap();
    assert_eq!(versions.len(), 2);
    assert_eq!(versions[0].commit_lsn, 20);
    assert_eq!(versions[1].commit_lsn, 30);
}

#[test]
fn test_mvcc_apply_batch_requires_commit_marker() {
    let mut mvcc = MvccStore::new();
    let mut batch = WalBatch {
        request_id: 0,
        start_lsn: 10,
        end_lsn: 11,
        records: vec![record(10, WAL_OP_TXN_PUT, 0, 0, b"k", b"v")],
    };
    apply_txn_batch_to_mvcc(&mut mvcc, &batch);
    assert!(mvcc.is_empty());

    batch.end_lsn = 13;
    batch.records.push(record(11, WAL_OP_TXN_DEL, 0, 0, b"d", b""));
    batch.records.push(record(12, WAL_OP_TXN_COMMIT, 0, 0, b"", b""));
    apply_txn_batch_to_mvcc(&mut mvcc, &batch);
    assert_eq!(mvcc.len(), 2);
    assert_eq!(mvcc.version_count(), 2);
    assert_eq!(mvcc_get_at(&mvcc, b"k", u64::MAX), Some(Some(b"v".to_vec())));
    assert_eq!(mvcc_get_at(&mvcc, b"d", u64::MAX), Some(None));
}

#[test]
fn test_mvcc_get_at_snapshot_boundaries() {
    let mut mvcc = MvccStore::new();
    mvcc.insert(
        b"k".to_vec(),
        vec![
            MvccVersion { commit_lsn: 10, value: Some(b"v1".to_vec()) },
            MvccVersion { commit_lsn: 20, value: None },
        ],
    );

    assert_eq!(mvcc_get_at(&mvcc, b"k", 9), None);
    assert_eq!(mvcc_get_at(&mvcc, b"k", 10), Some(Some(b"v1".to_vec())));
    assert_eq!(mvcc_get_at(&mvcc, b"k", 25), Some(None));
}

#[test]
fn test_mvcc_gc_noop_when_watermark_precedes_all_versions() {
    let mut store = MvccStore::new();
    store.insert(
        b"k".to_vec(),
        vec![
            MvccVersion { commit_lsn: 30, value: Some(b"v1".to_vec()) },
            MvccVersion { commit_lsn: 40, value: Some(b"v2".to_vec()) },
        ],
    );

    let (keys_touched, removed) = gc_mvcc_versions(&mut store, 20);
    assert_eq!(keys_touched, 0);
    assert_eq!(removed, 0);
    assert_eq!(store.get(b"k".as_ref()).unwrap().len(), 2);
}

#[test]
fn test_maybe_checkpoint_by_pressure_noop_when_under_threshold() {
    let store = PageStore::open(0, 0);
    let maintenance = StorageMaintenanceConfig::default();
    assert!(!store.under_pressure(&maintenance.checkpoint));
}

#[test]
fn test_maybe_checkpoint_by_pressure_triggers_on_dirty_pressure() {
    let mut store = PageStore::open(0, 0);
    let mut maintenance = StorageMaintenanceConfig::default();
    maintenance.checkpoint.max_dirty_pages = 0;
    maintenance.checkpoint.max_dirty_bytes = usize::MAX;

    let page = make_page(1);
    store.put(1, &page, 1).unwrap();
    assert_eq!(store.buffer_stats().dirty_count, 1);

    assert!(store.under_pressure(&maintenance.checkpoint));
    let written = store.dirty_pages();
    store.finish_checkpoint(&written);
    assert_eq!(store.buffer_stats().dirty_count, 0);
}

#[test]
fn test_mvcc_read_handle_admin_abort() {
    let mut node = NodeState::recovered(0);
    let durable = node.durable_lsn();
    node.mvcc.insert(
        b"k".to_vec(),
        vec![MvccVersion { commit_lsn: durable, value: Some(b"v".to_vec()) }],
    );

    let mut handle = node.begin_mvcc_ro();
    let id = handle.id().unwrap();
    assert!(node.list_active_reads().iter().any(|r| r.id == id));
    assert_eq!(node.mvcc_get(&mut handle, 0, b"k").unwrap(), Some(b"v".to_vec()));

    assert!(node.abort_active_read(id));
    let err = node.mvcc_get(&mut handle, 0, b"k").unwrap_err();
    assert!(err.message().contains("aborted"));
}

#[test]
fn test_mvcc_read_handle_timeout() {
    let mut node = NodeState::recovered(0);
    let durable = node.durable_lsn();
    node.mvcc.insert(
        b"k".to_vec(),
        vec![MvccVersion { commit_lsn: durable, value: Some(b"v".to_vec()) }],
    );

    let mut handle = node.begin_mvcc_ro_with_timeout(Some(1_000_000));
    let err = node.mvcc_get(&mut handle, 5_000_000, b"k").unwrap_err();
    assert!(matches!(err, Error::TxnTimeout));
    assert!(!handle.is_active(&node.active_reads));
}

#[test]
fn test_wal_truncation_keeps_current_segment() {
    assert!(truncate_wal_segments(&vec![1], &vec![0], 100).is_empty());
}

#[test]
fn test_wal_truncation_deletes_old_segments() {
    let mut logs: Vec<Vec<u8>> = Vec::new();
    for (start_lsn, end_lsn) in [(1, 10), (11, 20), (21, 30)] {
        let batch = WalBatch { request_id: 0, start_lsn, end_lsn, records: vec![] };
        let mut buf = Vec::new();
        encode_wal_batch(&batch, &mut buf).unwrap();
        logs.push(buf);
    }
    let names = vec![wal_segment_name(2), "other".to_string(), wal_segment_name(1), wal_segment_name(3)];
    let segments = list_wal_segments(&names);
    assert_eq!(segments, vec![1, 2, 3]);
    let max_lsns: Vec<u64> = logs.iter().map(|l| get_wal_segment_max_lsn(l)).collect();
    assert_eq!(max_lsns, vec![10, 20, 30]);

    assert_eq!(truncate_wal_segments(&segments, &max_lsns, 15), vec![1]);
    assert_eq!(truncate_wal_segments(&vec![2, 3], &vec![20, 30], 25), vec![2]);
    assert!(truncate_wal_segments(&vec![3], &vec![30], 100).is_empty());
}

#[test]
fn test_invalid_maintenance_config_fails_fast() {
    let cfg = StorageMaintenanceConfig {
        max_wal_segments: 0,
        ..StorageMaintenanceConfig::default()
    };
    let err = cfg.validate().unwrap_err();
    assert!(matches!(err, Error::Io(ref ioe) if ioe.kind() == IoErrorKind::InvalidInput));
    assert!(StorageMaintenanceConfig::default().validate().is_ok());
}

#[test]
fn test_metrics_snapshot_exposes_core_fields() {
    let mut store = PageStore::open(0, 0);
    store.put_direct(7, &make_page(7)).unwrap();
    assert!(store.get_with_lsn(7).is_some());
    assert!(store.get_with_lsn(9999).is_none());
    assert!(store.complete_read(None).is_none());
    let stats = store.cache_stats();
    let metrics = StorageMetricsSnapshot {
        wal_segments: 1,
        wal_bytes: 2,
        wal_backpressure_count: 3,
        checkpoint_runs: 4,
        checkpoint_total_duration_ms: 5,
        checkpoint_last_duration_ms: 6,
        gc_runs: 7,
        gc_versions_removed_total: 8,
        gc_last_duration_ms: 9,
        mvcc_keys: 10,
        mvcc_versions: 11,
        active_reads: 12,
        page_cache_resident_pages: store.len(),
        page_cache_hits: stats.hits,
        page_cache_misses: stats.misses,
    };
    assert!(metrics.page_cache_hits >= 1);
    assert!(metrics.page_cache_misses >= 1);
    assert!(metrics.page_cache_resident_pages >= 1);
    let json = metrics.render_json("1.25");
    assert!(json.starts_with("{\"wal\":{\"segments\":1,\"bytes\":2,\"backpressure_count\":3}"));
    assert!(json.contains("1.25"));
    assert!(metrics.render_prometheus("1.25").contains("1.25"));
}

#[test]
fn test_wal_backpressure_under_tight_byte_limit() {
    let maintenance = StorageMaintenanceConfig {
        max_wal_bytes: 1,
        max_wal_segments: usize::MAX,
        truncate_wal: false,
        ..StorageMaintenanceConfig::default()
    };
    let node = NodeState::recovered(0);
    let start = node.durable_lsn();
    let plan = node.plan_txn_batch(1, start, start + 1, &vec![(99, make_page(9).into())]).unwrap();
    let batch = match plan {
        TxnPlan::Append(batch) => batch,
        TxnPlan::Done(_) => panic!("the request is new"),
    };
    let over = wal_usage_exceeds_limits(1, 0, &maintenance, wal_batch_encoded_len(&batch));
    assert!(over.is_some());
    assert!(matches!(
        limit_action(LimitStage::First, over, &maintenance),
        LimitAction::CheckAlone
    ));
    assert!(matches!(
        limit_action(LimitStage::Alone, over, &maintenance),
        LimitAction::Checkpoint { truncate: false }
    ));
    match limit_action(LimitStage::AfterCheckpoint, over, &maintenance) {
        LimitAction::Reject(Error::Io(ioe)) => assert_eq!(ioe.kind(), IoErrorKind::WouldBlock),
        _ => panic!("the log is over its limit"),
    }
    assert!(matches!(
        limit_action(LimitStage::First, None, &maintenance),
        LimitAction::Proceed
    ));
}

#[test]
fn test_restart_preserves_data_and_durable_lsn_monotonic() {
    let mut log: Vec<u8> = Vec::new();
    let mut store = PageStore::open(0, 0);
    let commit = {
        let mut node = NodeState::recovered(0);
        let start = node.durable_lsn();
        let writes = vec![(55, make_page(5).into())];
        let batch = match node.plan_txn_batch(10, start, start + 1, &writes).unwrap() {
            TxnPlan::Append(batch) => batch,
            TxnPlan::Done(_) => panic!("the request is new"),
        };
        encode_wal_batch(&batch, &mut log).unwrap();
        node.remember_request(10, batch.end_lsn);
        node.apply_batch(&batch);
        assert!(matches!(
            node.plan_txn_batch(10, start, start + 1, &writes),
            Ok(TxnPlan::Done(lsn)) if lsn == start + 1
        ));
        assert_eq!(batch.end_lsn, start + 1);
        batch.end_lsn
    };

    let mut cursor: usize = 0;
    let batch = read_wal_batch(&log, &mut cursor).unwrap().unwrap();
    let mut queue = ReplayQueue::new();
    let mut flushes = queue.take_in(&batch.records, 0);
    flushes.extend(queue.drain());
    for flush in &flushes {
        if flush.records.is_empty() {
            continue;
        }
        let mut page = vec![0u8; PAGE_SIZE];
        let lsn = replay_page_records(&mut page, &flush.records).unwrap();
        store.put(flush.page_id, &page, lsn).unwrap();
    }
    let node = NodeState::recovered(get_wal_segment_max_lsn(&log));
    assert!(node.durable_lsn() >= commit);
    let (got, _) = store.get_with_lsn(55).unwrap();
    assert_eq!(got[0], 5);
}

#[test]
fn segments_and_groups() {
    assert_eq!(parse_wal_segment_name(&wal_segment_name(17)), Some(17));
    assert_eq!(parse_wal_segment_name("pages.db"), None);
    assert_eq!(wal_usage(&vec![3, 4]), (2, 7));
    let defaults = StorageMaintenanceConfig::default();
    assert_eq!(wal_usage_exceeds_limits(1, 10, &defaults, 10), None);
    assert!(wal_usage_exceeds_limits(65, 10, &defaults, 10).is_some());

    let config = WalWriterConfig::from_maintenance(&defaults);
    assert_eq!(config.max_group_commit_batches, 64);
    assert!(config.may_join(63));
    assert!(!config.may_join(64));

    let (mut at, fresh) = SegmentPosition::open(&vec![], 0);
    assert!(fresh);
    assert!(!at.rotate_if_needed());
    at.appended(64 * 1024 * 1024);
    assert!(at.rotate_if_needed());
    assert_eq!(at.size, 0);

    let good = group_outcome(&vec![4, 9, 6], None);
    assert_eq!(good.durable_lsn, Some(9));
    assert_eq!(good.acks.len(), 3);
    assert!(matches!(good.acks[0], Ok(4)));
    let bad = group_outcome(&vec![4, 9], Some("disk full".to_string()));
    assert_eq!(bad.durable_lsn, None);
    assert!(matches!(&bad.acks[1], Err(Error::Io(e)) if e.message.contains("disk full")));
}

#[test]
fn replay_skips_what_was_applied() {
    let r = record(5, WAL_OP_PAGE_IMAGE, 1, 0, b"", &make_page(1));
    assert!(needs_replay(&r, 4));
    assert!(!needs_replay(&r, 5));
    let mut page = vec![0u8; PAGE_SIZE];
    assert_eq!(replay_page_records(&mut page, &vec![r]).unwrap(), 5);
    assert_eq!(page, make_page(1));
}

/// The pages of a node in memory.
struct NodePages {
    state: NodeState,
    store: PageStore,
}

impl NodePages {
    fn open() -> NodePages {
        NodePages { state: NodeState::recovered(0), store: PageStore::open(0, 0) }
    }

    fn put(&mut self, id: u64, page: &[u8]) {
        self.store.put_direct(id, page).unwrap();
        self.state.add_page(id);
    }

    fn get(&mut self, id: u64) -> Option<Vec<u8>> {
        if !self.state.has_page(id) {
            return None;
        }
        self.store.get_with_lsn(id).map(|(page, _)| page.to_vec())
    }

    fn delete(&mut self, id: u64) {
        self.store.put_direct(id, &vec![0u8; PAGE_SIZE]).unwrap();
        self.state.remove_page(id);
    }
}

#[test]
fn node_tests_test_put_and_get() {
    let mut node = NodePages::open();
    let page = make_page(1);
    node.put(1, &page);
    let result = node.get(1).unwrap();
    assert_eq!(result[0], 1);
    assert_eq!(result[PAGE_SIZE - 1], 1);
}

#[test]
fn node_tests_test_get_missing() {
    let mut node = NodePages::open();
    assert_eq!(node.get(999), None);
}

#[test]
fn node_pages_are_replaced_counted_and_deleted() {
    let mut node = NodePages::open();
    node.put(1, &make_page(1));
    node.put(1, &make_page(2));
    assert_eq!(node.get(1).unwrap()[0], 2);
    node.put(2, &make_page(3));
    assert_eq!(node.state.len(), 2);
    assert!(node.state.has_page(2));
    node.delete(2);
    assert_eq!(node.get(2), None);
    assert_eq!(node.state.len(), 1);
}

#[test]
fn rows_of_the_node_are_read_at_a_snapshot() {
    let mut node = NodeState::recovered(0);
    let batch = WalBatch {
        request_id: 3,
        start_lsn: 1,
        end_lsn: 3,
        records: vec![
            record(1, WAL_OP_TXN_PUT, 0, 0, b"k", b"v"),
            record(2, WAL_OP_TXN_COMMIT, 0, 0, b"", b""),
        ],
    };
    node.apply_batch(&batch);
    assert_eq!(node.txn_get(b"k", 2), None);
    assert_eq!(node.txn_get(b"k", 3), Some(Some(b"v".to_vec())));
    assert!(node.update_last_applied(2));
    assert!(!node.update_last_applied(2));
    assert_eq!(node.gc_watermark(), node.durable_lsn());
    assert!(node.gc_tick(2).is_none());
    assert!(node.gc_tick(2).is_some());
}

#[test]
fn records_are_held_against_their_page() {
    let page = new_page().to_vec();
    let key = fixed_key_bytes(b"k");
    let value = vec![1u8; VALUE_SIZE];
    assert!(can_apply(&page, &record(1, WAL_OP_PAGE_PUT, 1, 0, &key, &value)));
    assert!(!can_apply(&page[..100], &record(1, WAL_OP_PAGE_PUT, 1, 0, &key, &value)));
    assert!(!can_apply(&page, &record(1, WAL_OP_PAGE_DEL, 1, 60000, &[], &[])));
    assert!(can_apply(&page, &record(1, WAL_OP_PAGE_DEL, 1, 0, &[], &[])));
    let mut damaged = page.clone();
    damaged[4] = 255;
    damaged[5] = 255;
    assert!(!can_apply(&damaged, &record(1, WAL_OP_PAGE_PUT, 1, 0, &key, &value)));
    assert!(can_apply(&damaged, &record(1, WAL_OP_PAGE_PUT, 1, 0, b"short", &value)));
}

#[test]
fn a_batch_leaves_the_applied_position_alone() {
    let mut node = NodeState::recovered(9);
    node.add_page(3);
    let batch = WalBatch {
        request_id: 4,
        start_lsn: 10,
        end_lsn: 11,
        records: vec![record(10, WAL_OP_PAGE_IMAGE, 3, 0, &[], &make_page(1))],
    };
    node.apply_batch(&batch);
    assert_eq!(node.applied_lsn, 9);
    assert!(node.has_page(3));
    let (_, guard) = node.begin_mvcc_ro_guard();
    assert!(node.abort_active_read(guard.id));
    assert_eq!(node.applied_lsn, 9);
}
