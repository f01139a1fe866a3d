use bytes::Bytes;
use scale_kv::common::{IoError, IoErrorKind, KEY_SIZE, VALUE_SIZE};
use scale_kv::txn_kv::codec::{
    accept_payload, decode_payload, decode_snapshot, encode_payload, encode_snapshot, find_record,
    frame_record, replay_wal_with_base, wal_record, TxnStore, WriteSet,
};
use scale_kv::txn_kv::error::{TxnError, TxnErrorCategory};
use scale_kv::txn_kv::manager::{parse_key, recover_replica, CommitStep, Txn, TxnManager};
use scale_kv::txn_kv::storage::{
    check_quorum, pick_replica, repair_backoff_ms, QuorumWrite, ReplicaReply,
};

const SECONDS_30: u128 = 30_000_000_000;

fn key(byte: u8) -> [u8; KEY_SIZE] {
    let mut k = [0u8; KEY_SIZE];
    k[0] = byte;
    k
}

fn value(byte: u8) -> Bytes {
    let len = VALUE_SIZE.min(8);
    Bytes::from(vec![byte; len])
}

fn manager() -> TxnManager {
    TxnManager::new(TxnStore::new(), 0)
}

fn commit(tx: Txn, manager: &mut TxnManager, wal: &mut Vec<u8>) -> Result<u64, TxnError> {
    match tx.prepare_commit(manager, 0)? {
        CommitStep::Done(ts) => Ok(ts),
        CommitStep::Append { commit_ts, record } => {
            wal.extend_from_slice(&record);
            Ok(tx.finish_commit(manager, commit_ts))
        }
    }
}

fn reopen(snapshot: Option<&[u8]>, wal: &[u8]) -> TxnManager {
    let (store, max_ts, valid_len) = recover_replica(snapshot, wal).unwrap();
    assert_eq!(valid_len, wal.len() as u64);
    TxnManager::new(store, max_ts)
}

#[test]
fn test_wal_roundtrip() {
    let mut wal = Vec::new();
    let mut m = manager();
    let mut tx = m.begin_rw_timeout(SECONDS_30);
    tx.put(0, &key(1), b"v1").unwrap();
    tx.delete(0, &key(2)).unwrap();
    let ts = commit(tx, &mut m, &mut wal).unwrap();
    assert!(ts > 0);

    let m = reopen(None, &wal);
    let tx = m.begin_ro_timeout(SECONDS_30);
    assert_eq!(tx.get(&m, 0, &key(1)).unwrap(), Some(Bytes::from_static(b"v1")));
    assert_eq!(tx.get(&m, 0, &key(2)).unwrap(), None);
}

#[test]
fn test_txn_timeout() {
    let m = manager();
    let mut tx = m.begin_rw_timeout(1_000_000);
    let err = tx.put(5_000_000, &key(1), b"v1").unwrap_err();
    assert!(matches!(err, TxnError::TxnTimeout));
}

#[test]
fn test_txn_error_category_and_retryable() {
    let err = TxnError::WriteWriteConflict;
    assert_eq!(err.category(), TxnErrorCategory::Conflict);
    assert!(err.is_retryable());

    let err = TxnError::Io(IoError::new(IoErrorKind::AlreadyExists, "dup"));
    assert_eq!(err.category(), TxnErrorCategory::InvalidInput);
    assert!(!err.is_retryable());

    let err = TxnError::InvalidKeySize(1, KEY_SIZE);
    assert_eq!(err.category(), TxnErrorCategory::InvalidInput);
    assert!(!err.is_retryable());
}

#[test]
fn test_snapshot_reads() {
    let mut wal = Vec::new();
    let mut m = manager();

    let mut tx1 = m.begin_rw_timeout(SECONDS_30);
    tx1.put(0, &key(1), &value(1)).unwrap();

    let tx_ro = m.begin_ro_timeout(SECONDS_30);
    assert_eq!(tx_ro.get(&m, 0, &key(1)).unwrap(), None);

    commit(tx1, &mut m, &mut wal).unwrap();

    assert_eq!(tx_ro.get(&m, 0, &key(1)).unwrap(), None);
    let tx_ro2 = m.begin_ro_timeout(SECONDS_30);
    assert_eq!(tx_ro2.get(&m, 0, &key(1)).unwrap(), Some(value(1)));
}

#[test]
fn test_write_write_conflict() {
    let mut wal = Vec::new();
    let mut m = manager();

    let mut tx1 = m.begin_rw_timeout(SECONDS_30);
    let mut tx2 = m.begin_rw_timeout(SECONDS_30);

    tx1.put(0, &key(2), &value(2)).unwrap();
    tx2.put(0, &key(2), &value(3)).unwrap();

    commit(tx1, &mut m, &mut wal).unwrap();
    let err = commit(tx2, &mut m, &mut wal).unwrap_err();
    assert!(matches!(err, TxnError::WriteWriteConflict));
}

#[test]
fn test_delete_visibility() {
    let mut wal = Vec::new();
    let mut m = manager();

    let mut tx1 = m.begin_rw_timeout(SECONDS_30);
    tx1.put(0, &key(3), &value(3)).unwrap();
    commit(tx1, &mut m, &mut wal).unwrap();

    let tx_ro = m.begin_ro_timeout(SECONDS_30);
    assert_eq!(tx_ro.get(&m, 0, &key(3)).unwrap(), Some(value(3)));

    let mut tx2 = m.begin_rw_timeout(SECONDS_30);
    tx2.delete(0, &key(3)).unwrap();
    commit(tx2, &mut m, &mut wal).unwrap();

    assert_eq!(tx_ro.get(&m, 0, &key(3)).unwrap(), Some(value(3)));
    let tx_ro2 = m.begin_ro_timeout(SECONDS_30);
    assert_eq!(tx_ro2.get(&m, 0, &key(3)).unwrap(), None);
}

#[test]
fn test_multi_key_atomicity() {
    let mut wal = Vec::new();
    let mut m = manager();

    let mut tx = m.begin_rw_timeout(SECONDS_30);
    tx.put(0, &key(4), &value(4)).unwrap();
    tx.put(0, &key(5), &value(5)).unwrap();

    let tx_ro = m.begin_ro_timeout(SECONDS_30);
    assert_eq!(tx_ro.get(&m, 0, &key(4)).unwrap(), None);
    assert_eq!(tx_ro.get(&m, 0, &key(5)).unwrap(), None);

    commit(tx, &mut m, &mut wal).unwrap();

    let tx_ro2 = m.begin_ro_timeout(SECONDS_30);
    assert_eq!(tx_ro2.get(&m, 0, &key(4)).unwrap(), Some(value(4)));
    assert_eq!(tx_ro2.get(&m, 0, &key(5)).unwrap(), Some(value(5)));
}

#[test]
fn test_recovery_from_wal() {
    let mut wal = Vec::new();
    {
        let mut m = manager();
        let mut tx = m.begin_rw_timeout(SECONDS_30);
        tx.put(0, &key(6), &value(6)).unwrap();
        tx.put(0, &key(7), &value(7)).unwrap();
        commit(tx, &mut m, &mut wal).unwrap();
    }

    let m = reopen(None, &wal);
    let tx = m.begin_ro_timeout(SECONDS_30);
    assert_eq!(tx.get(&m, 0, &key(6)).unwrap(), Some(value(6)));
    assert_eq!(tx.get(&m, 0, &key(7)).unwrap(), Some(value(7)));
}

#[test]
fn test_checkpoint_and_recovery() {
    let mut wal = Vec::new();
    let snapshot = {
        let mut m = manager();
        let mut tx = m.begin_rw_timeout(SECONDS_30);
        tx.put(0, &key(10), &value(10)).unwrap();
        tx.put(0, &key(11), &value(11)).unwrap();
        commit(tx, &mut m, &mut wal).unwrap();
        m.checkpoint().unwrap()
    };

    let m = reopen(Some(&snapshot), &[]);
    let tx = m.begin_ro_timeout(SECONDS_30);
    assert_eq!(tx.get(&m, 0, &key(10)).unwrap(), Some(value(10)));
    assert_eq!(tx.get(&m, 0, &key(11)).unwrap(), Some(value(11)));
    // The records that the snapshot covers change nothing.
    let m = reopen(Some(&snapshot), &wal);
    assert_eq!(m.commit_ts, 1);
    let tx = m.begin_ro_timeout(SECONDS_30);
    assert_eq!(tx.get(&m, 0, &key(10)).unwrap(), Some(value(10)));
}

#[test]
fn test_scan_basic_ordering() {
    let mut wal = Vec::new();
    let mut m = manager();

    let mut tx = m.begin_rw_timeout(SECONDS_30);
    tx.put(0, &key(3), &value(3)).unwrap();
    tx.put(0, &key(1), &value(1)).unwrap();
    tx.put(0, &key(2), &value(2)).unwrap();
    commit(tx, &mut m, &mut wal).unwrap();

    let tx_ro = m.begin_ro_timeout(SECONDS_30);
    let rows = tx_ro.scan(&m, 0, &key(1), &key(4), 10).unwrap();
    let keys: Vec<u8> = rows.iter().map(|(k, _)| k[0]).collect();
    assert_eq!(keys, vec![1, 2, 3]);
}

#[test]
fn test_scan_respects_snapshot() {
    let mut wal = Vec::new();
    let mut m = manager();

    let mut tx = m.begin_rw_timeout(SECONDS_30);
    tx.put(0, &key(1), &value(1)).unwrap();
    commit(tx, &mut m, &mut wal).unwrap();

    let tx_ro = m.begin_ro_timeout(SECONDS_30);

    let mut tx2 = m.begin_rw_timeout(SECONDS_30);
    tx2.put(0, &key(1), &value(2)).unwrap();
    tx2.put(0, &key(2), &value(2)).unwrap();
    commit(tx2, &mut m, &mut wal).unwrap();

    let rows = tx_ro.scan(&m, 0, &key(1), &key(3), 10).unwrap();
    assert_eq!(rows.len(), 1);
    assert_eq!(rows[0].0[0], 1);
    assert_eq!(rows[0].1, value(1));
}

#[test]
fn test_scan_overlays_writes_and_deletes() {
    let mut wal = Vec::new();
    let mut m = manager();

    let mut tx = m.begin_rw_timeout(SECONDS_30);
    tx.put(0, &key(1), &value(1)).unwrap();
    tx.put(0, &key(2), &value(2)).unwrap();
    tx.put(0, &key(3), &value(3)).unwrap();
    commit(tx, &mut m, &mut wal).unwrap();

    let mut tx = m.begin_rw_timeout(SECONDS_30);
    tx.delete(0, &key(1)).unwrap();
    tx.put(0, &key(2), &value(9)).unwrap();

    let rows = tx.scan(&m, 0, &key(1), &key(4), 2).unwrap();
    let keys: Vec<u8> = rows.iter().map(|(k, _)| k[0]).collect();
    let values: Vec<u8> = rows.iter().map(|(_, v)| v[0]).collect();

    assert_eq!(keys, vec![2, 3]);
    assert_eq!(values, vec![9, 3]);
}

#[test]
fn txn_errors_have_their_texts() {
    assert_eq!(
        TxnError::QuorumNotMet { required: 2, succeeded: 1 }.category(),
        TxnErrorCategory::Unavailable
    );
    assert_eq!(TxnError::TxnTimeout.category(), TxnErrorCategory::Timeout);
    assert_eq!(
        TxnError::CorruptWal("x".to_string()).category(),
        TxnErrorCategory::Internal
    );
    assert_eq!(
        TxnError::InvalidQuorum { quorum: 3, replicas: 2 }.category(),
        TxnErrorCategory::InvalidInput
    );
    assert!(!TxnError::WriteWriteConflict.message().is_empty());
    assert!(matches!(parse_key(&[1, 2]), Err(TxnError::InvalidKeySize(2, 16))));
    assert_eq!(parse_key(&key(4)).unwrap(), key(4));
    let m = manager();
    let mut tx = m.begin_rw_timeout(SECONDS_30);
    assert!(matches!(
        tx.put(0, &key(1), &vec![0u8; VALUE_SIZE + 1]),
        Err(TxnError::InvalidValueSize(1025, 1024))
    ));
}

#[test]
fn payload_and_frame_round_trip() {
    let mut writes: WriteSet = WriteSet::new();
    writes.insert(key(1), Some(vec![1, 2, 3]));
    writes.insert(key(2), None);
    let payload = encode_payload(9, &writes).unwrap();
    let (ts, ops) = decode_payload(&payload).unwrap();
    assert_eq!(ts, 9);
    assert_eq!(ops, vec![(key(1), Some(vec![1, 2, 3])), (key(2), None)]);
    assert!(matches!(decode_payload(&payload[..5]), Err(TxnError::CorruptWal(_))));

    // CRC-32 of "123456789" is the well-known check value.
    let record = wal_record(b"123456789");
    assert_eq!(record, frame_record(b"123456789", 0xcbf43926));
    assert_eq!(find_record(&record, 0), Some((12, 21, 0xcbf43926)));
    assert_eq!(find_record(&record[..20], 0), None);
    assert!(accept_payload(&payload, 5, 5).is_some());
    assert!(accept_payload(&payload, 5, 6).is_none());

    // A torn or damaged tail ends the replay.
    let mut log = wal_record(&payload);
    let whole = log.len() as u64;
    log.extend_from_slice(&record);
    let mut store = TxnStore::new();
    assert_eq!(replay_wal_with_base(&log, &mut store, 0), (9, whole));
    let mut store2 = TxnStore::new();
    let mut damaged = wal_record(&payload);
    let last = damaged.len() - 1;
    damaged[last] ^= 1;
    assert_eq!(replay_wal_with_base(&damaged, &mut store2, 4), (4, 0));
    let snapshot = encode_snapshot(9, &store).unwrap();
    let (again, ts) = decode_snapshot(&snapshot).unwrap();
    assert_eq!(ts, 9);
    assert_eq!(again.rows.get(&key(1)).unwrap()[0].value, Some(vec![1, 2, 3]));
    assert!(decode_snapshot(&snapshot[..7]).is_err());
}

#[test]
fn quorum_rules() {
    assert!(check_quorum(2, 3).is_ok());
    assert!(matches!(
        check_quorum(0, 3),
        Err(TxnError::InvalidQuorum { quorum: 0, replicas: 3 })
    ));
    assert!(check_quorum(4, 3).is_err());

    let mut w = QuorumWrite::new(2);
    assert!(!w.answer(Ok(())));
    assert!(!w.answer(Err(TxnError::TxnTimeout)));
    assert!(w.answer(Ok(())));

    assert_eq!(repair_backoff_ms(1), Some(50));
    assert_eq!(repair_backoff_ms(4), Some(400));
    assert_eq!(repair_backoff_ms(5), None);

    let replies = vec![
        ReplicaReply::Found(3),
        ReplicaReply::Failed(TxnError::TxnTimeout),
        ReplicaReply::Found(7),
    ];
    assert_eq!(pick_replica(replies, 2).unwrap(), Some(2));
    assert_eq!(pick_replica(vec![ReplicaReply::Empty, ReplicaReply::Empty], 2).unwrap(), None);
    assert_eq!(
        pick_replica(vec![ReplicaReply::Empty, ReplicaReply::Failed(TxnError::TxnTimeout)], 2)
            .unwrap(),
        None
    );
    assert!(matches!(
        pick_replica(vec![ReplicaReply::Failed(TxnError::TxnTimeout)], 1),
        Err(TxnError::TxnTimeout)
    ));
    assert!(matches!(
        pick_replica(vec![], 2),
        Err(TxnError::QuorumNotMet { required: 2, succeeded: 0 })
    ));
    let mut w = QuorumWrite::new(2);
    w.answer(Ok(()));
    assert!(matches!(w.failed(), TxnError::QuorumNotMet { required: 2, succeeded: 1 }));
}
